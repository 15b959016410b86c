use moq_publisher::be::{read_u32, read_u64};
use moq_publisher::boxes::{child, find_last, header, list_children, BoxHeader, Child, MOOV, TRAK};
use moq_publisher::fragment::{read_decode_time, read_fragment_tracks, read_track_fragment, TrackFragment};
use moq_publisher::movie::{
    read_edit_delay, read_field_after_times, read_movie_tracks, read_track_timing, TrackTiming,
};
use mp4::{MoovBox, WriteBox};

fn boxed(code: &[u8; 4], payload: &[u8]) -> Vec<u8> {
    let mut out = Vec::new();
    out.extend_from_slice(&((payload.len() as u32 + 8).to_be_bytes()));
    out.extend_from_slice(code);
    out.extend_from_slice(payload);
    out
}

fn timed(version: u8, field: u32) -> Vec<u8> {
    let mut out = vec![version, 0, 0, 0];
    let times = if version == 1 { 16 } else { 8 };
    out.extend(std::iter::repeat(0xaa).take(times));
    out.extend_from_slice(&field.to_be_bytes());
    out.extend_from_slice(&[0; 8]);
    out
}

fn elst(version: u8, media_times: &[u64]) -> Vec<u8> {
    let mut out = vec![version, 0, 0, 0];
    out.extend_from_slice(&(media_times.len() as u32).to_be_bytes());
    for time in media_times {
        if version == 1 {
            out.extend_from_slice(&7u64.to_be_bytes());
            out.extend_from_slice(&time.to_be_bytes());
        } else {
            out.extend_from_slice(&7u32.to_be_bytes());
            out.extend_from_slice(&(*time as u32).to_be_bytes());
        }
        out.extend_from_slice(&[0, 1, 0, 0]);
    }
    out
}

fn trak(parts: &[Vec<u8>]) -> Vec<u8> {
    boxed(b"trak", &parts.concat())
}

fn whole(data: &[u8]) -> Child {
    child(data, 0, data.len()).unwrap()
}

#[test]
fn big_endian_fields_are_read() {
    let data = [1, 2, 3, 4, 5, 6, 7, 8, 9];
    assert_eq!(read_u32(&data, 0), 0x0102_0304);
    assert_eq!(read_u32(&data, 5), 0x0607_0809);
    assert_eq!(read_u64(&data, 1), 0x0203_0405_0607_0809);
    assert_eq!(read_u64(&[0xff; 8], 0), u64::MAX);
}

#[test]
fn headers_are_read_in_both_forms() {
    let short = [0, 0, 0, 20, b'm', b'o', b'o', b'v', 0];
    assert_eq!(header(&short, 0), Some(BoxHeader { code: MOOV, size: 20, payload: 8 }));
    assert_eq!(header(&short, 1), Some(BoxHeader { code: 0x6f6f_7600, size: 0x146d, payload: 9 }));
    assert_eq!(header(&short, 2), None);
    assert_eq!(header(&short, 9), None);
    let long = [9, 0, 0, 0, 1, b't', b'r', b'a', b'k', 0, 0, 0, 1, 0, 0, 0, 40];
    assert_eq!(header(&long, 1), Some(BoxHeader { code: TRAK, size: (1u64 << 32) + 32, payload: 17 }));
    assert_eq!(header(&long[..16], 1), None);
    let none = [0, 0, 0, 1, b'f', b'r', b'e', b'e', 0, 0, 0, 0, 0, 0, 0, 0];
    assert_eq!(header(&none, 0), Some(BoxHeader { code: 0x6672_6565, size: 0, payload: 16 }));
    let small = [0, 0, 0, 1, b'f', b'r', b'e', b'e', 0, 0, 0, 0, 0, 0, 0, 15];
    assert_eq!(header(&small, 0), None);
    let least = [0, 0, 0, 1, b'f', b'r', b'e', b'e', 0, 0, 0, 0, 0, 0, 0, 16];
    assert_eq!(header(&least, 0), Some(BoxHeader { code: 0x6672_6565, size: 8, payload: 16 }));
    assert_eq!(
        child(&least, 0, 16),
        Some(Child { code: 0x6672_6565, start: 0, body: 16, end: 16 })
    );
}

#[test]
fn boxes_in_a_row_are_listed() {
    let mut data = boxed(b"aaaa", &[1, 2]);
    data.extend(boxed(b"bbbb", &[]));
    data.extend(boxed(b"aaaa", &[3]));
    let boxes = list_children(&data, 0, data.len()).unwrap();
    let shape: Vec<(usize, usize, usize)> = boxes.iter().map(|c| (c.start, c.body, c.end)).collect();
    assert_eq!(shape, vec![(0, 8, 10), (10, 18, 18), (18, 26, 27)]);
    assert_eq!(find_last(&boxes, 0x6161_6161), Some(boxes[2]));
    assert_eq!(find_last(&boxes, 0x6262_6262), Some(boxes[1]));
    assert_eq!(find_last(&boxes, 0x6363_6363), None);
    assert_eq!(list_children(&data, 0, 10).unwrap().len(), 1);
    assert_eq!(list_children(&data, 10, 10), Some(vec![]));
    assert_eq!(list_children(&data, 0, data.len() - 1), None);
    assert_eq!(list_children(&data, 0, 12), None);
    assert_eq!(list_children(&data, 1, data.len()), None);
    assert_eq!(child(&data, 0, 9), None);
    assert_eq!(child(&[0, 0, 0, 7, 1, 1, 1, 1], 0, 8), None);
    assert_eq!(child(&[0, 0, 0, 0, 1, 1, 1, 1], 0, 8), None);
}

#[test]
fn field_after_times_depends_on_the_version() {
    let v0 = timed(0, 77);
    assert_eq!(read_field_after_times(&v0, 0, v0.len()), Some(77));
    assert_eq!(read_field_after_times(&v0, 0, 16), Some(77));
    assert_eq!(read_field_after_times(&v0, 0, 15), None);
    let v1 = timed(1, 0xffff_ffff);
    assert_eq!(read_field_after_times(&v1, 0, v1.len()), Some(u32::MAX));
    assert_eq!(read_field_after_times(&v1, 0, 23), None);
    let v2 = timed(2, 5);
    assert_eq!(read_field_after_times(&v2, 0, v2.len()), None);
    assert_eq!(read_field_after_times(&v0, 0, 3), None);
}

#[test]
fn edit_list_gives_a_delay_only_with_one_entry() {
    let one = elst(0, &[500]);
    assert_eq!(read_edit_delay(&one, 0, one.len()), Some(Some(500)));
    let long = elst(1, &[1 << 40]);
    assert_eq!(read_edit_delay(&long, 0, long.len()), Some(Some(1 << 40)));
    let two = elst(0, &[500, 600]);
    assert_eq!(read_edit_delay(&two, 0, two.len()), Some(None));
    let none = elst(0, &[]);
    assert_eq!(read_edit_delay(&none, 0, none.len()), Some(None));
    assert_eq!(read_edit_delay(&one, 0, one.len() - 1), None);
    assert_eq!(read_edit_delay(&two, 0, two.len() - 1), None);
    assert_eq!(read_edit_delay(&one, 0, 7), None);
    let other = elst(9, &[0xffff_ffff]);
    assert_eq!(read_edit_delay(&other, 0, other.len()), Some(Some(0xffff_ffff)));
}

#[test]
fn track_timing_needs_header_and_media_header() {
    let tkhd = boxed(b"tkhd", &timed(0, 3));
    let mdia = boxed(b"mdia", &boxed(b"mdhd", &timed(1, 90000)));
    let edts = boxed(b"edts", &boxed(b"elst", &elst(0, &[9])));
    let full = trak(&[tkhd.clone(), edts.clone(), mdia.clone()]);
    assert_eq!(
        read_track_timing(&full, &whole(&full)),
        Some(TrackTiming { track_id: 3, timescale: 90000, delay: Some(9) })
    );
    let plain = trak(&[mdia.clone(), boxed(b"free", &[1]), tkhd.clone()]);
    assert_eq!(
        read_track_timing(&plain, &whole(&plain)),
        Some(TrackTiming { track_id: 3, timescale: 90000, delay: None })
    );
    let no_list = trak(&[tkhd.clone(), boxed(b"edts", &[]), mdia.clone()]);
    assert_eq!(
        read_track_timing(&no_list, &whole(&no_list)),
        Some(TrackTiming { track_id: 3, timescale: 90000, delay: None })
    );
    let twice = trak(&[tkhd.clone(), boxed(b"tkhd", &timed(0, 4)), mdia.clone()]);
    assert_eq!(read_track_timing(&twice, &whole(&twice)).unwrap().track_id, 4);
    let late = trak(&[
        tkhd.clone(),
        boxed(b"edts", &[boxed(b"free", &[]), boxed(b"elst", &elst(0, &[9]))].concat()),
        mdia.clone(),
    ]);
    assert_eq!(
        read_track_timing(&late, &whole(&late)),
        Some(TrackTiming { track_id: 3, timescale: 90000, delay: None })
    );
    let first = trak(&[
        tkhd.clone(),
        boxed(b"edts", &[boxed(b"elst", &elst(0, &[9])), vec![1, 2, 3]].concat()),
        mdia.clone(),
    ]);
    assert_eq!(
        read_track_timing(&first, &whole(&first)),
        Some(TrackTiming { track_id: 3, timescale: 90000, delay: Some(9) })
    );
    let headless = trak(&[mdia.clone()]);
    assert_eq!(read_track_timing(&headless, &whole(&headless)), None);
    let mute = trak(&[tkhd.clone(), boxed(b"mdia", &[])]);
    assert_eq!(read_track_timing(&mute, &whole(&mute)), None);
    let cut = trak(&[tkhd.clone(), mdia.clone(), boxed(b"edts", &boxed(b"elst", &[0, 0, 0]))]);
    assert_eq!(read_track_timing(&cut, &whole(&cut)), None);
    let torn = trak(&[tkhd, mdia, vec![0, 0, 0, 9, 1, 1, 1, 1]]);
    assert_eq!(read_track_timing(&torn, &whole(&torn)), None);
}

#[test]
fn movie_tracks_come_in_the_order_of_the_file() {
    let first = trak(&[boxed(b"tkhd", &timed(0, 2)), boxed(b"mdia", &boxed(b"mdhd", &timed(0, 48000)))]);
    let second = trak(&[boxed(b"tkhd", &timed(1, 1)), boxed(b"mdia", &boxed(b"mdhd", &timed(0, 1000)))]);
    let moov = [boxed(b"mvhd", &[0; 4]), first, boxed(b"free", &[]), second].concat();
    assert_eq!(
        read_movie_tracks(&moov, 0, moov.len()),
        Some(vec![
            TrackTiming { track_id: 2, timescale: 48000, delay: None },
            TrackTiming { track_id: 1, timescale: 1000, delay: None },
        ])
    );
    assert_eq!(read_movie_tracks(&moov, 0, 12), Some(vec![]));
    assert_eq!(read_movie_tracks(&moov, 0, moov.len() - 1), None);
    let bad = [boxed(b"mvhd", &[0; 4]), boxed(b"trak", &[])].concat();
    assert_eq!(read_movie_tracks(&bad, 0, bad.len()), None);
    assert_eq!(read_movie_tracks(&moov, 12, moov.len()), None);
    assert_eq!(read_movie_tracks(&moov, 12, 12), None);
}

#[test]
fn movie_box_written_by_the_mp4_crate_is_read() {
    let mut moov = MoovBox::default();
    for (version, track_id, timescale) in [(0u8, 11u32, 600u32), (1, 12, 44100)] {
        moov.traks.push(Default::default());
        let trak = moov.traks.last_mut().unwrap();
        trak.tkhd.version = version;
        trak.tkhd.track_id = track_id;
        trak.mdia.mdhd.version = version;
        trak.mdia.mdhd.timescale = timescale;
        trak.edts = Some(Default::default());
        let edts = trak.edts.as_mut().unwrap();
        edts.elst = Some(Default::default());
        let list = edts.elst.as_mut().unwrap();
        list.version = version;
        list.entries.push(Default::default());
        list.entries[0].media_time = 1000 + track_id as u64;
        if version == 1 {
            list.entries.push(Default::default());
        }
    }
    let mut bytes = Vec::new();
    moov.write_box(&mut bytes).unwrap();
    assert_eq!(
        read_movie_tracks(&bytes, 8, bytes.len()),
        Some(vec![
            TrackTiming { track_id: 11, timescale: 600, delay: Some(1011) },
            TrackTiming { track_id: 12, timescale: 44100, delay: None },
        ])
    );
}

#[test]
fn decode_time_depends_on_the_version() {
    let mut v0 = vec![0, 0, 0, 0];
    v0.extend_from_slice(&0xffff_fffeu32.to_be_bytes());
    assert_eq!(read_decode_time(&v0, 0, 8), Some(0xffff_fffe));
    assert_eq!(read_decode_time(&v0, 0, 7), None);
    let mut v1 = vec![1, 0, 0, 0];
    v1.extend_from_slice(&u64::MAX.to_be_bytes());
    assert_eq!(read_decode_time(&v1, 0, 12), Some(u64::MAX));
    assert_eq!(read_decode_time(&v1, 0, 11), None);
    assert_eq!(read_decode_time(&[2, 0, 0, 0, 0, 0, 0, 0, 0, 0, 0, 0], 0, 12), None);
    assert_eq!(read_decode_time(&v0, 0, 3), None);
}

#[test]
fn track_fragments_are_read() {
    let tfhd = boxed(b"tfhd", &[0, 0, 0, 0, 0, 0, 1, 2]);
    let tfdt = boxed(b"tfdt", &[0, 0, 0, 0, 0, 0, 0, 9]);
    let traf = boxed(b"traf", &[tfhd.clone(), boxed(b"trun", &[0; 8]), tfdt.clone()].concat());
    assert_eq!(
        read_track_fragment(&traf, &whole(&traf)),
        Some(TrackFragment { track_id: 258, decode_time: Some(9) })
    );
    let timeless = boxed(b"traf", &tfhd);
    assert_eq!(
        read_track_fragment(&timeless, &whole(&timeless)),
        Some(TrackFragment { track_id: 258, decode_time: None })
    );
    let headless = boxed(b"traf", &tfdt);
    assert_eq!(read_track_fragment(&headless, &whole(&headless)), None);
    let short = boxed(b"traf", &boxed(b"tfhd", &[0, 0, 0, 0, 0, 0, 1]));
    assert_eq!(read_track_fragment(&short, &whole(&short)), None);
    let bad_time = boxed(b"traf", &[tfhd.clone(), boxed(b"tfdt", &[3, 0, 0, 0, 0, 0, 0, 9])].concat());
    assert_eq!(read_track_fragment(&bad_time, &whole(&bad_time)), None);
    let moof = [boxed(b"mfhd", &[0; 8]), traf, timeless].concat();
    assert_eq!(
        read_fragment_tracks(&moof, 0, moof.len()),
        Some(vec![
            TrackFragment { track_id: 258, decode_time: Some(9) },
            TrackFragment { track_id: 258, decode_time: None },
        ])
    );
    let broken = [boxed(b"mfhd", &[0; 8]), headless].concat();
    assert_eq!(read_fragment_tracks(&broken, 0, broken.len()), None);
    assert_eq!(read_fragment_tracks(&moof, 16, moof.len()), None);
    assert_eq!(read_fragment_tracks(&moof, 0, 16), Some(vec![]));
    assert_eq!(read_fragment_tracks(&moof, 0, moof.len() - 3), None);
}
