use moq_publisher::indexer::{build_index, derive_group, Frag, IndexError, InitRange};
use mp4::{BoxHeader, BoxType, MoofBox, MoovBox, ReadBox, WriteBox};
use std::io::Cursor;

fn plain_box(code: &[u8; 4], payload: &[u8]) -> Vec<u8> {
    let mut out = Vec::new();
    out.extend_from_slice(&((payload.len() as u32 + 8).to_be_bytes()));
    out.extend_from_slice(code);
    out.extend_from_slice(payload);
    out
}

fn moov_box(tracks: &[(u32, u32, Option<u64>)]) -> Vec<u8> {
    let mut moov = MoovBox::default();
    for (track_id, timescale, delay) in tracks {
        moov.traks.push(Default::default());
        let trak = moov.traks.last_mut().unwrap();
        trak.tkhd.track_id = *track_id;
        trak.mdia.mdhd.timescale = *timescale;
        trak.mdia.minf.stbl.stco = Some(Default::default());
        if let Some(delay) = delay {
            trak.edts = Some(Default::default());
            let edts = trak.edts.as_mut().unwrap();
            edts.elst = Some(Default::default());
            let elst = edts.elst.as_mut().unwrap();
            elst.entries.push(Default::default());
            elst.entries[0].media_time = *delay;
        }
    }
    let mut out = Vec::new();
    moov.write_box(&mut out).unwrap();
    out
}

fn moof_box(fragments: &[(u32, Option<u64>)]) -> Vec<u8> {
    let mut payload = plain_box(b"mfhd", &[0, 0, 0, 0, 0, 0, 0, 1]);
    for (track_id, decode_time) in fragments {
        let mut header = vec![0, 0, 0, 0];
        header.extend_from_slice(&track_id.to_be_bytes());
        let mut traf = plain_box(b"tfhd", &header);
        if let Some(time) = decode_time {
            let mut field = vec![1, 0, 0, 0];
            field.extend_from_slice(&time.to_be_bytes());
            traf.extend(plain_box(b"tfdt", &field));
        }
        payload.extend(plain_box(b"traf", &traf));
    }
    plain_box(b"moof", &payload)
}

fn two_track_file() -> (Vec<u8>, Vec<usize>) {
    let mut file = Vec::new();
    let mut marks = Vec::new();
    file.extend(plain_box(b"ftyp", b"isom\0\0\0\0isom"));
    file.extend(moov_box(&[(1, 1000, None), (2, 48000, Some(96000))]));
    marks.push(file.len());
    for (track, time) in [(1u32, 0u64), (2, 0), (1, 500), (2, 24000), (1, 2500), (2, 48000)] {
        marks.push(file.len());
        file.extend(moof_box(&[(track, Some(time))]));
        marks.push(file.len());
        file.extend(plain_box(b"mdat", &[track as u8; 5]));
    }
    marks.push(file.len());
    (file, marks)
}

#[test]
fn movie_box_of_the_mp4_crate_is_read_alike() {
    let moov = moov_box(&[(7, 90000, Some(1234)), (9, 44100, None)]);
    let mut reader = Cursor::new(&moov[..]);
    let header = BoxHeader::read(&mut reader).unwrap();
    assert!(header.name == BoxType::MoovBox);
    let parsed = MoovBox::read_box(&mut reader, header.size).unwrap();
    assert_eq!(parsed.traks.len(), 2);
    let idx = build_index(&moov).unwrap();
    for trak in &parsed.traks {
        assert_eq!(idx.timescale.get(&trak.tkhd.track_id), Some(&trak.mdia.mdhd.timescale));
    }
    assert_eq!(idx.timescale.len(), 2);
    assert_eq!(idx.delay.get(&7), Some(&1234));
    assert_eq!(idx.delay.get(&9), None);
    assert_eq!(idx.init, InitRange { start: 0, end: moov.len() as u64 });
    assert!(idx.frags.is_empty());
}

#[test]
fn fragment_box_is_read_as_the_mp4_crate_reads_it() {
    let moof = moof_box(&[(4, Some(77)), (5, None), (6, Some(u64::MAX))]);
    let mut reader = Cursor::new(&moof[..]);
    let header = BoxHeader::read(&mut reader).unwrap();
    assert!(header.name == BoxType::MoofBox);
    let parsed = MoofBox::read_box(&mut reader, header.size).unwrap();
    let times: Vec<(u32, Option<u64>)> = parsed
        .trafs
        .iter()
        .map(|t| (t.tfhd.track_id, t.tfdt.as_ref().map(|d| d.base_media_decode_time)))
        .collect();
    assert_eq!(times, vec![(4, Some(77)), (5, None), (6, Some(u64::MAX))]);
    let mut file = moof.clone();
    file.extend(plain_box(b"mdat", &[]));
    let idx = build_index(&file).unwrap();
    let found: Vec<(u32, u64)> = idx.frags.iter().map(|f| (f.track_id, f.tfdt)).collect();
    assert_eq!(found, vec![(4, 77), (6, u64::MAX)]);
}

#[test]
fn fragments_are_grouped_numbered_and_sorted() {
    let (file, marks) = two_track_file();
    let idx = build_index(&file).unwrap();
    assert_eq!(idx.init, InitRange { start: 0, end: marks[0] as u64 });
    assert_eq!(idx.timescale.get(&1), Some(&1000));
    assert_eq!(idx.timescale.get(&2), Some(&48000));
    assert_eq!(idx.delay.get(&1), None);
    assert_eq!(idx.delay.get(&2), Some(&96000));
    let coords: Vec<(u32, u64, u32, u64)> =
        idx.frags.iter().map(|f| (f.track_id, f.group, f.object, f.tfdt)).collect();
    assert_eq!(
        coords,
        vec![
            (1, 0, 0, 0),
            (1, 0, 1, 500),
            (2, 2, 0, 0),
            (1, 2, 0, 2500),
            (2, 2, 1, 24000),
            (2, 3, 0, 48000),
        ]
    );
    let first = idx.frags[0];
    assert_eq!(first.moof_start, marks[1] as u64);
    assert_eq!(first.mdat_start, marks[2] as u64);
    assert_eq!(first.mdat_size, 13);
    for f in &idx.frags {
        assert!(f.moof_start < f.mdat_start);
    }
}

#[test]
fn group_is_the_floor_of_adjusted_time_over_timescale() {
    assert_eq!(derive_group(2500, 0, 1000), 2);
    assert_eq!(derive_group(999, 0, 1000), 0);
    assert_eq!(derive_group(999, 1, 1000), 1);
    assert_eq!(derive_group(u64::MAX, 1, 1), u64::MAX);
    assert_eq!(derive_group(u64::MAX, u64::MAX, 2), u64::MAX / 2);
    assert_eq!(derive_group(17, 0, 0), 17);
}

#[test]
fn fragment_box_without_media_data_is_dropped() {
    let mut file = Vec::new();
    file.extend(plain_box(b"ftyp", b"isom"));
    file.extend(moov_box(&[(1, 1000, None)]));
    file.extend(moof_box(&[(1, Some(0))]));
    file.extend(plain_box(b"free", &[0; 3]));
    let kept = file.len();
    file.extend(moof_box(&[(1, Some(1000))]));
    let media = file.len();
    file.extend(plain_box(b"mdat", &[9; 4]));
    let idx = build_index(&file).unwrap();
    assert_eq!(
        idx.frags,
        vec![Frag {
            track_id: 1,
            tfdt: 1000,
            group: 1,
            object: 0,
            moof_start: kept as u64,
            mdat_start: media as u64,
            mdat_size: 12,
        }]
    );
}

#[test]
fn track_fragment_without_decode_time_is_not_indexed() {
    let mut file = Vec::new();
    file.extend(moof_box(&[(1, None), (2, Some(5))]));
    file.extend(plain_box(b"mdat", &[]));
    let idx = build_index(&file).unwrap();
    assert_eq!(idx.frags.len(), 1);
    assert_eq!(idx.frags[0].track_id, 2);
    assert_eq!(idx.frags[0].group, 5);
    assert_eq!(idx.init, InitRange { start: 0, end: 0 });
}

#[test]
fn zero_size_header_ends_the_scan() {
    let mut file = Vec::new();
    file.extend(plain_box(b"ftyp", b"isom"));
    let end = file.len();
    file.extend_from_slice(&[0, 0, 0, 0, b'f', b'r', b'e', b'e']);
    file.extend(moof_box(&[(1, Some(0))]));
    file.extend(plain_box(b"mdat", &[1]));
    let idx = build_index(&file).unwrap();
    assert!(idx.frags.is_empty());
    assert_eq!(idx.init, InitRange { start: 0, end: 0 });
    assert!(end > 0);
}

#[test]
fn empty_file_has_an_empty_index() {
    let idx = build_index(&[]).unwrap();
    assert!(idx.frags.is_empty());
    assert!(idx.timescale.is_empty());
    assert_eq!(idx.init, InitRange { start: 0, end: 0 });
}

#[test]
fn malformed_files_are_refused() {
    assert_eq!(build_index(&[0, 0, 0]).err(), Some(IndexError::BadHeader { offset: 0 }));
    assert_eq!(
        build_index(&[0, 0, 0, 4, b'f', b'r', b'e', b'e']).err(),
        Some(IndexError::BadHeader { offset: 0 })
    );
    assert_eq!(
        build_index(&[0, 0, 0, 9, b'f', b'r', b'e', b'e']).err(),
        Some(IndexError::Truncated { offset: 0 })
    );
    let mut file = plain_box(b"free", &[]);
    file.extend(plain_box(b"moov", &[0, 0, 0, 3]));
    assert_eq!(build_index(&file).err(), Some(IndexError::BadMovieBox { offset: 8 }));
    let mut file = plain_box(b"moof", &[0, 0, 0, 8, b't', b'r', b'a', b'f']);
    file.extend(plain_box(b"mdat", &[]));
    assert_eq!(build_index(&file).err(), Some(IndexError::BadFragmentBox { offset: 0 }));
    let file = moof_box(&[(1, Some(0))]);
    assert_eq!(
        build_index(&file).err(),
        Some(IndexError::BadHeader { offset: file.len() as u64 })
    );
}

#[test]
fn long_form_header_is_read() {
    let mut file = Vec::new();
    file.extend_from_slice(&[0, 0, 0, 1, b'f', b'r', b'e', b'e', 0, 0, 0, 0, 0, 0, 0, 18, 1, 2]);
    file.extend(moof_box(&[(3, Some(7))]));
    let media = file.len();
    file.extend_from_slice(&[0, 0, 0, 1, b'm', b'd', b'a', b't', 0, 0, 0, 0, 0, 0, 0, 17, 5]);
    let idx = build_index(&file).unwrap();
    assert_eq!(idx.frags.len(), 1);
    assert_eq!(idx.frags[0].moof_start, 18);
    assert_eq!(idx.frags[0].mdat_start, media as u64);
    assert_eq!(idx.frags[0].mdat_size, 17);
    assert_eq!(idx.frags[0].byte_span().unwrap().len as usize, file.len() - 18);
}

#[test]
fn box_without_a_size_inside_a_movie_box_is_refused() {
    let mut file = plain_box(b"ftyp", b"isom");
    file.extend(plain_box(b"moov", &[0, 0, 0, 0, b'x', b'x', b'x', b'x', 1, 2, 3, 4]));
    assert_eq!(build_index(&file).err(), Some(IndexError::BadMovieBox { offset: 12 }));
    let mut file = plain_box(b"moof", &[0, 0, 0, 0, b'x', b'x', b'x', b'x']);
    file.extend(plain_box(b"mdat", &[]));
    assert_eq!(build_index(&file).err(), Some(IndexError::BadFragmentBox { offset: 0 }));
}

#[test]
fn media_data_without_a_size_ends_the_scan_with_its_fragments() {
    let mut file = moof_box(&[(1, Some(3))]);
    let media = file.len();
    file.extend_from_slice(&[0, 0, 0, 0, b'm', b'd', b'a', b't', 1, 2, 3]);
    file.extend(moof_box(&[(1, Some(4))]));
    file.extend(plain_box(b"mdat", &[]));
    let idx = build_index(&file).unwrap();
    assert_eq!(
        idx.frags,
        vec![Frag {
            track_id: 1,
            tfdt: 3,
            group: 3,
            object: 0,
            moof_start: 0,
            mdat_start: media as u64,
            mdat_size: 0,
        }]
    );
}

#[test]
fn later_timing_counts_for_later_fragments_only() {
    let mut file = moof_box(&[(1, Some(3000)), (1, Some(3001))]);
    file.extend(plain_box(b"mdat", &[]));
    file.extend(moov_box(&[(1, 1000, Some(500))]));
    file.extend(moof_box(&[(1, Some(3000))]));
    file.extend(plain_box(b"mdat", &[]));
    let idx = build_index(&file).unwrap();
    let coords: Vec<(u64, u32, u64)> = idx.frags.iter().map(|f| (f.group, f.object, f.tfdt)).collect();
    assert_eq!(coords, vec![(3, 0, 3000), (3000, 0, 3000), (3001, 0, 3001)]);
}

#[test]
fn init_range_is_empty_where_the_movie_box_is_missing() {
    let mut file = plain_box(b"free", &[]);
    file.extend(plain_box(b"ftyp", &[]));
    let idx = build_index(&file).unwrap();
    assert_eq!(idx.init, InitRange { start: 8, end: 8 });
    assert_eq!(idx.init.byte_span().len, 0);
    let mut file = plain_box(b"free", &[1, 2, 3]);
    file.extend(plain_box(b"ftyp", b"isom"));
    file.extend(moof_box(&[(1, Some(0))]));
    file.extend(plain_box(b"mdat", &[7]));
    let idx = build_index(&file).unwrap();
    assert_eq!(idx.init, InitRange { start: 11, end: 11 });
    assert_eq!(idx.frags.len(), 1);
    let idx = build_index(&plain_box(b"ftyp", b"isom")).unwrap();
    assert_eq!(idx.init, InitRange { start: 0, end: 0 });
}

#[test]
fn init_range_is_empty_where_the_movie_box_ends_before_the_file_type_box() {
    let mut file = moov_box(&[(1, 1000, None)]);
    let start = file.len() as u64;
    file.extend(plain_box(b"ftyp", b"isom"));
    let idx = build_index(&file).unwrap();
    assert_eq!(idx.init, InitRange { start, end: start });
    assert_eq!(idx.timescale.get(&1), Some(&1000));
}

#[test]
fn init_range_runs_from_the_file_type_box_to_the_end_of_the_movie_box() {
    let mut file = plain_box(b"free", &[0; 5]);
    file.extend(plain_box(b"ftyp", b"isom"));
    file.extend(plain_box(b"free", &[0; 2]));
    file.extend(moov_box(&[(1, 1000, None)]));
    let end = file.len() as u64;
    file.extend(plain_box(b"free", &[0; 9]));
    let idx = build_index(&file).unwrap();
    assert_eq!(idx.init, InitRange { start: 13, end });
    let idx = build_index(&moov_box(&[(1, 1000, None)])).unwrap();
    assert_eq!(idx.init.start, 0);
    assert!(idx.init.end > 0);
}
