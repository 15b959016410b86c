use moq_publisher::indexer::{build_index, ByteSpan, Frag, InitRange, Mp4Index};
use moq_publisher::order::{arrange, ranks_no_later, Rank};
use moq_publisher::range::{
    handle_range_request, read_frag, read_span, select, ContentType, Locator, RangeQuery, Reply,
    ServerFault,
};
use std::collections::HashMap;

fn frag(track_id: u32, group: u64, object: u32, at: u64) -> Frag {
    Frag { track_id, tfdt: 0, group, object, moof_start: at, mdat_start: at + 1, mdat_size: 1 }
}

fn index() -> Mp4Index {
    Mp4Index {
        init: InitRange { start: 0, end: 2 },
        timescale: HashMap::new(),
        delay: HashMap::new(),
        frags: vec![
            frag(1, 0, 0, 2),
            frag(2, 0, 0, 4),
            frag(1, 0, 1, 6),
            frag(1, 1, 0, 8),
            frag(1, 1, 1, 10),
            frag(1, 2, 0, 12),
            frag(1, 2, 1, 14),
        ],
    }
}

fn file() -> Vec<u8> {
    (0u8..16).collect()
}

fn query(sg: u64, so: u32, eg: u64, eo: u32) -> RangeQuery {
    RangeQuery { start_group_id: sg, start_object_id: so, end_group_id: eg, end_object_id: eo }
}

fn body(reply: Reply) -> Vec<u8> {
    match reply {
        Reply::Body { content_type, bytes } => {
            assert_eq!(content_type, ContentType::VideoMp4);
            bytes
        }
        other => panic!("expected a body, got {:?}", other),
    }
}

#[test]
fn range_at_one_place_gives_init_and_that_place() {
    let reply = handle_range_request(query(0, 0, 0, 0), &file(), &index());
    assert_eq!(reply.status(), 200);
    assert_eq!(body(reply), vec![0, 1, 2, 3, 4, 5]);
}

#[test]
fn range_across_groups_takes_tail_middle_and_head() {
    let range = query(0, 1, 2, 0).locator();
    let chosen: Vec<(u64, u32)> =
        select(&index(), &range).iter().map(|f| (f.group, f.object)).collect();
    assert_eq!(chosen, vec![(0, 1), (1, 0), (1, 1), (2, 0)]);
    let bytes = body(handle_range_request(query(0, 1, 2, 0), &file(), &index()));
    assert_eq!(bytes, vec![0, 1, 6, 7, 8, 9, 10, 11, 12, 13]);
}

#[test]
fn range_within_a_group_is_bounded_by_both_objects() {
    let range = Locator { start_group: 1, start_object: 1, end_group: 1, end_object: 5 };
    let chosen: Vec<(u64, u32)> =
        select(&index(), &range).iter().map(|f| (f.group, f.object)).collect();
    assert_eq!(chosen, vec![(1, 1)]);
    assert!(range.contains(&frag(9, 1, 5, 0)));
    assert!(!range.contains(&frag(9, 1, 6, 0)));
    assert!(!range.contains(&frag(9, 1, 0, 0)));
    assert!(!range.contains(&frag(9, 2, 1, 0)));
}

#[test]
fn range_that_selects_nothing_still_gives_the_init_segment() {
    let reply = handle_range_request(query(7, 0, 7, 9), &file(), &index());
    assert_eq!(body(reply), vec![0, 1]);
}

#[test]
fn range_with_groups_reversed_takes_only_the_two_ends() {
    let range = query(2, 1, 0, 0).locator();
    let chosen: Vec<(u32, u64, u32)> =
        select(&index(), &range).iter().map(|f| (f.track_id, f.group, f.object)).collect();
    assert_eq!(chosen, vec![(1, 0, 0), (2, 0, 0), (1, 2, 1)]);
}

#[test]
fn range_reply_fails_where_the_file_is_too_short() {
    let short: Vec<u8> = (0u8..9).collect();
    let reply = handle_range_request(query(0, 0, 2, 9), &short, &index());
    assert_eq!(reply.status(), 500);
    assert!(matches!(reply, Reply::ServerError(ServerFault::Read)));
    let none: Vec<u8> = vec![0];
    let reply = handle_range_request(query(9, 0, 9, 0), &none, &index());
    assert!(matches!(reply, Reply::ServerError(ServerFault::Read)));
}

#[test]
fn spans_are_read_only_within_the_file() {
    let data = file();
    assert_eq!(read_span(&data, &ByteSpan { start: 3, len: 2 }), Some(&data[3..5]));
    assert_eq!(read_span(&data, &ByteSpan { start: 16, len: 0 }), Some(&data[16..]));
    assert_eq!(read_span(&data, &ByteSpan { start: 15, len: 2 }), None);
    assert_eq!(read_span(&data, &ByteSpan { start: 17, len: 0 }), None);
    assert_eq!(read_span(&data, &ByteSpan { start: 1, len: u64::MAX }), None);
    assert_eq!(read_frag(&data, &frag(1, 0, 0, 14)), Some(&data[14..16]));
    assert_eq!(read_frag(&data, &frag(1, 0, 0, 15)), None);
    let reversed = Frag { mdat_start: 3, moof_start: 3, ..frag(1, 0, 0, 3) };
    assert_eq!(reversed.byte_span(), None);
    let endless = Frag { mdat_start: u64::MAX, mdat_size: 1, ..frag(1, 0, 0, 3) };
    assert_eq!(endless.byte_span(), None);
    assert_eq!(frag(1, 0, 0, 3).byte_span(), Some(ByteSpan { start: 3, len: 2 }));
    assert_eq!(InitRange { start: 5, end: 3 }.byte_span(), ByteSpan { start: 5, len: 0 });
    assert_eq!(InitRange { start: 3, end: 5 }.byte_span(), ByteSpan { start: 3, len: 2 });
}

#[test]
fn content_types_have_their_names() {
    assert_eq!(ContentType::VideoMp4.name(), "video/mp4");
    assert_eq!(ContentType::OctetStream.name(), "application/octet-stream");
}

#[test]
fn arranging_is_stable() {
    let mut frags = vec![
        frag(1, 2, 0, 0),
        frag(2, 0, 1, 1),
        frag(3, 2, 0, 2),
        frag(4, 0, 0, 3),
        frag(5, 0, 1, 4),
        frag(6, 1, 7, 5),
    ];
    arrange(&mut frags, Rank::GroupObject);
    let tracks: Vec<u32> = frags.iter().map(|f| f.track_id).collect();
    assert_eq!(tracks, vec![4, 2, 5, 6, 1, 3]);
    arrange(&mut frags, Rank::GroupTrack);
    let tracks: Vec<u32> = frags.iter().map(|f| f.track_id).collect();
    assert_eq!(tracks, vec![2, 4, 5, 6, 1, 3]);
    assert!(ranks_no_later(&frag(1, 0, 9, 0), &frag(1, 1, 0, 0), Rank::GroupObject));
    assert!(!ranks_no_later(&frag(1, 0, 9, 0), &frag(1, 0, 8, 0), Rank::GroupObject));
    assert!(ranks_no_later(&frag(1, 0, 9, 0), &frag(1, 0, 8, 0), Rank::GroupTrack));
    assert!(!ranks_no_later(&frag(2, 0, 0, 0), &frag(1, 0, 8, 0), Rank::GroupTrack));
}

#[test]
fn range_over_an_indexed_file_returns_its_boxes() {
    let mut data: Vec<u8> = Vec::new();
    data.extend_from_slice(&[0, 0, 0, 12, b'f', b't', b'y', b'p', b'i', b's', b'o', b'm']);
    data.extend_from_slice(&[0, 0, 0, 16, b'm', b'o', b'o', b'v']);
    data.extend_from_slice(&[0, 0, 0, 8, b'm', b'v', b'h', b'd']);
    let fragment = data.len();
    data.extend_from_slice(&[0, 0, 0, 56, b'm', b'o', b'o', b'f']);
    data.extend_from_slice(&[0, 0, 0, 8, b'm', b'f', b'h', b'd']);
    data.extend_from_slice(&[0, 0, 0, 40, b't', b'r', b'a', b'f']);
    data.extend_from_slice(&[0, 0, 0, 16, b't', b'f', b'h', b'd', 0, 0, 0, 0, 0, 0, 0, 1]);
    data.extend_from_slice(&[0, 0, 0, 16, b't', b'f', b'd', b't', 0, 0, 0, 0, 0, 0, 0, 3]);
    data.extend_from_slice(&[0, 0, 0, 10, b'm', b'd', b'a', b't', 1, 2]);
    let idx = build_index(&data).unwrap();
    assert_eq!(idx.init, InitRange { start: 0, end: 28 });
    assert_eq!(idx.frags.len(), 1);
    assert_eq!(idx.frags[0].group, 3);
    assert_eq!(idx.frags[0].tfdt, 3);
    assert_eq!(idx.frags[0].moof_start, fragment as u64);
    let bytes = body(handle_range_request(query(3, 0, 3, 0), &data, &idx));
    assert_eq!(bytes, data);
    let bytes = body(handle_range_request(query(0, 0, 0, 0), &data, &idx));
    assert_eq!(bytes, data[..28].to_vec());
}
