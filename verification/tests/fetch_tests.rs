use moq_publisher::fetch::{fetch_payload, handle_fetch_request, FetchDescriptor};
use moq_publisher::indexer::{Frag, InitRange, Mp4Index};
use moq_publisher::range::{ClientFault, ContentType, Locator, Reply, ServerFault};
use std::collections::HashMap;

const BODY: &[u8] = &[0x16, 0, 1, 0];

fn small_index() -> Mp4Index {
    Mp4Index {
        init: InitRange { start: 0, end: 4 },
        timescale: HashMap::new(),
        delay: HashMap::new(),
        frags: vec![Frag {
            track_id: 1,
            tfdt: 0,
            group: 0,
            object: 0,
            moof_start: 4,
            mdat_start: 6,
            mdat_size: 2,
        }],
    }
}

#[test]
fn fetch_reply_frames_init_and_fragment() {
    let file: Vec<u8> = vec![10, 11, 12, 13, 20, 21, 22, 23];
    let idx = small_index();
    let range = Locator { start_group: 0, start_object: 0, end_group: 0, end_object: 0 };
    let reply = handle_fetch_request(BODY, &FetchDescriptor::StandAlone(range), &file, &idx);
    match reply {
        Reply::Body { content_type, bytes } => {
            assert_eq!(content_type, ContentType::OctetStream);
            let expected: Vec<u8> = vec![
                0, 0, 0, 10, 0, 0, 0, 128, 0, 4, 10, 11, 12, 13, 0, 0, 0, 10, 0, 0, 0, 128, 0, 4,
                20, 21, 22, 23,
            ];
            assert_eq!(bytes, expected);
        }
        _ => panic!("expected a body"),
    }
}

fn refused(r: Result<&[u8], Reply>) -> (u16, ClientFault, &'static str) {
    match r {
        Err(reply) => match reply {
            Reply::ClientError(fault) => (reply.status(), fault, reply.message().unwrap()),
            other => panic!("expected a client error, got {:?}", other),
        },
        Ok(payload) => panic!("expected a refusal, got {:?}", payload),
    }
}

#[test]
fn fetch_payload_rejects_short_bodies() {
    assert_eq!(refused(fetch_payload(&[])), (400, ClientFault::EmptyBody, "Empty request body"));
    assert_eq!(refused(fetch_payload(&[1])), (400, ClientFault::ShortMessage, "Message too short"));
    assert_eq!(
        refused(fetch_payload(&[0x16, 0])),
        (400, ClientFault::ShortMessage, "Message too short")
    );
    let nothing: &[u8] = &[];
    assert_eq!(fetch_payload(&[1, 2, 3]).unwrap(), nothing);
    assert_eq!(fetch_payload(&[1, 2, 3, 4]).unwrap(), &[4u8][..]);
}

#[test]
fn empty_and_short_bodies_are_refused_whatever_else_is_given() {
    let idx = small_index();
    let range = Locator { start_group: 0, start_object: 0, end_group: 0, end_object: 0 };
    let file: Vec<u8> = vec![10, 11, 12, 13, 20, 21, 22, 23];
    for request in [FetchDescriptor::StandAlone(range), FetchDescriptor::Joining, FetchDescriptor::Undecodable] {
        let reply = handle_fetch_request(&[], &request, &file, &idx);
        assert_eq!(reply.status(), 400);
        assert_eq!(reply.message(), Some("Empty request body"));
        assert!(matches!(reply, Reply::ClientError(ClientFault::EmptyBody)));
        let reply = handle_fetch_request(&[0x16, 0x00], &request, &[], &idx);
        assert_eq!(reply.status(), 400);
        assert_eq!(reply.message(), Some("Message too short"));
        assert!(matches!(reply, Reply::ClientError(ClientFault::ShortMessage)));
    }
    let reply = handle_fetch_request(&[0x16, 0, 0], &FetchDescriptor::StandAlone(range), &file, &idx);
    assert_eq!(reply.status(), 200);
    assert_eq!(reply.message(), None);
}

#[test]
fn faults_have_their_messages() {
    assert_eq!(ClientFault::EmptyBody.message(), "Empty request body");
    assert_eq!(ClientFault::ShortMessage.message(), "Message too short");
    assert_eq!(ClientFault::Undecodable.message(), "Failed to parse Fetch request");
    assert_eq!(
        ClientFault::UnsupportedFetch.message(),
        "Only StandAlone fetch requests are supported"
    );
    assert_eq!(ServerFault::Read.message(), "Failed to read the media file");
    assert_eq!(ServerFault::Serialize.message(), "Failed to serialize FetchObject");
    assert_eq!(Reply::ServerError(ServerFault::Read).message(), Some("Failed to read the media file"));
    assert_eq!(
        Reply::ClientError(ClientFault::UnsupportedFetch).message(),
        Some("Only StandAlone fetch requests are supported")
    );
}

fn body(reply: Reply) -> Vec<u8> {
    match reply {
        Reply::Body { content_type, bytes } => {
            assert_eq!(content_type, ContentType::OctetStream);
            bytes
        }
        other => panic!("expected a body, got {:?}", other),
    }
}

fn frames(mut bytes: &[u8]) -> Vec<Vec<u8>> {
    let mut out = Vec::new();
    while !bytes.is_empty() {
        let len = u32::from_be_bytes([bytes[0], bytes[1], bytes[2], bytes[3]]) as usize;
        out.push(bytes[4..4 + len].to_vec());
        bytes = &bytes[4 + len..];
    }
    out
}

#[test]
fn fetch_objects_are_those_that_the_protocol_library_reads_back() {
    let file: Vec<u8> = (0u8..200).collect();
    let idx = Mp4Index {
        init: InitRange { start: 0, end: 70 },
        timescale: HashMap::new(),
        delay: HashMap::new(),
        frags: vec![
            Frag { track_id: 1, tfdt: 0, group: 63, object: 64, moof_start: 70, mdat_start: 80, mdat_size: 10 },
            Frag { track_id: 1, tfdt: 0, group: 16384, object: 70000, moof_start: 90, mdat_start: 95, mdat_size: 5 },
            Frag { track_id: 1, tfdt: 0, group: 1 << 30, object: 16383, moof_start: 100, mdat_start: 101, mdat_size: 0 },
            Frag { track_id: 1, tfdt: 0, group: (1 << 62) - 1, object: 1, moof_start: 101, mdat_start: 110, mdat_size: 90 },
        ],
    };
    let range = Locator { start_group: 0, start_object: 0, end_group: u64::MAX, end_object: u64::MAX };
    let bytes = body(handle_fetch_request(BODY, &FetchDescriptor::StandAlone(range), &file, &idx));
    let objects = frames(&bytes);
    assert_eq!(objects.len(), 5);
    let total: usize = objects.iter().map(|o| 4 + o.len()).sum();
    assert_eq!(bytes.len(), total);
    let expected: Vec<(u64, u64, std::ops::Range<usize>)> = vec![
        (0, 0, 0..70),
        (63, 64, 70..90),
        (16384, 70000, 90..100),
        (1 << 30, 16383, 100..101),
        ((1 << 62) - 1, 1, 101..200),
    ];
    for (object, (group, id, span)) in objects.iter().zip(expected) {
        let mut wire = bytes::Bytes::copy_from_slice(object);
        let read = moqtail::model::data::fetch_object::FetchObject::deserialize(&mut wire).unwrap();
        assert_eq!(read.group_id, group);
        assert_eq!(read.subgroup_id, 0);
        assert_eq!(read.object_id, id);
        assert_eq!(read.publisher_priority, 128);
        assert!(read.extension_headers.is_none());
        assert_eq!(read.payload.unwrap().to_vec(), file[span].to_vec());
        assert!(wire.is_empty());
    }
}

#[test]
fn fetch_object_that_cannot_be_serialized_fails_the_whole_reply() {
    let file: Vec<u8> = (0u8..20).collect();
    let mut idx = small_index();
    idx.frags.push(Frag {
        track_id: 1,
        tfdt: 0,
        group: 1 << 62,
        object: 0,
        moof_start: 8,
        mdat_start: 9,
        mdat_size: 1,
    });
    let range = Locator { start_group: 0, start_object: 0, end_group: 1 << 62, end_object: 0 };
    let reply = handle_fetch_request(BODY, &FetchDescriptor::StandAlone(range), &file, &idx);
    assert_eq!(reply.status(), 500);
    assert!(matches!(reply, Reply::ServerError(ServerFault::Serialize)));
}

#[test]
fn fetch_reply_fails_where_bytes_are_missing() {
    let file: Vec<u8> = vec![1, 2, 3, 4, 5];
    let idx = small_index();
    let range = Locator { start_group: 0, start_object: 0, end_group: 0, end_object: 0 };
    let reply = handle_fetch_request(BODY, &FetchDescriptor::StandAlone(range), &file, &idx);
    assert!(matches!(reply, Reply::ServerError(ServerFault::Read)));
    let reply = handle_fetch_request(BODY, &FetchDescriptor::StandAlone(range), &[], &idx);
    assert!(matches!(reply, Reply::ServerError(ServerFault::Read)));
}

#[test]
fn fetch_that_selects_nothing_gives_the_init_object_alone() {
    let file: Vec<u8> = vec![10, 11, 12, 13, 20, 21, 22, 23];
    let idx = small_index();
    let range = Locator { start_group: 5, start_object: 0, end_group: 5, end_object: 0 };
    let bytes = body(handle_fetch_request(BODY, &FetchDescriptor::StandAlone(range), &file, &idx));
    assert_eq!(bytes, vec![0, 0, 0, 10, 0, 0, 0, 128, 0, 4, 10, 11, 12, 13]);
}

#[test]
fn other_fetches_are_the_clients_fault() {
    let file: Vec<u8> = Vec::new();
    let idx = small_index();
    let reply = handle_fetch_request(BODY, &FetchDescriptor::Joining, &file, &idx);
    assert_eq!(reply.status(), 400);
    assert!(matches!(reply, Reply::ClientError(ClientFault::UnsupportedFetch)));
    let reply = handle_fetch_request(BODY, &FetchDescriptor::Undecodable, &file, &idx);
    assert_eq!(reply.status(), 400);
    assert!(matches!(reply, Reply::ClientError(ClientFault::Undecodable)));
}
