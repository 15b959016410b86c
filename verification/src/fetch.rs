//! The fetch reply: the init segment and the selected fragments, each as a
//! fetch object behind its own length.

use vstd::prelude::*;
use vstd::slice::slice_subrange;
use crate::delivery::PUBLISHER_PRIORITY;
use crate::indexer::{
    index_of, lemma_index_located, located, Frag, IndexView, InitRange, Mp4Index,
};
use crate::range::{
    bytes_of, frag_bytes, read_frag, read_span, select, selected, ClientFault, ContentType,
    Locator, Reply, ReplyView, ServerFault,
};

verus! {

/// Length of the type tag and of the length field that lead a request body.
pub const ENVELOPE_LEN: usize = 3;

/// A fetch request as far as the server reads it.
#[derive(Clone, Copy, Debug, PartialEq, Eq, Structural)]
pub enum FetchDescriptor {
    /// A standalone fetch, with the range it asks for.
    StandAlone(Locator),
    /// A fetch that joins a subscription.
    Joining,
    /// The payload did not decode.
    Undecodable,
}

/// The error of moqtail's serializers. It is handed on and never read.
#[verifier::external_type_specification]
#[verifier::external_body]
pub struct ExParseError(moqtail::model::error::ParseError);

/// The growable byte buffer of the bytes crate, in which a reply is put
/// together.
#[verifier::external_type_specification]
#[verifier::external_body]
pub struct ExBytesMut(bytes::BytesMut);

/// The bytes that a buffer holds, in order.
pub uninterp spec fn buffered(buffer: bytes::BytesMut) -> Seq<u8>;

/// A variable-length integer on the wire: one, two, four or eight bytes, of
/// which the two highest bits give the length; `None` from 2^62 on.
pub open spec fn varint(v: int) -> Option<Seq<u8>> {
    if v < 0 {
        None
    } else if v < 0x40 {
        Some(seq![v as u8])
    } else if v < 0x4000 {
        Some(seq![(0x40 + v / 0x100) as u8, (v % 0x100) as u8])
    } else if v < 0x4000_0000 {
        Some(
            seq![
                (0x80 + v / 0x100_0000) as u8,
                (v / 0x1_0000 % 0x100) as u8,
                (v / 0x100 % 0x100) as u8,
                (v % 0x100) as u8,
            ],
        )
    } else if v < 0x4000_0000_0000_0000 {
        Some(
            seq![
                (0xc0 + v / 0x100_0000_0000_0000) as u8,
                (v / 0x1_0000_0000_0000 % 0x100) as u8,
                (v / 0x100_0000_0000 % 0x100) as u8,
                (v / 0x1_0000_0000 % 0x100) as u8,
                (v / 0x100_0000 % 0x100) as u8,
                (v / 0x1_0000 % 0x100) as u8,
                (v / 0x100 % 0x100) as u8,
                (v % 0x100) as u8,
            ],
        )
    } else {
        None
    }
}

/// A 32-bit integer in four bytes, most significant first.
pub open spec fn be_bytes(n: u32) -> Seq<u8> {
    seq![
        (n / 0x100_0000) as u8,
        (n / 0x1_0000 % 0x100) as u8,
        (n / 0x100 % 0x100) as u8,
        (n % 0x100) as u8,
    ]
}

/// A fetch object on the wire: group, subgroup and object as variable-length
/// integers, the priority, an empty list of extension headers, the length of
/// the payload, and the payload. `None` where one of the integers does not
/// fit.
pub open spec fn fetch_object_bytes(
    group: u64,
    subgroup: u64,
    object: u64,
    priority: u8,
    payload: Seq<u8>,
) -> Option<Seq<u8>> {
    match (
        varint(group as int),
        varint(subgroup as int),
        varint(object as int),
        varint(payload.len() as int),
    ) {
        (Some(g), Some(s), Some(o), Some(len)) => Some(
            g + s + o + seq![priority] + seq![0u8] + len + payload,
        ),
        _ => None,
    }
}

/// Serializes a fetch object with `FetchObject::serialize` of moqtail.
///
/// Trusted: the object has a payload, no extension headers and no status;
/// the serializer writes the three ids as variable-length integers, the
/// priority byte, a zero for the length of the extension headers, the length
/// of the payload and the payload, and fails where an integer is 2^62 or
/// more.
#[verifier::external_body]
fn serialize_object(group: u64, subgroup: u64, object: u64, priority: u8, payload: &[u8]) -> (r:
    Result<Vec<u8>, moqtail::model::error::ParseError>)
    ensures
        r matches Ok(bytes) ==> fetch_object_bytes(group, subgroup, object, priority, payload@)
            == Some(bytes@),
        r is Err ==> fetch_object_bytes(group, subgroup, object, priority, payload@) is None,
{
    let fetch_object = moqtail::model::data::fetch_object::FetchObject {
        group_id: group,
        subgroup_id: subgroup,
        object_id: object,
        publisher_priority: priority,
        extension_headers: None,
        object_status: None,
        payload: Some(bytes::Bytes::copy_from_slice(payload)),
    };
    Ok(fetch_object.serialize()?.to_vec())
}

/// An empty buffer, from `BytesMut::new`.
///
/// Trusted: the buffer holds no bytes.
#[verifier::external_body]
fn new_buffer() -> (buffer: bytes::BytesMut)
    ensures
        buffered(buffer) == Seq::<u8>::empty(),
{
    bytes::BytesMut::new()
}

/// The number of bytes in a buffer, from `BytesMut::len`.
///
/// Trusted: the length is that of the bytes held.
#[verifier::external_body]
fn buffer_len(buffer: &bytes::BytesMut) -> (len: usize)
    ensures
        len == buffered(*buffer).len(),
{
    buffer.len()
}

/// Appends a 32-bit integer with `BufMut::put_u32`.
///
/// Trusted: the four bytes of `n`, most significant first, are added behind
/// the bytes held. The buffer grows as needed, up to the largest allocation.
#[verifier::external_body]
fn put_u32(buffer: &mut bytes::BytesMut, n: u32)
    requires
        buffered(*old(buffer)).len() + 4 <= isize::MAX,
    ensures
        buffered(*final(buffer)) == buffered(*old(buffer)) + be_bytes(n),
{
    bytes::BufMut::put_u32(buffer, n)
}

/// Appends bytes with `BytesMut::extend_from_slice`.
///
/// Trusted: the bytes are added behind the bytes held. The buffer grows as
/// needed, up to the largest allocation.
#[verifier::external_body]
fn put_slice(buffer: &mut bytes::BytesMut, bytes: &[u8])
    requires
        buffered(*old(buffer)).len() + bytes@.len() <= isize::MAX,
    ensures
        buffered(*final(buffer)) == buffered(*old(buffer)) + bytes@,
{
    buffer.extend_from_slice(bytes)
}

/// The bytes of a buffer as a vector, from the buffer's iterator.
///
/// Trusted: the vector holds the bytes held, in order.
#[verifier::external_body]
fn into_vec(buffer: bytes::BytesMut) -> (bytes: Vec<u8>)
    ensures
        bytes@ == buffered(buffer),
{
    buffer.into_iter().collect()
}

/// `body` with `object` behind it, led by the object's length in four bytes;
/// `None` where the length does not fit in four bytes or the whole not in a
/// buffer.
pub open spec fn framed_onto(body: Seq<u8>, object: Seq<u8>) -> Option<Seq<u8>> {
    if object.len() <= u32::MAX && body.len() + 4 + object.len() <= isize::MAX {
        Some(body + be_bytes(object.len() as u32) + object)
    } else {
        None
    }
}

/// `body` with one more fetch object, of subgroup 0 and the publisher's
/// priority, or the fault that keeps the object out.
pub open spec fn with_object(body: Seq<u8>, group: u64, object: u64, payload: Option<Seq<u8>>)
    -> Result<Seq<u8>, ServerFault> {
    match payload {
        None => Err(ServerFault::Read),
        Some(bytes) => match fetch_object_bytes(group, 0, object, PUBLISHER_PRIORITY, bytes) {
            None => Err(ServerFault::Serialize),
            Some(serialized) => match framed_onto(body, serialized) {
                None => Err(ServerFault::Serialize),
                Some(extended) => Ok(extended),
            },
        },
    }
}

/// The body of a fetch reply: the init segment as the object of group 0 and
/// object 0, then each of `frags` as the object of its group and object; or
/// the fault of the first object that cannot be had.
pub open spec fn fetch_body(file: Seq<u8>, init: InitRange, frags: Seq<Frag>) -> Result<
    Seq<u8>,
    ServerFault,
>
    decreases frags.len(),
{
    if frags.len() == 0 {
        with_object(Seq::empty(), 0, 0, bytes_of(file, init.span()))
    } else {
        match fetch_body(file, init, frags.drop_last()) {
            Err(fault) => Err(fault),
            Ok(body) => with_object(
                body,
                frags.last().group,
                frags.last().object as u64,
                frag_bytes(file, frags.last()),
            ),
        }
    }
}

/// The reply to a fetch request whose payload decoded to `request`.
pub open spec fn descriptor_reply(file: Seq<u8>, idx: IndexView, request: FetchDescriptor)
    -> ReplyView {
    match request {
        FetchDescriptor::Undecodable => ReplyView::ClientError(ClientFault::Undecodable),
        FetchDescriptor::Joining => ReplyView::ClientError(ClientFault::UnsupportedFetch),
        FetchDescriptor::StandAlone(range) => match fetch_body(
            file,
            idx.init,
            selected(idx.frags, range),
        ) {
            Ok(bytes) => ReplyView::Body { content_type: ContentType::OctetStream, bytes },
            Err(fault) => ReplyView::ServerError(fault),
        },
    }
}

/// The payload of a request body: what follows the one-byte type tag and the
/// two-byte length.
pub open spec fn payload_of(body: Seq<u8>) -> Result<Seq<u8>, ClientFault> {
    if body.len() == 0 {
        Err(ClientFault::EmptyBody)
    } else if body.len() < ENVELOPE_LEN {
        Err(ClientFault::ShortMessage)
    } else {
        Ok(body.skip(ENVELOPE_LEN as int))
    }
}

/// The reply to a fetch request with the body `body`, whose payload, where
/// it has one, decodes to `request`. A body without a payload is the
/// client's fault whatever `request` is.
pub open spec fn fetch_reply(
    body: Seq<u8>,
    file: Seq<u8>,
    idx: IndexView,
    request: FetchDescriptor,
) -> ReplyView {
    match payload_of(body) {
        Err(fault) => ReplyView::ClientError(fault),
        Ok(_) => descriptor_reply(file, idx, request),
    }
}

/// Takes the type tag and the length off a request body; neither is read.
/// A body that is empty or ends within the two gives the reply that
/// refuses it.
pub fn fetch_payload<'a>(body: &'a [u8]) -> (r: Result<&'a [u8], Reply>)
    ensures
        match payload_of(body@) {
            Ok(payload) => r matches Ok(found) && found@ == payload,
            Err(fault) => r matches Err(reply) && reply@ == ReplyView::ClientError(fault),
        },
{
    let len: usize = body.len();
    if len == 0 {
        Err(Reply::ClientError(ClientFault::EmptyBody))
    } else if len < ENVELOPE_LEN {
        Err(Reply::ClientError(ClientFault::ShortMessage))
    } else {
        Ok(slice_subrange(body, ENVELOPE_LEN, len))
    }
}

/// Adds one fetch object to the buffer, or leaves the buffer as it is.
fn append_object(buffer: &mut bytes::BytesMut, group: u64, object: u64, payload: Option<&[u8]>)
    -> (r: Result<(), ServerFault>)
    ensures
        match with_object(
            buffered(*old(buffer)),
            group,
            object,
            match payload {
                Some(bytes) => Some(bytes@),
                None => None,
            },
        ) {
            Ok(extended) => r is Ok && buffered(*final(buffer)) == extended,
            Err(fault) => r == Err::<(), ServerFault>(fault) && buffered(*final(buffer))
                == buffered(*old(buffer)),
        },
{
    let bytes = match payload {
        Some(bytes) => bytes,
        None => {
            return Err(ServerFault::Read);
        },
    };
    let serialized = match serialize_object(group, 0, object, PUBLISHER_PRIORITY, bytes) {
        Ok(serialized) => serialized,
        Err(_) => {
            return Err(ServerFault::Serialize);
        },
    };
    let held: usize = buffer_len(buffer);
    let room: usize = isize::MAX as usize;
    if serialized.len() > u32::MAX as usize || held > room || 4 > room - held || serialized.len()
        > room - held - 4 {
        return Err(ServerFault::Serialize);
    }
    put_u32(buffer, serialized.len() as u32);
    put_slice(buffer, serialized.as_slice());
    Ok(())
}

/// Answers a fetch request from the file and its index. `request` is what
/// the payload of `body` decodes to; it is not read where the body has no
/// payload.
///
/// A body that is empty or ends within its type tag and length, a payload
/// that did not decode, and a fetch that is not standalone are the client's
/// fault, and the file is not read. Otherwise the reply's body holds the
/// init segment as the object of group 0 and object 0, then one object for
/// each fragment that the range selects, in index order; each object is
/// serialized by itself and led by its length in four bytes, most
/// significant first. Where one object cannot be read or serialized the
/// reply is a server error and holds no part of the body.
pub fn handle_fetch_request(
    body: &[u8],
    request: &FetchDescriptor,
    file: &[u8],
    idx: &Mp4Index,
) -> (r: Reply)
    ensures
        r@ == fetch_reply(body@, file@, idx@, *request),
{
    match fetch_payload(body) {
        Ok(_) => {},
        Err(reply) => {
            return reply;
        },
    }
    let range = match request {
        FetchDescriptor::Undecodable => {
            return Reply::ClientError(ClientFault::Undecodable);
        },
        FetchDescriptor::Joining => {
            return Reply::ClientError(ClientFault::UnsupportedFetch);
        },
        FetchDescriptor::StandAlone(range) => range,
    };
    let matched = select(idx, range);
    let mut buffer = new_buffer();
    match append_object(&mut buffer, 0, 0, read_span(file, &idx.init.byte_span())) {
        Ok(()) => {},
        Err(fault) => {
            proof {
                lemma_fetch_body_prefix(file@, idx.init, matched@, 0);
            }
            return Reply::ServerError(fault);
        },
    }
    let mut i: usize = 0;
    assert(matched@.subrange(0, 0) =~= Seq::<Frag>::empty());
    while i < matched.len()
        invariant
            i <= matched@.len(),
            matched@ == selected(idx.frags@, *range),
            *request == FetchDescriptor::StandAlone(*range),
            payload_of(body@) is Ok,
            fetch_body(file@, idx.init, matched@.subrange(0, i as int)) == Ok::<
                Seq<u8>,
                ServerFault,
            >(buffered(buffer)),
        decreases matched@.len() - i,
    {
        let f: Frag = matched[i];
        let ghost upto = matched@.subrange(0, i + 1);
        proof {
            assert(upto.drop_last() =~= matched@.subrange(0, i as int));
            assert(upto.last() == f);
        }
        match append_object(&mut buffer, f.group, f.object as u64, read_frag(file, &f)) {
            Ok(()) => {},
            Err(fault) => {
                proof {
                    lemma_fetch_body_prefix(file@, idx.init, matched@, i + 1);
                }
                return Reply::ServerError(fault);
            },
        }
        i += 1;
    }
    assert(matched@.subrange(0, matched@.len() as int) =~= matched@);
    Reply::Body { content_type: ContentType::OctetStream, bytes: into_vec(buffer) }
}

/// A fault among the first `n` fragments is the fault of the whole.
proof fn lemma_fetch_body_prefix(file: Seq<u8>, init: InitRange, frags: Seq<Frag>, n: int)
    requires
        0 <= n <= frags.len(),
        fetch_body(file, init, frags.subrange(0, n)) is Err,
    ensures
        fetch_body(file, init, frags) == fetch_body(file, init, frags.subrange(0, n)),
    decreases frags.len(),
{
    if n == frags.len() {
        assert(frags.subrange(0, n) =~= frags);
    } else {
        assert(frags.drop_last().subrange(0, n) =~= frags.subrange(0, n));
        lemma_fetch_body_prefix(file, init, frags.drop_last(), n);
    }
}

/// The length of a fetch object with its four-byte length, where the object
/// can be had.
pub open spec fn frame_len(group: u64, object: u64, payload: Option<Seq<u8>>) -> int {
    match payload {
        Some(bytes) => match fetch_object_bytes(group, 0, object, PUBLISHER_PRIORITY, bytes) {
            Some(serialized) => 4 + serialized.len() as int,
            None => 0,
        },
        None => 0,
    }
}

/// The sum of the lengths of the framed objects of a fetch reply: the init
/// object and one object for each of `frags`.
pub open spec fn frames_len(file: Seq<u8>, init: InitRange, frags: Seq<Frag>) -> int
    decreases frags.len(),
{
    if frags.len() == 0 {
        frame_len(0, 0, bytes_of(file, init.span()))
    } else {
        frames_len(file, init, frags.drop_last()) + frame_len(
            frags.last().group,
            frags.last().object as u64,
            frag_bytes(file, frags.last()),
        )
    }
}

/// The body of a fetch reply is as long as its objects taken together, each
/// counted with the four bytes of its length, and it starts with the init
/// object, of group 0 and object 0, behind its length.
pub proof fn lemma_fetch_body_len(file: Seq<u8>, init: InitRange, frags: Seq<Frag>)
    requires
        fetch_body(file, init, frags) is Ok,
    ensures
        fetch_body(file, init, frags).unwrap().len() == frames_len(file, init, frags),
        bytes_of(file, init.span()) is Some,
        fetch_object_bytes(0, 0, 0, PUBLISHER_PRIORITY, bytes_of(file, init.span()).unwrap())
            is Some,
        ({
            let first = fetch_object_bytes(
                0,
                0,
                0,
                PUBLISHER_PRIORITY,
                bytes_of(file, init.span()).unwrap(),
            ).unwrap();
            &&& first.len() <= u32::MAX
            &&& 4 + first.len() <= fetch_body(file, init, frags).unwrap().len()
            &&& fetch_body(file, init, frags).unwrap().subrange(0, 4 + first.len() as int) == be_bytes(
                first.len() as u32,
            ) + first
        }),
    decreases frags.len(),
{
    let body = fetch_body(file, init, frags).unwrap();
    if frags.len() == 0 {
        let first = fetch_object_bytes(
            0,
            0,
            0,
            PUBLISHER_PRIORITY,
            bytes_of(file, init.span()).unwrap(),
        ).unwrap();
        assert(body =~= be_bytes(first.len() as u32) + first);
        assert(body.subrange(0, 4 + first.len() as int) =~= body);
    } else {
        lemma_fetch_body_len(file, init, frags.drop_last());
        let before = fetch_body(file, init, frags.drop_last()).unwrap();
        let first = fetch_object_bytes(
            0,
            0,
            0,
            PUBLISHER_PRIORITY,
            bytes_of(file, init.span()).unwrap(),
        ).unwrap();
        assert(body.subrange(0, 4 + first.len() as int) =~= before.subrange(0, 4 + first.len() as int));
    }
}

/// No object of a fetch reply fails to be read where the init segment and
/// the fragments lie in the file.
pub proof fn lemma_fetch_body_of_located(file: Seq<u8>, init: InitRange, frags: Seq<Frag>)
    requires
        init.start <= file.len(),
        init.end <= file.len(),
        located(frags, file.len() as int),
    ensures
        fetch_body(file, init, frags) != Err::<Seq<u8>, ServerFault>(ServerFault::Read),
    decreases frags.len(),
{
    if frags.len() > 0 {
        let front = frags.drop_last();
        assert forall|i: int| 0 <= i < front.len() implies (#[trigger] front[i]).wf()
            && front[i].mdat_start + front[i].mdat_size <= file.len() by {
            assert(front[i] == frags[i]);
        }
        lemma_fetch_body_of_located(file, init, front);
        assert(frags.last() == frags[frags.len() - 1]);
    }
}

/// A standalone fetch is never refused for bytes that cannot be read where
/// the index is that of the file.
pub proof fn lemma_fetch_reply_of_own_index(file: Seq<u8>, range: Locator)
    requires
        file.len() <= usize::MAX,
        index_of(file) is Ok,
    ensures
        descriptor_reply(file, index_of(file).unwrap(), FetchDescriptor::StandAlone(range))
            != ReplyView::ServerError(ServerFault::Read),
{
    let idx = index_of(file).unwrap();
    let chosen = selected(idx.frags, range);
    lemma_index_located(file);
    assert forall|i: int| 0 <= i < chosen.len() implies (#[trigger] chosen[i]).wf()
        && chosen[i].mdat_start + chosen[i].mdat_size <= file.len() by {
        idx.frags.lemma_filter_contains_rev(|f: Frag| range.holds(f), chosen[i]);
        let w = choose|w: int| 0 <= w < idx.frags.len() && idx.frags[w] == chosen[i];
        assert(idx.frags[w].wf());
    }
    lemma_fetch_body_of_located(file, idx.init, chosen);
}

/// When a fetch request is refused: the status is 400 exactly where the
/// body has fewer than three bytes, its payload did not decode, or the fetch
/// is not standalone, and the reply then says which; it is 200 exactly where
/// none of these holds and every object can be read and serialized, and 500
/// otherwise.
pub proof fn lemma_fetch_status(
    body: Seq<u8>,
    file: Seq<u8>,
    idx: IndexView,
    request: FetchDescriptor,
)
    ensures
        fetch_reply(body, file, idx, request).status() == 400 <==> (body.len() < ENVELOPE_LEN
            || request is Undecodable || request is Joining),
        fetch_reply(body, file, idx, request).status() == 200 <==> (body.len() >= ENVELOPE_LEN
            && (request matches FetchDescriptor::StandAlone(range) && fetch_body(
            file,
            idx.init,
            selected(idx.frags, range),
        ) is Ok)),
        fetch_reply(body, file, idx, request).status() == 200 || fetch_reply(
            body,
            file,
            idx,
            request,
        ).status() == 400 || fetch_reply(body, file, idx, request).status() == 500,
        body.len() == 0 ==> fetch_reply(body, file, idx, request) == ReplyView::ClientError(
            ClientFault::EmptyBody,
        ),
        0 < body.len() < ENVELOPE_LEN ==> fetch_reply(body, file, idx, request)
            == ReplyView::ClientError(ClientFault::ShortMessage),
        body.len() >= ENVELOPE_LEN && request is Undecodable ==> fetch_reply(
            body,
            file,
            idx,
            request,
        ) == ReplyView::ClientError(ClientFault::Undecodable),
        body.len() >= ENVELOPE_LEN && request is Joining ==> fetch_reply(body, file, idx, request)
            == ReplyView::ClientError(ClientFault::UnsupportedFetch),
{
}

} // verus!
