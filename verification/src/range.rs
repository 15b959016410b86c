//! Locators, the fragments they select, and the range reply.

use vstd::prelude::*;
use vstd::slice::slice_subrange;
use crate::indexer::{index_of, lemma_index_located, located, ByteSpan, Frag, IndexView, InitRange, Mp4Index};

verus! {

/// The query of a range request.
#[derive(Clone, Copy, Debug, PartialEq, Eq, Structural)]
pub struct RangeQuery {
    pub start_group_id: u64,
    pub start_object_id: u32,
    pub end_group_id: u64,
    pub end_object_id: u32,
}

/// A range of fragments, from one pair of group and object through another,
/// both included.
#[derive(Clone, Copy, Debug, PartialEq, Eq, Structural)]
pub struct Locator {
    pub start_group: u64,
    pub start_object: u64,
    pub end_group: u64,
    pub end_object: u64,
}

/// What was wrong with a request.
#[derive(Clone, Copy, Debug, PartialEq, Eq, Structural)]
pub enum ClientFault {
    /// The request has no body.
    EmptyBody,
    /// The body ends within its type tag and length.
    ShortMessage,
    /// The body does not decode to a fetch descriptor.
    Undecodable,
    /// The fetch is not of the standalone kind.
    UnsupportedFetch,
}

/// What went wrong while a reply was made.
#[derive(Clone, Copy, Debug, PartialEq, Eq, Structural)]
pub enum ServerFault {
    /// Bytes that the index points at are not in the file.
    Read,
    /// An object could not be serialized or framed.
    Serialize,
}

/// The media type of a reply's body.
#[derive(Clone, Copy, Debug, PartialEq, Eq, Structural)]
pub enum ContentType {
    VideoMp4,
    OctetStream,
}

/// The reply to a request.
#[derive(Debug)]
pub enum Reply {
    Body { content_type: ContentType, bytes: Vec<u8> },
    ClientError(ClientFault),
    ServerError(ServerFault),
}

/// A reply as contracts see it.
pub enum ReplyView {
    Body { content_type: ContentType, bytes: Seq<u8> },
    ClientError(ClientFault),
    ServerError(ServerFault),
}

impl View for Reply {
    type V = ReplyView;

    open spec fn view(&self) -> ReplyView {
        match *self {
            Reply::Body { content_type, bytes } => ReplyView::Body { content_type, bytes: bytes@ },
            Reply::ClientError(fault) => ReplyView::ClientError(fault),
            Reply::ServerError(fault) => ReplyView::ServerError(fault),
        }
    }
}

impl ReplyView {
    /// The status code that goes with the reply.
    pub open spec fn status(self) -> u16 {
        match self {
            ReplyView::Body { .. } => 200,
            ReplyView::ClientError(_) => 400,
            ReplyView::ServerError(_) => 500,
        }
    }

    /// What a reply without a body says in its place.
    pub open spec fn text(self) -> Option<Seq<char>> {
        match self {
            ReplyView::Body { .. } => None,
            ReplyView::ClientError(fault) => Some(fault.text()),
            ReplyView::ServerError(fault) => Some(fault.text()),
        }
    }
}

impl Reply {
    /// The status code that goes with the reply: 200 with a body, 400 where
    /// the request was at fault, 500 where the server was.
    pub fn status(&self) -> (r: u16)
        ensures
            r == self@.status(),
    {
        match self {
            Reply::Body { .. } => 200,
            Reply::ClientError(_) => 400,
            Reply::ServerError(_) => 500,
        }
    }
}

impl ClientFault {
    /// What the reply says of the fault.
    pub open spec fn text(self) -> Seq<char> {
        match self {
            ClientFault::EmptyBody => "Empty request body"@,
            ClientFault::ShortMessage => "Message too short"@,
            ClientFault::Undecodable => "Failed to parse Fetch request"@,
            ClientFault::UnsupportedFetch => "Only StandAlone fetch requests are supported"@,
        }
    }

    /// What the reply says of the fault.
    pub fn message(&self) -> (r: &'static str)
        ensures
            r@ == self.text(),
    {
        match self {
            ClientFault::EmptyBody => "Empty request body",
            ClientFault::ShortMessage => "Message too short",
            ClientFault::Undecodable => "Failed to parse Fetch request",
            ClientFault::UnsupportedFetch => "Only StandAlone fetch requests are supported",
        }
    }
}

impl ServerFault {
    /// What the reply says of the fault.
    pub open spec fn text(self) -> Seq<char> {
        match self {
            ServerFault::Read => "Failed to read the media file"@,
            ServerFault::Serialize => "Failed to serialize FetchObject"@,
        }
    }

    /// What the reply says of the fault.
    pub fn message(&self) -> (r: &'static str)
        ensures
            r@ == self.text(),
    {
        match self {
            ServerFault::Read => "Failed to read the media file",
            ServerFault::Serialize => "Failed to serialize FetchObject",
        }
    }
}

impl Reply {
    /// What a reply without a body says in its place: the message of its
    /// fault.
    pub fn message(&self) -> (r: Option<&'static str>)
        ensures
            match r {
                Some(text) => self@.text() == Some(text@),
                None => self@.text() is None,
            },
    {
        match self {
            Reply::Body { .. } => None,
            Reply::ClientError(fault) => Some(fault.message()),
            Reply::ServerError(fault) => Some(fault.message()),
        }
    }
}

impl ContentType {
    /// The media type as a header carries it.
    pub fn name(&self) -> (r: &'static str)
        ensures
            r@ == match *self {
                ContentType::VideoMp4 => "video/mp4"@,
                ContentType::OctetStream => "application/octet-stream"@,
            },
    {
        match self {
            ContentType::VideoMp4 => "video/mp4",
            ContentType::OctetStream => "application/octet-stream",
        }
    }
}

impl Locator {
    /// Whether the locator selects a fragment of this group and object.
    ///
    /// Within one group the object lies between the two objects. Across
    /// groups the fragment is of the first group and its object no smaller
    /// than the first, or of a group strictly between, or of the last group
    /// and its object no greater than the last.
    pub open spec fn selects(self, group: u64, object: u64) -> bool {
        if self.start_group == self.end_group {
            group == self.start_group && self.start_object <= object <= self.end_object
        } else {
            ||| (group == self.start_group && object >= self.start_object)
            ||| (self.start_group < group < self.end_group)
            ||| (group == self.end_group && object <= self.end_object)
        }
    }

    /// Whether the locator selects `f`.
    pub open spec fn holds(self, f: Frag) -> bool {
        self.selects(f.group, f.object as u64)
    }

    /// Whether the locator selects `f`. The track of `f` is not looked at.
    pub fn contains(&self, f: &Frag) -> (r: bool)
        ensures
            r == self.holds(*f),
    {
        let object: u64 = f.object as u64;
        if self.start_group == self.end_group {
            f.group == self.start_group && self.start_object <= object && object
                <= self.end_object
        } else {
            (f.group == self.start_group && object >= self.start_object) || (self.start_group
                < f.group && f.group < self.end_group) || (f.group == self.end_group && object
                <= self.end_object)
        }
    }
}

impl RangeQuery {
    /// The range that the query asks for.
    pub open spec fn range(self) -> Locator {
        Locator {
            start_group: self.start_group_id,
            start_object: self.start_object_id as u64,
            end_group: self.end_group_id,
            end_object: self.end_object_id as u64,
        }
    }

    /// The range that the query asks for.
    pub fn locator(&self) -> (r: Locator)
        ensures
            r == self.range(),
    {
        Locator {
            start_group: self.start_group_id,
            start_object: self.start_object_id as u64,
            end_group: self.end_group_id,
            end_object: self.end_object_id as u64,
        }
    }
}

/// The fragments of `frags` that `range` selects, in the order of `frags`.
pub open spec fn selected(frags: Seq<Frag>, range: Locator) -> Seq<Frag> {
    frags.filter(|f: Frag| range.holds(f))
}

/// The fragments of the index that `range` selects, in index order.
pub fn select(idx: &Mp4Index, range: &Locator) -> (r: Vec<Frag>)
    ensures
        r@ == selected(idx.frags@, *range),
{
    let mut out: Vec<Frag> = Vec::new();
    let mut i: usize = 0;
    proof {
        reveal(Seq::filter);
        assert(idx.frags@.subrange(0, 0) =~= Seq::<Frag>::empty());
    }
    while i < idx.frags.len()
        invariant
            i <= idx.frags@.len(),
            out@ == selected(idx.frags@.subrange(0, i as int), *range),
        decreases idx.frags@.len() - i,
    {
        let f: Frag = idx.frags[i];
        proof {
            reveal(Seq::filter);
            let upto = idx.frags@.subrange(0, i + 1);
            assert(upto.drop_last() =~= idx.frags@.subrange(0, i as int));
        }
        if range.contains(&f) {
            out.push(f);
        }
        i += 1;
    }
    assert(idx.frags@.subrange(0, idx.frags@.len() as int) =~= idx.frags@);
    out
}

/// The bytes of `span`, where the file holds them.
pub open spec fn bytes_of(file: Seq<u8>, span: ByteSpan) -> Option<Seq<u8>> {
    if span.within(file.len() as int) {
        Some(span.of(file))
    } else {
        None
    }
}

/// The bytes of `span`, where the file holds them.
pub fn read_span<'a>(file: &'a [u8], span: &ByteSpan) -> (r: Option<&'a [u8]>)
    ensures
        match r {
            Some(bytes) => bytes_of(file@, *span) == Some(bytes@),
            None => bytes_of(file@, *span) is None,
        },
{
    let len: usize = file.len();
    if span.start <= len as u64 && span.len <= len as u64 - span.start {
        let start: usize = span.start as usize;
        let end: usize = start + span.len as usize;
        Some(slice_subrange(file, start, end))
    } else {
        None
    }
}

/// The bytes of a fragment, where it is well formed and the file holds them.
pub open spec fn frag_bytes(file: Seq<u8>, f: Frag) -> Option<Seq<u8>> {
    match f.span() {
        Some(span) => bytes_of(file, span),
        None => None,
    }
}

/// The bytes of a fragment, where it is well formed and the file holds them.
pub fn read_frag<'a>(file: &'a [u8], f: &Frag) -> (r: Option<&'a [u8]>)
    ensures
        match r {
            Some(bytes) => frag_bytes(file@, *f) == Some(bytes@),
            None => frag_bytes(file@, *f) is None,
        },
{
    match f.byte_span() {
        Some(span) => read_span(file, &span),
        None => None,
    }
}

/// The body of a range reply: the init segment, then the bytes of each of
/// `frags` in turn; `None` where the file does not hold all of them.
pub open spec fn range_body(file: Seq<u8>, init: InitRange, frags: Seq<Frag>) -> Option<Seq<u8>>
    decreases frags.len(),
{
    if frags.len() == 0 {
        bytes_of(file, init.span())
    } else {
        match (range_body(file, init, frags.drop_last()), frag_bytes(file, frags.last())) {
            (Some(body), Some(bytes)) => Some(body + bytes),
            _ => None,
        }
    }
}

/// The reply to a range request.
pub open spec fn range_reply(file: Seq<u8>, idx: IndexView, query: RangeQuery) -> ReplyView {
    match range_body(file, idx.init, selected(idx.frags, query.range())) {
        Some(bytes) => ReplyView::Body { content_type: ContentType::VideoMp4, bytes },
        None => ReplyView::ServerError(ServerFault::Read),
    }
}

/// Answers a range request from the file and its index: the init segment,
/// followed by the bytes of every fragment that the query selects, in index
/// order. Where the query selects nothing the body is the init segment. The
/// reply is a server error, and holds no part of the body, where the file
/// does not hold all the bytes.
pub fn handle_range_request(query: RangeQuery, file: &[u8], idx: &Mp4Index) -> (r: Reply)
    ensures
        r@ == range_reply(file@, idx@, query),
{
    let range = query.locator();
    let matched = select(idx, &range);
    let mut body: Vec<u8> = Vec::new();
    match read_span(file, &idx.init.byte_span()) {
        Some(bytes) => {
            body.extend_from_slice(bytes);
            assert(body@ =~= bytes@);
        },
        None => {
            proof {
                lemma_range_body_needs_init(file@, idx.init, matched@);
            }
            return Reply::ServerError(ServerFault::Read);
        },
    }
    let mut i: usize = 0;
    assert(matched@.subrange(0, 0) =~= Seq::<Frag>::empty());
    while i < matched.len()
        invariant
            i <= matched@.len(),
            matched@ == selected(idx.frags@, query.range()),
            range_body(file@, idx.init, matched@.subrange(0, i as int)) == Some(body@),
        decreases matched@.len() - i,
    {
        let ghost upto = matched@.subrange(0, i + 1);
        let ghost sofar = body@;
        proof {
            assert(upto.drop_last() =~= matched@.subrange(0, i as int));
        }
        match read_frag(file, &matched[i]) {
            Some(bytes) => {
                body.extend_from_slice(bytes);
                assert(body@ =~= sofar + bytes@);
            },
            None => {
                proof {
                    assert(upto.last() == matched@[i as int]);
                    assert(range_body(file@, idx.init, upto) is None);
                    lemma_range_body_prefix(file@, idx.init, matched@, i + 1);
                }
                return Reply::ServerError(ServerFault::Read);
            },
        }
        i += 1;
    }
    assert(matched@.subrange(0, matched@.len() as int) =~= matched@);
    Reply::Body { content_type: ContentType::VideoMp4, bytes: body }
}

/// No body is made where the init segment cannot be read.
proof fn lemma_range_body_needs_init(file: Seq<u8>, init: InitRange, frags: Seq<Frag>)
    requires
        bytes_of(file, init.span()) is None,
    ensures
        range_body(file, init, frags) is None,
    decreases frags.len(),
{
    if frags.len() > 0 {
        lemma_range_body_needs_init(file, init, frags.drop_last());
    }
}

/// No body is made where none is made of the first `n` fragments.
proof fn lemma_range_body_prefix(file: Seq<u8>, init: InitRange, frags: Seq<Frag>, n: int)
    requires
        0 <= n <= frags.len(),
        range_body(file, init, frags.subrange(0, n)) is None,
    ensures
        range_body(file, init, frags) is None,
    decreases frags.len(),
{
    if n == frags.len() {
        assert(frags.subrange(0, n) =~= frags);
    } else {
        assert(frags.drop_last().subrange(0, n) =~= frags.subrange(0, n));
        lemma_range_body_prefix(file, init, frags.drop_last(), n);
    }
}

/// A range across groups selects the fragments of the first group from the
/// first object on, those of the groups strictly between, and those of the
/// last group up to the last object, and no others.
pub proof fn lemma_selects_across_groups(range: Locator, f: Frag)
    requires
        range.end_group > range.start_group,
    ensures
        range.holds(f) <==> ((f.group == range.start_group && f.object >= range.start_object) || (
        range.start_group < f.group < range.end_group) || (f.group == range.end_group && f.object
            <= range.end_object)),
{
}

/// A range that starts and ends at one pair of group and object selects the
/// fragments of that group and object, and none of another group.
pub proof fn lemma_selects_one_place(group: u64, object: u64, f: Frag)
    ensures
        (Locator {
            start_group: group,
            start_object: object,
            end_group: group,
            end_object: object,
        }).holds(f) <==> (f.group == group && f.object == object),
{
}

/// What `range` selects from `frags` is selected once and in order: the
/// selection holds a fragment as often as `frags` holds it where the range
/// selects it, and never otherwise.
pub proof fn lemma_selected(frags: Seq<Frag>, range: Locator)
    ensures
        selected(frags, range).len() <= frags.len(),
        forall|i: int|
            0 <= i < selected(frags, range).len() ==> range.holds(
                #[trigger] selected(frags, range)[i],
            ),
        forall|i: int|
            0 <= i < frags.len() && range.holds(#[trigger] frags[i]) ==> selected(
                frags,
                range,
            ).contains(frags[i]),
        forall|f: Frag|
            selected(frags, range).to_multiset().count(f) == if range.holds(f) {
                frags.to_multiset().count(f)
            } else {
                0
            },
{
    broadcast use vstd::seq_lib::group_filter_ensures;

    assert forall|f: Frag|
        selected(frags, range).to_multiset().count(f) == if range.holds(f) {
            frags.to_multiset().count(f)
        } else {
            0
        } by {
        lemma_filter_count(frags, range, f);
    }
}

/// How often the selection holds `f`.
proof fn lemma_filter_count(frags: Seq<Frag>, range: Locator, f: Frag)
    ensures
        selected(frags, range).to_multiset().count(f) == if range.holds(f) {
            frags.to_multiset().count(f)
        } else {
            0
        },
    decreases frags.len(),
{
    broadcast use vstd::seq_lib::group_to_multiset_ensures;

    reveal(Seq::filter);
    if frags.len() == 0 {
    } else {
        let front = frags.drop_last();
        lemma_filter_count(front, range, f);
        assert(frags =~= front.push(frags.last()));
    }
}

/// The body of a range reply can be made of an init segment and fragments
/// that lie in the file.
pub proof fn lemma_range_body_of_located(file: Seq<u8>, init: InitRange, frags: Seq<Frag>)
    requires
        init.start <= file.len(),
        init.end <= file.len(),
        located(frags, file.len() as int),
    ensures
        range_body(file, init, frags) is Some,
    decreases frags.len(),
{
    if frags.len() > 0 {
        let front = frags.drop_last();
        assert forall|i: int| 0 <= i < front.len() implies (#[trigger] front[i]).wf()
            && front[i].mdat_start + front[i].mdat_size <= file.len() by {
            assert(front[i] == frags[i]);
        }
        lemma_range_body_of_located(file, init, front);
        assert(frags.last() == frags[frags.len() - 1]);
    }
}

/// A range request is answered with a body, whatever it asks for, where the
/// index is that of the file.
pub proof fn lemma_range_reply_of_own_index(file: Seq<u8>, query: RangeQuery)
    requires
        file.len() <= usize::MAX,
        index_of(file) is Ok,
    ensures
        range_reply(file, index_of(file).unwrap(), query) is Body,
{
    let idx = index_of(file).unwrap();
    let chosen = selected(idx.frags, query.range());
    lemma_index_located(file);
    assert forall|i: int| 0 <= i < chosen.len() implies (#[trigger] chosen[i]).wf()
        && chosen[i].mdat_start + chosen[i].mdat_size <= file.len() by {
        let range = query.range();
        idx.frags.lemma_filter_contains_rev(|f: Frag| range.holds(f), chosen[i]);
        let w = choose|w: int| 0 <= w < idx.frags.len() && idx.frags[w] == chosen[i];
        assert(idx.frags[w].wf());
    }
    lemma_range_body_of_located(file, idx.init, chosen);
}

} // verus!
