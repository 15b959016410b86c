//! The data plane: what a delivery worker sends, and in which order.
//!
//! A worker replays the whole index once. Its plan is one stream for each
//! pair of group and track; its steps are decided here and performed by a
//! driver, which reports after each whether it succeeded.

use vstd::prelude::*;
use crate::indexer::{ByteSpan, Frag, InitRange};
use crate::order::{
    arrange, arranged, ascending, lemma_arranged, lemma_ranked_push, no_later, rank_of, ranked, Rank,
};

verus! {

/// Priority that the publisher gives every stream and object.
pub const PUBLISHER_PRIORITY: u8 = 128;

/// The usual limit on the objects of one stream.
pub const MAX_OBJECTS_PER_STREAM: usize = 24;

/// Id of the first object of a stream of fragments, and the subgroup that
/// the stream's objects belong to.
pub const FIRST_OBJECT_ID: u64 = 1;

/// The stream that carries the fragments of one track in one group.
#[derive(Debug)]
pub struct StreamPlan {
    pub group_id: u64,
    pub track_id: u32,
    /// Set on the last stream of its group.
    pub end_of_group: bool,
    /// The fragments to send, in order; their object ids count from 1.
    pub frags: Vec<Frag>,
}

/// A planned stream as contracts see it.
pub struct StreamPlanView {
    pub group_id: u64,
    pub track_id: u32,
    pub end_of_group: bool,
    pub frags: Seq<Frag>,
}

impl View for StreamPlan {
    type V = StreamPlanView;

    open spec fn view(&self) -> StreamPlanView {
        StreamPlanView {
            group_id: self.group_id,
            track_id: self.track_id,
            end_of_group: self.end_of_group,
            frags: self.frags@,
        }
    }
}

/// The planned streams of `v`, each by its view.
pub open spec fn plan_view(v: Seq<StreamPlan>) -> Seq<StreamPlanView> {
    Seq::new(v.len(), |i: int| v[i]@)
}

/// `s` with `f` added, where at most `cap` fragments are kept.
pub open spec fn capped_push(s: Seq<Frag>, f: Frag, cap: int) -> Seq<Frag> {
    if s.len() < cap {
        s.push(f)
    } else {
        s
    }
}

/// The streams of fragments that come in the order of delivery: a stream
/// starts wherever group or track changes, keeps the first `cap` fragments of
/// its run, and ends its group unless the next stream is of the same group.
pub open spec fn streams_of(s: Seq<Frag>, cap: int) -> Seq<StreamPlanView>
    decreases s.len(),
{
    if s.len() == 0 {
        Seq::empty()
    } else {
        let before = streams_of(s.drop_last(), cap);
        let f = s.last();
        if before.len() > 0 && before.last().group_id == f.group && before.last().track_id
            == f.track_id {
            before.update(
                before.len() - 1,
                StreamPlanView { frags: capped_push(before.last().frags, f, cap), ..before.last() },
            )
        } else {
            let closed = if before.len() > 0 {
                before.update(
                    before.len() - 1,
                    StreamPlanView {
                        end_of_group: before.last().group_id != f.group,
                        ..before.last()
                    },
                )
            } else {
                before
            };
            closed.push(
                StreamPlanView {
                    group_id: f.group,
                    track_id: f.track_id,
                    end_of_group: true,
                    frags: capped_push(Seq::empty(), f, cap),
                },
            )
        }
    }
}

/// The plan of a worker: the streams of `frags` once they are arranged by
/// group and, within a group, by track.
pub open spec fn planned(frags: Seq<Frag>, cap: int) -> Seq<StreamPlanView> {
    streams_of(arranged(frags, Rank::GroupTrack), cap)
}

/// The group and track of a planned stream, as a rank.
pub open spec fn stream_rank(p: StreamPlanView) -> (int, int) {
    (p.group_id as int, p.track_id as int)
}

/// The first `n` fragments of `s`, or all of them where there are fewer.
pub open spec fn first_n(s: Seq<Frag>, n: int) -> Seq<Frag> {
    if s.len() <= n {
        s
    } else {
        s.subrange(0, n)
    }
}

/// Nothing of rank `k` is found where no fragment has that rank.
proof fn lemma_ranked_none(s: Seq<Frag>, by: Rank, k: (int, int))
    requires
        forall|i: int| 0 <= i < s.len() ==> rank_of(#[trigger] s[i], by) != k,
    ensures
        ranked(s, by, k) == Seq::<Frag>::empty(),
    decreases s.len(),
{
    reveal(Seq::filter);
    if s.len() > 0 {
        lemma_ranked_none(s.drop_last(), by, k);
    }
}

/// What the streams of fragments in delivery order are.
///
/// There is one stream for each pair of group and track that occurs, and the
/// streams come in ascending order of group and then of track. A stream holds
/// the fragments of its group and track in the order they came in, cut off
/// after `cap`. In each group exactly one stream ends the group: the last.
pub proof fn lemma_streams_of(s: Seq<Frag>, cap: int)
    requires
        ascending(s, Rank::GroupTrack),
        0 <= cap,
    ensures
        s.len() == 0 ==> streams_of(s, cap).len() == 0,
        s.len() > 0 ==> streams_of(s, cap).len() > 0 && stream_rank(streams_of(s, cap).last())
            == rank_of(s.last(), Rank::GroupTrack),
        forall|i: int, j: int|
            0 <= i < j < streams_of(s, cap).len() ==> !no_later(
                stream_rank(#[trigger] streams_of(s, cap)[j]),
                stream_rank(#[trigger] streams_of(s, cap)[i]),
            ),
        forall|i: int|
            0 <= i < streams_of(s, cap).len() ==> (#[trigger] streams_of(s, cap)[i]).frags
                == first_n(
                ranked(s, Rank::GroupTrack, stream_rank(streams_of(s, cap)[i])),
                cap,
            ),
        forall|i: int|
            0 <= i < streams_of(s, cap).len() ==> ranked(
                s,
                Rank::GroupTrack,
                stream_rank(#[trigger] streams_of(s, cap)[i]),
            ).len() > 0,
        forall|i: int|
            0 <= i < streams_of(s, cap).len() ==> (#[trigger] streams_of(s, cap)[i]).end_of_group
                == (i + 1 == streams_of(s, cap).len() || streams_of(s, cap)[i + 1].group_id
                != streams_of(s, cap)[i].group_id),
        forall|w: int|
            0 <= w < s.len() ==> exists|i: int|
                0 <= i < streams_of(s, cap).len() && stream_rank(#[trigger] streams_of(s, cap)[i])
                    == rank_of(#[trigger] s[w], Rank::GroupTrack),
    decreases s.len(),
{
    let by = Rank::GroupTrack;
    let p = streams_of(s, cap);
    if s.len() == 0 {
        return ;
    }
    let front = s.drop_last();
    let f = s.last();
    let k = rank_of(f, by);
    let q = streams_of(front, cap);
    assert(s =~= front.push(f));
    assert(ascending(front, by)) by {
        assert forall|i: int, j: int| 0 <= i < j < front.len() implies no_later(
            rank_of(front[i], by),
            rank_of(front[j], by),
        ) by {
            assert(front[i] == s[i] && front[j] == s[j]);
        }
    }
    lemma_streams_of(front, cap);
    if front.len() > 0 {
        assert(no_later(rank_of(s[front.len() - 1], by), rank_of(s[front.len() as int], by)));
        assert(front.last() == s[front.len() - 1]);
    }
    if q.len() > 0 && stream_rank(q.last()) == k {
        let n = q.len() - 1;
        assert forall|i: int| 0 <= i < p.len() implies (#[trigger] p[i]).frags == first_n(
            ranked(s, by, stream_rank(p[i])),
            cap,
        ) && ranked(s, by, stream_rank(p[i])).len() > 0 by {
            lemma_ranked_push(front, f, by, stream_rank(q[i]));
            if i < n {
                assert(!no_later(stream_rank(q[n]), stream_rank(q[i])));
            } else {
                let r = ranked(front, by, k);
                assert(capped_push(first_n(r, cap), f, cap) =~= first_n(r.push(f), cap));
            }
        }
        assert forall|w: int| 0 <= w < s.len() implies exists|i: int|
            0 <= i < p.len() && stream_rank(#[trigger] p[i]) == rank_of(#[trigger] s[w], by) by {
            if w < front.len() {
                assert(front[w] == s[w]);
                let i = choose|i: int|
                    0 <= i < q.len() && stream_rank(#[trigger] q[i]) == rank_of(front[w], by);
                assert(stream_rank(p[i]) == rank_of(s[w], by));
            } else {
                assert(stream_rank(p[n]) == rank_of(s[w], by));
            }
        }
        assert forall|i: int| 0 <= i < p.len() implies (#[trigger] p[i]).end_of_group == (i + 1
            == p.len() || p[i + 1].group_id != p[i].group_id) by {
            assert(q[i].end_of_group == (i + 1 == q.len() || q[i + 1].group_id != q[i].group_id));
        }
    } else {
        let n = q.len() as int;
        assert(p.len() == n + 1);
        assert(stream_rank(p[n]) == k);
        assert forall|i: int| 0 <= i < n implies !no_later(k, stream_rank(#[trigger] q[i])) by {
            assert(stream_rank(q[n - 1]) == rank_of(front.last(), by));
            if i < n - 1 {
                assert(!no_later(stream_rank(q[n - 1]), stream_rank(q[i])));
            }
        }
        assert forall|i: int| 0 <= i < front.len() implies rank_of(#[trigger] front[i], by)
            != k by {
            let j = choose|j: int|
                0 <= j < q.len() && stream_rank(#[trigger] q[j]) == rank_of(front[i], by);
            assert(!no_later(k, stream_rank(q[j])));
        }
        lemma_ranked_none(front, by, k);
        assert forall|i: int, j: int| 0 <= i < j < p.len() implies !no_later(
            stream_rank(#[trigger] p[j]),
            stream_rank(#[trigger] p[i]),
        ) by {
            if j < n {
                assert(!no_later(stream_rank(q[j]), stream_rank(q[i])));
            } else {
                assert(!no_later(k, stream_rank(q[i])));
            }
        }
        assert forall|i: int| 0 <= i < p.len() implies (#[trigger] p[i]).frags == first_n(
            ranked(s, by, stream_rank(p[i])),
            cap,
        ) && ranked(s, by, stream_rank(p[i])).len() > 0 by {
            if i < n {
                lemma_ranked_push(front, f, by, stream_rank(q[i]));
                assert(!no_later(k, stream_rank(q[i])));
                assert(p[i].frags == q[i].frags);
            } else {
                lemma_ranked_push(front, f, by, k);
                assert(capped_push(Seq::<Frag>::empty(), f, cap) =~= first_n(
                    Seq::<Frag>::empty().push(f),
                    cap,
                ));
            }
        }
        assert forall|w: int| 0 <= w < s.len() implies exists|i: int|
            0 <= i < p.len() && stream_rank(#[trigger] p[i]) == rank_of(#[trigger] s[w], by) by {
            if w < front.len() {
                assert(front[w] == s[w]);
                let i = choose|i: int|
                    0 <= i < q.len() && stream_rank(#[trigger] q[i]) == rank_of(front[w], by);
                assert(stream_rank(p[i]) == rank_of(s[w], by));
            } else {
                assert(stream_rank(p[n]) == rank_of(s[w], by));
            }
        }
        assert forall|i: int| 0 <= i < p.len() implies (#[trigger] p[i]).end_of_group == (i + 1
            == p.len() || p[i + 1].group_id != p[i].group_id) by {
            if i < n - 1 {
                assert(q[i].end_of_group == (i + 1 == q.len() || q[i + 1].group_id
                    != q[i].group_id));
            }
        }
    }
}

/// The plan of a worker, said without the order in which it is built: it
/// has one stream for each pair of group and track among `frags`, in
/// ascending order of group and then of track; a stream holds the first
/// `cap` fragments of its group and track, in the order of `frags`; and of
/// the streams of one group the last, and no other, ends the group.
pub proof fn lemma_planned(frags: Seq<Frag>, cap: int)
    requires
        0 <= cap,
    ensures
        forall|i: int, j: int|
            0 <= i < j < planned(frags, cap).len() ==> !no_later(
                stream_rank(#[trigger] planned(frags, cap)[j]),
                stream_rank(#[trigger] planned(frags, cap)[i]),
            ),
        forall|i: int|
            0 <= i < planned(frags, cap).len() ==> (#[trigger] planned(frags, cap)[i]).frags
                == first_n(
                ranked(frags, Rank::GroupTrack, stream_rank(planned(frags, cap)[i])),
                cap,
            ) && ranked(frags, Rank::GroupTrack, stream_rank(planned(frags, cap)[i])).len() > 0,
        forall|i: int|
            0 <= i < planned(frags, cap).len() ==> (#[trigger] planned(frags, cap)[i]).end_of_group
                == (i + 1 == planned(frags, cap).len() || planned(frags, cap)[i + 1].group_id
                != planned(frags, cap)[i].group_id),
        forall|k: (int, int)| #[trigger]
            ranked(frags, Rank::GroupTrack, k).len() > 0 ==> exists|i: int|
                0 <= i < planned(frags, cap).len() && stream_rank(#[trigger] planned(frags, cap)[i])
                    == k,
{
    let by = Rank::GroupTrack;
    let sorted = arranged(frags, by);
    let p = planned(frags, cap);
    lemma_arranged(frags, by);
    lemma_streams_of(sorted, cap);
    assert forall|i: int| 0 <= i < p.len() implies (#[trigger] p[i]).frags == first_n(
        ranked(frags, by, stream_rank(p[i])),
        cap,
    ) && ranked(frags, by, stream_rank(p[i])).len() > 0 by {
        assert(ranked(sorted, by, stream_rank(p[i])) == ranked(frags, by, stream_rank(p[i])));
    }
    assert forall|k: (int, int)| #[trigger] ranked(frags, by, k).len() > 0 implies exists|i: int|
        0 <= i < p.len() && stream_rank(#[trigger] p[i]) == k by {
        let r = ranked(sorted, by, k);
        assert(r == ranked(frags, by, k));
        let pred = |f: Frag| rank_of(f, by) == k;
        sorted.lemma_filter_pred(pred, 0);
        sorted.lemma_filter_contains_rev(pred, r[0]);
        let w = choose|w: int| 0 <= w < sorted.len() && sorted[w] == r[0];
        assert(rank_of(sorted[w], by) == k);
    }
}

/// Among the streams from `i` on is one of the group of stream `i` that
/// ends the group.
proof fn lemma_group_is_ended(frags: Seq<Frag>, cap: int, i: int) -> (j: int)
    requires
        0 <= cap,
        0 <= i < planned(frags, cap).len(),
    ensures
        i <= j < planned(frags, cap).len(),
        planned(frags, cap)[j].group_id == planned(frags, cap)[i].group_id,
        planned(frags, cap)[j].end_of_group,
    decreases planned(frags, cap).len() - i,
{
    lemma_planned(frags, cap);
    if planned(frags, cap)[i].end_of_group {
        i
    } else {
        lemma_group_is_ended(frags, cap, i + 1)
    }
}

/// Among the streams of `plan` from `i` on is one of the group of stream `i`
/// that ends the group.
pub open spec fn group_is_ended(plan: Seq<StreamPlanView>, i: int) -> bool {
    exists|j: int|
        i <= j < plan.len() && (#[trigger] plan[j]).group_id == plan[i].group_id
            && plan[j].end_of_group
}

/// No planned stream that another stream of its group follows ends the
/// group.
pub proof fn lemma_only_the_last_ends_a_group(frags: Seq<Frag>, cap: int, i: int, j: int)
    requires
        0 <= cap,
        0 <= i < j < planned(frags, cap).len(),
        planned(frags, cap)[i].group_id == planned(frags, cap)[j].group_id,
    ensures
        !planned(frags, cap)[i].end_of_group,
{
    let p = planned(frags, cap);
    lemma_planned(frags, cap);
    if i + 1 < j {
        assert(!no_later(stream_rank(p[j]), stream_rank(p[i + 1])));
    }
    assert(!no_later(stream_rank(p[i + 1]), stream_rank(p[i])));
}

/// Every planned stream has a stream of its group, itself or a later one,
/// that ends the group. As no stream that another of its group follows ends
/// the group, exactly one stream of each group ends it: the last.
pub proof fn lemma_every_group_is_ended(frags: Seq<Frag>, cap: int, i: int)
    requires
        0 <= cap,
        0 <= i < planned(frags, cap).len(),
    ensures
        group_is_ended(planned(frags, cap), i),
{
    let p = planned(frags, cap);
    let j = lemma_group_is_ended(frags, cap, i);
    assert(i <= j < p.len() && p[j].group_id == p[i].group_id && p[j].end_of_group);
}

fn copy_of(v: &Vec<Frag>) -> (r: Vec<Frag>)
    ensures
        r@ == v@,
{
    let mut r: Vec<Frag> = Vec::new();
    let mut i: usize = 0;
    while i < v.len()
        invariant
            i <= v@.len(),
            r@ == v@.subrange(0, i as int),
        decreases v@.len() - i,
    {
        r.push(v[i]);
        assert(r@ =~= v@.subrange(0, i + 1));
        i += 1;
    }
    assert(v@.subrange(0, v@.len() as int) =~= v@);
    r
}

/// Plans the streams of a worker. Groups come in ascending order whatever
/// the order of `frags`, the tracks of a group in ascending order, and the
/// fragments of a track and group in the order of `frags`, of which the
/// first `cap` are kept.
pub fn plan_streams(frags: &Vec<Frag>, cap: usize) -> (r: Vec<StreamPlan>)
    ensures
        plan_view(r@) == planned(frags@, cap as int),
{
    let mut sorted = copy_of(frags);
    arrange(&mut sorted, Rank::GroupTrack);
    let n: usize = sorted.len();
    let mut out: Vec<StreamPlan> = Vec::new();
    if n == 0 {
        assert(plan_view(out@) =~= planned(frags@, cap as int));
        return out;
    }
    let first: Frag = sorted[0];
    let mut group: u64 = first.group;
    let mut track: u32 = first.track_id;
    let mut run: Vec<Frag> = Vec::new();
    if cap > 0 {
        run.push(first);
    }
    proof {
        let one = sorted@.subrange(0, 1);
        assert(one.drop_last() =~= Seq::<Frag>::empty());
        assert(streams_of(one.drop_last(), cap as int) =~= Seq::<StreamPlanView>::empty());
        assert(run@ =~= capped_push(Seq::empty(), first, cap as int));
        assert(streams_of(one, cap as int) =~= plan_view(out@).push(
            StreamPlanView { group_id: group, track_id: track, end_of_group: true, frags: run@ },
        ));
    }
    let mut i: usize = 1;
    while i < n
        invariant
            1 <= i <= n,
            n == sorted@.len(),
            streams_of(sorted@.subrange(0, i as int), cap as int) == plan_view(out@).push(
                StreamPlanView {
                    group_id: group,
                    track_id: track,
                    end_of_group: true,
                    frags: run@,
                },
            ),
        decreases n - i,
    {
        let f: Frag = sorted[i];
        let ghost before = streams_of(sorted@.subrange(0, i as int), cap as int);
        let ghost upto = sorted@.subrange(0, i + 1);
        proof {
            assert(upto.drop_last() =~= sorted@.subrange(0, i as int));
            assert(upto.last() == f);
        }
        if f.group != group || f.track_id != track {
            out.push(
                StreamPlan {
                    group_id: group,
                    track_id: track,
                    end_of_group: group != f.group,
                    frags: run,
                },
            );
            run = Vec::new();
            if cap > 0 {
                run.push(f);
            }
            proof {
                assert(run@ =~= capped_push(Seq::empty(), f, cap as int));
                assert(plan_view(out@) =~= before.update(
                    before.len() - 1,
                    StreamPlanView { end_of_group: group != f.group, ..before.last() },
                ));
            }
            group = f.group;
            track = f.track_id;
        } else {
            let ghost old_run = run@;
            if run.len() < cap {
                run.push(f);
            }
            proof {
                assert(run@ =~= capped_push(old_run, f, cap as int));
                assert(streams_of(upto, cap as int) =~= plan_view(out@).push(
                    StreamPlanView {
                        group_id: group,
                        track_id: track,
                        end_of_group: true,
                        frags: run@,
                    },
                ));
            }
        }
        i += 1;
    }
    proof {
        assert(sorted@.subrange(0, n as int) =~= sorted@);
    }
    let ghost done = out@;
    out.push(StreamPlan { group_id: group, track_id: track, end_of_group: true, frags: run });
    assert(plan_view(out@) =~= plan_view(done).push(out@.last()@));
    out
}

/// What opens a stream: the header that says what the stream carries.
#[derive(Clone, Copy, Debug, PartialEq, Eq, Structural)]
pub struct StreamHeader {
    pub track_alias: u64,
    pub group_id: u64,
    /// The subgroup where the header names it; `None` where the subgroup is
    /// the id of the stream's first object.
    pub subgroup_id: Option<u64>,
    pub priority: u8,
    pub end_of_track: bool,
    pub end_of_group: bool,
}

/// One object of a stream.
#[derive(Clone, Copy, Debug, PartialEq, Eq, Structural)]
pub struct ObjectPlan {
    pub group_id: u64,
    pub subgroup_id: u64,
    pub object_id: u64,
    /// Id of the object sent before this one on the same stream.
    pub previous: Option<u64>,
    /// The bytes of the file that are the object's payload.
    pub payload: ByteSpan,
}

/// What the driver of a worker is to do next.
#[derive(Clone, Copy, Debug, PartialEq, Eq, Structural)]
pub enum WorkerAction {
    /// Open a unidirectional stream and send this header on it.
    OpenStream(StreamHeader),
    /// Read the payload from the file and send the object on the open stream.
    SendObject(ObjectPlan),
    /// Flush the open stream and close it.
    CloseStream,
    /// Wait for the pacing delay that separates groups.
    Pause,
    /// Nothing is left to do.
    Done,
}

/// Where a worker stands.
#[derive(Clone, Copy, Debug, PartialEq, Eq, Structural)]
pub enum Phase {
    Idle,
    InitOpening,
    InitSending,
    InitClosing,
    Pausing,
    Opening,
    Sending,
    Closing,
    Done,
}

/// A worker as contracts see it.
pub struct WorkerView {
    pub track_alias: u64,
    pub init: ByteSpan,
    pub streams: Seq<StreamPlanView>,
    pub phase: Phase,
    /// Index of the stream that is being delivered.
    pub stream: int,
    /// Index, within its stream, of the object that is being sent.
    pub object: int,
}

impl WorkerView {
    /// The header of the stream that carries the init segment.
    pub open spec fn init_header(self) -> StreamHeader {
        StreamHeader {
            track_alias: self.track_alias,
            group_id: 0,
            subgroup_id: Some(0),
            priority: PUBLISHER_PRIORITY,
            end_of_track: false,
            end_of_group: false,
        }
    }

    /// The init segment as an object.
    pub open spec fn init_object(self) -> ObjectPlan {
        ObjectPlan { group_id: 0, subgroup_id: 0, object_id: 0, previous: None, payload: self.init }
    }

    /// The header of the stream at `self.stream`.
    pub open spec fn header(self) -> StreamHeader {
        StreamHeader {
            track_alias: self.track_alias,
            group_id: self.streams[self.stream].group_id,
            subgroup_id: None,
            priority: PUBLISHER_PRIORITY,
            end_of_track: false,
            end_of_group: self.streams[self.stream].end_of_group,
        }
    }

    /// The object at `self.object` of the stream at `self.stream`, whose
    /// payload is `payload`.
    pub open spec fn object_plan(self, payload: ByteSpan) -> ObjectPlan {
        ObjectPlan {
            group_id: self.streams[self.stream].group_id,
            subgroup_id: FIRST_OBJECT_ID,
            object_id: (self.object + 1) as u64,
            previous: if self.object == 0 {
                None
            } else {
                Some(self.object as u64)
            },
            payload,
        }
    }

    /// Turns to the stream at `self.stream`: the worker is done where there
    /// is none, pauses where the stream starts a group, and opens it
    /// otherwise.
    pub open spec fn enter_stream(self) -> (WorkerView, WorkerAction) {
        if self.stream >= self.streams.len() {
            (WorkerView { phase: Phase::Done, ..self }, WorkerAction::Done)
        } else if self.stream == 0 || self.streams[self.stream - 1].group_id
            != self.streams[self.stream].group_id {
            (WorkerView { phase: Phase::Pausing, ..self }, WorkerAction::Pause)
        } else {
            self.open_stream()
        }
    }

    /// Opens the stream at `self.stream`.
    pub open spec fn open_stream(self) -> (WorkerView, WorkerAction) {
        (WorkerView { phase: Phase::Opening, ..self }, WorkerAction::OpenStream(self.header()))
    }

    /// Sends the object at `self.object`, or closes the stream where no
    /// object is left or the fragment has no bytes to read.
    pub open spec fn send_or_close(self) -> (WorkerView, WorkerAction) {
        let frags = self.streams[self.stream].frags;
        if self.object < frags.len() && frags[self.object].span() is Some {
            (
                WorkerView { phase: Phase::Sending, ..self },
                WorkerAction::SendObject(self.object_plan(frags[self.object].span().unwrap())),
            )
        } else {
            (WorkerView { phase: Phase::Closing, ..self }, WorkerAction::CloseStream)
        }
    }

    /// The worker after the last action ended as `ok` says, and the action it
    /// asks for next.
    pub open spec fn step(self, ok: bool) -> (WorkerView, WorkerAction) {
        match self.phase {
            Phase::Idle => if self.init.len > 0 {
                (
                    WorkerView { phase: Phase::InitOpening, ..self },
                    WorkerAction::OpenStream(self.init_header()),
                )
            } else {
                self.enter_stream()
            },
            Phase::InitOpening => if ok {
                (
                    WorkerView { phase: Phase::InitSending, ..self },
                    WorkerAction::SendObject(self.init_object()),
                )
            } else {
                self.enter_stream()
            },
            Phase::InitSending => (
                WorkerView { phase: Phase::InitClosing, ..self },
                WorkerAction::CloseStream,
            ),
            Phase::InitClosing => self.enter_stream(),
            Phase::Pausing => self.open_stream(),
            Phase::Opening => if ok {
                (WorkerView { object: 0, ..self }).send_or_close()
            } else {
                (WorkerView { stream: self.stream + 1, ..self }).enter_stream()
            },
            Phase::Sending => if ok {
                (WorkerView { object: self.object + 1, ..self }).send_or_close()
            } else {
                (WorkerView { phase: Phase::Closing, ..self }, WorkerAction::CloseStream)
            },
            Phase::Closing => (WorkerView { stream: self.stream + 1, ..self }).enter_stream(),
            Phase::Done => (self, WorkerAction::Done),
        }
    }

    /// The indices point into the plan, and no stream of fragments was
    /// turned to before the init segment was dealt with.
    pub open spec fn wf(self) -> bool {
        &&& 0 <= self.stream <= self.streams.len()
        &&& 0 <= self.object
        &&& (self.phase is Pausing || self.phase is Opening || self.phase is Sending
            || self.phase is Closing) ==> self.stream < self.streams.len()
        &&& self.phase is Sending ==> self.object < self.streams[self.stream].frags.len()
        &&& (self.phase is Idle || self.phase is InitOpening || self.phase is InitSending
            || self.phase is InitClosing) ==> self.stream == 0
    }
}

/// A delivery worker: the plan of one subscription and how far it has come.
pub struct Worker {
    track_alias: u64,
    init: ByteSpan,
    streams: Vec<StreamPlan>,
    phase: Phase,
    stream: usize,
    object: usize,
}

impl View for Worker {
    type V = WorkerView;

    closed spec fn view(&self) -> WorkerView {
        WorkerView {
            track_alias: self.track_alias,
            init: self.init,
            streams: plan_view(self.streams@),
            phase: self.phase,
            stream: self.stream as int,
            object: self.object as int,
        }
    }
}

impl Worker {
    #[verifier::type_invariant]
    spec fn inv(&self) -> bool {
        self@.wf()
    }

    /// A worker that has done nothing yet. It will send the init segment,
    /// then the fragments, at most `cap` of each track in each group.
    pub fn new(track_alias: u64, init: InitRange, frags: &Vec<Frag>, cap: usize) -> (w: Worker)
        ensures
            w@ == (WorkerView {
                track_alias,
                init: init.span(),
                streams: planned(frags@, cap as int),
                phase: Phase::Idle,
                stream: 0,
                object: 0,
            }),
            w@.wf(),
    {
        Worker {
            track_alias,
            init: init.byte_span(),
            streams: plan_streams(frags, cap),
            phase: Phase::Idle,
            stream: 0,
            object: 0,
        }
    }

    /// Whether the worker has nothing left to do.
    pub fn is_done(&self) -> (r: bool)
        ensures
            r == (self@.phase is Done),
    {
        match self.phase {
            Phase::Done => true,
            _ => false,
        }
    }

    fn enter_stream(&mut self) -> (r: WorkerAction)
        requires
            old(self).stream <= old(self).streams@.len(),
        ensures
            (final(self)@, r) == old(self)@.enter_stream(),
            final(self)@.wf(),
            final(self).stream == old(self).stream,
    {
        let s: usize = self.stream;
        if s >= self.streams.len() {
            self.phase = Phase::Done;
            WorkerAction::Done
        } else if s == 0 || self.streams[s - 1].group_id != self.streams[s].group_id {
            self.phase = Phase::Pausing;
            WorkerAction::Pause
        } else {
            self.open_stream()
        }
    }

    fn leave_stream(&mut self) -> (r: WorkerAction)
        requires
            old(self).stream < old(self).streams.len(),
        ensures
            (final(self)@, r) == (WorkerView {
                stream: old(self)@.stream + 1,
                ..old(self)@
            }).enter_stream(),
            final(self)@.wf(),
    {
        self.phase = Phase::Done;
        self.stream = self.stream + 1;
        self.enter_stream()
    }

    fn open_stream(&mut self) -> (r: WorkerAction)
        requires
            old(self).stream < old(self).streams@.len(),
        ensures
            (final(self)@, r) == old(self)@.open_stream(),
            final(self)@.wf(),
            final(self).stream == old(self).stream,
    {
        let plan = &self.streams[self.stream];
        let header = StreamHeader {
            track_alias: self.track_alias,
            group_id: plan.group_id,
            subgroup_id: None,
            priority: PUBLISHER_PRIORITY,
            end_of_track: false,
            end_of_group: plan.end_of_group,
        };
        self.phase = Phase::Opening;
        WorkerAction::OpenStream(header)
    }

    fn send_or_close(&mut self) -> (r: WorkerAction)
        requires
            old(self).stream < old(self).streams@.len(),
        ensures
            (final(self)@, r) == old(self)@.send_or_close(),
            final(self)@.wf(),
    {
        let plan = &self.streams[self.stream];
        let o: usize = self.object;
        if o < plan.frags.len() {
            match plan.frags[o].byte_span() {
                Some(payload) => {
                    let object = ObjectPlan {
                        group_id: plan.group_id,
                        subgroup_id: FIRST_OBJECT_ID,
                        object_id: o as u64 + 1,
                        previous: if o == 0 {
                            None
                        } else {
                            Some(o as u64)
                        },
                        payload,
                    };
                    self.phase = Phase::Sending;
                    return WorkerAction::SendObject(object);
                },
                None => {},
            }
        }
        self.phase = Phase::Closing;
        WorkerAction::CloseStream
    }

    /// Takes the outcome of the last action and returns the next one. The
    /// first call, on an idle worker, reports nothing: its argument is not
    /// read.
    ///
    /// A stream that cannot be opened is passed over; an object that cannot
    /// be read or sent ends its stream, which is closed all the same; the
    /// worker goes on to the next stream either way.
    pub fn step(&mut self, ok: bool) -> (r: WorkerAction)
        ensures
            (final(self)@, r) == old(self)@.step(ok),
            final(self)@.wf(),
    {
        proof {
            use_type_invariant(&*self);
        }
        match self.phase {
            Phase::Idle => {
                if self.init.len > 0 {
                    self.phase = Phase::InitOpening;
                    WorkerAction::OpenStream(
                        StreamHeader {
                            track_alias: self.track_alias,
                            group_id: 0,
                            subgroup_id: Some(0),
                            priority: PUBLISHER_PRIORITY,
                            end_of_track: false,
                            end_of_group: false,
                        },
                    )
                } else {
                    self.enter_stream()
                }
            },
            Phase::InitOpening => {
                if ok {
                    self.phase = Phase::InitSending;
                    WorkerAction::SendObject(
                        ObjectPlan {
                            group_id: 0,
                            subgroup_id: 0,
                            object_id: 0,
                            previous: None,
                            payload: self.init,
                        },
                    )
                } else {
                    self.enter_stream()
                }
            },
            Phase::InitSending => {
                self.phase = Phase::InitClosing;
                WorkerAction::CloseStream
            },
            Phase::InitClosing => self.enter_stream(),
            Phase::Pausing => self.open_stream(),
            Phase::Opening => {
                if ok {
                    self.object = 0;
                    self.send_or_close()
                } else {
                    self.leave_stream()
                }
            },
            Phase::Sending => {
                if ok {
                    assert(self.object < self.streams[self.stream as int].frags.len());
                    self.phase = Phase::Closing;
                    self.object = self.object + 1;
                    self.send_or_close()
                } else {
                    self.phase = Phase::Closing;
                    WorkerAction::CloseStream
                }
            },
            Phase::Closing => self.leave_stream(),
            Phase::Done => WorkerAction::Done,
        }
    }
}

/// The number of streams that a worker opens in its next `steps` steps
/// where every action succeeds.
pub open spec fn streams_opened(w: WorkerView, steps: nat) -> nat
    decreases steps,
{
    if steps == 0 {
        0
    } else {
        let (next, action) = w.step(true);
        let opened: nat = if action is OpenStream {
            1
        } else {
            0
        };
        opened + streams_opened(next, (steps - 1) as nat)
    }
}

/// A number of steps that brings a worker through the streams from `from`
/// on: for each a pause, the opening, its objects and the closing.
pub open spec fn steps_through(streams: Seq<StreamPlanView>, from: int) -> nat
    decreases streams.len() - from,
{
    if from < 0 || from >= streams.len() {
        0
    } else {
        3 + streams[from].frags.len() + steps_through(streams, from + 1)
    }
}

impl WorkerView {
    /// A number of steps after which the worker is done, whatever succeeds.
    pub open spec fn steps_left(self) -> nat {
        let at_hand: int = if 0 <= self.stream < self.streams.len() {
            self.streams[self.stream].frags.len() as int
        } else {
            0
        };
        let behind = steps_through(self.streams, self.stream + 1);
        match self.phase {
            Phase::Idle => 4 + steps_through(self.streams, 0),
            Phase::InitOpening => 3 + steps_through(self.streams, 0),
            Phase::InitSending => 2 + steps_through(self.streams, 0),
            Phase::InitClosing => 1 + steps_through(self.streams, 0),
            Phase::Pausing => (3 + at_hand + behind) as nat,
            Phase::Opening => (2 + at_hand + behind) as nat,
            Phase::Sending => (1 + at_hand - self.object + behind) as nat,
            Phase::Closing => 1 + behind,
            Phase::Done => 0,
        }
    }

    /// The number of streams that the worker has yet to open where every
    /// action succeeds.
    pub open spec fn streams_left(self) -> nat {
        match self.phase {
            Phase::Idle => if self.init.len > 0 {
                self.streams.len() + 1
            } else {
                self.streams.len()
            },
            Phase::InitOpening | Phase::InitSending | Phase::InitClosing => self.streams.len(),
            Phase::Pausing => (self.streams.len() - self.stream) as nat,
            Phase::Opening | Phase::Sending | Phase::Closing => (self.streams.len() - self.stream
                - 1) as nat,
            Phase::Done => 0,
        }
    }
}

/// A worker that is not done has fewer steps left after every step,
/// however the step before ended, and stays well formed: it is done after
/// finitely many steps, and then stays done.
pub proof fn lemma_worker_advances(w: WorkerView, ok: bool)
    requires
        w.wf(),
    ensures
        w.step(ok).0.wf(),
        w.step(ok).0.streams == w.streams,
        !(w.phase is Done) ==> w.step(ok).0.steps_left() < w.steps_left(),
        w.phase is Done ==> w.step(ok) == (w, WorkerAction::Done),
        w.step(ok).1 is Done <==> w.step(ok).0.phase is Done,
{
    assert(steps_through(w.streams, w.streams.len() as int) == 0);
}

/// A worker that is done opens nothing more.
proof fn lemma_done_opens_nothing(w: WorkerView, steps: nat)
    requires
        w.phase is Done,
    ensures
        streams_opened(w, steps) == 0,
    decreases steps,
{
    if steps > 0 {
        lemma_done_opens_nothing(w, (steps - 1) as nat);
    }
}

/// Where every action succeeds, a worker opens in enough steps exactly the
/// streams it has yet to open.
proof fn lemma_streams_opened(w: WorkerView, steps: nat)
    requires
        w.wf(),
        steps >= w.steps_left(),
    ensures
        streams_opened(w, steps) == w.streams_left(),
    decreases steps,
{
    if w.phase is Done {
        lemma_done_opens_nothing(w, steps);
    } else {
        let (next, action) = w.step(true);
        lemma_worker_advances(w, true);
        lemma_streams_opened(next, (steps - 1) as nat);
    }
}

/// A worker for which every action succeeds opens one stream for each
/// stream of its plan, and one before them for the init segment unless that
/// is empty. It has done so within `steps_left()` steps and opens none
/// after.
pub proof fn lemma_fully_delivered(w: WorkerView, steps: nat)
    requires
        w.wf(),
        w.phase is Idle,
        steps >= w.steps_left(),
    ensures
        streams_opened(w, steps) == w.streams.len() + if w.init.len > 0 {
            1nat
        } else {
            0nat
        },
{
    lemma_streams_opened(w, steps);
}

} // verus!
