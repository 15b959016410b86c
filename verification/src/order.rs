//! Arranging fragments in ascending order without disturbing those that
//! rank alike.

use vstd::prelude::*;
use crate::indexer::Frag;

verus! {

/// What fragments are ranked by.
#[derive(Clone, Copy, Debug, PartialEq, Eq, Structural)]
pub enum Rank {
    /// By group, then by object: the order of the index.
    GroupObject,
    /// By group, then by track: the order of delivery.
    GroupTrack,
}

/// The pair that `f` is ranked by.
pub open spec fn rank_of(f: Frag, by: Rank) -> (int, int) {
    match by {
        Rank::GroupObject => (f.group as int, f.object as int),
        Rank::GroupTrack => (f.group as int, f.track_id as int),
    }
}

/// `a` ranks no later than `b`.
pub open spec fn no_later(a: (int, int), b: (int, int)) -> bool {
    a.0 < b.0 || (a.0 == b.0 && a.1 <= b.1)
}

/// Every fragment of `s` ranks no later than those behind it.
pub open spec fn ascending(s: Seq<Frag>, by: Rank) -> bool {
    forall|i: int, j: int| 0 <= i < j < s.len() ==> no_later(rank_of(s[i], by), rank_of(s[j], by))
}

/// The fragments of `s` whose rank is `k`, in the order of `s`.
pub open spec fn ranked(s: Seq<Frag>, by: Rank, k: (int, int)) -> Seq<Frag> {
    s.filter(|f: Frag| rank_of(f, by) == k)
}

/// `s` with `x` put behind the last fragment that ranks no later than `x`,
/// where `s` is ascending.
pub open spec fn placed(s: Seq<Frag>, x: Frag, by: Rank) -> Seq<Frag>
    decreases s.len(),
{
    if s.len() == 0 {
        seq![x]
    } else if no_later(rank_of(s.last(), by), rank_of(x, by)) {
        s.push(x)
    } else {
        placed(s.drop_last(), x, by).push(s.last())
    }
}

/// `s` in ascending order, fragments of one rank in the order they have in
/// `s`.
pub open spec fn arranged(s: Seq<Frag>, by: Rank) -> Seq<Frag>
    decreases s.len(),
{
    if s.len() == 0 {
        s
    } else {
        placed(arranged(s.drop_last(), by), s.last(), by)
    }
}

/// Placing a fragment keeps a sequence ascending, adds one fragment, and
/// leaves the fragments of each rank in their order, the new one last among
/// its own.
pub proof fn lemma_placed(s: Seq<Frag>, x: Frag, by: Rank)
    requires
        ascending(s, by),
    ensures
        ascending(placed(s, x, by), by),
        placed(s, x, by).len() == s.len() + 1,
        forall|k: (int, int)|
            #[trigger] ranked(placed(s, x, by), by, k) == if rank_of(x, by) == k {
                ranked(s, by, k).push(x)
            } else {
                ranked(s, by, k)
            },
        forall|i: int|
            0 <= i < s.len() + 1 ==> #[trigger] placed(s, x, by)[i] == x || s.contains(
                placed(s, x, by)[i],
            ),
    decreases s.len(),
{
    let p = placed(s, x, by);
    if s.len() == 0 {
        assert forall|k: (int, int)| #[trigger]
            ranked(p, by, k) == if rank_of(x, by) == k {
                ranked(s, by, k).push(x)
            } else {
                ranked(s, by, k)
            } by {
            lemma_ranked_push(s, x, by, k);
            assert(p =~= s.push(x));
        }
    } else if no_later(rank_of(s.last(), by), rank_of(x, by)) {
        assert forall|i: int, j: int| 0 <= i < j < p.len() implies no_later(
            rank_of(p[i], by),
            rank_of(p[j], by),
        ) by {
            if j == s.len() && i < s.len() - 1 {
                assert(no_later(rank_of(s[i], by), rank_of(s[s.len() - 1], by)));
            }
        }
        assert forall|k: (int, int)| #[trigger]
            ranked(p, by, k) == if rank_of(x, by) == k {
                ranked(s, by, k).push(x)
            } else {
                ranked(s, by, k)
            } by {
            lemma_ranked_push(s, x, by, k);
        }
        assert forall|i: int| 0 <= i < s.len() + 1 implies #[trigger] p[i] == x || s.contains(
            p[i],
        ) by {
            if i < s.len() {
                assert(s[i] == p[i]);
            }
        }
    } else {
        let front = s.drop_last();
        let last = s.last();
        let q = placed(front, x, by);
        lemma_placed(front, x, by);
        assert(s =~= front.push(last));
        assert forall|i: int, j: int| 0 <= i < j < p.len() implies no_later(
            rank_of(p[i], by),
            rank_of(p[j], by),
        ) by {
            if j == p.len() - 1 {
                assert(p[j] == last);
                assert(p[i] == q[i]);
                if q[i] != x {
                    assert(front.contains(q[i]));
                    let w = choose|w: int| 0 <= w < front.len() && front[w] == q[i];
                    assert(s[w] == q[i]);
                }
            } else {
                assert(p[i] == q[i] && p[j] == q[j]);
            }
        }
        assert forall|k: (int, int)| #[trigger]
            ranked(p, by, k) == if rank_of(x, by) == k {
                ranked(s, by, k).push(x)
            } else {
                ranked(s, by, k)
            } by {
            lemma_ranked_push(q, last, by, k);
            lemma_ranked_push(front, last, by, k);
            if rank_of(x, by) == k {
                assert(rank_of(last, by) != k);
            }
        }
        assert forall|i: int| 0 <= i < s.len() + 1 implies #[trigger] p[i] == x || s.contains(
            p[i],
        ) by {
            if i == s.len() {
                assert(s[s.len() - 1] == p[i]);
            } else {
                assert(p[i] == q[i]);
                if q[i] != x {
                    let w = choose|w: int| 0 <= w < front.len() && front[w] == q[i];
                    assert(s[w] == q[i]);
                }
            }
        }
    }
}

/// The fragments of rank `k` in `s.push(x)`.
pub proof fn lemma_ranked_push(s: Seq<Frag>, x: Frag, by: Rank, k: (int, int))
    ensures
        ranked(s.push(x), by, k) == if rank_of(x, by) == k {
            ranked(s, by, k).push(x)
        } else {
            ranked(s, by, k)
        },
{
    reveal(Seq::filter);
    assert(s.push(x).drop_last() =~= s);
}

/// An arranged sequence is ascending, as long as the sequence it came from,
/// holds the fragments of each rank in the order they came in, and holds no
/// fragment that did not come in.
pub proof fn lemma_arranged(s: Seq<Frag>, by: Rank)
    ensures
        ascending(arranged(s, by), by),
        arranged(s, by).len() == s.len(),
        forall|k: (int, int)| #[trigger] ranked(arranged(s, by), by, k) == ranked(s, by, k),
        forall|i: int| 0 <= i < s.len() ==> s.contains(#[trigger] arranged(s, by)[i]),
    decreases s.len(),
{
    if s.len() == 0 {
    } else {
        let front = s.drop_last();
        lemma_arranged(front, by);
        lemma_placed(arranged(front, by), s.last(), by);
        assert(s =~= front.push(s.last()));
        assert forall|i: int| 0 <= i < s.len() implies s.contains(#[trigger] arranged(s, by)[i]) by {
            let e = arranged(s, by)[i];
            if e == s.last() {
                assert(s[s.len() - 1] == e);
            } else {
                assert(arranged(front, by).contains(e));
                let w = choose|w: int| 0 <= w < front.len() && arranged(front, by)[w] == e;
                assert(front.contains(arranged(front, by)[w]));
                let v = choose|v: int| 0 <= v < front.len() && front[v] == e;
                assert(s[v] == e);
            }
        }
        assert forall|k: (int, int)| #[trigger]
            ranked(arranged(s, by), by, k) == ranked(s, by, k) by {
            lemma_ranked_push(front, s.last(), by, k);
        }
    }
}

/// Where `x` comes to stand: behind the front of `s` that ranks no later,
/// before the rest.
proof fn lemma_placed_at(s: Seq<Frag>, x: Frag, by: Rank, j: int)
    requires
        0 <= j <= s.len(),
        j == 0 || no_later(rank_of(s[j - 1], by), rank_of(x, by)),
        forall|t: int| j <= t < s.len() ==> !no_later(rank_of(#[trigger] s[t], by), rank_of(x, by)),
    ensures
        placed(s, x, by) == s.subrange(0, j).push(x) + s.subrange(j, s.len() as int),
    decreases s.len(),
{
    if j == s.len() {
        assert(s.subrange(0, j) =~= s);
        assert(placed(s, x, by) =~= s.push(x) + s.subrange(j, s.len() as int));
    } else {
        let front = s.drop_last();
        assert(!no_later(rank_of(s[s.len() - 1], by), rank_of(x, by)));
        lemma_placed_at(front, x, by, j);
        assert(placed(s, x, by) =~= s.subrange(0, j).push(x) + s.subrange(j, s.len() as int));
    }
}

/// Whether `a` ranks no later than `b`.
pub fn ranks_no_later(a: &Frag, b: &Frag, by: Rank) -> (r: bool)
    ensures
        r == no_later(rank_of(*a, by), rank_of(*b, by)),
{
    match by {
        Rank::GroupObject => a.group < b.group || (a.group == b.group && a.object <= b.object),
        Rank::GroupTrack => a.group < b.group || (a.group == b.group && a.track_id <= b.track_id),
    }
}

/// Puts the fragments of `v` in ascending order. Fragments of one rank keep
/// the order they had.
pub fn arrange(v: &mut Vec<Frag>, by: Rank)
    ensures
        final(v)@ == arranged(old(v)@, by),
        ascending(final(v)@, by),
        final(v)@.len() == old(v)@.len(),
        forall|k: (int, int)| #[trigger] ranked(final(v)@, by, k) == ranked(old(v)@, by, k),
{
    let ghost orig = v@;
    let n: usize = v.len();
    let mut i: usize = 0;
    while i < n
        invariant
            i <= n,
            v@.len() == n,
            orig.len() == n,
            v@.subrange(0, i as int) == arranged(orig.subrange(0, i as int), by),
            v@.subrange(i as int, n as int) == orig.subrange(i as int, n as int),
        decreases n - i,
    {
        let x: Frag = v[i];
        let ghost front = v@.subrange(0, i as int);
        assert(x == orig[i as int]) by {
            assert(v@.subrange(i as int, n as int)[0] == orig.subrange(i as int, n as int)[0]);
        }
        proof {
            let rest = v@.subrange(i + 1, n as int);
            let kept = orig.subrange(i + 1, n as int);
            assert forall|t: int| 0 <= t < rest.len() implies #[trigger] rest[t] == kept[t] by {
                assert(v@.subrange(i as int, n as int)[t + 1] == orig.subrange(
                    i as int,
                    n as int,
                )[t + 1]);
            }
            assert(rest =~= kept);
        }
        let mut j: usize = i;
        while j > 0 && !ranks_no_later(&v[j - 1], &x, by)
            invariant
                j <= i < n,
                v@.len() == n,
                front.len() == i,
                v@.subrange(0, j as int) == front.subrange(0, j as int),
                v@.subrange(j + 1, i + 1) == front.subrange(j as int, i as int),
                forall|t: int|
                    j <= t < i ==> !no_later(rank_of(#[trigger] front[t], by), rank_of(x, by)),
                v@.subrange(i + 1, n as int) == orig.subrange(i + 1, n as int),
            decreases j,
        {
            let ghost before = v@;
            let y: Frag = v[j - 1];
            assert(y == front[j - 1]) by {
                assert(v@.subrange(0, j as int)[j - 1] == front.subrange(0, j as int)[j - 1]);
            }
            v[j] = y;
            j -= 1;
            assert(v@ == before.update(j + 1, y));
            assert(v@.subrange(0, j as int) =~= front.subrange(0, j as int)) by {
                assert(v@.subrange(0, j as int) =~= before.subrange(0, j + 1).subrange(0, j as int));
            }
            proof {
                let moved = v@.subrange(j + 1, i + 1);
                let wanted = front.subrange(j as int, i as int);
                assert forall|t: int| 0 <= t < moved.len() implies #[trigger] moved[t]
                    == wanted[t] by {
                    if t > 0 {
                        assert(before.subrange(j + 2, i + 1)[t - 1] == front.subrange(
                            j + 1,
                            i as int,
                        )[t - 1]);
                    }
                }
                assert(moved =~= wanted);
            }
            assert(v@.subrange(i + 1, n as int) =~= before.subrange(i + 1, n as int));
        }
        let ghost before = v@;
        v[j] = x;
        proof {
            assert(v@ == before.update(j as int, x));
            if j > 0 {
                assert(v@.subrange(0, j as int)[j - 1] == front.subrange(0, j as int)[j - 1]) by {
                    assert(v@.subrange(0, j as int) =~= before.subrange(0, j as int));
                }
            }
            lemma_placed_at(front, x, by, j as int);
            let upto = orig.subrange(0, i + 1);
            assert(upto.drop_last() =~= orig.subrange(0, i as int));
            assert(upto.last() == x);
            let got = v@.subrange(0, i + 1);
            let wanted = front.subrange(0, j as int).push(x) + front.subrange(j as int, i as int);
            assert forall|t: int| 0 <= t < got.len() implies #[trigger] got[t] == wanted[t] by {
                if t < j {
                    assert(before.subrange(0, j as int)[t] == front.subrange(0, j as int)[t]);
                } else if t > j {
                    assert(before.subrange(j + 1, i + 1)[t - j - 1] == front.subrange(
                        j as int,
                        i as int,
                    )[t - j - 1]);
                }
            }
            assert(got =~= wanted);
            assert(v@.subrange(i + 1, n as int) =~= orig.subrange(i + 1, n as int)) by {
                assert(v@.subrange(i + 1, n as int) =~= before.subrange(i + 1, n as int));
            }
        }
        i += 1;
    }
    proof {
        assert(v@.subrange(0, n as int) =~= v@);
        assert(orig.subrange(0, n as int) =~= orig);
        lemma_arranged(orig, by);
    }
}

} // verus!
