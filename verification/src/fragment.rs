//! The movie-fragment box: the track fragments and their decode times.

use vstd::prelude::*;
use crate::be::{read_u32, read_u64, u32_at, u64_at};
use crate::boxes::{
    all_within, children, find_last, last_of, list_children, Child, MFHD, TFDT, TFHD, TRAF,
};

verus! {

/// One track fragment of a movie-fragment box.
#[derive(Clone, Copy, Debug, PartialEq, Eq, Structural)]
pub struct TrackFragment {
    pub track_id: u32,
    /// The decode time of the fragment's first sample, where the fragment
    /// says it.
    pub decode_time: Option<u64>,
}

/// The decode time that a decode-time box gives, whose payload lies from
/// `lo` to `hi`: 32 bits in version 0, 64 in version 1. `None` where the
/// version is another or the time lies beyond `hi`.
pub open spec fn decode_time(data: Seq<u8>, lo: int, hi: int) -> Option<u64> {
    if lo + 4 > hi {
        None
    } else if data[lo] == 0 && lo + 8 <= hi {
        Some(u32_at(data, lo + 4) as u64)
    } else if data[lo] == 1 && lo + 12 <= hi {
        Some(u64_at(data, lo + 4) as u64)
    } else {
        None
    }
}

/// The track id of a track-fragment header whose payload lies from `lo` to
/// `hi`: the 32 bits behind version and flags.
pub open spec fn fragment_track_id(data: Seq<u8>, lo: int, hi: int) -> Option<u32> {
    if lo + 8 > hi {
        None
    } else {
        Some(u32_at(data, lo + 4) as u32)
    }
}

/// The track fragment that the box `traf` holds. `None` where the box is not
/// a row of boxes, has no header, or its header or decode time is
/// malformed.
pub open spec fn track_fragment(data: Seq<u8>, traf: Child) -> Option<TrackFragment> {
    match children(data, traf.body as int, traf.end as int) {
        None => None,
        Some(boxes) => match last_of(boxes, TFHD) {
            None => None,
            Some(tfhd) => match fragment_track_id(data, tfhd.body as int, tfhd.end as int) {
                None => None,
                Some(track_id) => match last_of(boxes, TFDT) {
                    None => Some(TrackFragment { track_id, decode_time: None }),
                    Some(tfdt) => match decode_time(data, tfdt.body as int, tfdt.end as int) {
                        Some(time) => Some(TrackFragment { track_id, decode_time: Some(time) }),
                        None => None,
                    },
                },
            },
        },
    }
}

/// The track fragments of the track-fragment boxes among `boxes`, in order;
/// `None` where one of them is malformed.
pub open spec fn fragments_among(data: Seq<u8>, boxes: Seq<Child>) -> Option<Seq<TrackFragment>>
    decreases boxes.len(),
{
    if boxes.len() == 0 {
        Some(Seq::empty())
    } else {
        match fragments_among(data, boxes.drop_last()) {
            None => None,
            Some(fragments) => if boxes.last().code == TRAF {
                match track_fragment(data, boxes.last()) {
                    Some(fragment) => Some(fragments.push(fragment)),
                    None => None,
                }
            } else {
                Some(fragments)
            },
        }
    }
}

/// The track fragments of a movie-fragment box whose payload lies from `lo`
/// to `hi`, in the order of its track-fragment boxes; `None` where the box is
/// not a row of boxes, holds no fragment header, or holds a track-fragment
/// box that is malformed.
pub open spec fn fragment_tracks(data: Seq<u8>, lo: int, hi: int) -> Option<Seq<TrackFragment>> {
    match children(data, lo, hi) {
        Some(boxes) => if last_of(boxes, MFHD) is Some {
            fragments_among(data, boxes)
        } else {
            None
        },
        None => None,
    }
}

/// Reads the decode time that a decode-time box gives.
pub fn read_decode_time(data: &[u8], lo: usize, hi: usize) -> (r: Option<u64>)
    requires
        lo <= hi <= data.len(),
    ensures
        r == decode_time(data@, lo as int, hi as int),
{
    if hi - lo < 4 {
        None
    } else if data[lo] == 0 && hi - lo >= 8 {
        Some(read_u32(data, lo + 4) as u64)
    } else if data[lo] == 1 && hi - lo >= 12 {
        Some(read_u64(data, lo + 4))
    } else {
        None
    }
}

/// Reads the track fragment that a track-fragment box holds.
pub fn read_track_fragment(data: &[u8], traf: &Child) -> (r: Option<TrackFragment>)
    requires
        traf.body <= traf.end <= data.len(),
    ensures
        r == track_fragment(data@, *traf),
{
    let boxes = match list_children(data, traf.body, traf.end) {
        Some(boxes) => boxes,
        None => {
            return None;
        },
    };
    let tfhd = match find_last(&boxes, TFHD) {
        Some(tfhd) => tfhd,
        None => {
            return None;
        },
    };
    if tfhd.end - tfhd.body < 8 {
        return None;
    }
    let track_id: u32 = read_u32(data, tfhd.body + 4);
    match find_last(&boxes, TFDT) {
        None => Some(TrackFragment { track_id, decode_time: None }),
        Some(tfdt) => match read_decode_time(data, tfdt.body, tfdt.end) {
            Some(time) => Some(TrackFragment { track_id, decode_time: Some(time) }),
            None => None,
        },
    }
}

/// Reads the track fragments of a movie-fragment box whose payload lies from
/// `lo` to `hi`.
pub fn read_fragment_tracks(data: &[u8], lo: usize, hi: usize) -> (r: Option<Vec<TrackFragment>>)
    requires
        lo <= hi <= data.len(),
    ensures
        match r {
            Some(fragments) => fragment_tracks(data@, lo as int, hi as int) == Some(fragments@),
            None => fragment_tracks(data@, lo as int, hi as int) is None,
        },
{
    let boxes = match list_children(data, lo, hi) {
        Some(boxes) => boxes,
        None => {
            return None;
        },
    };
    match find_last(&boxes, MFHD) {
        Some(_) => {},
        None => {
            return None;
        },
    }
    let mut out: Vec<TrackFragment> = Vec::new();
    let mut i: usize = 0;
    assert(boxes@.subrange(0, 0) =~= Seq::<Child>::empty());
    while i < boxes.len()
        invariant
            i <= boxes@.len(),
            hi <= data.len(),
            all_within(boxes@, lo as int, hi as int),
            children(data@, lo as int, hi as int) == Some(boxes@),
            last_of(boxes@, MFHD) is Some,
            fragments_among(data@, boxes@.subrange(0, i as int)) == Some(out@),
        decreases boxes@.len() - i,
    {
        let c: Child = boxes[i];
        let ghost upto = boxes@.subrange(0, i + 1);
        proof {
            assert(upto.drop_last() =~= boxes@.subrange(0, i as int));
            assert(upto.last() == c);
            assert(c.body <= c.end <= hi);
        }
        if c.code == TRAF {
            match read_track_fragment(data, &c) {
                Some(fragment) => {
                    out.push(fragment);
                },
                None => {
                    proof {
                        assert(fragments_among(data@, upto) is None);
                        lemma_fragments_prefix(data@, boxes@, i + 1);
                    }
                    return None;
                },
            }
        }
        i += 1;
    }
    assert(boxes@.subrange(0, boxes@.len() as int) =~= boxes@);
    Some(out)
}

/// No fragments are had where none are had of the first `n` boxes.
proof fn lemma_fragments_prefix(data: Seq<u8>, boxes: Seq<Child>, n: int)
    requires
        0 <= n <= boxes.len(),
        fragments_among(data, boxes.subrange(0, n)) is None,
    ensures
        fragments_among(data, boxes) is None,
    decreases boxes.len(),
{
    if n == boxes.len() {
        assert(boxes.subrange(0, n) =~= boxes);
    } else {
        assert(boxes.drop_last().subrange(0, n) =~= boxes.subrange(0, n));
        lemma_fragments_prefix(data, boxes.drop_last(), n);
    }
}

} // verus!
