//! The movie-metadata box: the timing of each track.

use vstd::prelude::*;
use crate::be::{read_u32, read_u64, u32_at, u64_at};
use crate::boxes::{
    all_within, child, child_at, children, find_last, last_of, list_children, Child, EDTS, ELST,
    MDHD, MDIA, MVHD, TKHD, TRAK,
};

verus! {

/// What the movie-metadata box says of one track.
#[derive(Clone, Copy, Debug, PartialEq, Eq, Structural)]
pub struct TrackTiming {
    pub track_id: u32,
    /// Units of decode time in a second.
    pub timescale: u32,
    /// The media time of the track's edit list, where the list has one entry.
    pub delay: Option<u64>,
}

/// The 32-bit field that follows the creation and modification times of a
/// track header or media header whose payload lies from `lo` to `hi`: the
/// track id of the one, the timescale of the other. The times take four
/// bytes each in version 0 and eight in version 1. `None` where the version
/// is another or the field lies beyond `hi`.
pub open spec fn field_after_times(data: Seq<u8>, lo: int, hi: int) -> Option<u32> {
    if lo + 4 > hi {
        None
    } else if data[lo] == 0 && lo + 16 <= hi {
        Some(u32_at(data, lo + 12) as u32)
    } else if data[lo] == 1 && lo + 24 <= hi {
        Some(u32_at(data, lo + 20) as u32)
    } else {
        None
    }
}

/// The delay that an edit list gives, whose payload lies from `lo` to `hi`:
/// the media time of its entry where it has exactly one, and none otherwise.
/// An entry takes twenty bytes in version 1 and twelve in any other. The
/// outer `None` stands for a list that is cut short or counts more entries
/// than its box can hold.
pub open spec fn edit_delay(data: Seq<u8>, lo: int, hi: int) -> Option<Option<u64>> {
    if lo + 8 > hi {
        None
    } else {
        let entries = u32_at(data, lo + 4);
        let entry_len: int = if data[lo] == 1 {
            20
        } else {
            12
        };
        if entries * entry_len > hi - lo - 8 {
            None
        } else if entries != 1 {
            Some(None)
        } else if data[lo] == 1 {
            Some(Some(u64_at(data, lo + 16) as u64))
        } else {
            Some(Some(u32_at(data, lo + 12) as u64))
        }
    }
}

/// The delay of a track whose boxes are `boxes`: that of the edit list that
/// is the first box of its edit box, and none where it has no edit box, or
/// the edit box is empty or starts with another box. The outer `None`
/// stands for an edit box whose first box, or the list in it, is malformed.
pub open spec fn track_delay(data: Seq<u8>, boxes: Seq<Child>) -> Option<Option<u64>> {
    match last_of(boxes, EDTS) {
        None => Some(None),
        Some(edts) => if edts.body >= edts.end {
            Some(None)
        } else {
            match child_at(data, edts.body as int, edts.end as int) {
                None => None,
                Some(first) => if first.code == ELST {
                    edit_delay(data, first.body as int, first.end as int)
                } else {
                    Some(None)
                },
            }
        },
    }
}

/// The timescale of a track whose boxes are `boxes`: that of the media
/// header in its media box. `None` where one of them is missing or
/// malformed.
pub open spec fn track_timescale(data: Seq<u8>, boxes: Seq<Child>) -> Option<u32> {
    match last_of(boxes, MDIA) {
        None => None,
        Some(mdia) => match children(data, mdia.body as int, mdia.end as int) {
            None => None,
            Some(media) => match last_of(media, MDHD) {
                None => None,
                Some(mdhd) => field_after_times(data, mdhd.body as int, mdhd.end as int),
            },
        },
    }
}

/// The timing of the track box `trak`. `None` where the box is not a row of
/// boxes, or has no track header or no media header, or one of the boxes
/// read is malformed.
pub open spec fn track_timing(data: Seq<u8>, trak: Child) -> Option<TrackTiming> {
    match children(data, trak.body as int, trak.end as int) {
        None => None,
        Some(boxes) => match last_of(boxes, TKHD) {
            None => None,
            Some(tkhd) => match (
                field_after_times(data, tkhd.body as int, tkhd.end as int),
                track_timescale(data, boxes),
                track_delay(data, boxes),
            ) {
                (Some(track_id), Some(timescale), Some(delay)) => Some(
                    TrackTiming { track_id, timescale, delay },
                ),
                _ => None,
            },
        },
    }
}

/// The timings of the track boxes among `boxes`, in order; `None` where one
/// of them has none.
pub open spec fn timings_among(data: Seq<u8>, boxes: Seq<Child>) -> Option<Seq<TrackTiming>>
    decreases boxes.len(),
{
    if boxes.len() == 0 {
        Some(Seq::empty())
    } else {
        match timings_among(data, boxes.drop_last()) {
            None => None,
            Some(timings) => if boxes.last().code == TRAK {
                match track_timing(data, boxes.last()) {
                    Some(timing) => Some(timings.push(timing)),
                    None => None,
                }
            } else {
                Some(timings)
            },
        }
    }
}

/// The timings of the tracks of a movie-metadata box whose payload lies from
/// `lo` to `hi`, in the order of its track boxes; `None` where the box is
/// not a row of boxes, holds no movie header, or holds a track box that is
/// malformed.
pub open spec fn movie_tracks(data: Seq<u8>, lo: int, hi: int) -> Option<Seq<TrackTiming>> {
    match children(data, lo, hi) {
        Some(boxes) => if last_of(boxes, MVHD) is Some {
            timings_among(data, boxes)
        } else {
            None
        },
        None => None,
    }
}

/// Reads the field that follows the times of a track header or media header.
pub fn read_field_after_times(data: &[u8], lo: usize, hi: usize) -> (r: Option<u32>)
    requires
        lo <= hi <= data.len(),
    ensures
        r == field_after_times(data@, lo as int, hi as int),
{
    if hi - lo < 4 {
        None
    } else if data[lo] == 0 && hi - lo >= 16 {
        Some(read_u32(data, lo + 12))
    } else if data[lo] == 1 && hi - lo >= 24 {
        Some(read_u32(data, lo + 20))
    } else {
        None
    }
}

/// Reads the delay that an edit list gives.
pub fn read_edit_delay(data: &[u8], lo: usize, hi: usize) -> (r: Option<Option<u64>>)
    requires
        lo <= hi <= data.len(),
    ensures
        r == edit_delay(data@, lo as int, hi as int),
{
    if hi - lo < 8 {
        return None;
    }
    let entries: u64 = read_u32(data, lo + 4) as u64;
    let long_times: bool = data[lo] == 1;
    let entry_len: u64 = if long_times {
        20
    } else {
        12
    };
    if entries * entry_len > (hi - lo - 8) as u64 {
        None
    } else if entries != 1 {
        Some(None)
    } else if long_times {
        Some(Some(read_u64(data, lo + 16)))
    } else {
        Some(Some(read_u32(data, lo + 12) as u64))
    }
}

fn read_track_delay(data: &[u8], boxes: &Vec<Child>, lo: usize, hi: usize) -> (r: Option<
    Option<u64>,
>)
    requires
        hi <= data.len(),
        all_within(boxes@, lo as int, hi as int),
    ensures
        r == track_delay(data@, boxes@),
{
    match find_last(boxes, EDTS) {
        None => Some(None),
        Some(edts) => {
            if edts.body >= edts.end {
                Some(None)
            } else {
                match child(data, edts.body, edts.end) {
                    None => None,
                    Some(first) => {
                        if first.code == ELST {
                            read_edit_delay(data, first.body, first.end)
                        } else {
                            Some(None)
                        }
                    },
                }
            }
        },
    }
}

fn read_track_timescale(data: &[u8], boxes: &Vec<Child>, lo: usize, hi: usize) -> (r: Option<u32>)
    requires
        hi <= data.len(),
        all_within(boxes@, lo as int, hi as int),
    ensures
        r == track_timescale(data@, boxes@),
{
    match find_last(boxes, MDIA) {
        None => None,
        Some(mdia) => match list_children(data, mdia.body, mdia.end) {
            None => None,
            Some(media) => match find_last(&media, MDHD) {
                None => None,
                Some(mdhd) => read_field_after_times(data, mdhd.body, mdhd.end),
            },
        },
    }
}

/// Reads the timing of a track box.
pub fn read_track_timing(data: &[u8], trak: &Child) -> (r: Option<TrackTiming>)
    requires
        trak.body <= trak.end <= data.len(),
    ensures
        r == track_timing(data@, *trak),
{
    let boxes = match list_children(data, trak.body, trak.end) {
        Some(boxes) => boxes,
        None => {
            return None;
        },
    };
    let tkhd = match find_last(&boxes, TKHD) {
        Some(tkhd) => tkhd,
        None => {
            return None;
        },
    };
    let track_id = read_field_after_times(data, tkhd.body, tkhd.end);
    let timescale = read_track_timescale(data, &boxes, trak.body, trak.end);
    let delay = read_track_delay(data, &boxes, trak.body, trak.end);
    match (track_id, timescale, delay) {
        (Some(track_id), Some(timescale), Some(delay)) => Some(
            TrackTiming { track_id, timescale, delay },
        ),
        _ => None,
    }
}

/// Reads the timings of the tracks of a movie-metadata box whose payload
/// lies from `lo` to `hi`.
pub fn read_movie_tracks(data: &[u8], lo: usize, hi: usize) -> (r: Option<Vec<TrackTiming>>)
    requires
        lo <= hi <= data.len(),
    ensures
        match r {
            Some(timings) => movie_tracks(data@, lo as int, hi as int) == Some(timings@),
            None => movie_tracks(data@, lo as int, hi as int) is None,
        },
{
    let boxes = match list_children(data, lo, hi) {
        Some(boxes) => boxes,
        None => {
            return None;
        },
    };
    match find_last(&boxes, MVHD) {
        Some(_) => {},
        None => {
            return None;
        },
    }
    let mut out: Vec<TrackTiming> = Vec::new();
    let mut i: usize = 0;
    assert(boxes@.subrange(0, 0) =~= Seq::<Child>::empty());
    while i < boxes.len()
        invariant
            i <= boxes@.len(),
            hi <= data.len(),
            all_within(boxes@, lo as int, hi as int),
            children(data@, lo as int, hi as int) == Some(boxes@),
            last_of(boxes@, MVHD) is Some,
            timings_among(data@, boxes@.subrange(0, i as int)) == Some(out@),
        decreases boxes@.len() - i,
    {
        let c: Child = boxes[i];
        let ghost upto = boxes@.subrange(0, i + 1);
        proof {
            assert(upto.drop_last() =~= boxes@.subrange(0, i as int));
            assert(upto.last() == c);
            assert(c.body <= c.end <= hi);
        }
        if c.code == TRAK {
            match read_track_timing(data, &c) {
                Some(timing) => {
                    out.push(timing);
                },
                None => {
                    proof {
                        assert(timings_among(data@, upto) is None);
                        lemma_timings_prefix(data@, boxes@, i + 1);
                    }
                    return None;
                },
            }
        }
        i += 1;
    }
    assert(boxes@.subrange(0, boxes@.len() as int) =~= boxes@);
    Some(out)
}

/// No timings are had where none are had of the first `n` boxes.
proof fn lemma_timings_prefix(data: Seq<u8>, boxes: Seq<Child>, n: int)
    requires
        0 <= n <= boxes.len(),
        timings_among(data, boxes.subrange(0, n)) is None,
    ensures
        timings_among(data, boxes) is None,
    decreases boxes.len(),
{
    if n == boxes.len() {
        assert(boxes.subrange(0, n) =~= boxes);
    } else {
        assert(boxes.drop_last().subrange(0, n) =~= boxes.subrange(0, n));
        lemma_timings_prefix(data, boxes.drop_last(), n);
    }
}

} // verus!
