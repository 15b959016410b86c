//! Box headers and the boxes that lie inside another box.

use vstd::prelude::*;
use crate::be::{u32_at, u64_at};

verus! {

/// Type tag of the file-type box.
pub const FTYP: u32 = 0x6674_7970;

/// Type tag of the movie-metadata box.
pub const MOOV: u32 = 0x6d6f_6f76;

/// Type tag of the movie-fragment box.
pub const MOOF: u32 = 0x6d6f_6f66;

/// Type tag of the media-data box.
pub const MDAT: u32 = 0x6d64_6174;

/// Type tag of the movie header, which a movie-metadata box must hold.
pub const MVHD: u32 = 0x6d76_6864;

/// Type tag of the fragment header, which a movie-fragment box must hold.
pub const MFHD: u32 = 0x6d66_6864;

/// Type tag of a track box inside the movie-metadata box.
pub const TRAK: u32 = 0x7472_616b;

/// Type tag of the track header.
pub const TKHD: u32 = 0x746b_6864;

/// Type tag of the media box of a track.
pub const MDIA: u32 = 0x6d64_6961;

/// Type tag of the media header.
pub const MDHD: u32 = 0x6d64_6864;

/// Type tag of the edit box of a track.
pub const EDTS: u32 = 0x6564_7473;

/// Type tag of the edit list.
pub const ELST: u32 = 0x656c_7374;

/// Type tag of a track fragment inside a movie-fragment box.
pub const TRAF: u32 = 0x7472_6166;

/// Type tag of the track-fragment header.
pub const TFHD: u32 = 0x7466_6864;

/// Type tag of the track-fragment decode time.
pub const TFDT: u32 = 0x7466_6474;

/// Length of a box header in its short form, and the amount by which a box's
/// declared size counts the header.
pub const HEADER_LEN: u64 = 8;

/// A box header as read from the file.
///
/// `size` is the box's length counted from eight bytes before `payload`, so
/// that `size - 8` bytes follow the header. A header in the long form (a size
/// field of 1 followed by a 64-bit size) takes sixteen bytes; its `size` is
/// the 64-bit size less eight.
#[derive(Clone, Copy, Debug, PartialEq, Eq, Structural)]
pub struct BoxHeader {
    /// The four-byte type tag.
    pub code: u32,
    /// The declared size; 0 where the header declares none.
    pub size: u64,
    /// Offset of the first byte after the header.
    pub payload: u64,
}

/// The error of the mp4 crate's readers. It is handed on and never read.
#[verifier::external_type_specification]
#[verifier::external_body]
pub struct ExBoxError(mp4::Error);

/// The header that starts at `pos`, or `None` where the bytes there do not
/// make one: fewer than eight bytes are left, the long form is cut short, or
/// its 64-bit size lies between 1 and 15.
pub open spec fn header_at(data: Seq<u8>, pos: int) -> Option<BoxHeader> {
    if pos < 0 || pos + 8 > data.len() {
        None
    } else if u32_at(data, pos) != 1 {
        Some(
            BoxHeader {
                code: u32_at(data, pos + 4) as u32,
                size: u32_at(data, pos) as u64,
                payload: (pos + 8) as u64,
            },
        )
    } else if pos + 16 > data.len() {
        None
    } else if u64_at(data, pos + 8) == 0 {
        Some(BoxHeader { code: u32_at(data, pos + 4) as u32, size: 0, payload: (pos + 16) as u64 })
    } else if u64_at(data, pos + 8) < 16 {
        None
    } else {
        Some(
            BoxHeader {
                code: u32_at(data, pos + 4) as u32,
                size: (u64_at(data, pos + 8) - 8) as u64,
                payload: (pos + 16) as u64,
            },
        )
    }
}

/// Reads the box header at `pos` with `mp4::BoxHeader::read`.
///
/// Trusted: the reader takes eight bytes, a 32-bit size and the type tag, and
/// where the size is 1 eight more, the 64-bit size, of which it keeps the size
/// less eight (0 stays 0, 1 to 15 are refused). It fails where the bytes run
/// out. The tag is handed on as the number it was read from.
#[verifier::external_body]
pub(crate) fn read_header(data: &[u8], pos: usize) -> (r: Result<BoxHeader, mp4::Error>)
    requires
        pos <= data.len(),
    ensures
        r matches Ok(h) ==> header_at(data@, pos as int) == Some(h),
        r is Err ==> header_at(data@, pos as int) is None,
{
    let mut reader = std::io::Cursor::new(data);
    reader.set_position(pos as u64);
    let h = mp4::BoxHeader::read(&mut reader)?;
    Ok(BoxHeader { code: u32::from(h.name), size: h.size, payload: reader.position() })
}

/// The header at `pos`, if the bytes there make one.
pub fn header(data: &[u8], pos: usize) -> (r: Option<BoxHeader>)
    requires
        pos <= data.len(),
    ensures
        r == header_at(data@, pos as int),
{
    match read_header(data, pos) {
        Ok(h) => Some(h),
        Err(_) => None,
    }
}

/// A box in the file: its type tag, where it starts, where its payload
/// starts and where it ends.
#[derive(Clone, Copy, Debug, PartialEq, Eq, Structural)]
pub struct Child {
    pub code: u32,
    pub start: usize,
    pub body: usize,
    pub end: usize,
}

/// The box whose header starts at `pos`, where it ends no later than `hi`.
/// `None` where no header is there, where the header declares fewer than the
/// eight bytes that it counts of itself, or where the box goes beyond `hi`.
pub open spec fn child_at(data: Seq<u8>, pos: int, hi: int) -> Option<Child> {
    match header_at(data, pos) {
        Some(h) => if h.size >= HEADER_LEN && h.payload - HEADER_LEN + h.size <= hi {
            Some(
                Child {
                    code: h.code,
                    start: pos as usize,
                    body: h.payload as usize,
                    end: (h.payload - HEADER_LEN + h.size) as usize,
                },
            )
        } else {
            None
        },
        None => None,
    }
}

/// The boxes that fill `data` from `lo` to `hi`, one behind the other;
/// `None` where the bytes there are not a row of boxes that ends at `hi`.
pub open spec fn children(data: Seq<u8>, lo: int, hi: int) -> Option<Seq<Child>>
    decreases hi - lo,
{
    if lo >= hi {
        Some(Seq::empty())
    } else {
        match child_at(data, lo, hi) {
            Some(c) => if c.end > lo {
                match children(data, c.end as int, hi) {
                    Some(rest) => Some(seq![c] + rest),
                    None => None,
                }
            } else {
                None
            },
            None => None,
        }
    }
}

/// The last box of `boxes` that has the type tag `code`.
pub open spec fn last_of(boxes: Seq<Child>, code: u32) -> Option<Child>
    decreases boxes.len(),
{
    if boxes.len() == 0 {
        None
    } else if boxes.last().code == code {
        Some(boxes.last())
    } else {
        last_of(boxes.drop_last(), code)
    }
}

/// Every box of `boxes` lies between `lo` and `hi`, its payload within it.
pub open spec fn all_within(boxes: Seq<Child>, lo: int, hi: int) -> bool {
    forall|i: int|
        0 <= i < boxes.len() ==> lo <= (#[trigger] boxes[i]).start <= boxes[i].body
            <= boxes[i].end <= hi
}

/// A box found at `pos` starts its payload at least eight bytes on and ends
/// no earlier than that.
pub proof fn lemma_child_at(data: Seq<u8>, pos: int, hi: int)
    requires
        0 <= pos,
        hi <= data.len() <= usize::MAX,
        child_at(data, pos, hi) is Some,
    ensures
        child_at(data, pos, hi).unwrap().start == pos,
        pos + HEADER_LEN <= child_at(data, pos, hi).unwrap().body <= child_at(
            data,
            pos,
            hi,
        ).unwrap().end <= hi,
{
}

/// The boxes of a row lie within the row.
pub proof fn lemma_children_within(data: Seq<u8>, lo: int, hi: int)
    requires
        0 <= lo,
        hi <= data.len() <= usize::MAX,
        children(data, lo, hi) is Some,
    ensures
        all_within(children(data, lo, hi).unwrap(), lo, hi),
    decreases hi - lo,
{
    if lo < hi {
        let c = child_at(data, lo, hi).unwrap();
        lemma_child_at(data, lo, hi);
        lemma_children_within(data, c.end as int, hi);
        let rest = children(data, c.end as int, hi).unwrap();
        let all = children(data, lo, hi).unwrap();
        assert forall|i: int| 0 <= i < all.len() implies lo <= (#[trigger] all[i]).start
            <= all[i].body <= all[i].end <= hi by {
            if i > 0 {
                assert(all[i] == rest[i - 1]);
            }
        }
    }
}

/// The box whose header starts at `pos`, where it ends no later than `hi`.
pub fn child(data: &[u8], pos: usize, hi: usize) -> (r: Option<Child>)
    requires
        pos <= hi <= data.len(),
    ensures
        r == child_at(data@, pos as int, hi as int),
        r matches Some(c) ==> c.start == pos && pos + HEADER_LEN <= c.body <= c.end <= hi,
{
    match header(data, pos) {
        Some(h) => {
            let start: u64 = h.payload - HEADER_LEN;
            if h.size >= HEADER_LEN && start <= hi as u64 && h.size <= hi as u64 - start {
                Some(
                    Child {
                        code: h.code,
                        start: pos,
                        body: h.payload as usize,
                        end: (start + h.size) as usize,
                    },
                )
            } else {
                None
            }
        },
        None => None,
    }
}

/// The boxes that fill `data` from `lo` to `hi`.
pub fn list_children(data: &[u8], lo: usize, hi: usize) -> (r: Option<Vec<Child>>)
    requires
        lo <= hi <= data.len(),
    ensures
        match r {
            Some(boxes) => children(data@, lo as int, hi as int) == Some(boxes@) && all_within(
                boxes@,
                lo as int,
                hi as int,
            ),
            None => children(data@, lo as int, hi as int) is None,
        },
{
    let mut out: Vec<Child> = Vec::new();
    let mut pos: usize = lo;
    while pos < hi
        invariant
            lo <= pos <= hi <= data.len(),
            children(data@, lo as int, hi as int) == match children(data@, pos as int, hi as int) {
                Some(rest) => Some(out@ + rest),
                None => None,
            },
        decreases hi - pos,
    {
        match child(data, pos, hi) {
            Some(c) => {
                proof {
                    match children(data@, c.end as int, hi as int) {
                        Some(rest) => {
                            assert(out@ + (seq![c] + rest) =~= out@.push(c) + rest);
                        },
                        None => {},
                    }
                }
                out.push(c);
                pos = c.end;
            },
            None => {
                return None;
            },
        }
    }
    proof {
        assert(out@ + Seq::<Child>::empty() =~= out@);
        lemma_children_within(data@, lo as int, hi as int);
    }
    Some(out)
}

/// The last box of `boxes` that has the type tag `code`.
pub fn find_last(boxes: &Vec<Child>, code: u32) -> (r: Option<Child>)
    ensures
        r == last_of(boxes@, code),
        r matches Some(c) ==> boxes@.contains(c),
{
    let mut i: usize = boxes.len();
    assert(boxes@.subrange(0, i as int) =~= boxes@);
    while i > 0
        invariant
            i <= boxes@.len(),
            last_of(boxes@, code) == last_of(boxes@.subrange(0, i as int), code),
        decreases i,
    {
        let ghost upto = boxes@.subrange(0, i as int);
        i -= 1;
        let c: Child = boxes[i];
        proof {
            assert(upto.last() == c);
            assert(upto.drop_last() =~= boxes@.subrange(0, i as int));
        }
        if c.code == code {
            return Some(c);
        }
    }
    None
}

} // verus!
