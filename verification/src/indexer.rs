//! The fragment index of a fragmented MP4 file.

use vstd::prelude::*;
use std::collections::HashMap;
use crate::boxes::{child, child_at, header, header_at, Child, FTYP, HEADER_LEN, MDAT, MOOF, MOOV};
use crate::fragment::{fragment_tracks, read_fragment_tracks, TrackFragment};
use crate::movie::{movie_tracks, read_movie_tracks, TrackTiming};
use crate::order::{arrange, arranged, ascending, lemma_arranged, ranked, Rank};

verus! {

/// Where the init segment lies: from the file-type box through the end of
/// the movie-metadata box. In the index of a file the range is empty where
/// the file has no movie-metadata box, and never ends before it starts.
#[derive(Clone, Copy, Debug, PartialEq, Eq, Structural)]
pub struct InitRange {
    pub start: u64,
    pub end: u64,
}

/// One movie fragment of one track: a movie-fragment box and the media-data
/// box behind it.
#[derive(Clone, Copy, Debug, PartialEq, Eq, Structural)]
pub struct Frag {
    pub track_id: u32,
    /// The decode time as the file gives it.
    pub tfdt: u64,
    pub group: u64,
    /// Ordinal of the fragment among those of its track and group.
    pub object: u32,
    pub moof_start: u64,
    pub mdat_start: u64,
    pub mdat_size: u64,
}

/// A run of bytes of the file.
#[derive(Clone, Copy, Debug, PartialEq, Eq, Structural)]
pub struct ByteSpan {
    pub start: u64,
    pub len: u64,
}

/// The index of one file.
#[derive(Debug)]
pub struct Mp4Index {
    pub init: InitRange,
    /// Timescale of each track, by track id.
    pub timescale: HashMap<u32, u32>,
    /// Constant delay of each track that has one, by track id.
    pub delay: HashMap<u32, u64>,
    /// The fragments, in ascending order of (group, object).
    pub frags: Vec<Frag>,
}

impl InitRange {
    /// The bytes of the init segment; none where the range is empty or
    /// reversed.
    pub open spec fn span(self) -> ByteSpan {
        ByteSpan {
            start: self.start,
            len: if self.end >= self.start {
                (self.end - self.start) as u64
            } else {
                0
            },
        }
    }

    /// The bytes of the init segment.
    pub fn byte_span(&self) -> (r: ByteSpan)
        ensures
            r == self.span(),
    {
        ByteSpan {
            start: self.start,
            len: if self.end >= self.start {
                self.end - self.start
            } else {
                0
            },
        }
    }
}

impl Frag {
    /// The movie-fragment box lies before the media-data box, and the end of
    /// the media-data box is an offset.
    pub open spec fn wf(self) -> bool {
        self.moof_start < self.mdat_start && self.mdat_start + self.mdat_size <= u64::MAX
    }

    /// The bytes of the fragment, from the start of its movie-fragment box to
    /// the end of its media-data box; `None` where the fragment is not well
    /// formed.
    pub open spec fn span(self) -> Option<ByteSpan> {
        if self.wf() {
            Some(
                ByteSpan {
                    start: self.moof_start,
                    len: (self.mdat_start + self.mdat_size - self.moof_start) as u64,
                },
            )
        } else {
            None
        }
    }

    /// The bytes of the fragment.
    pub fn byte_span(&self) -> (r: Option<ByteSpan>)
        ensures
            r == self.span(),
    {
        if self.moof_start < self.mdat_start && self.mdat_size <= u64::MAX - self.mdat_start {
            Some(
                ByteSpan {
                    start: self.moof_start,
                    len: self.mdat_start - self.moof_start + self.mdat_size,
                },
            )
        } else {
            None
        }
    }
}

impl ByteSpan {
    /// Whether the span lies within a file of `len` bytes.
    pub open spec fn within(self, len: int) -> bool {
        self.start + self.len <= len
    }

    /// The bytes of `file` that the span covers.
    pub open spec fn of(self, file: Seq<u8>) -> Seq<u8> {
        file.subrange(self.start as int, self.start + self.len)
    }
}

/// An index as contracts see it.
pub struct IndexView {
    pub init: InitRange,
    pub timescale: Map<u32, u32>,
    pub delay: Map<u32, u64>,
    pub frags: Seq<Frag>,
}

impl View for Mp4Index {
    type V = IndexView;

    open spec fn view(&self) -> IndexView {
        IndexView {
            init: self.init,
            timescale: self.timescale@,
            delay: self.delay@,
            frags: self.frags@,
        }
    }
}

/// Why a file could not be indexed.
#[derive(Clone, Copy, Debug, PartialEq, Eq, Structural)]
pub enum IndexError {
    /// No box header can be read at this offset, or the header declares a
    /// size smaller than itself.
    BadHeader { offset: u64 },
    /// The box at this offset goes beyond the end of the file.
    Truncated { offset: u64 },
    /// The movie-metadata box at this offset is malformed.
    BadMovieBox { offset: u64 },
    /// The movie-fragment box at this offset is malformed.
    BadFragmentBox { offset: u64 },
    /// A track has more fragments in one group than an ordinal can count.
    TooManyFragments,
}

/// What a scan has found so far.
pub struct ScanState {
    /// Start of the last file-type box, or 0.
    pub ftyp_start: u64,
    /// End of the last movie-metadata box, or 0.
    pub moov_end: u64,
    pub timescale: Map<u32, u32>,
    pub delay: Map<u32, u64>,
    /// The fragments in the order in which the file holds them.
    pub frags: Seq<Frag>,
}

/// How one step of a scan ends.
pub enum Step {
    /// The scan is over.
    Done(ScanState),
    /// The file cannot be indexed.
    Failed(IndexError),
    /// The scan goes on at this offset.
    Next(int, ScanState),
}

/// The decode time moved by the delay, without passing the largest 64-bit
/// value.
pub open spec fn adjusted_time(tfdt: u64, delay: u64) -> int {
    if tfdt + delay > u64::MAX {
        u64::MAX as int
    } else {
        tfdt + delay
    }
}

/// The units of decode time that make one group: the timescale, and 1 where
/// the timescale is 0.
pub open spec fn group_span(timescale: u32) -> int {
    if timescale == 0 {
        1
    } else {
        timescale as int
    }
}

/// The group of a fragment: its decode time, moved by the delay of its
/// track, in whole units of the track's timescale.
pub open spec fn group_of(tfdt: u64, delay: u64, timescale: u32) -> u64 {
    (adjusted_time(tfdt, delay) / group_span(timescale)) as u64
}

/// The timescale by which the fragments of `track` are grouped: 1 where the
/// track has none.
pub open spec fn timescale_of(timescale: Map<u32, u32>, track: u32) -> u32 {
    if timescale.contains_key(track) {
        timescale[track]
    } else {
        1
    }
}

/// The delay by which the fragments of `track` are moved: 0 where the track
/// has none.
pub open spec fn delay_of(delay: Map<u32, u64>, track: u32) -> u64 {
    if delay.contains_key(track) {
        delay[track]
    } else {
        0
    }
}

/// The number of fragments of `frags` that are of `track` and `group`.
pub open spec fn ordinal(frags: Seq<Frag>, track: u32, group: u64) -> nat {
    frags.filter(|f: Frag| f.track_id == track && f.group == group).len()
}

impl ScanState {
    /// The state before anything was read.
    pub open spec fn empty() -> ScanState {
        ScanState {
            ftyp_start: 0,
            moov_end: 0,
            timescale: Map::empty(),
            delay: Map::empty(),
            frags: Seq::empty(),
        }
    }

    /// The state after the timing of one track was read.
    pub open spec fn with_track(self, timing: TrackTiming) -> ScanState {
        ScanState {
            timescale: self.timescale.insert(timing.track_id, timing.timescale),
            delay: match timing.delay {
                Some(delay) => self.delay.insert(timing.track_id, delay),
                None => self.delay,
            },
            ..self
        }
    }

    /// The state after the timings of some tracks were read, one after the
    /// other.
    pub open spec fn with_tracks(self, timings: Seq<TrackTiming>) -> ScanState
        decreases timings.len(),
    {
        if timings.len() == 0 {
            self
        } else {
            self.with_tracks(timings.drop_last()).with_track(timings.last())
        }
    }

    /// The fragment that a track fragment with decode time `tfdt` is, found
    /// in a movie-fragment box at `moof_start` before a media-data box at
    /// `mdat_start`.
    pub open spec fn frag_for(
        self,
        track_id: u32,
        tfdt: u64,
        moof_start: u64,
        mdat_start: u64,
        mdat_size: u64,
    ) -> Frag {
        let group = group_of(
            tfdt,
            delay_of(self.delay, track_id),
            timescale_of(self.timescale, track_id),
        );
        Frag {
            track_id,
            tfdt,
            group,
            object: ordinal(self.frags, track_id, group) as u32,
            moof_start,
            mdat_start,
            mdat_size,
        }
    }

    /// The state after one track fragment was read. A track fragment
    /// without a decode time leaves the state as it is.
    pub open spec fn with_fragment(
        self,
        fragment: TrackFragment,
        moof_start: u64,
        mdat_start: u64,
        mdat_size: u64,
    ) -> Result<ScanState, IndexError> {
        match fragment.decode_time {
            None => Ok(self),
            Some(tfdt) => {
                let frag = self.frag_for(fragment.track_id, tfdt, moof_start, mdat_start, mdat_size);
                if ordinal(self.frags, fragment.track_id, frag.group) >= u32::MAX {
                    Err(IndexError::TooManyFragments)
                } else {
                    Ok(ScanState { frags: self.frags.push(frag), ..self })
                }
            },
        }
    }

    /// The state after the track fragments of one movie-fragment box were
    /// read, one after the other.
    pub open spec fn with_fragments(
        self,
        fragments: Seq<TrackFragment>,
        moof_start: u64,
        mdat_start: u64,
        mdat_size: u64,
    ) -> Result<ScanState, IndexError>
        decreases fragments.len(),
    {
        if fragments.len() == 0 {
            Ok(self)
        } else {
            match self.with_fragments(fragments.drop_last(), moof_start, mdat_start, mdat_size) {
                Ok(state) => state.with_fragment(
                    fragments.last(),
                    moof_start,
                    mdat_start,
                    mdat_size,
                ),
                Err(error) => Err(error),
            }
        }
    }
}

/// Why no box could be had at `pos` though a header is there: its size is
/// smaller than the header, or the box goes beyond the end of the file.
pub open spec fn box_fault(size: u64, pos: int) -> IndexError {
    if size < HEADER_LEN {
        IndexError::BadHeader { offset: pos as u64 }
    } else {
        IndexError::Truncated { offset: pos as u64 }
    }
}

/// The step behind a movie-fragment box `moof` whose track fragments are
/// `fragments`. A header must follow. Where it is that of a media-data box
/// the fragments are recorded; where it is another the box is passed over
/// and the fragments are dropped. A header that declares no size ends the
/// scan, after the fragments were recorded with a size of 0 if it is that of
/// a media-data box.
pub open spec fn step_after_moof(
    data: Seq<u8>,
    moof: Child,
    fragments: Seq<TrackFragment>,
    state: ScanState,
) -> Step {
    let moof_start = moof.start as u64;
    match header_at(data, moof.end as int) {
        None => Step::Failed(IndexError::BadHeader { offset: moof.end as u64 }),
        Some(next) => if next.size == 0 {
            if next.code == MDAT {
                match state.with_fragments(fragments, moof_start, moof.end as u64, 0) {
                    Ok(found) => Step::Done(found),
                    Err(error) => Step::Failed(error),
                }
            } else {
                Step::Done(state)
            }
        } else {
            match child_at(data, moof.end as int, data.len() as int) {
                None => Step::Failed(box_fault(next.size, moof.end as int)),
                Some(behind) => if behind.code == MDAT {
                    match state.with_fragments(
                        fragments,
                        moof_start,
                        behind.start as u64,
                        (behind.end - behind.start) as u64,
                    ) {
                        Ok(found) => Step::Next(behind.end as int, found),
                        Err(error) => Step::Failed(error),
                    }
                } else {
                    Step::Next(behind.end as int, state)
                },
            }
        },
    }
}

/// One step of the scan, at the top-level box that starts at `pos`.
///
/// The scan is over at the end of the file and at a header that declares no
/// size. A file-type box gives the start of the init segment, a
/// movie-metadata box its end and the timing of the tracks, a movie-fragment
/// box its fragments; any other box is passed over.
pub open spec fn scan_step(data: Seq<u8>, pos: int, state: ScanState) -> Step {
    if pos >= data.len() {
        Step::Done(state)
    } else {
        match header_at(data, pos) {
            None => Step::Failed(IndexError::BadHeader { offset: pos as u64 }),
            Some(h) => if h.size == 0 {
                Step::Done(state)
            } else {
                match child_at(data, pos, data.len() as int) {
                    None => Step::Failed(box_fault(h.size, pos)),
                    Some(found) => if found.code == FTYP {
                        Step::Next(
                            found.end as int,
                            ScanState { ftyp_start: found.start as u64, ..state },
                        )
                    } else if found.code == MOOV {
                        match movie_tracks(data, found.body as int, found.end as int) {
                            None => Step::Failed(IndexError::BadMovieBox { offset: pos as u64 }),
                            Some(timings) => Step::Next(
                                found.end as int,
                                (ScanState { moov_end: found.end as u64, ..state }).with_tracks(
                                    timings,
                                ),
                            ),
                        }
                    } else if found.code == MOOF {
                        match fragment_tracks(data, found.body as int, found.end as int) {
                            None => Step::Failed(
                                IndexError::BadFragmentBox { offset: pos as u64 },
                            ),
                            Some(fragments) => step_after_moof(data, found, fragments, state),
                        }
                    } else {
                        Step::Next(found.end as int, state)
                    },
                }
            },
        }
    }
}

/// What a scan that stands at `pos` with `state` ends in.
pub open spec fn scan_from(data: Seq<u8>, pos: int, state: ScanState) -> Result<
    ScanState,
    IndexError,
>
    decreases data.len() - pos,
{
    match scan_step(data, pos, state) {
        Step::Done(found) => Ok(found),
        Step::Failed(error) => Err(error),
        Step::Next(next, found) => if pos < next <= data.len() {
            scan_from(data, next, found)
        } else {
            Ok(found)
        },
    }
}

/// A step that goes on goes on behind the box it read, at least eight bytes
/// further and within the file.
pub proof fn lemma_step_advances(data: Seq<u8>, pos: int, state: ScanState)
    requires
        0 <= pos,
        data.len() <= usize::MAX,
    ensures
        scan_step(data, pos, state) matches Step::Next(next, _) ==> pos + HEADER_LEN <= next
            <= data.len(),
{
    let len = data.len() as int;
    if pos < data.len() && child_at(data, pos, len) is Some {
        crate::boxes::lemma_child_at(data, pos, len);
        let found = child_at(data, pos, len).unwrap();
        if child_at(data, found.end as int, len) is Some {
            crate::boxes::lemma_child_at(data, found.end as int, len);
        }
    }
}

/// The init segment of a file whose last file-type box starts at
/// `ftyp_start` and whose last movie-metadata box ends at `moov_end`: the
/// bytes from the one to the other. The range is empty, at `ftyp_start`,
/// where the file has no movie-metadata box or that box ends before the
/// file-type box starts.
pub open spec fn init_of(ftyp_start: u64, moov_end: u64) -> InitRange {
    InitRange {
        start: ftyp_start,
        end: if moov_end < ftyp_start {
            ftyp_start
        } else {
            moov_end
        },
    }
}

/// The index of a file: what a scan from its start finds, the fragments
/// arranged by group and object.
pub open spec fn index_of(data: Seq<u8>) -> Result<IndexView, IndexError> {
    match scan_from(data, 0, ScanState::empty()) {
        Ok(found) => Ok(
            IndexView {
                init: init_of(found.ftyp_start, found.moov_end),
                timescale: found.timescale,
                delay: found.delay,
                frags: arranged(found.frags, Rank::GroupObject),
            },
        ),
        Err(error) => Err(error),
    }
}

/// Derives the group of a fragment from its decode time.
pub fn derive_group(tfdt: u64, delay: u64, timescale: u32) -> (r: u64)
    ensures
        r == group_of(tfdt, delay, timescale),
        timescale != 0 ==> r == adjusted_time(tfdt, delay) / (timescale as int),
        timescale == 0 ==> r == adjusted_time(tfdt, delay),
{
    let adjusted: u64 = if delay > u64::MAX - tfdt {
        u64::MAX
    } else {
        tfdt + delay
    };
    let unit: u64 = if timescale == 0 {
        1
    } else {
        timescale as u64
    };
    adjusted / unit
}

/// The fragments of `track` and `group` after one more fragment.
pub proof fn lemma_ordinal_push(frags: Seq<Frag>, f: Frag, track: u32, group: u64)
    ensures
        ordinal(frags.push(f), track, group) == ordinal(frags, track, group) + if f.track_id
            == track && f.group == group {
            1nat
        } else {
            0nat
        },
{
    reveal(Seq::filter);
    assert(frags.push(f).drop_last() =~= frags);
}

/// The key under which the next ordinal of a track and group is kept.
spec fn counter_key(track: u32, group: u64) -> u128 {
    (track as u128 * 0x1_0000_0000_0000_0000 + group as u128) as u128
}

fn key_of(track: u32, group: u64) -> (r: u128)
    ensures
        r == counter_key(track, group),
{
    track as u128 * 0x1_0000_0000_0000_0000 + group as u128
}

/// A scan under way: what was found, and the next free ordinal of each
/// track and group.
struct Scanner {
    ftyp_start: u64,
    moov_end: u64,
    timescale: HashMap<u32, u32>,
    delay: HashMap<u32, u64>,
    frags: Vec<Frag>,
    counters: HashMap<u128, u32>,
}

/// How one step of a scan under way ended.
enum Advance {
    Done,
    Failed(IndexError),
    Next(usize),
}

impl Scanner {
    spec fn view(&self) -> ScanState {
        ScanState {
            ftyp_start: self.ftyp_start,
            moov_end: self.moov_end,
            timescale: self.timescale@,
            delay: self.delay@,
            frags: self.frags@,
        }
    }

    /// The counters say how many fragments each track and group has.
    spec fn wf(&self) -> bool {
        forall|track: u32, group: u64| #[trigger]
            ordinal(self.frags@, track, group) == if self.counters@.contains_key(
                counter_key(track, group),
            ) {
                self.counters@[counter_key(track, group)] as nat
            } else {
                0nat
            }
    }

    fn new() -> (s: Scanner)
        ensures
            s.view() == ScanState::empty(),
            s.wf(),
    {
        broadcast use vstd::std_specs::hash::group_hash_axioms;

        let s = Scanner {
            ftyp_start: 0,
            moov_end: 0,
            timescale: HashMap::new(),
            delay: HashMap::new(),
            frags: Vec::new(),
            counters: HashMap::new(),
        };
        proof {
            reveal(Seq::filter);
        }
        s
    }

    fn add_track(&mut self, timing: &TrackTiming)
        requires
            old(self).wf(),
        ensures
            final(self).view() == old(self).view().with_track(*timing),
            final(self).wf(),
    {
        broadcast use vstd::std_specs::hash::group_hash_axioms;

        self.timescale.insert(timing.track_id, timing.timescale);
        match timing.delay {
            Some(delay) => {
                self.delay.insert(timing.track_id, delay);
            },
            None => {},
        }
    }

    fn add_tracks(&mut self, timings: &Vec<TrackTiming>)
        requires
            old(self).wf(),
        ensures
            final(self).view() == old(self).view().with_tracks(timings@),
            final(self).wf(),
    {
        let ghost start = self.view();
        let mut i: usize = 0;
        assert(timings@.subrange(0, 0) =~= Seq::<TrackTiming>::empty());
        while i < timings.len()
            invariant
                i <= timings@.len(),
                self.wf(),
                self.view() == start.with_tracks(timings@.subrange(0, i as int)),
            decreases timings@.len() - i,
        {
            proof {
                let upto = timings@.subrange(0, i + 1);
                assert(upto.drop_last() =~= timings@.subrange(0, i as int));
            }
            self.add_track(&timings[i]);
            i += 1;
        }
        assert(timings@.subrange(0, timings@.len() as int) =~= timings@);
    }

    fn add_fragment(
        &mut self,
        fragment: &TrackFragment,
        moof_start: u64,
        mdat_start: u64,
        mdat_size: u64,
    ) -> (r: Result<(), IndexError>)
        requires
            old(self).wf(),
        ensures
            match old(self).view().with_fragment(*fragment, moof_start, mdat_start, mdat_size) {
                Ok(state) => r is Ok && final(self).view() == state && final(self).wf(),
                Err(error) => r == Err::<(), IndexError>(error),
            },
    {
        broadcast use vstd::std_specs::hash::group_hash_axioms;

        let tfdt: u64 = match fragment.decode_time {
            Some(tfdt) => tfdt,
            None => {
                return Ok(());
            },
        };
        let track_id: u32 = fragment.track_id;
        let timescale: u32 = match self.timescale.get(&track_id) {
            Some(timescale) => *timescale,
            None => 1,
        };
        let delay: u64 = match self.delay.get(&track_id) {
            Some(delay) => *delay,
            None => 0,
        };
        let group: u64 = derive_group(tfdt, delay, timescale);
        let key: u128 = key_of(track_id, group);
        let object: u32 = match self.counters.get(&key) {
            Some(next) => *next,
            None => 0,
        };
        assert(object == ordinal(self.frags@, track_id, group));
        if object == u32::MAX {
            return Err(IndexError::TooManyFragments);
        }
        let frag = Frag { track_id, tfdt, group, object, moof_start, mdat_start, mdat_size };
        let ghost before = self.frags@;
        let ghost counted = self.counters@;
        self.counters.insert(key, object + 1);
        self.frags.push(frag);
        proof {
            assert forall|t: u32, g: u64| #[trigger]
                ordinal(self.frags@, t, g) == if self.counters@.contains_key(counter_key(t, g)) {
                    self.counters@[counter_key(t, g)] as nat
                } else {
                    0nat
                } by {
                lemma_ordinal_push(before, frag, t, g);
                assert(ordinal(before, t, g) == if counted.contains_key(counter_key(t, g)) {
                    counted[counter_key(t, g)] as nat
                } else {
                    0nat
                });
                if t != track_id || g != group {
                    assert(counter_key(t, g) != key);
                }
            }
        }
        Ok(())
    }

    fn add_fragments(
        &mut self,
        fragments: &Vec<TrackFragment>,
        moof_start: u64,
        mdat_start: u64,
        mdat_size: u64,
    ) -> (r: Result<(), IndexError>)
        requires
            old(self).wf(),
        ensures
            match old(self).view().with_fragments(fragments@, moof_start, mdat_start, mdat_size) {
                Ok(state) => r is Ok && final(self).view() == state && final(self).wf(),
                Err(error) => r == Err::<(), IndexError>(error),
            },
    {
        let ghost start = self.view();
        let mut i: usize = 0;
        assert(fragments@.subrange(0, 0) =~= Seq::<TrackFragment>::empty());
        while i < fragments.len()
            invariant
                i <= fragments@.len(),
                self.wf(),
                start == old(self).view(),
                start.with_fragments(
                    fragments@.subrange(0, i as int),
                    moof_start,
                    mdat_start,
                    mdat_size,
                ) == Ok::<ScanState, IndexError>(self.view()),
            decreases fragments@.len() - i,
        {
            let ghost upto = fragments@.subrange(0, i + 1);
            proof {
                assert(upto.drop_last() =~= fragments@.subrange(0, i as int));
                assert(upto.last() == fragments@[i as int]);
            }
            match self.add_fragment(&fragments[i], moof_start, mdat_start, mdat_size) {
                Ok(()) => {},
                Err(error) => {
                    proof {
                        assert(start.with_fragments(upto, moof_start, mdat_start, mdat_size)
                            == Err::<ScanState, IndexError>(error));
                        lemma_fragments_fault(
                            start,
                            fragments@,
                            i + 1,
                            moof_start,
                            mdat_start,
                            mdat_size,
                        );
                    }
                    return Err(error);
                },
            }
            i += 1;
        }
        assert(fragments@.subrange(0, fragments@.len() as int) =~= fragments@);
        Ok(())
    }
}

impl Scanner {
    fn after_moof(&mut self, data: &[u8], moof: &Child, fragments: &Vec<TrackFragment>) -> (r:
        Advance)
        requires
            old(self).wf(),
            moof.start <= moof.end <= data.len(),
        ensures
            match step_after_moof(data@, *moof, fragments@, old(self).view()) {
                Step::Done(state) => r is Done && final(self).view() == state,
                Step::Failed(error) => r == Advance::Failed(error),
                Step::Next(next, state) => r == Advance::Next(next as usize) && final(self).view()
                    == state && final(self).wf() && moof.end < next <= data.len(),
            },
    {
        let len: usize = data.len();
        let moof_start: u64 = moof.start as u64;
        let next = match header(data, moof.end) {
            Some(next) => next,
            None => {
                return Advance::Failed(IndexError::BadHeader { offset: moof.end as u64 });
            },
        };
        if next.size == 0 {
            if next.code == MDAT {
                match self.add_fragments(fragments, moof_start, moof.end as u64, 0) {
                    Ok(()) => Advance::Done,
                    Err(error) => Advance::Failed(error),
                }
            } else {
                Advance::Done
            }
        } else {
            match child(data, moof.end, len) {
                None => Advance::Failed(fault_of(next.size, moof.end)),
                Some(behind) => {
                    if behind.code == MDAT {
                        match self.add_fragments(
                            fragments,
                            moof_start,
                            behind.start as u64,
                            (behind.end - behind.start) as u64,
                        ) {
                            Ok(()) => Advance::Next(behind.end),
                            Err(error) => Advance::Failed(error),
                        }
                    } else {
                        Advance::Next(behind.end)
                    }
                },
            }
        }
    }

    fn step(&mut self, data: &[u8], pos: usize) -> (r: Advance)
        requires
            old(self).wf(),
            pos <= data.len(),
        ensures
            match scan_step(data@, pos as int, old(self).view()) {
                Step::Done(state) => r is Done && final(self).view() == state,
                Step::Failed(error) => r == Advance::Failed(error),
                Step::Next(next, state) => r == Advance::Next(next as usize) && final(self).view()
                    == state && final(self).wf() && pos < next <= data.len(),
            },
    {
        let len: usize = data.len();
        if pos >= len {
            return Advance::Done;
        }
        let h = match header(data, pos) {
            Some(h) => h,
            None => {
                return Advance::Failed(IndexError::BadHeader { offset: pos as u64 });
            },
        };
        if h.size == 0 {
            return Advance::Done;
        }
        let found = match child(data, pos, len) {
            Some(found) => found,
            None => {
                return Advance::Failed(fault_of(h.size, pos));
            },
        };
        if found.code == FTYP {
            self.ftyp_start = found.start as u64;
            Advance::Next(found.end)
        } else if found.code == MOOV {
            match read_movie_tracks(data, found.body, found.end) {
                None => Advance::Failed(IndexError::BadMovieBox { offset: pos as u64 }),
                Some(timings) => {
                    self.moov_end = found.end as u64;
                    self.add_tracks(&timings);
                    Advance::Next(found.end)
                },
            }
        } else if found.code == MOOF {
            match read_fragment_tracks(data, found.body, found.end) {
                None => Advance::Failed(IndexError::BadFragmentBox { offset: pos as u64 }),
                Some(fragments) => self.after_moof(data, &found, &fragments),
            }
        } else {
            Advance::Next(found.end)
        }
    }
}

fn fault_of(size: u64, pos: usize) -> (r: IndexError)
    ensures
        r == box_fault(size, pos as int),
{
    if size < HEADER_LEN {
        IndexError::BadHeader { offset: pos as u64 }
    } else {
        IndexError::Truncated { offset: pos as u64 }
    }
}

/// Builds the index of a file from its bytes, in one pass over its
/// top-level boxes.
///
/// The scan ends at the end of the file and at a header that declares no
/// size. It fails at a header that cannot be read or that declares less than
/// its own length, at a box that goes beyond the end of the file, at a
/// movie-metadata or movie-fragment box that is malformed, and at a
/// movie-fragment box that no header follows. The fragments of the index are
/// in ascending order of group and object; those that agree in both are in
/// the order in which the file holds them. The init segment runs from the
/// last file-type box to the end of the last movie-metadata box, and is
/// empty where there is no such box behind the file-type box.
pub fn build_index(data: &[u8]) -> (r: Result<Mp4Index, IndexError>)
    ensures
        match r {
            Ok(idx) => index_of(data@) == Ok::<IndexView, IndexError>(idx@),
            Err(error) => index_of(data@) == Err::<IndexView, IndexError>(error),
        },
        r matches Ok(idx) ==> ascending(idx.frags@, Rank::GroupObject) && distinct_places(
            idx.frags@,
        ) && dense_places(idx.frags@) && located(idx.frags@, data.len() as int),
        r matches Ok(idx) ==> idx.init.start <= idx.init.end <= data.len(),
{
    let mut scanner = Scanner::new();
    let mut pos: usize = 0;
    let mut scanning: bool = true;
    while scanning
        invariant
            pos <= data.len(),
            scanner.wf() || !scanning,
            scanning ==> scan_from(data@, 0, ScanState::empty()) == scan_from(
                data@,
                pos as int,
                scanner.view(),
            ),
            !scanning ==> scan_from(data@, 0, ScanState::empty()) == Ok::<ScanState, IndexError>(
                scanner.view(),
            ),
        decreases data.len() - pos, if scanning { 1int } else { 0int },
    {
        match scanner.step(data, pos) {
            Advance::Done => {
                scanning = false;
            },
            Advance::Failed(error) => {
                return Err(error);
            },
            Advance::Next(next) => {
                pos = next;
            },
        }
    }
    let Scanner { ftyp_start, moov_end, timescale, delay, mut frags, .. } = scanner;
    arrange(&mut frags, Rank::GroupObject);
    proof {
        lemma_index_ordered(data@);
        lemma_index_located(data@);
    }
    let end: u64 = if moov_end < ftyp_start {
        ftyp_start
    } else {
        moov_end
    };
    Ok(Mp4Index { init: InitRange { start: ftyp_start, end }, timescale, delay, frags })
}

/// A fault among the first `n` track fragments is the fault of all.
proof fn lemma_fragments_fault(
    state: ScanState,
    fragments: Seq<TrackFragment>,
    n: int,
    moof_start: u64,
    mdat_start: u64,
    mdat_size: u64,
)
    requires
        0 <= n <= fragments.len(),
        state.with_fragments(fragments.subrange(0, n), moof_start, mdat_start, mdat_size) is Err,
    ensures
        state.with_fragments(fragments, moof_start, mdat_start, mdat_size) == state.with_fragments(
            fragments.subrange(0, n),
            moof_start,
            mdat_start,
            mdat_size,
        ),
    decreases fragments.len(),
{
    if n == fragments.len() {
        assert(fragments.subrange(0, n) =~= fragments);
    } else {
        assert(fragments.drop_last().subrange(0, n) =~= fragments.subrange(0, n));
        lemma_fragments_fault(state, fragments.drop_last(), n, moof_start, mdat_start, mdat_size);
    }
}

/// The fragments of `frags` that are of `track` and `group` and have the
/// ordinal `object`.
pub open spec fn at_place(frags: Seq<Frag>, track: u32, group: u64, object: u32) -> Seq<Frag> {
    frags.filter(|f: Frag| f.track_id == track && f.group == group && f.object == object)
}

/// No two fragments of `frags` agree in track, group and object.
pub open spec fn distinct_places(frags: Seq<Frag>) -> bool {
    forall|track: u32, group: u64, object: u32| #[trigger]
        at_place(frags, track, group, object).len() <= 1
}

/// The ordinals of each track and group have no gap: below the ordinal of a
/// fragment every ordinal is that of exactly one fragment of its track and
/// group.
pub open spec fn dense_places(frags: Seq<Frag>) -> bool {
    forall|i: int, below: u32|
        0 <= i < frags.len() && below < frags[i].object ==> (#[trigger] at_place(
            frags,
            (#[trigger] frags[i]).track_id,
            frags[i].group,
            below,
        )).len() == 1
}

/// The ordinal of every fragment is smaller than the number of fragments of
/// its track and group, every ordinal smaller than that number is that of
/// exactly one fragment, and no two fragments agree in track, group and
/// object.
pub open spec fn numbered(frags: Seq<Frag>) -> bool {
    &&& forall|i: int|
        0 <= i < frags.len() ==> (#[trigger] frags[i]).object < ordinal(
            frags,
            frags[i].track_id,
            frags[i].group,
        )
    &&& forall|track: u32, group: u64, object: u32|
        object < ordinal(frags, track, group) ==> (#[trigger] at_place(
            frags,
            track,
            group,
            object,
        )).len() == 1
    &&& distinct_places(frags)
}

/// Where the delay does not carry the decode time past the largest 64-bit
/// value, the group is the adjusted decode time divided by the timescale,
/// rounded down.
pub proof fn lemma_group_is_floor(tfdt: u64, delay: u64, timescale: u32)
    requires
        timescale > 0,
        tfdt + delay <= u64::MAX,
    ensures
        group_of(tfdt, delay, timescale) == (tfdt + delay) / (timescale as int),
{
    let sum = tfdt + delay;
    let unit = timescale as int;
    assert(0 <= sum / unit <= sum) by (nonlinear_arith)
        requires
            0 <= sum,
            unit > 0,
    ;
}

/// The movie-fragment box that starts at `pos`, its track fragments, and the
/// box behind it, where all three are well formed.
pub open spec fn fragment_pair(data: Seq<u8>, pos: int) -> Option<
    (Child, Seq<TrackFragment>, Child),
> {
    match child_at(data, pos, data.len() as int) {
        Some(moof) => match (
            fragment_tracks(data, moof.body as int, moof.end as int),
            child_at(data, moof.end as int, data.len() as int),
        ) {
            (Some(fragments), Some(behind)) => if moof.code == MOOF {
                Some((moof, fragments, behind))
            } else {
                None
            },
            _ => None,
        },
        None => None,
    }
}

/// The track fragments that say their decode time, in order.
pub open spec fn with_decode_time(fragments: Seq<TrackFragment>) -> Seq<TrackFragment> {
    fragments.filter(|f: TrackFragment| f.decode_time is Some)
}

/// `found` is `state` with one fragment more for each of `fragments` that
/// says its decode time, in their order, each with that track and decode
/// time and at the boxes given; the timings are those of `state`.
pub open spec fn records(
    found: ScanState,
    state: ScanState,
    fragments: Seq<TrackFragment>,
    moof_start: u64,
    mdat_start: u64,
    mdat_size: u64,
) -> bool {
    let timed = with_decode_time(fragments);
    let had = state.frags.len() as int;
    &&& found.frags.len() == had + timed.len()
    &&& found.frags.subrange(0, had) == state.frags
    &&& forall|k: int|
        0 <= k < timed.len() ==> {
            let frag = #[trigger] found.frags[had + k];
            &&& frag.track_id == timed[k].track_id
            &&& Some(frag.tfdt) == timed[k].decode_time
            &&& frag.moof_start == moof_start
            &&& frag.mdat_start == mdat_start
            &&& frag.mdat_size == mdat_size
        }
    &&& found.timescale == state.timescale
    &&& found.delay == state.delay
    &&& found.ftyp_start == state.ftyp_start
    &&& found.moov_end == state.moov_end
}

/// Track fragments are recorded, one fragment for each that says its decode
/// time, as long as the fragments are fewer than an ordinal can count.
pub proof fn lemma_fragments_recorded(
    state: ScanState,
    fragments: Seq<TrackFragment>,
    moof_start: u64,
    mdat_start: u64,
    mdat_size: u64,
)
    requires
        state.frags.len() + fragments.len() < u32::MAX,
    ensures
        state.with_fragments(fragments, moof_start, mdat_start, mdat_size) matches Ok(found)
            && records(found, state, fragments, moof_start, mdat_start, mdat_size),
    decreases fragments.len(),
{
    reveal(Seq::filter);
    let had = state.frags.len() as int;
    if fragments.len() == 0 {
        assert(state.frags.subrange(0, had) =~= state.frags);
    } else {
        let front = fragments.drop_last();
        let last = fragments.last();
        lemma_fragments_recorded(state, front, moof_start, mdat_start, mdat_size);
        let before = state.with_fragments(front, moof_start, mdat_start, mdat_size).unwrap();
        let timed_front = with_decode_time(front);
        timed_front.lemma_filter_len(|f: TrackFragment| f.decode_time is Some);
        front.lemma_filter_len(|f: TrackFragment| f.decode_time is Some);
        match last.decode_time {
            Some(tfdt) => {
                let frag = before.frag_for(last.track_id, tfdt, moof_start, mdat_start, mdat_size);
                before.frags.lemma_filter_len(
                    |f: Frag| f.track_id == last.track_id && f.group == frag.group,
                );
                let found = before.with_fragment(last, moof_start, mdat_start, mdat_size).unwrap();
                assert(found.frags == before.frags.push(frag));
                assert(found.frags.subrange(0, had) =~= before.frags.subrange(0, had));
                let timed = with_decode_time(fragments);
                assert(timed == timed_front.push(last));
                assert forall|k: int| 0 <= k < timed.len() implies {
                    let f = #[trigger] found.frags[had + k];
                    &&& f.track_id == timed[k].track_id
                    &&& Some(f.tfdt) == timed[k].decode_time
                    &&& f.moof_start == moof_start
                    &&& f.mdat_start == mdat_start
                    &&& f.mdat_size == mdat_size
                } by {
                    if k < timed_front.len() {
                        assert(found.frags[had + k] == before.frags[had + k]);
                    }
                }
            },
            None => {},
        }
    }
}

/// A movie-fragment box that another box than a media-data box follows
/// gives no fragments, and the scan goes on behind that other box: it ends
/// as a scan does that starts there with what was found before.
pub proof fn lemma_fragments_dropped_without_media(data: Seq<u8>, pos: int, state: ScanState)
    requires
        0 <= pos < data.len() <= usize::MAX,
        fragment_pair(data, pos) matches Some((_, _, behind)) && behind.code != MDAT,
    ensures
        scan_step(data, pos, state) == Step::Next(
            fragment_pair(data, pos).unwrap().2.end as int,
            state,
        ),
        scan_from(data, pos, state) == scan_from(
            data,
            fragment_pair(data, pos).unwrap().2.end as int,
            state,
        ),
{
    lemma_step_advances(data, pos, state);
}

/// A movie-fragment box that a media-data box follows gives one fragment
/// for each of its track fragments that says its decode time, at the start
/// of the one box and at the start and with the length of the other, and the
/// scan goes on behind the media-data box, as long as the fragments are
/// fewer than an ordinal can count.
pub proof fn lemma_fragments_kept_with_media(data: Seq<u8>, pos: int, state: ScanState)
    requires
        0 <= pos < data.len() <= usize::MAX,
        fragment_pair(data, pos) matches Some((_, fragments, behind)) && behind.code == MDAT
            && state.frags.len() + fragments.len() < u32::MAX,
    ensures
        ({
            let (moof, fragments, behind) = fragment_pair(data, pos).unwrap();
            let moof_start = pos as u64;
            let mdat_start = moof.end as u64;
            let mdat_size = (behind.end - moof.end) as u64;
            &&& state.with_fragments(fragments, moof_start, mdat_start, mdat_size) matches Ok(
                found,
            ) && records(found, state, fragments, moof_start, mdat_start, mdat_size)
                && scan_step(data, pos, state) == Step::Next(behind.end as int, found)
                && scan_from(data, pos, state) == scan_from(data, behind.end as int, found)
        }),
{
    let len = data.len() as int;
    let (moof, fragments, behind) = fragment_pair(data, pos).unwrap();
    crate::boxes::lemma_child_at(data, pos, len);
    crate::boxes::lemma_child_at(data, moof.end as int, len);
    lemma_fragments_recorded(
        state,
        fragments,
        pos as u64,
        moof.end as u64,
        (behind.end - moof.end) as u64,
    );
    lemma_step_advances(data, pos, state);
}

/// No fragment is at a place where no fragment has that track, group and
/// object.
proof fn lemma_place_empty(frags: Seq<Frag>, track: u32, group: u64, object: u32)
    requires
        forall|i: int|
            0 <= i < frags.len() ==> !((#[trigger] frags[i]).track_id == track && frags[i].group
                == group && frags[i].object == object),
    ensures
        at_place(frags, track, group, object).len() == 0,
    decreases frags.len(),
{
    reveal(Seq::filter);
    if frags.len() > 0 {
        lemma_place_empty(frags.drop_last(), track, group, object);
    }
}

/// The fragments at a place after one more fragment.
proof fn lemma_place_push(frags: Seq<Frag>, f: Frag, track: u32, group: u64, object: u32)
    ensures
        at_place(frags.push(f), track, group, object) == if f.track_id == track && f.group == group
            && f.object == object {
            at_place(frags, track, group, object).push(f)
        } else {
            at_place(frags, track, group, object)
        },
{
    reveal(Seq::filter);
    assert(frags.push(f).drop_last() =~= frags);
}

/// A fragment that takes the next ordinal of its track and group keeps the
/// fragments numbered.
proof fn lemma_numbered_push(frags: Seq<Frag>, f: Frag)
    requires
        numbered(frags),
        f.object == ordinal(frags, f.track_id, f.group),
    ensures
        numbered(frags.push(f)),
{
    let after = frags.push(f);
    assert forall|i: int| 0 <= i < after.len() implies (#[trigger] after[i]).object < ordinal(
        after,
        after[i].track_id,
        after[i].group,
    ) by {
        lemma_ordinal_push(frags, f, after[i].track_id, after[i].group);
        if i < frags.len() {
            assert(after[i] == frags[i]);
        }
    }
    assert forall|track: u32, group: u64, object: u32| #[trigger]
        at_place(after, track, group, object).len() <= 1 by {
        lemma_place_push(frags, f, track, group, object);
        if f.track_id == track && f.group == group && f.object == object {
            lemma_place_empty(frags, track, group, object);
        }
    }
    assert forall|track: u32, group: u64, object: u32|
        object < ordinal(after, track, group) implies (#[trigger] at_place(
        after,
        track,
        group,
        object,
    )).len() == 1 by {
        lemma_place_push(frags, f, track, group, object);
        lemma_ordinal_push(frags, f, track, group);
        if f.track_id == track && f.group == group && f.object == object {
            lemma_place_empty(frags, track, group, object);
        }
    }
}

/// The fragments at a place are those of the place's group and object that
/// are of its track.
proof fn lemma_place_by_rank(frags: Seq<Frag>, track: u32, group: u64, object: u32)
    ensures
        at_place(frags, track, group, object) == ranked(
            frags,
            Rank::GroupObject,
            (group as int, object as int),
        ).filter(|f: Frag| f.track_id == track),
    decreases frags.len(),
{
    reveal(Seq::filter);
    if frags.len() > 0 {
        let front = frags.drop_last();
        lemma_place_by_rank(front, track, group, object);
        let of_rank = ranked(front, Rank::GroupObject, (group as int, object as int));
        assert(of_rank.push(frags.last()).drop_last() =~= of_rank);
    }
}

/// Reading timings leaves the fragments as they are.
proof fn lemma_tracks_keep_frags(state: ScanState, timings: Seq<TrackTiming>)
    ensures
        state.with_tracks(timings).frags == state.frags,
    decreases timings.len(),
{
    if timings.len() > 0 {
        lemma_tracks_keep_frags(state, timings.drop_last());
    }
}

/// Reading track fragments keeps the fragments numbered.
proof fn lemma_fragments_numbered(
    state: ScanState,
    fragments: Seq<TrackFragment>,
    moof_start: u64,
    mdat_start: u64,
    mdat_size: u64,
)
    requires
        numbered(state.frags),
    ensures
        state.with_fragments(fragments, moof_start, mdat_start, mdat_size) matches Ok(found)
            ==> numbered(found.frags),
    decreases fragments.len(),
{
    if fragments.len() > 0 {
        lemma_fragments_numbered(state, fragments.drop_last(), moof_start, mdat_start, mdat_size);
        match state.with_fragments(fragments.drop_last(), moof_start, mdat_start, mdat_size) {
            Ok(before) => {
                match fragments.last().decode_time {
                    Some(tfdt) => {
                        let f = before.frag_for(
                            fragments.last().track_id,
                            tfdt,
                            moof_start,
                            mdat_start,
                            mdat_size,
                        );
                        if ordinal(before.frags, f.track_id, f.group) < u32::MAX {
                            lemma_numbered_push(before.frags, f);
                        }
                    },
                    None => {},
                }
            },
            Err(_) => {},
        }
    }
}

/// A step of the scan keeps the fragments numbered.
proof fn lemma_step_numbered(data: Seq<u8>, pos: int, state: ScanState)
    requires
        numbered(state.frags),
    ensures
        match scan_step(data, pos, state) {
            Step::Done(found) => numbered(found.frags),
            Step::Next(_, found) => numbered(found.frags),
            Step::Failed(_) => true,
        },
{
    if pos < data.len() && header_at(data, pos) is Some {
        match child_at(data, pos, data.len() as int) {
            Some(found) => {
                if found.code == FTYP {
                } else if found.code == MOOV {
                    match movie_tracks(data, found.body as int, found.end as int) {
                        Some(timings) => {
                            lemma_tracks_keep_frags(
                                ScanState { moov_end: found.end as u64, ..state },
                                timings,
                            );
                        },
                        None => {},
                    }
                } else if found.code == MOOF {
                    match fragment_tracks(data, found.body as int, found.end as int) {
                        Some(fragments) => {
                            let moof_start = found.start as u64;
                            match header_at(data, found.end as int) {
                                Some(next) => {
                                    lemma_fragments_numbered(
                                        state,
                                        fragments,
                                        moof_start,
                                        found.end as u64,
                                        0,
                                    );
                                    match child_at(data, found.end as int, data.len() as int) {
                                        Some(behind) => {
                                            lemma_fragments_numbered(
                                                state,
                                                fragments,
                                                moof_start,
                                                behind.start as u64,
                                                (behind.end - behind.start) as u64,
                                            );
                                        },
                                        None => {},
                                    }
                                },
                                None => {},
                            }
                        },
                        None => {},
                    }
                }
            },
            None => {},
        }
    }
}

/// A scan keeps the fragments numbered.
proof fn lemma_scan_numbered(data: Seq<u8>, pos: int, state: ScanState)
    requires
        numbered(state.frags),
    ensures
        scan_from(data, pos, state) matches Ok(found) ==> numbered(found.frags),
    decreases data.len() - pos,
{
    lemma_step_numbered(data, pos, state);
    match scan_step(data, pos, state) {
        Step::Next(next, found) => {
            if pos < next <= data.len() {
                lemma_scan_numbered(data, next, found);
            }
        },
        _ => {},
    }
}

/// The fragments of an index are in ascending order of group and then of
/// object, no two of them agree in track, group and object, and the
/// ordinals of each track and group count from 0 without a gap.
pub proof fn lemma_index_ordered(data: Seq<u8>)
    requires
        index_of(data) is Ok,
    ensures
        ascending(index_of(data).unwrap().frags, Rank::GroupObject),
        distinct_places(index_of(data).unwrap().frags),
        dense_places(index_of(data).unwrap().frags),
{
    let found = scan_from(data, 0, ScanState::empty()).unwrap();
    let sorted = index_of(data).unwrap().frags;
    assert(numbered(ScanState::empty().frags)) by {
        reveal(Seq::filter);
        assert forall|track: u32, group: u64, object: u32| #[trigger]
            at_place(Seq::<Frag>::empty(), track, group, object).len() <= 1 by {
            lemma_place_empty(Seq::<Frag>::empty(), track, group, object);
        }
    }
    lemma_scan_numbered(data, 0, ScanState::empty());
    lemma_arranged(found.frags, Rank::GroupObject);
    assert forall|track: u32, group: u64, object: u32| #[trigger]
        at_place(sorted, track, group, object).len() <= 1 by {
        lemma_place_by_rank(sorted, track, group, object);
        lemma_place_by_rank(found.frags, track, group, object);
        assert(ranked(sorted, Rank::GroupObject, (group as int, object as int)) == ranked(
            found.frags,
            Rank::GroupObject,
            (group as int, object as int),
        ));
        assert(at_place(found.frags, track, group, object).len() <= 1);
    }
    assert forall|i: int, below: u32|
        0 <= i < sorted.len() && below < sorted[i].object implies (#[trigger] at_place(
        sorted,
        (#[trigger] sorted[i]).track_id,
        sorted[i].group,
        below,
    )).len() == 1 by {
        let f = sorted[i];
        assert(found.frags.contains(f));
        let w = choose|w: int| 0 <= w < found.frags.len() && found.frags[w] == f;
        assert(found.frags[w].object < ordinal(found.frags, f.track_id, f.group));
        assert(at_place(found.frags, f.track_id, f.group, below).len() == 1);
        lemma_place_by_rank(sorted, f.track_id, f.group, below);
        lemma_place_by_rank(found.frags, f.track_id, f.group, below);
        assert(ranked(sorted, Rank::GroupObject, (f.group as int, below as int)) == ranked(
            found.frags,
            Rank::GroupObject,
            (f.group as int, below as int),
        ));
    }
}

/// Every fragment of `frags` is well formed and ends within a file of `len`
/// bytes.
pub open spec fn located(frags: Seq<Frag>, len: int) -> bool {
    forall|i: int|
        0 <= i < frags.len() ==> (#[trigger] frags[i]).wf() && frags[i].mdat_start
            + frags[i].mdat_size <= len
}

/// Reading track fragments that lie in the file keeps the fragments
/// located.
proof fn lemma_fragments_located(
    state: ScanState,
    fragments: Seq<TrackFragment>,
    moof_start: u64,
    mdat_start: u64,
    mdat_size: u64,
    len: int,
)
    requires
        located(state.frags, len),
        moof_start < mdat_start,
        mdat_start + mdat_size <= len <= u64::MAX,
    ensures
        state.with_fragments(fragments, moof_start, mdat_start, mdat_size) matches Ok(found)
            ==> located(found.frags, len) && found.ftyp_start == state.ftyp_start
            && found.moov_end == state.moov_end,
    decreases fragments.len(),
{
    if fragments.len() > 0 {
        lemma_fragments_located(
            state,
            fragments.drop_last(),
            moof_start,
            mdat_start,
            mdat_size,
            len,
        );
    }
}

/// The step behind a movie-fragment box keeps the fragments located and
/// leaves the init segment as it is.
proof fn lemma_after_moof_located(
    data: Seq<u8>,
    moof: Child,
    fragments: Seq<TrackFragment>,
    state: ScanState,
)
    requires
        data.len() <= usize::MAX,
        located(state.frags, data.len() as int),
        moof.start < moof.end <= data.len(),
    ensures
        match step_after_moof(data, moof, fragments, state) {
            Step::Done(found) => located(found.frags, data.len() as int) && found.ftyp_start
                == state.ftyp_start && found.moov_end == state.moov_end,
            Step::Next(_, found) => located(found.frags, data.len() as int) && found.ftyp_start
                == state.ftyp_start && found.moov_end == state.moov_end,
            Step::Failed(_) => true,
        },
{
    let len = data.len() as int;
    let moof_start = moof.start as u64;
    match header_at(data, moof.end as int) {
        Some(next) => {
            lemma_fragments_located(state, fragments, moof_start, moof.end as u64, 0, len);
            match child_at(data, moof.end as int, len) {
                Some(behind) => {
                    crate::boxes::lemma_child_at(data, moof.end as int, len);
                    lemma_fragments_located(
                        state,
                        fragments,
                        moof_start,
                        behind.start as u64,
                        (behind.end - behind.start) as u64,
                        len,
                    );
                },
                None => {},
            }
        },
        None => {},
    }
}

/// A step of the scan keeps the fragments located and the init segment
/// within the file.
proof fn lemma_step_located(data: Seq<u8>, pos: int, state: ScanState)
    requires
        0 <= pos,
        data.len() <= usize::MAX,
        located(state.frags, data.len() as int),
        state.ftyp_start <= data.len(),
        state.moov_end <= data.len(),
    ensures
        match scan_step(data, pos, state) {
            Step::Done(found) => located(found.frags, data.len() as int) && found.ftyp_start
                <= data.len() && found.moov_end <= data.len(),
            Step::Next(_, found) => located(found.frags, data.len() as int) && found.ftyp_start
                <= data.len() && found.moov_end <= data.len(),
            Step::Failed(_) => true,
        },
{
    let len = data.len() as int;
    if pos < data.len() && header_at(data, pos) is Some {
        match child_at(data, pos, len) {
            Some(found) => {
                crate::boxes::lemma_child_at(data, pos, len);
                if found.code == FTYP {
                } else if found.code == MOOV {
                    match movie_tracks(data, found.body as int, found.end as int) {
                        Some(timings) => {
                            let anchored = ScanState { moov_end: found.end as u64, ..state };
                            lemma_tracks_keep_frags(anchored, timings);
                            lemma_tracks_keep_init(anchored, timings);
                        },
                        None => {},
                    }
                } else if found.code == MOOF {
                    match fragment_tracks(data, found.body as int, found.end as int) {
                        Some(fragments) => {
                            lemma_after_moof_located(data, found, fragments, state);
                        },
                        None => {},
                    }
                }
            },
            None => {},
        }
    }
}

/// A scan keeps the fragments located, and the init segment ends within the
/// file.
proof fn lemma_scan_located(data: Seq<u8>, pos: int, state: ScanState)
    requires
        0 <= pos,
        data.len() <= usize::MAX,
        located(state.frags, data.len() as int),
        state.ftyp_start <= data.len(),
        state.moov_end <= data.len(),
    ensures
        scan_from(data, pos, state) matches Ok(found) ==> located(found.frags, data.len() as int)
            && found.ftyp_start <= data.len() && found.moov_end <= data.len(),
    decreases data.len() - pos,
{
    lemma_step_located(data, pos, state);
    match scan_step(data, pos, state) {
        Step::Next(next, found) => {
            if pos < next <= data.len() {
                lemma_scan_located(data, next, found);
            }
        },
        _ => {},
    }
}

/// Reading timings leaves the init segment as it is.
proof fn lemma_tracks_keep_init(state: ScanState, timings: Seq<TrackTiming>)
    ensures
        state.with_tracks(timings).ftyp_start == state.ftyp_start,
        state.with_tracks(timings).moov_end == state.moov_end,
    decreases timings.len(),
{
    if timings.len() > 0 {
        lemma_tracks_keep_init(state, timings.drop_last());
    }
}

/// Every fragment of an index has its movie-fragment box before its
/// media-data box and ends within the file; the init segment does not end
/// before it starts, and ends within the file.
pub proof fn lemma_index_located(data: Seq<u8>)
    requires
        data.len() <= usize::MAX,
        index_of(data) is Ok,
    ensures
        located(index_of(data).unwrap().frags, data.len() as int),
        index_of(data).unwrap().init.start <= index_of(data).unwrap().init.end <= data.len(),
{
    let found = scan_from(data, 0, ScanState::empty()).unwrap();
    let sorted = index_of(data).unwrap().frags;
    lemma_scan_located(data, 0, ScanState::empty());
    lemma_arranged(found.frags, Rank::GroupObject);
    assert forall|i: int| 0 <= i < sorted.len() implies (#[trigger] sorted[i]).wf()
        && sorted[i].mdat_start + sorted[i].mdat_size <= data.len() by {
        assert(found.frags.contains(sorted[i]));
    }
}

} // verus!
