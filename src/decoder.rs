//! The segment protocol decoder: a state machine that takes one frame at a time
//! and says whether the cursor should move on, offer the same frame again, or stop.

use crate::frame::{classified, classify, Frame, FrameView};
use crate::metadata::{metadata_of, parse_metadata, supported_id_width, Metadata, MetadataError};
use crate::primitives::{base64_decoded, decode_base64};
use crate::reassembly::{assembled, missing_ids};
use vstd::slice::slice_to_vec;
use std::collections::HashMap;
use vstd::prelude::*;

verus! {

broadcast use vstd::std_specs::hash::group_hash_axioms;

/// `}`: a metadata fragment ending with it completes the metadata text.
pub const CLOSING_BRACE: u8 = 0x7d;

/// Where the decoder stands.
#[derive(Clone, Copy, Debug, PartialEq, Eq)]
pub enum Phase {
    /// Collecting metadata fragments.
    Metadata,
    /// Collecting content segments until a checksum frame shows up.
    Data,
    /// Looking for a checksum frame that verifies.
    Checksum,
    /// The checksum was found.
    Done,
    /// The complete metadata text could not be used.
    Failed(MetadataError),
}

/// What the frame cursor should do after a step.
#[derive(Clone, Copy, Debug, PartialEq, Eq)]
pub enum Action {
    /// Move to the next frame.
    Advance,
    /// Offer the same frame again: the cursor steps back by one.
    Replay,
    /// Stop reading frames.
    Stop,
}

/// The decoder's state, as mathematical values.
pub struct DecoderView {
    pub phase: Phase,
    pub text: Seq<u8>,
    pub metadata: Option<Metadata>,
    pub segments: Map<u64, Seq<u8>>,
    pub checksum: Option<Seq<u8>>,
}

/// The state of one run: metadata text collected so far, the metadata once
/// parsed, the accepted content segments by identifier, and the checksum.
/// A segment that arrives again under a known identifier replaces the earlier
/// one.
pub struct Decoder {
    phase: Phase,
    text: Vec<u8>,
    metadata: Option<Metadata>,
    segments: HashMap<u64, Vec<u8>>,
    checksum: Option<Vec<u8>>,
}

/// A state that the decoder can reach: metadata is known from the data phase
/// on, and every segment identifier is below the segment count.
pub open spec fn state_ok(s: DecoderView) -> bool {
    &&& s.segments.dom().finite()
    &&& match s.metadata {
        Some(m) => supported_id_width(m.id_width) && forall|k: u64|
            #[trigger] s.segments.contains_key(k) ==> k < m.segment_count,
        None => s.segments.dom() == Set::<u64>::empty(),
    }
    &&& (s.metadata is None <==> (s.phase is Metadata || s.phase is Failed))
}

pub open spec fn initial_state() -> DecoderView {
    DecoderView {
        phase: Phase::Metadata,
        text: Seq::empty(),
        metadata: None,
        segments: Map::empty(),
        checksum: None,
    }
}

/// One step of the decoder on one frame.
pub open spec fn step_spec(s: DecoderView, frame: Seq<u8>) -> (DecoderView, Action) {
    match s.phase {
        Phase::Metadata => match classified(frame, s.metadata) {
            FrameView::Metadata(body) => {
                let text = s.text + body;
                if body.len() > 0 && body.last() == CLOSING_BRACE {
                    match metadata_of(text) {
                        Ok(m) => (
                            DecoderView {
                                phase: Phase::Data,
                                text: Seq::empty(),
                                metadata: Some(m),
                                ..s
                            },
                            Action::Advance,
                        ),
                        Err(e) => (DecoderView { phase: Phase::Failed(e), text, ..s }, Action::Stop),
                    }
                } else {
                    (DecoderView { text, ..s }, Action::Advance)
                }
            },
            _ => (s, Action::Advance),
        },
        Phase::Data => match classified(frame, s.metadata) {
            FrameView::Data(id, payload) => (
                DecoderView { segments: s.segments.insert(id, payload), ..s },
                Action::Advance,
            ),
            FrameView::Checksum(_) => (DecoderView { phase: Phase::Checksum, ..s }, Action::Replay),
            _ => (s, Action::Advance),
        },
        Phase::Checksum => match classified(frame, s.metadata) {
            FrameView::Checksum(c) => (
                DecoderView { phase: Phase::Done, checksum: Some(c), ..s },
                Action::Stop,
            ),
            _ => (s, Action::Advance),
        },
        _ => (s, Action::Stop),
    }
}

/// How far a run has come; a replay always moves it further.
pub open spec fn phase_rank(p: Phase) -> nat {
    match p {
        Phase::Metadata => 3,
        Phase::Data => 2,
        Phase::Checksum => 1,
        _ => 0,
    }
}

/// The state after feeding `frames` from position `pos` on, following the
/// actions that each step asks for, until a stop or the end of the frames.
pub open spec fn run_from(s: DecoderView, frames: Seq<Seq<u8>>, pos: nat) -> DecoderView
    decreases frames.len() - pos, phase_rank(s.phase),
{
    if pos >= frames.len() {
        s
    } else {
        let (next, act) = step_spec(s, frames[pos as int]);
        match act {
            Action::Stop => next,
            Action::Advance => run_from(next, frames, pos + 1),
            Action::Replay => run_from(next, frames, pos),
        }
    }
}

/// The state after a whole run over `frames`.
pub open spec fn decoded(frames: Seq<Seq<u8>>) -> DecoderView {
    run_from(initial_state(), frames, 0)
}

/// Whether `frame` is a metadata fragment, read before the metadata is known,
/// whose body ends with a closing brace.
pub open spec fn closes_metadata(frame: Seq<u8>) -> bool {
    classified(frame, None) matches FrameView::Metadata(b) && b.len() > 0 && b.last()
        == CLOSING_BRACE
}

/// The bodies of the metadata fragments among `frames[lo..hi]`, concatenated
/// in order.
pub open spec fn fragment_text(frames: Seq<Seq<u8>>, lo: nat, hi: nat) -> Seq<u8>
    decreases hi - lo,
{
    if lo >= hi {
        Seq::empty()
    } else {
        let piece = match classified(frames[lo as int], None) {
            FrameView::Metadata(b) => b,
            _ => Seq::empty(),
        };
        piece + fragment_text(frames, lo + 1, hi)
    }
}

proof fn lemma_collect_fragments(s: DecoderView, frames: Seq<Seq<u8>>, i: nat, k: nat)
    requires
        i <= k < frames.len(),
        s.phase is Metadata,
        s.metadata is None,
        forall|j: int| i <= j < k ==> !closes_metadata(#[trigger] frames[j]),
    ensures
        run_from(s, frames, i) == run_from(
            DecoderView { text: s.text + fragment_text(frames, i, k), ..s },
            frames,
            k,
        ),
    decreases k - i,
{
    if i == k {
        assert(s.text + fragment_text(frames, i, k) =~= s.text);
    } else {
        assert(!closes_metadata(frames[i as int]));
        let (next, act) = step_spec(s, frames[i as int]);
        lemma_collect_fragments(next, frames, i + 1, k);
        assert(next.text + fragment_text(frames, i + 1, k) =~= s.text + fragment_text(
            frames,
            i,
            k,
        ));
    }
}

/// Metadata split over several frames is read as if it had come whole: the
/// fragments met before the first one that ends with a closing brace, and that
/// one, are concatenated in the order met and parsed once. On success the run
/// goes on from the next frame with that record and nothing else collected; on
/// failure it stops there.
pub proof fn lemma_metadata_fragments(frames: Seq<Seq<u8>>, k: nat)
    requires
        k < frames.len(),
        closes_metadata(frames[k as int]),
        forall|j: int| 0 <= j < k ==> !closes_metadata(#[trigger] frames[j]),
    ensures
        match metadata_of(fragment_text(frames, 0, k + 1)) {
            Ok(m) => decoded(frames) == run_from(
                DecoderView {
                    phase: Phase::Data,
                    text: Seq::empty(),
                    metadata: Some(m),
                    segments: Map::empty(),
                    checksum: None,
                },
                frames,
                k + 1,
            ),
            Err(e) => decoded(frames) == DecoderView {
                phase: Phase::Failed(e),
                text: fragment_text(frames, 0, k + 1),
                metadata: None,
                segments: Map::empty(),
                checksum: None,
            },
        },
{
    let s0 = initial_state();
    lemma_collect_fragments(s0, frames, 0, k);
    let sk = DecoderView { text: s0.text + fragment_text(frames, 0, k), ..s0 };
    let body = match classified(frames[k as int], None) {
        FrameView::Metadata(b) => b,
        _ => Seq::empty(),
    };
    assert(fragment_text(frames, k + 1, k + 1) =~= Seq::empty());
    assert(fragment_text(frames, k, k + 1) =~= body);
    lemma_fragment_text_split(frames, 0, k, k + 1);
    assert(sk.text + body =~= fragment_text(frames, 0, k + 1));
}

proof fn lemma_fragment_text_split(frames: Seq<Seq<u8>>, lo: nat, mid: nat, hi: nat)
    requires
        lo <= mid <= hi,
    ensures
        fragment_text(frames, lo, hi) == fragment_text(frames, lo, mid) + fragment_text(
            frames,
            mid,
            hi,
        ),
    decreases mid - lo,
{
    if lo == mid {
        assert(fragment_text(frames, lo, hi) =~= Seq::<u8>::empty() + fragment_text(
            frames,
            mid,
            hi,
        ));
    } else {
        lemma_fragment_text_split(frames, lo + 1, mid, hi);
        let piece = match classified(frames[lo as int], None) {
            FrameView::Metadata(b) => b,
            _ => Seq::empty(),
        };
        assert(piece + (fragment_text(frames, lo + 1, mid) + fragment_text(frames, mid, hi))
            =~= (piece + fragment_text(frames, lo + 1, mid)) + fragment_text(frames, mid, hi));
    }
}

/// The frame that an optical code's text carries: its standard base64
/// decoding, or an empty frame, which never verifies, when it is not base64.
pub open spec fn frame_of_text(text: Seq<char>) -> Seq<u8> {
    match base64_decoded(text) {
        Some(f) => f,
        None => Seq::empty(),
    }
}

/// The identifier of a content segment frame.
pub open spec fn frame_id(frame: Seq<u8>, md: Option<Metadata>) -> u64 {
    classified(frame, md)->Data_0
}

/// The payload of a content segment frame.
pub open spec fn frame_payload(frame: Seq<u8>, md: Option<Metadata>) -> Seq<u8> {
    classified(frame, md)->Data_1
}

/// Whether all of `frames[lo..hi]` are content segment frames.
pub open spec fn all_data(frames: Seq<Seq<u8>>, md: Option<Metadata>, lo: int, hi: int) -> bool {
    forall|k: int| lo <= k < hi ==> (#[trigger] classified(frames[k], md)) is Data
}

/// Whether some frame of `frames[lo..hi]` carries identifier `x`.
pub open spec fn carries(
    frames: Seq<Seq<u8>>,
    md: Option<Metadata>,
    lo: int,
    hi: int,
    x: u64,
) -> bool {
    exists|k: int| lo <= k < hi && #[trigger] frame_id(frames[k], md) == x
}

/// `segments` after storing the content segments of `frames[lo..hi]`, in order.
pub open spec fn collected(
    segments: Map<u64, Seq<u8>>,
    frames: Seq<Seq<u8>>,
    md: Option<Metadata>,
    lo: int,
    hi: int,
) -> Map<u64, Seq<u8>>
    decreases hi - lo,
{
    if lo >= hi {
        segments
    } else {
        collected(
            segments.insert(frame_id(frames[lo], md), frame_payload(frames[lo], md)),
            frames,
            md,
            lo + 1,
            hi,
        )
    }
}

proof fn lemma_collected_last(
    m: Map<u64, Seq<u8>>,
    frames: Seq<Seq<u8>>,
    md: Option<Metadata>,
    lo: int,
    hi: int,
)
    requires
        lo < hi,
    ensures
        collected(m, frames, md, lo, hi) == collected(m, frames, md, lo, hi - 1).insert(
            frame_id(frames[hi - 1], md),
            frame_payload(frames[hi - 1], md),
        ),
    decreases hi - lo,
{
    let m1 = m.insert(frame_id(frames[lo], md), frame_payload(frames[lo], md));
    assert(collected(m, frames, md, lo, hi) == collected(m1, frames, md, lo + 1, hi));
    if lo + 1 < hi {
        lemma_collected_last(m1, frames, md, lo + 1, hi);
        assert(collected(m, frames, md, lo, hi - 1) == collected(m1, frames, md, lo + 1, hi - 1));
    } else {
        assert(collected(m1, frames, md, lo + 1, hi) == m1);
        assert(collected(m, frames, md, lo, hi - 1) == m);
    }
}

/// What storing a run of content segments leaves under an identifier: for one
/// that some frame carries, the payload of such a frame, whatever was there
/// before; for any other, what was there before.
pub proof fn lemma_collected_value(
    m: Map<u64, Seq<u8>>,
    other: Map<u64, Seq<u8>>,
    frames: Seq<Seq<u8>>,
    md: Option<Metadata>,
    lo: int,
    hi: int,
    x: u64,
)
    ensures
        carries(frames, md, lo, hi, x) ==> {
            &&& collected(m, frames, md, lo, hi).contains_key(x)
            &&& collected(m, frames, md, lo, hi)[x] == collected(other, frames, md, lo, hi)[x]
        },
        !carries(frames, md, lo, hi, x) ==> {
            &&& collected(m, frames, md, lo, hi).contains_key(x) == m.contains_key(x)
            &&& collected(m, frames, md, lo, hi)[x] == m[x]
        },
    decreases hi - lo,
{
    if lo < hi {
        lemma_collected_last(m, frames, md, lo, hi);
        lemma_collected_last(other, frames, md, lo, hi);
        lemma_collected_value(m, other, frames, md, lo, hi - 1, x);
        if frame_id(frames[hi - 1], md) != x {
            if carries(frames, md, lo, hi, x) {
                let k = choose|k: int| lo <= k < hi && #[trigger] frame_id(frames[k], md) == x;
                assert(carries(frames, md, lo, hi - 1, x));
            } else {
                assert forall|k: int| lo <= k < hi - 1 implies #[trigger] frame_id(frames[k], md)
                    != x by {
                    assert(lo <= k < hi);
                }
            }
        } else {
            assert(carries(frames, md, lo, hi, x));
        }
    } else {
        assert(!carries(frames, md, lo, hi, x));
    }
}

proof fn lemma_checksum_ends_data(s: DecoderView, frames: Seq<Seq<u8>>, i: int, j: int)
    requires
        s.phase is Data,
        0 <= i <= j < frames.len(),
        all_data(frames, s.metadata, i, j),
        classified(frames[j], s.metadata) is Checksum,
    ensures
        run_from(s, frames, i as nat) == (DecoderView {
            phase: Phase::Done,
            checksum: Some(classified(frames[j], s.metadata)->Checksum_0),
            segments: collected(s.segments, frames, s.metadata, i, j),
            ..s
        }),
    decreases j - i,
{
    if i < j {
        assert(classified(frames[i], s.metadata) is Data);
        let (next, _) = step_spec(s, frames[i]);
        lemma_checksum_ends_data(next, frames, i + 1, j);
    } else {
        let (next, _) = step_spec(s, frames[j]);
        assert(run_from(s, frames, j as nat) == run_from(next, frames, j as nat));
    }
}

/// For an identifier that some frame carries, one such frame whose payload is
/// what storing the run leaves under that identifier.
pub proof fn lemma_collected_source(
    m: Map<u64, Seq<u8>>,
    frames: Seq<Seq<u8>>,
    md: Option<Metadata>,
    lo: int,
    hi: int,
    x: u64,
) -> (k: int)
    requires
        carries(frames, md, lo, hi, x),
    ensures
        lo <= k < hi,
        frame_id(frames[k], md) == x,
        collected(m, frames, md, lo, hi)[x] == frame_payload(frames[k], md),
    decreases hi - lo,
{
    lemma_collected_last(m, frames, md, lo, hi);
    if frame_id(frames[hi - 1], md) == x {
        hi - 1
    } else {
        let w = choose|w: int| lo <= w < hi && #[trigger] frame_id(frames[w], md) == x;
        assert(carries(frames, md, lo, hi - 1, x));
        lemma_collected_source(m, frames, md, lo, hi - 1, x)
    }
}

/// Whether `frame` is one of `frames[lo..hi]`.
pub open spec fn appears_in(frame: Seq<u8>, frames: Seq<Seq<u8>>, lo: int, hi: int) -> bool {
    exists|q: int| lo <= q < hi && #[trigger] frames[q] == frame
}

/// A data phase: content segment frames from `i`, then a checksum frame at `j`.
pub open spec fn data_phase(s: DecoderView, frames: Seq<Seq<u8>>, i: int, j: int) -> bool {
    &&& s.phase is Data
    &&& 0 <= i <= j < frames.len()
    &&& all_data(frames, s.metadata, i, j)
    &&& classified(frames[j], s.metadata) is Checksum
}

/// A run through a data phase stops at its checksum frame, holding the
/// segments stored before plus those of the phase's frames in order, and that
/// frame's checksum.
pub proof fn lemma_data_phase_run(s: DecoderView, frames: Seq<Seq<u8>>, i: int, j: int)
    requires
        data_phase(s, frames, i, j),
    ensures
        run_from(s, frames, i as nat) == (DecoderView {
            phase: Phase::Done,
            checksum: Some(classified(frames[j], s.metadata)->Checksum_0),
            segments: collected(s.segments, frames, s.metadata, i, j),
            ..s
        }),
{
    lemma_checksum_ends_data(s, frames, i, j);
}

proof fn lemma_reordered_key(
    m: Map<u64, Seq<u8>>,
    frames: Seq<Seq<u8>>,
    reordered: Seq<Seq<u8>>,
    md: Option<Metadata>,
    i: int,
    j: int,
    x: u64,
)
    requires
        0 <= i <= j <= frames.len() == reordered.len(),
        forall|k: int| i <= k < j ==> #[trigger] appears_in(reordered[k], frames, i, j),
        forall|q: int| i <= q < j ==> #[trigger] appears_in(frames[q], reordered, i, j),
        forall|a: int, b: int|
            i <= a < b < j ==> frame_id(frames[a], md) != frame_id(frames[b], md),
    ensures
        collected(m, frames, md, i, j).contains_key(x) == collected(
            m,
            reordered,
            md,
            i,
            j,
        ).contains_key(x),
        collected(m, frames, md, i, j)[x] == collected(m, reordered, md, i, j)[x],
{
    lemma_collected_value(m, m, frames, md, i, j, x);
    lemma_collected_value(m, m, reordered, md, i, j, x);
    if carries(frames, md, i, j, x) {
        let qa = lemma_collected_source(m, frames, md, i, j, x);
        assert(appears_in(frames[qa], reordered, i, j));
        let k = choose|k: int| i <= k < j && #[trigger] reordered[k] == frames[qa];
        assert(frame_id(reordered[k], md) == x);
        let kb = lemma_collected_source(m, reordered, md, i, j, x);
        assert(appears_in(reordered[kb], frames, i, j));
        let qb = choose|qb: int| i <= qb < j && #[trigger] frames[qb] == reordered[kb];
        assert(frame_id(frames[qb], md) == x);
        assert(qa == qb);
    } else if carries(reordered, md, i, j, x) {
        let k = choose|k: int| i <= k < j && #[trigger] frame_id(reordered[k], md) == x;
        assert(appears_in(reordered[k], frames, i, j));
        let q = choose|q: int| i <= q < j && #[trigger] frames[q] == reordered[k];
        assert(frame_id(frames[q], md) == x);
    }
}

/// Reordering the content segment frames of a data phase, when their
/// identifiers are distinct, changes nothing in the run: each frame of either
/// order stands in the other, and the checksum frame and what follows stay.
pub proof fn lemma_data_order_irrelevant(
    s: DecoderView,
    frames: Seq<Seq<u8>>,
    reordered: Seq<Seq<u8>>,
    i: int,
    j: int,
)
    requires
        data_phase(s, frames, i, j),
        reordered.len() == frames.len(),
        forall|t: int| j <= t < frames.len() ==> reordered[t] == frames[t],
        forall|k: int| i <= k < j ==> #[trigger] appears_in(reordered[k], frames, i, j),
        forall|q: int| i <= q < j ==> #[trigger] appears_in(frames[q], reordered, i, j),
        forall|a: int, b: int|
            i <= a < b < j ==> frame_id(frames[a], s.metadata) != frame_id(frames[b], s.metadata),
    ensures
        run_from(s, frames, i as nat) == run_from(s, reordered, i as nat),
{
    let md = s.metadata;
    assert forall|k: int| i <= k < j implies (#[trigger] classified(reordered[k], md)) is Data by {
        assert(appears_in(reordered[k], frames, i, j));
        let q = choose|q: int| i <= q < j && #[trigger] frames[q] == reordered[k];
        assert(classified(frames[q], md) is Data);
    }
    assert(data_phase(s, reordered, i, j));
    lemma_data_phase_run(s, frames, i, j);
    lemma_data_phase_run(s, reordered, i, j);
    let a = collected(s.segments, frames, md, i, j);
    let b = collected(s.segments, reordered, md, i, j);
    assert forall|x: u64| #[trigger] a.contains_key(x) == b.contains_key(x) && a[x] == b[x] by {
        lemma_reordered_key(s.segments, frames, reordered, md, i, j, x);
    }
    assert(a =~= b);
}

/// Going through the same data phase a second time, from where the first pass
/// left the segments, leaves them as they were.
pub proof fn lemma_data_phase_rerun(s: DecoderView, frames: Seq<Seq<u8>>, i: int, j: int)
    requires
        data_phase(s, frames, i, j),
    ensures
        run_from(
            DecoderView { phase: Phase::Data, ..run_from(s, frames, i as nat) },
            frames,
            i as nat,
        ) == run_from(s, frames, i as nat),
{
    let md = s.metadata;
    lemma_data_phase_run(s, frames, i, j);
    let first = run_from(s, frames, i as nat);
    let again = DecoderView { phase: Phase::Data, ..first };
    lemma_data_phase_run(again, frames, i, j);
    let a = collected(s.segments, frames, md, i, j);
    let b = collected(a, frames, md, i, j);
    assert forall|x: u64| #[trigger] a.contains_key(x) == b.contains_key(x) && a[x] == b[x] by {
        lemma_collected_value(a, s.segments, frames, md, i, j, x);
        lemma_collected_value(s.segments, s.segments, frames, md, i, j, x);
    }
    assert(a =~= b);
}

pub open spec fn frames_view(frames: Seq<Vec<u8>>) -> Seq<Seq<u8>> {
    frames.map_values(|f: Vec<u8>| f@)
}

impl View for Decoder {
    type V = DecoderView;

    closed spec fn view(&self) -> DecoderView {
        DecoderView {
            phase: self.phase,
            text: self.text@,
            metadata: self.metadata,
            segments: Map::new(
                |k: u64| self.segments@.contains_key(k),
                |k: u64| self.segments@[k]@,
            ),
            checksum: match &self.checksum {
                Some(c) => Some(c@),
                None => None,
            },
        }
    }
}

impl Decoder {
    pub closed spec fn wf(&self) -> bool {
        &&& state_ok(self@)
        &&& self@.segments.dom() == self.segments@.dom()
    }

    /// A decoder's state is always one that a run can reach.
    pub proof fn lemma_state_ok(&self)
        requires
            self.wf(),
        ensures
            state_ok(self@),
    {
    }

    /// A decoder at the start of a run.
    pub fn new() -> (r: Decoder)
        ensures
            r.wf(),
            r@ == initial_state(),
    {
        let r = Decoder {
            phase: Phase::Metadata,
            text: Vec::new(),
            metadata: None,
            segments: HashMap::new(),
            checksum: None,
        };
        assert(r@.segments =~= Map::<u64, Seq<u8>>::empty());
        assert(r@.segments.dom() =~= r.segments@.dom());
        r
    }

    pub fn phase(&self) -> (r: Phase)
        ensures
            r == self@.phase,
    {
        self.phase
    }

    pub fn metadata(&self) -> (r: Option<Metadata>)
        ensures
            r == self@.metadata,
    {
        self.metadata
    }

    /// How many segments have been accepted.
    pub fn segment_len(&self) -> (r: usize)
        requires
            self.wf(),
        ensures
            r == self@.segments.len(),
    {
        self.segments.len()
    }

    /// The checksum frame's body, once found.
    pub fn checksum_bytes(&self) -> (r: Option<&[u8]>)
        ensures
            r matches Some(c) ==> self@.checksum == Some(c@),
            r is None ==> self@.checksum is None,
    {
        match &self.checksum {
            Some(c) => Some(c.as_slice()),
            None => None,
        }
    }

    /// The payloads of identifiers `0 .. n` in ascending order; all of them
    /// must be present.
    pub fn assemble(&self, n: u64) -> (r: Vec<u8>)
        requires
            self.wf(),
            forall|k: u64| k < n ==> #[trigger] self@.segments.contains_key(k),
        ensures
            r@ == assembled(self@.segments, n as nat),
    {
        let mut content: Vec<u8> = Vec::new();
        let mut i: u64 = 0;
        while i < n
            invariant
                self.wf(),
                i <= n,
                forall|k: u64| k < n ==> #[trigger] self@.segments.contains_key(k),
                content@ == assembled(self@.segments, i as nat),
            decreases n - i,
        {
            assert(self@.segments.contains_key(i));
            let seg = self.segments.get(&i).unwrap();
            let mut piece = slice_to_vec(seg.as_slice());
            content.append(&mut piece);
            i = i + 1;
        }
        content
    }

    /// The identifiers below `n` with no accepted segment, ascending.
    pub fn missing(&self, n: u64) -> (r: Vec<u64>)
        requires
            self.wf(),
        ensures
            r@ == missing_ids(self@.segments, n as nat),
    {
        let mut ids: Vec<u64> = Vec::new();
        let mut i: u64 = 0;
        while i < n
            invariant
                self.wf(),
                i <= n,
                ids@ == missing_ids(self@.segments, i as nat),
            decreases n - i,
        {
            if !self.segments.contains_key(&i) {
                ids.push(i);
            }
            i = i + 1;
        }
        ids
    }

    /// Feeds one frame.
    pub fn step(&mut self, frame: &[u8]) -> (act: Action)
        requires
            old(self).wf(),
        ensures
            final(self).wf(),
            (final(self)@, act) == step_spec(old(self)@, frame@),
    {
        match self.phase {
            Phase::Metadata => {
                let c = classify(frame, self.metadata);
                match c {
                    Frame::Metadata(body) => {
                        let mut body = body;
                        let complete = body.len() > 0 && body[body.len() - 1] == CLOSING_BRACE;
                        self.text.append(&mut body);
                        if complete {
                            match parse_metadata(self.text.as_slice()) {
                                Ok(m) => {
                                    self.phase = Phase::Data;
                                    self.text = Vec::new();
                                    self.metadata = Some(m);
                                },
                                Err(e) => {
                                    self.phase = Phase::Failed(e);
                                    return Action::Stop;
                                },
                            }
                        }
                        Action::Advance
                    },
                    _ => Action::Advance,
                }
            },
            Phase::Data => {
                let c = classify(frame, self.metadata);
                match c {
                    Frame::Data(id, payload) => {
                        let ghost before = self@.segments;
                        assert(id < self.metadata->0.segment_count);
                        let ghost pv = payload@;
                        self.segments.insert(id, payload);
                        assert(self@.segments =~= before.insert(id, pv));
                        assert(self@.segments.dom() =~= self.segments@.dom());
                        Action::Advance
                    },
                    Frame::Checksum(_) => {
                        self.phase = Phase::Checksum;
                        Action::Replay
                    },
                    _ => Action::Advance,
                }
            },
            Phase::Checksum => {
                let c = classify(frame, self.metadata);
                match c {
                    Frame::Checksum(sum) => {
                        self.phase = Phase::Done;
                        self.checksum = Some(sum);
                        Action::Stop
                    },
                    _ => Action::Advance,
                }
            },
            _ => Action::Stop,
        }
    }

    /// Feeds the text of one optical code: standard base64 of a frame. Text that
    /// is not valid base64 counts as an empty frame, which never verifies.
    pub fn step_text(&mut self, text: &str) -> (act: Action)
        requires
            old(self).wf(),
        ensures
            final(self).wf(),
            (final(self)@, act) == step_spec(old(self)@, frame_of_text(text@)),
    {
        match decode_base64(text) {
            Some(frame) => self.step(frame.as_slice()),
            None => {
                let empty: Vec<u8> = Vec::new();
                self.step(empty.as_slice())
            },
        }
    }
}

/// Runs the decoder over a list of frames, in order.
pub fn decode_frames(frames: &Vec<Vec<u8>>) -> (r: Decoder)
    ensures
        r.wf(),
        r@ == decoded(frames_view(frames@)),
{
    let ghost fs = frames_view(frames@);
    let mut d = Decoder::new();
    let mut pos: usize = 0;
    while pos < frames.len()
        invariant
            d.wf(),
            pos <= frames@.len(),
            fs == frames_view(frames@),
            run_from(d@, fs, pos as nat) == decoded(fs),
        decreases frames@.len() - pos, phase_rank(d@.phase),
    {
        assert(frames[pos as int]@ == fs[pos as int]);
        let act = d.step(frames[pos].as_slice());
        match act {
            Action::Stop => {
                return d;
            },
            Action::Advance => {
                pos = pos + 1;
            },
            Action::Replay => {},
        }
    }
    d
}

} // verus!
