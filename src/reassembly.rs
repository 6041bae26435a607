//! Reassembly: once decoding has stopped, the collected segments become the
//! file, or a report of what is missing or does not match.

use crate::decoder::{
    carries, collected, data_phase, decode_frames, decoded, frame_id, frame_payload, frames_view,
    lemma_collected_source, lemma_collected_value, lemma_data_phase_run, run_from, state_ok, Decoder,
    DecoderView, Phase,
};
use crate::frame::classified;
use crate::metadata::MetadataError;
use crate::primitives::{hex_of, md5, md5_of, to_hex};
use vstd::prelude::*;
use vstd::set_lib::{lemma_subset_equality, range_set_properties};

verus! {

broadcast use vstd::std_specs::hash::group_hash_axioms;

/// The result of a run.
#[derive(Debug, PartialEq, Eq)]
pub enum Outcome {
    /// No metadata was ever parsed.
    NoTransmission,
    /// The complete metadata text could not be used.
    ProtocolError(MetadataError),
    /// Some segments never arrived: their identifiers, ascending.
    Missing(Vec<u64>),
    /// Every segment arrived but the file's MD5 digest differs from the one
    /// sent (or none was sent). Both as lower-case hexadecimal.
    ChecksumMismatch { computed: String, received: String },
    /// The reconstructed file.
    Complete(Vec<u8>),
}

pub enum OutcomeView {
    NoTransmission,
    ProtocolError(MetadataError),
    Missing(Seq<u64>),
    ChecksumMismatch(Seq<char>, Seq<char>),
    Complete(Seq<u8>),
}

impl View for Outcome {
    type V = OutcomeView;

    open spec fn view(&self) -> OutcomeView {
        match self {
            Outcome::NoTransmission => OutcomeView::NoTransmission,
            Outcome::ProtocolError(e) => OutcomeView::ProtocolError(*e),
            Outcome::Missing(ids) => OutcomeView::Missing(ids@),
            Outcome::ChecksumMismatch { computed, received } => OutcomeView::ChecksumMismatch(
                computed@,
                received@,
            ),
            Outcome::Complete(b) => OutcomeView::Complete(b@),
        }
    }
}

/// The identifiers below `n` that `segments` lacks, ascending.
pub open spec fn missing_ids(segments: Map<u64, Seq<u8>>, n: nat) -> Seq<u64>
    decreases n,
{
    if n == 0 {
        Seq::empty()
    } else {
        let k = (n - 1) as u64;
        missing_ids(segments, (n - 1) as nat) + if segments.contains_key(k) {
            Seq::empty()
        } else {
            seq![k]
        }
    }
}

/// The payloads of identifiers `0 .. n`, concatenated in ascending order.
pub open spec fn assembled(segments: Map<u64, Seq<u8>>, n: nat) -> Seq<u8>
    decreases n,
{
    if n == 0 {
        Seq::empty()
    } else {
        assembled(segments, (n - 1) as nat) + segments[(n - 1) as u64]
    }
}

/// What a finished decoder state amounts to.
pub open spec fn outcome_of(s: DecoderView) -> OutcomeView {
    if let Phase::Failed(e) = s.phase {
        OutcomeView::ProtocolError(e)
    } else if let Some(m) = s.metadata {
        if s.segments.len() == m.segment_count {
            let content = assembled(s.segments, m.segment_count as nat);
            let sum = md5_of(content);
            if s.checksum == Some(sum) {
                OutcomeView::Complete(content)
            } else {
                OutcomeView::ChecksumMismatch(
                    hex_of(sum),
                    hex_of(
                        match s.checksum {
                            Some(c) => c,
                            None => Seq::empty(),
                        },
                    ),
                )
            }
        } else {
            OutcomeView::Missing(missing_ids(s.segments, m.segment_count as nat))
        }
    } else {
        OutcomeView::NoTransmission
    }
}

/// The outcome of a whole run over `frames`.
pub open spec fn reconstructed(frames: Seq<Seq<u8>>) -> OutcomeView {
    outcome_of(decoded(frames))
}

/// Segments whose identifiers are all below `n` and that number `n` hold every
/// identifier below `n`.
pub proof fn lemma_full_when_count_matches(segments: Map<u64, Seq<u8>>, n: u64)
    requires
        segments.dom().finite(),
        forall|k: u64| #[trigger] segments.contains_key(k) ==> k < n,
        segments.len() == n,
    ensures
        forall|k: u64| k < n ==> #[trigger] segments.contains_key(k),
{
    broadcast use range_set_properties;

    let all = Set::<u64>::range(0, n);
    assert(segments.dom().subset_of(all));
    lemma_subset_equality(segments.dom(), all);
}

/// With every identifier below the segment count present and the checksum that
/// the sender computed over their payloads, the file is the payloads joined in
/// ascending order of identifier.
pub proof fn lemma_complete_in_id_order(s: DecoderView)
    requires
        state_ok(s),
        !(s.phase is Failed),
        s.metadata is Some,
        forall|k: u64| k < s.metadata->0.segment_count ==> #[trigger] s.segments.contains_key(k),
        s.checksum == Some(md5_of(assembled(s.segments, s.metadata->0.segment_count as nat))),
    ensures
        outcome_of(s) == OutcomeView::Complete(
            assembled(s.segments, s.metadata->0.segment_count as nat),
        ),
{
    lemma_count_of_full(s.segments, s.metadata->0.segment_count);
}

/// Segments that arrive under different identifiers leave the same collection
/// whichever arrives first.
pub proof fn lemma_arrival_order(
    segments: Map<u64, Seq<u8>>,
    a: u64,
    pa: Seq<u8>,
    b: u64,
    pb: Seq<u8>,
)
    requires
        a != b,
    ensures
        segments.insert(a, pa).insert(b, pb) == segments.insert(b, pb).insert(a, pa),
{
    assert(segments.insert(a, pa).insert(b, pb) =~= segments.insert(b, pb).insert(a, pa));
}

/// Decoding the same frames again gives the same outcome.
pub proof fn lemma_rerun(first: Seq<Seq<u8>>, second: Seq<Seq<u8>>)
    requires
        first == second,
    ensures
        reconstructed(first) == reconstructed(second),
{
}

proof fn lemma_count_of_full(segments: Map<u64, Seq<u8>>, n: u64)
    requires
        forall|k: u64| #[trigger] segments.contains_key(k) ==> k < n,
        forall|k: u64| k < n ==> #[trigger] segments.contains_key(k),
    ensures
        segments.len() == n,
{
    broadcast use range_set_properties;

    assert(segments.dom() =~= Set::<u64>::range(0, n));
}

proof fn lemma_missing_one(segments: Map<u64, Seq<u8>>, missing: u64, n: nat)
    requires
        forall|k: u64| k < n && k != missing ==> #[trigger] segments.contains_key(k),
        !segments.contains_key(missing),
        n <= u64::MAX + 1,
    ensures
        missing_ids(segments, n) == if missing < n {
            seq![missing]
        } else {
            Seq::<u64>::empty()
        },
    decreases n,
{
    if n > 0 {
        lemma_missing_one(segments, missing, (n - 1) as nat);
        let k = (n - 1) as u64;
        if k == missing {
            assert(Seq::<u64>::empty() + seq![k] =~= seq![missing]);
        } else if missing < k {
            assert(seq![missing] + Seq::<u64>::empty() =~= seq![missing]);
        } else {
            assert(Seq::<u64>::empty() + Seq::<u64>::empty() =~= Seq::<u64>::empty());
        }
    }
}

/// When exactly one identifier below the segment count is absent, the report
/// names that identifier alone and no file comes out.
pub proof fn lemma_one_segment_missing(s: DecoderView, missing: u64)
    requires
        state_ok(s),
        !(s.phase is Failed),
        s.metadata is Some,
        missing < s.metadata->0.segment_count,
        !s.segments.contains_key(missing),
        forall|k: u64|
            k < s.metadata->0.segment_count && k != missing ==> #[trigger] s.segments.contains_key(
                k,
            ),
    ensures
        outcome_of(s) == OutcomeView::Missing(seq![missing]),
{
    broadcast use range_set_properties;

    let n = s.metadata->0.segment_count;
    assert(s.segments.dom() =~= Set::<u64>::range(0, n).remove(missing));
    assert(s.segments.len() == n - 1);
    lemma_missing_one(s.segments, missing, n as nat);
}

/// When every segment is present but the checksum that arrived is not the MD5
/// digest of the joined payloads, the report is a checksum mismatch.
pub proof fn lemma_checksum_mismatch(s: DecoderView)
    requires
        state_ok(s),
        !(s.phase is Failed),
        s.metadata is Some,
        forall|k: u64| k < s.metadata->0.segment_count ==> #[trigger] s.segments.contains_key(k),
        s.checksum != Some(md5_of(assembled(s.segments, s.metadata->0.segment_count as nat))),
    ensures
        outcome_of(s) is ChecksumMismatch,
{
    lemma_count_of_full(s.segments, s.metadata->0.segment_count);
}

/// The state in which a data phase ends, from a state with no segments yet:
/// it holds exactly the identifiers that the phase's frames carry.
proof fn lemma_data_phase_keys(s: DecoderView, frames: Seq<Seq<u8>>, i: int, j: int)
    requires
        data_phase(s, frames, i, j),
        state_ok(s),
        s.segments.dom() == Set::<u64>::empty(),
    ensures
        run_from(s, frames, i as nat).segments == collected(s.segments, frames, s.metadata, i, j),
        forall|x: u64|
            #[trigger] run_from(s, frames, i as nat).segments.contains_key(x) == carries(
                frames,
                s.metadata,
                i,
                j,
                x,
            ),
        forall|x: u64|
            #[trigger] run_from(s, frames, i as nat).segments.contains_key(x) ==> x
                < s.metadata->0.segment_count,
        run_from(s, frames, i as nat).phase is Done,
        run_from(s, frames, i as nat).metadata == s.metadata,
        run_from(s, frames, i as nat).checksum == Some(classified(frames[j], s.metadata)->Checksum_0),
{
    let md = s.metadata;
    lemma_data_phase_run(s, frames, i, j);
    let fin = run_from(s, frames, i as nat);
    assert forall|x: u64| #[trigger] fin.segments.contains_key(x) == carries(frames, md, i, j, x)
        && (fin.segments.contains_key(x) ==> x < md->0.segment_count) by {
        lemma_collected_value(s.segments, s.segments, frames, md, i, j, x);
        if carries(frames, md, i, j, x) {
            let k = choose|k: int| i <= k < j && #[trigger] frame_id(frames[k], md) == x;
            assert(classified(frames[k], md) is Data);
        }
    }
}

/// A data phase whose frames carry every identifier below the segment count
/// but one, from a state with no segments, ends in a report naming that one
/// identifier alone, and no file.
pub proof fn lemma_run_one_missing(s: DecoderView, frames: Seq<Seq<u8>>, i: int, j: int, missing: u64)
    requires
        data_phase(s, frames, i, j),
        state_ok(s),
        s.segments.dom() == Set::<u64>::empty(),
        missing < s.metadata->0.segment_count,
        !carries(frames, s.metadata, i, j, missing),
        forall|x: u64|
            x < s.metadata->0.segment_count && x != missing ==> #[trigger] carries(
                frames,
                s.metadata,
                i,
                j,
                x,
            ),
    ensures
        run_from(s, frames, i as nat).segments.dom() == Set::<u64>::range(
            0,
            s.metadata->0.segment_count,
        ).remove(missing),
        outcome_of(run_from(s, frames, i as nat)) == OutcomeView::Missing(seq![missing]),
{
    broadcast use range_set_properties;

    lemma_data_phase_keys(s, frames, i, j);
    let fin = run_from(s, frames, i as nat);
    let n = s.metadata->0.segment_count;
    assert(fin.segments.dom() =~= Set::<u64>::range(0, n).remove(missing));
    assert(state_ok(fin));
    lemma_one_segment_missing(fin, missing);
}

/// A data phase whose frames carry every identifier below the segment count,
/// from a state with no segments, ends with exactly those identifiers; when the
/// checksum frame's value is not the MD5 digest of the joined payloads, the
/// report is a checksum mismatch, not a missing segment.
pub proof fn lemma_run_checksum_mismatch(s: DecoderView, frames: Seq<Seq<u8>>, i: int, j: int)
    requires
        data_phase(s, frames, i, j),
        state_ok(s),
        s.segments.dom() == Set::<u64>::empty(),
        forall|x: u64| x < s.metadata->0.segment_count ==> #[trigger] carries(
            frames,
            s.metadata,
            i,
            j,
            x,
        ),
        classified(frames[j], s.metadata)->Checksum_0 != md5_of(
            assembled(
                collected(s.segments, frames, s.metadata, i, j),
                s.metadata->0.segment_count as nat,
            ),
        ),
    ensures
        run_from(s, frames, i as nat).segments.dom() == Set::<u64>::range(
            0,
            s.metadata->0.segment_count,
        ),
        outcome_of(run_from(s, frames, i as nat)) is ChecksumMismatch,
{
    broadcast use range_set_properties;

    lemma_data_phase_keys(s, frames, i, j);
    let fin = run_from(s, frames, i as nat);
    assert(fin.segments.dom() =~= Set::<u64>::range(0, s.metadata->0.segment_count));
    assert(state_ok(fin));
    lemma_checksum_mismatch(fin);
}

/// A data phase whose frames carry distinct identifiers, every one below the
/// segment count, from a state with no segments, and whose checksum frame holds
/// the MD5 digest of the joined payloads, gives the file: each identifier's
/// payload is its own frame's, and they are joined in ascending order of
/// identifier, whatever order the frames came in.
pub proof fn lemma_run_complete_in_id_order(
    s: DecoderView,
    frames: Seq<Seq<u8>>,
    i: int,
    j: int,
)
    requires
        data_phase(s, frames, i, j),
        state_ok(s),
        s.segments.dom() == Set::<u64>::empty(),
        forall|x: u64| x < s.metadata->0.segment_count ==> #[trigger] carries(
            frames,
            s.metadata,
            i,
            j,
            x,
        ),
        forall|a: int, b: int|
            i <= a < b < j ==> frame_id(frames[a], s.metadata) != frame_id(frames[b], s.metadata),
        classified(frames[j], s.metadata)->Checksum_0 == md5_of(
            assembled(
                collected(s.segments, frames, s.metadata, i, j),
                s.metadata->0.segment_count as nat,
            ),
        ),
    ensures
        forall|k: int|
            i <= k < j ==> run_from(s, frames, i as nat).segments[#[trigger] frame_id(
                frames[k],
                s.metadata,
            )] == frame_payload(frames[k], s.metadata),
        outcome_of(run_from(s, frames, i as nat)) == OutcomeView::Complete(
            assembled(run_from(s, frames, i as nat).segments, s.metadata->0.segment_count as nat),
        ),
{
    broadcast use range_set_properties;

    let md = s.metadata;
    lemma_data_phase_keys(s, frames, i, j);
    let fin = run_from(s, frames, i as nat);
    assert forall|k: int| i <= k < j implies fin.segments[#[trigger] frame_id(frames[k], md)]
        == frame_payload(frames[k], md) by {
        let x = frame_id(frames[k], md);
        assert(carries(frames, md, i, j, x));
        let w = lemma_collected_source(s.segments, frames, md, i, j, x);
        assert(w == k);
    }
    assert(fin.segments.dom() =~= Set::<u64>::range(0, s.metadata->0.segment_count));
    assert(state_ok(fin));
    lemma_complete_in_id_order(fin);
}

fn bytes_equal(a: &[u8], b: &[u8]) -> (r: bool)
    ensures
        r == (a@ == b@),
{
    if a.len() != b.len() {
        return false;
    }
    let mut i: usize = 0;
    while i < a.len()
        invariant
            i <= a@.len() == b@.len(),
            forall|k: int| 0 <= k < i ==> a@[k] == b@[k],
        decreases a.len() - i,
    {
        if a[i] != b[i] {
            return false;
        }
        i = i + 1;
    }
    assert(a@ =~= b@);
    true
}

impl Decoder {
    /// Turns the collected state into the file or a report.
    pub fn finish(&self) -> (r: Outcome)
        requires
            self.wf(),
        ensures
            r@ == outcome_of(self@),
    {
        match self.phase() {
            Phase::Failed(e) => Outcome::ProtocolError(e),
            _ => match self.metadata() {
                None => Outcome::NoTransmission,
                Some(m) => {
                    let n = m.segment_count;
                    if self.segment_len() as u64 == n {
                        proof {
                            self.lemma_state_ok();
                            lemma_full_when_count_matches(self@.segments, n);
                        }
                        let content = self.assemble(n);
                        let sum = md5(content.as_slice());
                        match self.checksum_bytes() {
                            Some(c) => {
                                if bytes_equal(sum.as_slice(), c) {
                                    return Outcome::Complete(content);
                                }
                                Outcome::ChecksumMismatch {
                                    computed: to_hex(sum.as_slice()),
                                    received: to_hex(c),
                                }
                            },
                            None => {
                                let empty: Vec<u8> = Vec::new();
                                Outcome::ChecksumMismatch {
                                    computed: to_hex(sum.as_slice()),
                                    received: to_hex(empty.as_slice()),
                                }
                            },
                        }
                    } else {
                        Outcome::Missing(self.missing(n))
                    }
                },
            },
        }
    }
}

/// Decodes a list of frames, in order, and reassembles what was collected.
pub fn reconstruct(frames: &Vec<Vec<u8>>) -> (r: Outcome)
    ensures
        r@ == reconstructed(frames_view(frames@)),
{
    let d = decode_frames(frames);
    d.finish()
}

} // verus!
