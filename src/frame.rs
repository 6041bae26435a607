//! Frames: `[tag][body][digest]`, where the digest is the BLAKE2b digest of the
//! tag and body, as long as the transfer's hash length.

use crate::metadata::Metadata;
use crate::primitives::{blake2b, blake2b_of};
use vstd::prelude::*;
use vstd::slice::{slice_subrange, slice_to_vec};

verus! {

/// Whether the last `h` bytes of `frame` are the digest, `h` bytes long, of the
/// bytes before them; at least one byte (the tag) must precede the digest.
pub open spec fn digest_matches(frame: Seq<u8>, h: nat) -> bool {
    &&& h < frame.len()
    &&& h <= 64
    &&& blake2b_of(frame.take(frame.len() - h), h) == frame.skip(frame.len() - h)
}

/// The least digest length, from `from` on, for which `frame` verifies.
pub open spec fn first_digest_len_from(frame: Seq<u8>, from: nat) -> Option<nat>
    decreases frame.len() - from,
{
    if from >= frame.len() {
        None
    } else if digest_matches(frame, from) {
        Some(from)
    } else {
        first_digest_len_from(frame, from + 1)
    }
}

/// The digest length recovered by trying every length from one up.
pub open spec fn guessed_digest_len(frame: Seq<u8>) -> Option<nat> {
    first_digest_len_from(frame, 1)
}

proof fn lemma_first_digest_len_from(frame: Seq<u8>, from: nat)
    ensures
        first_digest_len_from(frame, from) matches Some(h) ==> from <= h && digest_matches(frame, h)
            && forall|k: nat| from <= k < h ==> !#[trigger] digest_matches(frame, k),
        first_digest_len_from(frame, from) is None ==> forall|k: nat|
            from <= k < frame.len() ==> !#[trigger] digest_matches(frame, k),
    decreases frame.len() - from,
{
    if from < frame.len() && !digest_matches(frame, from) {
        lemma_first_digest_len_from(frame, from + 1);
    }
}

/// Recovering the digest length by trial finds the least length, from one up,
/// with which the frame verifies; when it finds none, no length below the
/// frame's length verifies.
pub proof fn lemma_guessed_digest_len(frame: Seq<u8>)
    ensures
        guessed_digest_len(frame) matches Some(h) ==> 1 <= h && digest_matches(frame, h)
            && forall|k: nat| 1 <= k < h ==> !#[trigger] digest_matches(frame, k),
        guessed_digest_len(frame) is None ==> forall|k: nat|
            1 <= k < frame.len() ==> !#[trigger] digest_matches(frame, k),
{
    lemma_first_digest_len_from(frame, 1);
}

/// Whether `frame` verifies with a digest of `h` bytes.
pub fn digest_ok(frame: &[u8], h: usize) -> (r: bool)
    ensures
        r == digest_matches(frame@, h as nat),
{
    if h >= frame.len() {
        return false;
    }
    let split = frame.len() - h;
    let head = slice_subrange(frame, 0, split);
    assert(head@ =~= frame@.take(split as int));
    match blake2b(head, h) {
        Some(d) => {
            let mut i: usize = 0;
            while i < h
                invariant
                    0 <= i <= h,
                    split + h == frame.len(),
                    d@.len() == h,
                    head@ == frame@.take(split as int),
                    d@ == blake2b_of(head@, h as nat),
                    forall|k: int| 0 <= k < i ==> d@[k] == frame@[split + k],
                decreases h - i,
            {
                if d[i] != frame[split + i] {
                    assert(d@[i as int] != frame@.skip(split as int)[i as int]);
                    return false;
                }
                i = i + 1;
            }
            assert(d@ =~= frame@.skip(split as int));
            assert(head@ =~= frame@.take(split as int));
            true
        },
        None => false,
    }
}

/// The digest length of a frame whose hash length is not yet known: the least
/// length from one up for which the trailing bytes are the digest of the rest.
pub fn guess_hash_len(frame: &[u8]) -> (r: Option<usize>)
    ensures
        r matches Some(h) ==> guessed_digest_len(frame@) == Some(h as nat) && 1 <= h
            < frame@.len(),
        r is None ==> guessed_digest_len(frame@) is None,
{
    let mut i: usize = 1;
    while i < frame.len()
        invariant
            1 <= i,
            first_digest_len_from(frame@, 1) == first_digest_len_from(frame@, i as nat),
        decreases frame.len() - i,
    {
        if digest_ok(frame, i) {
            return Some(i);
        }
        i = i + 1;
    }
    None
}

/// Tag of a metadata fragment, `M`.
pub const TAG_METADATA: u8 = 0x4d;

/// Tag of a content segment, `D`.
pub const TAG_DATA: u8 = 0x44;

/// Tag of the whole-file checksum, `H`.
pub const TAG_CHECKSUM: u8 = 0x48;

/// A frame that verified, by kind, with its digest stripped.
pub enum Frame {
    /// A fragment of the metadata text.
    Metadata(Vec<u8>),
    /// A content segment: its identifier and payload.
    Data(u64, Vec<u8>),
    /// The whole-file checksum.
    Checksum(Vec<u8>),
    /// A frame that does not verify, has an unknown tag, or a body that does
    /// not fit its kind.
    Rejected,
}

pub enum FrameView {
    Metadata(Seq<u8>),
    Data(u64, Seq<u8>),
    Checksum(Seq<u8>),
    Rejected,
}

impl View for Frame {
    type V = FrameView;

    open spec fn view(&self) -> FrameView {
        match self {
            Frame::Metadata(b) => FrameView::Metadata(b@),
            Frame::Data(id, p) => FrameView::Data(*id, p@),
            Frame::Checksum(c) => FrameView::Checksum(c@),
            Frame::Rejected => FrameView::Rejected,
        }
    }
}

/// The value of `s` read as a big-endian unsigned integer.
pub open spec fn be_value(s: Seq<u8>) -> nat
    decreases s.len(),
{
    if s.len() == 0 {
        0
    } else {
        be_value(s.drop_last()) * 256 + s.last() as nat
    }
}

pub open spec fn pow256(n: nat) -> nat
    decreases n,
{
    if n == 0 {
        1
    } else {
        256 * pow256((n - 1) as nat)
    }
}

proof fn lemma_be_value_bound(s: Seq<u8>)
    ensures
        be_value(s) < pow256(s.len()),
    decreases s.len(),
{
    if s.len() > 0 {
        lemma_be_value_bound(s.drop_last());
        let p = pow256((s.len() - 1) as nat);
        let v = be_value(s.drop_last());
        let b = s.last() as nat;
        assert(v * 256 + b < 256 * p) by (nonlinear_arith)
            requires
                v < p,
                b < 256,
        ;
    }
}

proof fn lemma_pow256_monotonic(a: nat, b: nat)
    requires
        a <= b,
    ensures
        pow256(a) <= pow256(b),
    decreases b - a,
{
    if a < b {
        lemma_pow256_monotonic(a, (b - 1) as nat);
    }
}

/// Reads an identifier of at most eight bytes, most significant byte first.
pub fn read_be(bytes: &[u8]) -> (r: u64)
    requires
        bytes@.len() <= 8,
    ensures
        r as nat == be_value(bytes@),
{
    let mut v: u64 = 0;
    let mut i: usize = 0;
    while i < bytes.len()
        invariant
            i <= bytes@.len() <= 8,
            v as nat == be_value(bytes@.take(i as int)),
        decreases bytes.len() - i,
    {
        let ghost prefix = bytes@.take(i as int + 1);
        assert(prefix.drop_last() =~= bytes@.take(i as int));
        proof {
            lemma_be_value_bound(prefix);
            lemma_pow256_monotonic(prefix.len(), 8);
            reveal_with_fuel(pow256, 9);
        }
        v = v * 256 + bytes[i] as u64;
        i = i + 1;
    }
    assert(bytes@.take(i as int) =~= bytes@);
    v
}

/// The digest length with which `frame` verifies: the transfer's hash length
/// once the metadata is known, else the one recovered by trial.
pub open spec fn verified_digest_len(frame: Seq<u8>, md: Option<Metadata>) -> Option<nat> {
    match md {
        Some(m) => if digest_matches(frame, m.hash_length as nat) {
            Some(m.hash_length as nat)
        } else {
            None
        },
        None => guessed_digest_len(frame),
    }
}

/// What a frame is, given the metadata known so far.
pub open spec fn classified(frame: Seq<u8>, md: Option<Metadata>) -> FrameView {
    match verified_digest_len(frame, md) {
        None => FrameView::Rejected,
        Some(h) => {
            let body = frame.subrange(1, frame.len() - h);
            let tag = frame[0];
            if tag == TAG_METADATA {
                FrameView::Metadata(body)
            } else if tag == TAG_CHECKSUM {
                FrameView::Checksum(body)
            } else if tag == TAG_DATA && md is Some && md->0.id_width <= body.len()
                && be_value(body.take(md->0.id_width as int)) < md->0.segment_count {
                FrameView::Data(
                    be_value(body.take(md->0.id_width as int)) as u64,
                    body.skip(md->0.id_width as int),
                )
            } else {
                FrameView::Rejected
            }
        },
    }
}

/// A frame is accepted only if its trailing bytes are the digest of its tag
/// and body, with the transfer's hash length once that is known.
pub proof fn lemma_accepted_frames_verify(frame: Seq<u8>, md: Option<Metadata>)
    ensures
        !(classified(frame, md) is Rejected) ==> match md {
            Some(m) => digest_matches(frame, m.hash_length as nat),
            None => guessed_digest_len(frame) matches Some(h) && digest_matches(frame, h),
        },
{
    lemma_guessed_digest_len(frame);
}

/// Verifies a frame: with the transfer's hash length once the metadata is
/// known, else with the length recovered by trial. Gives the digest length.
pub fn verified_len(frame: &[u8], md: Option<Metadata>) -> (r: Option<usize>)
    ensures
        r matches Some(h) ==> verified_digest_len(frame@, md) == Some(h as nat) && h
            < frame@.len(),
        r is None ==> verified_digest_len(frame@, md) is None,
{
    match md {
        Some(m) => {
            if m.hash_length < frame.len() as u64 && digest_ok(frame, m.hash_length as usize) {
                Some(m.hash_length as usize)
            } else {
                None
            }
        },
        None => guess_hash_len(frame),
    }
}

/// Verifies a frame and sorts it by kind. Without metadata, content segments
/// cannot be read and are rejected; with it, a segment whose identifier is not
/// below the segment count is rejected.
pub fn classify(frame: &[u8], md: Option<Metadata>) -> (r: Frame)
    requires
        md matches Some(m) ==> m.id_width <= 8,
    ensures
        r@ == classified(frame@, md),
{
    let h = match verified_len(frame, md) {
        Some(h) => h,
        None => return Frame::Rejected,
    };
    let body = slice_subrange(frame, 1, frame.len() - h);
    let tag = frame[0];
    if tag == TAG_METADATA {
        Frame::Metadata(slice_to_vec(body))
    } else if tag == TAG_CHECKSUM {
        Frame::Checksum(slice_to_vec(body))
    } else if tag == TAG_DATA {
        match md {
            Some(m) => {
                let w = m.id_width as usize;
                if w > body.len() {
                    return Frame::Rejected;
                }
                let id_bytes = slice_subrange(body, 0, w);
                assert(id_bytes@ =~= body@.take(w as int));
                let id = read_be(id_bytes);
                if id >= m.segment_count {
                    return Frame::Rejected;
                }
                let payload = slice_subrange(body, w, body.len());
                assert(payload@ =~= body@.skip(w as int));
                Frame::Data(id, slice_to_vec(payload))
            },
            None => Frame::Rejected,
        }
    } else {
        Frame::Rejected
    }
}

} // verus!
