//! Transfer metadata: a JSON record with the fields `segment_count`, `id_width`
//! and `hash_length`.

use crate::primitives::{json_u64, json_u64_field};
use vstd::prelude::*;

verus! {

/// Describes the whole transmission.
#[derive(Clone, Copy, Debug, PartialEq, Eq)]
pub struct Metadata {
    /// Number of content segments.
    pub segment_count: u64,
    /// Width in bytes of the big-endian identifier at the start of a data body.
    pub id_width: u64,
    /// Number of trailing digest bytes in every frame.
    pub hash_length: u64,
}

/// Why complete metadata text could not be turned into a record.
#[derive(Clone, Copy, Debug, PartialEq, Eq)]
pub enum MetadataError {
    /// The text is not a JSON object holding the three fields as unsigned integers.
    Malformed,
    /// The identifier width is not one of 1, 2, 4 or 8.
    UnsupportedIdWidth(u64),
}

pub open spec fn supported_id_width(w: u64) -> bool {
    w == 1 || w == 2 || w == 4 || w == 8
}

/// What the accumulated metadata text describes.
pub open spec fn metadata_of(text: Seq<u8>) -> Result<Metadata, MetadataError> {
    let n = json_u64_field(text, "segment_count"@);
    let w = json_u64_field(text, "id_width"@);
    let h = json_u64_field(text, "hash_length"@);
    if n is None || w is None || h is None {
        Err(MetadataError::Malformed)
    } else if !supported_id_width(w->0) {
        Err(MetadataError::UnsupportedIdWidth(w->0))
    } else {
        Ok(Metadata { segment_count: n->0, id_width: w->0, hash_length: h->0 })
    }
}

/// Parses complete metadata text.
pub fn parse_metadata(text: &[u8]) -> (r: Result<Metadata, MetadataError>)
    ensures
        r == metadata_of(text@),
{
    let n = json_u64(text, "segment_count");
    let w = json_u64(text, "id_width");
    let h = json_u64(text, "hash_length");
    match (n, w, h) {
        (Some(n), Some(w), Some(h)) => {
            if w == 1 || w == 2 || w == 4 || w == 8 {
                Ok(Metadata { segment_count: n, id_width: w, hash_length: h })
            } else {
                Err(MetadataError::UnsupportedIdWidth(w))
            }
        },
        _ => Err(MetadataError::Malformed),
    }
}

} // verus!
