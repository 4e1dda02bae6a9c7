//! The per-node Merkle hash: (kind id, label, child hashes in order).
//!
//! Spans are deliberately excluded so the hash is position-independent:
//! identical code at different places (or in different trees) collides,
//! which is exactly what anchoring the diff on unique equal subtrees
//! needs.

use std::hash::{DefaultHasher, Hasher};

use vstd::prelude::*;
use vstd::std_specs::hash::DefaultHasherAdditionalSpecFns;
use vstd::utf8::encode_utf8;
use vstd::string::StringSliceAdditionalSpecFns;

use crate::text::opt_view;

verus! {

/// A `u16` as two little-endian bytes.
pub open spec fn u16_bytes(x: u16) -> Seq<u8> {
    seq![(x & 0xff) as u8, (x >> 8u16) as u8]
}

/// A `u64` as eight little-endian bytes.
pub open spec fn u64_bytes(x: u64) -> Seq<u8> {
    seq![
        (x & 0xff) as u8,
        ((x >> 8u64) & 0xff) as u8,
        ((x >> 16u64) & 0xff) as u8,
        ((x >> 24u64) & 0xff) as u8,
        ((x >> 32u64) & 0xff) as u8,
        ((x >> 40u64) & 0xff) as u8,
        ((x >> 48u64) & 0xff) as u8,
        ((x >> 56u64) & 0xff) as u8,
    ]
}

/// The writes that feed a label to the hasher: a presence tag, then the
/// label's UTF-8 bytes.
pub open spec fn label_writes(label: Option<Seq<char>>) -> Seq<Seq<u8>> {
    match label {
        Some(text) => seq![seq![1u8], encode_utf8(text)],
        None => seq![seq![0u8]],
    }
}

/// The writes a node's (kind id, label, child hashes) triple makes.
pub open spec fn digest_input(kind_id: u16, label: Option<Seq<char>>, child_hashes: Seq<u64>) -> Seq<Seq<u8>> {
    seq![u16_bytes(kind_id)] + label_writes(label) + child_hashes.map_values(|h: u64| u64_bytes(h))
}

/// A node's hash: std's `DefaultHasher` digest of its triple.
pub open spec fn node_hash(kind_id: u16, label: Option<Seq<char>>, child_hashes: Seq<u64>) -> u64 {
    DefaultHasher::spec_finish(digest_input(kind_id, label, child_hashes))
}

fn u64_le(x: u64) -> (r: Vec<u8>)
    ensures
        r@ == u64_bytes(x),
{
    let mut v: Vec<u8> = Vec::new();
    v.push((x & 0xff) as u8);
    v.push(((x >> 8u64) & 0xff) as u8);
    v.push(((x >> 16u64) & 0xff) as u8);
    v.push(((x >> 24u64) & 0xff) as u8);
    v.push(((x >> 32u64) & 0xff) as u8);
    v.push(((x >> 40u64) & 0xff) as u8);
    v.push(((x >> 48u64) & 0xff) as u8);
    v.push(((x >> 56u64) & 0xff) as u8);
    proof {
        assert(v@ =~= u64_bytes(x));
    }
    v
}

/// Digests one node from its kind id, label, and children's hashes.
pub(crate) fn hash_node(kind_id: u16, label: Option<&str>, child_hashes: &[u64]) -> (r: u64)
    ensures
        r == node_hash(kind_id, opt_view(label), child_hashes@),
{
    let mut hasher = DefaultHasher::new();
    let mut kind: Vec<u8> = Vec::new();
    kind.push((kind_id & 0xff) as u8);
    kind.push((kind_id >> 8u16) as u8);
    hasher.write(kind.as_slice());
    proof {
        assert(kind@ =~= u16_bytes(kind_id));
    }
    match label {
        Some(text) => {
            let mut tag: Vec<u8> = Vec::new();
            tag.push(1u8);
            hasher.write(tag.as_slice());
            hasher.write(text.as_bytes());
            proof {
                assert(tag@ =~= seq![1u8]);
            }
        },
        None => {
            let mut tag: Vec<u8> = Vec::new();
            tag.push(0u8);
            hasher.write(tag.as_slice());
            proof {
                assert(tag@ =~= seq![0u8]);
            }
        },
    }
    let ghost head = hasher@;
    proof {
        assert(head =~= seq![u16_bytes(kind_id)] + label_writes(opt_view(label)));
    }
    let mut k: usize = 0;
    while k < child_hashes.len()
        invariant
            k <= child_hashes@.len(),
            hasher@ == head + child_hashes@.subrange(0, k as int).map_values(|h: u64| u64_bytes(h)),
        decreases child_hashes@.len() - k,
    {
        let bytes = u64_le(child_hashes[k]);
        hasher.write(bytes.as_slice());
        proof {
            assert(child_hashes@.subrange(0, k + 1).map_values(|h: u64| u64_bytes(h)) =~= child_hashes@.subrange(0, k as int).map_values(|h: u64| u64_bytes(h)).push(u64_bytes(child_hashes@[k as int])));
        }
        k = k + 1;
    }
    proof {
        assert(child_hashes@.subrange(0, k as int) =~= child_hashes@);
    }
    hasher.finish()
}

} // verus!
