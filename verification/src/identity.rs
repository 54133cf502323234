use sha2::{Digest, Sha256};
use vstd::prelude::*;
use vstd::utf8::encode_utf8;
use crate::lexical::texts;
use crate::render::{hex_lower, hex_text, digest_text_shaped, lemma_hex_text_shape};

verus! {

/// What SHA-256 gives for `data`.
pub uninterp spec fn sha256_of(data: Seq<u8>) -> Seq<u8>;

/// Calls `sha2::Sha256::digest`. Trusted: the digest it returns is `sha256_of` of the
/// bytes hashed, and a SHA-256 digest is 32 bytes long.
#[verifier::external_body]
fn sha256(data: &[u8]) -> (d: Vec<u8>)
    ensures
        d@ == sha256_of(data@),
        d@.len() == 32,
{
    Sha256::digest(data).to_vec()
}

/// Big-endian bytes of a `u32`.
pub open spec fn be32(n: u32) -> Seq<u8> {
    seq![
        (n / 0x100_0000) as u8,
        ((n / 0x1_0000) % 0x100) as u8,
        ((n / 0x100) % 0x100) as u8,
        (n % 0x100) as u8,
    ]
}

/// Big-endian bytes of a `u64`.
pub open spec fn be64(n: u64) -> Seq<u8> {
    be32((n / 0x1_0000_0000) as u32) + be32((n % 0x1_0000_0000) as u32)
}

/// A text as its UTF-8 byte length (big-endian `u64`) followed by its bytes.
pub open spec fn framed(t: Seq<char>) -> Seq<u8> {
    be64(encode_utf8(t).len() as u64) + encode_utf8(t)
}

/// The framed parent ids, in order.
pub open spec fn framed_all(ts: Seq<Seq<char>>) -> Seq<u8>
    decreases ts.len(),
{
    if ts.len() == 0 {
        Seq::empty()
    } else {
        framed_all(ts.drop_last()) + framed(ts.last())
    }
}

/// Domain-separation tag that starts every block preimage.
pub open spec fn block_tag() -> Seq<u8> {
    encode_utf8("mysticeti-twin:block:v1\0"@)
}

/// The bytes hashed to identify a block.
pub open spec fn block_preimage(author: Seq<char>, round: u32, slot: u32, variant: u32, parents: Seq<Seq<char>>) -> Seq<u8> {
    block_tag() + framed(author) + be32(round) + be32(slot) + be32(variant) + framed_all(parents)
}

/// Canonical block id: lowercase hex of the SHA-256 of the block preimage.
#[verifier::opaque]
pub open spec fn block_id_text(author: Seq<char>, round: u32, slot: u32, variant: u32, parents: Seq<Seq<char>>) -> Seq<char> {
    hex_text(sha256_of(block_preimage(author, round, slot, variant, parents)))
}

fn push_bytes(v: &mut Vec<u8>, b: &[u8])
    ensures
        final(v)@ == old(v)@ + b@,
{
    let mut i: usize = 0;
    while i < b.len()
        invariant
            i <= b@.len(),
            v@ == old(v)@ + b@.subrange(0, i as int),
        decreases b@.len() - i,
    {
        v.push(b[i]);
        proof {
            assert(b@.subrange(0, i as int + 1) =~= b@.subrange(0, i as int).push(b@[i as int]));
        }
        i = i + 1;
    }
    proof {
        assert(b@.subrange(0, b@.len() as int) =~= b@);
    }
}

fn push_be32(v: &mut Vec<u8>, n: u32)
    ensures
        final(v)@ == old(v)@ + be32(n),
{
    v.push((n / 0x100_0000) as u8);
    v.push(((n / 0x1_0000) % 0x100) as u8);
    v.push(((n / 0x100) % 0x100) as u8);
    v.push((n % 0x100) as u8);
    proof {
        assert(final(v)@ =~= old(v)@ + be32(n));
    }
}

fn push_be64(v: &mut Vec<u8>, n: u64)
    ensures
        final(v)@ == old(v)@ + be64(n),
{
    push_be32(v, (n / 0x1_0000_0000) as u32);
    push_be32(v, (n % 0x1_0000_0000) as u32);
    proof {
        assert(final(v)@ =~= old(v)@ + be64(n));
    }
}

fn push_framed(v: &mut Vec<u8>, t: &str)
    ensures
        final(v)@ == old(v)@ + framed(t@),
{
    let bytes = t.as_bytes();
    push_be64(v, bytes.len() as u64);
    push_bytes(v, bytes);
    proof {
        assert(final(v)@ =~= old(v)@ + framed(t@));
    }
}

/// The preimage bytes of a block with these fields.
pub fn preimage_bytes(author: &str, round: u32, slot: u32, variant: u32, parents: &[String]) -> (v: Vec<u8>)
    ensures
        v@ == block_preimage(author@, round, slot, variant, texts(parents@)),
{
    let mut v: Vec<u8> = Vec::new();
    let tag = "mysticeti-twin:block:v1\0";
    push_bytes(&mut v, tag.as_bytes());
    push_framed(&mut v, author);
    push_be32(&mut v, round);
    push_be32(&mut v, slot);
    push_be32(&mut v, variant);
    let ghost head = v@;
    let mut i: usize = 0;
    while i < parents.len()
        invariant
            i <= parents@.len(),
            v@ == head + framed_all(texts(parents@).subrange(0, i as int)),
        decreases parents@.len() - i,
    {
        push_framed(&mut v, parents[i].as_str());
        proof {
            let ts = texts(parents@).subrange(0, i as int + 1);
            assert(ts.drop_last() =~= texts(parents@).subrange(0, i as int));
            assert(ts.last() == parents@[i as int]@);
        }
        i = i + 1;
    }
    proof {
        assert(texts(parents@).subrange(0, parents@.len() as int) =~= texts(parents@));
        assert(v@ =~= block_preimage(author@, round, slot, variant, texts(parents@)));
    }
    v
}

/// Canonical id text for the given block fields.
pub fn block_id_for(author: &str, round: u32, slot: u32, variant: u32, parents: &[String]) -> (id: String)
    ensures
        id@ == block_id_text(author@, round, slot, variant, texts(parents@)),
        digest_text_shaped(id@),
{
    let pre = preimage_bytes(author, round, slot, variant, parents);
    let digest = sha256(pre.as_slice());
    let id = hex_lower(digest.as_slice());
    proof {
        reveal(block_id_text);
        lemma_hex_text_shape(digest@);
    }
    id
}

} // verus!
