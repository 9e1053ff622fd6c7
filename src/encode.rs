//! Little-endian encoding of the words and records written into the image.
use vstd::bytes::{spec_u32_to_le_bytes, spec_u64_to_le_bytes, u32_to_le_bytes, u64_to_le_bytes};
use vstd::prelude::*;

verus! {

/// The words of `s`, each as eight little-endian bytes, one after another.
pub open spec fn le_words(s: Seq<u64>) -> Seq<u8>
    decreases s.len(),
{
    if s.len() == 0 {
        seq![]
    } else {
        le_words(s.drop_last()) + spec_u64_to_le_bytes(s.last())
    }
}

pub proof fn lemma_le_words_len(s: Seq<u64>)
    ensures
        le_words(s).len() == 8 * s.len(),
    decreases s.len(),
{
    vstd::bytes::lemma_auto_spec_u64_to_from_le_bytes();
    if s.len() > 0 {
        lemma_le_words_len(s.drop_last());
    }
}

/// Word `k` of `s` sits at bytes `8k .. 8k + 8` of its encoding.
pub proof fn lemma_le_words_index(s: Seq<u64>, k: int)
    requires
        0 <= k < s.len(),
    ensures
        le_words(s).subrange(8 * k, 8 * k + 8) == spec_u64_to_le_bytes(s[k]),
    decreases s.len(),
{
    vstd::bytes::lemma_auto_spec_u64_to_from_le_bytes();
    lemma_le_words_len(s.drop_last());
    if k == s.len() - 1 {
        assert(le_words(s).subrange(8 * k, 8 * k + 8) =~= spec_u64_to_le_bytes(s[k]));
    } else {
        lemma_le_words_index(s.drop_last(), k);
        assert(le_words(s).subrange(8 * k, 8 * k + 8) =~= le_words(s.drop_last()).subrange(
            8 * k,
            8 * k + 8,
        ));
    }
}

/// Appends `x` as eight little-endian bytes.
pub fn push_u64(buf: &mut Vec<u8>, x: u64)
    ensures
        final(buf)@ == old(buf)@ + spec_u64_to_le_bytes(x),
{
    let mut b = u64_to_le_bytes(x);
    buf.append(&mut b);
}

/// Appends `x` as four little-endian bytes.
pub fn push_u32(buf: &mut Vec<u8>, x: u32)
    ensures
        final(buf)@ == old(buf)@ + spec_u32_to_le_bytes(x),
{
    let mut b = u32_to_le_bytes(x);
    buf.append(&mut b);
}

/// Appends `n` zero bytes.
pub fn push_zeros(buf: &mut Vec<u8>, n: usize)
    ensures
        final(buf)@ == old(buf)@ + Seq::new(n as nat, |_i: int| 0u8),
{
    let ghost start = buf@;
    let mut i: usize = 0;
    while i < n
        invariant
            i <= n,
            buf@ == start + Seq::new(i as nat, |_i: int| 0u8),
        decreases n - i,
    {
        buf.push(0u8);
        i = i + 1;
        proof {
            assert(buf@ =~= start + Seq::new(i as nat, |_i: int| 0u8));
        }
    }
}

/// Encodes the words of `s` one after another.
pub fn encode_words(s: &Vec<u64>) -> (r: Vec<u8>)
    ensures
        r@ == le_words(s@),
{
    let mut out: Vec<u8> = Vec::new();
    let mut i: usize = 0;
    while i < s.len()
        invariant
            i <= s@.len(),
            out@ == le_words(s@.take(i as int)),
        decreases s@.len() - i,
    {
        push_u64(&mut out, s[i]);
        proof {
            assert(s@.take(i + 1).drop_last() =~= s@.take(i as int));
        }
        i = i + 1;
    }
    proof {
        assert(s@.take(s@.len() as int) =~= s@);
    }
    out
}

/// Appends the bytes of `b`.
pub fn push_bytes(buf: &mut Vec<u8>, b: &[u8])
    ensures
        final(buf)@ == old(buf)@ + b@,
{
    let ghost start = buf@;
    let mut i: usize = 0;
    while i < b.len()
        invariant
            i <= b@.len(),
            buf@ == start + b@.subrange(0, i as int),
        decreases b@.len() - i,
    {
        buf.push(b[i]);
        i = i + 1;
        proof {
            assert(buf@ =~= start + b@.subrange(0, i as int));
        }
    }
    proof {
        assert(b@.subrange(0, b@.len() as int) =~= b@);
    }
}

/// A copy of `b`.
pub fn copy_bytes(b: &[u8]) -> (r: Vec<u8>)
    ensures
        r@ == b@,
{
    let mut r: Vec<u8> = Vec::new();
    push_bytes(&mut r, b);
    r
}

} // verus!
