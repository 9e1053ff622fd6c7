//! Physical memory regions, their decomposition into untyped-sized pieces,
//! and the ordered set of disjoint regions used for allocation.
use crate::elf::ElfFile;
use crate::encode::{push_u64, push_zeros};
use crate::sel4::{Config, PageSize};
use crate::util::{lemma_lsb_divides, lemma_msb_bounds, lemma_pow2_divides, lemma_pow2_le, lsb, lsb_nat, msb, msb_nat, round_up_spec, lemma_round_up_aligned};
use vstd::arithmetic::power2::*;
use vstd::bytes::spec_u64_to_le_bytes;
use vstd::prelude::*;

verus! {

/// A half-open range `[base, end)` of physical addresses.
#[derive(Debug, Clone, Copy, PartialEq, Eq, Structural)]
pub struct MemoryRegion {
    pub base: u64,
    pub end: u64,
}

/// Number of bits of the next piece that the kernel carves at kernel-virtual
/// address `kv`, with `dist` bytes left before the end and at most `max_bits`.
pub open spec fn piece_bits(kv: u64, dist: nat, max_bits: nat) -> nat {
    let by_size = msb_nat(dist);
    let b = if kv == 0 {
        by_size
    } else if lsb_nat(kv as nat) < by_size {
        lsb_nat(kv as nat)
    } else {
        by_size
    };
    if b > max_bits {
        max_bits
    } else {
        b
    }
}

/// The pieces of `[cur, end)` in the order the kernel carves them: each is
/// the largest power of two, at most `2^max_bits`, that is aligned at its
/// kernel-virtual base (`cur + offset`, wrapping) and fits before `end`.
pub open spec fn decompose(cur: u64, end: u64, offset: u64, max_bits: nat) -> Seq<MemoryRegion>
    decreases end - cur,
{
    if cur >= end {
        seq![]
    } else {
        let kv = vstd::wrapping::u64_specs::wrapping_add(cur, offset);
        let sz = pow2(piece_bits(kv, (end - cur) as nat, max_bits));
        proof {
            lemma_piece_fits(kv, (end - cur) as nat, max_bits);
        }
        seq![MemoryRegion { base: cur, end: (cur + sz) as u64 }] + decompose(
            (cur + sz) as u64,
            end,
            offset,
            max_bits,
        )
    }
}

/// A piece is never empty and never longer than what is left.
pub proof fn lemma_piece_fits(kv: u64, dist: nat, max_bits: nat)
    requires
        dist > 0,
    ensures
        0 < pow2(piece_bits(kv, dist, max_bits)) <= dist,
        piece_bits(kv, dist, max_bits) <= max_bits,
        kv != 0 ==> (kv as nat) % pow2(piece_bits(kv, dist, max_bits)) == 0,
{
    let b = piece_bits(kv, dist, max_bits);
    lemma_msb_bounds(dist);
    lemma_pow2_pos(b);
    lemma_pow2_le(b, msb_nat(dist));
    if kv != 0 {
        lemma_lsb_divides(kv as nat);
        lemma_pow2_divides(kv as nat, b, lsb_nat(kv as nat));
    }
}

/// A piece of the decomposition: `2^k` bytes for some `k <= max_bits`, aligned
/// to `2^k` at its kernel-virtual base.
pub open spec fn is_aligned_piece(r: MemoryRegion, offset: u64, max_bits: nat) -> bool {
    exists|k: nat|
        k <= max_bits && r.end - r.base == pow2(k) && (vstd::wrapping::u64_specs::wrapping_add(
            r.base,
            offset,
        ) as nat) % pow2(k) == 0
}

/// Some piece holds address `a`.
pub open spec fn covered_by(rs: Seq<MemoryRegion>, a: int) -> bool {
    exists|i: int| 0 <= i < rs.len() && (#[trigger] rs[i]).base <= a < rs[i].end
}

/// The decomposition partitions `[cur, end)`: the pieces follow one another
/// without gap or overlap from `cur` to `end`, their union is the input, and each
/// is a power of two of at most `2^max_bits` bytes, aligned to its own size in
/// kernel-virtual space (so in physical space too when the offset is aligned).
pub proof fn lemma_decompose_partitions(cur: u64, end: u64, offset: u64, max_bits: nat)
    requires
        cur <= end,
    ensures
        ({
            let r = decompose(cur, end, offset, max_bits);
            &&& (r.len() == 0 <==> cur == end)
            &&& r.len() > 0 ==> r[0].base == cur && r[r.len() - 1].end == end
            &&& forall|i: int| 0 <= i < r.len() - 1 ==> (#[trigger] r[i]).end == r[i + 1].base
            &&& forall|i: int, j: int| 0 <= i < j < r.len() ==> (#[trigger] r[i]).end <= (#[trigger] r[j]).base
            &&& forall|i: int| 0 <= i < r.len() ==> cur <= (#[trigger] r[i]).base < r[i].end <= end
            &&& forall|i: int| 0 <= i < r.len() ==> is_aligned_piece(#[trigger] r[i], offset, max_bits)
            &&& forall|a: int| cur <= a < end <==> covered_by(r, a)
        }),
    decreases end - cur,
{
    let r = decompose(cur, end, offset, max_bits);
    if cur < end {
        let kv = vstd::wrapping::u64_specs::wrapping_add(cur, offset);
        let k = piece_bits(kv, (end - cur) as nat, max_bits);
        let sz = pow2(k);
        lemma_piece_fits(kv, (end - cur) as nat, max_bits);
        let next = (cur + sz) as u64;
        lemma_decompose_partitions(next, end, offset, max_bits);
        let rest = decompose(next, end, offset, max_bits);
        let head = MemoryRegion { base: cur, end: next };
        assert(r == seq![head] + rest);
        assert(r[0] == head);
        assert forall|i: int| 0 < i < r.len() implies r[i] == rest[i - 1] by {}
        assert(is_aligned_piece(head, offset, max_bits)) by {
            if kv == 0 {
                vstd::arithmetic::power2::lemma_pow2_pos(k);
                vstd::arithmetic::div_mod::lemma_small_mod(0, sz);
            }
        }
        assert forall|i: int| 0 <= i < r.len() - 1 implies (#[trigger] r[i]).end == r[i + 1].base by {
            if i > 0 {
                assert(r[i] == rest[i - 1]);
                assert(r[i + 1] == rest[i]);
            }
        }
        assert forall|i: int, j: int| 0 <= i < j < r.len() implies (#[trigger] r[i]).end <= (#[trigger] r[j]).base by {
            assert(r[j] == rest[j - 1]);
            if i > 0 {
                assert(r[i] == rest[i - 1]);
            }
        }
        assert forall|i: int| 0 <= i < r.len() implies is_aligned_piece(#[trigger] r[i], offset, max_bits) by {
            if i > 0 {
                assert(r[i] == rest[i - 1]);
            }
        }
        assert forall|a: int| cur <= a < end <==> covered_by(r, a) by {
            if cur <= a < end {
                if a < next {
                    assert(r[0].base <= a < r[0].end);
                } else {
                    assert(covered_by(rest, a));
                    let j = choose|j: int| 0 <= j < rest.len() && (#[trigger] rest[j]).base <= a < rest[j].end;
                    assert(r[j + 1] == rest[j]);
                }
            }
            if covered_by(r, a) {
                let i = choose|i: int| 0 <= i < r.len() && (#[trigger] r[i]).base <= a < r[i].end;
                if i > 0 {
                    assert(r[i] == rest[i - 1]);
                }
            }
        }
    } else {
        assert forall|a: int| cur <= a < end <==> covered_by(r, a) by {}
    }
}

/// Alignment carries over from kernel-virtual to physical addresses when
/// the offset between them is itself aligned.
proof fn lemma_physically_aligned(p: u64, offset: u64, k: nat)
    requires
        k <= 64,
        (vstd::wrapping::u64_specs::wrapping_add(p, offset) as nat) % pow2(k) == 0,
        (offset as nat) % pow2(k) == 0,
    ensures
        (p as nat) % pow2(k) == 0,
{
    let m = pow2(k) as int;
    lemma_pow2_pos(k);
    let kv = vstd::wrapping::u64_specs::wrapping_add(p, offset) as int;
    vstd::arithmetic::div_mod::lemma_fundamental_div_mod(kv, m);
    vstd::arithmetic::div_mod::lemma_fundamental_div_mod(offset as int, m);
    let a = kv / m;
    let b = offset as int / m;
    lemma2_to64_rest();
    let w = pow2(64) as int;
    lemma_pow2_divides(pow2(64), k, 64);
    vstd::arithmetic::div_mod::lemma_mod_self_0(w);
    vstd::arithmetic::div_mod::lemma_fundamental_div_mod(w, m);
    let c = w / m;
    if p + offset <= u64::MAX {
        assert(p == (a - b) * m) by (nonlinear_arith)
            requires
                kv == m * a,
                offset == m * b,
                kv == p + offset,
        ;
        vstd::arithmetic::div_mod::lemma_mod_multiples_basic(a - b, m);
    } else {
        assert(p == (a - b + c) * m) by (nonlinear_arith)
            requires
                kv == m * a,
                offset == m * b,
                w == m * c,
                kv == p + offset - w,
        ;
        vstd::arithmetic::div_mod::lemma_mod_multiples_basic(a - b + c, m);
    }
}

/// When the kernel-virtual offset is a multiple of `2^max_bits` (as with the
/// identity mapping), every piece of the decomposition is also aligned to its
/// own size in physical addresses.
pub proof fn lemma_decompose_physically_aligned(cur: u64, end: u64, offset: u64, max_bits: nat)
    requires
        cur <= end,
        max_bits < 64,
        (offset as nat) % pow2(max_bits) == 0,
    ensures
        forall|i: int|
            0 <= i < decompose(cur, end, offset, max_bits).len() ==> exists|k: nat|
                k <= max_bits && (#[trigger] decompose(cur, end, offset, max_bits)[i]).end
                    - decompose(cur, end, offset, max_bits)[i].base == pow2(k) && (decompose(
                    cur,
                    end,
                    offset,
                    max_bits,
                )[i].base as nat) % pow2(k) == 0,
{
    lemma_decompose_partitions(cur, end, offset, max_bits);
    let r = decompose(cur, end, offset, max_bits);
    assert forall|i: int| 0 <= i < r.len() implies exists|k: nat|
        k <= max_bits && (#[trigger] r[i]).end - r[i].base == pow2(k) && (r[i].base as nat) % pow2(k) == 0 by {
        assert(is_aligned_piece(r[i], offset, max_bits));
        let k = choose|k: nat|
            k <= max_bits && r[i].end - r[i].base == pow2(k) && (vstd::wrapping::u64_specs::wrapping_add(
                r[i].base,
                offset,
            ) as nat) % pow2(k) == 0;
        lemma_pow2_divides(offset as nat, k, max_bits);
        lemma_physically_aligned(r[i].base, offset, k);
    }
}

impl MemoryRegion {
    pub fn new(base: u64, end: u64) -> (r: MemoryRegion)
        ensures
            r == (MemoryRegion { base, end }),
    {
        MemoryRegion { base, end }
    }

    pub fn size(&self) -> (r: u64)
        requires
            self.base <= self.end,
        ensures
            r == self.end - self.base,
    {
        self.end - self.base
    }

    /// Splits the region into the aligned power-of-two pieces that the kernel
    /// derives at boot. The kernel works on kernel-virtual addresses, which may
    /// wrap around 2^64; so does this computation.
    pub fn aligned_power_of_two_regions(&self, config: &Config, max_bits: u64) -> (r: Vec<
        MemoryRegion,
    >)
        requires
            self.base <= self.end,
            max_bits < 64,
        ensures
            r@ == decompose(self.base, self.end, config.kernel_vaddr_offset, max_bits as nat),
    {
        let mut regions: Vec<MemoryRegion> = Vec::new();
        let mut base = config.paddr_to_kernel_vaddr(self.base);
        let end = config.paddr_to_kernel_vaddr(self.end);
        let ghost off = config.kernel_vaddr_offset;
        let ghost mut cur: u64 = self.base;
        while base != end
            invariant
                self.base <= cur <= self.end,
                base == config.to_kvaddr(cur),
                end == config.to_kvaddr(self.end),
                max_bits < 64,
                off == config.kernel_vaddr_offset,
                decompose(self.base, self.end, off, max_bits as nat) == regions@ + decompose(
                    cur,
                    self.end,
                    off,
                    max_bits as nat,
                ),
            decreases self.end - cur,
        {
            let size = end.wrapping_sub(base);
            proof {
                assert(size == self.end - cur);
            }
            let size_bits = msb(size);
            let mut bits: u64;
            if base == 0 {
                bits = size_bits;
            } else {
                let low = lsb(base);
                bits = if low < size_bits {
                    low
                } else {
                    size_bits
                };
            }
            if bits > max_bits {
                bits = max_bits;
            }
            proof {
                assert(bits == piece_bits(base, (self.end - cur) as nat, max_bits as nat));
                lemma_piece_fits(base, (self.end - cur) as nat, max_bits as nat);
                vstd::bits::lemma_u64_pow2_no_overflow(bits as nat);
                vstd::bits::lemma_u64_shl_is_mul(1, bits);
            }
            let sz: u64 = 1u64 << bits;
            let base_paddr = config.kernel_vaddr_to_paddr(base);
            let end_paddr = config.kernel_vaddr_to_paddr(base.wrapping_add(sz));
            proof {
                assert(base_paddr == cur);
                assert(end_paddr == cur + sz);
                assert(sz == pow2(bits as nat));
                assert(cur < self.end);
                assert(vstd::wrapping::u64_specs::wrapping_add(cur, off) == base);
                assert(decompose(cur, self.end, off, max_bits as nat) == seq![MemoryRegion { base: cur, end: (cur + sz) as u64 }] + decompose(
                    (cur + sz) as u64,
                    self.end,
                    off,
                    max_bits as nat,
                ));
            }
            let ghost prev = regions@;
            regions.push(MemoryRegion::new(base_paddr, end_paddr));
            base = base.wrapping_add(sz);
            proof {
                let rest = decompose((cur + sz) as u64, self.end, off, max_bits as nat);
                assert(prev + (seq![MemoryRegion { base: cur, end: (cur + sz) as u64 }] + rest)
                    =~= regions@ + rest);
                cur = (cur + sz) as u64;
            }
        }
        proof {
            assert(cur == self.end);
            assert(decompose(cur, self.end, off, max_bits as nat) =~= seq![]);
            assert(regions@ + seq![] =~= regions@);
        }
        regions
    }
}

/// Regions strictly ascending, each non-empty, with a gap between any two:
/// touching regions are always merged.
pub open spec fn disjoint_sorted(rs: Seq<MemoryRegion>) -> bool {
    &&& forall|i: int| 0 <= i < rs.len() ==> (#[trigger] rs[i]).base < rs[i].end
    &&& forall|i: int, j: int| 0 <= i < j < rs.len() ==> (#[trigger] rs[i]).end < (#[trigger] rs[j]).base
}

/// An ordered set of disjoint physical regions.
#[derive(Debug, Clone)]
pub struct DisjointMemoryRegion {
    pub regions: Vec<MemoryRegion>,
}

impl Default for DisjointMemoryRegion {
    fn default() -> (r: Self)
        ensures
            r.regions@.len() == 0,
    {
        DisjointMemoryRegion { regions: Vec::new() }
    }
}

/// Shape of the result of an insertion: the regions wholly below the new span,
/// one region merging the span with every region it touches, then the regions
/// wholly above it.
proof fn lemma_insert_shape(rs: Seq<MemoryRegion>, i: int, j: int, base: u64, end: u64)
    requires
        disjoint_sorted(rs),
        base < end,
        0 <= i <= j <= rs.len(),
        forall|k: int| 0 <= k < i ==> (#[trigger] rs[k]).end < base,
        i < rs.len() ==> rs[i].end >= base,
        forall|k: int| i <= k < j ==> (#[trigger] rs[k]).base <= end,
        j < rs.len() ==> rs[j].base > end,
    ensures
        ({
            let nb = if j > i && rs[i].base < base { rs[i].base } else { base };
            let ne = if j > i && rs[j - 1].end > end { rs[j - 1].end } else { end };
            let out = rs.take(i).push(MemoryRegion { base: nb, end: ne }) + rs.skip(j);
            &&& disjoint_sorted(out)
            &&& forall|a: int| covered_by(out, a) <==> (covered_by(rs, a) || base <= a < end)
        }),
{
    let nb = if j > i && rs[i].base < base { rs[i].base } else { base };
    let ne = if j > i && rs[j - 1].end > end { rs[j - 1].end } else { end };
    let m = MemoryRegion { base: nb, end: ne };
    let out = rs.take(i).push(m) + rs.skip(j);
    assert(out.len() == i + 1 + rs.len() - j);
    assert forall|k: int| 0 <= k < out.len() implies #[trigger] out[k] == (if k < i {
        rs[k]
    } else if k == i {
        m
    } else {
        rs[k - i - 1 + j]
    }) by {}
    assert forall|k: int| i <= k < j implies nb <= (#[trigger] rs[k]).base && rs[k].end <= ne by {
        if k > i {
            assert(rs[i].end < rs[k].base);
        }
        if k < j - 1 {
            assert(rs[k].end < rs[j - 1].base);
        }
    }
    assert(disjoint_sorted(out)) by {
        assert forall|p: int, q: int| 0 <= p < q < out.len() implies (#[trigger] out[p]).end < (#[trigger] out[q]).base by {
            if p < i && q == i {
                if j > i {
                    assert(rs[p].end < rs[i].base);
                }
            } else if p == i && q > i {
                let k = q - i - 1 + j;
                if j > i {
                    assert(rs[j - 1].end < rs[k].base);
                }
            } else if p < i && q > i {
                assert(rs[p].end < rs[q - i - 1 + j].base);
            } else if p > i {
                assert(rs[p - i - 1 + j].end < rs[q - i - 1 + j].base);
            }
        }
    }
    assert forall|a: int| covered_by(out, a) <==> (covered_by(rs, a) || base <= a < end) by {
        if covered_by(out, a) {
            let p = choose|p: int| 0 <= p < out.len() && (#[trigger] out[p]).base <= a < out[p].end;
            if p < i {
                assert(rs[p].base <= a < rs[p].end);
            } else if p > i {
                assert(rs[p - i - 1 + j].base <= a < rs[p - i - 1 + j].end);
            } else if a < base {
                assert(rs[i].base <= a < rs[i].end);
            } else if a >= end {
                assert(rs[j - 1].base <= a < rs[j - 1].end);
            }
        }
        if base <= a < end {
            assert(out[i].base <= a < out[i].end);
        }
        if covered_by(rs, a) {
            let k = choose|k: int| 0 <= k < rs.len() && (#[trigger] rs[k]).base <= a < rs[k].end;
            if k < i {
                assert(out[k] == rs[k]);
            } else if k >= j {
                assert(out[k - j + i + 1] == rs[k]);
            } else {
                assert(out[i].base <= a < out[i].end);
            }
        }
    }
}

impl DisjointMemoryRegion {
    pub open spec fn wf(&self) -> bool {
        disjoint_sorted(self.regions@)
    }

    /// Address `a` lies in one of the regions.
    pub open spec fn covers(&self, a: int) -> bool {
        covered_by(self.regions@, a)
    }

    /// Adds `[base, end)` to the set, merging it with every region that it
    /// overlaps or touches.
    pub fn insert_region(&mut self, base: u64, end: u64)
        requires
            old(self).wf(),
            base < end,
        ensures
            final(self).wf(),
            forall|a: int| final(self).covers(a) <==> (old(self).covers(a) || base <= a < end),
    {
        let n = self.regions.len();
        let mut out: Vec<MemoryRegion> = Vec::new();
        let mut i: usize = 0;
        while i < n && self.regions[i].end < base
            invariant
                n == self.regions@.len(),
                i <= n,
                out@ == self.regions@.take(i as int),
                forall|k: int| 0 <= k < i ==> (#[trigger] self.regions@[k]).end < base,
            decreases n - i,
        {
            out.push(self.regions[i]);
            i = i + 1;
            proof {
                assert(out@ =~= self.regions@.take(i as int));
            }
        }
        let mut nb = base;
        let mut ne = end;
        let mut j: usize = i;
        while j < n && self.regions[j].base <= end
            invariant
                n == self.regions@.len(),
                i <= j <= n,
                forall|k: int| i <= k < j ==> (#[trigger] self.regions@[k]).base <= end,
                nb == (if j > i && self.regions@[i as int].base < base {
                    self.regions@[i as int].base
                } else {
                    base
                }),
                ne == (if j > i && self.regions@[j - 1].end > end {
                    self.regions@[j - 1].end
                } else {
                    end
                }),
            decreases n - j,
        {
            if j == i && self.regions[j].base < base {
                nb = self.regions[j].base;
            }
            ne = if self.regions[j].end > end {
                self.regions[j].end
            } else {
                end
            };
            j = j + 1;
        }
        out.push(MemoryRegion::new(nb, ne));
        let ghost mid = out@;
        let mut k: usize = j;
        while k < n
            invariant
                n == self.regions@.len(),
                j <= k <= n,
                out@ == mid + self.regions@.subrange(j as int, k as int),
            decreases n - k,
        {
            out.push(self.regions[k]);
            k = k + 1;
            proof {
                assert(out@ =~= mid + self.regions@.subrange(j as int, k as int));
            }
        }
        let ghost before = self.regions@;
        proof {
            assert(before == old(self).regions@);
            lemma_insert_shape(before, i as int, j as int, base, end);
            assert(out@ =~= before.take(i as int).push(MemoryRegion { base: nb, end: ne })
                + before.skip(j as int));
        }
        self.regions = out;
        proof {
            let o = before.take(i as int).push(MemoryRegion { base: nb, end: ne }) + before.skip(j as int);
            assert(self.regions@ == o);
            assert(disjoint_sorted(o));
            assert forall|a: int| self.covers(a) <==> (old(self).covers(a) || base <= a < end) by {
                assert(covered_by(o, a) <==> (covered_by(before, a) || base <= a < end));
            }
        }
    }
}


/// What stays of region `r` once `[base, end)` is taken out of it.
pub open spec fn remainder(r: MemoryRegion, base: u64, end: u64) -> Seq<MemoryRegion> {
    let low = if r.base < base { seq![MemoryRegion { base: r.base, end: base }] } else { seq![] };
    let high = if end < r.end { seq![MemoryRegion { base: end, end: r.end }] } else { seq![] };
    low + high
}

/// Taking a non-empty span out of the region that holds it keeps the set
/// disjoint and sorted, and uncovers exactly that span.
proof fn lemma_remove_shape(rs: Seq<MemoryRegion>, idx: int, base: u64, end: u64)
    requires
        disjoint_sorted(rs),
        0 <= idx < rs.len(),
        rs[idx].base <= base < end <= rs[idx].end,
    ensures
        ({
            let out = rs.take(idx) + remainder(rs[idx], base, end) + rs.skip(idx + 1);
            &&& disjoint_sorted(out)
            &&& forall|a: int| covered_by(out, a) <==> (covered_by(rs, a) && !(base <= a < end))
        }),
{
    let r = rs[idx];
    let mid = remainder(r, base, end);
    let out = rs.take(idx) + mid + rs.skip(idx + 1);
    let m = mid.len() as int;
    assert(out.len() == rs.len() - 1 + m);
    assert forall|k: int| 0 <= k < out.len() implies #[trigger] out[k] == (if k < idx {
        rs[k]
    } else if k < idx + m {
        mid[k - idx]
    } else {
        rs[k - m + 1]
    }) by {}
    assert forall|k: int| 0 <= k < m implies r.base <= (#[trigger] mid[k]).base && mid[k].base < mid[k].end
        <= r.end by {}
    assert(disjoint_sorted(out)) by {
        assert forall|p: int, q: int| 0 <= p < q < out.len() implies (#[trigger] out[p]).end < (#[trigger] out[q]).base by {
            if q < idx {
            } else if p < idx && q < idx + m {
                assert(rs[p].end < r.base);
            } else if p < idx {
                assert(rs[p].end < rs[q - m + 1].base);
            } else if p < idx + m && q < idx + m {
                assert(m == 2 && p == idx && q == idx + 1);
            } else if p < idx + m {
                assert(r.end < rs[q - m + 1].base);
            } else {
                assert(rs[p - m + 1].end < rs[q - m + 1].base);
            }
        }
    }
    assert forall|a: int| covered_by(out, a) <==> (covered_by(rs, a) && !(base <= a < end)) by {
        if covered_by(out, a) {
            let p = choose|p: int| 0 <= p < out.len() && (#[trigger] out[p]).base <= a < out[p].end;
            if p < idx {
                assert(rs[p].base <= a < rs[p].end);
                assert(rs[p].end < r.base);
            } else if p < idx + m {
                assert(r.base <= a < r.end);
            } else {
                assert(rs[p - m + 1].base <= a < rs[p - m + 1].end);
                assert(r.end < rs[p - m + 1].base);
            }
        }
        if covered_by(rs, a) && !(base <= a < end) {
            let k = choose|k: int| 0 <= k < rs.len() && (#[trigger] rs[k]).base <= a < rs[k].end;
            if k < idx {
                assert(out[k] == rs[k]);
            } else if k > idx {
                assert(out[k + m - 1] == rs[k]);
            } else if a < base {
                assert(out[idx].base <= a < out[idx].end);
            } else {
                assert(out[idx + m - 1].base <= a < out[idx + m - 1].end);
            }
        }
    }
}

/// `[a, a + size)` with `a` the first multiple of `align` at or above the base
/// of `r` fits inside `r`.
pub open spec fn fits_aligned(r: MemoryRegion, size: u64, align: u64) -> bool {
    round_up_spec(r.base as int, align as int) + size <= r.end
}

/// `r` starts at or above `lower_bound` and holds at least `size` bytes.
pub open spec fn fits_from(r: MemoryRegion, size: u64, lower_bound: u64) -> bool {
    r.base >= lower_bound && r.base + size <= r.end
}

/// The first multiple of `align` at or above `b` is the least one.
proof fn lemma_round_up_least(b: int, align: int, x: int)
    requires
        align > 0,
        b >= 0,
        x >= b,
        x % align == 0,
    ensures
        round_up_spec(b, align) <= x,
{
    vstd::arithmetic::div_mod::lemma_fundamental_div_mod(b, align);
    vstd::arithmetic::div_mod::lemma_fundamental_div_mod(x, align);
    vstd::arithmetic::div_mod::lemma_mod_bound(b, align);
    let p = b / align;
    let q = x / align;
    if b % align != 0 {
        assert(q >= p + 1) by (nonlinear_arith)
            requires
                x == align * q,
                b == align * p + b % align,
                0 < b % align < align,
                x >= b,
        ;
        assert(align * q >= align * (p + 1)) by (nonlinear_arith)
            requires
                q >= p + 1,
                align > 0,
        ;
        vstd::arithmetic::div_mod::lemma_mod_multiples_basic(p + 1, align);
        assert(round_up_spec(b, align) == (p + 1) * align) by (nonlinear_arith)
            requires
                round_up_spec(b, align) == b - b % align + align,
                b == align * p + b % align,
        ;
    }
}

/// The allocation policy: `[a, a + size)` with `a` aligned is free in `r`.
pub open spec fn admits(r: MemoryRegion, size: u64, align: u64, a: int) -> bool {
    a % (align as int) == 0 && r.base <= a && a + size <= r.end
}

impl DisjointMemoryRegion {
    /// Takes `[base, end)` out of the set; it must lie inside one region.
    pub fn remove_region(&mut self, base: u64, end: u64)
        requires
            old(self).wf(),
            base <= end,
            exists|i: int|
                0 <= i < old(self).regions@.len() && (#[trigger] old(self).regions@[i]).base <= base
                    && end <= old(self).regions@[i].end,
        ensures
            final(self).wf(),
            forall|a: int| final(self).covers(a) <==> (old(self).covers(a) && !(base <= a < end)),
    {
        if base == end {
            return;
        }
        let n = self.regions.len();
        let mut idx: usize = 0;
        while idx < n && !(self.regions[idx].base <= base && end <= self.regions[idx].end)
            invariant
                n == self.regions@.len(),
                idx <= n,
                self.regions@ == old(self).regions@,
                forall|k: int| 0 <= k < idx ==> !((#[trigger] self.regions@[k]).base <= base && end <= self.regions@[k].end),
            decreases n - idx,
        {
            idx = idx + 1;
        }
        let ghost before = self.regions@;
        let region = self.regions[idx];
        if region.base == base && region.end == end {
            self.regions.remove(idx);
        } else if region.base == base {
            self.regions[idx] = MemoryRegion::new(end, region.end);
        } else if region.end == end {
            self.regions[idx] = MemoryRegion::new(region.base, base);
        } else {
            self.regions[idx] = MemoryRegion::new(region.base, base);
            self.regions.insert(idx + 1, MemoryRegion::new(end, region.end));
        }
        proof {
            let o = before.take(idx as int) + remainder(region, base, end) + before.skip(idx + 1);
            lemma_remove_shape(before, idx as int, base, end);
            assert(self.regions@ =~= o);
            assert forall|a: int| self.covers(a) <==> (old(self).covers(a) && !(base <= a < end)) by {
                assert(covered_by(o, a) <==> (covered_by(before, a) && !(base <= a < end)));
            }
        }
    }

    /// First fit, lowest address first: takes `size` bytes at the first
    /// `align`-aligned address of the first region that can hold them there, and
    /// returns that address; `None`, leaving the set as it was, when no region can.
    pub fn allocate(&mut self, size: u64, align_page_sz: PageSize) -> (r: Option<u64>)
        requires
            old(self).wf(),
        ensures
            final(self).wf(),
            ({
                let align = align_page_sz.bytes_spec();
                let rs = old(self).regions@;
                match r {
                    Some(a) => exists|i: int|
                        0 <= i < rs.len() && fits_aligned(#[trigger] rs[i], size, align) && (forall|k: int|
                            0 <= k < i ==> !fits_aligned(#[trigger] rs[k], size, align)) && a
                            == round_up_spec(rs[i].base as int, align as int) && admits(rs[i], size, align, a as int)
                            && forall|x: int| final(self).covers(x) <==> (old(self).covers(x) && !(a <= x < a + size)),
                    None => final(self).regions@ == rs && forall|i: int, a: int|
                        0 <= i < rs.len() ==> !#[trigger] admits(rs[i], size, align, a),
                }
            }),
    {
        let align = align_page_sz.bytes();
        let n = self.regions.len();
        let mut i: usize = 0;
        let mut found: Option<u64> = None;
        let ghost rs = old(self).regions@;
        while i < n
            invariant_except_break
                found.is_none(),
            invariant
                n == self.regions@.len(),
                i <= n,
                align == align_page_sz.bytes_spec(),
                self.regions@ == rs,
                old(self).wf(),
                forall|k: int| 0 <= k < i ==> !fits_aligned(#[trigger] rs[k], size, align),
            ensures
                i <= n,
                self.regions@ == rs,
                forall|k: int| 0 <= k < i ==> !fits_aligned(#[trigger] rs[k], size, align),
                found.is_none() ==> i == n,
                found matches Some(a) ==> i < n && fits_aligned(rs[i as int], size, align) && a
                    == round_up_spec(rs[i as int].base as int, align as int),
            decreases n - i,
        {
            let r = self.regions[i];
            let rem = r.base % align;
            let gap: u64 = if rem == 0 {
                0
            } else {
                align - rem
            };
            if gap <= r.end - r.base && size <= r.end - r.base - gap {
                found = Some(r.base + gap);
                break;
            }
            i = i + 1;
        }
        match found {
            Some(a) => {
                proof {
                    lemma_round_up_aligned(rs[i as int].base as int, align as int);
                    assert(admits(rs[i as int], size, align, a as int));
                }
                self.remove_region(a, a + size);
                Some(a)
            },
            None => {
                proof {
                    assert forall|j: int, x: int| 0 <= j < rs.len() implies !#[trigger] admits(rs[j], size, align, x) by {
                        if admits(rs[j], size, align, x) {
                            lemma_round_up_least(rs[j].base as int, align as int, x);
                            assert(fits_aligned(rs[j], size, align));
                        }
                    }
                }
                None
            },
        }
    }
}


/// Each region non-empty and ending strictly before the next one begins.
pub open spec fn strictly_ascending(rs: Seq<MemoryRegion>) -> bool {
    &&& forall|i: int| 0 <= i < rs.len() ==> (#[trigger] rs[i]).base < rs[i].end
    &&& forall|i: int| 0 <= i < rs.len() - 1 ==> (#[trigger] rs[i]).end < rs[i + 1].base
}

/// The decomposition of every region in turn.
pub open spec fn decompose_all(rs: Seq<MemoryRegion>, offset: u64, max_bits: nat) -> Seq<MemoryRegion>
    decreases rs.len(),
{
    if rs.len() == 0 {
        seq![]
    } else {
        decompose_all(rs.drop_last(), offset, max_bits) + decompose(
            rs.last().base,
            rs.last().end,
            offset,
            max_bits,
        )
    }
}

/// Whatever sequence of insertions, removals and allocations built the set,
/// its regions are sorted strictly ascending with a gap after each: every
/// mutation keeps `wf`, and `wf` gives this order.
pub proof fn lemma_wf_strictly_ascending(s: DisjointMemoryRegion)
    requires
        s.wf(),
    ensures
        strictly_ascending(s.regions@),
{
    let rs = s.regions@;
    assert forall|i: int| 0 <= i < rs.len() - 1 implies (#[trigger] rs[i]).end < rs[i + 1].base by {
        assert(rs[i].end < rs[i + 1].base);
    }
}

/// The covered addresses determine a well-formed set: two sets that cover
/// the same addresses have the same regions.
pub proof fn lemma_covering_determines_regions(a: Seq<MemoryRegion>, b: Seq<MemoryRegion>)
    requires
        disjoint_sorted(a),
        disjoint_sorted(b),
        forall|x: int| covered_by(a, x) <==> covered_by(b, x),
    ensures
        a == b,
    decreases a.len() + b.len(),
{
    if a.len() == 0 || b.len() == 0 {
        if b.len() > 0 {
            assert(covered_by(b, b[0].base as int));
        }
        if a.len() > 0 {
            assert(covered_by(a, a[0].base as int));
        }
        assert(a =~= b);
    } else {
        lemma_first_region(a, b);
        lemma_first_region(b, a);
        let a0 = a[0];
        let ta = a.skip(1);
        let tb = b.skip(1);
        assert forall|x: int| covered_by(ta, x) <==> covered_by(tb, x) by {
            lemma_tail_covers(a, x);
            lemma_tail_covers(b, x);
        }
        lemma_covering_determines_regions(ta, tb);
        assert(a =~= seq![a0] + ta);
        assert(b =~= seq![a0] + tb);
    }
}

/// Two non-empty well-formed sets that cover the same addresses start with
/// the same region, as far as `a` can tell: its first region lies within
/// `b`'s.
proof fn lemma_first_region(a: Seq<MemoryRegion>, b: Seq<MemoryRegion>)
    requires
        disjoint_sorted(a),
        disjoint_sorted(b),
        a.len() > 0,
        b.len() > 0,
        forall|x: int| covered_by(a, x) <==> covered_by(b, x),
    ensures
        a[0].base == b[0].base,
        a[0].end == b[0].end,
{
    // the lowest covered address starts the first region of each
    assert(covered_by(a, a[0].base as int));
    assert(covered_by(b, b[0].base as int));
    let j = choose|j: int| 0 <= j < b.len() && (#[trigger] b[j]).base <= a[0].base < b[j].end;
    let i = choose|i: int| 0 <= i < a.len() && (#[trigger] a[i]).base <= b[0].base < a[i].end;
    if j > 0 {
        assert(b[0].end < b[j].base);
    }
    if i > 0 {
        assert(a[0].end < a[i].base);
    }
    assert(a[0].base == b[0].base);
    // the end of each first region is uncovered
    if a[0].end < b[0].end {
        assert(covered_by(b, a[0].end as int));
        let k = choose|k: int| 0 <= k < a.len() && (#[trigger] a[k]).base <= a[0].end < a[k].end;
        if k > 0 {
            assert(a[0].end < a[k].base);
        }
    }
    if b[0].end < a[0].end {
        assert(covered_by(a, b[0].end as int));
        let k = choose|k: int| 0 <= k < b.len() && (#[trigger] b[k]).base <= b[0].end < b[k].end;
        if k > 0 {
            assert(b[0].end < b[k].base);
        }
    }
}

/// The regions after the first cover what the set covers beyond the first.
proof fn lemma_tail_covers(a: Seq<MemoryRegion>, x: int)
    requires
        disjoint_sorted(a),
        a.len() > 0,
    ensures
        disjoint_sorted(a.skip(1)),
        covered_by(a.skip(1), x) <==> (covered_by(a, x) && !(a[0].base <= x < a[0].end)),
{
    let t = a.skip(1);
    assert forall|i: int, j: int| 0 <= i < j < t.len() implies (#[trigger] t[i]).end < (#[trigger] t[j]).base by {
        assert(t[i] == a[i + 1] && t[j] == a[j + 1]);
    }
    if covered_by(t, x) {
        let i = choose|i: int| 0 <= i < t.len() && (#[trigger] t[i]).base <= x < t[i].end;
        assert(t[i] == a[i + 1]);
        assert(a[0].end < a[i + 1].base);
    }
    if covered_by(a, x) && !(a[0].base <= x < a[0].end) {
        let i = choose|i: int| 0 <= i < a.len() && (#[trigger] a[i]).base <= x < a[i].end;
        assert(i > 0);
        assert(t[i - 1] == a[i]);
    }
}

/// Inserting a span that the set already covers is a no-op: the covered
/// addresses, and so the regions themselves, stay as they were.
pub proof fn lemma_insert_contained_is_noop(
    before: DisjointMemoryRegion,
    after: DisjointMemoryRegion,
    base: u64,
    end: u64,
)
    requires
        before.wf(),
        after.wf(),
        base < end,
        forall|a: int| base <= a < end ==> before.covers(a),
        forall|a: int| after.covers(a) <==> (before.covers(a) || base <= a < end),
    ensures
        forall|a: int| after.covers(a) <==> before.covers(a),
        after.regions@ == before.regions@,
{
    assert forall|x: int| covered_by(after.regions@, x) <==> covered_by(before.regions@, x) by {
        assert(after.covers(x) <==> (before.covers(x) || base <= x < end));
    }
    lemma_covering_determines_regions(after.regions@, before.regions@);
}

impl DisjointMemoryRegion {
    /// Whether the regions are non-empty and strictly ascending with gaps.
    pub fn check(&self) -> (r: bool)
        ensures
            r == strictly_ascending(self.regions@),
    {
        let n = self.regions.len();
        let mut i: usize = 0;
        while i < n
            invariant
                n == self.regions@.len(),
                i <= n,
                forall|k: int| 0 <= k < i ==> (#[trigger] self.regions@[k]).base < self.regions@[k].end,
                forall|k: int| 0 <= k < i && k < n - 1 ==> (#[trigger] self.regions@[k]).end < self.regions@[k + 1].base,
            decreases n - i,
        {
            if self.regions[i].base >= self.regions[i].end {
                return false;
            }
            if i + 1 < n && self.regions[i].end >= self.regions[i + 1].base {
                return false;
            }
            i = i + 1;
        }
        true
    }

    /// Takes the first `size` bytes of the first region that starts at or
    /// above `lower_bound` and holds that many, and returns their address;
    /// `None`, leaving the set as it was, when no region qualifies.
    pub fn allocate_from(&mut self, size: u64, lower_bound: u64) -> (r: Option<u64>)
        requires
            old(self).wf(),
        ensures
            final(self).wf(),
            ({
                let rs = old(self).regions@;
                match r {
                    Some(a) => exists|i: int|
                        0 <= i < rs.len() && fits_from(#[trigger] rs[i], size, lower_bound) && (forall|k: int|
                            0 <= k < i ==> !fits_from(#[trigger] rs[k], size, lower_bound)) && a == rs[i].base
                            && forall|x: int| final(self).covers(x) <==> (old(self).covers(x) && !(a <= x < a + size)),
                    None => final(self).regions@ == rs && forall|i: int|
                        0 <= i < rs.len() ==> !fits_from(#[trigger] rs[i], size, lower_bound),
                }
            }),
    {
        let n = self.regions.len();
        let mut i: usize = 0;
        let ghost rs = old(self).regions@;
        while i < n && !(self.regions[i].base >= lower_bound && size <= self.regions[i].end - self.regions[i].base)
            invariant
                n == self.regions@.len(),
                i <= n,
                self.regions@ == rs,
                old(self).wf(),
                forall|k: int| 0 <= k < i ==> !fits_from(#[trigger] rs[k], size, lower_bound),
            decreases n - i,
        {
            i = i + 1;
        }
        if i == n {
            return None;
        }
        let base = self.regions[i].base;
        proof {
            assert(fits_from(rs[i as int], size, lower_bound));
        }
        self.remove_region(base, base + size);
        Some(base)
    }

    /// The aligned power-of-two pieces of every region, in order.
    pub fn aligned_power_of_two_regions(&self, config: &Config, max_bits: u64) -> (r: Vec<MemoryRegion>)
        requires
            self.wf(),
            max_bits < 64,
        ensures
            r@ == decompose_all(self.regions@, config.kernel_vaddr_offset, max_bits as nat),
    {
        let mut aligned_regions: Vec<MemoryRegion> = Vec::new();
        let n = self.regions.len();
        let mut i: usize = 0;
        while i < n
            invariant
                n == self.regions@.len(),
                i <= n,
                self.wf(),
                max_bits < 64,
                aligned_regions@ == decompose_all(
                    self.regions@.take(i as int),
                    config.kernel_vaddr_offset,
                    max_bits as nat,
                ),
            decreases n - i,
        {
            let mut pieces = self.regions[i].aligned_power_of_two_regions(config, max_bits);
            aligned_regions.append(&mut pieces);
            proof {
                let t = self.regions@.take(i + 1);
                assert(t.drop_last() =~= self.regions@.take(i as int));
                assert(t.last() == self.regions@[i as int]);
            }
            i = i + 1;
        }
        proof {
            assert(self.regions@.take(n as int) =~= self.regions@);
        }
        aligned_regions
    }
}

/// A region handed to the kernel as an untyped capability.
#[derive(Debug, Clone, Copy, PartialEq, Eq, Structural)]
pub struct UntypedObject {
    pub cap: u64,
    pub region: MemoryRegion,
    pub is_device: bool,
}

impl UntypedObject {
    pub fn new(cap: u64, region: MemoryRegion, is_device: bool) -> (r: UntypedObject)
        ensures
            r == (UntypedObject { cap, region, is_device }),
    {
        UntypedObject { cap, region, is_device }
    }

    pub fn base(&self) -> (r: u64)
        ensures
            r == self.region.base,
    {
        self.region.base
    }

    pub fn end(&self) -> (r: u64)
        ensures
            r == self.region.end,
    {
        self.region.end
    }

    /// Index of the lowest set bit of the size: the size in bits once the
    /// region is a power of two.
    pub fn size_bits(&self) -> (r: u64)
        requires
            self.region.base < self.region.end,
        ensures
            r == lsb_nat((self.region.end - self.region.base) as nat),
    {
        lsb(self.region.size())
    }
}


/// A named piece of memory whose contents are the file image of one segment
/// of an executable.
pub struct Region {
    pub name: String,
    pub addr: u64,
    pub size: u64,
    pub segment_idx: usize,
}

impl Region {
    pub fn new(name: String, addr: u64, size: u64, segment_idx: usize) -> (r: Region)
        ensures
            r.name == name,
            r.addr == addr,
            r.size == size,
            r.segment_idx == segment_idx,
    {
        Region { name, addr, size, segment_idx }
    }

    /// The bytes of the segment the region stands for.
    pub fn data<'a>(&self, elf: &'a ElfFile) -> (r: &'a Vec<u8>)
        requires
            self.segment_idx < elf.segments@.len(),
        ensures
            r@ == elf.segments@[self.segment_idx as int].data@,
    {
        elf.segments[self.segment_idx].data()
    }
}


/// Padding that fills a `seL4_UntypedDesc` to sixteen bytes.
pub const UNTYPED_DESC_PADDING: usize = 6;

/// The `seL4_UntypedDesc` of an untyped, as the initial task reads it: its
/// physical base (eight bytes, little-endian), its size in bits, 1 for a
/// device untyped and 0 otherwise, then six bytes of padding.
pub open spec fn untyped_desc_bytes(ut: UntypedObject) -> Seq<u8> {
    spec_u64_to_le_bytes(ut.region.base) + seq![
        lsb_nat((ut.region.end - ut.region.base) as nat) as u8,
        if ut.is_device { 1u8 } else { 0u8 },
    ] + Seq::new(UNTYPED_DESC_PADDING as nat, |_i: int| 0u8)
}

/// Getting a `seL4_UntypedDesc` for patching into the initialiser.
pub fn serialise_ut(ut: &UntypedObject) -> (r: Vec<u8>)
    requires
        ut.region.base < ut.region.end,
    ensures
        r@ == untyped_desc_bytes(*ut),
{
    let mut out: Vec<u8> = Vec::new();
    push_u64(&mut out, ut.base());
    out.push(ut.size_bits() as u8);
    out.push(if ut.is_device { 1 } else { 0 });
    push_zeros(&mut out, UNTYPED_DESC_PADDING);
    proof {
        assert(out@ =~= untyped_desc_bytes(*ut));
    }
    out
}

} // verus!
