//! A parsed executable: word size, entry point, segments in declaration order
//! and the symbol table.
use vstd::prelude::*;
use vstd::utf8::encode_utf8;

verus! {

/// One segment of an executable, with the bytes of its file image.
#[derive(Debug, Clone)]
pub struct ElfSegment {
    pub data: Vec<u8>,
    pub phys_addr: u64,
    pub virt_addr: u64,
    pub loadable: bool,
    pub attrs: u32,
    pub mem_size: u64,
}

impl ElfSegment {
    /// Bytes the segment takes in memory; the loader zeroes what lies past
    /// the file image.
    pub fn mem_size(&self) -> (r: u64)
        ensures
            r == self.mem_size,
    {
        self.mem_size
    }

    /// The bytes of the file image, not extended to the size in memory.
    pub fn data(&self) -> (r: &Vec<u8>)
        ensures
            r@ == self.data@,
    {
        &self.data
    }
}

/// A named symbol: its address and size. The name is kept as the bytes of
/// the string table.
#[derive(Debug, Clone)]
pub struct ElfSymbol {
    pub name: Vec<u8>,
    pub value: u64,
    pub size: u64,
}

#[derive(Debug, Clone)]
pub struct ElfFile {
    pub word_size: usize,
    pub entry: u64,
    pub segments: Vec<ElfSegment>,
    pub symbols: Vec<ElfSymbol>,
}

/// Address and size of the first symbol called `name`.
pub open spec fn lookup_symbol(syms: Seq<ElfSymbol>, name: Seq<u8>) -> Option<(u64, u64)>
    decreases syms.len(),
{
    if syms.len() == 0 {
        None
    } else {
        match lookup_symbol(syms.drop_last(), name) {
            Some(found) => Some(found),
            None => if syms.last().name@ == name {
                Some((syms.last().value, syms.last().size))
            } else {
                None
            },
        }
    }
}

/// The segment holds the `size` bytes at `vaddr` in its file image.
pub open spec fn holds(seg: ElfSegment, vaddr: u64, size: u64) -> bool {
    seg.virt_addr <= vaddr && vaddr + size <= seg.virt_addr + seg.data@.len()
}

/// The `size` bytes at `vaddr`, read from the first segment that holds them.
pub open spec fn data_at(segs: Seq<ElfSegment>, vaddr: u64, size: u64) -> Option<Seq<u8>>
    decreases segs.len(),
{
    if segs.len() == 0 {
        None
    } else {
        match data_at(segs.drop_last(), vaddr, size) {
            Some(found) => Some(found),
            None => if holds(segs.last(), vaddr, size) {
                let off = vaddr - segs.last().virt_addr;
                Some(segs.last().data@.subrange(off, off + size))
            } else {
                None
            },
        }
    }
}

/// The loadable segments, in declaration order.
pub open spec fn loadable(segs: Seq<ElfSegment>) -> Seq<ElfSegment>
    decreases segs.len(),
{
    if segs.len() == 0 {
        seq![]
    } else if segs.last().loadable {
        loadable(segs.drop_last()).push(segs.last())
    } else {
        loadable(segs.drop_last())
    }
}

/// Whether two byte strings are equal.
pub fn bytes_eq(a: &[u8], b: &[u8]) -> (r: bool)
    ensures
        r == (a@ == b@),
{
    if a.len() != b.len() {
        return false;
    }
    let mut i: usize = 0;
    while i < a.len()
        invariant
            a@.len() == b@.len(),
            i <= a@.len(),
            forall|k: int| 0 <= k < i ==> a@[k] == b@[k],
        decreases a@.len() - i,
    {
        if a[i] != b[i] {
            return false;
        }
        i = i + 1;
    }
    proof {
        assert(a@ =~= b@);
    }
    true
}

impl ElfFile {
    /// The symbol whose name is the UTF-8 encoding of `name`.
    pub open spec fn symbol(&self, name: Seq<char>) -> Option<(u64, u64)> {
        lookup_symbol(self.symbols@, encode_utf8(name))
    }

    /// Address and size of the symbol `name`; an error naming it when the
    /// executable has no such symbol.
    pub fn find_symbol(&self, name: &str) -> (r: Result<(u64, u64), String>)
        ensures
            match r {
                Ok(found) => self.symbol(name@) == Some(found),
                Err(_) => self.symbol(name@).is_none(),
            },
    {
        let wanted = name.as_bytes();
        let mut found: Option<(u64, u64)> = None;
        let mut i: usize = 0;
        while i < self.symbols.len()
            invariant
                i <= self.symbols@.len(),
                wanted@ == encode_utf8(name@),
                found == lookup_symbol(self.symbols@.take(i as int), encode_utf8(name@)),
            decreases self.symbols@.len() - i,
        {
            proof {
                assert(self.symbols@.take(i + 1).drop_last() =~= self.symbols@.take(i as int));
            }
            if found.is_none() && bytes_eq(self.symbols[i].name.as_slice(), wanted) {
                found = Some((self.symbols[i].value, self.symbols[i].size));
            }
            i = i + 1;
        }
        proof {
            assert(self.symbols@.take(self.symbols@.len() as int) =~= self.symbols@);
        }
        match found {
            Some(f) => Ok(f),
            None => Err(name.to_owned()),
        }
    }

    /// The `size` bytes at `vaddr`, read from the file image of the first
    /// segment that holds all of them; `None` when no segment does.
    pub fn get_data(&self, vaddr: u64, size: u64) -> (r: Option<Vec<u8>>)
        ensures
            match r {
                Some(v) => data_at(self.segments@, vaddr, size) == Some(v@),
                None => data_at(self.segments@, vaddr, size).is_none(),
            },
    {
        let mut i: usize = 0;
        while i < self.segments.len()
            invariant
                i <= self.segments@.len(),
                data_at(self.segments@.take(i as int), vaddr, size).is_none(),
            decreases self.segments@.len() - i,
        {
            let seg = &self.segments[i];
            proof {
                assert(self.segments@.take(i + 1).drop_last() =~= self.segments@.take(i as int));
            }
            if vaddr >= seg.virt_addr && size <= seg.data.len() as u64 && vaddr - seg.virt_addr
                <= seg.data.len() as u64 - size {
                let offset = (vaddr - seg.virt_addr) as usize;
                let end = offset + size as usize;
                let mut out: Vec<u8> = Vec::new();
                let mut k: usize = offset;
                while k < end
                    invariant
                        offset <= k <= end,
                        end <= seg.data@.len(),
                        out@ == seg.data@.subrange(offset as int, k as int),
                    decreases end - k,
                {
                    out.push(seg.data[k]);
                    k = k + 1;
                    proof {
                        assert(out@ =~= seg.data@.subrange(offset as int, k as int));
                    }
                }
                proof {
                    let t = self.segments@.take(i + 1);
                    assert(t.last() == *seg);
                    assert(data_at(t, vaddr, size) == Some(out@));
                    lemma_data_at_prefix(self.segments@, i + 1, vaddr, size);
                }
                return Some(out);
            }
            i = i + 1;
        }
        proof {
            assert(self.segments@.take(self.segments@.len() as int) =~= self.segments@);
        }
        None
    }

    /// The loadable segments, in declaration order.
    pub fn loadable_segments(&self) -> (r: Vec<&ElfSegment>)
        ensures
            r@.len() == loadable(self.segments@).len(),
            forall|k: int| 0 <= k < r@.len() ==> *(#[trigger] r@[k]) == loadable(self.segments@)[k],
    {
        let mut out: Vec<&ElfSegment> = Vec::new();
        let mut i: usize = 0;
        while i < self.segments.len()
            invariant
                i <= self.segments@.len(),
                out@.len() == loadable(self.segments@.take(i as int)).len(),
                forall|k: int| 0 <= k < out@.len() ==> *(#[trigger] out@[k]) == loadable(self.segments@.take(i as int))[k],
            decreases self.segments@.len() - i,
        {
            proof {
                assert(self.segments@.take(i + 1).drop_last() =~= self.segments@.take(i as int));
            }
            if self.segments[i].loadable {
                out.push(&self.segments[i]);
            }
            i = i + 1;
        }
        proof {
            assert(self.segments@.take(self.segments@.len() as int) =~= self.segments@);
        }
        out
    }
}

/// Once found in a prefix, data stays found, unchanged, in longer prefixes.
proof fn lemma_data_at_prefix(segs: Seq<ElfSegment>, n: int, vaddr: u64, size: u64)
    requires
        0 <= n <= segs.len(),
        data_at(segs.take(n), vaddr, size).is_some(),
    ensures
        data_at(segs, vaddr, size) == data_at(segs.take(n), vaddr, size),
    decreases segs.len() - n,
{
    if n == segs.len() {
        assert(segs.take(n) =~= segs);
    } else {
        assert(segs.take(n + 1).drop_last() =~= segs.take(n));
        lemma_data_at_prefix(segs, n + 1, vaddr, size);
    }
}


/// Why bytes are not an executable this library can read.
#[derive(Debug, Clone, Copy, PartialEq, Eq, Structural)]
pub enum ElfError {
    /// The bytes do not start with the ELF magic.
    NotExecutable,
    /// A word size or byte order other than 32/64-bit little-endian.
    Unsupported,
    /// A header, table or segment lies outside the bytes.
    Malformed,
}

pub open spec fn le_u16(b: Seq<u8>, off: int) -> nat {
    b[off] as nat + 256 * (b[off + 1] as nat)
}

pub open spec fn le_u32(b: Seq<u8>, off: int) -> nat {
    le_u16(b, off) + 65536 * le_u16(b, off + 2)
}

pub open spec fn le_u64(b: Seq<u8>, off: int) -> nat {
    le_u32(b, off) + 0x1_0000_0000 * le_u32(b, off + 4)
}

/// A word of the header or of a table entry: eight bytes in a 64-bit file,
/// four in a 32-bit one.
pub open spec fn le_word(b: Seq<u8>, off: int, wide: bool) -> nat {
    if wide {
        le_u64(b, off)
    } else {
        le_u32(b, off)
    }
}

fn read_u16(b: &[u8], off: usize) -> (r: u64)
    requires
        off + 2 <= b@.len(),
    ensures
        r == le_u16(b@, off as int),
        r < 0x1_0000,
{
    b[off] as u64 + 256 * (b[off + 1] as u64)
}

fn read_u32(b: &[u8], off: usize) -> (r: u64)
    requires
        off + 4 <= b@.len(),
    ensures
        r == le_u32(b@, off as int),
        r < 0x1_0000_0000,
{
    let _n = b.len();
    let lo = read_u16(b, off);
    let hi = read_u16(b, off + 2);
    lo + 65536 * hi
}

fn read_u64(b: &[u8], off: usize) -> (r: u64)
    requires
        off + 8 <= b@.len(),
    ensures
        r == le_u64(b@, off as int),
{
    let _n = b.len();
    let lo = read_u32(b, off);
    let hi = read_u32(b, off + 4);
    assert(lo + 0x1_0000_0000 * hi <= u64::MAX) by (nonlinear_arith)
        requires
            lo < 0x1_0000_0000,
            hi < 0x1_0000_0000,
    ;
    lo + 0x1_0000_0000 * hi
}

fn read_word(b: &[u8], off: usize, wide: bool) -> (r: u64)
    requires
        off + (if wide { 8int } else { 4int }) <= b@.len(),
    ensures
        r == le_word(b@, off as int, wide),
{
    if wide {
        read_u64(b, off)
    } else {
        read_u32(b, off)
    }
}

/// Where the fields of the file header and of the table entries lie, for a
/// 64-bit (`wide`) or a 32-bit file: (header size, entry, program header
/// offset, section header offset, program header entry size, count,
/// section header entry size, count).
pub open spec fn header_layout(wide: bool) -> (int, int, int, int, int, int, int, int) {
    if wide {
        (64, 24, 32, 40, 54, 56, 58, 60)
    } else {
        (52, 24, 28, 32, 42, 44, 46, 48)
    }
}

/// Sizes of a program header, a section header and a symbol in a 64-bit
/// (`wide`) or a 32-bit file.
pub open spec fn record_sizes(wide: bool) -> (int, int, int) {
    if wide {
        (56, 64, 24)
    } else {
        (32, 40, 16)
    }
}

/// `seg` is the segment described by the program header at `ph`, with the
/// bytes of its file image.
pub open spec fn segment_matches(seg: ElfSegment, b: Seq<u8>, ph: int, wide: bool) -> bool {
    let ty = le_u32(b, ph);
    let (off, vaddr, paddr, filesz, memsz, flags) = if wide {
        (le_u64(b, ph + 8), le_u64(b, ph + 16), le_u64(b, ph + 24), le_u64(b, ph + 32), le_u64(b, ph + 40), le_u32(b, ph + 4))
    } else {
        (le_u32(b, ph + 4), le_u32(b, ph + 8), le_u32(b, ph + 12), le_u32(b, ph + 16), le_u32(b, ph + 20), le_u32(b, ph + 24))
    };
    &&& off + filesz <= b.len()
    &&& seg.data@ == b.subrange(off as int, (off + filesz) as int)
    &&& seg.virt_addr == vaddr
    &&& seg.phys_addr == paddr
    &&& seg.mem_size == memsz
    &&& seg.loadable == (ty == 1)
    &&& seg.attrs == flags
}

/// Type, file offset, size and link of the section header at `sh`.
pub open spec fn section_at(b: Seq<u8>, sh: int, wide: bool) -> (nat, nat, nat, nat) {
    if wide {
        (le_u32(b, sh + 4), le_u64(b, sh + 24), le_u64(b, sh + 32), le_u32(b, sh + 40))
    } else {
        (le_u32(b, sh + 4), le_u32(b, sh + 16), le_u32(b, sh + 20), le_u32(b, sh + 24))
    }
}

/// Index of the first symbol-table section among the first `n`.
pub open spec fn symtab_index(b: Seq<u8>, shoff: int, shentsize: int, n: nat, wide: bool) -> Option<nat>
    decreases n,
{
    if n == 0 {
        None
    } else {
        match symtab_index(b, shoff, shentsize, (n - 1) as nat, wide) {
            Some(k) => Some(k),
            None => if section_at(b, shoff + (n - 1) * shentsize, wide).0 == 2 {
                Some((n - 1) as nat)
            } else {
                None
            },
        }
    }
}

/// `sym` is the symbol at `s`, named from the string table `[str_start, str_end)`.
pub open spec fn symbol_matches(sym: ElfSymbol, b: Seq<u8>, s: int, str_start: int, str_end: int, wide: bool) -> bool {
    let (name, value, size) = if wide {
        (le_u32(b, s), le_u64(b, s + 8), le_u64(b, s + 16))
    } else {
        (le_u32(b, s), le_u32(b, s + 4), le_u32(b, s + 8))
    };
    &&& c_string(b, str_start + name, str_end) == Some(sym.name@)
    &&& sym.value == value
    &&& sym.size == size
}

/// `e` is what the bytes `b` describe: the word size and entry point of the
/// header, one segment per program header in order, and the symbols of the
/// first symbol table in order.
pub open spec fn elf_matches(e: ElfFile, b: Seq<u8>) -> bool {
    let wide = b[4] == 2;
    let (hsize, entry_at, phoff_at, shoff_at, phent_at, phnum_at, shent_at, shnum_at) = header_layout(wide);
    let phoff = le_word(b, phoff_at, wide) as int;
    let shoff = le_word(b, shoff_at, wide) as int;
    let phentsize = le_u16(b, phent_at) as int;
    let phnum = le_u16(b, phnum_at);
    let shentsize = le_u16(b, shent_at) as int;
    let shnum = le_u16(b, shnum_at);
    let (ph_rec, sh_rec, sym_rec) = record_sizes(wide);
    &&& b.len() >= hsize
    &&& b[0] == 0x7f && b[1] == 0x45 && b[2] == 0x4c && b[3] == 0x46
    &&& (b[4] == 1 || b[4] == 2) && b[5] == 1
    &&& e.word_size == (if wide { 64usize } else { 32usize })
    &&& e.entry == le_word(b, entry_at, wide)
    &&& e.segments@.len() == phnum
    &&& forall|k: int| 0 <= k < phnum ==> segment_matches(#[trigger] e.segments@[k], b, phoff + k * phentsize, wide)
    &&& match symtab_index(b, shoff, shentsize, shnum, wide) {
        None => e.symbols@.len() == 0,
        Some(t) => {
            let (_, off, size, link) = section_at(b, shoff + t * shentsize, wide);
            let (_, str_off, str_size, _) = section_at(b, shoff + link * shentsize, wide);
            &&& e.symbols@.len() == size / (sym_rec as nat)
            &&& forall|m: int| 0 <= m < e.symbols@.len() ==> symbol_matches(
                #[trigger] e.symbols@[m],
                b,
                off + m * sym_rec,
                str_off as int,
                (str_off + str_size) as int,
                wide,
            )
        },
    }
}

/// The bytes from `i` up to the first zero before `limit`, if there is one.
pub open spec fn c_string(b: Seq<u8>, i: int, limit: int) -> Option<Seq<u8>>
    decreases limit - i,
{
    if i >= limit {
        None
    } else if b[i] == 0 {
        Some(seq![])
    } else {
        match c_string(b, i + 1, limit) {
            Some(rest) => Some(seq![b[i]] + rest),
            None => None,
        }
    }
}

proof fn lemma_c_string(b: Seq<u8>, i: int, z: int, limit: int)
    requires
        0 <= i <= z < limit <= b.len(),
        b[z] == 0,
        forall|k: int| i <= k < z ==> b[k] != 0,
    ensures
        c_string(b, i, limit) == Some(b.subrange(i, z)),
    decreases z - i,
{
    if i < z {
        lemma_c_string(b, i + 1, z, limit);
        assert(seq![b[i]] + b.subrange(i + 1, z) =~= b.subrange(i, z));
    } else {
        assert(b.subrange(i, z) =~= seq![]);
    }
}

proof fn lemma_c_string_none(b: Seq<u8>, i: int, limit: int)
    requires
        0 <= i <= limit <= b.len(),
        forall|k: int| i <= k < limit ==> b[k] != 0,
    ensures
        c_string(b, i, limit).is_none(),
    decreases limit - i,
{
    if i < limit {
        lemma_c_string_none(b, i + 1, limit);
    }
}

/// Reads the zero-terminated name at `start` of a string table ending at
/// `limit`.
fn read_name(b: &[u8], start: usize, limit: usize) -> (r: Option<Vec<u8>>)
    requires
        limit <= b@.len(),
    ensures
        match r {
            Some(v) => c_string(b@, start as int, limit as int) == Some(v@),
            None => c_string(b@, start as int, limit as int).is_none(),
        },
{
    if start >= limit {
        return None;
    }
    let mut z: usize = start;
    while z < limit && b[z] != 0
        invariant
            limit <= b@.len(),
            start <= z,
            forall|k: int| start <= k < z ==> b@[k] != 0,
        decreases limit - z,
    {
        z = z + 1;
    }
    if z >= limit {
        proof {
            lemma_c_string_none(b@, start as int, limit as int);
        }
        return None;
    }
    let mut name: Vec<u8> = Vec::new();
    let mut k: usize = start;
    while k < z
        invariant
            start <= k <= z < limit <= b@.len(),
            name@ == b@.subrange(start as int, k as int),
        decreases z - k,
    {
        name.push(b[k]);
        k = k + 1;
        proof {
            assert(name@ =~= b@.subrange(start as int, k as int));
        }
    }
    proof {
        lemma_c_string(b@, start as int, z as int, limit as int);
    }
    Some(name)
}


/// The bytes are an executable that `from_bytes` reads in full: the
/// header, every program header and segment image, the section headers up
/// to the first symbol table, that table, its string table and every name
/// in it lie inside the bytes.
pub open spec fn elf_parsable(b: Seq<u8>) -> bool {
    let wide = b[4] == 2;
    let (hsize, entry_at, phoff_at, shoff_at, phent_at, phnum_at, shent_at, shnum_at) = header_layout(wide);
    let phoff = le_word(b, phoff_at, wide) as int;
    let shoff = le_word(b, shoff_at, wide) as int;
    let phentsize = le_u16(b, phent_at) as int;
    let phnum = le_u16(b, phnum_at);
    let shentsize = le_u16(b, shent_at) as int;
    let shnum = le_u16(b, shnum_at);
    let (ph_rec, sh_rec, sym_rec) = record_sizes(wide);
    let found = symtab_index(b, shoff, shentsize, shnum, wide);
    let scanned = match found {
        Some(t) => t + 1int,
        None => shnum as int,
    };
    &&& b.len() >= 6
    &&& b[0] == 0x7f && b[1] == 0x45 && b[2] == 0x4c && b[3] == 0x46
    &&& (b[4] == 1 || b[4] == 2) && b[5] == 1
    &&& b.len() >= hsize
    &&& forall|k: int| 0 <= k < phnum ==> #[trigger] program_header_fits(b, phoff + k * phentsize, wide)
    &&& forall|k: int| 0 <= k < scanned ==> shoff + #[trigger] (k * shentsize) + sh_rec <= b.len()
    &&& match found {
        None => true,
        Some(t) => {
            let (_, off, size, link) = section_at(b, shoff + t * shentsize, wide);
            let (_, str_off, str_size, _) = section_at(b, shoff + link * shentsize, wide);
            &&& shoff + link * shentsize + sh_rec <= b.len()
            &&& str_off + str_size <= b.len()
            &&& forall|m: int| 0 <= m < size / (sym_rec as nat) ==> #[trigger] symbol_fits(b, off + m * sym_rec, str_off as int, (str_off + str_size) as int, wide)
        },
    }
}

/// The program header at `ph` and the file image it describes lie inside the bytes.
pub open spec fn program_header_fits(b: Seq<u8>, ph: int, wide: bool) -> bool {
    let off = le_word(b, ph + (if wide { 8int } else { 4int }), wide);
    let filesz = le_word(b, ph + (if wide { 32int } else { 16int }), wide);
    &&& ph + record_sizes(wide).0 <= b.len()
    &&& off + filesz <= b.len()
}

/// The symbol at `s` lies inside the bytes and its name is terminated inside
/// its string table.
pub open spec fn symbol_fits(b: Seq<u8>, s: int, str_start: int, str_end: int, wide: bool) -> bool {
    &&& s + record_sizes(wide).2 <= b.len()
    &&& str_start + le_u32(b, s) <= usize::MAX
    &&& c_string(b, str_start + le_u32(b, s), str_end).is_some()
}

proof fn lemma_symtab_index_after(b: Seq<u8>, shoff: int, shentsize: int, t: nat, n: nat, wide: bool)
    requires
        t <= n,
        symtab_index(b, shoff, shentsize, t, wide).is_none(),
    ensures
        symtab_index(b, shoff, shentsize, n, wide) matches Some(x) ==> t <= x < n,
    decreases n - t,
{
    if t < n {
        lemma_symtab_index_after(b, shoff, shentsize, t, (n - 1) as nat, wide);
    }
}

proof fn lemma_symtab_index_prefix(b: Seq<u8>, shoff: int, shentsize: int, t: nat, n: nat, wide: bool)
    requires
        t <= n,
        symtab_index(b, shoff, shentsize, t, wide).is_some(),
    ensures
        symtab_index(b, shoff, shentsize, n, wide) == symtab_index(b, shoff, shentsize, t, wide),
    decreases n - t,
{
    if t < n {
        lemma_symtab_index_prefix(b, shoff, shentsize, t, (n - 1) as nat, wide);
    }
}

/// The position of entry `k` of a table at `base` with entries of `size`
/// bytes, when the `need` bytes of the entry lie inside `len` bytes.
fn entry_pos(base: u64, k: u64, size: u64, need: u64, len: usize) -> (r: Option<usize>)
    requires
        size < 0x1_0000_0000,
    ensures
        match r {
            Some(p) => p == base + k * size && p + need <= len,
            None => base + k * size + need > len,
        },
{
    assert(k as u128 * size as u128 <= 0x1_0000_0000_0000_0000 * 0x1_0000_0000) by (nonlinear_arith)
        requires
            k < 0x1_0000_0000_0000_0000,
            size < 0x1_0000_0000,
    ;
    let p: u128 = base as u128 + k as u128 * size as u128;
    if p + need as u128 > len as u128 {
        None
    } else {
        Some(p as usize)
    }
}

/// A copy of `b[start .. start + count]`.
fn copy_range(b: &[u8], start: usize, count: usize) -> (r: Vec<u8>)
    requires
        start + count <= b@.len(),
    ensures
        r@ == b@.subrange(start as int, start + count),
{
    let len = b.len();
    let mut out: Vec<u8> = Vec::new();
    let mut k: usize = 0;
    while k < count
        invariant
            len == b@.len(),
            start + count <= len,
            k <= count,
            out@ == b@.subrange(start as int, start + k),
        decreases count - k,
    {
        out.push(b[start + k]);
        k = k + 1;
        proof {
            assert(out@ =~= b@.subrange(start as int, start + k));
        }
    }
    out
}

impl ElfFile {
    /// Parses a little-endian 32- or 64-bit executable: its word size, entry
    /// point, every segment with the bytes of its file image, and the symbols
    /// of its first symbol table.
    pub fn from_bytes(b: &[u8]) -> (r: Result<ElfFile, ElfError>)
        ensures
            r is Ok <==> elf_parsable(b@),
            match r {
                Ok(e) => elf_matches(e, b@),
                Err(ElfError::NotExecutable) => !(b@.len() >= 4 && b@[0] == 0x7f && b@[1] == 0x45 && b@[2] == 0x4c
                    && b@[3] == 0x46),
                Err(ElfError::Unsupported) => b@.len() >= 6 && !((b@[4] == 1 || b@[4] == 2) && b@[5] == 1),
                Err(ElfError::Malformed) => true,
            },
    {
        let n = b.len();
        if n < 4 || b[0] != 0x7f || b[1] != 0x45 || b[2] != 0x4c || b[3] != 0x46 {
            return Err(ElfError::NotExecutable);
        }
        if n < 6 {
            return Err(ElfError::Malformed);
        }
        if !((b[4] == 1 || b[4] == 2) && b[5] == 1) {
            return Err(ElfError::Unsupported);
        }
        let wide = b[4] == 2;
        let hsize: usize = if wide { 64 } else { 52 };
        if n < hsize {
            return Err(ElfError::Malformed);
        }
        let entry = read_word(b, 24, wide);
        let phoff = read_word(b, if wide { 32 } else { 28 }, wide);
        let shoff = read_word(b, if wide { 40 } else { 32 }, wide);
        let phentsize = read_u16(b, if wide { 54 } else { 42 });
        let phnum = read_u16(b, if wide { 56 } else { 44 });
        let shentsize = read_u16(b, if wide { 58 } else { 46 });
        let shnum = read_u16(b, if wide { 60 } else { 48 });
        let ph_rec: u64 = if wide { 56 } else { 32 };
        let sh_rec: u64 = if wide { 64 } else { 40 };
        let sym_rec: u64 = if wide { 24 } else { 16 };
        let word: usize = if wide { 8 } else { 4 };

        let mut segments: Vec<ElfSegment> = Vec::new();
        let mut k: u64 = 0;
        while k < phnum
            invariant
                n == b@.len(),
                wide == (b@[4] == 2),
                word == (if wide { 8usize } else { 4usize }),
                ph_rec == (if wide { 56u64 } else { 32u64 }),
                phnum < 0x1_0000,
                phentsize < 0x1_0000,
                k <= phnum,
                phoff == le_word(b@, header_layout(wide).2, wide),
                phentsize == le_u16(b@, header_layout(wide).4),
                phnum == le_u16(b@, header_layout(wide).5),
                segments@.len() == k,
                forall|q: int| 0 <= q < k ==> segment_matches(#[trigger] segments@[q], b@, phoff + q * phentsize, wide),
                forall|q: int| 0 <= q < k ==> #[trigger] program_header_fits(b@, phoff + q * phentsize, wide),
            decreases phnum - k,
        {
            let ph = match entry_pos(phoff, k, phentsize, ph_rec, n) {
                Some(p) => p,
                None => {
                    proof {
                        assert(!program_header_fits(b@, phoff + k * phentsize, wide));
                        assert(!elf_parsable(b@));
                    }
                    return Err(ElfError::Malformed);
                },
            };
            let ty = read_u32(b, ph);
            let (off, vaddr, paddr, filesz, memsz, flags) = if wide {
                (
                    read_u64(b, ph + 8),
                    read_u64(b, ph + 16),
                    read_u64(b, ph + 24),
                    read_u64(b, ph + 32),
                    read_u64(b, ph + 40),
                    read_u32(b, ph + 4),
                )
            } else {
                (
                    read_u32(b, ph + 4),
                    read_u32(b, ph + 8),
                    read_u32(b, ph + 12),
                    read_u32(b, ph + 16),
                    read_u32(b, ph + 20),
                    read_u32(b, ph + 24),
                )
            };
            if off as u128 + filesz as u128 > n as u128 {
                proof {
                    assert(!program_header_fits(b@, phoff + k * phentsize, wide));
                    assert(!elf_parsable(b@));
                }
                return Err(ElfError::Malformed);
            }
            proof {
                assert(program_header_fits(b@, phoff + k * phentsize, wide));
            }
            let data = copy_range(b, off as usize, filesz as usize);
            let seg = ElfSegment {
                data,
                phys_addr: paddr,
                virt_addr: vaddr,
                loadable: ty == 1,
                attrs: flags as u32,
                mem_size: memsz,
            };
            proof {
                assert(segment_matches(seg, b@, phoff + k * phentsize, wide));
            }
            segments.push(seg);
            k = k + 1;
        }

        let mut found: Option<u64> = None;
        let mut t: u64 = 0;
        while t < shnum
            invariant_except_break
                found.is_none(),
            invariant
                n == b@.len(),
                wide == (b@[4] == 2),
                sh_rec == (if wide { 64u64 } else { 40u64 }),
                shnum < 0x1_0000,
                shentsize < 0x1_0000,
                t <= shnum,
                shoff == le_word(b@, header_layout(wide).3, wide),
                shentsize == le_u16(b@, header_layout(wide).6),
                shnum == le_u16(b@, header_layout(wide).7),
                symtab_index(b@, shoff as int, shentsize as int, t as nat, wide).is_none(),
                forall|q: int| 0 <= q < t ==> shoff + #[trigger] (q * shentsize) + sh_rec <= n,
            ensures
                found.is_none() ==> symtab_index(b@, shoff as int, shentsize as int, shnum as nat, wide).is_none(),
                found.is_none() ==> forall|q: int| 0 <= q < shnum ==> shoff + #[trigger] (q * shentsize) + sh_rec <= n,
                found matches Some(f) ==> f < shnum && symtab_index(b@, shoff as int, shentsize as int, shnum as nat, wide) == Some(f as nat),
                found matches Some(f) ==> forall|q: int| 0 <= q <= f ==> shoff + #[trigger] (q * shentsize) + sh_rec <= n,
            decreases shnum - t,
        {
            let sh = match entry_pos(shoff, t, shentsize, sh_rec, n) {
                Some(p) => p,
                None => {
                    proof {
                        lemma_symtab_index_after(b@, shoff as int, shentsize as int, t as nat, shnum as nat, wide);
                        assert(!(shoff + t * shentsize + sh_rec <= n));
                        assert(!elf_parsable(b@));
                    }
                    return Err(ElfError::Malformed);
                },
            };
            let ty = read_u32(b, sh + 4);
            if ty == 2 {
                found = Some(t);
                proof {
                    assert(symtab_index(b@, shoff as int, shentsize as int, (t + 1) as nat, wide) == Some(t as nat));
                    lemma_symtab_index_prefix(b@, shoff as int, shentsize as int, (t + 1) as nat, shnum as nat, wide);
                }
                break;
            }
            t = t + 1;
        }

        let mut symbols: Vec<ElfSymbol> = Vec::new();
        match found {
            None => {},
            Some(t) => {
                let sh = match entry_pos(shoff, t, shentsize, sh_rec, n) {
                    Some(p) => p,
                    None => return Err(ElfError::Malformed),
                };
                let (off, size, link) = if wide {
                    (read_u64(b, sh + 24), read_u64(b, sh + 32), read_u32(b, sh + 40))
                } else {
                    (read_u32(b, sh + 16), read_u32(b, sh + 20), read_u32(b, sh + 24))
                };
                let strsh = match entry_pos(shoff, link, shentsize, sh_rec, n) {
                    Some(p) => p,
                    None => {
                        proof {
                            assert(!elf_parsable(b@));
                        }
                        return Err(ElfError::Malformed);
                    },
                };
                let (str_off, str_size) = if wide {
                    (read_u64(b, strsh + 24), read_u64(b, strsh + 32))
                } else {
                    (read_u32(b, strsh + 16), read_u32(b, strsh + 20))
                };
                if str_off as u128 + str_size as u128 > n as u128 {
                    return Err(ElfError::Malformed);
                }
                let str_start = str_off as usize;
                let str_end = (str_off + str_size) as usize;
                let count = size / sym_rec;
                let mut m: u64 = 0;
                while m < count
                    invariant
                        n == b@.len(),
                        wide == (b@[4] == 2),
                        sym_rec == (if wide { 24u64 } else { 16u64 }),
                        count == size / sym_rec,
                        m <= count,
                        str_start == str_off,
                        str_end == str_off + str_size <= n,
                        symbols@.len() == m,
                        shoff == le_word(b@, header_layout(wide).3, wide),
                        shentsize == le_u16(b@, header_layout(wide).6),
                        shnum == le_u16(b@, header_layout(wide).7),
                        symtab_index(b@, shoff as int, shentsize as int, shnum as nat, wide) == Some(t as nat),
                        off == section_at(b@, shoff + t * shentsize, wide).1,
                        size == section_at(b@, shoff + t * shentsize, wide).2,
                        link == section_at(b@, shoff + t * shentsize, wide).3,
                        str_off == section_at(b@, shoff + link * shentsize, wide).1,
                        str_size == section_at(b@, shoff + link * shentsize, wide).2,
                        forall|q: int| 0 <= q < m ==> #[trigger] symbol_fits(b@, off + q * sym_rec, str_off as int, (str_off + str_size) as int, wide),
                        forall|q: int| 0 <= q < m ==> symbol_matches(#[trigger] symbols@[q], b@, off + q * sym_rec, str_off as int, (str_off + str_size) as int, wide),
                    decreases count - m,
                {
                    let s = match entry_pos(off, m, sym_rec, sym_rec, n) {
                        Some(p) => p,
                        None => {
                            proof {
                                assert(!symbol_fits(b@, off + m * sym_rec, str_off as int, (str_off + str_size) as int, wide));
                                assert(!elf_parsable(b@));
                            }
                            return Err(ElfError::Malformed);
                        },
                    };
                    let name_at = read_u32(b, s);
                    let (value, sym_size) = if wide {
                        (read_u64(b, s + 8), read_u64(b, s + 16))
                    } else {
                        (read_u32(b, s + 4), read_u32(b, s + 8))
                    };
                    proof {
                        assert(m < (size as nat) / (record_sizes(wide).2 as nat));
                        assert(elf_parsable(b@) ==> symbol_fits(b@, off + m * sym_rec, str_off as int, (str_off + str_size) as int, wide));
                    }
                    if name_at as u128 + str_start as u128 > usize::MAX as u128 {
                        proof {
                            assert(!symbol_fits(b@, off + m * sym_rec, str_off as int, (str_off + str_size) as int, wide));
                            assert(!elf_parsable(b@));
                        }
                        return Err(ElfError::Malformed);
                    }
                    let name = match read_name(b, str_start + name_at as usize, str_end) {
                        Some(v) => v,
                        None => {
                            proof {
                                assert(!symbol_fits(b@, off + m * sym_rec, str_off as int, (str_off + str_size) as int, wide));
                                assert(!elf_parsable(b@));
                            }
                            return Err(ElfError::Malformed);
                        },
                    };
                    proof {
                        assert(symbol_fits(b@, off + m * sym_rec, str_off as int, (str_off + str_size) as int, wide));
                    }
                    let sym = ElfSymbol { name, value, size: sym_size };
                    proof {
                        assert(symbol_matches(sym, b@, off + m * sym_rec, str_off as int, (str_off + str_size) as int, wide));
                    }
                    symbols.push(sym);
                    m = m + 1;
                }
            },
        }
        let e = ElfFile { word_size: if wide { 64 } else { 32 }, entry, segments, symbols };
        Ok(e)
    }
}

} // verus!
