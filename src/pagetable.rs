//! The four-level address-space tree (PGD, PUD, DIR, PT) used to lay out the
//! page tables of an initial task, and its serialisation into one buffer.
use crate::encode::{encode_words, le_words, lemma_le_words_index, lemma_le_words_len};
use vstd::bytes::spec_u64_from_le_bytes;
use crate::sel4::{LARGE_PAGE_BYTES, SMALL_PAGE_BYTES};
use vstd::prelude::*;

verus! {

pub const PAGE_TABLE_ENTRIES: u64 = 512;

pub const PAGE_TABLE_MASK: u64 = 0x1ff;

/// Bytes taken by one table of the tree: 512 entries of eight bytes.
pub const TABLE_BYTES: u64 = 4096;

/// Shift of the index bits of each level in a virtual address.
pub enum PageTableMaskShift {
    PGD,
    PUD,
    PD,
    PT,
}

impl PageTableMaskShift {
    pub open spec fn shift_spec(&self) -> u64 {
        match self {
            PageTableMaskShift::PGD => 39,
            PageTableMaskShift::PUD => 30,
            PageTableMaskShift::PD => 21,
            PageTableMaskShift::PT => 12,
        }
    }

    pub fn shift(&self) -> (r: u64)
        ensures
            r == self.shift_spec(),
    {
        match self {
            PageTableMaskShift::PGD => 39,
            PageTableMaskShift::PUD => 30,
            PageTableMaskShift::PD => 21,
            PageTableMaskShift::PT => 12,
        }
    }
}

/// Table metadata handed to the initial task: a base address and the
/// offsets of its top-level entries.
pub struct TableMetadata {
    pub base_addr: u64,
    pub pgd: [u64; 64],
}

/// The index that `vaddr` selects in a table whose index bits start at `shift`.
pub open spec fn table_index(vaddr: u64, shift: u64) -> int {
    ((vaddr >> shift) & PAGE_TABLE_MASK) as int
}

proof fn lemma_table_index_bound(vaddr: u64, shift: u64)
    ensures
        0 <= table_index(vaddr, shift) < 512,
{
    let x = (vaddr >> shift) & PAGE_TABLE_MASK;
    assert(x < 512) by (bit_vector)
        requires
            x == (vaddr >> shift) & 0x1ff,
    ;
}

fn index_at(vaddr: u64, shift: u64) -> (r: usize)
    requires
        shift < 64,
    ensures
        r == table_index(vaddr, shift),
        r < 512,
{
    let idx = (vaddr >> shift) & PAGE_TABLE_MASK;
    assert(idx < 512) by (bit_vector)
        requires
            idx == (vaddr >> shift) & 0x1ff,
    ;
    idx as usize
}

/// What a directory slot holds, as a value.
pub enum DirSlot {
    Table(Seq<u64>),
    Large(u64),
}

pub open spec fn empty_pt() -> Seq<u64> {
    Seq::new(512, |_i: int| u64::MAX)
}

pub open spec fn empty_dir() -> Seq<Option<DirSlot>> {
    Seq::new(512, |_i: int| None)
}

pub open spec fn empty_pud() -> Seq<Option<Seq<Option<DirSlot>>>> {
    Seq::new(512, |_i: int| None)
}

/// Adding a page to a leaf table: its slot takes the frame.
pub open spec fn pt_add(t: Seq<u64>, vaddr: u64, frame: u64) -> Seq<u64> {
    t.update(table_index(vaddr, 12), frame)
}

/// A small page may not go where a large page is, nor a large page where a
/// leaf table is.
pub open spec fn dir_can_add(d: Seq<Option<DirSlot>>, vaddr: u64, size: u64) -> bool {
    let e = d[table_index(vaddr, 21)];
    &&& size == SMALL_PAGE_BYTES ==> !(e matches Some(DirSlot::Large(_)))
    &&& size == LARGE_PAGE_BYTES ==> !(e matches Some(DirSlot::Table(_)))
}

/// Adding a page to a directory: a small page goes into the leaf table of
/// its slot (made when missing), a large page replaces the slot; other sizes
/// change nothing.
pub open spec fn dir_add(d: Seq<Option<DirSlot>>, vaddr: u64, frame: u64, size: u64) -> Seq<
    Option<DirSlot>,
> {
    let i = table_index(vaddr, 21);
    if size == SMALL_PAGE_BYTES {
        let t = match d[i] {
            Some(DirSlot::Table(t)) => t,
            _ => empty_pt(),
        };
        d.update(i, Some(DirSlot::Table(pt_add(t, vaddr, frame))))
    } else if size == LARGE_PAGE_BYTES {
        d.update(i, Some(DirSlot::Large(frame)))
    } else {
        d
    }
}

pub open spec fn pud_can_add(p: Seq<Option<Seq<Option<DirSlot>>>>, vaddr: u64, size: u64) -> bool {
    match p[table_index(vaddr, 30)] {
        Some(d) => dir_can_add(d, vaddr, size),
        None => true,
    }
}

pub open spec fn pud_add(p: Seq<Option<Seq<Option<DirSlot>>>>, vaddr: u64, frame: u64, size: u64) -> Seq<
    Option<Seq<Option<DirSlot>>>,
> {
    let i = table_index(vaddr, 30);
    let d = match p[i] {
        Some(d) => d,
        None => empty_dir(),
    };
    p.update(i, Some(dir_add(d, vaddr, frame, size)))
}

pub open spec fn pgd_can_add(
    g: Seq<Option<Seq<Option<Seq<Option<DirSlot>>>>>>,
    vaddr: u64,
    size: u64,
) -> bool {
    match g[table_index(vaddr, 39)] {
        Some(p) => pud_can_add(p, vaddr, size),
        None => true,
    }
}

pub open spec fn pgd_add(
    g: Seq<Option<Seq<Option<Seq<Option<DirSlot>>>>>>,
    vaddr: u64,
    frame: u64,
    size: u64,
) -> Seq<Option<Seq<Option<Seq<Option<DirSlot>>>>>> {
    let i = table_index(vaddr, 39);
    let p = match g[i] {
        Some(p) => p,
        None => empty_pud(),
    };
    g.update(i, Some(pud_add(p, vaddr, frame, size)))
}

/// The value of a directory slot whose child table is large-page tagged.
pub open spec fn large_page_entry(frame: u64) -> u64 {
    frame | 0x8000_0000_0000_0000
}

/// Serialisation of the first `n` slots of a directory at buffer offset
/// `off`: the bytes of the leaf tables below them, in slot order, and the
/// directory's own entries. A leaf-table slot holds the offset of that table.
pub open spec fn dir_ser_prefix(d: Seq<Option<DirSlot>>, n: nat, off: int) -> (Seq<u8>, Seq<u64>)
    decreases n,
{
    if n == 0 {
        (seq![], seq![])
    } else {
        let (b, t) = dir_ser_prefix(d, (n - 1) as nat, off);
        match d[n - 1] {
            None => (b, t.push(u64::MAX)),
            Some(DirSlot::Large(f)) => (b, t.push(large_page_entry(f))),
            Some(DirSlot::Table(p)) => (b + le_words(p), t.push((off + b.len()) as u64)),
        }
    }
}

/// A directory serialised at offset `off`: its leaf tables, then itself.
pub open spec fn dir_ser(d: Seq<Option<DirSlot>>, off: int) -> Seq<u8> {
    let (b, t) = dir_ser_prefix(d, d.len(), off);
    b + le_words(t)
}

pub open spec fn pud_ser_prefix(p: Seq<Option<Seq<Option<DirSlot>>>>, n: nat, off: int) -> (Seq<u8>, Seq<u64>)
    decreases n,
{
    if n == 0 {
        (seq![], seq![])
    } else {
        let (b, t) = pud_ser_prefix(p, (n - 1) as nat, off);
        match p[n - 1] {
            None => (b, t.push(u64::MAX)),
            Some(d) => {
                let c = dir_ser(d, off + b.len());
                (b + c, t.push((off + b.len() + c.len() - TABLE_BYTES) as u64))
            },
        }
    }
}

pub open spec fn pud_ser(p: Seq<Option<Seq<Option<DirSlot>>>>, off: int) -> Seq<u8> {
    let (b, t) = pud_ser_prefix(p, p.len(), off);
    b + le_words(t)
}

pub open spec fn pgd_ser_prefix(
    g: Seq<Option<Seq<Option<Seq<Option<DirSlot>>>>>>,
    n: nat,
    off: int,
) -> (Seq<u8>, Seq<u64>)
    decreases n,
{
    if n == 0 {
        (seq![], seq![])
    } else {
        let (b, t) = pgd_ser_prefix(g, (n - 1) as nat, off);
        match g[n - 1] {
            None => (b, t.push(u64::MAX)),
            Some(p) => {
                let c = pud_ser(p, off + b.len());
                (b + c, t.push((off + b.len() + c.len() - TABLE_BYTES) as u64))
            },
        }
    }
}

/// The whole tree serialised at offset `off`, depth first, each table after
/// the tables below it; the top-level table comes last.
pub open spec fn pgd_ser(g: Seq<Option<Seq<Option<Seq<Option<DirSlot>>>>>>, off: int) -> Seq<u8> {
    let (b, t) = pgd_ser_prefix(g, g.len(), off);
    b + le_words(t)
}

/// Bytes of the leaf tables below the first `n` slots of a directory.
pub open spec fn dir_kids_size(d: Seq<Option<DirSlot>>, n: nat) -> nat
    decreases n,
{
    if n == 0 {
        0
    } else {
        dir_kids_size(d, (n - 1) as nat) + match d[n - 1] {
            Some(DirSlot::Table(_)) => TABLE_BYTES as nat,
            _ => 0,
        }
    }
}

pub open spec fn dir_size(d: Seq<Option<DirSlot>>) -> nat {
    TABLE_BYTES as nat + dir_kids_size(d, d.len())
}

pub open spec fn pud_kids_size(p: Seq<Option<Seq<Option<DirSlot>>>>, n: nat) -> nat
    decreases n,
{
    if n == 0 {
        0
    } else {
        pud_kids_size(p, (n - 1) as nat) + match p[n - 1] {
            Some(d) => dir_size(d),
            None => 0,
        }
    }
}

pub open spec fn pud_size(p: Seq<Option<Seq<Option<DirSlot>>>>) -> nat {
    TABLE_BYTES as nat + pud_kids_size(p, p.len())
}

pub open spec fn pgd_kids_size(g: Seq<Option<Seq<Option<Seq<Option<DirSlot>>>>>>, n: nat) -> nat
    decreases n,
{
    if n == 0 {
        0
    } else {
        pgd_kids_size(g, (n - 1) as nat) + match g[n - 1] {
            Some(p) => pud_size(p),
            None => 0,
        }
    }
}

pub open spec fn pgd_size(g: Seq<Option<Seq<Option<Seq<Option<DirSlot>>>>>>) -> nat {
    TABLE_BYTES as nat + pgd_kids_size(g, g.len())
}


/// Every leaf table below a directory has 512 slots, and so has the directory.
pub open spec fn dir_shaped(d: Seq<Option<DirSlot>>) -> bool {
    &&& d.len() == 512
    &&& forall|i: int| 0 <= i < 512 ==> (#[trigger] d[i] matches Some(DirSlot::Table(t)) ==> t.len() == 512)
}

pub open spec fn pud_shaped(p: Seq<Option<Seq<Option<DirSlot>>>>) -> bool {
    &&& p.len() == 512
    &&& forall|i: int| 0 <= i < 512 ==> (#[trigger] p[i] matches Some(d) ==> dir_shaped(d))
}

pub open spec fn pgd_shaped(g: Seq<Option<Seq<Option<Seq<Option<DirSlot>>>>>>) -> bool {
    &&& g.len() == 512
    &&& forall|i: int| 0 <= i < 512 ==> (#[trigger] g[i] matches Some(p) ==> pud_shaped(p))
}

proof fn lemma_dir_add_shaped(d: Seq<Option<DirSlot>>, vaddr: u64, frame: u64, size: u64)
    requires
        dir_shaped(d),
    ensures
        dir_shaped(dir_add(d, vaddr, frame, size)),
{
    let i = table_index(vaddr, 21);
    lemma_table_index_bound(vaddr, 21);
    let r = dir_add(d, vaddr, frame, size);
    assert forall|k: int| 0 <= k < 512 implies (#[trigger] r[k] matches Some(DirSlot::Table(t)) ==> t.len() == 512) by {
        if k != i {
            assert(r[k] == d[k]);
        } else if size == SMALL_PAGE_BYTES {
            let t0 = match d[i] {
                Some(DirSlot::Table(t)) => t,
                _ => empty_pt(),
            };
            assert(t0.len() == 512);
            lemma_table_index_bound(vaddr, 12);
            assert(r[k] == Some(DirSlot::Table(pt_add(t0, vaddr, frame))));
        }
    }
}

proof fn lemma_pud_add_shaped(p: Seq<Option<Seq<Option<DirSlot>>>>, vaddr: u64, frame: u64, size: u64)
    requires
        pud_shaped(p),
    ensures
        pud_shaped(pud_add(p, vaddr, frame, size)),
{
    let i = table_index(vaddr, 30);
    lemma_table_index_bound(vaddr, 30);
    let d = match p[i] {
        Some(d) => d,
        None => empty_dir(),
    };
    lemma_dir_add_shaped(d, vaddr, frame, size);
    let r = pud_add(p, vaddr, frame, size);
    assert forall|k: int| 0 <= k < 512 implies (#[trigger] r[k] matches Some(x) ==> dir_shaped(x)) by {
        if k != i {
            assert(r[k] == p[k]);
        }
    }
}

proof fn lemma_pgd_add_shaped(
    g: Seq<Option<Seq<Option<Seq<Option<DirSlot>>>>>>,
    vaddr: u64,
    frame: u64,
    size: u64,
)
    requires
        pgd_shaped(g),
    ensures
        pgd_shaped(pgd_add(g, vaddr, frame, size)),
{
    let i = table_index(vaddr, 39);
    lemma_table_index_bound(vaddr, 39);
    let p = match g[i] {
        Some(p) => p,
        None => empty_pud(),
    };
    lemma_pud_add_shaped(p, vaddr, frame, size);
    let r = pgd_add(g, vaddr, frame, size);
    assert forall|k: int| 0 <= k < 512 implies (#[trigger] r[k] matches Some(x) ==> pud_shaped(x)) by {
        if k != i {
            assert(r[k] == g[k]);
        }
    }
}

/// Most bytes that a directory with its leaf tables can take.
pub const DIR_MAX_BYTES: u64 = 4096 * 513;

/// Most bytes that an upper directory with everything below it can take.
pub const PUD_MAX_BYTES: u64 = 4096 + 512 * DIR_MAX_BYTES;

/// Most bytes that a whole tree can take.
pub const PGD_MAX_BYTES: u64 = 4096 + 512 * PUD_MAX_BYTES;

proof fn lemma_dir_ser_len(d: Seq<Option<DirSlot>>, n: nat, off: int)
    requires
        dir_shaped(d),
        n <= 512,
    ensures
        dir_ser_prefix(d, n, off).0.len() == dir_kids_size(d, n),
        dir_ser_prefix(d, n, off).1.len() == n,
        dir_kids_size(d, n) <= 4096 * n,
    decreases n,
{
    if n > 0 {
        lemma_dir_ser_len(d, (n - 1) as nat, off);
        if let Some(DirSlot::Table(p)) = d[n - 1] {
            lemma_le_words_len(p);
        }
    }
}

proof fn lemma_dir_kids_mono(d: Seq<Option<DirSlot>>, n: nat, m: nat)
    requires
        n <= m,
    ensures
        dir_kids_size(d, n) <= dir_kids_size(d, m),
    decreases m,
{
    if n < m {
        lemma_dir_kids_mono(d, n, (m - 1) as nat);
    }
}

/// A serialised directory takes `dir_size` bytes, at most `DIR_MAX_BYTES`.
pub proof fn lemma_dir_size(d: Seq<Option<DirSlot>>, off: int)
    requires
        dir_shaped(d),
    ensures
        dir_ser(d, off).len() == dir_size(d),
        dir_size(d) <= DIR_MAX_BYTES,
{
    lemma_dir_ser_len(d, 512, off);
    lemma_le_words_len(dir_ser_prefix(d, 512, off).1);
}

proof fn lemma_pud_ser_len(p: Seq<Option<Seq<Option<DirSlot>>>>, n: nat, off: int)
    requires
        pud_shaped(p),
        n <= 512,
    ensures
        pud_ser_prefix(p, n, off).0.len() == pud_kids_size(p, n),
        pud_ser_prefix(p, n, off).1.len() == n,
        pud_kids_size(p, n) <= DIR_MAX_BYTES * n,
    decreases n,
{
    if n > 0 {
        lemma_pud_ser_len(p, (n - 1) as nat, off);
        if let Some(d) = p[n - 1] {
            lemma_dir_size(d, off + pud_ser_prefix(p, (n - 1) as nat, off).0.len());
        }
    }
}

proof fn lemma_pud_kids_mono(p: Seq<Option<Seq<Option<DirSlot>>>>, n: nat, m: nat)
    requires
        n <= m,
    ensures
        pud_kids_size(p, n) <= pud_kids_size(p, m),
    decreases m,
{
    if n < m {
        lemma_pud_kids_mono(p, n, (m - 1) as nat);
    }
}

/// A serialised upper directory takes `pud_size` bytes, at most `PUD_MAX_BYTES`.
pub proof fn lemma_pud_size(p: Seq<Option<Seq<Option<DirSlot>>>>, off: int)
    requires
        pud_shaped(p),
    ensures
        pud_ser(p, off).len() == pud_size(p),
        pud_size(p) <= PUD_MAX_BYTES,
{
    lemma_pud_ser_len(p, 512, off);
    lemma_le_words_len(pud_ser_prefix(p, 512, off).1);
}

proof fn lemma_pgd_ser_len(g: Seq<Option<Seq<Option<Seq<Option<DirSlot>>>>>>, n: nat, off: int)
    requires
        pgd_shaped(g),
        n <= 512,
    ensures
        pgd_ser_prefix(g, n, off).0.len() == pgd_kids_size(g, n),
        pgd_ser_prefix(g, n, off).1.len() == n,
        pgd_kids_size(g, n) <= PUD_MAX_BYTES * n,
    decreases n,
{
    if n > 0 {
        lemma_pgd_ser_len(g, (n - 1) as nat, off);
        assert(PUD_MAX_BYTES * (n - 1) + PUD_MAX_BYTES == PUD_MAX_BYTES * n) by (nonlinear_arith);
        if let Some(p) = g[n - 1] {
            lemma_pud_size(p, off + pgd_ser_prefix(g, (n - 1) as nat, off).0.len());
        }
    }
}

proof fn lemma_pgd_kids_mono(g: Seq<Option<Seq<Option<Seq<Option<DirSlot>>>>>>, n: nat, m: nat)
    requires
        n <= m,
    ensures
        pgd_kids_size(g, n) <= pgd_kids_size(g, m),
    decreases m,
{
    if n < m {
        lemma_pgd_kids_mono(g, n, (m - 1) as nat);
    }
}

/// A serialised tree takes `pgd_size` bytes, at most `PGD_MAX_BYTES`.
pub proof fn lemma_pgd_size(g: Seq<Option<Seq<Option<Seq<Option<DirSlot>>>>>>, off: int)
    requires
        pgd_shaped(g),
    ensures
        pgd_ser(g, off).len() == pgd_size(g),
        pgd_size(g) <= PGD_MAX_BYTES,
{
    lemma_pgd_ser_len(g, 512, off);
    lemma_le_words_len(pgd_ser_prefix(g, 512, off).1);
}


/// A leaf table: 512 frame slots, `u64::MAX` where nothing is mapped.
#[derive(Debug)]
pub struct PT {
    large_page: u64,
    pages: Vec<u64>,
}

impl View for PT {
    type V = Seq<u64>;

    closed spec fn view(&self) -> Seq<u64> {
        self.pages@
    }
}

impl PT {
    pub open spec fn wf(&self) -> bool {
        self@.len() == 512
    }

    fn new() -> (r: PT)
        ensures
            r@ == empty_pt(),
    {
        let pages = vec![u64::MAX; PAGE_TABLE_ENTRIES as usize];
        proof {
            assert(pages@ =~= empty_pt());
        }
        PT { pages, large_page: u64::MAX }
    }

    /// Appends the table to `buffer`; returns the offset just after it.
    fn recurse(&self, curr_offset: u64, buffer: &mut Vec<u8>) -> (r: u64)
        requires
            curr_offset + TABLE_BYTES <= u64::MAX,
        ensures
            final(buffer)@ == old(buffer)@ + le_words(self@),
            r == curr_offset + TABLE_BYTES,
    {
        let mut bytes = encode_words(&self.pages);
        buffer.append(&mut bytes);
        curr_offset + (PAGE_TABLE_ENTRIES * 8)
    }

    fn add_page_at_vaddr(&mut self, vaddr: u64, frame: u64, size: u64)
        requires
            old(self).wf(),
            size == SMALL_PAGE_BYTES,
        ensures
            final(self)@ == pt_add(old(self)@, vaddr, frame),
    {
        let pt_index = index_at(vaddr, PageTableMaskShift::PT.shift());
        self.pages[pt_index] = frame;
    }

    fn get_size(&self) -> (r: u64)
        ensures
            r == TABLE_BYTES,
    {
        PAGE_TABLE_ENTRIES * 8
    }
}

/// A directory slot: a leaf table, or a 2 MiB page.
#[derive(Debug)]
pub enum DirEntry {
    PageTable(PT),
    LargePage(u64),
}

impl View for DirEntry {
    type V = DirSlot;

    open spec fn view(&self) -> DirSlot {
        match self {
            DirEntry::PageTable(t) => DirSlot::Table(t@),
            DirEntry::LargePage(f) => DirSlot::Large(*f),
        }
    }
}

pub open spec fn opt_view<T: View>(o: Option<T>) -> Option<T::V> {
    match o {
        Some(x) => Some(x@),
        None => None,
    }
}

/// A directory: 512 slots, each empty, a leaf table or a large page.
#[derive(Debug)]
pub struct DIR {
    entries: Vec<Option<DirEntry>>,
}

impl View for DIR {
    type V = Seq<Option<DirSlot>>;

    closed spec fn view(&self) -> Seq<Option<DirSlot>> {
        self.entries@.map_values(|e: Option<DirEntry>| opt_view(e))
    }
}

impl DIR {
    pub open spec fn wf(&self) -> bool {
        dir_shaped(self@)
    }

    fn new() -> (r: DIR)
        ensures
            r@ == empty_dir(),
    {
        let mut entries: Vec<Option<DirEntry>> = Vec::new();
        let mut i: usize = 0;
        while i < 512
            invariant
                i <= 512,
                entries@.len() == i,
                forall|k: int| 0 <= k < i ==> (#[trigger] entries@[k]).is_none(),
            decreases 512 - i,
        {
            entries.push(None);
            i = i + 1;
        }
        let r = DIR { entries };
        proof {
            assert(r@ =~= empty_dir());
        }
        r
    }

    /// Appends the leaf tables, in slot order, then the directory itself;
    /// returns the offset just after it.
    fn recurse(&self, curr_offset: u64, buffer: &mut Vec<u8>) -> (r: u64)
        requires
            self.wf(),
            curr_offset + dir_size(self@) <= u64::MAX,
        ensures
            final(buffer)@ == old(buffer)@ + dir_ser(self@, curr_offset as int),
            r == curr_offset + dir_size(self@),
    {
        let ghost start = old(buffer)@;
        let ghost off = curr_offset as int;
        let ghost d = self@;
        let mut curr_offset = curr_offset;
        let mut offset_table: Vec<u64> = Vec::new();
        let mut i: usize = 0;
        proof {
            lemma_dir_kids_mono(d, 0, 512);
        }
        while i < 512
            invariant
                i <= 512,
                self.wf(),
                d == self@,
                self.entries@.len() == 512,
                off + dir_size(d) <= u64::MAX,
                buffer@ == start + dir_ser_prefix(d, i as nat, off).0,
                offset_table@ == dir_ser_prefix(d, i as nat, off).1,
                curr_offset == off + dir_kids_size(d, i as nat),
            decreases 512 - i,
        {
            proof {
                lemma_dir_ser_len(d, i as nat, off);
                lemma_dir_kids_mono(d, (i + 1) as nat, 512);
                assert(d[i as int] == opt_view(self.entries@[i as int]));
            }
            match &self.entries[i] {
                Some(DirEntry::PageTable(x)) => {
                    proof {
                        lemma_le_words_len(x@);
                    }
                    curr_offset = x.recurse(curr_offset, buffer);
                    offset_table.push(curr_offset - (PAGE_TABLE_ENTRIES * 8));
                },
                Some(DirEntry::LargePage(x)) => {
                    // the top bit tells the loader that this slot is a large page
                    offset_table.push(*x | 0x8000_0000_0000_0000u64);
                },
                None => {
                    offset_table.push(u64::MAX);
                },
            }
            proof {
                assert(buffer@ =~= start + dir_ser_prefix(d, (i + 1) as nat, off).0);
            }
            i = i + 1;
        }
        let mut bytes = encode_words(&offset_table);
        buffer.append(&mut bytes);
        proof {
            assert(buffer@ =~= start + dir_ser(d, off));
        }
        curr_offset + (PAGE_TABLE_ENTRIES * 8)
    }

    fn add_page_at_vaddr(&mut self, vaddr: u64, frame: u64, size: u64)
        requires
            old(self).wf(),
            dir_can_add(old(self)@, vaddr, size),
        ensures
            final(self).wf(),
            final(self)@ == dir_add(old(self)@, vaddr, frame, size),
    {
        let dir_index = index_at(vaddr, PageTableMaskShift::PD.shift());
        let ghost d = self@;
        proof {
            assert(d[dir_index as int] == opt_view(self.entries@[dir_index as int]));
        }
        if size == SMALL_PAGE_BYTES {
            let taken = self.entries[dir_index].take();
            let mut pt = match taken {
                Some(DirEntry::PageTable(x)) => x,
                _ => PT::new(),
            };
            pt.add_page_at_vaddr(vaddr, frame, size);
            self.entries[dir_index] = Some(DirEntry::PageTable(pt));
        } else if size == LARGE_PAGE_BYTES {
            self.entries[dir_index] = Some(DirEntry::LargePage(frame));
        }
        proof {
            assert(self@ =~= dir_add(d, vaddr, frame, size));
            lemma_dir_add_shaped(d, vaddr, frame, size);
        }
    }

    fn get_size(&self) -> (r: u64)
        requires
            self.wf(),
        ensures
            r == dir_size(self@),
    {
        let ghost d = self@;
        let mut child_size: u64 = 0;
        let mut i: usize = 0;
        while i < 512
            invariant
                i <= 512,
                d == self@,
                self.wf(),
                self.entries@.len() == 512,
                child_size == dir_kids_size(d, i as nat),
            decreases 512 - i,
        {
            proof {
                lemma_dir_ser_len(d, (i + 1) as nat, 0);
                assert(d[i as int] == opt_view(self.entries@[i as int]));
            }
            if let Some(DirEntry::PageTable(x)) = &self.entries[i] {
                child_size = child_size + x.get_size();
            }
            i = i + 1;
        }
        proof {
            lemma_dir_ser_len(d, 512, 0);
        }
        (PAGE_TABLE_ENTRIES * 8) + child_size
    }
}


/// An upper directory: 512 slots, each empty or a directory.
#[derive(Debug)]
pub struct PUD {
    dirs: Vec<Option<DIR>>,
}

impl View for PUD {
    type V = Seq<Option<Seq<Option<DirSlot>>>>;

    closed spec fn view(&self) -> Seq<Option<Seq<Option<DirSlot>>>> {
        self.dirs@.map_values(|e: Option<DIR>| opt_view(e))
    }
}

/// What is left of a length that may have gone below zero.
pub open spec fn remaining(data_len: int) -> nat {
    if data_len > 0 {
        data_len as nat
    } else {
        0
    }
}

/// Adding pages of `size` bytes, all for `frame`, from `vaddr` on until
/// `data_len` bytes are covered.
pub open spec fn pud_add_range(p: Seq<Option<Seq<Option<DirSlot>>>>, vaddr: u64, data_len: int, frame: u64, size: u64) -> Seq<Option<Seq<Option<DirSlot>>>>
    decreases remaining(data_len),
{
    if data_len <= 0 || size == 0 {
        p
    } else {
        pud_add_range(pud_add(p, vaddr, frame, size), (vaddr + size) as u64, data_len - size, frame, size)
    }
}

/// Every page of such a range may be added, and no address wraps.
pub open spec fn pud_range_can_add(p: Seq<Option<Seq<Option<DirSlot>>>>, vaddr: u64, data_len: int, frame: u64, size: u64) -> bool
    decreases remaining(data_len),
{
    if data_len <= 0 || size == 0 {
        true
    } else {
        &&& pud_can_add(p, vaddr, size)
        &&& data_len - size > 0 ==> vaddr + size <= u64::MAX
        &&& pud_range_can_add(pud_add(p, vaddr, frame, size), (vaddr + size) as u64, data_len - size, frame, size)
    }
}

impl PUD {
    pub open spec fn wf(&self) -> bool {
        pud_shaped(self@)
    }

    pub fn new() -> (r: PUD)
        ensures
            r@ == empty_pud(),
            r.wf(),
    {
        let mut dirs: Vec<Option<DIR>> = Vec::new();
        let mut i: usize = 0;
        while i < 512
            invariant
                i <= 512,
                dirs@.len() == i,
                forall|k: int| 0 <= k < i ==> (#[trigger] dirs@[k]).is_none(),
            decreases 512 - i,
        {
            dirs.push(None);
            i = i + 1;
        }
        let r = PUD { dirs };
        proof {
            assert(r@ =~= empty_pud());
        }
        r
    }

    /// Appends every directory below, with its leaf tables, in slot order,
    /// then the table itself; returns the offset just after it.
    pub fn recurse(&self, curr_offset: u64, buffer: &mut Vec<u8>) -> (r: u64)
        requires
            self.wf(),
            curr_offset + pud_size(self@) <= u64::MAX,
        ensures
            final(buffer)@ == old(buffer)@ + pud_ser(self@, curr_offset as int),
            r == curr_offset + pud_size(self@),
    {
        let ghost start = old(buffer)@;
        let ghost off = curr_offset as int;
        let ghost p = self@;
        let mut curr_offset = curr_offset;
        let mut offset_table: Vec<u64> = Vec::new();
        let mut i: usize = 0;
        proof {
            lemma_pud_kids_mono(p, 0, 512);
        }
        while i < 512
            invariant
                i <= 512,
                self.wf(),
                p == self@,
                self.dirs@.len() == 512,
                off + pud_size(p) <= u64::MAX,
                buffer@ == start + pud_ser_prefix(p, i as nat, off).0,
                offset_table@ == pud_ser_prefix(p, i as nat, off).1,
                curr_offset == off + pud_kids_size(p, i as nat),
            decreases 512 - i,
        {
            proof {
                lemma_pud_ser_len(p, i as nat, off);
                lemma_pud_kids_mono(p, (i + 1) as nat, 512);
                assert(p[i as int] == opt_view(self.dirs@[i as int]));
            }
            if let Some(dir) = &self.dirs[i] {
                proof {
                    lemma_dir_size(dir@, curr_offset as int);
                }
                curr_offset = dir.recurse(curr_offset, buffer);
                offset_table.push(curr_offset - (PAGE_TABLE_ENTRIES * 8));
            } else {
                offset_table.push(u64::MAX);
            }
            proof {
                assert(buffer@ =~= start + pud_ser_prefix(p, (i + 1) as nat, off).0);
            }
            i = i + 1;
        }
        let mut bytes = encode_words(&offset_table);
        buffer.append(&mut bytes);
        proof {
            assert(buffer@ =~= start + pud_ser(p, off));
        }
        curr_offset + (PAGE_TABLE_ENTRIES * 8)
    }

    /// Maps `vaddr` to `frame` with a page of `size` bytes, making the
    /// directory on the way when it is missing.
    pub fn add_page_at_vaddr(&mut self, vaddr: u64, frame: u64, size: u64)
        requires
            old(self).wf(),
            pud_can_add(old(self)@, vaddr, size),
        ensures
            final(self).wf(),
            final(self)@ == pud_add(old(self)@, vaddr, frame, size),
    {
        let pud_index = index_at(vaddr, PageTableMaskShift::PUD.shift());
        let ghost p = self@;
        proof {
            assert(p[pud_index as int] == opt_view(self.dirs@[pud_index as int]));
        }
        proof {
            lemma_table_index_bound(vaddr, 21);
        }
        let taken = self.dirs[pud_index].take();
        let mut dir = match taken {
            Some(d) => d,
            None => DIR::new(),
        };
        dir.add_page_at_vaddr(vaddr, frame, size);
        self.dirs[pud_index] = Some(dir);
        proof {
            assert(self@ =~= pud_add(p, vaddr, frame, size));
            lemma_pud_add_shaped(p, vaddr, frame, size);
        }
    }

    /// Maps pages of `size` bytes, all to `frame`, from `vaddr` on until
    /// `data_len` bytes are covered.
    pub fn add_page_at_vaddr_range(&mut self, vaddr: u64, data_len: i64, frame: u64, size: u64)
        requires
            old(self).wf(),
            0 < size <= i64::MAX,
            pud_range_can_add(old(self)@, vaddr, data_len as int, frame, size),
        ensures
            final(self).wf(),
            final(self)@ == pud_add_range(old(self)@, vaddr, data_len as int, frame, size),
    {
        let ghost v0 = vaddr;
        let ghost l0 = data_len as int;
        let mut vaddr = vaddr;
        let mut data_len = data_len;
        while data_len > 0
            invariant
                self.wf(),
                0 < size <= i64::MAX,
                pud_range_can_add(self@, vaddr, data_len as int, frame, size),
                pud_add_range(old(self)@, v0, l0, frame, size) == pud_add_range(self@, vaddr, data_len as int, frame, size),
            decreases remaining(data_len as int),
        {
            let ghost prev = vaddr;
            self.add_page_at_vaddr(vaddr, frame, size);
            data_len = data_len - size as i64;
            if data_len > 0 {
                vaddr = vaddr + size;
            }
            proof {
                if data_len <= 0 {
                    assert(pud_add_range(self@, (prev + size) as u64, data_len as int, frame, size) == self@);
                    assert(pud_add_range(self@, vaddr, data_len as int, frame, size) == self@);
                }
            }
        }
    }

    pub fn get_size(&self) -> (r: u64)
        requires
            self.wf(),
        ensures
            r == pud_size(self@),
    {
        let ghost p = self@;
        let mut child_size: u64 = 0;
        let mut i: usize = 0;
        while i < 512
            invariant
                i <= 512,
                p == self@,
                self.wf(),
                self.dirs@.len() == 512,
                child_size == pud_kids_size(p, i as nat),
            decreases 512 - i,
        {
            proof {
                lemma_pud_ser_len(p, (i + 1) as nat, 0);
                assert(p[i as int] == opt_view(self.dirs@[i as int]));
            }
            if let Some(dir) = &self.dirs[i] {
                child_size = child_size + dir.get_size();
            }
            i = i + 1;
        }
        proof {
            lemma_pud_ser_len(p, 512, 0);
        }
        (PAGE_TABLE_ENTRIES * 8) + child_size
    }
}

/// The top-level table: 512 slots, each empty or an upper directory.
#[derive(Debug)]
pub struct PGD {
    puds: Vec<Option<PUD>>,
}

impl View for PGD {
    type V = Seq<Option<Seq<Option<Seq<Option<DirSlot>>>>>>;

    closed spec fn view(&self) -> Seq<Option<Seq<Option<Seq<Option<DirSlot>>>>>> {
        self.puds@.map_values(|e: Option<PUD>| opt_view(e))
    }
}

/// Adding pages of `size` bytes, all for `frame`, from `vaddr` on until
/// `data_len` bytes are covered.
pub open spec fn pgd_add_range(p: Seq<Option<Seq<Option<Seq<Option<DirSlot>>>>>>, vaddr: u64, data_len: int, frame: u64, size: u64) -> Seq<Option<Seq<Option<Seq<Option<DirSlot>>>>>>
    decreases remaining(data_len),
{
    if data_len <= 0 || size == 0 {
        p
    } else {
        pgd_add_range(pgd_add(p, vaddr, frame, size), (vaddr + size) as u64, data_len - size, frame, size)
    }
}

/// Every page of such a range may be added, and no address wraps.
pub open spec fn pgd_range_can_add(p: Seq<Option<Seq<Option<Seq<Option<DirSlot>>>>>>, vaddr: u64, data_len: int, frame: u64, size: u64) -> bool
    decreases remaining(data_len),
{
    if data_len <= 0 || size == 0 {
        true
    } else {
        &&& pgd_can_add(p, vaddr, size)
        &&& data_len - size > 0 ==> vaddr + size <= u64::MAX
        &&& pgd_range_can_add(pgd_add(p, vaddr, frame, size), (vaddr + size) as u64, data_len - size, frame, size)
    }
}

impl PGD {
    pub open spec fn wf(&self) -> bool {
        pgd_shaped(self@)
    }

    pub fn new() -> (r: PGD)
        ensures
            r@ == empty_pgd(),
            r.wf(),
    {
        let mut puds: Vec<Option<PUD>> = Vec::new();
        let mut i: usize = 0;
        while i < 512
            invariant
                i <= 512,
                puds@.len() == i,
                forall|k: int| 0 <= k < i ==> (#[trigger] puds@[k]).is_none(),
            decreases 512 - i,
        {
            puds.push(None);
            i = i + 1;
        }
        let r = PGD { puds };
        proof {
            assert(r@ =~= empty_pgd());
        }
        r
    }

    /// Appends every upper directory below, with everything under it, in slot order,
    /// then the table itself; returns the offset just after it.
    pub fn recurse(&self, curr_offset: u64, buffer: &mut Vec<u8>) -> (r: u64)
        requires
            self.wf(),
            curr_offset + pgd_size(self@) <= u64::MAX,
        ensures
            final(buffer)@ == old(buffer)@ + pgd_ser(self@, curr_offset as int),
            r == curr_offset + pgd_size(self@),
    {
        let ghost start = old(buffer)@;
        let ghost off = curr_offset as int;
        let ghost p = self@;
        let mut curr_offset = curr_offset;
        let mut offset_table: Vec<u64> = Vec::new();
        let mut i: usize = 0;
        proof {
            lemma_pgd_kids_mono(p, 0, 512);
        }
        while i < 512
            invariant
                i <= 512,
                self.wf(),
                p == self@,
                self.puds@.len() == 512,
                off + pgd_size(p) <= u64::MAX,
                buffer@ == start + pgd_ser_prefix(p, i as nat, off).0,
                offset_table@ == pgd_ser_prefix(p, i as nat, off).1,
                curr_offset == off + pgd_kids_size(p, i as nat),
            decreases 512 - i,
        {
            proof {
                lemma_pgd_ser_len(p, i as nat, off);
                lemma_pgd_kids_mono(p, (i + 1) as nat, 512);
                assert(p[i as int] == opt_view(self.puds@[i as int]));
            }
            if let Some(pud) = &self.puds[i] {
                proof {
                    lemma_pud_size(pud@, curr_offset as int);
                }
                curr_offset = pud.recurse(curr_offset, buffer);
                offset_table.push(curr_offset - (PAGE_TABLE_ENTRIES * 8));
            } else {
                offset_table.push(u64::MAX);
            }
            proof {
                assert(buffer@ =~= start + pgd_ser_prefix(p, (i + 1) as nat, off).0);
            }
            i = i + 1;
        }
        let mut bytes = encode_words(&offset_table);
        buffer.append(&mut bytes);
        proof {
            assert(buffer@ =~= start + pgd_ser(p, off));
        }
        curr_offset + (PAGE_TABLE_ENTRIES * 8)
    }

    /// Maps `vaddr` to `frame` with a page of `size` bytes, making the
    /// tables on the way when they are missing.
    pub fn add_page_at_vaddr(&mut self, vaddr: u64, frame: u64, size: u64)
        requires
            old(self).wf(),
            pgd_can_add(old(self)@, vaddr, size),
        ensures
            final(self).wf(),
            final(self)@ == pgd_add(old(self)@, vaddr, frame, size),
    {
        let pgd_index = index_at(vaddr, PageTableMaskShift::PGD.shift());
        let ghost p = self@;
        proof {
            assert(p[pgd_index as int] == opt_view(self.puds@[pgd_index as int]));
        }
        proof {
            lemma_table_index_bound(vaddr, 30);
        }
        let taken = self.puds[pgd_index].take();
        let mut pud = match taken {
            Some(d) => d,
            None => PUD::new(),
        };
        pud.add_page_at_vaddr(vaddr, frame, size);
        self.puds[pgd_index] = Some(pud);
        proof {
            assert(self@ =~= pgd_add(p, vaddr, frame, size));
            lemma_pgd_add_shaped(p, vaddr, frame, size);
        }
    }

    /// Maps pages of `size` bytes, all to `frame`, from `vaddr` on until
    /// `data_len` bytes are covered.
    pub fn add_page_at_vaddr_range(&mut self, vaddr: u64, data_len: i64, frame: u64, size: u64)
        requires
            old(self).wf(),
            0 < size <= i64::MAX,
            pgd_range_can_add(old(self)@, vaddr, data_len as int, frame, size),
        ensures
            final(self).wf(),
            final(self)@ == pgd_add_range(old(self)@, vaddr, data_len as int, frame, size),
    {
        let ghost v0 = vaddr;
        let ghost l0 = data_len as int;
        let mut vaddr = vaddr;
        let mut data_len = data_len;
        while data_len > 0
            invariant
                self.wf(),
                0 < size <= i64::MAX,
                pgd_range_can_add(self@, vaddr, data_len as int, frame, size),
                pgd_add_range(old(self)@, v0, l0, frame, size) == pgd_add_range(self@, vaddr, data_len as int, frame, size),
            decreases remaining(data_len as int),
        {
            let ghost prev = vaddr;
            self.add_page_at_vaddr(vaddr, frame, size);
            data_len = data_len - size as i64;
            if data_len > 0 {
                vaddr = vaddr + size;
            }
            proof {
                if data_len <= 0 {
                    assert(pgd_add_range(self@, (prev + size) as u64, data_len as int, frame, size) == self@);
                    assert(pgd_add_range(self@, vaddr, data_len as int, frame, size) == self@);
                }
            }
        }
    }

    pub fn get_size(&self) -> (r: u64)
        requires
            self.wf(),
        ensures
            r == pgd_size(self@),
    {
        let ghost p = self@;
        let mut child_size: u64 = 0;
        let mut i: usize = 0;
        while i < 512
            invariant
                i <= 512,
                p == self@,
                self.wf(),
                self.puds@.len() == 512,
                child_size == pgd_kids_size(p, i as nat),
            decreases 512 - i,
        {
            proof {
                lemma_pgd_ser_len(p, (i + 1) as nat, 0);
                assert(PUD_MAX_BYTES * (i + 1) <= PUD_MAX_BYTES * 512) by (nonlinear_arith)
                    requires
                        i + 1 <= 512,
                ;
                assert(p[i as int] == opt_view(self.puds@[i as int]));
            }
            if let Some(pud) = &self.puds[i] {
                child_size = child_size + pud.get_size();
            }
            i = i + 1;
        }
        proof {
            lemma_pgd_ser_len(p, 512, 0);
        }
        (PAGE_TABLE_ENTRIES * 8) + child_size
    }
}


pub open spec fn empty_pgd() -> Seq<Option<Seq<Option<Seq<Option<DirSlot>>>>>> {
    Seq::new(512, |_i: int| None)
}

impl Default for PGD {
    fn default() -> (r: Self)
        ensures
            r@ == empty_pgd(),
            r.wf(),
    {
        Self::new()
    }
}

/// The root of the tree built for an initial task: a three-level tree on
/// RISC-V starts at an upper directory, a four-level one on AArch64 at a PGD.
#[derive(Debug)]
pub enum TopLevelPageTable {
    Riscv64 { top_level: PUD },
    Aarch64 { top_level: PGD },
}


/// The word at byte `pos` of a buffer, read little-endian.
pub open spec fn read_word_at(buf: Seq<u8>, pos: int) -> u64 {
    spec_u64_from_le_bytes(buf.subrange(pos, pos + 8))
}

proof fn lemma_read_in_words(t: Seq<u64>, k: int)
    requires
        0 <= k < t.len(),
    ensures
        read_word_at(le_words(t), 8 * k) == t[k],
{
    lemma_le_words_index(t, k);
    vstd::bytes::lemma_auto_spec_u64_to_from_le_bytes();
}

/// Reading inside a piece of a buffer reads the piece.
proof fn lemma_read_transfer(buf: Seq<u8>, c: Seq<u8>, s: int, i: int)
    requires
        0 <= s,
        s + c.len() <= buf.len(),
        buf.subrange(s, s + c.len()) == c,
        0 <= i,
        i + 8 <= c.len(),
    ensures
        read_word_at(buf, s + i) == read_word_at(c, i),
{
    assert(buf.subrange(s + i, s + i + 8) =~= c.subrange(i, i + 8));
}

/// A piece of a piece of a buffer is a piece of the buffer.
proof fn lemma_piece_transfer(buf: Seq<u8>, c: Seq<u8>, s: int, d: Seq<u8>, s2: int)
    requires
        0 <= s,
        s + c.len() <= buf.len(),
        buf.subrange(s, s + c.len()) == c,
        0 <= s2,
        s2 + d.len() <= c.len(),
        c.subrange(s2, s2 + d.len()) == d,
    ensures
        buf.subrange(s + s2, s + s2 + d.len()) == d,
{
    assert(buf.subrange(s + s2, s + s2 + d.len()) =~= c.subrange(s2, s2 + d.len()));
}

/// In a serialised directory, the leaf table of slot `k` lies right after
/// the tables of the slots before it, and slot `k` holds its offset.
proof fn lemma_dir_prefix_child(d: Seq<Option<DirSlot>>, n: nat, off: int, k: int)
    requires
        dir_shaped(d),
        0 <= k < n <= 512,
        d[k] matches Some(DirSlot::Table(_)),
    ensures
        ({
            let (b, t) = dir_ser_prefix(d, n, off);
            let bk = dir_ser_prefix(d, k as nat, off).0;
            let p = d[k]->Some_0->Table_0;
            &&& bk.len() + TABLE_BYTES <= b.len()
            &&& b.subrange(bk.len() as int, (bk.len() + TABLE_BYTES) as int) == le_words(p)
            &&& t[k] == (off + bk.len()) as u64
        }),
    decreases n,
{
    lemma_dir_ser_len(d, n, off);
    lemma_dir_ser_len(d, (n - 1) as nat, off);
    let p = d[k]->Some_0->Table_0;
    lemma_le_words_len(p);
    if k < n - 1 {
        lemma_dir_prefix_child(d, (n - 1) as nat, off, k);
        let (b0, t0) = dir_ser_prefix(d, (n - 1) as nat, off);
        let (b, t) = dir_ser_prefix(d, n, off);
        let bk = dir_ser_prefix(d, k as nat, off).0;
        assert(b.subrange(bk.len() as int, (bk.len() + TABLE_BYTES) as int) =~= b0.subrange(bk.len() as int, (bk.len() + TABLE_BYTES) as int));
        assert(t[k] == t0[k]);
    } else {
        let (b0, t0) = dir_ser_prefix(d, (n - 1) as nat, off);
        let (b, t) = dir_ser_prefix(d, n, off);
        assert(b.subrange(b0.len() as int, (b0.len() + TABLE_BYTES) as int) =~= le_words(p));
    }
}

/// In a serialised upper directory, the directory of slot `k` lies right
/// after those of the slots before it, and slot `k` holds the offset of its
/// own table, the last of its bytes.
proof fn lemma_pud_prefix_child(p: Seq<Option<Seq<Option<DirSlot>>>>, n: nat, off: int, k: int)
    requires
        pud_shaped(p),
        0 <= k < n <= 512,
        p[k] is Some,
    ensures
        ({
            let (b, t) = pud_ser_prefix(p, n, off);
            let bk = pud_ser_prefix(p, k as nat, off).0;
            let c = dir_ser(p[k]->Some_0, off + bk.len());
            &&& bk.len() + c.len() <= b.len()
            &&& b.subrange(bk.len() as int, (bk.len() + c.len()) as int) == c
            &&& t[k] == (off + bk.len() + c.len() - TABLE_BYTES) as u64
        }),
    decreases n,
{
    lemma_pud_ser_len(p, n, off);
    lemma_pud_ser_len(p, (n - 1) as nat, off);
    if k < n - 1 {
        lemma_pud_prefix_child(p, (n - 1) as nat, off, k);
        let (b0, t0) = pud_ser_prefix(p, (n - 1) as nat, off);
        let (b, t) = pud_ser_prefix(p, n, off);
        let bk = pud_ser_prefix(p, k as nat, off).0;
        let c = dir_ser(p[k]->Some_0, off + bk.len());
        assert(b.subrange(bk.len() as int, (bk.len() + c.len()) as int) =~= b0.subrange(bk.len() as int, (bk.len() + c.len()) as int));
        assert(t[k] == t0[k]);
    } else {
        let (b0, t0) = pud_ser_prefix(p, (n - 1) as nat, off);
        let (b, t) = pud_ser_prefix(p, n, off);
        let c = dir_ser(p[k]->Some_0, off + b0.len());
        assert(b.subrange(b0.len() as int, (b0.len() + c.len()) as int) =~= c);
    }
}

proof fn lemma_pgd_prefix_child(g: Seq<Option<Seq<Option<Seq<Option<DirSlot>>>>>>, n: nat, off: int, k: int)
    requires
        pgd_shaped(g),
        0 <= k < n <= 512,
        g[k] is Some,
    ensures
        ({
            let (b, t) = pgd_ser_prefix(g, n, off);
            let bk = pgd_ser_prefix(g, k as nat, off).0;
            let c = pud_ser(g[k]->Some_0, off + bk.len());
            &&& bk.len() + c.len() <= b.len()
            &&& b.subrange(bk.len() as int, (bk.len() + c.len()) as int) == c
            &&& t[k] == (off + bk.len() + c.len() - TABLE_BYTES) as u64
        }),
    decreases n,
{
    lemma_pgd_ser_len(g, n, off);
    lemma_pgd_ser_len(g, (n - 1) as nat, off);
    if k < n - 1 {
        lemma_pgd_prefix_child(g, (n - 1) as nat, off, k);
        let (b0, t0) = pgd_ser_prefix(g, (n - 1) as nat, off);
        let (b, t) = pgd_ser_prefix(g, n, off);
        let bk = pgd_ser_prefix(g, k as nat, off).0;
        let c = pud_ser(g[k]->Some_0, off + bk.len());
        assert(b.subrange(bk.len() as int, (bk.len() + c.len()) as int) =~= b0.subrange(bk.len() as int, (bk.len() + c.len()) as int));
        assert(t[k] == t0[k]);
    } else {
        let (b0, t0) = pgd_ser_prefix(g, (n - 1) as nat, off);
        let (b, t) = pgd_ser_prefix(g, n, off);
        let c = pud_ser(g[k]->Some_0, off + b0.len());
        assert(b.subrange(b0.len() as int, (b0.len() + c.len()) as int) =~= c);
    }
}


/// A serialised node is the bytes below it followed by its own table, which
/// is its last 4096 bytes.
proof fn lemma_node_split(all: Seq<u8>, below: Seq<u8>, table: Seq<u64>)
    requires
        all == below + le_words(table),
        table.len() == 512,
    ensures
        all.len() == below.len() + TABLE_BYTES,
        all.subrange(0, below.len() as int) == below,
        all.subrange(below.len() as int, all.len() as int) == le_words(table),
{
    lemma_le_words_len(table);
    assert(all.subrange(0, below.len() as int) =~= below);
    assert(all.subrange(below.len() as int, all.len() as int) =~= le_words(table));
}

/// Walks a serialised tree from its top-level table, as the initial task's
/// loader does: each slot read gives the offset of the next table down.
/// Returns the offset of the directory table that `vaddr` reaches.
pub open spec fn walk_to_dir(buf: Seq<u8>, vaddr: u64) -> int {
    let top = buf.len() - TABLE_BYTES;
    let pud = read_word_at(buf, top + 8 * table_index(vaddr, 39));
    read_word_at(buf, pud + 8 * table_index(vaddr, 30)) as int
}

/// What the directory slot that `vaddr` reaches holds in a serialised tree.
pub open spec fn dir_slot_at(buf: Seq<u8>, vaddr: u64) -> u64 {
    read_word_at(buf, walk_to_dir(buf, vaddr) + 8 * table_index(vaddr, 21))
}

/// What the leaf slot that `vaddr` reaches holds in a serialised tree.
pub open spec fn leaf_slot_at(buf: Seq<u8>, vaddr: u64) -> u64 {
    read_word_at(buf, dir_slot_at(buf, vaddr) + 8 * table_index(vaddr, 12))
}

/// The walk down a serialised tree from offset 0 reaches, for `vaddr`, the
/// serialised directory of its slots (and so the directory slot's word).
proof fn lemma_walk_to_dir(g: Seq<Option<Seq<Option<Seq<Option<DirSlot>>>>>>, vaddr: u64)
    requires
        pgd_shaped(g),
        g[table_index(vaddr, 39)] matches Some(p) && p[table_index(vaddr, 30)] is Some,
    ensures
        ({
            let buf = pgd_ser(g, 0);
            let p = g[table_index(vaddr, 39)]->Some_0;
            let d = p[table_index(vaddr, 30)]->Some_0;
            let pos = walk_to_dir(buf, vaddr);
            let start = pos + TABLE_BYTES - dir_size(d);
            &&& 0 <= start
            &&& pos + TABLE_BYTES <= buf.len()
            &&& buf.subrange(start, pos + TABLE_BYTES) == dir_ser(d, start)
        }),
{
    let gi = table_index(vaddr, 39);
    let ui = table_index(vaddr, 30);
    lemma_table_index_bound(vaddr, 39);
    lemma_table_index_bound(vaddr, 30);
    let buf = pgd_ser(g, 0);
    lemma_pgd_size(g, 0);
    let (bg, tg) = pgd_ser_prefix(g, 512, 0);
    lemma_pgd_ser_len(g, 512, 0);
    lemma_node_split(buf, bg, tg);
    let top = buf.len() - TABLE_BYTES;
    lemma_read_transfer(buf, le_words(tg), top, 8 * gi);
    lemma_read_in_words(tg, gi);
    // the upper directory of slot gi
    let p = g[gi]->Some_0;
    lemma_pgd_prefix_child(g, 512, 0, gi);
    let bk0 = pgd_ser_prefix(g, gi as nat, 0).0;
    let cp = pud_ser(p, bk0.len() as int);
    lemma_pud_size(p, bk0.len() as int);
    lemma_piece_transfer(buf, bg, 0, cp, bk0.len() as int);
    let e0 = bk0.len() + cp.len() - TABLE_BYTES;
    assert(read_word_at(buf, top + 8 * gi) == e0);
    let (bp, tp) = pud_ser_prefix(p, 512, bk0.len() as int);
    lemma_pud_ser_len(p, 512, bk0.len() as int);
    lemma_node_split(cp, bp, tp);
    lemma_piece_transfer(buf, cp, bk0.len() as int, le_words(tp), bp.len() as int);
    lemma_read_transfer(buf, le_words(tp), e0, 8 * ui);
    lemma_read_in_words(tp, ui);
    // the directory of slot ui
    let d = p[ui]->Some_0;
    lemma_pud_prefix_child(p, 512, bk0.len() as int, ui);
    let bk1 = pud_ser_prefix(p, ui as nat, bk0.len() as int).0;
    let off_d = (bk0.len() + bk1.len()) as int;
    let cd = dir_ser(d, off_d);
    lemma_dir_size(d, off_d);
    lemma_piece_transfer(cp, bp, 0, cd, bk1.len() as int);
    lemma_piece_transfer(buf, cp, bk0.len() as int, cd, bk1.len() as int);
    let e1 = off_d + cd.len() - TABLE_BYTES;
    assert(read_word_at(buf, e0 + 8 * ui) == e1);
}

/// After a 4 KiB page for `frame` is added at `vaddr`, serialising the tree
/// and walking it back down from its top-level table reaches a leaf slot
/// holding `frame`.
pub proof fn lemma_small_page_round_trip(
    g: Seq<Option<Seq<Option<Seq<Option<DirSlot>>>>>>,
    vaddr: u64,
    frame: u64,
)
    requires
        pgd_shaped(g),
        pgd_can_add(g, vaddr, SMALL_PAGE_BYTES),
    ensures
        leaf_slot_at(pgd_ser(pgd_add(g, vaddr, frame, SMALL_PAGE_BYTES), 0), vaddr) == frame,
{
    let h = pgd_add(g, vaddr, frame, SMALL_PAGE_BYTES);
    lemma_pgd_add_shaped(g, vaddr, frame, SMALL_PAGE_BYTES);
    lemma_table_index_bound(vaddr, 39);
    lemma_table_index_bound(vaddr, 30);
    lemma_table_index_bound(vaddr, 21);
    lemma_table_index_bound(vaddr, 12);
    let gi = table_index(vaddr, 39);
    let ui = table_index(vaddr, 30);
    let di = table_index(vaddr, 21);
    let pi = table_index(vaddr, 12);
    let p = h[gi]->Some_0;
    let d = p[ui]->Some_0;
    lemma_walk_to_dir(h, vaddr);
    let buf = pgd_ser(h, 0);
    lemma_pgd_size(h, 0);
    let pos = walk_to_dir(buf, vaddr);
    let start = pos + TABLE_BYTES - dir_size(d);
    let cd = dir_ser(d, start);
    lemma_dir_size(d, start);
    let (bd, td) = dir_ser_prefix(d, 512, start);
    lemma_dir_ser_len(d, 512, start);
    lemma_node_split(cd, bd, td);
    lemma_piece_transfer(buf, cd, start, le_words(td), bd.len() as int);
    lemma_read_transfer(buf, le_words(td), pos, 8 * di);
    lemma_read_in_words(td, di);
    // the leaf table of slot di
    let t = d[di]->Some_0->Table_0;
    lemma_dir_prefix_child(d, 512, start, di);
    let bk2 = dir_ser_prefix(d, di as nat, start).0;
    let e2 = start + bk2.len();
    assert(dir_slot_at(buf, vaddr) == e2);
    lemma_piece_transfer(cd, bd, 0, le_words(t), bk2.len() as int);
    lemma_piece_transfer(buf, cd, start, le_words(t), bk2.len() as int);
    lemma_read_transfer(buf, le_words(t), e2, 8 * pi);
    lemma_read_in_words(t, pi);
}

/// After a 2 MiB page for `frame` is added at `vaddr`, serialising the tree
/// and walking it back down reaches a directory slot holding `frame` with
/// the top bit set.
pub proof fn lemma_large_page_round_trip(
    g: Seq<Option<Seq<Option<Seq<Option<DirSlot>>>>>>,
    vaddr: u64,
    frame: u64,
)
    requires
        pgd_shaped(g),
        pgd_can_add(g, vaddr, LARGE_PAGE_BYTES),
    ensures
        dir_slot_at(pgd_ser(pgd_add(g, vaddr, frame, LARGE_PAGE_BYTES), 0), vaddr) == large_page_entry(frame),
{
    let h = pgd_add(g, vaddr, frame, LARGE_PAGE_BYTES);
    lemma_pgd_add_shaped(g, vaddr, frame, LARGE_PAGE_BYTES);
    lemma_table_index_bound(vaddr, 39);
    lemma_table_index_bound(vaddr, 30);
    lemma_table_index_bound(vaddr, 21);
    let gi = table_index(vaddr, 39);
    let ui = table_index(vaddr, 30);
    let di = table_index(vaddr, 21);
    let p = h[gi]->Some_0;
    let d = p[ui]->Some_0;
    lemma_walk_to_dir(h, vaddr);
    let buf = pgd_ser(h, 0);
    lemma_pgd_size(h, 0);
    let pos = walk_to_dir(buf, vaddr);
    let start = pos + TABLE_BYTES - dir_size(d);
    let cd = dir_ser(d, start);
    lemma_dir_size(d, start);
    let (bd, td) = dir_ser_prefix(d, 512, start);
    lemma_dir_ser_len(d, 512, start);
    lemma_node_split(cd, bd, td);
    lemma_piece_transfer(buf, cd, start, le_words(td), bd.len() as int);
    lemma_read_transfer(buf, le_words(td), pos, 8 * di);
    lemma_read_in_words(td, di);
    lemma_dir_large_slot(d, 512, start, di);
}

proof fn lemma_dir_large_slot(d: Seq<Option<DirSlot>>, n: nat, off: int, k: int)
    requires
        dir_shaped(d),
        0 <= k < n <= 512,
        d[k] matches Some(DirSlot::Large(_)),
    ensures
        dir_ser_prefix(d, n, off).1[k] == large_page_entry(d[k]->Some_0->Large_0),
    decreases n,
{
    lemma_dir_ser_len(d, (n - 1) as nat, off);
    if k < n - 1 {
        lemma_dir_large_slot(d, (n - 1) as nat, off, k);
    }
}

} // verus!
