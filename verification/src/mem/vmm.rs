use std::collections::HashMap;
use vstd::prelude::*;

use super::{align_down, align_up, MemmapEntry};
use super::pmm::{lemma_mod_wrap, pmm_alloc, pmm_dealloc, wrapping_add_n, wrapping_inc, wrapping_sub_n, FreePageList};

verus! {

broadcast use vstd::std_specs::hash::group_hash_axioms;

/// Page-table entry bits.
pub const KTEXECUTABLEDISABLE: u64 = 0x8000_0000_0000_0000;
pub const KTPRESENT: u64 = 1;
pub const KTWRITEALLOWED: u64 = 2;
pub const KTUSERMODE: u64 = 4;
pub const KTWRITETHROUGH: u64 = 8;
pub const KTCACHEDISABLE: u64 = 16;
pub const KTPATBIT4096: u64 = 0x80;
pub const KTPATBIT2MB: u64 = 0x1000;
pub const KT2MB: u64 = 0x80;

/// The bits of an entry that hold the address of the next table.
pub const ADDR_MASK: u64 = 0x000f_ffff_ffff_f000;

/// The bits of a last-level entry that `virt_to_phys` reports.
pub const PHYS_MASK: u64 = 0x0007_ffff_ffff_f000;

/// The offset bits of a 2 MiB page.
pub const LARGE_OFFSET: u64 = 0x1f_ffff;

/// A set of page-table entry flags.
#[derive(Clone, Copy)]
pub struct VMMFlags {
    pub bits: u64,
}

impl VMMFlags {
    pub open spec fn spec_bits(&self) -> u64 {
        self.bits
    }

    pub fn from_bits(bits: u64) -> (r: Self)
        ensures
            r.spec_bits() == bits,
    {
        VMMFlags { bits }
    }

    pub fn bits(&self) -> (r: u64)
        ensures
            r == self.spec_bits(),
    {
        self.bits
    }

    /// The flags of both sets.
    pub fn union(&self, other: &VMMFlags) -> (r: VMMFlags)
        ensures
            r.spec_bits() == self.spec_bits() | other.spec_bits(),
    {
        VMMFlags { bits: self.bits | other.bits }
    }
}

/// The index into the table at `level` (0 is the root) that `va` selects.
pub open spec fn pt_index(va: u64, level: nat) -> int {
    if level == 0 {
        ((va >> 39u64) & 0x1ffu64) as int
    } else if level == 1 {
        ((va >> 30u64) & 0x1ffu64) as int
    } else if level == 2 {
        ((va >> 21u64) & 0x1ffu64) as int
    } else {
        ((va >> 12u64) & 0x1ffu64) as int
    }
}

pub open spec fn present(e: u64) -> bool {
    e & KTPRESENT != 0
}

pub open spec fn large(e: u64) -> bool {
    e & KT2MB != 0
}

/// The table an entry points to.
pub open spec fn target(e: u64) -> u64 {
    e & ADDR_MASK
}

pub open spec fn zero_table() -> Seq<u64> {
    Seq::new(512, |i: int| 0u64)
}

/// A frame that can be pointed to by an entry: page aligned and within the
/// address bits of an entry.
pub open spec fn frame_ok(f: u64) -> bool {
    f & !ADDR_MASK == 0
}

/// Page tables by physical address, each with its level (0 is the root):
/// every table has 512 entries, and a present entry of a table above the last
/// level points to a table one level down, unless it maps a 2 MiB page at
/// level 2.
pub open spec fn tables_wf(m: Map<u64, Seq<u64>>, lv: Map<u64, nat>, root: u64) -> bool {
    &&& m.dom() == lv.dom()
    &&& m.contains_key(root)
    &&& lv[root] == 0
    &&& forall|t: u64| #[trigger] m.contains_key(t) ==> m[t].len() == 512 && lv[t] <= 3
    &&& forall|t: u64, i: int|
        m.contains_key(t) && lv[t] < 3 && 0 <= i < 512 && present(#[trigger] m[t][i]) && !(lv[t] == 2
            && large(m[t][i])) ==> m.contains_key(target(m[t][i])) && lv[target(m[t][i])] == lv[t] + 1
}

/// The walk for `va` from the table `t` at `level` down to `stop` meets no
/// present entry that maps a 2 MiB page at level 2.
pub open spec fn path_ok(m: Map<u64, Seq<u64>>, t: u64, va: u64, level: nat, stop: nat) -> bool
    decreases stop - level,
{
    if level >= stop {
        true
    } else {
        let e = m[t][pt_index(va, level)];
        present(e) ==> !(level == 2 && large(e)) && path_ok(m, target(e), va, level + 1, stop)
    }
}

/// How many tables the walk for `va` from `t` at `level` down to `stop` has to
/// create.
pub open spec fn missing(m: Map<u64, Seq<u64>>, t: u64, va: u64, level: nat, stop: nat) -> nat
    decreases stop - level,
{
    if level >= stop {
        0
    } else {
        let e = m[t][pt_index(va, level)];
        if present(e) {
            missing(m, target(e), va, level + 1, stop)
        } else {
            (stop - level) as nat
        }
    }
}

/// The walk for `va` from table `t` at `level` down to `stop`, creating the
/// missing tables from the last frames of `frames`: the tables and levels
/// after the walk, the frames left, and the table reached at `stop`.
pub open spec fn alloc_walk(
    m: Map<u64, Seq<u64>>,
    lv: Map<u64, nat>,
    t: u64,
    va: u64,
    level: nat,
    stop: nat,
    frames: Seq<usize>,
) -> (Map<u64, Seq<u64>>, Map<u64, nat>, Seq<usize>, u64)
    decreases stop - level,
{
    if level >= stop {
        (m, lv, frames, t)
    } else {
        let i = pt_index(va, level);
        let e = m[t][i];
        if present(e) {
            alloc_walk(m, lv, target(e), va, level + 1, stop, frames)
        } else {
            let f = frames.last() as u64;
            let m1 = m.insert(f, zero_table());
            let m2 = m1.insert(t, m1[t].update(i, f | KTPRESENT | KTWRITEALLOWED));
            alloc_walk(m2, lv.insert(f, level + 1), f, va, level + 1, stop, frames.drop_last())
        }
    }
}

/// The frames of `frames` are distinct, usable as tables and not tables yet.
pub open spec fn fresh_frames(frames: Seq<usize>, m: Map<u64, Seq<u64>>) -> bool {
    &&& frames.no_duplicates()
    &&& forall|j: int|
        0 <= j < frames.len() ==> !m.contains_key(#[trigger] frames[j] as u64) && frame_ok(
            frames[j] as u64,
        )
}

/// The table at level `stop` for `va`, reached from table `t` at `level`, if
/// every table on the way has a present entry.
pub open spec fn lookup_at(m: Map<u64, Seq<u64>>, t: u64, va: u64, level: nat, stop: nat) -> Option<u64>
    decreases stop - level,
{
    if level >= stop {
        Some(t)
    } else {
        let e = m[t][pt_index(va, level)];
        if present(e) {
            lookup_at(m, target(e), va, level + 1, stop)
        } else {
            None
        }
    }
}

/// The last-level table for `va`, if every table above has a present entry.
pub open spec fn lookup(m: Map<u64, Seq<u64>>, t: u64, va: u64, level: nat) -> Option<u64> {
    lookup_at(m, t, va, level, 3)
}

/// The level-2 entry for `va`, if the tables above have present entries.
pub open spec fn pde(m: Map<u64, Seq<u64>>, root: u64, va: u64) -> Option<u64> {
    match lookup_at(m, root, va, 0, 2) {
        None => None,
        Some(t) => Some(m[t][pt_index(va, 2)]),
    }
}

/// What `virt_to_phys` reports for `va`: the masked last-level entry, unless
/// a table on the way has no present entry or the last-level entry is zero.
pub open spec fn translate(m: Map<u64, Seq<u64>>, root: u64, va: u64) -> Option<u64> {
    match lookup(m, root, va, 0) {
        None => None,
        Some(t) => {
            let e = m[t][pt_index(va, 3)];
            if e == 0 {
                None
            } else {
                Some(e & PHYS_MASK)
            }
        },
    }
}

/// A region of the kernel's virtual address space.
pub struct VMMRegion {
    pub base: u64,
    pub length: u64,
    pub flags: VMMFlags,
}

/// The kernel's address space: its page tables and the regions in use.
pub struct PageMap {
    head: Vec<VMMRegion>,
    rootpagetable: u64,
    tables: HashMap<u64, Vec<u64>>,
    levels: Ghost<Map<u64, nat>>,
}

impl PageMap {
    /// The page tables by physical address.
    pub closed spec fn mem(&self) -> Map<u64, Seq<u64>> {
        Map::new(|t: u64| self.tables@.contains_key(t), |t: u64| self.tables@[t]@)
    }

    /// The level of each table.
    pub closed spec fn levels(&self) -> Map<u64, nat> {
        self.levels@
    }

    /// The physical address of the root table.
    pub closed spec fn root(&self) -> u64 {
        self.rootpagetable
    }

    /// The regions in use, lowest first.
    pub closed spec fn regions(&self) -> Seq<VMMRegion> {
        self.head@
    }

    pub open spec fn wf(&self) -> bool {
        tables_wf(self.mem(), self.levels(), self.root())
    }

    /// The physical address of the root table, as loaded into CR3.
    pub fn root_table(&self) -> (r: u64)
        ensures
            r == self.root(),
    {
        self.rootpagetable
    }

    /// The page tables by physical address, for writing them to their frames.
    pub fn tables(&self) -> (r: &HashMap<u64, Vec<u64>>)
        ensures
            forall|t: u64| #[trigger] r@.contains_key(t) <==> self.mem().contains_key(t),
            forall|t: u64| #[trigger] r@.contains_key(t) ==> r@[t]@ == self.mem()[t],
    {
        &self.tables
    }

    /// The regions in use, lowest first.
    pub fn region_list(&self) -> (r: &Vec<VMMRegion>)
        ensures
            r@ == self.regions(),
    {
        &self.head
    }

    /// The entry `i` of table `t`.
    fn read_entry(&self, t: u64, i: usize) -> (e: u64)
        requires
            self.mem().contains_key(t),
            i < self.mem()[t].len(),
        ensures
            e == self.mem()[t][i as int],
    {
        let tab = self.tables.get(&t).unwrap();
        tab[i]
    }

    /// Sets entry `i` of table `t` to `e`.
    fn write_entry(&mut self, t: u64, i: usize, e: u64)
        requires
            old(self).mem().contains_key(t),
            i < old(self).mem()[t].len(),
        ensures
            final(self).mem() == old(self).mem().insert(t, old(self).mem()[t].update(i as int, e)),
            final(self).levels() == old(self).levels(),
            final(self).root() == old(self).root(),
            final(self).regions() == old(self).regions(),
    {
        let mut tab = self.tables.remove(&t).unwrap();
        tab[i] = e;
        self.tables.insert(t, tab);
        proof {
            assert(self.mem() =~= old(self).mem().insert(t, old(self).mem()[t].update(i as int, e)));
        }
    }
}

/// A table with all 512 entries zero.
fn zeroed_table() -> (r: Vec<u64>)
    ensures
        r@ == zero_table(),
{
    let mut v: Vec<u64> = Vec::new();
    let mut i: usize = 0;
    while i < 512
        invariant
            i <= 512,
            v@ == Seq::new(i as nat, |j: int| 0u64),
        decreases 512 - i,
    {
        v.push(0);
        i = i + 1;
        proof {
            assert(v@ =~= Seq::new(i as nat, |j: int| 0u64));
        }
    }
    v
}

/// The index that `va` selects in a table at `level`.
fn table_index(va: u64, level: usize) -> (r: usize)
    requires
        level <= 3,
    ensures
        r == pt_index(va, level as nat),
        r < 512,
{
    let shift: u64 = 39 - 9 * level as u64;
    let r = ((va >> shift) & 0x1ff) as usize;
    proof {
        assert((va >> shift) & 0x1ff < 512) by (bit_vector);
    }
    r
}

/// Indices select one of the 512 entries of a table.
pub proof fn lemma_pt_index_bound(va: u64, level: nat)
    ensures
        0 <= pt_index(va, level) < 512,
{
    assert((va >> 39u64) & 0x1ffu64 < 512) by (bit_vector);
    assert((va >> 30u64) & 0x1ffu64 < 512) by (bit_vector);
    assert((va >> 21u64) & 0x1ffu64 < 512) by (bit_vector);
    assert((va >> 12u64) & 0x1ffu64 < 512) by (bit_vector);
}

/// An entry that points to the frame `f` is present, maps no large page, and
/// points back to `f`.
proof fn lemma_table_entry(f: u64)
    requires
        frame_ok(f),
    ensures
        present(f | KTPRESENT | KTWRITEALLOWED),
        !large(f | KTPRESENT | KTWRITEALLOWED),
        target(f | KTPRESENT | KTWRITEALLOWED) == f,
{
    assert((f | 1u64 | 2u64) & 1u64 != 0) by (bit_vector);
    assert(f & !0x000f_ffff_ffff_f000u64 == 0 ==> (f | 1u64 | 2u64) & 0x80u64 == 0) by (bit_vector);
    assert(f & !0x000f_ffff_ffff_f000u64 == 0 ==> (f | 1u64 | 2u64) & 0x000f_ffff_ffff_f000u64 == f) by (bit_vector);
}

/// Creating a zeroed table at a fresh frame `f` one level below table `t` and
/// pointing entry `i` of `t` at it keeps the tables well formed.
proof fn lemma_new_table_wf(m: Map<u64, Seq<u64>>, lv: Map<u64, nat>, root: u64, t: u64, i: int, f: u64)
    requires
        tables_wf(m, lv, root),
        m.contains_key(t),
        lv[t] < 3,
        0 <= i < 512,
        !m.contains_key(f),
        frame_ok(f),
    ensures
        ({
            let m1 = m.insert(f, zero_table());
            let m2 = m1.insert(t, m1[t].update(i, f | KTPRESENT | KTWRITEALLOWED));
            tables_wf(m2, lv.insert(f, lv[t] + 1), root)
        }),
{
    let m1 = m.insert(f, zero_table());
    let e = f | KTPRESENT | KTWRITEALLOWED;
    let m2 = m1.insert(t, m1[t].update(i, e));
    let lv2 = lv.insert(f, lv[t] + 1);
    lemma_table_entry(f);
    assert(m2.dom() =~= lv2.dom());
    assert forall|u: u64, j: int|
        m2.contains_key(u) && lv2[u] < 3 && 0 <= j < 512 && present(#[trigger] m2[u][j]) && !(lv2[u] == 2
            && large(m2[u][j])) implies m2.contains_key(target(m2[u][j])) && lv2[target(m2[u][j])] == lv2[u]
        + 1 by {
        if u == f {
            assert(m2[u][j] == 0u64);
            assert(0u64 & 1u64 == 0) by (bit_vector);
        } else if u == t && j == i {
        } else {
            assert(m2[u][j] == m[u][j]);
            assert(m.contains_key(target(m[u][j])));
        }
    }
}

impl PageMap {
    /// Inserts a zeroed table at `f`.
    fn insert_table(&mut self, f: u64, level: Ghost<nat>)
        ensures
            final(self).mem() == old(self).mem().insert(f, zero_table()),
            final(self).levels() == old(self).levels().insert(f, level@),
            final(self).root() == old(self).root(),
            final(self).regions() == old(self).regions(),
    {
        let z = zeroed_table();
        self.tables.insert(f, z);
        self.levels = Ghost(self.levels@.insert(f, level@));
        proof {
            assert(self.mem() =~= old(self).mem().insert(f, zero_table()));
        }
    }

    /// Walks the tables for `va` from the root down to level `stop`, creating
    /// each missing table from a frame of `pmm`; returns the table reached.
    fn walk_alloc(&mut self, pmm: &mut FreePageList, va: u64, stop: usize) -> (t: u64)
        requires
            old(self).wf(),
            stop <= 3,
            path_ok(old(self).mem(), old(self).root(), va, 0, stop as nat),
            missing(old(self).mem(), old(self).root(), va, 0, stop as nat) <= old(pmm).pages().len(),
            fresh_frames(old(pmm).pages(), old(self).mem()),
        ensures
            ({
                let w = alloc_walk(
                    old(self).mem(),
                    old(self).levels(),
                    old(self).root(),
                    va,
                    0,
                    stop as nat,
                    old(pmm).pages(),
                );
                &&& final(self).mem() == w.0
                &&& final(self).levels() == w.1
                &&& final(pmm).pages() == w.2
                &&& t == w.3
            }),
            final(self).wf(),
            final(self).root() == old(self).root(),
            final(self).regions() == old(self).regions(),
            final(self).mem().contains_key(t),
            final(self).levels()[t] == stop,
            fresh_frames(final(pmm).pages(), final(self).mem()),
            final(pmm).count() == wrapping_sub_n(
                old(pmm).count(),
                missing(old(self).mem(), old(self).root(), va, 0, stop as nat) as int,
            ),
    {
        let ghost total = missing(self.mem(), self.rootpagetable, va, 0, stop as nat);
        let mut t = self.rootpagetable;
        let mut level: usize = 0;
        proof {
            let md = usize::MAX as int + 1;
            let x = pmm.count() as int;
            assert((x - 0) % md == x) by (nonlinear_arith)
                requires md > 0, 0 <= x < md;
        }
        while level < stop
            invariant
                level <= stop <= 3,
                self.wf(),
                self.root() == old(self).root(),
                self.regions() == old(self).regions(),
                self.mem().contains_key(t),
                self.levels()[t] == level,
                alloc_walk(old(self).mem(), old(self).levels(), old(self).root(), va, 0, stop as nat, old(pmm).pages())
                    == alloc_walk(self.mem(), self.levels(), t, va, level as nat, stop as nat, pmm.pages()),
                path_ok(self.mem(), t, va, level as nat, stop as nat),
                missing(self.mem(), t, va, level as nat, stop as nat) <= pmm.pages().len(),
                fresh_frames(pmm.pages(), self.mem()),
                total == missing(old(self).mem(), old(self).root(), va, 0, stop as nat),
                total >= missing(self.mem(), t, va, level as nat, stop as nat),
                pmm.count() == wrapping_sub_n(
                    old(pmm).count(),
                    total - missing(self.mem(), t, va, level as nat, stop as nat),
                ),
            decreases stop - level,
        {
            let idx = table_index(va, level);
            let e = self.read_entry(t, idx);
            if e & KTPRESENT == 0 {
                let ghost m0 = self.mem();
                let ghost lv0 = self.levels();
                let ghost c0 = pmm.count();
                let ghost k = missing(m0, t, va, level as nat, stop as nat);
                let f = pmm_alloc(pmm).unwrap() as u64;
                proof {
                    lemma_new_table_wf(m0, lv0, self.root(), t, idx as int, f);
                }
                self.insert_table(f, Ghost((level + 1) as nat));
                self.write_entry(t, idx, f | KTPRESENT | KTWRITEALLOWED);
                proof {
                    lemma_table_entry(f);
                    let m2 = self.mem();
                    assert(m2[f] == zero_table());
                    lemma_pt_index_bound(va, (level + 1) as nat);
                    assert(m2[f][pt_index(va, (level + 1) as nat)] == 0u64);
                    assert(0u64 & 1u64 == 0) by (bit_vector);
                    assert(path_ok(m2, f, va, (level + 1) as nat, stop as nat));
                    assert(missing(m2, f, va, (level + 1) as nat, stop as nat) == (stop - level - 1) as nat);
                    let md = usize::MAX as int + 1;
                    let x = old(pmm).count() as int;
                    let d = total - k;
                    assert(((x - d) % md - 1) % md == (x - (d + 1)) % md) by (nonlinear_arith)
                        requires md > 0;
                    assert(0 <= (x - d) % md < md) by (nonlinear_arith)
                        requires md > 0;
                    assert forall|j: int| 0 <= j < pmm.pages().len() implies !m2.contains_key(
                        #[trigger] pmm.pages()[j] as u64,
                    ) by {
                        let fr0 = pmm.pages().push(f as usize);
                        assert(fr0[j] != fr0[fr0.len() - 1]);
                    }
                }
                t = f;
            } else {
                proof {
                    assert(self.mem()[t][idx as int] == e);
                }
                t = e & ADDR_MASK;
            }
            level = level + 1;
        }
        t
    }
}

/// The step of a walk that meets a missing entry: a zeroed table at the last
/// free frame, pointed to from the entry, keeps the tables well formed and the
/// other frames fresh.
proof fn lemma_new_table_step(
    m: Map<u64, Seq<u64>>,
    lv: Map<u64, nat>,
    root: u64,
    t: u64,
    va: u64,
    level: nat,
    frames: Seq<usize>,
)
    requires
        tables_wf(m, lv, root),
        level < 3,
        m.contains_key(t),
        lv[t] == level,
        frames.len() > 0,
        fresh_frames(frames, m),
    ensures
        ({
            let i = pt_index(va, level);
            let f = frames.last() as u64;
            let m1 = m.insert(f, zero_table());
            let m2 = m1.insert(t, m1[t].update(i, f | KTPRESENT | KTWRITEALLOWED));
            let fr2 = frames.drop_last();
            &&& !m.contains_key(f)
            &&& f != t
            &&& 0 <= i < 512
            &&& tables_wf(m2, lv.insert(f, level + 1), root)
            &&& fresh_frames(fr2, m2)
            &&& m2[f] == zero_table()
            &&& m2[f][pt_index(va, level + 1)] == 0u64
            &&& !present(0u64)
            &&& present(f | KTPRESENT | KTWRITEALLOWED)
            &&& !large(f | KTPRESENT | KTWRITEALLOWED)
            &&& target(f | KTPRESENT | KTWRITEALLOWED) == f
        }),
{
    let i = pt_index(va, level);
    lemma_pt_index_bound(va, level);
    let f = frames.last() as u64;
    let m1 = m.insert(f, zero_table());
    let m2 = m1.insert(t, m1[t].update(i, f | KTPRESENT | KTWRITEALLOWED));
    let fr2 = frames.drop_last();
    assert(!m.contains_key(frames[frames.len() - 1] as u64));
    lemma_new_table_wf(m, lv, root, t, i, f);
    lemma_table_entry(f);
    assert(m2[f][pt_index(va, level + 1)] == 0u64) by {
        lemma_pt_index_bound(va, level + 1);
    }
    assert(0u64 & 1u64 == 0) by (bit_vector);
    assert forall|j: int| 0 <= j < fr2.len() implies !m2.contains_key(#[trigger] fr2[j] as u64) && frame_ok(
        fr2[j] as u64,
    ) by {
        assert(fr2[j] == frames[j]);
        assert(frames[j] != frames[frames.len() - 1]);
    }
    assert(fr2.no_duplicates());
}

/// The walk keeps the tables of the levels above `level` as they are.
proof fn lemma_alloc_walk_keeps(
    m: Map<u64, Seq<u64>>,
    lv: Map<u64, nat>,
    root: u64,
    t: u64,
    va: u64,
    level: nat,
    stop: nat,
    frames: Seq<usize>,
    u: u64,
)
    requires
        tables_wf(m, lv, root),
        stop <= 3,
        m.contains_key(t),
        lv[t] == level,
        path_ok(m, t, va, level, stop),
        missing(m, t, va, level, stop) <= frames.len(),
        fresh_frames(frames, m),
        m.contains_key(u),
        lv[u] < level || (lv[u] == level && u != t) || lv[u] >= stop,
    ensures
        ({
            let w = alloc_walk(m, lv, t, va, level, stop, frames);
            &&& w.0.contains_key(u)
            &&& w.0[u] == m[u]
            &&& w.1[u] == lv[u]
        }),
    decreases stop - level,
{
    if level < stop {
        let i = pt_index(va, level);
        let e = m[t][i];
        lemma_pt_index_bound(va, level);
        if present(e) {
            lemma_alloc_walk_keeps(m, lv, root, target(e), va, level + 1, stop, frames, u);
        } else {
            let f = frames.last() as u64;
            let m1 = m.insert(f, zero_table());
            let m2 = m1.insert(t, m1[t].update(i, f | KTPRESENT | KTWRITEALLOWED));
            let lv2 = lv.insert(f, level + 1);
            let fr2 = frames.drop_last();
            lemma_new_table_step(m, lv, root, t, va, level, frames);
            lemma_alloc_walk_keeps(m2, lv2, root, f, va, level + 1, stop, fr2, u);
        }
    }
}

/// After the walk, looking up `va` from `t` reaches the table the walk
/// reached, and that table is a last-level table.
proof fn lemma_alloc_walk_lookup(
    m: Map<u64, Seq<u64>>,
    lv: Map<u64, nat>,
    root: u64,
    t: u64,
    va: u64,
    level: nat,
    stop: nat,
    frames: Seq<usize>,
)
    requires
        tables_wf(m, lv, root),
        level <= stop <= 3,
        m.contains_key(t),
        lv[t] == level,
        path_ok(m, t, va, level, stop),
        missing(m, t, va, level, stop) <= frames.len(),
        fresh_frames(frames, m),
    ensures
        ({
            let w = alloc_walk(m, lv, t, va, level, stop, frames);
            &&& lookup_at(w.0, t, va, level, stop) == Some(w.3)
            &&& path_ok(w.0, t, va, level, stop)
            &&& w.0.contains_key(w.3)
            &&& w.1[w.3] == stop
            &&& tables_wf(w.0, w.1, root)
        }),
    decreases stop - level,
{
    if level < stop {
        let i = pt_index(va, level);
        let e = m[t][i];
        lemma_pt_index_bound(va, level);
        if present(e) {
            lemma_alloc_walk_lookup(m, lv, root, target(e), va, level + 1, stop, frames);
            lemma_alloc_walk_keeps(m, lv, root, target(e), va, level + 1, stop, frames, t);
        } else {
            let f = frames.last() as u64;
            let m1 = m.insert(f, zero_table());
            let m2 = m1.insert(t, m1[t].update(i, f | KTPRESENT | KTWRITEALLOWED));
            let lv2 = lv.insert(f, level + 1);
            let fr2 = frames.drop_last();
            lemma_new_table_step(m, lv, root, t, va, level, frames);
            lemma_alloc_walk_lookup(m2, lv2, root, f, va, level + 1, stop, fr2);
            lemma_alloc_walk_keeps(m2, lv2, root, f, va, level + 1, stop, fr2, t);
        }
    }
}

/// Changing a table at level `stop` leaves every lookup down to `stop` as it
/// was.
proof fn lemma_lookup_frame(
    m: Map<u64, Seq<u64>>,
    lv: Map<u64, nat>,
    root: u64,
    t: u64,
    va: u64,
    level: nat,
    stop: nat,
    u: u64,
    x: Seq<u64>,
)
    requires
        tables_wf(m, lv, root),
        level <= stop <= 3,
        m.contains_key(t),
        lv[t] == level,
        path_ok(m, t, va, level, stop),
        m.contains_key(u),
        lv[u] == stop,
    ensures
        lookup_at(m.insert(u, x), t, va, level, stop) == lookup_at(m, t, va, level, stop),
    decreases stop - level,
{
    if level < stop {
        let e = m[t][pt_index(va, level)];
        lemma_pt_index_bound(va, level);
        assert(u != t);
        if present(e) {
            lemma_lookup_frame(m, lv, root, target(e), va, level + 1, stop, u, x);
        }
    }
}

/// A 2 MiB-aligned address selects the same tables down to level 2.
proof fn lemma_large_base_index(va: u64)
    ensures
        forall|l: nat| l <= 2 ==> pt_index(va & !LARGE_OFFSET, l) == pt_index(va, l),
{
    assert((((va & !0x1f_ffffu64) >> 39u64) & 0x1ffu64) == ((va >> 39u64) & 0x1ffu64)) by (bit_vector);
    assert((((va & !0x1f_ffffu64) >> 30u64) & 0x1ffu64) == ((va >> 30u64) & 0x1ffu64)) by (bit_vector);
    assert((((va & !0x1f_ffffu64) >> 21u64) & 0x1ffu64) == ((va >> 21u64) & 0x1ffu64)) by (bit_vector);
}

/// Lookups only depend on the indices of the levels they pass.
proof fn lemma_lookup_same_index(m: Map<u64, Seq<u64>>, t: u64, va: u64, vb: u64, level: nat, stop: nat)
    requires
        forall|l: nat| level <= l < stop ==> pt_index(va, l) == pt_index(vb, l),
    ensures
        lookup_at(m, t, va, level, stop) == lookup_at(m, t, vb, level, stop),
    decreases stop - level,
{
    if level < stop {
        let e = m[t][pt_index(va, level)];
        assert(pt_index(va, level) == pt_index(vb, level));
        lemma_lookup_same_index(m, target(e), va, vb, level + 1, stop);
    }
}

/// Lookups that found a table still find it after the tables grew.
proof fn lemma_lookup_grows(
    m: Map<u64, Seq<u64>>,
    lv: Map<u64, nat>,
    m2: Map<u64, Seq<u64>>,
    root: u64,
    t: u64,
    vb: u64,
    level: nat,
    stop: nat,
)
    requires
        tables_wf(m, lv, root),
        grows(m, m2),
        level <= stop <= 3,
        m.contains_key(t),
        lv[t] == level,
        lookup_at(m, t, vb, level, stop) is Some,
    ensures
        lookup_at(m2, t, vb, level, stop) == lookup_at(m, t, vb, level, stop),
    decreases stop - level,
{
    if level < stop {
        let i = pt_index(vb, level);
        lemma_pt_index_bound(vb, level);
        let e = m[t][i];
        assert(present(e));
        assert(m2[t][i] == e);
        if level + 1 < stop {
            lemma_lookup_grows(m, lv, m2, root, target(e), vb, level + 1, stop);
        }
        assert(lookup_at(m2, t, vb, level, stop) == lookup_at(m2, target(e), vb, level + 1, stop));
    }
}

/// A lookup that avoids large pages ends at a last-level table.
proof fn lemma_lookup_in(m: Map<u64, Seq<u64>>, lv: Map<u64, nat>, root: u64, t: u64, vb: u64, level: nat)
    requires
        tables_wf(m, lv, root),
        level <= 3,
        m.contains_key(t),
        lv[t] == level,
        path_ok(m, t, vb, level, 3),
    ensures
        lookup_at(m, t, vb, level, 3) matches Some(x) ==> m.contains_key(x) && lv[x] == 3,
    decreases 3 - level,
{
    if level < 3 {
        let e = m[t][pt_index(vb, level)];
        lemma_pt_index_bound(vb, level);
        if present(e) {
            lemma_lookup_in(m, lv, root, target(e), vb, level + 1);
        }
    }
}

/// The table the walk reaches is the one a lookup finds, or a new one when
/// the lookup finds none.
proof fn lemma_alloc_walk_target(
    m: Map<u64, Seq<u64>>,
    lv: Map<u64, nat>,
    root: u64,
    t: u64,
    va: u64,
    level: nat,
    stop: nat,
    frames: Seq<usize>,
)
    requires
        tables_wf(m, lv, root),
        stop <= 3,
        m.contains_key(t),
        lv[t] == level,
        path_ok(m, t, va, level, stop),
        missing(m, t, va, level, stop) <= frames.len(),
        fresh_frames(frames, m),
    ensures
        ({
            let w = alloc_walk(m, lv, t, va, level, stop, frames);
            &&& lookup_at(m, t, va, level, stop) matches Some(x) ==> w.3 == x
            &&& lookup_at(m, t, va, level, stop) is None ==> !m.contains_key(w.3)
        }),
    decreases stop - level,
{
    if level < stop {
        let i = pt_index(va, level);
        let e = m[t][i];
        lemma_pt_index_bound(va, level);
        if present(e) {
            lemma_alloc_walk_target(m, lv, root, target(e), va, level + 1, stop, frames);
        } else {
            let f = frames.last() as u64;
            let m1 = m.insert(f, zero_table());
            let m2 = m1.insert(t, m1[t].update(i, f | KTPRESENT | KTWRITEALLOWED));
            let lv2 = lv.insert(f, level + 1);
            let fr2 = frames.drop_last();
            lemma_new_table_step(m, lv, root, t, va, level, frames);
            lemma_alloc_walk_target(m2, lv2, root, f, va, level + 1, stop, fr2);
        }
    }
}

/// The last-level tables a walk creates are zeroed.
proof fn lemma_alloc_walk_new_zero(
    m: Map<u64, Seq<u64>>,
    lv: Map<u64, nat>,
    root: u64,
    t: u64,
    va: u64,
    level: nat,
    frames: Seq<usize>,
)
    requires
        tables_wf(m, lv, root),
        m.contains_key(t),
        lv[t] == level,
        level <= 3,
        path_ok(m, t, va, level, 3),
        missing(m, t, va, level, 3) <= frames.len(),
        fresh_frames(frames, m),
    ensures
        ({
            let w = alloc_walk(m, lv, t, va, level, 3, frames);
            forall|u: u64|
                #[trigger] w.0.contains_key(u) && !m.contains_key(u) && w.1[u] == 3 ==> w.0[u] == zero_table()
        }),
    decreases 3 - level,
{
    if level < 3 {
        let i = pt_index(va, level);
        let e = m[t][i];
        lemma_pt_index_bound(va, level);
        if present(e) {
            lemma_alloc_walk_new_zero(m, lv, root, target(e), va, level + 1, frames);
            assert(alloc_walk(m, lv, t, va, level, 3, frames) == alloc_walk(m, lv, target(e), va, level + 1, 3, frames));
        } else {
            let f = frames.last() as u64;
            let m1 = m.insert(f, zero_table());
            let m2 = m1.insert(t, m1[t].update(i, f | KTPRESENT | KTWRITEALLOWED));
            let lv2 = lv.insert(f, level + 1);
            let fr2 = frames.drop_last();
            lemma_new_table_step(m, lv, root, t, va, level, frames);
            lemma_alloc_walk_new_zero(m2, lv2, root, f, va, level + 1, fr2);
            lemma_alloc_walk_grows(m2, lv2, root, f, va, level + 1, 3, fr2);
            let w = alloc_walk(m2, lv2, f, va, level + 1, 3, fr2);
            assert(alloc_walk(m, lv, t, va, level, 3, frames) == w);
            assert forall|u: u64| #[trigger] w.0.contains_key(u) && !m.contains_key(u) && w.1[u] == 3 implies w.0[u]
                == zero_table() by {
                if m2.contains_key(u) {
                    assert(u == f);
                    assert(w.1[f] == level + 1);
                    assert(level + 1 == 3);
                    assert(w.0 == m2);
                }
            }
        }
    }
}

/// From a table that the tables grew by, a lookup only reaches tables they
/// grew by.
proof fn lemma_lookup_from_new(
    m: Map<u64, Seq<u64>>,
    m2: Map<u64, Seq<u64>>,
    lv2: Map<u64, nat>,
    root: u64,
    t: u64,
    vb: u64,
    level: nat,
)
    requires
        tables_wf(m2, lv2, root),
        grows(m, m2),
        m2.contains_key(t),
        !m.contains_key(t),
        lv2[t] == level,
        level <= 3,
    ensures
        lookup_at(m2, t, vb, level, 3) matches Some(x) ==> !m.contains_key(x),
    decreases 3 - level,
{
    if level < 3 {
        let e = m2[t][pt_index(vb, level)];
        lemma_pt_index_bound(vb, level);
        assert(0u64 & 1u64 == 0) by (bit_vector);
        if present(e) {
            assert(fresh_ptr(m, e));
            lemma_lookup_from_new(m, m2, lv2, root, target(e), vb, level + 1);
        }
    }
}

/// A lookup that found nothing before the tables grew can only reach tables
/// they grew by.
proof fn lemma_lookup_none_grows(
    m: Map<u64, Seq<u64>>,
    lv: Map<u64, nat>,
    m2: Map<u64, Seq<u64>>,
    lv2: Map<u64, nat>,
    root: u64,
    t: u64,
    vb: u64,
    level: nat,
)
    requires
        tables_wf(m, lv, root),
        tables_wf(m2, lv2, root),
        grows(m, m2),
        forall|u: u64| #[trigger] m.contains_key(u) ==> lv2[u] == lv[u],
        m.contains_key(t),
        lv[t] == level,
        level <= 3,
        lookup_at(m, t, vb, level, 3) is None,
    ensures
        lookup_at(m2, t, vb, level, 3) matches Some(x) ==> !m.contains_key(x),
    decreases 3 - level,
{
    if level < 3 {
        let i = pt_index(vb, level);
        lemma_pt_index_bound(vb, level);
        let e = m[t][i];
        let e2 = m2[t][i];
        if present(e) {
            assert(e2 == e);
            lemma_lookup_none_grows(m, lv, m2, lv2, root, target(e), vb, level + 1);
        } else if e2 != e {
            assert(fresh_ptr(m, e2));
            lemma_lookup_from_new(m, m2, lv2, root, target(e2), vb, level + 1);
        }
    }
}

/// Mapping a page changes one slot of a last-level table: every address whose
/// walk, free of large pages, ends in another slot of the new tables
/// translates as before.
pub proof fn map_keeps_other_translations(st: MemState, root: u64, pa: u64, va: u64, flags: u64, vb: u64)
    requires
        tables_wf(st.0, st.1, root),
        fresh_frames(st.2, st.0),
        map_4k_step(st, root, pa, va, flags) is Some,
        path_ok(st.0, root, vb, 0, 3),
        ({
            let after = map_4k_step(st, root, pa, va, flags)->0;
            !(lookup(after.0, root, vb, 0) == lookup(after.0, root, va, 0) && pt_index(vb, 3) == pt_index(va, 3))
        }),
    ensures
        ({
            let after = map_4k_step(st, root, pa, va, flags)->0;
            translate(after.0, root, vb) == translate(st.0, root, vb)
        }),
{
    let m = st.0;
    let lv = st.1;
    let w = alloc_walk(m, lv, root, va, 0, 3, st.2);
    let x = w.0[w.3].update(pt_index(va, 3), pa | flags);
    let m3 = w.0.insert(w.3, x);
    lemma_alloc_walk_grows(m, lv, root, root, va, 0, 3, st.2);
    lemma_alloc_walk_lookup(m, lv, root, root, va, 0, 3, st.2);
    lemma_alloc_walk_target(m, lv, root, root, va, 0, 3, st.2);
    lemma_alloc_walk_new_zero(m, lv, root, root, va, 0, st.2);
    lemma_lookup_in(m, lv, root, root, vb, 0);
    lemma_path_ok_grows(m, lv, w.0, w.1, root, root, vb, 0);
    lemma_lookup_in(w.0, w.1, root, root, vb, 0);
    lemma_lookup_frame(w.0, w.1, root, root, vb, 0, 3, w.3, x);
    lemma_lookup_frame(w.0, w.1, root, root, va, 0, 3, w.3, x);
    let j = pt_index(vb, 3);
    lemma_pt_index_bound(vb, 3);
    lemma_pt_index_bound(va, 3);
    if lookup(m, root, vb, 0) is Some {
        let tb = lookup(m, root, vb, 0)->0;
        lemma_alloc_walk_keeps(m, lv, root, root, va, 0, 3, st.2, tb);
        lemma_lookup_grows(m, lv, w.0, root, root, vb, 0, 3);
        assert(lookup(m3, root, vb, 0) == Some(tb));
        assert(w.0[tb] == m[tb]);
        assert(m[tb].len() == 512);
        if tb == w.3 {
            assert(j != pt_index(va, 3));
            assert(m3[tb] == x);
            assert(x[j] == w.0[w.3][j]);
        } else {
            assert(m3[tb] == w.0[tb]);
        }
        assert(m3[tb][j] == m[tb][j]);
    } else {
        lemma_lookup_none_grows(m, lv, w.0, w.1, root, root, vb, 0);
        if lookup(w.0, root, vb, 0) is Some {
            let tx = lookup(w.0, root, vb, 0)->0;
            assert(!m.contains_key(tx));
            assert(w.0[tx] == zero_table());
            if tx == w.3 {
                assert(j != pt_index(va, 3));
                assert(m3[tx][j] == w.0[tx][j]);
            } else {
                assert(m3[tx] == w.0[tx]);
            }
            assert(m3[tx][j] == 0);
        }
    }
}

/// Unmapping a page clears one slot of a last-level table: an address whose
/// lookup, free of large pages, goes to another slot translates as before.
pub proof fn unmap_keeps_other_translations(m: Map<u64, Seq<u64>>, lv: Map<u64, nat>, root: u64, va: u64, vb: u64)
    requires
        tables_wf(m, lv, root),
        path_ok(m, root, va, 0, 3),
        path_ok(m, root, vb, 0, 3),
        lookup(m, root, va, 0) is Some,
        !(lookup(m, root, vb, 0) == lookup(m, root, va, 0) && pt_index(vb, 3) == pt_index(va, 3)),
    ensures
        ({
            let t = lookup(m, root, va, 0)->0;
            translate(m.insert(t, m[t].update(pt_index(va, 3), 0)), root, vb) == translate(m, root, vb)
        }),
{
    let t = lookup(m, root, va, 0)->0;
    let x = m[t].update(pt_index(va, 3), 0);
    let m2 = m.insert(t, x);
    lemma_lookup_in(m, lv, root, root, va, 0);
    lemma_lookup_in(m, lv, root, root, vb, 0);
    lemma_lookup_frame(m, lv, root, root, vb, 0, 3, t, x);
    if let Some(tb) = lookup(m, root, vb, 0) {
        let j = pt_index(vb, 3);
        lemma_pt_index_bound(vb, 3);
        lemma_pt_index_bound(va, 3);
        if tb == t {
            assert(x[j] == m[t][j]);
        }
        assert(m2[tb][j] == m[tb][j]);
    }
}

/// The state of the page tables and of the frame list: tables, levels, free
/// frames and the free-page counter.
pub type MemState = (Map<u64, Seq<u64>>, Map<u64, nat>, Seq<usize>, usize);

/// Mapping the 4 KiB page at `va` to the entry `pa | flags`, with the tables
/// it needs taken from the free frames; `None` when the frames run out or the
/// walk meets a large page.
pub open spec fn map_4k_step(st: MemState, root: u64, pa: u64, va: u64, flags: u64) -> Option<MemState> {
    if !path_ok(st.0, root, va, 0, 3) || missing(st.0, root, va, 0, 3) > st.2.len() {
        None
    } else {
        let w = alloc_walk(st.0, st.1, root, va, 0, 3, st.2);
        Some(
            (
                w.0.insert(w.3, w.0[w.3].update(pt_index(va, 3), pa | flags)),
                w.1,
                w.2,
                wrapping_sub_n(st.3, missing(st.0, root, va, 0, 3) as int),
            ),
        )
    }
}

/// Mapping the 2 MiB page that holds `va` to the large-page entry of `pa`
/// and `flags`, with the tables it needs taken from the free frames; `None`
/// when the frames run out.
pub open spec fn map_2m_step(st: MemState, root: u64, pa: u64, va: u64, flags: u64) -> Option<MemState> {
    let v = va & !LARGE_OFFSET;
    if missing(st.0, root, v, 0, 2) > st.2.len() {
        None
    } else {
        let w = alloc_walk(st.0, st.1, root, v, 0, 2, st.2);
        Some(
            (
                w.0.insert(w.3, w.0[w.3].update(pt_index(va, 2), (pa & !LARGE_OFFSET) | flags | KT2MB)),
                w.1,
                w.2,
                wrapping_sub_n(st.3, missing(st.0, root, v, 0, 2) as int),
            ),
        )
    }
}

/// No walk down to level 2 can meet a large page at level 2.
proof fn lemma_path_ok_2(m: Map<u64, Seq<u64>>, t: u64, va: u64, level: nat)
    requires
        level <= 2,
    ensures
        path_ok(m, t, va, level, 2),
    decreases 2 - level,
{
    if level < 2 {
        let e = m[t][pt_index(va, level)];
        lemma_path_ok_2(m, target(e), va, level + 1);
    }
}

/// `e` points to a table that `m` does not hold, and maps no large page.
pub open spec fn fresh_ptr(m: Map<u64, Seq<u64>>, e: u64) -> bool {
    present(e) && !large(e) && !m.contains_key(target(e))
}

/// `m2` comes from `m` by adding tables and by filling entries that were not
/// present with pointers to added tables.
pub open spec fn grows(m: Map<u64, Seq<u64>>, m2: Map<u64, Seq<u64>>) -> bool {
    &&& forall|u: u64| #[trigger] m.contains_key(u) ==> m2.contains_key(u) && m2[u].len() == m[u].len()
    &&& forall|u: u64, i: int|
        m.contains_key(u) && 0 <= i < m[u].len() ==> (#[trigger] m2[u][i] == m[u][i] || (!present(m[u][i])
            && fresh_ptr(m, m2[u][i])))
    &&& forall|u: u64, i: int|
        m2.contains_key(u) && !m.contains_key(u) && 0 <= i < m2[u].len() ==> (#[trigger] m2[u][i] == 0
            || fresh_ptr(m, m2[u][i]))
}

proof fn lemma_grows_trans(m1: Map<u64, Seq<u64>>, m2: Map<u64, Seq<u64>>, m3: Map<u64, Seq<u64>>)
    requires
        grows(m1, m2),
        grows(m2, m3),
    ensures
        grows(m1, m3),
{
    assert forall|u: u64, i: int|
        m1.contains_key(u) && 0 <= i < m1[u].len() implies (#[trigger] m3[u][i] == m1[u][i] || (!present(
            m1[u][i],
        ) && fresh_ptr(m1, m3[u][i]))) by {
        assert(m2.contains_key(u));
        if m2[u][i] == m1[u][i] {
            if m3[u][i] != m2[u][i] {
                assert(fresh_ptr(m2, m3[u][i]));
            }
        } else {
            assert(present(m2[u][i]));
            assert(m3[u][i] == m2[u][i]);
        }
    }
    assert forall|u: u64, i: int|
        m3.contains_key(u) && !m1.contains_key(u) && 0 <= i < m3[u].len() implies (#[trigger] m3[u][i] == 0
            || fresh_ptr(m1, m3[u][i])) by {
        if m2.contains_key(u) {
            if m3[u][i] != m2[u][i] {
                assert(fresh_ptr(m2, m3[u][i]));
                assert(m2[u][i] == 0 || fresh_ptr(m1, m2[u][i]));
                if m2[u][i] != 0 {
                    assert(present(m2[u][i]));
                }
            }
        } else {
            if m3[u][i] != 0 {
                assert(fresh_ptr(m2, m3[u][i]));
            }
        }
    }
}

/// The walk only grows the tables.
proof fn lemma_alloc_walk_grows(
    m: Map<u64, Seq<u64>>,
    lv: Map<u64, nat>,
    root: u64,
    t: u64,
    va: u64,
    level: nat,
    stop: nat,
    frames: Seq<usize>,
)
    requires
        tables_wf(m, lv, root),
        stop <= 3,
        m.contains_key(t),
        lv[t] == level,
        path_ok(m, t, va, level, stop),
        missing(m, t, va, level, stop) <= frames.len(),
        fresh_frames(frames, m),
    ensures
        ({
            let w = alloc_walk(m, lv, t, va, level, stop, frames);
            &&& grows(m, w.0)
            &&& forall|u: u64| #[trigger] m.contains_key(u) ==> w.1[u] == lv[u]
        }),
    decreases stop - level,
{
    if level < stop {
        let i = pt_index(va, level);
        let e = m[t][i];
        lemma_pt_index_bound(va, level);
        if present(e) {
            lemma_alloc_walk_grows(m, lv, root, target(e), va, level + 1, stop, frames);
        } else {
            let f = frames.last() as u64;
            let m1 = m.insert(f, zero_table());
            let m2 = m1.insert(t, m1[t].update(i, f | KTPRESENT | KTWRITEALLOWED));
            let lv2 = lv.insert(f, level + 1);
            let fr2 = frames.drop_last();
            lemma_new_table_step(m, lv, root, t, va, level, frames);
            assert(grows(m, m2)) by {
                assert forall|u: u64, j: int|
                    m.contains_key(u) && 0 <= j < m[u].len() implies (#[trigger] m2[u][j] == m[u][j] || (!present(
                        m[u][j],
                    ) && fresh_ptr(m, m2[u][j]))) by {
                    if u == t && j == i {
                    } else {
                        assert(u != f);
                    }
                }
                assert forall|u: u64, j: int|
                    m2.contains_key(u) && !m.contains_key(u) && 0 <= j < m2[u].len() implies (#[trigger] m2[u][j]
                        == 0 || fresh_ptr(m, m2[u][j])) by {
                    assert(u == f);
                    assert(u != t);
                }
            }
            lemma_alloc_walk_grows(m2, lv2, root, f, va, level + 1, stop, fr2);
            lemma_grows_trans(m, m2, alloc_walk(m2, lv2, f, va, level + 1, stop, fr2).0);
        }
    }
}

/// From a table that grew in, every walk meets only pointers to new tables.
proof fn lemma_path_ok_new(m: Map<u64, Seq<u64>>, m2: Map<u64, Seq<u64>>, lv2: Map<u64, nat>, root: u64, t: u64, va: u64, level: nat)
    requires
        tables_wf(m2, lv2, root),
        grows(m, m2),
        m2.contains_key(t),
        !m.contains_key(t),
        lv2[t] == level,
        level <= 3,
    ensures
        path_ok(m2, t, va, level, 3),
    decreases 3 - level,
{
    if level < 3 {
        let e = m2[t][pt_index(va, level)];
        lemma_pt_index_bound(va, level);
        if present(e) {
            assert(0u64 & 1u64 == 0) by (bit_vector);
            assert(fresh_ptr(m, e));
            lemma_path_ok_new(m, m2, lv2, root, target(e), va, level + 1);
        }
    }
}

/// Walks that were free of large pages stay so as the tables grow.
proof fn lemma_path_ok_grows(
    m: Map<u64, Seq<u64>>,
    lv: Map<u64, nat>,
    m2: Map<u64, Seq<u64>>,
    lv2: Map<u64, nat>,
    root: u64,
    t: u64,
    va: u64,
    level: nat,
)
    requires
        tables_wf(m, lv, root),
        tables_wf(m2, lv2, root),
        grows(m, m2),
        forall|u: u64| #[trigger] m.contains_key(u) ==> lv2[u] == lv[u],
        m.contains_key(t),
        lv[t] == level,
        level <= 3,
        path_ok(m, t, va, level, 3),
    ensures
        path_ok(m2, t, va, level, 3),
    decreases 3 - level,
{
    if level < 3 {
        let i = pt_index(va, level);
        lemma_pt_index_bound(va, level);
        let e = m[t][i];
        let e2 = m2[t][i];
        if e2 == e {
            if present(e) {
                lemma_path_ok_grows(m, lv, m2, lv2, root, target(e), va, level + 1);
            }
        } else {
            assert(fresh_ptr(m, e2));
            lemma_path_ok_new(m, m2, lv2, root, target(e2), va, level + 1);
        }
    }
}

/// Changing a last-level table leaves every walk down to level 3 as free of
/// large pages as it was.
proof fn lemma_path_ok_frame(m: Map<u64, Seq<u64>>, lv: Map<u64, nat>, root: u64, t: u64, va: u64, level: nat, u: u64, x: Seq<u64>)
    requires
        tables_wf(m, lv, root),
        level <= 3,
        m.contains_key(t),
        lv[t] == level,
        path_ok(m, t, va, level, 3),
        m.contains_key(u),
        lv[u] == 3,
    ensures
        path_ok(m.insert(u, x), t, va, level, 3),
    decreases 3 - level,
{
    if level < 3 {
        let e = m[t][pt_index(va, level)];
        lemma_pt_index_bound(va, level);
        assert(u != t);
        if present(e) {
            lemma_path_ok_frame(m, lv, root, target(e), va, level + 1, u, x);
        }
    }
}

impl PageMap {
    /// Maps the 4 KiB page at `va` to the entry `pt | flags`, creating the
    /// missing tables on the way from frames of `pmm`.
    pub fn map(&mut self, pmm: &mut FreePageList, pt: u64, va: u64, flags: u64)
        requires
            old(self).wf(),
            path_ok(old(self).mem(), old(self).root(), va, 0, 3),
            missing(old(self).mem(), old(self).root(), va, 0, 3) <= old(pmm).pages().len(),
            fresh_frames(old(pmm).pages(), old(self).mem()),
        ensures
            ({
                let w = alloc_walk(old(self).mem(), old(self).levels(), old(self).root(), va, 0, 3, old(pmm).pages());
                &&& final(self).mem() == w.0.insert(w.3, w.0[w.3].update(pt_index(va, 3), pt | flags))
                &&& final(self).levels() == w.1
                &&& final(pmm).pages() == w.2
            }),
            final(pmm).count() == wrapping_sub_n(
                old(pmm).count(),
                missing(old(self).mem(), old(self).root(), va, 0, 3) as int,
            ),
            final(self).wf(),
            final(self).root() == old(self).root(),
            final(self).regions() == old(self).regions(),
            fresh_frames(final(pmm).pages(), final(self).mem()),
            translate(final(self).mem(), final(self).root(), va) == if pt | flags == 0 {
                None
            } else {
                Some((pt | flags) & PHYS_MASK)
            },
            forall|vb: u64| #[trigger] path_ok(old(self).mem(), old(self).root(), vb, 0, 3) ==> path_ok(
                final(self).mem(),
                final(self).root(),
                vb,
                0,
                3,
            ),
            map_4k_step((old(self).mem(), old(self).levels(), old(pmm).pages(), old(pmm).count()), old(self).root(), pt, va, flags)
                == Some((final(self).mem(), final(self).levels(), final(pmm).pages(), final(pmm).count())),
    {
        let ghost m0 = self.mem();
        let ghost lv0 = self.levels();
        let ghost p0 = pmm.pages();
        let t = self.walk_alloc(pmm, va, 3);
        let idx = table_index(va, 3);
        proof {
            lemma_alloc_walk_lookup(m0, lv0, self.root(), self.root(), va, 0, 3, p0);
        }
        let ghost m1 = self.mem();
        self.write_entry(t, idx, pt | flags);
        proof {
            assert(m1.contains_key(t));
            let m2 = self.mem();
            assert(m2.dom() =~= m1.dom());
            assert forall|u: u64| #[trigger] m2.contains_key(u) implies m2[u].len() == 512 && self.levels()[u] <= 3 by {
                if u != t {
                    assert(m2[u] == m1[u]);
                }
            }
            assert forall|u: u64, j: int|
                m2.contains_key(u) && self.levels()[u] < 3 && 0 <= j < 512 && present(#[trigger] m2[u][j])
                    && !(self.levels()[u] == 2 && large(m2[u][j])) implies m2.contains_key(target(m2[u][j]))
                && self.levels()[target(m2[u][j])] == self.levels()[u] + 1 by {
                assert(u != t);
                assert(m2[u][j] == m1[u][j]);
            }
            lemma_lookup_frame(m1, self.levels(), self.root(), self.root(), va, 0, 3, t, m1[t].update(idx as int, pt | flags));
            lemma_alloc_walk_grows(m0, lv0, self.root(), self.root(), va, 0, 3, p0);
            assert forall|vb: u64| #[trigger] path_ok(m0, self.root(), vb, 0, 3) implies path_ok(m2, self.root(), vb, 0, 3) by {
                lemma_path_ok_grows(m0, lv0, m1, self.levels(), self.root(), self.root(), vb, 0);
                lemma_path_ok_frame(m1, self.levels(), self.root(), self.root(), vb, 0, t, m1[t].update(idx as int, pt | flags));
            }
        }
    }

    /// Maps the 2 MiB page that holds `va` to the large-page entry made of
    /// `pt` without its offset bits, `flags` and the large-page bit, creating
    /// the missing tables above it from frames of `pmm`.
    pub fn map2mb(&mut self, pmm: &mut FreePageList, pt: u64, va: u64, flags: u64)
        requires
            old(self).wf(),
            missing(old(self).mem(), old(self).root(), va & !LARGE_OFFSET, 0, 2) <= old(pmm).pages().len(),
            fresh_frames(old(pmm).pages(), old(self).mem()),
        ensures
            ({
                let w = alloc_walk(
                    old(self).mem(),
                    old(self).levels(),
                    old(self).root(),
                    va & !LARGE_OFFSET,
                    0,
                    2,
                    old(pmm).pages(),
                );
                &&& final(self).mem() == w.0.insert(
                    w.3,
                    w.0[w.3].update(pt_index(va, 2), (pt & !LARGE_OFFSET) | flags | KT2MB),
                )
                &&& final(self).levels() == w.1
                &&& final(pmm).pages() == w.2
            }),
            final(pmm).count() == wrapping_sub_n(
                old(pmm).count(),
                missing(old(self).mem(), old(self).root(), va & !LARGE_OFFSET, 0, 2) as int,
            ),
            final(self).wf(),
            final(self).root() == old(self).root(),
            final(self).regions() == old(self).regions(),
            fresh_frames(final(pmm).pages(), final(self).mem()),
            pde(final(self).mem(), final(self).root(), va) == Some((pt & !LARGE_OFFSET) | flags | KT2MB),
            map_2m_step((old(self).mem(), old(self).levels(), old(pmm).pages(), old(pmm).count()), old(self).root(), pt, va, flags)
                == Some((final(self).mem(), final(self).levels(), final(pmm).pages(), final(pmm).count())),
    {
        let ghost m0 = self.mem();
        let ghost lv0 = self.levels();
        let ghost p0 = pmm.pages();
        let va2 = va & !LARGE_OFFSET;
        proof {
            lemma_path_ok_2(m0, self.root(), va2, 0);
        }
        let t = self.walk_alloc(pmm, va2, 2);
        let idx = table_index(va2, 2);
        let e = (pt & !LARGE_OFFSET) | flags | KT2MB;
        proof {
            lemma_alloc_walk_lookup(m0, lv0, self.root(), self.root(), va2, 0, 2, p0);
            lemma_large_base_index(va);
        }
        let ghost m1 = self.mem();
        self.write_entry(t, idx, e);
        proof {
            assert(m1.contains_key(t));
            let m2 = self.mem();
            assert(m2.dom() =~= m1.dom());
            assert(e & KT2MB != 0) by (bit_vector)
                requires e == (pt & !0x1f_ffffu64) | flags | 0x80u64;
            assert forall|u: u64| #[trigger] m2.contains_key(u) implies m2[u].len() == 512 && self.levels()[u] <= 3 by {
                if u != t {
                    assert(m2[u] == m1[u]);
                }
            }
            assert forall|u: u64, j: int|
                m2.contains_key(u) && self.levels()[u] < 3 && 0 <= j < 512 && present(#[trigger] m2[u][j])
                    && !(self.levels()[u] == 2 && large(m2[u][j])) implies m2.contains_key(target(m2[u][j]))
                && self.levels()[target(m2[u][j])] == self.levels()[u] + 1 by {
                if u == t && j == idx {
                } else {
                    assert(m2[u][j] == m1[u][j]);
                }
            }
            lemma_lookup_frame(m1, self.levels(), self.root(), self.root(), va2, 0, 2, t, m1[t].update(idx as int, e));
            lemma_lookup_same_index(m2, self.root(), va, va2, 0, 2);
        }
    }

    /// The last-level table that holds a non-zero entry for `va`, if any.
    pub fn find_pte(&self, va: u64) -> (r: Option<u64>)
        requires
            self.wf(),
            path_ok(self.mem(), self.root(), va, 0, 3),
        ensures
            r == match lookup(self.mem(), self.root(), va, 0) {
                None => None,
                Some(t) => if self.mem()[t][pt_index(va, 3)] == 0 {
                    None
                } else {
                    Some(t)
                },
            },
            r matches Some(t) ==> self.mem().contains_key(t) && self.levels()[t] == 3,
    {
        let mut t = self.rootpagetable;
        let mut level: usize = 0;
        while level < 3
            invariant
                level <= 3,
                self.wf(),
                self.mem().contains_key(t),
                self.levels()[t] == level,
                path_ok(self.mem(), t, va, level as nat, 3),
                lookup(self.mem(), self.root(), va, 0) == lookup_at(self.mem(), t, va, level as nat, 3),
            decreases 3 - level,
        {
            let idx = table_index(va, level);
            let e = self.read_entry(t, idx);
            if e & KTPRESENT == 0 {
                return None;
            }
            t = e & ADDR_MASK;
            level = level + 1;
        }
        let idx = table_index(va, 3);
        if self.read_entry(t, idx) == 0 {
            None
        } else {
            Some(t)
        }
    }

    /// The masked last-level entry for `va`; `None` when a table on the way
    /// has no present entry or the entry is zero.
    pub fn virt_to_phys(&self, va: u64) -> (r: Option<u64>)
        requires
            self.wf(),
            path_ok(self.mem(), self.root(), va, 0, 3),
        ensures
            r == translate(self.mem(), self.root(), va),
    {
        match self.find_pte(va) {
            Some(t) => {
                let idx = table_index(va, 3);
                Some(self.read_entry(t, idx) & PHYS_MASK)
            },
            None => None,
        }
    }

    /// Clears the last-level entry for `va`; `false` when there is none to
    /// clear, and then nothing changes.
    pub fn unmap(&mut self, va: u64) -> (found: bool)
        requires
            old(self).wf(),
            path_ok(old(self).mem(), old(self).root(), va, 0, 3),
        ensures
            final(self).wf(),
            final(self).root() == old(self).root(),
            final(self).levels() == old(self).levels(),
            final(self).regions() == old(self).regions(),
            found == (translate(old(self).mem(), old(self).root(), va) is Some),
            !found ==> final(self).mem() == old(self).mem(),
            found ==> ({
                let t = lookup(old(self).mem(), old(self).root(), va, 0)->0;
                final(self).mem() == old(self).mem().insert(t, old(self).mem()[t].update(pt_index(va, 3), 0))
            }),
            translate(final(self).mem(), final(self).root(), va) is None,
            forall|vb: u64| #[trigger] path_ok(old(self).mem(), old(self).root(), vb, 0, 3) ==> path_ok(
                final(self).mem(),
                final(self).root(),
                vb,
                0,
                3,
            ),
    {
        match self.find_pte(va) {
            Some(t) => {
                let idx = table_index(va, 3);
                let ghost m1 = self.mem();
                self.write_entry(t, idx, 0);
                proof {
                    let m2 = self.mem();
                    assert(m2.dom() =~= m1.dom());
                    assert forall|u: u64| #[trigger] m2.contains_key(u) implies m2[u].len() == 512 && self.levels()[u] <= 3 by {
                        if u != t {
                            assert(m2[u] == m1[u]);
                        }
                    }
                    assert forall|u: u64, j: int|
                        m2.contains_key(u) && self.levels()[u] < 3 && 0 <= j < 512 && present(#[trigger] m2[u][j])
                            && !(self.levels()[u] == 2 && large(m2[u][j])) implies m2.contains_key(target(m2[u][j]))
                        && self.levels()[target(m2[u][j])] == self.levels()[u] + 1 by {
                        assert(u != t);
                        assert(m2[u][j] == m1[u][j]);
                    }
                    lemma_lookup_frame(m1, self.levels(), self.root(), self.root(), va, 0, 3, t, m1[t].update(idx as int, 0));
                    assert forall|vb: u64| #[trigger] path_ok(m1, self.root(), vb, 0, 3) implies path_ok(m2, self.root(), vb, 0, 3) by {
                        lemma_path_ok_frame(m1, self.levels(), self.root(), self.root(), vb, 0, t, m1[t].update(idx as int, 0));
                    }
                }
                true
            },
            None => false,
        }
    }
}


/// Mapping the first `n` pages from `base`, each to the next free frame with
/// `flags`; `None` when the frames run out or a page's walk meets a large
/// page.
pub open spec fn map_pages(st: MemState, root: u64, base: u64, n: nat, flags: u64) -> Option<MemState>
    decreases n,
{
    if n == 0 {
        Some(st)
    } else {
        match map_pages(st, root, base, (n - 1) as nat, flags) {
            None => None,
            Some(s1) => if s1.2.len() == 0 {
                None
            } else {
                map_4k_step(
                    (s1.0, s1.1, s1.2.drop_last(), super::pmm::wrapping_dec(s1.3)),
                    root,
                    s1.2.last() as u64,
                    (base + (n - 1) * 4096) as u64,
                    flags,
                )
            },
        }
    }
}

proof fn lemma_map_pages_prefix(st: MemState, root: u64, base: u64, n: nat, k: nat, flags: u64)
    requires
        k <= n,
        map_pages(st, root, base, n, flags) is Some,
    ensures
        map_pages(st, root, base, k, flags) is Some,
    decreases n,
{
    if k < n {
        lemma_map_pages_prefix(st, root, base, (n - 1) as nat, k, flags);
    }
}

/// The room between region `j - 1` and the start of region `j`, counted from
/// the start of region `j - 1` plus its length.
pub open spec fn gap(r: Seq<VMMRegion>, j: int) -> int {
    r[j].base - r[j - 1].base + r[j - 1].length
}

/// The first region from `j` on whose gap reaches `need`; `r.len()` when none
/// does.
pub open spec fn first_fit(r: Seq<VMMRegion>, need: int, j: int) -> int
    decreases r.len() - j,
{
    if j >= r.len() || j < 1 {
        r.len() as int
    } else if gap(r, j) >= need {
        j
    } else {
        first_fit(r, need, j + 1)
    }
}

/// Every gap computed while searching from `j` fits in a `u64`.
pub open spec fn gaps_computable(r: Seq<VMMRegion>, need: int, j: int) -> bool
    decreases r.len() - j,
{
    j >= r.len() || j < 1 || (r[j].base >= r[j - 1].base && gap(r, j) <= u64::MAX && (gap(r, j) >= need
        || gaps_computable(r, need, j + 1)))
}

/// The bytes a region for `size` bytes takes: whole pages.
pub open spec fn region_bytes(size: usize) -> int {
    (super::pmm::page_count(size as u64) * 4096) as int
}

proof fn lemma_first_fit_ge(r: Seq<VMMRegion>, need: int, j: int)
    requires
        1 <= j <= r.len(),
    ensures
        first_fit(r, need, j) >= j,
    decreases r.len() - j,
{
    if j < r.len() && gap(r, j) < need {
        lemma_first_fit_ge(r, need, j + 1);
    }
}

/// `va` is mapped, by a walk free of large pages, to one of `frames` with
/// `flags`.
pub open spec fn page_backed(m: Map<u64, Seq<u64>>, root: u64, va: u64, frames: Seq<usize>, flags: u64) -> bool {
    &&& path_ok(m, root, va, 0, 3)
    &&& exists|j: int|
        0 <= j < frames.len() && translate(m, root, va) == Some(((#[trigger] frames[j] as u64) | flags) & PHYS_MASK)
}

/// The frames left after a walk are the first ones of those before it.
proof fn lemma_alloc_walk_frames(
    m: Map<u64, Seq<u64>>,
    lv: Map<u64, nat>,
    root: u64,
    t: u64,
    va: u64,
    level: nat,
    frames: Seq<usize>,
)
    requires
        tables_wf(m, lv, root),
        m.contains_key(t),
        lv[t] == level,
        level <= 3,
        path_ok(m, t, va, level, 3),
        missing(m, t, va, level, 3) <= frames.len(),
        fresh_frames(frames, m),
    ensures
        ({
            let w = alloc_walk(m, lv, t, va, level, 3, frames);
            w.2.len() <= frames.len() && w.2 == frames.subrange(0, w.2.len() as int)
        }),
    decreases 3 - level,
{
    if level < 3 {
        let i = pt_index(va, level);
        let e = m[t][i];
        lemma_pt_index_bound(va, level);
        if present(e) {
            lemma_alloc_walk_frames(m, lv, root, target(e), va, level + 1, frames);
        } else {
            let f = frames.last() as u64;
            let m1 = m.insert(f, zero_table());
            let m2 = m1.insert(t, m1[t].update(i, f | KTPRESENT | KTWRITEALLOWED));
            let lv2 = lv.insert(f, level + 1);
            let fr2 = frames.drop_last();
            lemma_new_table_step(m, lv, root, t, va, level, frames);
            lemma_alloc_walk_frames(m2, lv2, root, f, va, level + 1, fr2);
            let w = alloc_walk(m2, lv2, f, va, level + 1, 3, fr2);
            assert(w.2 =~= frames.subrange(0, w.2.len() as int));
        }
    }
}

/// The gap that a region for `size` bytes goes into: the first, after the
/// first region, with room for it and a guard page.
pub open spec fn region_slot(m: PageMap, size: usize) -> int {
    first_fit(m.regions(), region_bytes(size) + 0x1000, 1)
}

/// Where a region for `size` bytes starts: at the end of the region before
/// its gap.
pub open spec fn region_base(m: PageMap, size: usize) -> u64 {
    let prev = m.regions()[region_slot(m, size) - 1];
    (prev.base + prev.length) as u64
}

/// The tables and free frames after the pages of a region for `size` bytes
/// were backed with frames of `pmm` and mapped with `flags`.
pub open spec fn region_maps(m: PageMap, pmm: FreePageList, size: usize, flags: VMMFlags) -> Option<MemState> {
    map_pages(
        (m.mem(), m.levels(), pmm.pages(), pmm.count()),
        m.root(),
        region_base(m, size),
        (region_bytes(size) / 4096) as nat,
        flags.spec_bits(),
    )
}

/// A region for `size` bytes can be taken from `m` with frames of `pmm`: the
/// address space is well formed, a gap after the first region has room for
/// it, and the arithmetic of finding and mapping it fits the machine.
pub open spec fn region_alloc_ok(m: PageMap, pmm: FreePageList, size: usize, flags: VMMFlags) -> bool {
    &&& m.wf()
    &&& fresh_frames(pmm.pages(), m.mem())
    &&& region_bytes(size) + 0x1000 <= usize::MAX
    &&& size + 4096 <= usize::MAX
    &&& 1 <= region_slot(m, size) < m.regions().len()
    &&& gaps_computable(m.regions(), region_bytes(size) + 0x1000, 1)
    &&& m.regions()[region_slot(m, size) - 1].base + m.regions()[region_slot(m, size) - 1].length + region_bytes(size)
        <= u64::MAX
    &&& region_maps(m, pmm, size, flags) is Some
}

/// `m2` and `pmm2` are `m` and `pmm` after a region for `size` bytes was
/// taken and `r` returned: the region is recorded in its gap, its pages are
/// mapped to frames of `pmm`, and `r` is where it starts.
pub open spec fn region_alloc_post(
    m: PageMap,
    m2: PageMap,
    pmm: FreePageList,
    pmm2: FreePageList,
    size: usize,
    flags: VMMFlags,
    r: Option<u64>,
) -> bool {
    let st = region_maps(m, pmm, size, flags)->0;
    &&& r == Some(region_base(m, size))
    &&& m2.regions() == m.regions().insert(
        region_slot(m, size),
        VMMRegion { base: region_base(m, size), length: region_bytes(size) as u64, flags },
    )
    &&& m2.mem() == st.0
    &&& m2.levels() == st.1
    &&& pmm2.pages() == st.2
    &&& pmm2.count() == st.3
    &&& m2.wf()
    &&& m2.root() == m.root()
    &&& fresh_frames(pmm2.pages(), m2.mem())
    &&& flags.spec_bits() != 0 ==> forall|pg: int|
        0 <= pg < region_bytes(size) / 4096 ==> #[trigger] page_backed(
            m2.mem(),
            m2.root(),
            (region_base(m, size) + pg * 4096) as u64,
            pmm.pages(),
            flags.spec_bits(),
        )
}

impl PageMap {
    /// The first region whose gap reaches `need`.
    fn find_gap(&self, need: u64) -> (k: usize)
        requires
            1 <= first_fit(self.regions(), need as int, 1) < self.regions().len(),
            gaps_computable(self.regions(), need as int, 1),
        ensures
            k == first_fit(self.regions(), need as int, 1),
    {
        let mut j: usize = 1;
        while j < self.head.len()
            invariant
                1 <= j <= first_fit(self.regions(), need as int, 1) < self.regions().len(),
                first_fit(self.regions(), need as int, 1) == first_fit(self.regions(), need as int, j as int),
                gaps_computable(self.regions(), need as int, j as int),
            decreases self.regions().len() - j,
        {
            let temp = &self.head[j - 1];
            let i = &self.head[j];
            if i.base - temp.base + temp.length >= need {
                return j;
            }
            proof {
                lemma_first_fit_ge(self.regions(), need as int, j + 1);
            }
            j = j + 1;
        }
        j
    }

    /// Records the regions of the direct map (`pages_in_hhdm` pages from
    /// `hhdm`) and of the kernel image (from `kernel_base`, as long as the
    /// address `kernel_end` rounded up to a page), in that order.
    pub fn region_setup(&mut self, pages_in_hhdm: usize, hhdm: u64, kernel_base: u64, kernel_end: usize)
        requires
            pages_in_hhdm * 0x1000 + 4096 <= usize::MAX,
            kernel_end + 4096 <= usize::MAX,
        ensures
            final(self).regions() == old(self).regions().push(
                VMMRegion {
                    base: hhdm,
                    length: (super::pmm::page_count((pages_in_hhdm * 0x1000) as u64) * 4096) as u64,
                    flags: VMMFlags::from_bits_spec(KTPRESENT | KTWRITEALLOWED),
                },
            ).push(
                VMMRegion {
                    base: kernel_base,
                    length: (super::pmm::page_count(kernel_end as u64) * 4096) as u64,
                    flags: VMMFlags::from_bits_spec(KTPRESENT | KTWRITEALLOWED),
                },
            ),
            final(self).mem() == old(self).mem(),
            final(self).levels() == old(self).levels(),
            final(self).root() == old(self).root(),
    {
        let kernel_len = align_up(kernel_end, 4096);
        let hhdm_len = align_up(pages_in_hhdm * 0x1000, 4096);
        proof {
            assert(super::is_pow2(4096)) by (bit_vector);
            super::pmm::lemma_page_multiple(kernel_end, kernel_len);
            super::pmm::lemma_page_multiple((pages_in_hhdm * 0x1000) as usize, hhdm_len);
        }
        let ITSHIM = VMMRegion {
            base: kernel_base,
            length: kernel_len as u64,
            flags: VMMFlags::from_bits(KTPRESENT | KTWRITEALLOWED),
        };
        let HHDMM = VMMRegion {
            base: hhdm,
            length: hhdm_len as u64,
            flags: VMMFlags::from_bits(KTPRESENT | KTWRITEALLOWED),
        };
        self.head.push(HHDMM);
        self.head.push(ITSHIM);
    }

    /// Takes a region of `size` bytes, in whole pages, for the first gap
    /// between regions that has room for it and a guard page, backs each of
    /// its pages with a frame of `pmm` mapped with `flags`, and returns where
    /// it starts.
    pub fn vmm_region_alloc(&mut self, pmm: &mut FreePageList, size: usize, flags: VMMFlags) -> (r: Option<u64>)
        requires
            region_alloc_ok(*old(self), *old(pmm), size, flags),
        ensures
            region_alloc_post(*old(self), *final(self), *old(pmm), *final(pmm), size, flags, r),
    {
        let len = align_up(size, 4096);
        proof {
            assert(super::is_pow2(4096)) by (bit_vector);
            super::pmm::lemma_page_multiple(size, len);
        }
        let need = len as u64 + 0x1000;
        let idx = self.find_gap(need);
        let temp = &self.head[idx - 1];
        let base = temp.base + temp.length;
        let amou = len / 4096;
        let ghost st0 = (self.mem(), self.levels(), pmm.pages(), pmm.count());
        let mut i: usize = 0;
        while i < amou
            invariant
                self.wf(),
                self.root() == old(self).root(),
                self.regions() == old(self).regions(),
                fresh_frames(pmm.pages(), self.mem()),
                i <= amou,
                amou == region_bytes(size) / 4096,
                base + amou * 4096 <= u64::MAX,
                st0 == (old(self).mem(), old(self).levels(), old(pmm).pages(), old(pmm).count()),
                map_pages(st0, self.root(), base, amou as nat, flags.spec_bits()) is Some,
                map_pages(st0, self.root(), base, i as nat, flags.spec_bits()) == Some(
                    (self.mem(), self.levels(), pmm.pages(), pmm.count()),
                ),
                pmm.pages().len() <= old(pmm).pages().len(),
                pmm.pages() == old(pmm).pages().subrange(0, pmm.pages().len() as int),
                flags.spec_bits() != 0 ==> forall|pg: int|
                    0 <= pg < i ==> #[trigger] page_backed(
                        self.mem(),
                        self.root(),
                        (base + pg * 4096) as u64,
                        old(pmm).pages(),
                        flags.spec_bits(),
                    ),
            decreases amou - i,
        {
            proof {
                lemma_map_pages_prefix(st0, self.root(), base, amou as nat, (i + 1) as nat, flags.spec_bits());
                assert(i * 4096 + 4096 <= amou * 4096) by (nonlinear_arith)
                    requires i < amou;
            }
            let va = base + i as u64 * 0x1000;
            let ghost c0 = pmm.count();
            let data = pmm_alloc(pmm).unwrap();
            proof {
                let fr = old(pmm).pages();
                assert forall|j: int| 0 <= j < pmm.pages().len() implies !self.mem().contains_key(
                    #[trigger] pmm.pages()[j] as u64,
                ) && frame_ok(pmm.pages()[j] as u64) by {
                    let full = pmm.pages().push(data);
                    assert(pmm.pages()[j] == full[j]);
                }
            }
            proof {
                assert(va == (base + i * 4096) as u64);
            }
            let ghost m_before = self.mem();
            let ghost lv_before = self.levels();
            let ghost p_before = pmm.pages();
            let ghost c_before = pmm.count();
            proof {
                assert(p_before == old(pmm).pages().subrange(0, p_before.len() as int));
                assert(old(pmm).pages()[p_before.len() as int] == data);
                lemma_alloc_walk_frames(m_before, lv_before, self.root(), self.root(), va, 0, p_before);
            }
            self.map(pmm, data as u64, va, flags.bits());
            proof {
                let p0 = old(pmm).pages();
                let st = (m_before, lv_before, p_before, c_before);
                assert(pmm.pages() =~= p0.subrange(0, pmm.pages().len() as int));
                if flags.spec_bits() != 0 {
                    let jd = p_before.len() as int;
                    let fl = flags.spec_bits();
                    let d = data as u64;
                    assert(d | fl != 0) by (bit_vector)
                        requires fl != 0;
                    assert(translate(self.mem(), self.root(), va) == Some(((p0[jd] as u64) | flags.spec_bits()) & PHYS_MASK));
                    assert(page_backed(self.mem(), self.root(), va, p0, flags.spec_bits()));
                    assert forall|pg: int| 0 <= pg < i + 1 implies #[trigger] page_backed(
                        self.mem(),
                        self.root(),
                        (base + pg * 4096) as u64,
                        p0,
                        flags.spec_bits(),
                    ) by {
                        if pg < i {
                            let vb = (base + pg * 4096) as u64;
                            assert(page_backed(m_before, self.root(), vb, p0, flags.spec_bits()));
                            assert(path_ok(self.mem(), self.root(), vb, 0, 3));
                            if lookup(self.mem(), self.root(), vb, 0) == lookup(self.mem(), self.root(), va, 0)
                                && pt_index(vb, 3) == pt_index(va, 3) {
                                assert(translate(self.mem(), self.root(), vb) == translate(self.mem(), self.root(), va));
                            } else {
                                map_keeps_other_translations(st, self.root(), data as u64, va, flags.spec_bits(), vb);
                            }
                        } else {
                            assert(pg == i);
                        }
                    }
                }
            }
            i = i + 1;
        }
        let new_guy = VMMRegion { base, length: len as u64, flags };
        self.head.insert(idx, new_guy);
        proof {
            assert(base == region_base(*old(self), size));
        }
        Some(base)
    }
}

impl VMMFlags {
    pub open spec fn from_bits_spec(bits: u64) -> VMMFlags {
        VMMFlags { bits }
    }
}


/// The page tables, free frames and free-page counter while pages are
/// unmapped.
pub type UnmapState = (Map<u64, Seq<u64>>, Seq<usize>, usize);

/// Unmapping the first `n` pages from `base`, giving each page's frame back;
/// `None` when a page is not mapped, its walk meets a large page, its frame
/// does not fit a `usize` or the free list is empty.
pub open spec fn unmap_pages(st: UnmapState, root: u64, base: u64, n: nat) -> Option<UnmapState>
    decreases n,
{
    if n == 0 {
        Some(st)
    } else {
        match unmap_pages(st, root, base, (n - 1) as nat) {
            None => None,
            Some(s1) => {
                let va = (base + (n - 1) * 4096) as u64;
                if !path_ok(s1.0, root, va, 0, 3) || translate(s1.0, root, va) is None || s1.1.len() == 0
                    || translate(s1.0, root, va)->0 > usize::MAX {
                    None
                } else {
                    let t = lookup(s1.0, root, va, 0)->0;
                    Some(
                        (
                            s1.0.insert(t, s1.0[t].update(pt_index(va, 3), 0)),
                            s1.1.drop_last().push(translate(s1.0, root, va)->0 as usize),
                            wrapping_inc(s1.2),
                        ),
                    )
                }
            },
        }
    }
}

/// Unmapping the pages of every region among the first `j` whose base is
/// `addr`, in order.
pub open spec fn dealloc_regions(r: Seq<VMMRegion>, addr: u64, st: UnmapState, root: u64, j: nat) -> Option<UnmapState>
    decreases j,
{
    if j == 0 {
        Some(st)
    } else {
        match dealloc_regions(r, addr, st, root, (j - 1) as nat) {
            None => None,
            Some(s1) => if r[j - 1].base == addr {
                unmap_pages(s1, root, r[j - 1].base, (r[j - 1].length / 4096) as nat)
            } else {
                Some(s1)
            },
        }
    }
}

/// The regions starting at `addr` can be given back: the address space is
/// well formed, each such region ends within the address range, and each of
/// its pages is mapped.
pub open spec fn region_dealloc_ok(m: PageMap, pmm: FreePageList, addr: u64) -> bool {
    &&& m.wf()
    &&& forall|j: int|
        0 <= j < m.regions().len() && (#[trigger] m.regions()[j]).base == addr ==> addr + m.regions()[j].length
            <= u64::MAX
    &&& dealloc_regions(m.regions(), addr, (m.mem(), pmm.pages(), pmm.count()), m.root(), m.regions().len()) is Some
}

/// `m2` and `pmm2` are `m` and `pmm` after the regions starting at `addr`
/// were given back: their pages are unmapped and their frames freed, the last
/// of them leaves the list, and `found` says whether there was one.
pub open spec fn region_dealloc_post(
    m: PageMap,
    m2: PageMap,
    pmm: FreePageList,
    pmm2: FreePageList,
    addr: u64,
    found: bool,
) -> bool {
    let r = m.regions();
    let st = dealloc_regions(r, addr, (m.mem(), pmm.pages(), pmm.count()), m.root(), r.len())->0;
    let k = last_with_base(r, addr, r.len() as int);
    &&& found == (k >= 0)
    &&& m2.mem() == st.0
    &&& pmm2.pages() == st.1
    &&& pmm2.count() == st.2
    &&& found ==> m2.regions() == r.remove(k)
    &&& !found ==> m2.regions() == r
    &&& m2.wf()
    &&& m2.root() == m.root()
    &&& m2.levels() == m.levels()
}

/// The last region among the first `j` whose base is `addr`; `-1` when none.
pub open spec fn last_with_base(r: Seq<VMMRegion>, addr: u64, j: int) -> int
    decreases j,
{
    if j <= 0 {
        -1
    } else if r[j - 1].base == addr {
        j - 1
    } else {
        last_with_base(r, addr, j - 1)
    }
}

/// The last region with base `addr` is at `k` when no region after `k`
/// starts there.
proof fn lemma_last_with_base_at(r: Seq<VMMRegion>, addr: u64, k: int, j: int)
    requires
        0 <= k < j <= r.len(),
        r[k].base == addr,
        forall|l: int| k < l < r.len() ==> (#[trigger] r[l]).base != addr,
    ensures
        last_with_base(r, addr, j) == k,
    decreases j,
{
    if j - 1 > k {
        lemma_last_with_base_at(r, addr, k, j - 1);
    }
}

/// A region taken for `size` bytes and given back by the address it was
/// handed out at is found, and the list of regions is as it was before it was
/// taken, when no other region started at that address.
pub proof fn region_alloc_then_dealloc(
    m: PageMap,
    m2: PageMap,
    m3: PageMap,
    p: FreePageList,
    p2: FreePageList,
    p3: FreePageList,
    size: usize,
    flags: VMMFlags,
    r: Option<u64>,
    found: bool,
)
    requires
        region_alloc_ok(m, p, size, flags),
        forall|j: int| 0 <= j < m.regions().len() ==> (#[trigger] m.regions()[j]).base != region_base(m, size),
        region_alloc_post(m, m2, p, p2, size, flags, r),
        region_dealloc_ok(m2, p2, r->0),
        region_dealloc_post(m2, m3, p2, p3, r->0, found),
    ensures
        found,
        m3.regions() == m.regions(),
        forall|pg: int|
            0 <= pg < region_bytes(size) / 4096 ==> #[trigger] translate(
                m3.mem(),
                m3.root(),
                (region_base(m, size) + pg * 4096) as u64,
            ) is None,
{
    let k = region_slot(m, size);
    let b = region_base(m, size);
    let rs = m2.regions();
    assert forall|l: int| k < l < rs.len() implies (#[trigger] rs[l]).base != b by {
        assert(rs[l] == m.regions()[l - 1]);
    }
    lemma_last_with_base_at(rs, b, k, rs.len() as int);
    assert(rs.remove(k) =~= m.regions());
    region_dealloc_unmaps(m2, m3, p2, p3, b, found);
    assert(rs[k].base == b && rs[k].length == region_bytes(size) as u64);
    assert forall|pg: int| 0 <= pg < region_bytes(size) / 4096 implies #[trigger] translate(
        m3.mem(),
        m3.root(),
        (region_base(m, size) + pg * 4096) as u64,
    ) is None by {
        assert(translate(m3.mem(), m3.root(), (b + pg * 4096) as u64) is None);
    }
}

/// `va` is unmapped: its walk meets no large page and it translates to
/// nothing.
pub open spec fn page_gone(m: Map<u64, Seq<u64>>, root: u64, va: u64) -> bool {
    path_ok(m, root, va, 0, 3) && translate(m, root, va) is None
}

/// Clearing the slot of `va` unmaps it, keeps the tables well formed and
/// keeps every unmapped address unmapped and every walk free of large pages.
proof fn lemma_clear_slot(m: Map<u64, Seq<u64>>, lv: Map<u64, nat>, root: u64, va: u64)
    requires
        tables_wf(m, lv, root),
        path_ok(m, root, va, 0, 3),
        lookup(m, root, va, 0) is Some,
    ensures
        ({
            let t = lookup(m, root, va, 0)->0;
            let m2 = m.insert(t, m[t].update(pt_index(va, 3), 0));
            &&& tables_wf(m2, lv, root)
            &&& page_gone(m2, root, va)
            &&& forall|vb: u64| #[trigger] path_ok(m, root, vb, 0, 3) ==> path_ok(m2, root, vb, 0, 3)
            &&& forall|vb: u64| #[trigger] page_gone(m, root, vb) ==> page_gone(m2, root, vb)
        }),
{
    let t = lookup(m, root, va, 0)->0;
    let x = m[t].update(pt_index(va, 3), 0);
    let m2 = m.insert(t, x);
    lemma_lookup_in(m, lv, root, root, va, 0);
    lemma_pt_index_bound(va, 3);
    assert(m2.dom() =~= m.dom());
    assert forall|u: u64, i: int|
        m2.contains_key(u) && lv[u] < 3 && 0 <= i < 512 && present(#[trigger] m2[u][i]) && !(lv[u] == 2 && large(
            m2[u][i],
        )) implies m2.contains_key(target(m2[u][i])) && lv[target(m2[u][i])] == lv[u] + 1 by {
        assert(u != t);
    }
    assert(tables_wf(m2, lv, root));
    lemma_lookup_frame(m, lv, root, root, va, 0, 3, t, x);
    lemma_path_ok_frame(m, lv, root, root, va, 0, t, x);
    assert forall|vb: u64| #[trigger] path_ok(m, root, vb, 0, 3) implies path_ok(m2, root, vb, 0, 3) by {
        lemma_path_ok_frame(m, lv, root, root, vb, 0, t, x);
    }
    assert forall|vb: u64| #[trigger] page_gone(m, root, vb) implies page_gone(m2, root, vb) by {
        lemma_path_ok_frame(m, lv, root, root, vb, 0, t, x);
        lemma_lookup_frame(m, lv, root, root, vb, 0, 3, t, x);
        lemma_lookup_in(m, lv, root, root, vb, 0);
        if let Some(tb) = lookup(m, root, vb, 0) {
            let j = pt_index(vb, 3);
            lemma_pt_index_bound(vb, 3);
            if tb == t {
                assert(x[j] == 0 || x[j] == m[t][j]);
            }
        }
    }
}

/// Unmapping the pages of a run unmaps each of them, keeps the tables well
/// formed and keeps unmapped addresses unmapped.
proof fn lemma_unmap_pages_gone(st: UnmapState, lv: Map<u64, nat>, root: u64, base: u64, n: nat)
    requires
        tables_wf(st.0, lv, root),
        unmap_pages(st, root, base, n) is Some,
    ensures
        ({
            let s2 = unmap_pages(st, root, base, n)->0;
            &&& tables_wf(s2.0, lv, root)
            &&& forall|vb: u64| #[trigger] path_ok(st.0, root, vb, 0, 3) ==> path_ok(s2.0, root, vb, 0, 3)
            &&& forall|vb: u64| #[trigger] page_gone(st.0, root, vb) ==> page_gone(s2.0, root, vb)
            &&& forall|pg: int| 0 <= pg < n ==> #[trigger] page_gone(s2.0, root, (base + pg * 4096) as u64)
        }),
    decreases n,
{
    if n > 0 {
        lemma_unmap_pages_gone(st, lv, root, base, (n - 1) as nat);
        let s1 = unmap_pages(st, root, base, (n - 1) as nat)->0;
        let va = (base + (n - 1) * 4096) as u64;
        lemma_clear_slot(s1.0, lv, root, va);
        let s2 = unmap_pages(st, root, base, n)->0;
        assert forall|pg: int| 0 <= pg < n implies #[trigger] page_gone(s2.0, root, (base + pg * 4096) as u64) by {
            if pg < n - 1 {
                assert(page_gone(s1.0, root, (base + pg * 4096) as u64));
            }
        }
    }
}

/// Giving back the regions among the first `j` that start at `addr` unmaps
/// each of their pages.
proof fn lemma_dealloc_regions_gone(
    r: Seq<VMMRegion>,
    addr: u64,
    st: UnmapState,
    lv: Map<u64, nat>,
    root: u64,
    j: nat,
)
    requires
        tables_wf(st.0, lv, root),
        j <= r.len(),
        dealloc_regions(r, addr, st, root, j) is Some,
    ensures
        ({
            let s2 = dealloc_regions(r, addr, st, root, j)->0;
            &&& tables_wf(s2.0, lv, root)
            &&& forall|vb: u64| #[trigger] page_gone(st.0, root, vb) ==> page_gone(s2.0, root, vb)
            &&& forall|l: int, pg: int|
                #![trigger r[l], page_gone(s2.0, root, (addr + pg * 4096) as u64)]
                0 <= l < j && r[l].base == addr && 0 <= pg < r[l].length / 4096 ==> page_gone(
                    s2.0,
                    root,
                    (addr + pg * 4096) as u64,
                )
        }),
    decreases j,
{
    if j > 0 {
        lemma_dealloc_regions_gone(r, addr, st, lv, root, (j - 1) as nat);
        let s1 = dealloc_regions(r, addr, st, root, (j - 1) as nat)->0;
        let s2 = dealloc_regions(r, addr, st, root, j)->0;
        if r[j - 1].base == addr {
            lemma_unmap_pages_gone(s1, lv, root, addr, (r[j - 1].length / 4096) as nat);
        }
        assert forall|l: int, pg: int|
            #![trigger r[l], page_gone(s2.0, root, (addr + pg * 4096) as u64)]
            0 <= l < j && r[l].base == addr && 0 <= pg < r[l].length / 4096 implies page_gone(
                s2.0,
                root,
                (addr + pg * 4096) as u64,
            ) by {
            if l < j - 1 {
                assert(page_gone(s1.0, root, (addr + pg * 4096) as u64));
            }
        }
    }
}

/// After the regions starting at `addr` were given back, none of their pages
/// translates any more.
pub proof fn region_dealloc_unmaps(m: PageMap, m2: PageMap, p: FreePageList, p2: FreePageList, addr: u64, found: bool)
    requires
        region_dealloc_ok(m, p, addr),
        region_dealloc_post(m, m2, p, p2, addr, found),
    ensures
        forall|l: int, pg: int|
            #![trigger m.regions()[l], translate(m2.mem(), m2.root(), (addr + pg * 4096) as u64)]
            0 <= l < m.regions().len() && m.regions()[l].base == addr && 0 <= pg < m.regions()[l].length / 4096
                ==> translate(m2.mem(), m2.root(), (addr + pg * 4096) as u64) is None,
{
    let r = m.regions();
    lemma_dealloc_regions_gone(r, addr, (m.mem(), p.pages(), p.count()), m.levels(), m.root(), r.len());
    assert forall|l: int, pg: int|
        #![trigger m.regions()[l], translate(m2.mem(), m2.root(), (addr + pg * 4096) as u64)]
        0 <= l < m.regions().len() && m.regions()[l].base == addr && 0 <= pg < m.regions()[l].length / 4096
            implies translate(m2.mem(), m2.root(), (addr + pg * 4096) as u64) is None by {
        assert(r[l] == m.regions()[l]);
        assert(page_gone(m2.mem(), m.root(), (addr + pg * 4096) as u64));
    }
}

/// How many pages the regions among the first `j` whose base is `addr` span.
pub open spec fn region_pages(r: Seq<VMMRegion>, addr: u64, j: nat) -> nat
    decreases j,
{
    if j == 0 {
        0
    } else if r[j - 1].base == addr {
        region_pages(r, addr, (j - 1) as nat) + (r[j - 1].length / 4096) as nat
    } else {
        region_pages(r, addr, (j - 1) as nat)
    }
}

/// A count below `usize::MAX + 1` is its own wrapping sum with nothing.
proof fn lemma_wrapping_add_zero(x: usize)
    ensures
        wrapping_add_n(x, 0) == x,
{
    let m = usize::MAX as int + 1;
    assert((x + 0) % m == x) by (nonlinear_arith)
        requires m > 0, 0 <= x < m;
}

/// Adding `k` and then one more in wrapping arithmetic adds `k + 1`.
proof fn lemma_wrapping_add_step(x: usize, k: int)
    requires
        k >= 0,
    ensures
        wrapping_inc(wrapping_add_n(x, k)) == wrapping_add_n(x, k + 1),
{
    lemma_mod_wrap(x + k);
}

/// Adding `a` and then `b` in wrapping arithmetic adds `a + b`.
proof fn lemma_wrapping_add_add(x: usize, a: int, b: int)
    requires
        a >= 0,
        b >= 0,
    ensures
        wrapping_add_n(wrapping_add_n(x, a), b) == wrapping_add_n(x, a + b),
    decreases b,
{
    if b == 0 {
        lemma_wrapping_add_zero(wrapping_add_n(x, a));
    } else {
        lemma_wrapping_add_add(x, a, b - 1);
        lemma_wrapping_add_step(wrapping_add_n(x, a), b - 1);
        lemma_wrapping_add_step(x, a + b - 1);
    }
}

/// Unmapping `n` pages gives a frame back for each: the counter rises by
/// `n`, the list keeps its length, and only its last frame changes.
proof fn lemma_unmap_pages_frames(st: UnmapState, root: u64, base: u64, n: nat)
    requires
        unmap_pages(st, root, base, n) is Some,
    ensures
        unmap_pages(st, root, base, n).unwrap().2 == wrapping_add_n(st.2, n as int),
        unmap_pages(st, root, base, n).unwrap().1.len() == st.1.len(),
        n > 0 ==> st.1.len() > 0 && unmap_pages(st, root, base, n).unwrap().1.drop_last() == st.1.drop_last(),
    decreases n,
{
    if n == 0 {
        lemma_wrapping_add_zero(st.2);
    } else {
        lemma_unmap_pages_frames(st, root, base, (n - 1) as nat);
        let s1 = unmap_pages(st, root, base, (n - 1) as nat)->0;
        let va = (base + (n - 1) * 4096) as u64;
        let s2 = unmap_pages(st, root, base, n)->0;
        assert(s2.1 == s1.1.drop_last().push(translate(s1.0, root, va)->0 as usize));
        assert(s2.1.drop_last() =~= s1.1.drop_last());
        lemma_wrapping_add_step(st.2, n - 1);
    }
}

/// Giving back the regions among the first `j` whose base is `addr` gives a
/// frame back for each of their pages.
proof fn lemma_dealloc_regions_frames(r: Seq<VMMRegion>, addr: u64, st: UnmapState, root: u64, j: nat)
    requires
        dealloc_regions(r, addr, st, root, j) is Some,
    ensures
        dealloc_regions(r, addr, st, root, j).unwrap().2 == wrapping_add_n(st.2, region_pages(r, addr, j) as int),
        dealloc_regions(r, addr, st, root, j).unwrap().1.len() == st.1.len(),
        region_pages(r, addr, j) > 0 ==> st.1.len() > 0 && dealloc_regions(r, addr, st, root, j).unwrap().1.drop_last()
            == st.1.drop_last(),
        region_pages(r, addr, j) == 0 ==> dealloc_regions(r, addr, st, root, j).unwrap().1 == st.1,
    decreases j,
{
    if j == 0 {
        lemma_wrapping_add_zero(st.2);
    } else {
        lemma_dealloc_regions_prefix(r, addr, st, root, j, (j - 1) as nat);
        lemma_dealloc_regions_frames(r, addr, st, root, (j - 1) as nat);
        let s1 = dealloc_regions(r, addr, st, root, (j - 1) as nat)->0;
        if r[j - 1].base == addr {
            let k = (r[j - 1].length / 4096) as nat;
            lemma_unmap_pages_frames(s1, root, r[j - 1].base, k);
            lemma_wrapping_add_add(st.2, region_pages(r, addr, (j - 1) as nat) as int, k as int);
        }
    }
}

/// Giving back the regions that start at `addr` gives back a frame for each
/// of their pages: the free-page counter rises by their page count, the
/// list keeps its length, and each frame given back takes the place of the
/// list's last frame, so that all frames before it stay.
pub proof fn region_dealloc_returns_frames(
    m: PageMap,
    m2: PageMap,
    p: FreePageList,
    p2: FreePageList,
    addr: u64,
    found: bool,
)
    requires
        region_dealloc_ok(m, p, addr),
        region_dealloc_post(m, m2, p, p2, addr, found),
    ensures
        p2.count() == wrapping_add_n(p.count(), region_pages(m.regions(), addr, m.regions().len()) as int),
        p2.pages().len() == p.pages().len(),
        region_pages(m.regions(), addr, m.regions().len()) > 0 ==> p2.pages().drop_last() == p.pages().drop_last(),
{
    lemma_dealloc_regions_frames(m.regions(), addr, (m.mem(), p.pages(), p.count()), m.root(), m.regions().len());
}

proof fn lemma_unmap_pages_prefix(st: UnmapState, root: u64, base: u64, n: nat, k: nat)
    requires
        k <= n,
        unmap_pages(st, root, base, n) is Some,
    ensures
        unmap_pages(st, root, base, k) is Some,
    decreases n,
{
    if k < n {
        lemma_unmap_pages_prefix(st, root, base, (n - 1) as nat, k);
    }
}

proof fn lemma_dealloc_regions_prefix(r: Seq<VMMRegion>, addr: u64, st: UnmapState, root: u64, n: nat, k: nat)
    requires
        k <= n,
        dealloc_regions(r, addr, st, root, n) is Some,
    ensures
        dealloc_regions(r, addr, st, root, k) is Some,
    decreases n,
{
    if k < n {
        lemma_dealloc_regions_prefix(r, addr, st, root, (n - 1) as nat, k);
    }
}

proof fn lemma_last_with_base_range(r: Seq<VMMRegion>, addr: u64, j: int)
    ensures
        -1 <= last_with_base(r, addr, j) < j || (j <= 0 && last_with_base(r, addr, j) == -1),
        last_with_base(r, addr, j) >= 0 ==> r[last_with_base(r, addr, j)].base == addr,
    decreases j,
{
    if j > 0 {
        lemma_last_with_base_range(r, addr, j - 1);
    }
}

impl PageMap {
    /// Unmaps the `n` pages from `base` and gives their frames back.
    fn unmap_region_pages(&mut self, pmm: &mut FreePageList, base: u64, n: u64)
        requires
            old(self).wf(),
            base + n * 4096 <= u64::MAX,
            unmap_pages((old(self).mem(), old(pmm).pages(), old(pmm).count()), old(self).root(), base, n as nat) is Some,
        ensures
            ({
                let st = unmap_pages((old(self).mem(), old(pmm).pages(), old(pmm).count()), old(self).root(), base, n as nat)->0;
                &&& final(self).mem() == st.0
                &&& final(pmm).pages() == st.1
                &&& final(pmm).count() == st.2
            }),
            final(self).wf(),
            final(self).root() == old(self).root(),
            final(self).levels() == old(self).levels(),
            final(self).regions() == old(self).regions(),
    {
        let ghost st0 = (self.mem(), pmm.pages(), pmm.count());
        let mut f: u64 = 0;
        while f < n
            invariant
                self.wf(),
                self.root() == old(self).root(),
                self.levels() == old(self).levels(),
                self.regions() == old(self).regions(),
                f <= n,
                base + n * 4096 <= u64::MAX,
                st0 == (old(self).mem(), old(pmm).pages(), old(pmm).count()),
                unmap_pages(st0, self.root(), base, n as nat) is Some,
                unmap_pages(st0, self.root(), base, f as nat) == Some((self.mem(), pmm.pages(), pmm.count())),
            decreases n - f,
        {
            proof {
                lemma_unmap_pages_prefix(st0, self.root(), base, n as nat, (f + 1) as nat);
                assert(f * 4096 + 4096 <= n * 4096) by (nonlinear_arith)
                    requires f < n;
            }
            let va = base + f * 0x1000;
            proof {
                assert(va == (base + f * 4096) as u64);
            }
            let phys = self.virt_to_phys(va).unwrap();
            let ghost t = lookup(self.mem(), self.root(), va, 0)->0;
            self.unmap(va);
            pmm_dealloc(pmm, phys as usize);
            f = f + 1;
        }
    }

    /// Unmaps every region whose base is `addr`, giving its frames back, and
    /// drops the last such region from the list; `false` when no region starts
    /// at `addr`, and then nothing changes.
    pub fn vmm_region_dealloc(&mut self, pmm: &mut FreePageList, addr: u64) -> (found: bool)
        requires
            region_dealloc_ok(*old(self), *old(pmm), addr),
        ensures
            region_dealloc_post(*old(self), *final(self), *old(pmm), *final(pmm), addr, found),
    {
        let ghost r = self.regions();
        let ghost st0 = (self.mem(), pmm.pages(), pmm.count());
        let mut idxx: Option<usize> = None;
        let n = self.head.len();
        let mut j: usize = 0;
        while j < n
            invariant
                self.wf(),
                self.root() == old(self).root(),
                self.levels() == old(self).levels(),
                self.regions() == r,
                r == old(self).regions(),
                n == r.len(),
                j <= n,
                st0 == (old(self).mem(), old(pmm).pages(), old(pmm).count()),
                forall|i: int| 0 <= i < r.len() && (#[trigger] r[i]).base == addr ==> addr + r[i].length <= u64::MAX,
                dealloc_regions(r, addr, st0, self.root(), n as nat) is Some,
                dealloc_regions(r, addr, st0, self.root(), j as nat) == Some((self.mem(), pmm.pages(), pmm.count())),
                idxx is None ==> last_with_base(r, addr, j as int) == -1,
                idxx matches Some(k) ==> last_with_base(r, addr, j as int) == k,
            decreases n - j,
        {
            proof {
                lemma_dealloc_regions_prefix(r, addr, st0, self.root(), n as nat, (j + 1) as nat);
            }
            let base = self.head[j].base;
            let length = self.head[j].length;
            if base == addr {
                let num = length / 4096;
                proof {
                    assert(num * 4096 <= length) by (nonlinear_arith)
                        requires num == length / 4096;
                }
                self.unmap_region_pages(pmm, base, num);
                idxx = Some(j);
            }
            j = j + 1;
        }
        match idxx {
            None => false,
            Some(k) => {
                proof {
                    lemma_last_with_base_range(r, addr, n as int);
                }
                self.head.remove(k);
                true
            },
        }
    }
}


/// The size of a large page.
pub const LARGE_PAGE_SIZE: u64 = 0x20_0000;

/// How many large pages cover `x` bytes.
pub open spec fn large_count(x: int) -> int {
    (x + 0x1f_ffff) / 0x20_0000
}

/// Entry types whose memory the kernel maps in the direct map with the
/// default caching.
pub open spec fn direct_mapped(t: u64) -> bool {
    t == super::MEMMAP_ACPI_NVS || t == super::MEMMAP_ACPI_RECLAIMABLE || t == super::MEMMAP_USABLE || t
        == super::MEMMAP_BOOTLOADER_RECLAIMABLE || t == super::MEMMAP_KERNEL_AND_MODULES || t
        == super::MEMMAP_RESERVED
}

/// The alignment the base of a mapped entry is rounded down to: a page, or
/// a large page for the framebuffer.
pub open spec fn entry_align(e: MemmapEntry) -> int {
    if e.entry_type == super::MEMMAP_FRAMEBUFFER { 0x20_0000 } else { 4096 }
}

/// The entry is mapped in the direct map.
pub open spec fn entry_mapped(e: MemmapEntry) -> bool {
    direct_mapped(e.entry_type) || e.entry_type == super::MEMMAP_FRAMEBUFFER
}

/// The base of a mapped entry rounded down.
pub open spec fn entry_map_base(e: MemmapEntry) -> u64 {
    (e.base as int - (e.base as int) % entry_align(e)) as u64
}

/// How many large pages map the entry.
pub open spec fn entry_map_count(e: MemmapEntry) -> int {
    if entry_mapped(e) { large_count(e.length as int - (e.base as int) % entry_align(e)) } else { 0 }
}

/// The flags the entry is mapped with: write-through with the large-page PAT
/// bit for the framebuffer.
pub open spec fn entry_map_flags(e: MemmapEntry) -> u64 {
    if e.entry_type == super::MEMMAP_FRAMEBUFFER {
        KTPRESENT | KTWRITEALLOWED | KTPATBIT2MB | KTWRITETHROUGH
    } else {
        KTPRESENT | KTWRITEALLOWED
    }
}

/// The entry with the base of a mapped entry rounded down.
pub open spec fn aligned_entry(e: MemmapEntry) -> MemmapEntry {
    if entry_mapped(e) {
        MemmapEntry { base: entry_map_base(e), length: e.length, entry_type: e.entry_type }
    } else {
        e
    }
}

/// The arithmetic of mapping the entry fits the machine: its length covers
/// the part of its first page below its base, and its large pages, at their
/// physical address and in the direct map at `hhdm`, fit in a `usize`.
pub open spec fn entry_mappable(e: MemmapEntry, hhdm: u64) -> bool {
    entry_mapped(e) ==> {
        &&& e.base <= usize::MAX
        &&& e.length <= usize::MAX
        &&& e.length >= (e.base as int) % entry_align(e)
        &&& e.length as int - (e.base as int) % entry_align(e) + 0x20_0000 <= usize::MAX
        &&& hhdm + entry_map_base(e) + entry_map_count(e) * 0x20_0000 <= usize::MAX
    }
}

/// Maps the kernel image: page `i` of the `n` pages from `vbase` to page `i`
/// from `pbase`.
pub open spec fn kernel_maps(st: MemState, root: u64, pbase: u64, vbase: u64, n: nat) -> Option<MemState>
    decreases n,
{
    if n == 0 {
        Some(st)
    } else {
        match kernel_maps(st, root, pbase, vbase, (n - 1) as nat) {
            None => None,
            Some(s1) => map_4k_step(
                s1,
                root,
                (pbase + (n - 1) * 4096) as u64,
                (vbase + (n - 1) * 4096) as u64,
                KTPRESENT | KTWRITEALLOWED,
            ),
        }
    }
}

/// Maps `n` large pages of physical memory from `base` into the direct map
/// at `hhdm` with `flags`.
pub open spec fn range_maps(st: MemState, root: u64, base: u64, hhdm: u64, n: nat, flags: u64) -> Option<MemState>
    decreases n,
{
    if n == 0 {
        Some(st)
    } else {
        match range_maps(st, root, base, hhdm, (n - 1) as nat, flags) {
            None => None,
            Some(s1) => map_2m_step(
                s1,
                root,
                (base + (n - 1) * 0x20_0000) as u64,
                (hhdm + base + (n - 1) * 0x20_0000) as u64,
                flags,
            ),
        }
    }
}

/// Maps the first `k` entries of the memory map into the direct map.
pub open spec fn memmap_maps(st: MemState, root: u64, entries: Seq<MemmapEntry>, hhdm: u64, k: nat) -> Option<MemState>
    decreases k,
{
    if k == 0 {
        Some(st)
    } else {
        match memmap_maps(st, root, entries, hhdm, (k - 1) as nat) {
            None => None,
            Some(s1) => {
                let e = entries[k - 1];
                if entry_mapped(e) {
                    range_maps(s1, root, entry_map_base(e), hhdm, entry_map_count(e) as nat, entry_map_flags(e))
                } else {
                    Some(s1)
                }
            },
        }
    }
}

/// The large pages that map the first `k` entries.
pub open spec fn memmap_pages(entries: Seq<MemmapEntry>, k: nat) -> int
    decreases k,
{
    if k == 0 { 0 } else { memmap_pages(entries, (k - 1) as nat) + entry_map_count(entries[k - 1]) }
}

/// The tables right after the root table was taken from the free frames.
pub open spec fn root_state(st: MemState) -> MemState {
    let f = st.2.last() as u64;
    (
        Map::empty().insert(f, zero_table()),
        Map::empty().insert(f, 0nat),
        st.2.drop_last(),
        super::pmm::wrapping_dec(st.3),
    )
}

/// The kernel's initial address space: a new root table, the kernel image
/// mapped page by page, the first 4 GiB of physical memory and then every
/// mapped entry of the memory map in the direct map at `hhdm` with large
/// pages.
pub open spec fn initial_map(
    st: MemState,
    pbase: u64,
    vbase: u64,
    kernel_end: usize,
    hhdm: u64,
    entries: Seq<MemmapEntry>,
) -> Option<MemState> {
    let root = st.2.last() as u64;
    match kernel_maps(root_state(st), root, pbase, vbase, super::pmm::page_count(kernel_end as u64) + 1) {
        None => None,
        Some(s1) => match range_maps(s1, root, 0, hhdm, 2048, KTPRESENT | KTWRITEALLOWED) {
            None => None,
            Some(s2) => memmap_maps(s2, root, entries, hhdm, entries.len()),
        },
    }
}

proof fn lemma_kernel_maps_prefix(st: MemState, root: u64, pbase: u64, vbase: u64, n: nat, k: nat)
    requires
        k <= n,
        kernel_maps(st, root, pbase, vbase, n) is Some,
    ensures
        kernel_maps(st, root, pbase, vbase, k) is Some,
    decreases n,
{
    if k < n {
        lemma_kernel_maps_prefix(st, root, pbase, vbase, (n - 1) as nat, k);
    }
}

proof fn lemma_range_maps_prefix(st: MemState, root: u64, base: u64, hhdm: u64, n: nat, k: nat, flags: u64)
    requires
        k <= n,
        range_maps(st, root, base, hhdm, n, flags) is Some,
    ensures
        range_maps(st, root, base, hhdm, k, flags) is Some,
    decreases n,
{
    if k < n {
        lemma_range_maps_prefix(st, root, base, hhdm, (n - 1) as nat, k, flags);
    }
}

proof fn lemma_memmap_maps_prefix(st: MemState, root: u64, entries: Seq<MemmapEntry>, hhdm: u64, n: nat, k: nat)
    requires
        k <= n,
        memmap_maps(st, root, entries, hhdm, n) is Some,
    ensures
        memmap_maps(st, root, entries, hhdm, k) is Some,
    decreases n,
{
    if k < n {
        lemma_memmap_maps_prefix(st, root, entries, hhdm, (n - 1) as nat, k);
    }
}

impl PageMap {
    /// The state of the tables and of the frame list.
    pub open spec fn state(&self, pmm: FreePageList) -> MemState {
        (self.mem(), self.levels(), pmm.pages(), pmm.count())
    }

    /// Maps `n` large pages from `base` into the direct map at `hhdm`.
    fn map_range(&mut self, pmm: &mut FreePageList, base: u64, hhdm: u64, n: u64, flags: u64)
        requires
            old(self).wf(),
            fresh_frames(old(pmm).pages(), old(self).mem()),
            hhdm + base + n * 0x20_0000 <= u64::MAX,
            range_maps(old(self).state(*old(pmm)), old(self).root(), base, hhdm, n as nat, flags) is Some,
        ensures
            range_maps(old(self).state(*old(pmm)), old(self).root(), base, hhdm, n as nat, flags) == Some(
                final(self).state(*final(pmm)),
            ),
            final(self).wf(),
            final(self).root() == old(self).root(),
            final(self).regions() == old(self).regions(),
            fresh_frames(final(pmm).pages(), final(self).mem()),
    {
        let ghost st0 = self.state(*pmm);
        let mut e: u64 = 0;
        while e < n
            invariant
                self.wf(),
                self.root() == old(self).root(),
                self.regions() == old(self).regions(),
                fresh_frames(pmm.pages(), self.mem()),
                e <= n,
                hhdm + base + n * 0x20_0000 <= u64::MAX,
                st0 == old(self).state(*old(pmm)),
                range_maps(st0, self.root(), base, hhdm, n as nat, flags) is Some,
                range_maps(st0, self.root(), base, hhdm, e as nat, flags) == Some(self.state(*pmm)),
            decreases n - e,
        {
            proof {
                lemma_range_maps_prefix(st0, self.root(), base, hhdm, n as nat, (e + 1) as nat, flags);
                assert(e * 0x20_0000 + 0x20_0000 <= n * 0x20_0000) by (nonlinear_arith)
                    requires e < n;
            }
            let pa = base + e * LARGE_PAGE_SIZE;
            let va = hhdm + base + e * LARGE_PAGE_SIZE;
            self.map2mb(pmm, pa, va, flags);
            e = e + 1;
        }
    }

    /// Sets up the kernel's initial address space, taking its root table and
    /// every other table from `pmm`: the kernel image (its physical and
    /// virtual bases, and the address `kernel_end` that its size in pages is
    /// rounded from) page by page, the first 4 GiB of physical memory and
    /// each mapped entry of the memory map in the direct map at `hhdm`, with
    /// the base of each mapped entry rounded down; then records the regions of
    /// the direct map and of the kernel.
    pub fn new_inital(
        pmm: &mut FreePageList,
        kernel_phys_base: u64,
        kernel_virt_base: u64,
        kernel_end: usize,
        hhdm: u64,
        entries: &mut Vec<MemmapEntry>,
    ) -> (q: PageMap)
        requires
            old(pmm).pages().len() > 0,
            fresh_frames(old(pmm).pages(), Map::empty()),
            kernel_end + 4096 <= usize::MAX,
            kernel_phys_base + (super::pmm::page_count(kernel_end as u64) + 1) * 4096 <= u64::MAX,
            kernel_virt_base + (super::pmm::page_count(kernel_end as u64) + 1) * 4096 <= u64::MAX,
            hhdm + 0x1_0000_0000 <= u64::MAX,
            forall|k: int| 0 <= k < old(entries)@.len() ==> entry_mappable(#[trigger] old(entries)@[k], hhdm),
            (2048 + memmap_pages(old(entries)@, old(entries)@.len())) * 0x1000 + 4096 <= usize::MAX,
            initial_map(
                (Map::empty(), Map::empty(), old(pmm).pages(), old(pmm).count()),
                kernel_phys_base,
                kernel_virt_base,
                kernel_end,
                hhdm,
                old(entries)@,
            ) is Some,
        ensures
            q.wf(),
            q.root() == old(pmm).pages().last() as u64,
            Some(q.state(*final(pmm))) == initial_map(
                (Map::empty(), Map::empty(), old(pmm).pages(), old(pmm).count()),
                kernel_phys_base,
                kernel_virt_base,
                kernel_end,
                hhdm,
                old(entries)@,
            ),
            fresh_frames(final(pmm).pages(), q.mem()),
            final(entries)@ == old(entries)@.map_values(|e: MemmapEntry| aligned_entry(e)),
            q.regions() == seq![
                VMMRegion {
                    base: hhdm,
                    length: (super::pmm::page_count(((2048 + memmap_pages(old(entries)@, old(entries)@.len())) * 0x1000) as u64) * 4096) as u64,
                    flags: VMMFlags::from_bits_spec(KTPRESENT | KTWRITEALLOWED),
                },
                VMMRegion {
                    base: kernel_virt_base,
                    length: (super::pmm::page_count(kernel_end as u64) * 4096) as u64,
                    flags: VMMFlags::from_bits_spec(KTPRESENT | KTWRITEALLOWED),
                },
            ],
    {
        let ghost st_init = (Map::<u64, Seq<u64>>::empty(), Map::<u64, nat>::empty(), pmm.pages(), pmm.count());
        let ghost e0 = entries@;
        let data = pmm_alloc(pmm).unwrap();
        let root = data as u64;
        let mut tables: HashMap<u64, Vec<u64>> = HashMap::new();
        tables.insert(root, zeroed_table());
        let mut q = PageMap {
            head: Vec::new(),
            rootpagetable: root,
            tables,
            levels: Ghost(Map::empty().insert(root, 0nat)),
        };
        proof {
            assert(q.mem() =~= Map::empty().insert(root, zero_table()));
            assert(q.state(*pmm) == root_state(st_init));
            assert(fresh_frames(old(pmm).pages(), Map::empty()));
            assert forall|j: int| 0 <= j < pmm.pages().len() implies !q.mem().contains_key(#[trigger] pmm.pages()[j] as u64)
                && frame_ok(pmm.pages()[j] as u64) by {
                let full = pmm.pages().push(data);
                assert(full == old(pmm).pages());
                assert(full[j] != full[full.len() - 1]);
            }
            assert forall|t: u64, i: int|
                q.mem().contains_key(t) && q.levels()[t] < 3 && 0 <= i < 512 && present(#[trigger] q.mem()[t][i])
                    implies false by {
                assert(q.mem()[t][i] == 0u64);
                assert(0u64 & 1u64 == 0) by (bit_vector);
            }
        }
        proof {
            assert(super::is_pow2(4096)) by (bit_vector);
        }
        let kernel_len = align_up(kernel_end, 4096);
        proof {
            super::pmm::lemma_page_multiple(kernel_end, kernel_len);
        }
        let size_pages = kernel_len / 4096;
        let ghost s0 = q.state(*pmm);
        let mut i: u64 = 0;
        while i <= size_pages as u64
            invariant
                q.wf(),
                q.root() == root,
                q.regions() == Seq::<VMMRegion>::empty(),
                fresh_frames(pmm.pages(), q.mem()),
                i <= size_pages + 1,
                size_pages == super::pmm::page_count(kernel_end as u64),
                kernel_phys_base + (size_pages + 1) * 4096 <= u64::MAX,
                kernel_virt_base + (size_pages + 1) * 4096 <= u64::MAX,
                kernel_maps(s0, root, kernel_phys_base, kernel_virt_base, (size_pages + 1) as nat) is Some,
                kernel_maps(s0, root, kernel_phys_base, kernel_virt_base, i as nat) == Some(q.state(*pmm)),
            decreases size_pages + 1 - i,
        {
            proof {
                lemma_kernel_maps_prefix(s0, root, kernel_phys_base, kernel_virt_base, (size_pages + 1) as nat, (i + 1) as nat);
                assert(i * 4096 + 4096 <= (size_pages + 1) * 4096) by (nonlinear_arith)
                    requires i <= size_pages;
            }
            q.map(pmm, kernel_phys_base + i * 4096, kernel_virt_base + i * 4096, KTPRESENT | KTWRITEALLOWED);
            i = i + 1;
        }
        let mut hhdm_pages: usize = 0;
        q.map_range(pmm, 0, hhdm, 2048, KTPRESENT | KTWRITEALLOWED);
        hhdm_pages = hhdm_pages + 2048;
        let ghost s2 = q.state(*pmm);
        let n = entries.len();
        let mut k: usize = 0;
        while k < n
            invariant
                q.wf(),
                q.root() == root,
                q.regions() == Seq::<VMMRegion>::empty(),
                fresh_frames(pmm.pages(), q.mem()),
                n == e0.len(),
                k <= n,
                entries@.len() == n,
                forall|j: int| 0 <= j < n ==> entry_mappable(#[trigger] e0[j], hhdm),
                (2048 + memmap_pages(e0, n as nat)) * 0x1000 + 4096 <= usize::MAX,
                forall|j: int| 0 <= j < k ==> #[trigger] entries@[j] == aligned_entry(e0[j]),
                forall|j: int| k <= j < n ==> #[trigger] entries@[j] == e0[j],
                memmap_maps(s2, root, e0, hhdm, n as nat) is Some,
                memmap_maps(s2, root, e0, hhdm, k as nat) == Some(q.state(*pmm)),
                hhdm_pages == 2048 + memmap_pages(e0, k as nat),
            decreases n - k,
        {
            proof {
                lemma_memmap_maps_prefix(s2, root, e0, hhdm, n as nat, (k + 1) as nat);
                lemma_memmap_pages_mono(e0, hhdm, (k + 1) as nat, n as nat);
            }
            let e = entries[k];
            let ty = e.entry_type;
            let direct = ty == super::MEMMAP_ACPI_NVS || ty == super::MEMMAP_ACPI_RECLAIMABLE || ty == super::MEMMAP_USABLE
                || ty == super::MEMMAP_BOOTLOADER_RECLAIMABLE || ty == super::MEMMAP_KERNEL_AND_MODULES
                || ty == super::MEMMAP_RESERVED;
            if direct || ty == super::MEMMAP_FRAMEBUFFER {
                assert(entry_mappable(e0[k as int], hhdm));
                let align: usize = if direct { 4096 } else { 0x20_0000 };
                let disalign = e.base as usize % align;
                let base = align_down(e.base as usize, align) as u64;
                let len = align_up(e.length as usize - disalign, 0x20_0000);
                let page_amount = len / 0x20_0000;
                proof {
                    assert(super::is_pow2(4096)) by (bit_vector);
                    assert(super::is_pow2(0x20_0000)) by (bit_vector);
                    lemma_align_down_is_sub_mod(e.base as usize, align);
                    lemma_large_multiple((e.length as usize - disalign) as usize, len);
                }
                let flags = if direct {
                    KTPRESENT | KTWRITEALLOWED
                } else {
                    KTPRESENT | KTWRITEALLOWED | KTPATBIT2MB | KTWRITETHROUGH
                };
                q.map_range(pmm, base, hhdm, page_amount as u64, flags);
                entries.set(k, MemmapEntry { base, length: e.length, entry_type: e.entry_type });
                hhdm_pages = hhdm_pages + page_amount;
            }
            k = k + 1;
        }
        proof {
            assert(entries@ =~= e0.map_values(|e: MemmapEntry| aligned_entry(e)));
        }
        q.region_setup(hhdm_pages, hhdm, kernel_virt_base, kernel_end);
        q
    }
}

proof fn lemma_memmap_pages_mono(entries: Seq<MemmapEntry>, hhdm: u64, k: nat, n: nat)
    requires
        k <= n <= entries.len(),
        forall|j: int| 0 <= j < n ==> entry_mappable(#[trigger] entries[j], hhdm),
    ensures
        0 <= memmap_pages(entries, k) <= memmap_pages(entries, n),
    decreases n,
{
    if n > 0 {
        assert(entry_mappable(entries[n - 1], hhdm));
        assert(entry_map_count(entries[n - 1]) >= 0);
        if k < n {
            lemma_memmap_pages_mono(entries, hhdm, k, (n - 1) as nat);
        } else {
            lemma_memmap_pages_mono(entries, hhdm, (n - 1) as nat, (n - 1) as nat);
        }
    }
}

/// Rounding down to a power of two takes off the remainder.
proof fn lemma_align_down_is_sub_mod(x: usize, align: usize)
    requires
        align == 4096 || align == 0x20_0000,
    ensures
        x & !((align - 1) as usize) == x - x % align,
{
    if align == 4096 {
        assert(x & !4095usize == x - x % 4096) by (bit_vector);
    } else {
        assert(x & !0x1f_ffffusize == x - x % 0x20_0000) by (bit_vector);
    }
}

/// A length rounded up to whole large pages is their count times their size.
proof fn lemma_large_multiple(len: usize, r: usize)
    requires
        r & 0x1f_ffff == 0,
        len <= r,
        r < len + 0x20_0000,
    ensures
        r == large_count(len as int) * 0x20_0000,
{
    assert(r % 0x20_0000 == 0) by (bit_vector)
        requires r & 0x1f_ffff == 0;
    assert(r == ((len + 0x1f_ffff) / 0x20_0000) * 0x20_0000) by (nonlinear_arith)
        requires r % 0x20_0000 == 0, len <= r, r < len + 0x20_0000;
}

} // verus!
