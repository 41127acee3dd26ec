//! Symbol records: address ranges with their line tables, and return pads.

use vstd::prelude::*;
use std::collections::HashMap;
use vstd::multiset::Multiset;

verus! {

broadcast use vstd::std_specs::hash::group_hash_axioms;

/// One row of a range's line table: the source line that starts `offset`
/// bytes after the start of the range.
#[derive(Clone, Copy, Debug, PartialEq, Eq)]
pub struct LineTableEntry {
    pub offset: u32,
    pub line_number: u32,
}

/// A contiguous range of ELF virtual addresses that belongs to one function
/// (possibly an inlined one, at inline depth `depth`).
#[derive(Clone, Debug)]
pub struct Range {
    pub elf_va: u64,
    pub length: u32,
    pub func: String,
    pub file: Option<String>,
    pub call_file: Option<String>,
    pub call_line: Option<u32>,
    pub depth: u32,
    pub line_table: Vec<LineTableEntry>,
}

/// One frame of the inline stack that a return pad resolves to.
#[derive(Clone, Debug)]
pub struct ReturnPadEntry {
    pub func: String,
    pub file: Option<String>,
    pub line: Option<u32>,
}

/// The inline stack that a return address resolves to.
#[derive(Clone, Debug)]
pub struct ReturnPad {
    pub elf_va: u64,
    pub entries: Vec<ReturnPadEntry>,
}

/// A record of a symbol file.
#[derive(Clone, Debug)]
pub enum Record {
    Range(Range),
    ReturnPad(ReturnPad),
}

/// The virtual address at which a record starts.
pub open spec fn record_va(r: Record) -> u64 {
    match r {
        Record::Range(range) => range.elf_va,
        Record::ReturnPad(pad) => pad.elf_va,
    }
}

/// Number of leading line-table rows whose offset is at most `off`.
pub open spec fn covered_prefix(table: Seq<LineTableEntry>, off: u32) -> nat
    decreases table.len(),
{
    if table.len() == 0 {
        0
    } else if table[0].offset <= off {
        1 + covered_prefix(table.drop_first(), off)
    } else {
        0
    }
}

/// The source line for byte offset `off` of a range: the line of the last row
/// of the leading run of rows whose offsets do not exceed `off`.
pub open spec fn spec_line_for_offset(table: Seq<LineTableEntry>, off: u32) -> Option<u32> {
    let k = covered_prefix(table, off);
    if k == 0 {
        None
    } else {
        Some(table[k - 1].line_number)
    }
}

/// The source line of virtual address `va` in range `r`; `None` where `va`
/// lies before the range, more than `u32::MAX` bytes after its start, or
/// before its first line-table row.
pub open spec fn spec_line_number_for_va(r: Range, va: u64) -> Option<u32> {
    if va < r.elf_va || va - r.elf_va > u32::MAX {
        None
    } else {
        spec_line_for_offset(r.line_table@, (va - r.elf_va) as u32)
    }
}

/// A line table is sorted when its offsets never decrease.
pub open spec fn line_table_sorted(table: Seq<LineTableEntry>) -> bool {
    forall|i: int, j: int| 0 <= i <= j < table.len() ==> table[i].offset <= table[j].offset
}

/// `k` rows lead the table whose offsets are at most `off`, and row `k` (if any)
/// exceeds it.
proof fn lemma_covered_prefix_exact(table: Seq<LineTableEntry>, off: u32, k: int)
    requires
        0 <= k <= table.len(),
        forall|j: int| 0 <= j < k ==> table[j].offset <= off,
        k < table.len() ==> table[k].offset > off,
    ensures
        covered_prefix(table, off) == k,
    decreases table.len(),
{
    if table.len() > 0 && k > 0 {
        let rest = table.drop_first();
        assert forall|j: int| 0 <= j < k - 1 implies rest[j].offset <= off by {
            assert(rest[j] == table[j + 1]);
        }
        if k - 1 < rest.len() {
            assert(rest[k - 1] == table[k]);
        }
        lemma_covered_prefix_exact(rest, off, k - 1);
    }
}

/// The leading run counted by `covered_prefix` lies within the table, and all
/// of its rows are at most `off`, and the row after it exceeds `off`.
proof fn lemma_covered_prefix_bounds(table: Seq<LineTableEntry>, off: u32)
    ensures
        covered_prefix(table, off) <= table.len(),
        forall|j: int| 0 <= j < covered_prefix(table, off) ==> #[trigger] table[j].offset <= off,
        covered_prefix(table, off) < table.len() ==> table[covered_prefix(table, off) as int].offset
            > off,
    decreases table.len(),
{
    if table.len() > 0 && table[0].offset <= off {
        let rest = table.drop_first();
        lemma_covered_prefix_bounds(rest, off);
        assert forall|j: int| 0 <= j < covered_prefix(table, off) implies #[trigger] table[j].offset
            <= off by {
            if j > 0 {
                assert(table[j] == rest[j - 1]);
            }
        }
        if covered_prefix(table, off) < table.len() {
            assert(table[covered_prefix(table, off) as int] == rest[covered_prefix(rest, off) as int]);
        }
    }
}

impl Range {
    /// The source line of virtual address `va` within this range, looked up in
    /// the line table.
    pub fn line_number_for_va(&self, va: u64) -> (line: Option<u32>)
        ensures
            line == spec_line_number_for_va(*self, va),
    {
        if va < self.elf_va {
            return None;
        }
        let delta = va - self.elf_va;
        if delta > 0xffff_ffffu64 {
            return None;
        }
        let off = delta as u32;
        let n = self.line_table.len();
        let mut i: usize = 0;
        while i < n && self.line_table[i].offset <= off
            invariant
                n == self.line_table@.len(),
                i <= n,
                forall|j: int| 0 <= j < i ==> #[trigger] self.line_table@[j].offset <= off,
            decreases n - i,
        {
            i = i + 1;
        }
        proof {
            lemma_covered_prefix_exact(self.line_table@, off, i as int);
        }
        if i == 0 {
            None
        } else {
            Some(self.line_table[i - 1].line_number)
        }
    }
}

/// In a sorted line table the line found for an offset is that of the last
/// row whose offset does not exceed it: that row's offset is at most `off`
/// and every later row's offset exceeds `off`; and no line is found exactly
/// when every row's offset exceeds `off`.
pub proof fn line_lookup_in_sorted_table(table: Seq<LineTableEntry>, off: u32)
    requires
        line_table_sorted(table),
    ensures
        spec_line_for_offset(table, off) is None <==> (forall|j: int|
            0 <= j < table.len() ==> #[trigger] table[j].offset > off),
        spec_line_for_offset(table, off) is Some ==> {
            let k = covered_prefix(table, off) - 1;
            &&& 0 <= k < table.len()
            &&& spec_line_for_offset(table, off) == Some(table[k].line_number)
            &&& table[k].offset <= off
            &&& forall|j: int| k < j < table.len() ==> #[trigger] table[j].offset > off
        },
{
    lemma_covered_prefix_bounds(table, off);
    let k = covered_prefix(table, off);
    if k == 0 {
        if table.len() > 0 {
            assert forall|j: int| 0 <= j < table.len() implies #[trigger] table[j].offset > off by {
                assert(table[0].offset <= table[j].offset);
            }
        }
    } else {
        assert(table[k - 1].offset <= off);
        assert forall|j: int| k - 1 < j < table.len() implies #[trigger] table[j].offset > off by {
            assert(table[k as int].offset > off);
            assert(table[k as int].offset <= table[j].offset);
        }
    }
}

/// The map from start address to record that results from inserting the
/// records in order, each later record replacing an earlier one at the same
/// address.
pub open spec fn spec_records_by_va(records: Seq<Record>) -> Map<u64, Record>
    decreases records.len(),
{
    if records.len() == 0 {
        Map::empty()
    } else {
        spec_records_by_va(records.drop_last()).insert(
            record_va(records.last()),
            records.last(),
        )
    }
}

/// Indexes records by their start address; where several records start at
/// the same address, the last of them is kept.
pub fn index_records_by_va(records: Vec<Record>) -> (index: HashMap<u64, Record>)
    ensures
        index@ == spec_records_by_va(records@),
{
    let ghost all = records@;
    let mut index: HashMap<u64, Record> = HashMap::new();
    for r in it: records
        invariant
            it.seq() == all,
            index@ == spec_records_by_va(all.take(it.index() as int)),
    {
        let va = match &r {
            Record::Range(range) => range.elf_va,
            Record::ReturnPad(pad) => pad.elf_va,
        };
        let ghost k = it.index() as int;
        index.insert(va, r);
        proof {
            assert(all.take(k + 1).drop_last() =~= all.take(k));
            assert(all.take(k + 1).last() == all[k]);
        }
    }
    proof {
        assert(all.take(all.len() as int) =~= all);
    }
    index
}

/// The concatenation of the record lists, in order.
pub open spec fn spec_concat_records(lists: Seq<Seq<Record>>) -> Seq<Record>
    decreases lists.len(),
{
    if lists.len() == 0 {
        Seq::empty()
    } else {
        spec_concat_records(lists.drop_last()) + lists.last()
    }
}

/// The records of several symbol files, one list per file, gathered into one
/// list in file order and, within a file, in record order.
pub fn collect_records(per_file: Vec<Vec<Record>>) -> (all: Vec<Record>)
    ensures
        all@ == spec_concat_records(per_file@.map_values(|v: Vec<Record>| v@)),
{
    let ghost lists = per_file@.map_values(|v: Vec<Record>| v@);
    let mut all: Vec<Record> = Vec::new();
    for file in it: per_file
        invariant
            it.seq().map_values(|v: Vec<Record>| v@) == lists,
            all@ == spec_concat_records(lists.take(it.index() as int)),
    {
        let ghost k = it.index() as int;
        let mut file = file;
        proof {
            assert(lists[k] == it.seq()[k]@);
        }
        all.append(&mut file);
        proof {
            assert(lists.take(k + 1).drop_last() =~= lists.take(k));
        }
    }
    proof {
        assert(lists.take(lists.len() as int) =~= lists);
    }
    all
}

/// Indexing by start address keeps exactly the addresses at which some record
/// starts, and at each of them the last record that starts there.
pub proof fn records_by_va_keeps_last(records: Seq<Record>, va: u64)
    ensures
        spec_records_by_va(records).contains_key(va) <==> exists|i: int|
            0 <= i < records.len() && #[trigger] record_va(records[i]) == va,
        spec_records_by_va(records).contains_key(va) ==> exists|i: int|
            0 <= i < records.len() && #[trigger] record_va(records[i]) == va
                && spec_records_by_va(records)[va] == records[i] && forall|j: int|
                i < j < records.len() ==> #[trigger] record_va(records[j]) != va,
    decreases records.len(),
{
    if records.len() > 0 {
        let init = records.drop_last();
        let n = records.len() - 1;
        records_by_va_keeps_last(init, va);
        if record_va(records[n]) == va {
            assert(record_va(records[n]) == va);
        } else {
            if spec_records_by_va(records).contains_key(va) {
                let i = choose|i: int|
                    0 <= i < init.len() && #[trigger] record_va(init[i]) == va
                        && spec_records_by_va(init)[va] == init[i] && forall|j: int|
                        i < j < init.len() ==> #[trigger] record_va(init[j]) != va;
                assert(records[i] == init[i]);
                assert forall|j: int| i < j < records.len() implies #[trigger] record_va(records[j])
                    != va by {
                    if j < n {
                        assert(records[j] == init[j]);
                    }
                }
            }
            if exists|i: int| 0 <= i < records.len() && #[trigger] record_va(records[i]) == va {
                let i = choose|i: int| 0 <= i < records.len() && #[trigger] record_va(records[i]) == va;
                assert(init[i] == records[i]);
            }
        }
    }
}

/// Every record is a return pad.
pub open spec fn all_return_pads(records: Seq<Record>) -> bool {
    forall|i: int| 0 <= i < records.len() ==> #[trigger] records[i] is ReturnPad
}

/// The return pads held by a list of records that are all return pads.
pub open spec fn spec_pads_of(records: Seq<Record>) -> Seq<ReturnPad> {
    records.map_values(|r: Record| r->ReturnPad_0)
}

/// Return pads ordered by non-decreasing start address.
pub open spec fn sorted_by_va(pads: Seq<ReturnPad>) -> bool {
    forall|i: int, j: int| 0 <= i <= j < pads.len() ==> pads[i].elf_va <= pads[j].elf_va
}

/// Orders return pads by start address. The result holds the same pads, each
/// as often as before.
pub fn sort_pads_by_va(pads: Vec<ReturnPad>) -> (sorted: Vec<ReturnPad>)
    ensures
        sorted_by_va(sorted@),
        sorted@.to_multiset() == pads@.to_multiset(),
{
    broadcast use vstd::seq_lib::group_to_multiset_ensures;
    broadcast use vstd::multiset::group_multiset_axioms;

    let ghost original = pads@;
    let mut rest = pads;
    let mut sorted: Vec<ReturnPad> = Vec::new();
    while rest.len() > 0
        invariant
            sorted@.to_multiset().add(rest@.to_multiset()) == original.to_multiset(),
            sorted_by_va(sorted@),
            forall|i: int, j: int|
                0 <= i < sorted@.len() && 0 <= j < rest@.len() ==> sorted@[i].elf_va
                    <= rest@[j].elf_va,
        decreases rest.len(),
    {
        let n = rest.len();
        let mut m: usize = 0;
        let mut i: usize = 1;
        while i < n
            invariant
                n == rest@.len(),
                1 <= i <= n,
                m < i,
                forall|j: int| 0 <= j < i ==> rest@[m as int].elf_va <= rest@[j].elf_va,
            decreases n - i,
        {
            if rest[i].elf_va < rest[m].elf_va {
                m = i;
            }
            i = i + 1;
        }
        let ghost before = rest@;
        let ghost sorted_before = sorted@;
        let p = rest.remove(m);
        sorted.push(p);
        proof {
            vstd::seq_lib::to_multiset_remove(before, m as int);
            vstd::seq_lib::to_multiset_build(sorted_before, p);
            assert(before.to_multiset().count(p) > 0) by {
                vstd::seq_lib::to_multiset_contains(before, p);
            }
            assert(sorted@.to_multiset().add(rest@.to_multiset()) =~= original.to_multiset());
            assert forall|i: int, j: int|
                0 <= i < sorted@.len() && 0 <= j < rest@.len() implies sorted@[i].elf_va
                <= rest@[j].elf_va by {
                if j < m {
                    assert(rest@[j] == before[j]);
                } else {
                    assert(rest@[j] == before[j + 1]);
                }
                if i < sorted_before.len() {
                    assert(sorted@[i] == sorted_before[i]);
                }
            }
            assert forall|i: int, j: int| 0 <= i <= j < sorted@.len() implies sorted@[i].elf_va
                <= sorted@[j].elf_va by {
                if j == sorted@.len() - 1 && i < j {
                    assert(sorted@[i] == sorted_before[i]);
                    assert(sorted_before[i].elf_va <= before[m as int].elf_va);
                }
            }
        }
    }
    proof {
        assert(rest@.to_multiset() =~= Multiset::empty());
        assert(sorted@.to_multiset().add(Multiset::empty()) =~= sorted@.to_multiset());
    }
    sorted
}

/// The return pads of a symbol file that holds nothing else, ordered by start
/// address (the order in which such a file lists them is not defined).
pub fn return_pad_vec(records: Vec<Record>) -> (pads: Vec<ReturnPad>)
    requires
        all_return_pads(records@),
    ensures
        sorted_by_va(pads@),
        pads@.to_multiset() == spec_pads_of(records@).to_multiset(),
{
    let ghost all = records@;
    let mut pads: Vec<ReturnPad> = Vec::new();
    for r in it: records
        invariant
            it.seq() == all,
            all_return_pads(all),
            pads@ == spec_pads_of(all.take(it.index() as int)),
    {
        let ghost k = it.index() as int;
        proof {
            assert(all[k] is ReturnPad);
        }
        match r {
            Record::ReturnPad(pad) => {
                pads.push(pad);
            },
            Record::Range(_) => {},
        }
        proof {
            assert(spec_pads_of(all.take(k + 1)) =~= spec_pads_of(all.take(k)).push(
                all[k]->ReturnPad_0,
            ));
        }
    }
    proof {
        assert(all.take(all.len() as int) =~= all);
    }
    sort_pads_by_va(pads)
}

/// Whether every record is a return pad: the condition under which
/// `return_pad_vec` may be called.
pub fn all_records_are_return_pads(records: &Vec<Record>) -> (ok: bool)
    ensures
        ok == all_return_pads(records@),
{
    let n = records.len();
    let mut k: usize = 0;
    while k < n
        invariant
            n == records@.len(),
            k <= n,
            forall|m: int| 0 <= m < k ==> #[trigger] records@[m] is ReturnPad,
        decreases n - k,
    {
        match &records[k] {
            Record::ReturnPad(_) => {},
            Record::Range(_) => {
                return false;
            },
        }
        k = k + 1;
    }
    true
}

/// Two sorted lists of return pads that hold the same pads have the same
/// start address at every position.
proof fn lemma_sorted_pads_same_addresses(s1: Seq<ReturnPad>, s2: Seq<ReturnPad>)
    requires
        sorted_by_va(s1),
        sorted_by_va(s2),
        s1.to_multiset() == s2.to_multiset(),
    ensures
        s1.len() == s2.len(),
        forall|i: int| 0 <= i < s1.len() ==> #[trigger] s1[i].elf_va == s2[i].elf_va,
    decreases s1.len(),
{
    broadcast use vstd::seq_lib::group_to_multiset_ensures;
    broadcast use vstd::multiset::group_multiset_axioms;

    vstd::seq_lib::to_multiset_len(s1);
    vstd::seq_lib::to_multiset_len(s2);
    if s1.len() > 0 {
        let n = s1.len() - 1;
        let x = s1[n];
        let y = s2[n];
        vstd::seq_lib::to_multiset_contains(s1, x);
        vstd::seq_lib::to_multiset_contains(s2, y);
        assert(s2.contains(x));
        assert(s1.contains(y));
        let j = choose|j: int| 0 <= j < s2.len() && s2[j] == x;
        let k = choose|k: int| 0 <= k < s1.len() && s1[k] == y;
        assert(y.elf_va <= x.elf_va);
        assert(x.elf_va <= y.elf_va);
        let t1 = s1.drop_last();
        let t2 = s2.remove(j);
        assert(t1 =~= s1.remove(n));
        vstd::seq_lib::to_multiset_remove(s1, n);
        vstd::seq_lib::to_multiset_remove(s2, j);
        assert forall|a: int, b: int| 0 <= a <= b < t2.len() implies t2[a].elf_va <= t2[b].elf_va by {
            let a2 = if a < j { a } else { a + 1 };
            let b2 = if b < j { b } else { b + 1 };
            assert(t2[a] == s2[a2]);
            assert(t2[b] == s2[b2]);
        }
        assert forall|a: int, b: int| 0 <= a <= b < t1.len() implies t1[a].elf_va <= t1[b].elf_va by {
            assert(t1[a] == s1[a]);
            assert(t1[b] == s1[b]);
        }
        lemma_sorted_pads_same_addresses(t1, t2);
        assert forall|i: int| 0 <= i < s1.len() implies #[trigger] s1[i].elf_va == s2[i].elf_va by {
            if i < n {
                assert(s1[i] == t1[i]);
                if i < j {
                    assert(t2[i] == s2[i]);
                } else {
                    assert(t2[i] == s2[i + 1]);
                    assert(x.elf_va <= s2[i].elf_va);
                    assert(s2[i + 1].elf_va <= y.elf_va);
                    assert(s2[i].elf_va <= s2[i + 1].elf_va);
                }
            }
        }
    }
}

/// The order in which a return-pad file lists its pads does not matter: for
/// two such files that hold the same pads, the lists that `return_pad_vec`
/// gives (sorted, holding each file's pads) have the same start address at
/// every position, and are equal outright when no two pads share an address.
pub proof fn return_pad_order_irrelevant(
    records1: Seq<Record>,
    records2: Seq<Record>,
    pads1: Seq<ReturnPad>,
    pads2: Seq<ReturnPad>,
)
    requires
        all_return_pads(records1),
        all_return_pads(records2),
        spec_pads_of(records1).to_multiset() == spec_pads_of(records2).to_multiset(),
        sorted_by_va(pads1),
        pads1.to_multiset() == spec_pads_of(records1).to_multiset(),
        sorted_by_va(pads2),
        pads2.to_multiset() == spec_pads_of(records2).to_multiset(),
    ensures
        pads1.len() == pads2.len(),
        forall|i: int| 0 <= i < pads1.len() ==> #[trigger] pads1[i].elf_va == pads2[i].elf_va,
        (forall|i: int, j: int|
            0 <= i < j < pads1.len() ==> pads1[i].elf_va != pads1[j].elf_va) ==> pads1 == pads2,
{
    broadcast use vstd::seq_lib::group_to_multiset_ensures;
    broadcast use vstd::multiset::group_multiset_axioms;

    lemma_sorted_pads_same_addresses(pads1, pads2);
    if forall|i: int, j: int| 0 <= i < j < pads1.len() ==> pads1[i].elf_va != pads1[j].elf_va {
        assert forall|i: int| 0 <= i < pads1.len() implies pads1[i] == pads2[i] by {
            vstd::seq_lib::to_multiset_contains(pads1, pads1[i]);
            assert(pads2.contains(pads1[i]));
            let j = choose|j: int| 0 <= j < pads2.len() && pads2[j] == pads1[i];
            assert(pads1[j].elf_va == pads2[j].elf_va);
            if j != i {
                if i < j {
                    assert(pads1[i].elf_va != pads1[j].elf_va);
                } else {
                    assert(pads1[j].elf_va != pads1[i].elf_va);
                }
            }
        }
        assert(pads1 =~= pads2);
    }
}

/// The start address of a record is the `elf_va` that it carries.
pub proof fn record_va_law(r: Record)
    ensures
        r matches Record::Range(g) ==> record_va(r) == g.elf_va,
        r matches Record::ReturnPad(p) ==> record_va(r) == p.elf_va,
{
}

/// The line of virtual address `va` in range `r`, in terms of the byte offset
/// `va - r.elf_va` itself: there is none before the range or more than
/// `u32::MAX` bytes into it; otherwise there is none exactly when the table is
/// empty or its first row lies past that offset, and else it is the line of
/// the last row `k` of the leading run of rows whose offsets do not exceed
/// the offset (row `k + 1`, if any, exceeds it).
pub proof fn line_number_law(r: Range, va: u64)
    ensures
        (va < r.elf_va || va - r.elf_va > u32::MAX) ==> spec_line_number_for_va(r, va) is None,
        r.elf_va <= va && va - r.elf_va <= u32::MAX ==> {
            let t = r.line_table@;
            let off = va - r.elf_va;
            &&& spec_line_number_for_va(r, va) is None <==> (t.len() == 0 || t[0].offset > off)
            &&& spec_line_number_for_va(r, va) is Some ==> exists|k: int|
                0 <= k < t.len() && spec_line_number_for_va(r, va) == Some(t[k].line_number) && (
                forall|j: int| 0 <= j <= k ==> #[trigger] t[j].offset <= off) && (k + 1 < t.len()
                    ==> t[k + 1].offset > off)
        },
{
    if r.elf_va <= va && va - r.elf_va <= u32::MAX {
        let t = r.line_table@;
        let off32 = (va - r.elf_va) as u32;
        assert(off32 == va - r.elf_va);
        lemma_covered_prefix_bounds(t, off32);
        let c = covered_prefix(t, off32);
        if t.len() > 0 && t[0].offset <= off32 {
            assert(c > 0) by {
                assert(covered_prefix(t, off32) == 1 + covered_prefix(t.drop_first(), off32));
            }
            let k = c - 1;
            assert(forall|j: int| 0 <= j <= k ==> #[trigger] t[j].offset <= off32);
        } else if t.len() > 0 {
            assert(c == 0);
        }
    }
}

/// In a sorted line table, the line of `va` in range `r` is that of the last
/// row whose offset does not exceed `va - r.elf_va`, and there is none exactly
/// when every row's offset exceeds it.
pub proof fn sorted_line_number_law(r: Range, va: u64)
    requires
        line_table_sorted(r.line_table@),
        r.elf_va <= va,
        va - r.elf_va <= u32::MAX,
    ensures
        ({
            let t = r.line_table@;
            let off = va - r.elf_va;
            &&& spec_line_number_for_va(r, va) is None <==> (forall|j: int|
                0 <= j < t.len() ==> #[trigger] t[j].offset > off)
            &&& spec_line_number_for_va(r, va) is Some ==> exists|k: int|
                0 <= k < t.len() && spec_line_number_for_va(r, va) == Some(t[k].line_number)
                    && t[k].offset <= off && forall|j: int| k < j < t.len() ==> #[trigger] t[j].offset
                    > off
        }),
{
    let off32 = (va - r.elf_va) as u32;
    assert(off32 == va - r.elf_va);
    line_lookup_in_sorted_table(r.line_table@, off32);
    if spec_line_number_for_va(r, va) is Some {
        let k = covered_prefix(r.line_table@, off32) - 1;
        assert(spec_line_number_for_va(r, va) == Some(r.line_table@[k].line_number));
    }
}

/// The total number of records in a list of record lists.
pub open spec fn total_len(lists: Seq<Seq<Record>>) -> nat
    decreases lists.len(),
{
    if lists.len() == 0 {
        0
    } else {
        total_len(lists.drop_last()) + lists.last().len()
    }
}

/// Gathering record lists keeps every record of every list, whatever its kind
/// or depth: the result is as long as all lists together, and record `i` of
/// list `f` stands at position (records in the lists before `f`) + `i`.
pub proof fn concat_records_law(lists: Seq<Seq<Record>>)
    ensures
        spec_concat_records(lists).len() == total_len(lists),
        forall|f: int|
            0 <= f < lists.len() ==> total_len(lists.take(f)) + #[trigger] lists[f].len() <= total_len(
                lists,
            ),
        forall|f: int, i: int|
            0 <= f < lists.len() && 0 <= i < lists[f].len() ==> spec_concat_records(lists)[total_len(
                lists.take(f),
            ) + i] == #[trigger] lists[f][i],
    decreases lists.len(),
{
    if lists.len() > 0 {
        let init = lists.drop_last();
        let n = lists.len() - 1;
        concat_records_law(init);
        assert(lists.take(n) =~= init);
        assert forall|f: int| 0 <= f < lists.len() implies total_len(lists.take(f))
            + #[trigger] lists[f].len() <= total_len(lists) by {
            if f < n {
                assert(lists.take(f) =~= init.take(f));
                assert(lists[f] == init[f]);
            }
        }
        assert forall|f: int, i: int| 0 <= f < lists.len() && 0 <= i < lists[f].len() implies spec_concat_records(
            lists,
        )[total_len(lists.take(f)) + i] == #[trigger] lists[f][i] by {
            if f < n {
                assert(lists.take(f) =~= init.take(f));
                assert(lists[f] == init[f]);
            }
        }
    }
}

/// Return pads are sorted by address when no pad stands before one with a
/// smaller address; the pads of a list of return-pad records are the records'
/// pads, one for one and in order.
pub proof fn pad_order_law(pads: Seq<ReturnPad>, records: Seq<Record>)
    ensures
        sorted_by_va(pads) <==> forall|i: int, j: int|
            0 <= i < j < pads.len() ==> #[trigger] pads[i].elf_va <= #[trigger] pads[j].elf_va,
        spec_pads_of(records).len() == records.len(),
        forall|i: int|
            0 <= i < records.len() && #[trigger] records[i] is ReturnPad ==> spec_pads_of(
                records,
            )[i] == records[i]->ReturnPad_0,
{
    if forall|i: int, j: int|
        0 <= i < j < pads.len() ==> #[trigger] pads[i].elf_va <= #[trigger] pads[j].elf_va {
        assert forall|i: int, j: int| 0 <= i <= j < pads.len() implies pads[i].elf_va
            <= pads[j].elf_va by {
            if i < j {
                assert(pads[i].elf_va <= pads[j].elf_va);
            }
        }
    }
}

} // verus!
