//! Symbolization of a profile: which attributes of each sample name its
//! process and executable, which samples the process filter keeps, where
//! each of their locations lies in the ELF address space, and which symbol
//! ranges and return pads cover that address.

use vstd::prelude::*;
use crate::profile::{
    i32_as_usize, i32_as_usize_law, i32_to_usize, request_profiles, resource_list_profiles, scope_list_profiles,
    AnyValue, ExportProfilesServiceRequest, KeyValue, Profile, Sample,
};
use crate::records::{spec_line_number_for_va, Range, Record, ReturnPad};
use crate::text::{seq_contains, str_contains, str_equal};

verus! {

/// What an attribute of a sample tells the symbolizer.
#[derive(Clone, Copy, Debug, PartialEq, Eq)]
pub enum AttributeKind {
    /// A `process.pid` attribute with an integer value, read while a
    /// process filter is set.
    Pid(i64),
    /// A `process.executable.path` attribute with a string value;
    /// `mentions_hello` tells whether that path contains `hello`.
    ExecutablePath { mentions_hello: bool },
    /// Any other attribute.
    Ignored,
}

/// An attribute of a sample: its row in the attribute table and what it says.
#[derive(Clone, Copy, Debug, PartialEq, Eq)]
pub struct AttributeReport {
    pub table_index: usize,
    pub kind: AttributeKind,
}

/// A symbol range that covers a location's address: its position in the
/// record list and the source line of the address within it.
#[derive(Clone, Copy, Debug, PartialEq, Eq)]
pub struct RangeHit {
    pub record_index: usize,
    pub line: Option<u32>,
}

/// A location of a kept sample whose mapping exists.
#[derive(Clone, Debug)]
pub struct LocationReport {
    /// Row of the location table.
    pub location_index: usize,
    /// The location's address plus its mapping's start and file offset.
    pub address: u64,
    /// Row of the string table that names the mapped file.
    pub filename_index: usize,
    /// The symbol ranges that cover `address`, in record order.
    pub range_hits: Vec<RangeHit>,
    /// Positions of the return pads that start at `address`, in order.
    pub pad_hits: Vec<usize>,
}

/// The outcome for one sample.
#[derive(Clone, Debug)]
pub struct SampleReport {
    /// Row of the sample list.
    pub sample_index: usize,
    /// The sample's attributes that exist in the attribute table, in order.
    pub attributes: Vec<AttributeReport>,
    /// The process id: the last `Pid` attribute's value, else 0.
    pub pid: i64,
    /// Row of the attribute table of the last `ExecutablePath` attribute.
    pub executable_path: Option<usize>,
    /// Whether the process filter keeps the sample.
    pub selected: bool,
    /// The sample's locations whose mapping exists (none when not kept).
    pub locations: Vec<LocationReport>,
}

/// The mathematical value of a `LocationReport`.
pub struct LocationOutcome {
    pub location_index: usize,
    pub address: u64,
    pub filename_index: usize,
    pub range_hits: Seq<RangeHit>,
    pub pad_hits: Seq<usize>,
}

/// The mathematical value of a `SampleReport`.
pub struct SampleOutcome {
    pub sample_index: usize,
    pub attributes: Seq<AttributeReport>,
    pub pid: i64,
    pub executable_path: Option<usize>,
    pub selected: bool,
    pub locations: Seq<LocationOutcome>,
}

impl View for LocationReport {
    type V = LocationOutcome;

    open spec fn view(&self) -> LocationOutcome {
        LocationOutcome {
            location_index: self.location_index,
            address: self.address,
            filename_index: self.filename_index,
            range_hits: self.range_hits@,
            pad_hits: self.pad_hits@,
        }
    }
}

impl View for SampleReport {
    type V = SampleOutcome;

    open spec fn view(&self) -> SampleOutcome {
        SampleOutcome {
            sample_index: self.sample_index,
            attributes: self.attributes@,
            pid: self.pid,
            executable_path: self.executable_path,
            selected: self.selected,
            locations: location_views(self.locations@),
        }
    }
}

/// The values of a list of location reports.
pub open spec fn location_views(s: Seq<LocationReport>) -> Seq<LocationOutcome> {
    s.map_values(|r: LocationReport| r@)
}

/// The values of a list of sample reports.
pub open spec fn sample_views(s: Seq<SampleReport>) -> Seq<SampleOutcome> {
    s.map_values(|r: SampleReport| r@)
}

/// The return pads to look in, if any.
pub open spec fn pads_view(pads: Option<&Vec<ReturnPad>>) -> Option<Seq<ReturnPad>> {
    match pads {
        Some(v) => Some(v@),
        None => None,
    }
}

// ---------------------------------------------------------------------------
// Attributes

/// What attribute `kv` tells the symbolizer; a pid is read only while a
/// process filter is set.
pub open spec fn spec_attribute_kind(kv: KeyValue, filter_set: bool) -> AttributeKind {
    match kv.value {
        Some(AnyValue::IntValue(v)) => if kv.key@ == "process.pid"@ && filter_set {
            AttributeKind::Pid(v)
        } else {
            AttributeKind::Ignored
        },
        Some(AnyValue::StringValue(s)) => if kv.key@ == "process.executable.path"@ {
            AttributeKind::ExecutablePath { mentions_hello: seq_contains(s@, "hello"@) }
        } else {
            AttributeKind::Ignored
        },
        _ => AttributeKind::Ignored,
    }
}

/// The attributes named by `indices` that exist in the table, in order.
pub open spec fn spec_attribute_reports(
    table: Seq<KeyValue>,
    indices: Seq<i32>,
    filter_set: bool,
) -> Seq<AttributeReport>
    decreases indices.len(),
{
    if indices.len() == 0 {
        Seq::empty()
    } else {
        let rest = spec_attribute_reports(table, indices.drop_last(), filter_set);
        let i = i32_as_usize(indices.last());
        if i < table.len() {
            rest.push(
                AttributeReport {
                    table_index: i as usize,
                    kind: spec_attribute_kind(table[i], filter_set),
                },
            )
        } else {
            rest
        }
    }
}

/// The value of the last `Pid` attribute, else 0.
pub open spec fn spec_pid(attrs: Seq<AttributeReport>) -> i64
    decreases attrs.len(),
{
    if attrs.len() == 0 {
        0
    } else {
        match attrs.last().kind {
            AttributeKind::Pid(v) => v,
            _ => spec_pid(attrs.drop_last()),
        }
    }
}

/// The table row of the last `ExecutablePath` attribute.
pub open spec fn spec_executable_path(attrs: Seq<AttributeReport>) -> Option<usize>
    decreases attrs.len(),
{
    if attrs.len() == 0 {
        None
    } else {
        match attrs.last().kind {
            AttributeKind::ExecutablePath { .. } => Some(attrs.last().table_index),
            _ => spec_executable_path(attrs.drop_last()),
        }
    }
}

/// Whether the process filter keeps a sample of process `pid`.
pub open spec fn spec_selected(pid: i64, pid_filter: Option<i64>) -> bool {
    match pid_filter {
        Some(f) => pid == f,
        None => true,
    }
}

// ---------------------------------------------------------------------------
// Locations

/// The sum of a sample's start index and length, both taken as `usize`.
pub open spec fn span_end(s: Sample) -> int {
    i32_as_usize(s.locations_start_index) + i32_as_usize(s.locations_length)
}

/// The rows of the location table that a sample covers, `[lo, hi)`: empty
/// where the run reaches past the end of the table.
pub open spec fn spec_location_span(p: Profile, s: Sample) -> (int, int) {
    if span_end(s) <= p.location_table.len() {
        (i32_as_usize(s.locations_start_index), span_end(s))
    } else {
        (0, 0)
    }
}

/// The mapping of location row `j`, if its index names a row of the table.
pub open spec fn mapping_row(p: Profile, j: int) -> int {
    i32_as_usize(p.location_table@[j].mapping_index.unwrap())
}

/// The address of location row `j` moved by its mapping's start and offset.
pub open spec fn mapped_address(p: Profile, j: int) -> int {
    let m = p.mapping_table@[mapping_row(p, j)];
    p.location_table@[j].address + m.memory_start + m.file_offset
}

/// The string-table row that names the file of location row `j`'s mapping.
pub open spec fn filename_row(p: Profile, j: int) -> int {
    i32_as_usize(p.mapping_table@[mapping_row(p, j)].filename_strindex)
}

/// Range record `r` covers `address`.
pub open spec fn range_covers(r: Range, address: u64) -> bool {
    r.elf_va <= address < r.elf_va + r.length
}

/// The symbol ranges that cover `address`, in record order.
pub open spec fn spec_range_hits(ranges: Seq<Record>, address: u64) -> Seq<RangeHit>
    decreases ranges.len(),
{
    if ranges.len() == 0 {
        Seq::empty()
    } else {
        let rest = spec_range_hits(ranges.drop_last(), address);
        match ranges.last() {
            Record::Range(r) => if range_covers(r, address) {
                rest.push(
                    RangeHit {
                        record_index: (ranges.len() - 1) as usize,
                        line: spec_line_number_for_va(r, address),
                    },
                )
            } else {
                rest
            },
            Record::ReturnPad(_) => rest,
        }
    }
}

/// Positions of the return pads that start at `address`, in order.
pub open spec fn spec_pad_hits(pads: Seq<ReturnPad>, address: u64) -> Seq<usize>
    decreases pads.len(),
{
    if pads.len() == 0 {
        Seq::empty()
    } else {
        let rest = spec_pad_hits(pads.drop_last(), address);
        if pads.last().elf_va == address {
            rest.push((pads.len() - 1) as usize)
        } else {
            rest
        }
    }
}

/// The outcome for location row `j`: none where its mapping index names no
/// row of the mapping table.
pub open spec fn spec_location_outcome(
    p: Profile,
    j: int,
    ranges: Seq<Record>,
    pads: Option<Seq<ReturnPad>>,
) -> Option<LocationOutcome> {
    if mapping_row(p, j) < p.mapping_table.len() {
        let address = mapped_address(p, j) as u64;
        Some(
            LocationOutcome {
                location_index: j as usize,
                address,
                filename_index: filename_row(p, j) as usize,
                range_hits: spec_range_hits(ranges, address),
                pad_hits: match pads {
                    Some(ps) => spec_pad_hits(ps, address),
                    None => Seq::empty(),
                },
            },
        )
    } else {
        None
    }
}

/// The outcomes for location rows `lo` up to `hi`, skipping unmapped ones.
pub open spec fn spec_location_outcomes(
    p: Profile,
    lo: int,
    hi: int,
    ranges: Seq<Record>,
    pads: Option<Seq<ReturnPad>>,
) -> Seq<LocationOutcome>
    decreases hi - lo,
{
    if hi <= lo {
        Seq::empty()
    } else {
        let rest = spec_location_outcomes(p, lo, hi - 1, ranges, pads);
        match spec_location_outcome(p, hi - 1, ranges, pads) {
            Some(o) => rest.push(o),
            None => rest,
        }
    }
}

/// Record `rec` is no range that starts at or below `address` and ends past
/// `u64::MAX`.
pub open spec fn range_fits(rec: Record, address: u64) -> bool {
    match rec {
        Record::Range(r) => r.elf_va <= address ==> r.elf_va + r.length <= u64::MAX,
        Record::ReturnPad(_) => true,
    }
}

/// No range that starts at or below `address` ends past `u64::MAX`.
pub open spec fn ranges_fit(ranges: Seq<Record>, address: u64) -> bool {
    forall|k: int| 0 <= k < ranges.len() ==> range_fits(#[trigger] ranges[k], address)
}

/// Location row `j` can be symbolized: it has a mapping index; and where that
/// index names a row, the moved address fits in `u64`, the file name index
/// names a row of the string table, and no range that starts at or below the
/// address ends past `u64::MAX`.
pub open spec fn location_runs(p: Profile, j: int, ranges: Seq<Record>) -> bool {
    &&& p.location_table@[j].mapping_index is Some
    &&& mapping_row(p, j) < p.mapping_table.len() ==> {
        &&& mapped_address(p, j) <= u64::MAX
        &&& filename_row(p, j) < p.string_table.len()
        &&& ranges_fit(ranges, mapped_address(p, j) as u64)
    }
}


// ---------------------------------------------------------------------------
// Samples and profiles

/// The outcome for sample row `i`.
pub open spec fn spec_sample_outcome(
    p: Profile,
    i: int,
    ranges: Seq<Record>,
    pads: Option<Seq<ReturnPad>>,
    pid_filter: Option<i64>,
) -> SampleOutcome {
    let s = p.sample@[i];
    let attrs = spec_attribute_reports(p.attribute_table@, s.attribute_indices@, pid_filter is Some);
    let pid = spec_pid(attrs);
    let selected = spec_selected(pid, pid_filter);
    let span = spec_location_span(p, s);
    SampleOutcome {
        sample_index: i as usize,
        attributes: attrs,
        pid,
        executable_path: spec_executable_path(attrs),
        selected,
        locations: if selected {
            spec_location_outcomes(p, span.0, span.1, ranges, pads)
        } else {
            Seq::empty()
        },
    }
}

/// Sample row `i` can be symbolized: if the filter keeps it, its start index
/// and length (as `usize`) add up within `usize`, and every location row it
/// covers can be symbolized.
pub open spec fn sample_runs(p: Profile, i: int, ranges: Seq<Record>, pid_filter: Option<i64>) -> bool {
    let s = p.sample@[i];
    let attrs = spec_attribute_reports(p.attribute_table@, s.attribute_indices@, pid_filter is Some);
    let span = spec_location_span(p, s);
    spec_selected(spec_pid(attrs), pid_filter) ==> {
        &&& span_end(s) <= usize::MAX
        &&& forall|j: int| span.0 <= j < span.1 ==> #[trigger] location_runs(p, j, ranges)
    }
}

/// Every sample of the profile can be symbolized.
pub open spec fn profile_runs(p: Profile, ranges: Seq<Record>, pid_filter: Option<i64>) -> bool {
    forall|i: int| 0 <= i < p.sample@.len() ==> #[trigger] sample_runs(p, i, ranges, pid_filter)
}

/// The outcome for every sample of the profile, in order.
pub open spec fn spec_symbolize_profile(
    p: Profile,
    ranges: Seq<Record>,
    pads: Option<Seq<ReturnPad>>,
    pid_filter: Option<i64>,
) -> Seq<SampleOutcome> {
    Seq::new(p.sample@.len(), |i: int| spec_sample_outcome(p, i, ranges, pads, pid_filter))
}

// ---------------------------------------------------------------------------
// Executable symbolization

/// What attribute `kv` tells the symbolizer.
fn attribute_kind(kv: &KeyValue, filter_set: bool) -> (kind: AttributeKind)
    ensures
        kind == spec_attribute_kind(*kv, filter_set),
{
    match &kv.value {
        Some(AnyValue::IntValue(v)) => {
            if str_equal(kv.key.as_str(), "process.pid") && filter_set {
                AttributeKind::Pid(*v)
            } else {
                AttributeKind::Ignored
            }
        },
        Some(AnyValue::StringValue(s)) => {
            if str_equal(kv.key.as_str(), "process.executable.path") {
                AttributeKind::ExecutablePath { mentions_hello: str_contains(s.as_str(), "hello") }
            } else {
                AttributeKind::Ignored
            }
        },
        _ => AttributeKind::Ignored,
    }
}

/// The attributes of a sample that exist in the attribute table, in order,
/// with the process id and executable path that they name.
fn sample_attributes(p: &Profile, s: &Sample, filter_set: bool) -> (r: (
    Vec<AttributeReport>,
    i64,
    Option<usize>,
))
    ensures
        r.0@ == spec_attribute_reports(p.attribute_table@, s.attribute_indices@, filter_set),
        r.1 == spec_pid(r.0@),
        r.2 == spec_executable_path(r.0@),
{
    let ghost idx = s.attribute_indices@;
    let ghost table = p.attribute_table@;
    let mut attrs: Vec<AttributeReport> = Vec::new();
    let mut pid: i64 = 0;
    let mut exe: Option<usize> = None;
    let n = s.attribute_indices.len();
    let mut i: usize = 0;
    while i < n
        invariant
            n == idx.len(),
            idx == s.attribute_indices@,
            table == p.attribute_table@,
            i <= n,
            attrs@ == spec_attribute_reports(table, idx.take(i as int), filter_set),
            pid == spec_pid(attrs@),
            exe == spec_executable_path(attrs@),
        decreases n - i,
    {
        let row = i32_to_usize(s.attribute_indices[i]);
        let ghost before = attrs@;
        if row < p.attribute_table.len() {
            let kind = attribute_kind(&p.attribute_table[row], filter_set);
            let rep = AttributeReport { table_index: row, kind };
            attrs.push(rep);
            match kind {
                AttributeKind::Pid(v) => {
                    pid = v;
                },
                AttributeKind::ExecutablePath { .. } => {
                    exe = Some(row);
                },
                AttributeKind::Ignored => {},
            }
            proof {
                assert(attrs@.drop_last() =~= before);
            }
        }
        proof {
            assert(idx.take(i + 1).drop_last() =~= idx.take(i as int));
        }
        i = i + 1;
    }
    proof {
        assert(idx.take(n as int) =~= idx);
    }
    (attrs, pid, exe)
}

/// The symbol ranges that cover `address`, in record order, with the source
/// line of the address in each.
fn range_hits(ranges: &Vec<Record>, address: u64) -> (hits: Vec<RangeHit>)
    requires
        ranges_fit(ranges@, address),
    ensures
        hits@ == spec_range_hits(ranges@, address),
{
    let ghost all = ranges@;
    let n = ranges.len();
    let mut hits: Vec<RangeHit> = Vec::new();
    let mut k: usize = 0;
    while k < n
        invariant
            n == all.len(),
            all == ranges@,
            ranges_fit(all, address),
            k <= n,
            hits@ == spec_range_hits(all.take(k as int), address),
        decreases n - k,
    {
        proof {
            assert(all.take(k + 1).drop_last() =~= all.take(k as int));
            assert(all.take(k + 1).last() == all[k as int]);
            assert(range_fits(all[k as int], address));
        }
        match &ranges[k] {
            Record::Range(range) => {
                if address >= range.elf_va && address < range.elf_va + range.length as u64 {
                    let line = range.line_number_for_va(address);
                    hits.push(RangeHit { record_index: k, line });
                }
            },
            Record::ReturnPad(_) => {},
        }
        k = k + 1;
    }
    proof {
        assert(all.take(n as int) =~= all);
    }
    hits
}

/// Positions of the return pads that start at `address`, in order.
fn pad_hits(pads: &Vec<ReturnPad>, address: u64) -> (hits: Vec<usize>)
    ensures
        hits@ == spec_pad_hits(pads@, address),
{
    let ghost all = pads@;
    let n = pads.len();
    let mut hits: Vec<usize> = Vec::new();
    let mut k: usize = 0;
    while k < n
        invariant
            n == all.len(),
            all == pads@,
            k <= n,
            hits@ == spec_pad_hits(all.take(k as int), address),
        decreases n - k,
    {
        proof {
            assert(all.take(k + 1).drop_last() =~= all.take(k as int));
            assert(all.take(k + 1).last() == all[k as int]);
        }
        if pads[k].elf_va == address {
            hits.push(k);
        }
        k = k + 1;
    }
    proof {
        assert(all.take(n as int) =~= all);
    }
    hits
}

/// The outcome for location row `j`: `None` where its mapping index names no
/// row of the mapping table.
fn symbolize_location(
    p: &Profile,
    j: usize,
    ranges: &Vec<Record>,
    pads: Option<&Vec<ReturnPad>>,
) -> (r: Option<LocationReport>)
    requires
        j < p.location_table@.len(),
        location_runs(*p, j as int, ranges@),
    ensures
        match r {
            Some(rep) => spec_location_outcome(*p, j as int, ranges@, pads_view(pads)) == Some(
                rep@,
            ),
            None => spec_location_outcome(*p, j as int, ranges@, pads_view(pads)) is None,
        },
{
    let location = &p.location_table[j];
    let mapping_index = match location.mapping_index {
        Some(m) => m,
        None => {
            return None;
        },
    };
    let row = i32_to_usize(mapping_index);
    if row >= p.mapping_table.len() {
        return None;
    }
    let mapping = &p.mapping_table[row];
    let address = location.address + mapping.memory_start + mapping.file_offset;
    let name_row = i32_to_usize(mapping.filename_strindex);
    let hits = range_hits(ranges, address);
    let pad_rows = match pads {
        Some(ps) => pad_hits(ps, address),
        None => Vec::new(),
    };
    let rep = LocationReport {
        location_index: j,
        address,
        filename_index: name_row,
        range_hits: hits,
        pad_hits: pad_rows,
    };
    proof {
        let o = spec_location_outcome(*p, j as int, ranges@, pads_view(pads)).unwrap();
        assert(o.range_hits =~= rep@.range_hits);
        assert(o.pad_hits =~= rep@.pad_hits);
    }
    Some(rep)
}

/// The rows `[lo, hi)` of the location table that a sample covers, where its
/// start index and length add up within `usize`.
fn location_span(p: &Profile, s: &Sample) -> (span: (usize, usize))
    requires
        span_end(*s) <= usize::MAX,
    ensures
        span.0 as int == spec_location_span(*p, *s).0,
        span.1 as int == spec_location_span(*p, *s).1,
{
    let start = i32_to_usize(s.locations_start_index);
    let length = i32_to_usize(s.locations_length);
    let end = start + length;
    if end <= p.location_table.len() {
        (start, end)
    } else {
        (0, 0)
    }
}

/// The outcome for sample row `i`.
fn symbolize_sample(
    p: &Profile,
    i: usize,
    ranges: &Vec<Record>,
    pads: Option<&Vec<ReturnPad>>,
    pid_filter: Option<i64>,
) -> (rep: SampleReport)
    requires
        i < p.sample@.len(),
        sample_runs(*p, i as int, ranges@, pid_filter),
    ensures
        rep@ == spec_sample_outcome(*p, i as int, ranges@, pads_view(pads), pid_filter),
{
    let s = &p.sample[i];
    let filter_set = pid_filter.is_some();
    let (attributes, pid, executable_path) = sample_attributes(p, s, filter_set);
    let selected = match pid_filter {
        Some(f) => pid == f,
        None => true,
    };
    let mut locations: Vec<LocationReport> = Vec::new();
    if selected {
        let (lo, hi) = location_span(p, s);
        let mut j: usize = lo;
        while j < hi
            invariant
                lo <= j <= hi,
                hi <= p.location_table@.len(),
                lo == spec_location_span(*p, *s).0,
                hi == spec_location_span(*p, *s).1,
                *s == p.sample@[i as int],
                forall|k: int| lo <= k < hi ==> #[trigger] location_runs(*p, k, ranges@),
                location_views(locations@) == spec_location_outcomes(
                    *p,
                    lo as int,
                    j as int,
                    ranges@,
                    pads_view(pads),
                ),
            decreases hi - j,
        {
            let ghost before = locations@;
            assert(location_runs(*p, j as int, ranges@));
            match symbolize_location(p, j, ranges, pads) {
                Some(rep) => {
                    locations.push(rep);
                    proof {
                        assert(location_views(locations@) =~= location_views(before).push(rep@));
                    }
                },
                None => {},
            }
            j = j + 1;
        }
    }
    let rep = SampleReport { sample_index: i, attributes, pid, executable_path, selected, locations };
    proof {
        if !selected {
            assert(location_views(rep.locations@) =~= Seq::<LocationOutcome>::empty());
        }
    }
    rep
}

/// Symbolizes every sample of `profile` against the symbol ranges among
/// `range_rec` and, if given, the return pads `pads_option`. With a process
/// filter, only samples whose process id (read from their `process.pid`
/// attributes) equals it have their locations resolved.
pub fn symbolize_profile(
    profile: &Profile,
    range_rec: &Vec<Record>,
    pads_option: Option<&Vec<ReturnPad>>,
    pid_filter: Option<i64>,
) -> (report: Vec<SampleReport>)
    requires
        profile_runs(*profile, range_rec@, pid_filter),
    ensures
        sample_views(report@) == spec_symbolize_profile(
            *profile,
            range_rec@,
            pads_view(pads_option),
            pid_filter,
        ),
{
    let n = profile.sample.len();
    let mut report: Vec<SampleReport> = Vec::new();
    let mut i: usize = 0;
    while i < n
        invariant
            n == profile.sample@.len(),
            i <= n,
            profile_runs(*profile, range_rec@, pid_filter),
            report@.len() == i,
            forall|k: int|
                0 <= k < i ==> #[trigger] report@[k]@ == spec_sample_outcome(
                    *profile,
                    k,
                    range_rec@,
                    pads_view(pads_option),
                    pid_filter,
                ),
        decreases n - i,
    {
        assert(sample_runs(*profile, i as int, range_rec@, pid_filter));
        let rep = symbolize_sample(profile, i, range_rec, pads_option, pid_filter);
        report.push(rep);
        i = i + 1;
    }
    proof {
        assert(sample_views(report@) =~= spec_symbolize_profile(
            *profile,
            range_rec@,
            pads_view(pads_option),
            pid_filter,
        ));
    }
    report
}

/// Whether no range among `ranges` starts at or below `address` and ends past
/// `u64::MAX`.
fn check_ranges_fit(ranges: &Vec<Record>, address: u64) -> (ok: bool)
    ensures
        ok == ranges_fit(ranges@, address),
{
    let n = ranges.len();
    let mut k: usize = 0;
    while k < n
        invariant
            n == ranges@.len(),
            k <= n,
            forall|m: int| 0 <= m < k ==> #[trigger] range_fits(ranges@[m], address),
        decreases n - k,
    {
        match &ranges[k] {
            Record::Range(range) => {
                if range.elf_va <= address && range.elf_va.checked_add(range.length as u64).is_none() {
                    assert(!range_fits(ranges@[k as int], address));
                    return false;
                }
            },
            Record::ReturnPad(_) => {},
        }
        k = k + 1;
    }
    true
}

/// Whether location row `j` can be symbolized.
fn check_location_runs(p: &Profile, j: usize, ranges: &Vec<Record>) -> (ok: bool)
    requires
        j < p.location_table@.len(),
    ensures
        ok == location_runs(*p, j as int, ranges@),
{
    let location = &p.location_table[j];
    let mapping_index = match location.mapping_index {
        Some(m) => m,
        None => {
            return false;
        },
    };
    let row = i32_to_usize(mapping_index);
    if row >= p.mapping_table.len() {
        return true;
    }
    let mapping = &p.mapping_table[row];
    let address = match location.address.checked_add(mapping.memory_start) {
        Some(a) => match a.checked_add(mapping.file_offset) {
            Some(b) => b,
            None => {
                return false;
            },
        },
        None => {
            return false;
        },
    };
    let name_row = i32_to_usize(mapping.filename_strindex);
    if name_row >= p.string_table.len() {
        return false;
    }
    check_ranges_fit(ranges, address)
}

/// Whether sample row `i` can be symbolized.
fn check_sample_runs(p: &Profile, i: usize, ranges: &Vec<Record>, pid_filter: Option<i64>) -> (ok:
    bool)
    requires
        i < p.sample@.len(),
    ensures
        ok == sample_runs(*p, i as int, ranges@, pid_filter),
{
    let s = &p.sample[i];
    let (_attributes, pid, _exe) = sample_attributes(p, s, pid_filter.is_some());
    let selected = match pid_filter {
        Some(f) => pid == f,
        None => true,
    };
    if !selected {
        return true;
    }
    let start = i32_to_usize(s.locations_start_index);
    let length = i32_to_usize(s.locations_length);
    if start > usize::MAX - length {
        return false;
    }
    let (lo, hi) = location_span(p, s);
    let mut j: usize = lo;
    while j < hi
        invariant
            lo <= j <= hi,
            hi <= p.location_table@.len(),
            lo == spec_location_span(*p, *s).0,
            hi == spec_location_span(*p, *s).1,
            *s == p.sample@[i as int],
            i < p.sample@.len(),
            span_end(*s) <= usize::MAX,
            spec_selected(
                spec_pid(
                    spec_attribute_reports(
                        p.attribute_table@,
                        s.attribute_indices@,
                        pid_filter is Some,
                    ),
                ),
                pid_filter,
            ),
            forall|k: int| lo <= k < j ==> #[trigger] location_runs(*p, k, ranges@),
        decreases hi - j,
    {
        if !check_location_runs(p, j, ranges) {
            assert(!location_runs(*p, j as int, ranges@));
            return false;
        }
        j = j + 1;
    }
    true
}

/// Whether every sample of `profile` can be symbolized against `range_rec`
/// with process filter `pid_filter`: the condition under which
/// `symbolize_profile` may be called.
pub fn profile_is_symbolizable(profile: &Profile, range_rec: &Vec<Record>, pid_filter: Option<i64>) -> (ok: bool)
    ensures
        ok == profile_runs(*profile, range_rec@, pid_filter),
{
    let n = profile.sample.len();
    let mut i: usize = 0;
    while i < n
        invariant
            n == profile.sample@.len(),
            i <= n,
            forall|k: int| 0 <= k < i ==> #[trigger] sample_runs(*profile, k, range_rec@, pid_filter),
        decreases n - i,
    {
        if !check_sample_runs(profile, i, range_rec, pid_filter) {
            return false;
        }
        i = i + 1;
    }
    true
}

/// `k` samples lead the profile that can all be symbolized, and the sample
/// after them (if any) cannot.
pub open spec fn runnable_prefix(p: Profile, ranges: Seq<Record>, pid_filter: Option<i64>, k: int) -> bool {
    &&& 0 <= k <= p.sample@.len()
    &&& forall|i: int| 0 <= i < k ==> #[trigger] sample_runs(p, i, ranges, pid_filter)
    &&& k < p.sample@.len() ==> !sample_runs(p, k, ranges, pid_filter)
}

/// Symbolizes the samples of `profile` in order up to the first one that
/// cannot be symbolized, and tells whether that covered every sample.
pub fn symbolize_profile_prefix(
    profile: &Profile,
    range_rec: &Vec<Record>,
    pads_option: Option<&Vec<ReturnPad>>,
    pid_filter: Option<i64>,
) -> (r: (Vec<SampleReport>, bool))
    ensures
        runnable_prefix(*profile, range_rec@, pid_filter, r.0@.len() as int),
        r.1 == (r.0@.len() == profile.sample@.len()),
        r.1 == profile_runs(*profile, range_rec@, pid_filter),
        forall|k: int|
            0 <= k < r.0@.len() ==> #[trigger] r.0@[k]@ == spec_sample_outcome(
                *profile,
                k,
                range_rec@,
                pads_view(pads_option),
                pid_filter,
            ),
{
    let n = profile.sample.len();
    let mut report: Vec<SampleReport> = Vec::new();
    let mut i: usize = 0;
    while i < n
        invariant
            n == profile.sample@.len(),
            i <= n,
            report@.len() == i,
            forall|k: int| 0 <= k < i ==> #[trigger] sample_runs(*profile, k, range_rec@, pid_filter),
            forall|k: int|
                0 <= k < i ==> #[trigger] report@[k]@ == spec_sample_outcome(
                    *profile,
                    k,
                    range_rec@,
                    pads_view(pads_option),
                    pid_filter,
                ),
        decreases n - i,
    {
        if !check_sample_runs(profile, i, range_rec, pid_filter) {
            return (report, false);
        }
        let rep = symbolize_sample(profile, i, range_rec, pads_option, pid_filter);
        report.push(rep);
        i = i + 1;
    }
    (report, true)
}

// ---------------------------------------------------------------------------
// Requests

/// Every profile of the request can be symbolized.
pub open spec fn request_runs(
    req: ExportProfilesServiceRequest,
    ranges: Seq<Record>,
    pid_filter: Option<i64>,
) -> bool {
    forall|r: int, s: int, k: int|
        0 <= r < req.resource_profiles@.len() && 0 <= s
            < req.resource_profiles@[r].scope_profiles@.len() && 0 <= k
            < req.resource_profiles@[r].scope_profiles@[s].profiles@.len() ==> #[trigger] profile_runs(
            req.resource_profiles@[r].scope_profiles@[s].profiles@[k],
            ranges,
            pid_filter,
        )
}

/// The outcomes for a list of profiles, one list of sample outcomes each.
pub open spec fn spec_symbolize_profiles(
    ps: Seq<Profile>,
    ranges: Seq<Record>,
    pads: Option<Seq<ReturnPad>>,
    pid_filter: Option<i64>,
) -> Seq<Seq<SampleOutcome>> {
    ps.map_values(|p: Profile| spec_symbolize_profile(p, ranges, pads, pid_filter))
}

/// The values of a list of profile reports.
pub open spec fn report_views(s: Seq<Vec<SampleReport>>) -> Seq<Seq<SampleOutcome>> {
    s.map_values(|r: Vec<SampleReport>| sample_views(r@))
}

/// Symbolizes every profile of an export request, resource by resource and
/// scope by scope, giving one report per profile in that order.
pub fn symbolize_request(
    req: &ExportProfilesServiceRequest,
    range_rec: &Vec<Record>,
    pads_option: Option<&Vec<ReturnPad>>,
    pid_filter: Option<i64>,
) -> (reports: Vec<Vec<SampleReport>>)
    requires
        request_runs(*req, range_rec@, pid_filter),
    ensures
        report_views(reports@) == spec_symbolize_profiles(
            request_profiles(*req),
            range_rec@,
            pads_view(pads_option),
            pid_filter,
        ),
{
    let ghost ranges = range_rec@;
    let ghost pads = pads_view(pads_option);
    let ghost res = req.resource_profiles@;
    let mut reports: Vec<Vec<SampleReport>> = Vec::new();
    let nr = req.resource_profiles.len();
    let mut r: usize = 0;
    while r < nr
        invariant
            nr == res.len(),
            res == req.resource_profiles@,
            ranges == range_rec@,
            pads == pads_view(pads_option),
            request_runs(*req, ranges, pid_filter),
            r <= nr,
            report_views(reports@) == spec_symbolize_profiles(
                resource_list_profiles(res.take(r as int)),
                ranges,
                pads,
                pid_filter,
            ),
        decreases nr - r,
    {
        let resource = &req.resource_profiles[r];
        let ghost scopes = resource.scope_profiles@;
        let ghost done = resource_list_profiles(res.take(r as int));
        let ns = resource.scope_profiles.len();
        let mut s: usize = 0;
        while s < ns
            invariant
                ns == scopes.len(),
                scopes == resource.scope_profiles@,
                *resource == res[r as int],
                r < nr,
                nr == res.len(),
                res == req.resource_profiles@,
                ranges == range_rec@,
                pads == pads_view(pads_option),
                request_runs(*req, ranges, pid_filter),
                s <= ns,
                report_views(reports@) == spec_symbolize_profiles(
                    done + scope_list_profiles(scopes.take(s as int)),
                    ranges,
                    pads,
                    pid_filter,
                ),
            decreases ns - s,
        {
            let scope = &resource.scope_profiles[s];
            let ghost before = done + scope_list_profiles(scopes.take(s as int));
            let np = scope.profiles.len();
            let mut k: usize = 0;
            while k < np
                invariant
                    np == scope.profiles@.len(),
                    *scope == scopes[s as int],
                    s < ns,
                    ns == scopes.len(),
                    scopes == resource.scope_profiles@,
                    *resource == res[r as int],
                    r < nr,
                    nr == res.len(),
                    res == req.resource_profiles@,
                    ranges == range_rec@,
                    pads == pads_view(pads_option),
                    request_runs(*req, ranges, pid_filter),
                    k <= np,
                    report_views(reports@) == spec_symbolize_profiles(
                        before + scope.profiles@.take(k as int),
                        ranges,
                        pads,
                        pid_filter,
                    ),
                decreases np - k,
            {
                let ghost old_reports = reports@;
                assert(profile_runs(
                    req.resource_profiles@[r as int].scope_profiles@[s as int].profiles@[k as int],
                    ranges,
                    pid_filter,
                ));
                let rep = symbolize_profile(&scope.profiles[k], range_rec, pads_option, pid_filter);
                reports.push(rep);
                proof {
                    assert(before + scope.profiles@.take(k + 1) =~= (before + scope.profiles@.take(
                        k as int,
                    )).push(scope.profiles@[k as int]));
                    assert(report_views(reports@) =~= report_views(old_reports).push(
                        sample_views(rep@),
                    ));
                    assert(spec_symbolize_profiles(
                        before + scope.profiles@.take(k + 1),
                        ranges,
                        pads,
                        pid_filter,
                    ) =~= spec_symbolize_profiles(
                        before + scope.profiles@.take(k as int),
                        ranges,
                        pads,
                        pid_filter,
                    ).push(spec_symbolize_profile(scope.profiles@[k as int], ranges, pads, pid_filter)));
                }
                k = k + 1;
            }
            proof {
                assert(scope.profiles@.take(np as int) =~= scope.profiles@);
                assert(scopes.take(s + 1).drop_last() =~= scopes.take(s as int));
                assert(done + scope_list_profiles(scopes.take(s + 1)) =~= before + scope.profiles@);
            }
            s = s + 1;
        }
        proof {
            assert(scopes.take(ns as int) =~= scopes);
            assert(res.take(r + 1).drop_last() =~= res.take(r as int));
            assert(resource_list_profiles(res.take(r + 1)) =~= done + scope_list_profiles(scopes));
        }
        r = r + 1;
    }
    proof {
        assert(res.take(nr as int) =~= res);
    }
    reports
}

/// Whether every profile of the request can be symbolized: the condition
/// under which `symbolize_request` may be called.
pub fn request_is_symbolizable(
    req: &ExportProfilesServiceRequest,
    range_rec: &Vec<Record>,
    pid_filter: Option<i64>,
) -> (ok: bool)
    ensures
        ok == request_runs(*req, range_rec@, pid_filter),
{
    let nr = req.resource_profiles.len();
    let mut r: usize = 0;
    while r < nr
        invariant
            nr == req.resource_profiles@.len(),
            r <= nr,
            forall|a: int, b: int, c: int|
                0 <= a < r && 0 <= b < req.resource_profiles@[a].scope_profiles@.len() && 0 <= c
                    < req.resource_profiles@[a].scope_profiles@[b].profiles@.len()
                    ==> #[trigger] profile_runs(
                    req.resource_profiles@[a].scope_profiles@[b].profiles@[c],
                    range_rec@,
                    pid_filter,
                ),
        decreases nr - r,
    {
        let resource = &req.resource_profiles[r];
        let ns = resource.scope_profiles.len();
        let mut s: usize = 0;
        while s < ns
            invariant
                nr == req.resource_profiles@.len(),
                r < nr,
                *resource == req.resource_profiles@[r as int],
                ns == resource.scope_profiles@.len(),
                s <= ns,
                forall|a: int, b: int, c: int|
                    0 <= a < r && 0 <= b < req.resource_profiles@[a].scope_profiles@.len() && 0 <= c
                        < req.resource_profiles@[a].scope_profiles@[b].profiles@.len()
                        ==> #[trigger] profile_runs(
                        req.resource_profiles@[a].scope_profiles@[b].profiles@[c],
                        range_rec@,
                        pid_filter,
                    ),
                forall|b: int, c: int|
                    0 <= b < s && 0 <= c < resource.scope_profiles@[b].profiles@.len()
                        ==> #[trigger] profile_runs(
                        resource.scope_profiles@[b].profiles@[c],
                        range_rec@,
                        pid_filter,
                    ),
            decreases ns - s,
        {
            let scope = &resource.scope_profiles[s];
            let np = scope.profiles.len();
            let mut k: usize = 0;
            while k < np
                invariant
                    nr == req.resource_profiles@.len(),
                    r < nr,
                    *resource == req.resource_profiles@[r as int],
                    ns == resource.scope_profiles@.len(),
                    s < ns,
                    *scope == resource.scope_profiles@[s as int],
                    np == scope.profiles@.len(),
                    k <= np,
                    forall|a: int, b: int, c: int|
                        0 <= a < r && 0 <= b < req.resource_profiles@[a].scope_profiles@.len() && 0
                            <= c < req.resource_profiles@[a].scope_profiles@[b].profiles@.len()
                            ==> #[trigger] profile_runs(
                            req.resource_profiles@[a].scope_profiles@[b].profiles@[c],
                            range_rec@,
                            pid_filter,
                        ),
                    forall|b: int, c: int|
                        0 <= b < s && 0 <= c < resource.scope_profiles@[b].profiles@.len()
                            ==> #[trigger] profile_runs(
                            resource.scope_profiles@[b].profiles@[c],
                            range_rec@,
                            pid_filter,
                        ),
                    forall|c: int|
                        0 <= c < k ==> #[trigger] profile_runs(
                            scope.profiles@[c],
                            range_rec@,
                            pid_filter,
                        ),
                decreases np - k,
            {
                if !profile_is_symbolizable(&scope.profiles[k], range_rec, pid_filter) {
                    assert(!profile_runs(
                        req.resource_profiles@[r as int].scope_profiles@[s as int].profiles@[k as int],
                        range_rec@,
                        pid_filter,
                    ));
                    return false;
                }
                k = k + 1;
            }
            s = s + 1;
        }
        r = r + 1;
    }
    true
}

// ---------------------------------------------------------------------------
// Laws

/// The process filter keeps exactly the samples whose process id equals it,
/// keeps every sample when it is not set, and a sample that it drops has no
/// location resolved.
pub proof fn process_filter_law(
    p: Profile,
    i: int,
    ranges: Seq<Record>,
    pads: Option<Seq<ReturnPad>>,
    pid_filter: Option<i64>,
)
    requires
        0 <= i < p.sample@.len(),
    ensures
        ({
            let o = spec_sample_outcome(p, i, ranges, pads, pid_filter);
            &&& pid_filter matches Some(f) ==> (o.selected <==> o.pid == f)
            &&& pid_filter is None ==> o.selected
            &&& !o.selected ==> o.locations.len() == 0
        }),
{
}

/// Without a process filter no attribute is read as a process id, so every
/// sample's process id is 0.
pub proof fn pid_without_filter_law(table: Seq<KeyValue>, indices: Seq<i32>)
    ensures
        spec_pid(spec_attribute_reports(table, indices, false)) == 0,
    decreases indices.len(),
{
    if indices.len() > 0 {
        pid_without_filter_law(table, indices.drop_last());
        let rest = spec_attribute_reports(table, indices.drop_last(), false);
        let all = spec_attribute_reports(table, indices, false);
        let i = i32_as_usize(indices.last());
        if i < table.len() {
            assert(all.drop_last() =~= rest);
            assert(!(all.last().kind is Pid));
        } else {
            assert(all == rest);
        }
    }
}

/// How the range hits of a list grow by one record.
proof fn range_hits_step(ranges: Seq<Record>, address: u64)
    requires
        0 < ranges.len() <= usize::MAX,
    ensures
        match ranges.last() {
            Record::Range(r) => if range_covers(r, address) {
                spec_range_hits(ranges, address) == spec_range_hits(ranges.drop_last(), address).push(
                    RangeHit {
                        record_index: (ranges.len() - 1) as usize,
                        line: spec_line_number_for_va(r, address),
                    },
                )
            } else {
                spec_range_hits(ranges, address) == spec_range_hits(ranges.drop_last(), address)
            },
            Record::ReturnPad(_) => spec_range_hits(ranges, address) == spec_range_hits(
                ranges.drop_last(),
                address,
            ),
        },
{
}

/// Every range hit of an address names, by its position, a range record
/// that covers the address, and carries the source line of the address in
/// that range.
pub proof fn range_hits_sound(ranges: Seq<Record>, address: u64)
    requires
        ranges.len() <= usize::MAX,
    ensures
        forall|h: int|
            0 <= h < spec_range_hits(ranges, address).len() ==> {
                let hit = #[trigger] spec_range_hits(ranges, address)[h];
                &&& hit.record_index < ranges.len()
                &&& ranges[hit.record_index as int] matches Record::Range(r)
                &&& range_covers(r, address)
                &&& hit.line == spec_line_number_for_va(r, address)
            },
    decreases ranges.len(),
{
    if ranges.len() > 0 {
        let init = ranges.drop_last();
        range_hits_sound(init, address);
        range_hits_step(ranges, address);
        let rest = spec_range_hits(init, address);
        let all = spec_range_hits(ranges, address);
        assert forall|h: int| 0 <= h < all.len() implies {
            let hit = #[trigger] all[h];
            &&& hit.record_index < ranges.len()
            &&& ranges[hit.record_index as int] matches Record::Range(r)
            &&& range_covers(r, address)
            &&& hit.line == spec_line_number_for_va(r, address)
        } by {
            if h < rest.len() {
                assert(all[h] == rest[h]);
                assert(ranges[rest[h].record_index as int] == init[rest[h].record_index as int]);
            } else {
                match ranges.last() {
                    Record::Range(r) => {
                        if range_covers(r, address) {
                            assert(all[h].record_index == ranges.len() - 1);
                        } else {
                            assert(all.len() == rest.len());
                        }
                    },
                    Record::ReturnPad(_) => {
                        assert(all.len() == rest.len());
                    },
                }
            }
        }
    }
}

/// The range hits of an address come in strictly increasing record order.
pub proof fn range_hits_ordered(ranges: Seq<Record>, address: u64)
    requires
        ranges.len() <= usize::MAX,
    ensures
        forall|h1: int, h2: int|
            0 <= h1 < h2 < spec_range_hits(ranges, address).len() ==> #[trigger] spec_range_hits(
                ranges,
                address,
            )[h1].record_index < #[trigger] spec_range_hits(ranges, address)[h2].record_index,
    decreases ranges.len(),
{
    if ranges.len() > 0 {
        let init = ranges.drop_last();
        range_hits_ordered(init, address);
        range_hits_sound(init, address);
        range_hits_step(ranges, address);
        let rest = spec_range_hits(init, address);
        let all = spec_range_hits(ranges, address);
        assert forall|h1: int, h2: int| 0 <= h1 < h2 < all.len() implies #[trigger] all[h1].record_index
            < #[trigger] all[h2].record_index by {
            match ranges.last() {
                Record::Range(r) => {
                    if range_covers(r, address) {
                        assert(all[h1] == rest[h1]);
                        if h2 < rest.len() {
                            assert(all[h2] == rest[h2]);
                        } else {
                            assert(rest[h1].record_index < init.len());
                            assert(all[h2].record_index == init.len());
                        }
                    } else {
                        assert(all == rest);
                    }
                },
                Record::ReturnPad(_) => {
                    assert(all == rest);
                },
            }
        }
    }
}

/// Every range record that covers an address is among its range hits.
pub proof fn range_hits_complete(ranges: Seq<Record>, address: u64)
    requires
        ranges.len() <= usize::MAX,
    ensures
        forall|k: int|
            0 <= k < ranges.len() && (#[trigger] ranges[k] matches Record::Range(r) && range_covers(
                r,
                address,
            )) ==> exists|h: int|
                0 <= h < spec_range_hits(ranges, address).len() && spec_range_hits(
                    ranges,
                    address,
                )[h].record_index == k,
    decreases ranges.len(),
{
    if ranges.len() > 0 {
        let init = ranges.drop_last();
        let n = ranges.len() - 1;
        range_hits_complete(init, address);
        range_hits_step(ranges, address);
        let rest = spec_range_hits(init, address);
        let all = spec_range_hits(ranges, address);
        assert forall|k: int|
            0 <= k < ranges.len() && (#[trigger] ranges[k] matches Record::Range(r) && range_covers(
                r,
                address,
            )) implies exists|h: int| 0 <= h < all.len() && all[h].record_index == k by {
            if k < n {
                assert(init[k] == ranges[k]);
                let h = choose|h: int| 0 <= h < rest.len() && rest[h].record_index == k;
                match ranges.last() {
                    Record::Range(r) => {
                        if range_covers(r, address) {
                            assert(all[h] == rest[h]);
                        } else {
                            assert(all == rest);
                        }
                    },
                    Record::ReturnPad(_) => {
                        assert(all == rest);
                    },
                }
            } else {
                assert(ranges[k] == ranges.last());
                assert(all[all.len() - 1].record_index == k);
            }
        }
    }
}

/// The pad hits of an address are the positions of the return pads that
/// start there: each hit is such a position, and each such position is a hit.
pub proof fn pad_hits_law(pads: Seq<ReturnPad>, address: u64)
    requires
        pads.len() <= usize::MAX,
    ensures
        forall|h: int|
            0 <= h < spec_pad_hits(pads, address).len() ==> {
                let k = #[trigger] spec_pad_hits(pads, address)[h];
                k < pads.len() && pads[k as int].elf_va == address
            },
        forall|k: usize|
            k < pads.len() && #[trigger] pads[k as int].elf_va == address ==> spec_pad_hits(
                pads,
                address,
            ).contains(k),
    decreases pads.len(),
{
    if pads.len() > 0 {
        let init = pads.drop_last();
        let n = pads.len() - 1;
        pad_hits_law(init, address);
        let rest = spec_pad_hits(init, address);
        let all = spec_pad_hits(pads, address);
        let grows = pads.last().elf_va == address;
        if grows {
            assert(all == rest.push(n as usize));
        } else {
            assert(all == rest);
        }
        assert forall|h: int| 0 <= h < all.len() implies {
            let k = #[trigger] all[h];
            k < pads.len() && pads[k as int].elf_va == address
        } by {
            if h < rest.len() {
                assert(all[h] == rest[h]);
                assert(init[rest[h] as int] == pads[rest[h] as int]);
            }
        }
        assert forall|k: usize| k < pads.len() && #[trigger] pads[k as int].elf_va == address implies all.contains(
            k,
        ) by {
            if k < n {
                assert(init[k as int] == pads[k as int]);
                assert(rest.contains(k));
                let h = choose|h: int| 0 <= h < rest.len() && rest[h] == k;
                assert(all[h] == rest[h]);
            } else {
                assert(all[all.len() - 1] == k);
            }
        }
    }
}

/// The resolved locations of a sample are the rows of its span whose mapping
/// exists, in increasing order; each is moved by its mapping's start and
/// file offset, and carries every range and return pad that covers or starts
/// at that address, whatever the mapped file is called.
pub proof fn location_outcomes_law(
    p: Profile,
    lo: int,
    hi: int,
    ranges: Seq<Record>,
    pads: Option<Seq<ReturnPad>>,
)
    requires
        0 <= lo,
        hi <= usize::MAX,
    ensures
        forall|h: int|
            0 <= h < spec_location_outcomes(p, lo, hi, ranges, pads).len() ==> {
                let o = #[trigger] spec_location_outcomes(p, lo, hi, ranges, pads)[h];
                &&& lo <= o.location_index < hi
                &&& mapping_row(p, o.location_index as int) < p.mapping_table.len()
                &&& spec_location_outcome(p, o.location_index as int, ranges, pads) == Some(o)
                &&& o.address == mapped_address(p, o.location_index as int) as u64
                &&& o.range_hits == spec_range_hits(ranges, o.address)
                &&& o.pad_hits == match pads {
                    Some(ps) => spec_pad_hits(ps, o.address),
                    None => Seq::<usize>::empty(),
                }
            },
        forall|h1: int, h2: int|
            0 <= h1 < h2 < spec_location_outcomes(p, lo, hi, ranges, pads).len()
                ==> spec_location_outcomes(p, lo, hi, ranges, pads)[h1].location_index
                < spec_location_outcomes(p, lo, hi, ranges, pads)[h2].location_index,
        forall|j: int|
            lo <= j < hi && #[trigger] mapping_row(p, j) < p.mapping_table.len() ==> exists|h: int|
                0 <= h < spec_location_outcomes(p, lo, hi, ranges, pads).len()
                    && spec_location_outcomes(p, lo, hi, ranges, pads)[h].location_index == j,
    decreases hi - lo,
{
    if hi > lo {
        location_outcomes_law(p, lo, hi - 1, ranges, pads);
        let rest = spec_location_outcomes(p, lo, hi - 1, ranges, pads);
        let all = spec_location_outcomes(p, lo, hi, ranges, pads);
        assert forall|h: int| 0 <= h < all.len() implies {
            let o = #[trigger] all[h];
            &&& lo <= o.location_index < hi
            &&& mapping_row(p, o.location_index as int) < p.mapping_table.len()
            &&& spec_location_outcome(p, o.location_index as int, ranges, pads) == Some(o)
            &&& o.address == mapped_address(p, o.location_index as int) as u64
            &&& o.range_hits == spec_range_hits(ranges, o.address)
            &&& o.pad_hits == match pads {
                Some(ps) => spec_pad_hits(ps, o.address),
                None => Seq::<usize>::empty(),
            }
        } by {
            if h < rest.len() {
                assert(all[h] == rest[h]);
            }
        }
        assert forall|j: int|
            lo <= j < hi && #[trigger] mapping_row(p, j) < p.mapping_table.len() implies exists|h: int|
                0 <= h < all.len() && all[h].location_index == j by {
            if j < hi - 1 {
                let h = choose|h: int| 0 <= h < rest.len() && rest[h].location_index == j;
                assert(all[h] == rest[h]);
            } else {
                assert(all[all.len() - 1].location_index == j);
            }
        }
        assert forall|h1: int, h2: int| 0 <= h1 < h2 < all.len() implies all[h1].location_index
            < all[h2].location_index by {
            if h2 < rest.len() {
                assert(all[h1] == rest[h1]);
                assert(all[h2] == rest[h2]);
            } else {
                assert(all[h1] == rest[h1]);
                assert(rest[h1] == spec_location_outcomes(p, lo, hi - 1, ranges, pads)[h1]);
            }
        }
    }
}

/// The range records of a record list, in order.
pub open spec fn range_records(records: Seq<Record>) -> Seq<Range>
    decreases records.len(),
{
    if records.len() == 0 {
        Seq::empty()
    } else {
        let rest = range_records(records.drop_last());
        match records.last() {
            Record::Range(r) => rest.push(r),
            Record::ReturnPad(_) => rest,
        }
    }
}

/// The ranges among `rs` that cover `address`, in order, each with the source
/// line of the address in it.
pub open spec fn covering_ranges(rs: Seq<Range>, address: u64) -> Seq<(Range, Option<u32>)>
    decreases rs.len(),
{
    if rs.len() == 0 {
        Seq::empty()
    } else {
        let rest = covering_ranges(rs.drop_last(), address);
        if range_covers(rs.last(), address) {
            rest.push((rs.last(), spec_line_number_for_va(rs.last(), address)))
        } else {
            rest
        }
    }
}

/// The ranges that the range hits of an address name, with their lines.
pub open spec fn named_range_hits(ranges: Seq<Record>, address: u64) -> Seq<(Range, Option<u32>)> {
    spec_range_hits(ranges, address).map_values(
        |h: RangeHit| (ranges[h.record_index as int]->Range_0, h.line),
    )
}

/// The ranges named by the hits of an address are the range records that
/// cover it, in order, whatever other records stand among them.
proof fn lemma_named_hits_are_covering_ranges(ranges: Seq<Record>, address: u64)
    requires
        ranges.len() <= usize::MAX,
    ensures
        named_range_hits(ranges, address) == covering_ranges(range_records(ranges), address),
    decreases ranges.len(),
{
    if ranges.len() > 0 {
        let init = ranges.drop_last();
        lemma_named_hits_are_covering_ranges(init, address);
        range_hits_sound(init, address);
        range_hits_step(ranges, address);
        let rest = spec_range_hits(init, address);
        let named_init = named_range_hits(init, address);
        assert forall|h: int| 0 <= h < rest.len() implies ranges[#[trigger] rest[h].record_index as int]
            == init[rest[h].record_index as int] by {}
        match ranges.last() {
            Record::Range(r) => {
                let rr = range_records(ranges);
                assert(rr == range_records(init).push(r));
                assert(rr.drop_last() =~= range_records(init));
                assert(rr.last() == r);
                if range_covers(r, address) {
                    assert(named_range_hits(ranges, address) =~= named_init.push(
                        (r, spec_line_number_for_va(r, address)),
                    ));
                } else {
                    assert(named_range_hits(ranges, address) =~= named_init);
                }
            },
            Record::ReturnPad(_) => {
                assert(named_range_hits(ranges, address) =~= named_init);
            },
        }
    }
}

/// Return pads among the records that ranges are matched against change
/// nothing but the positions of the hits: two record lists that hold the same
/// range records in the same order (return pads inserted anywhere) have hits,
/// at every address, that name the same ranges with the same lines.
pub proof fn return_pads_leave_range_hits_unchanged(
    ranges1: Seq<Record>,
    ranges2: Seq<Record>,
    address: u64,
)
    requires
        ranges1.len() <= usize::MAX,
        ranges2.len() <= usize::MAX,
        range_records(ranges1) == range_records(ranges2),
    ensures
        named_range_hits(ranges1, address) == named_range_hits(ranges2, address),
{
    lemma_named_hits_are_covering_ranges(ranges1, address);
    lemma_named_hits_are_covering_ranges(ranges2, address);
}

/// The range hits of an address are exactly the range records whose
/// half-open interval `[elf_va, elf_va + length)` holds it: every hit names,
/// by its position, a range with `elf_va <= address < elf_va + length` and
/// carries the line of the address in it, and every range record with that
/// property is named by a hit.
pub proof fn range_hits_are_the_covering_intervals(ranges: Seq<Record>, address: u64)
    requires
        ranges.len() <= usize::MAX,
    ensures
        forall|h: int|
            0 <= h < spec_range_hits(ranges, address).len() ==> {
                let hit = #[trigger] spec_range_hits(ranges, address)[h];
                &&& 0 <= hit.record_index < ranges.len()
                &&& ranges[hit.record_index as int] is Range
                &&& ranges[hit.record_index as int]->Range_0.elf_va <= address
                &&& address < ranges[hit.record_index as int]->Range_0.elf_va
                    + ranges[hit.record_index as int]->Range_0.length
                &&& hit.line == spec_line_number_for_va(
                    ranges[hit.record_index as int]->Range_0,
                    address,
                )
            },
        forall|k: int|
            0 <= k < ranges.len() && #[trigger] ranges[k] is Range && ranges[k]->Range_0.elf_va
                <= address && address < ranges[k]->Range_0.elf_va + ranges[k]->Range_0.length
                ==> exists|h: int|
                0 <= h < spec_range_hits(ranges, address).len() && spec_range_hits(
                    ranges,
                    address,
                )[h].record_index == k,
{
    range_hits_sound(ranges, address);
    range_hits_complete(ranges, address);
    let hits = spec_range_hits(ranges, address);
    assert forall|h: int| 0 <= h < hits.len() implies {
        let hit = #[trigger] hits[h];
        &&& 0 <= hit.record_index < ranges.len()
        &&& ranges[hit.record_index as int] is Range
        &&& ranges[hit.record_index as int]->Range_0.elf_va <= address
        &&& address < ranges[hit.record_index as int]->Range_0.elf_va
            + ranges[hit.record_index as int]->Range_0.length
        &&& hit.line == spec_line_number_for_va(ranges[hit.record_index as int]->Range_0, address)
    } by {
        let hit = hits[h];
        match ranges[hit.record_index as int] {
            Record::Range(r) => {
                assert(range_covers(r, address));
            },
            Record::ReturnPad(_) => {},
        }
    }
    assert forall|k: int|
        0 <= k < ranges.len() && #[trigger] ranges[k] is Range && ranges[k]->Range_0.elf_va <= address
            && address < ranges[k]->Range_0.elf_va + ranges[k]->Range_0.length implies exists|h: int|
        0 <= h < hits.len() && hits[h].record_index == k by {
        match ranges[k] {
            Record::Range(r) => {
                assert(range_covers(r, address));
            },
            Record::ReturnPad(_) => {},
        }
    }
}

/// An attribute is read as process id `v` exactly when a filter is set, its
/// key is the string `process.pid` and its value the integer `v`; it is read
/// as the executable path exactly when its key is `process.executable.path`
/// and its value a string, and then it mentions `hello` exactly when that
/// string contains it.
pub proof fn attribute_kind_law(kv: KeyValue, filter_set: bool)
    ensures
        forall|v: i64|
            #[trigger] spec_attribute_kind(kv, filter_set) == AttributeKind::Pid(v) <==> (filter_set
                && kv.key@ == "process.pid"@ && kv.value == Some(AnyValue::IntValue(v))),
        forall|b: bool|
            #[trigger] spec_attribute_kind(kv, filter_set) == (AttributeKind::ExecutablePath {
                mentions_hello: b,
            }) <==> (kv.key@ == "process.executable.path"@ && kv.value is Some && kv.value->Some_0 is StringValue
                && b == seq_contains(kv.value->Some_0->StringValue_0@, "hello"@)),
{
}

/// Attribute `indices[i]` names a row of `table` holding `process.pid` with
/// integer value `v`.
pub open spec fn pid_attribute_at(table: Seq<KeyValue>, indices: Seq<i32>, i: int, v: i64) -> bool {
    let row = i32_as_usize(indices[i]);
    &&& 0 <= row < table.len()
    &&& table[row].key@ == "process.pid"@
    &&& table[row].value == Some(AnyValue::IntValue(v))
}

/// With a filter set, a sample's process id is the value of the last of its
/// attributes that holds `process.pid` with an integer value, and 0 when it
/// has none, whatever other attributes it carries.
pub proof fn pid_is_last_pid_attribute(table: Seq<KeyValue>, indices: Seq<i32>)
    ensures
        forall|i: int, v: i64|
            0 <= i < indices.len() && #[trigger] pid_attribute_at(table, indices, i, v) && (forall|
                j: int,
                w: i64,
            | i < j < indices.len() ==> !#[trigger] pid_attribute_at(table, indices, j, w)) ==> spec_pid(
                spec_attribute_reports(table, indices, true),
            ) == v,
        (forall|j: int, w: i64|
            0 <= j < indices.len() ==> !#[trigger] pid_attribute_at(table, indices, j, w)) ==> spec_pid(
            spec_attribute_reports(table, indices, true),
        ) == 0,
    decreases indices.len(),
{
    if indices.len() > 0 {
        let init = indices.drop_last();
        let n = indices.len() - 1;
        pid_is_last_pid_attribute(table, init);
        let rest = spec_attribute_reports(table, init, true);
        let all = spec_attribute_reports(table, indices, true);
        let row = i32_as_usize(indices[n]);
        assert forall|j: int, w: i64| 0 <= j < n implies pid_attribute_at(table, init, j, w)
            == pid_attribute_at(table, indices, j, w) by {
            assert(init[j] == indices[j]);
        }
        if row < table.len() {
            let kv = table[row];
            attribute_kind_law(kv, true);
            assert(all == rest.push(
                AttributeReport { table_index: row as usize, kind: spec_attribute_kind(kv, true) },
            ));
            assert(all.drop_last() =~= rest);
            match spec_attribute_kind(kv, true) {
                AttributeKind::Pid(w) => {
                    assert(pid_attribute_at(table, indices, n, w));
                    assert(spec_pid(all) == w);
                    assert forall|i: int, v: i64|
                        0 <= i < indices.len() && #[trigger] pid_attribute_at(table, indices, i, v)
                            && (forall|j: int, w2: i64|
                            i < j < indices.len() ==> !#[trigger] pid_attribute_at(
                                table,
                                indices,
                                j,
                                w2,
                            )) implies spec_pid(all) == v by {
                        if i < n {
                            assert(!pid_attribute_at(table, indices, n, w));
                        }
                    }
                },
                _ => {
                    assert(spec_pid(all) == spec_pid(rest));
                    assert forall|w: i64| !pid_attribute_at(table, indices, n, w) by {
                        if pid_attribute_at(table, indices, n, w) {
                            assert(spec_attribute_kind(kv, true) == AttributeKind::Pid(w));
                        }
                    }
                },
            }
        } else {
            assert(all == rest);
            assert forall|w: i64| !pid_attribute_at(table, indices, n, w) by {}
        }
    }
}

/// The address of a resolved location is its own address plus its mapping's
/// start and file offset, its mapping being the row of the mapping table that
/// its mapping index names.
pub proof fn location_address_law(
    p: Profile,
    j: int,
    ranges: Seq<Record>,
    pads: Option<Seq<ReturnPad>>,
)
    requires
        0 <= j < p.location_table@.len(),
        location_runs(p, j, ranges),
    ensures
        spec_location_outcome(p, j, ranges, pads) is Some <==> (0 <= i32_as_usize(
            p.location_table@[j].mapping_index.unwrap(),
        ) < p.mapping_table@.len()),
        spec_location_outcome(p, j, ranges, pads) is Some ==> {
            let m = p.mapping_table@[i32_as_usize(p.location_table@[j].mapping_index.unwrap())];
            let o = spec_location_outcome(p, j, ranges, pads).unwrap();
            &&& o.address == p.location_table@[j].address + m.memory_start + m.file_offset
            &&& o.filename_index == i32_as_usize(m.filename_strindex)
            &&& o.location_index == j
        },
{
    i32_as_usize_law(p.location_table@[j].mapping_index.unwrap());
    if spec_location_outcome(p, j, ranges, pads) is Some {
        let m = p.mapping_table@[mapping_row(p, j)];
        assert(mapped_address(p, j) <= u64::MAX);
        assert(filename_row(p, j) < p.string_table@.len());
        assert(p.string_table@.len() == p.string_table.len());
        assert(p.location_table@.len() == p.location_table.len());
        i32_as_usize_law(m.filename_strindex);
    }
}

/// The rows that a sample covers are `[start, start + length)` (start and
/// length read as `usize`) when that run lies within the location table, and
/// none otherwise.
pub proof fn location_span_law(p: Profile, s: Sample)
    ensures
        ({
            let start = i32_as_usize(s.locations_start_index);
            let end = start + i32_as_usize(s.locations_length);
            &&& end <= p.location_table@.len() ==> spec_location_span(p, s) == (start, end)
            &&& end > p.location_table@.len() ==> spec_location_span(p, s).0 == spec_location_span(
                p,
                s,
            ).1
        }),
{
}

/// Attribute `indices[i]` names a row of `table` holding
/// `process.executable.path` with a string value.
pub open spec fn path_attribute_at(table: Seq<KeyValue>, indices: Seq<i32>, i: int) -> bool {
    let row = i32_as_usize(indices[i]);
    &&& 0 <= row < table.len()
    &&& table[row].key@ == "process.executable.path"@
    &&& table[row].value is Some
    &&& table[row].value->Some_0 is StringValue
}

/// A sample's executable path is the row of the last of its attributes that
/// holds `process.executable.path` with a string value, and none when it has
/// none, whether or not a filter is set.
pub proof fn executable_path_is_last_path_attribute(
    table: Seq<KeyValue>,
    indices: Seq<i32>,
    filter_set: bool,
)
    ensures
        forall|i: int|
            0 <= i < indices.len() && #[trigger] path_attribute_at(table, indices, i) && (forall|
                j: int,
            | i < j < indices.len() ==> !#[trigger] path_attribute_at(table, indices, j))
                ==> spec_executable_path(spec_attribute_reports(table, indices, filter_set)) == Some(
                i32_as_usize(indices[i]) as usize,
            ),
        (forall|j: int| 0 <= j < indices.len() ==> !#[trigger] path_attribute_at(table, indices, j))
            ==> spec_executable_path(spec_attribute_reports(table, indices, filter_set)) is None,
    decreases indices.len(),
{
    if indices.len() > 0 {
        let init = indices.drop_last();
        let n = indices.len() - 1;
        executable_path_is_last_path_attribute(table, init, filter_set);
        let rest = spec_attribute_reports(table, init, filter_set);
        let all = spec_attribute_reports(table, indices, filter_set);
        let row = i32_as_usize(indices[n]);
        assert forall|j: int| 0 <= j < n implies path_attribute_at(table, init, j) == path_attribute_at(
            table,
            indices,
            j,
        ) by {
            assert(init[j] == indices[j]);
        }
        if row < table.len() {
            let kv = table[row];
            attribute_kind_law(kv, filter_set);
            assert(all == rest.push(
                AttributeReport { table_index: row as usize, kind: spec_attribute_kind(kv, filter_set) },
            ));
            assert(all.drop_last() =~= rest);
            match spec_attribute_kind(kv, filter_set) {
                AttributeKind::ExecutablePath { mentions_hello: b } => {
                    assert(path_attribute_at(table, indices, n));
                    assert(spec_executable_path(all) == Some(row as usize));
                },
                _ => {
                    assert(spec_executable_path(all) == spec_executable_path(rest));
                    if path_attribute_at(table, indices, n) {
                        let b = seq_contains(kv.value->Some_0->StringValue_0@, "hello"@);
                        assert(spec_attribute_kind(kv, filter_set) == (AttributeKind::ExecutablePath {
                            mentions_hello: b,
                        }));
                    }
                },
            }
        } else {
            assert(all == rest);
        }
    }
}

/// The attribute reports of a sample are its attribute indices that name a
/// row of the table (read as `usize`), kept in order, each with that row and
/// what the attribute in it tells the symbolizer.
pub proof fn attribute_reports_law(table: Seq<KeyValue>, indices: Seq<i32>, filter_set: bool)
    ensures
        spec_attribute_reports(table, indices, filter_set) == indices.filter(
            |i: i32| 0 <= i32_as_usize(i) < table.len(),
        ).map_values(
            |i: i32|
                AttributeReport {
                    table_index: i32_as_usize(i) as usize,
                    kind: spec_attribute_kind(table[i32_as_usize(i)], filter_set),
                },
        ),
    decreases indices.len(),
{
    reveal(Seq::filter);
    let pred = |i: i32| 0 <= i32_as_usize(i) < table.len();
    let f = |i: i32|
        AttributeReport {
            table_index: i32_as_usize(i) as usize,
            kind: spec_attribute_kind(table[i32_as_usize(i)], filter_set),
        };
    if indices.len() > 0 {
        attribute_reports_law(table, indices.drop_last(), filter_set);
        i32_as_usize_law(indices.last());
        let sub = indices.drop_last().filter(pred);
        if pred(indices.last()) {
            assert(indices.filter(pred) == sub.push(indices.last()));
            assert(sub.push(indices.last()).map_values(f) =~= sub.map_values(f).push(
                f(indices.last()),
            ));
        } else {
            assert(indices.filter(pred) == sub);
        }
    } else {
        assert(indices.filter(pred).map_values(f) =~= Seq::<AttributeReport>::empty());
    }
}

/// A location can be symbolized exactly when it has a mapping index and,
/// where that index names a mapping, its address plus the mapping's start and
/// file offset stays within `u64`, the mapping's file name index names a row
/// of the string table, and no range that starts at or below the moved address
/// ends past `u64::MAX`.
pub proof fn location_runs_law(p: Profile, j: int, ranges: Seq<Record>)
    ensures
        location_runs(p, j, ranges) <==> {
            let l = p.location_table@[j];
            &&& l.mapping_index is Some
            &&& 0 <= i32_as_usize(l.mapping_index.unwrap()) < p.mapping_table@.len() ==> {
                let m = p.mapping_table@[i32_as_usize(l.mapping_index.unwrap())];
                let a = l.address + m.memory_start + m.file_offset;
                &&& a <= u64::MAX
                &&& 0 <= i32_as_usize(m.filename_strindex) < p.string_table@.len()
                &&& forall|k: int|
                    0 <= k < ranges.len() && #[trigger] ranges[k] is Range
                        && ranges[k]->Range_0.elf_va <= a ==> ranges[k]->Range_0.elf_va
                        + ranges[k]->Range_0.length <= u64::MAX
            }
        },
{
    let l = p.location_table@[j];
    if l.mapping_index is Some {
        i32_as_usize_law(l.mapping_index.unwrap());
        if 0 <= i32_as_usize(l.mapping_index.unwrap()) < p.mapping_table@.len() {
            let m = p.mapping_table@[i32_as_usize(l.mapping_index.unwrap())];
            let a = l.address + m.memory_start + m.file_offset;
            i32_as_usize_law(m.filename_strindex);
            if a <= u64::MAX {
                assert(ranges_fit(ranges, a as u64) <==> forall|k: int|
                    0 <= k < ranges.len() && #[trigger] ranges[k] is Range
                        && ranges[k]->Range_0.elf_va <= a ==> ranges[k]->Range_0.elf_va
                        + ranges[k]->Range_0.length <= u64::MAX) by {
                    assert forall|k: int| 0 <= k < ranges.len() implies (range_fits(
                        #[trigger] ranges[k],
                        a as u64,
                    ) <==> (ranges[k] is Range && ranges[k]->Range_0.elf_va <= a
                        ==> ranges[k]->Range_0.elf_va + ranges[k]->Range_0.length <= u64::MAX)) by {
                        match ranges[k] {
                            Record::Range(r) => {},
                            Record::ReturnPad(_) => {},
                        }
                    }
                }
            }
        }
    }
}

} // verus!
