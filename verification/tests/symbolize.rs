use symblib::profile::{
    i32_to_usize, AnyValue, ExportProfilesServiceRequest, KeyValue, Location, Mapping, Profile,
    ResourceProfiles, Sample, ScopeProfiles,
};
use symblib::records::{LineTableEntry, Range, Record, ReturnPad, ReturnPadEntry};
use symblib::symbolize::{
    profile_is_symbolizable, request_is_symbolizable, symbolize_profile, symbolize_profile_prefix,
    symbolize_request, AttributeKind, AttributeReport, RangeHit,
};
use symblib::text::{str_contains, str_equal};

fn kv(key: &str, value: Option<AnyValue>) -> KeyValue {
    KeyValue { key: key.to_string(), value }
}

fn range(elf_va: u64, length: u32, func: &str, table: &[(u32, u32)]) -> Record {
    Record::Range(Range {
        elf_va,
        length,
        func: func.to_string(),
        file: Some("/src/hello.c".to_string()),
        call_file: None,
        call_line: None,
        depth: 0,
        line_table: table
            .iter()
            .map(|&(offset, line_number)| LineTableEntry { offset, line_number })
            .collect(),
    })
}

fn pad(elf_va: u64, func: &str) -> ReturnPad {
    ReturnPad {
        elf_va,
        entries: vec![ReturnPadEntry { func: func.to_string(), file: None, line: Some(7) }],
    }
}

/// A profile of two processes: one sample runs `hello` (pid 42), the other
/// `bash` (pid 7).
fn two_process_profile() -> Profile {
    Profile {
        sample: vec![
            Sample { locations_start_index: 0, locations_length: 3, attribute_indices: vec![0, 1, 9] },
            Sample { locations_start_index: 3, locations_length: 1, attribute_indices: vec![2, 3] },
        ],
        mapping_table: vec![
            Mapping { memory_start: 0x1000, file_offset: 0x10, filename_strindex: 1 },
            Mapping { memory_start: 0x5000, file_offset: 0, filename_strindex: 2 },
        ],
        location_table: vec![
            Location { mapping_index: Some(0), address: 0x20 },
            Location { mapping_index: Some(5), address: 0x24 },
            Location { mapping_index: Some(1), address: 0x30 },
            Location { mapping_index: Some(0), address: 0x40 },
        ],
        attribute_table: vec![
            kv("process.pid", Some(AnyValue::IntValue(42))),
            kv("process.executable.path", Some(AnyValue::StringValue("/usr/bin/hello".to_string()))),
            kv("process.pid", Some(AnyValue::IntValue(7))),
            kv("process.executable.path", Some(AnyValue::StringValue("/bin/bash".to_string()))),
        ],
        string_table: vec!["".to_string(), "/opt/hello_world".to_string(), "/lib/libc.so".to_string()],
    }
}

fn symbols() -> Vec<Record> {
    vec![
        range(0x1000, 0x100, "main", &[(0, 3), (0x30, 4)]),
        Record::ReturnPad(pad(0x1030, "ignored")),
        range(0x1020, 0x20, "inlined", &[(0, 9)]),
        range(0x2000, 0x10, "elsewhere", &[(0, 1)]),
        range(0x5000, 0x100, "memcpy", &[(0, 19), (0x20, 20), (0x40, 21)]),
    ]
}

#[test]
fn symbolizes_every_sample_without_a_filter() {
    let profile = two_process_profile();
    let ranges = symbols();
    let pads = vec![pad(0x1030, "main"), pad(0x1031, "other"), pad(0x1030, "foo"), pad(0x5030, "memcpy")];
    assert!(profile_is_symbolizable(&profile, &ranges, None));
    let report = symbolize_profile(&profile, &ranges, Some(&pads), None);
    assert_eq!(report.len(), 2);

    let first = &report[0];
    assert_eq!(first.sample_index, 0);
    assert!(first.selected);
    // Without a filter the pid attribute is not read.
    assert_eq!(first.pid, 0);
    assert_eq!(
        first.attributes,
        vec![
            AttributeReport { table_index: 0, kind: AttributeKind::Ignored },
            AttributeReport { table_index: 1, kind: AttributeKind::ExecutablePath { mentions_hello: true } },
        ]
    );
    assert_eq!(first.executable_path, Some(1));
    // Location 1 names a mapping that does not exist and is skipped.
    assert_eq!(first.locations.len(), 2);

    let hello = &first.locations[0];
    assert_eq!(hello.location_index, 0);
    assert_eq!(hello.address, 0x20 + 0x1000 + 0x10);
    assert_eq!(hello.filename_index, 1);
    assert_eq!(
        hello.range_hits,
        vec![
            RangeHit { record_index: 0, line: Some(4) },
            RangeHit { record_index: 2, line: Some(9) },
        ]
    );
    assert_eq!(hello.pad_hits, vec![0, 2]);

    let libc = &first.locations[1];
    assert_eq!(libc.location_index, 2);
    assert_eq!(libc.address, 0x5030);
    // A file whose name does not mention hello is symbolized all the same.
    assert_eq!(libc.filename_index, 2);
    assert_eq!(libc.range_hits, vec![RangeHit { record_index: 4, line: Some(20) }]);
    assert_eq!(libc.pad_hits, vec![3]);

    let second = &report[1];
    assert_eq!(second.sample_index, 1);
    assert!(second.selected);
    assert_eq!(second.executable_path, Some(3));
    assert_eq!(
        second.attributes[1],
        AttributeReport { table_index: 3, kind: AttributeKind::ExecutablePath { mentions_hello: false } }
    );
    assert_eq!(second.locations.len(), 1);
    assert_eq!(second.locations[0].address, 0x1050);
    assert_eq!(second.locations[0].range_hits, vec![RangeHit { record_index: 0, line: Some(4) }]);
}

#[test]
fn pid_filter_keeps_only_samples_of_that_process() {
    let profile = two_process_profile();
    let ranges = symbols();
    let report = symbolize_profile(&profile, &ranges, None, Some(7));
    assert_eq!(report[0].pid, 42);
    assert!(!report[0].selected);
    assert!(report[0].locations.is_empty());
    assert_eq!(report[0].attributes[0].kind, AttributeKind::Pid(42));
    assert_eq!(report[1].pid, 7);
    assert!(report[1].selected);
    assert_eq!(report[1].locations.len(), 1);
    assert!(report[1].locations[0].pad_hits.is_empty());
}

#[test]
fn sample_without_pid_attribute_has_pid_zero() {
    let mut profile = two_process_profile();
    profile.sample[0].attribute_indices = vec![1];
    let report = symbolize_profile(&profile, &symbols(), None, Some(0));
    assert_eq!(report[0].pid, 0);
    assert!(report[0].selected);
    assert!(!report[1].selected);
}

#[test]
fn last_pid_and_path_attributes_win() {
    let mut profile = two_process_profile();
    profile.sample[0].attribute_indices = vec![0, 2, 3, 1, -1, 4];
    let report = symbolize_profile(&profile, &symbols(), None, Some(42));
    assert_eq!(report[0].attributes.len(), 4);
    assert_eq!(report[0].pid, 7);
    assert_eq!(report[0].executable_path, Some(1));
    assert!(!report[0].selected);
}

#[test]
fn attributes_of_other_kinds_are_ignored() {
    let mut profile = two_process_profile();
    profile.attribute_table = vec![
        kv("process.pid", Some(AnyValue::StringValue("42".to_string()))),
        kv("process.executable.path", Some(AnyValue::IntValue(1))),
        kv("process.pid", None),
        kv("process.executable.path", Some(AnyValue::Unsupported)),
    ];
    profile.sample[0].attribute_indices = vec![0, 1, 2, 3];
    let report = symbolize_profile(&profile, &symbols(), None, Some(0));
    assert!(report[0].attributes.iter().all(|a| a.kind == AttributeKind::Ignored));
    assert_eq!(report[0].pid, 0);
    assert_eq!(report[0].executable_path, None);
}

#[test]
fn location_run_past_the_table_resolves_nothing() {
    let mut profile = two_process_profile();
    profile.sample[0].locations_start_index = 2;
    profile.sample[0].locations_length = 3;
    profile.sample[1].locations_start_index = -1;
    profile.sample[1].locations_length = 0;
    assert!(profile_is_symbolizable(&profile, &symbols(), None));
    let report = symbolize_profile(&profile, &symbols(), None, None);
    assert!(report[0].selected && report[0].locations.is_empty());
    assert!(report[1].selected && report[1].locations.is_empty());
}

#[test]
fn location_run_whose_end_overflows_cannot_be_symbolized() {
    let mut profile = two_process_profile();
    profile.sample[1].locations_start_index = -1;
    profile.sample[1].locations_length = 1;
    assert!(!profile_is_symbolizable(&profile, &symbols(), None));
    // The sample is filtered out, so its run is never resolved.
    assert!(profile_is_symbolizable(&profile, &symbols(), Some(42)));
    profile.sample[1].locations_start_index = 0;
    profile.sample[1].locations_length = -1;
    assert!(profile_is_symbolizable(&profile, &symbols(), None));
    let report = symbolize_profile(&profile, &symbols(), None, None);
    assert!(report[1].locations.is_empty());
}

#[test]
fn empty_location_run_resolves_nothing() {
    let mut profile = two_process_profile();
    profile.sample[0].locations_length = 0;
    let report = symbolize_profile(&profile, &symbols(), None, None);
    assert!(report[0].locations.is_empty());
}

#[test]
fn missing_mapping_index_cannot_be_symbolized() {
    let mut profile = two_process_profile();
    profile.location_table[3].mapping_index = None;
    assert!(!profile_is_symbolizable(&profile, &symbols(), None));
    // Only the filtered-out sample covers that location.
    assert!(profile_is_symbolizable(&profile, &symbols(), Some(42)));
}

#[test]
fn overflowing_address_cannot_be_symbolized() {
    let mut profile = two_process_profile();
    profile.location_table[0].address = u64::MAX - 0x1000;
    assert!(!profile_is_symbolizable(&profile, &symbols(), None));
}

#[test]
fn missing_file_name_cannot_be_symbolized() {
    let mut profile = two_process_profile();
    profile.mapping_table[1].filename_strindex = 3;
    assert!(!profile_is_symbolizable(&profile, &symbols(), None));
    profile.mapping_table[1].filename_strindex = -1;
    assert!(!profile_is_symbolizable(&profile, &symbols(), None));
}

#[test]
fn range_ending_past_the_address_space_cannot_be_symbolized() {
    let profile = two_process_profile();
    let mut ranges = symbols();
    ranges.push(range(u64::MAX - 1, 4, "wraps", &[]));
    // No location lies at or above its start: fine.
    assert!(profile_is_symbolizable(&profile, &ranges, None));
    ranges.push(range(0x1000, 4, "ok", &[]));
    ranges.push(range(0x1020, 0, "empty", &[]));
    ranges.push(range(0x1, u32::MAX, "big", &[]));
    assert!(profile_is_symbolizable(&profile, &ranges, None));
    let mut far = two_process_profile();
    far.location_table[0].address = u64::MAX - 0x1010;
    assert!(!profile_is_symbolizable(&far, &ranges, None));
}

#[test]
fn request_reports_profiles_in_resource_and_scope_order() {
    let a = two_process_profile();
    let mut b = two_process_profile();
    b.sample.truncate(1);
    let mut c = two_process_profile();
    c.sample.clear();
    let req = ExportProfilesServiceRequest {
        resource_profiles: vec![
            ResourceProfiles {
                scope_profiles: vec![
                    ScopeProfiles { profiles: vec![a, b] },
                    ScopeProfiles { profiles: vec![] },
                ],
            },
            ResourceProfiles { scope_profiles: vec![] },
            ResourceProfiles { scope_profiles: vec![ScopeProfiles { profiles: vec![c] }] },
        ],
    };
    assert!(request_is_symbolizable(&req, &symbols(), Some(42)));
    let reports = symbolize_request(&req, &symbols(), None, Some(42));
    let lens: Vec<usize> = reports.iter().map(|r| r.len()).collect();
    assert_eq!(lens, vec![2, 1, 0]);
    assert!(reports[0][0].selected && !reports[0][1].selected);
    assert_eq!(reports[1][0].locations.len(), 2);
}

#[test]
fn request_with_a_bad_profile_cannot_be_symbolized() {
    let mut bad = two_process_profile();
    bad.location_table[0].mapping_index = None;
    let req = ExportProfilesServiceRequest {
        resource_profiles: vec![ResourceProfiles {
            scope_profiles: vec![ScopeProfiles { profiles: vec![two_process_profile(), bad] }],
        }],
    };
    assert!(!request_is_symbolizable(&req, &symbols(), None));
    let empty = ExportProfilesServiceRequest { resource_profiles: vec![] };
    assert!(request_is_symbolizable(&empty, &symbols(), None));
    assert!(symbolize_request(&empty, &symbols(), None, None).is_empty());
}

#[test]
fn indices_convert_as_casts_do() {
    assert_eq!(i32_to_usize(0), 0);
    assert_eq!(i32_to_usize(17), 17);
    assert_eq!(i32_to_usize(i32::MAX), i32::MAX as usize);
    assert_eq!(i32_to_usize(-1), usize::MAX);
    assert_eq!(i32_to_usize(i32::MIN), i32::MIN as usize);
}

#[test]
fn string_search_by_characters() {
    assert!(str_contains("/opt/hello_world", "hello"));
    assert!(str_contains("hello", "hello"));
    assert!(!str_contains("hell", "hello"));
    assert!(!str_contains("/opt/Hello", "hello"));
    assert!(str_contains("anything", ""));
    assert!(str_contains("ünïcödé hello ✓", "hello ✓"));
    assert!(str_equal("process.pid", "process.pid"));
    assert!(!str_equal("process.pid", "process.pid2"));
    assert!(str_equal("", ""));
}

#[test]
fn prefix_symbolization_stops_at_the_first_sample_that_cannot_run() {
    let mut profile = two_process_profile();
    profile.location_table[3].mapping_index = None;
    let (reports, complete) = symbolize_profile_prefix(&profile, &symbols(), None, None);
    assert!(!complete);
    assert_eq!(reports.len(), 1);
    assert_eq!(reports[0].locations.len(), 2);

    let whole = two_process_profile();
    let (reports, complete) = symbolize_profile_prefix(&whole, &symbols(), None, None);
    assert!(complete);
    assert_eq!(reports.len(), 2);
    assert_eq!(reports[1].locations[0].address, 0x1050);

    let mut first_bad = two_process_profile();
    first_bad.location_table[0].mapping_index = None;
    let (reports, complete) = symbolize_profile_prefix(&first_bad, &symbols(), None, None);
    assert!(!complete);
    assert!(reports.is_empty());
}

#[test]
fn return_pads_among_the_ranges_only_shift_hit_positions() {
    let profile = two_process_profile();
    let plain: Vec<Record> = symbols()
        .into_iter()
        .filter(|r| matches!(r, Record::Range(_)))
        .collect();
    let mut padded = symbols();
    padded.insert(0, Record::ReturnPad(pad(0x1030, "x")));
    padded.push(Record::ReturnPad(pad(0x5030, "y")));
    let a = symbolize_profile(&profile, &plain, None, None);
    let b = symbolize_profile(&profile, &padded, None, None);
    let names = |ranges: &Vec<Record>, hits: &Vec<RangeHit>| -> Vec<(String, Option<u32>)> {
        hits.iter()
            .map(|h| match &ranges[h.record_index] {
                Record::Range(r) => (r.func.clone(), h.line),
                Record::ReturnPad(_) => panic!("a hit names a return pad"),
            })
            .collect()
    };
    for (sa, sb) in a.iter().zip(b.iter()) {
        for (la, lb) in sa.locations.iter().zip(sb.locations.iter()) {
            assert_eq!(names(&plain, &la.range_hits), names(&padded, &lb.range_hits));
        }
    }
    assert_eq!(
        names(&padded, &b[0].locations[0].range_hits),
        vec![("main".to_string(), Some(4)), ("inlined".to_string(), Some(9))]
    );
    assert_eq!(b[0].locations[0].range_hits[0].record_index, 1);
}
