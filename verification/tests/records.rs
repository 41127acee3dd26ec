use symblib::records::{
    all_records_are_return_pads, collect_records, index_records_by_va, return_pad_vec, sort_pads_by_va, LineTableEntry, Range,
    Record, ReturnPad, ReturnPadEntry,
};

fn range(elf_va: u64, length: u32, func: &str, table: &[(u32, u32)]) -> Range {
    Range {
        elf_va,
        length,
        func: func.to_string(),
        file: Some("/src/hello.c".to_string()),
        call_file: None,
        call_line: None,
        depth: 0,
        line_table: table
            .iter()
            .map(|&(offset, line_number)| LineTableEntry { offset, line_number })
            .collect(),
    }
}

fn pad(elf_va: u64, funcs: &[&str]) -> ReturnPad {
    ReturnPad {
        elf_va,
        entries: funcs
            .iter()
            .map(|f| ReturnPadEntry { func: f.to_string(), file: None, line: None })
            .collect(),
    }
}

fn va_of(r: &Record) -> u64 {
    match r {
        Record::Range(r) => r.elf_va,
        Record::ReturnPad(p) => p.elf_va,
    }
}

#[test]
fn line_number_is_that_of_the_last_row_not_past_the_offset() {
    let r = range(0x1000, 0x20, "main", &[(0, 10), (4, 11), (8, 12)]);
    assert_eq!(r.line_number_for_va(0x1000), Some(10));
    assert_eq!(r.line_number_for_va(0x1003), Some(10));
    assert_eq!(r.line_number_for_va(0x1004), Some(11));
    assert_eq!(r.line_number_for_va(0x1007), Some(11));
    assert_eq!(r.line_number_for_va(0x1008), Some(12));
    assert_eq!(r.line_number_for_va(0x101f), Some(12));
}

#[test]
fn line_number_before_the_range_or_its_first_row_is_none() {
    let r = range(0x1000, 0x20, "main", &[(2, 10), (4, 11)]);
    assert_eq!(r.line_number_for_va(0x0fff), None);
    assert_eq!(r.line_number_for_va(0x1000), None);
    assert_eq!(r.line_number_for_va(0x1001), None);
    assert_eq!(r.line_number_for_va(0x1002), Some(10));
    let empty = range(0x1000, 0x20, "main", &[]);
    assert_eq!(empty.line_number_for_va(0x1004), None);
}

#[test]
fn line_number_far_past_the_range_start_is_none() {
    let r = range(0x10, 0x20, "main", &[(0, 10)]);
    assert_eq!(r.line_number_for_va(0x10 + 0xffff_ffff), Some(10));
    assert_eq!(r.line_number_for_va(0x10 + 0x1_0000_0000), None);
    assert_eq!(r.line_number_for_va(u64::MAX), None);
}

#[test]
fn line_number_stops_at_the_first_row_past_the_offset() {
    // An unsorted table: the rows after the first one that exceeds the
    // offset are not looked at.
    let r = range(0, 0x40, "f", &[(0, 1), (10, 2), (4, 3)]);
    assert_eq!(r.line_number_for_va(5), Some(1));
    assert_eq!(r.line_number_for_va(12), Some(3));
}

#[test]
fn index_by_va_keeps_the_last_record_at_each_address() {
    let records = vec![
        Record::Range(range(0x100, 4, "first", &[])),
        Record::ReturnPad(pad(0x200, &["pad"])),
        Record::Range(range(0x100, 8, "second", &[])),
    ];
    let index = index_records_by_va(records);
    assert_eq!(index.len(), 2);
    match index.get(&0x100) {
        Some(Record::Range(r)) => {
            assert_eq!(r.func, "second");
            assert_eq!(r.length, 8);
        }
        _ => panic!("expected a range at 0x100"),
    }
    match index.get(&0x200) {
        Some(Record::ReturnPad(p)) => assert_eq!(p.entries[0].func, "pad"),
        _ => panic!("expected a return pad at 0x200"),
    }
    assert!(index.get(&0x300).is_none());
}

#[test]
fn index_of_no_records_is_empty() {
    assert!(index_records_by_va(Vec::new()).is_empty());
}

#[test]
fn collected_records_keep_file_and_record_order() {
    let first = vec![
        Record::Range(range(0x30, 1, "a", &[])),
        Record::ReturnPad(pad(0x10, &["b"])),
    ];
    let second: Vec<Record> = Vec::new();
    let third = vec![Record::Range(range(0x20, 1, "c", &[]))];
    let all = collect_records(vec![first, second, third]);
    let vas: Vec<u64> = all.iter().map(va_of).collect();
    assert_eq!(vas, vec![0x30, 0x10, 0x20]);
}

#[test]
fn return_pads_come_out_ordered_by_address() {
    // The return pads of a small inlined program, as a symbol file may list
    // them in any order.
    let records = vec![
        Record::ReturnPad(pad(2095, &["main"])),
        Record::ReturnPad(pad(1775, &["_start"])),
        Record::ReturnPad(pad(2119, &["main", "foo"])),
        Record::ReturnPad(pad(2031, &["print_hello_world"])),
        Record::ReturnPad(pad(2131, &["main"])),
        Record::ReturnPad(pad(1779, &["_start"])),
        Record::ReturnPad(pad(2083, &["main", "foo"])),
    ];
    let pads = return_pad_vec(records);
    let vas: Vec<u64> = pads.iter().map(|p| p.elf_va).collect();
    assert_eq!(vas, vec![1775, 1779, 2031, 2083, 2095, 2119, 2131]);
    assert_eq!(pads[3].entries.len(), 2);
    assert_eq!(pads[3].entries[1].func, "foo");
    assert_eq!(pads[2].entries[0].func, "print_hello_world");
}

#[test]
fn sorting_pads_keeps_every_pad_including_equal_addresses() {
    let pads = vec![pad(5, &["x"]), pad(1, &["y"]), pad(5, &["z"]), pad(0, &["w"])];
    let sorted = sort_pads_by_va(pads);
    let vas: Vec<u64> = sorted.iter().map(|p| p.elf_va).collect();
    assert_eq!(vas, vec![0, 1, 5, 5]);
    let mut names: Vec<String> = sorted.iter().map(|p| p.entries[0].func.clone()).collect();
    names.sort();
    assert_eq!(names, vec!["w", "x", "y", "z"]);
    assert!(sort_pads_by_va(Vec::new()).is_empty());
}

#[test]
fn return_pad_files_are_recognised() {
    assert!(all_records_are_return_pads(&vec![Record::ReturnPad(pad(1, &["a"]))]));
    assert!(all_records_are_return_pads(&Vec::new()));
    assert!(!all_records_are_return_pads(&vec![
        Record::ReturnPad(pad(1, &["a"])),
        Record::Range(range(2, 1, "f", &[])),
    ]));
}

#[test]
fn order_of_return_pads_in_the_file_does_not_matter() {
    let listed = |order: &[usize]| -> Vec<Record> {
        let all = [pad(2095, &["main"]), pad(1775, &["_start"]), pad(2083, &["main", "foo"]), pad(2031, &["p"])];
        order.iter().map(|&i| Record::ReturnPad(all[i].clone())).collect()
    };
    let a = return_pad_vec(listed(&[0, 1, 2, 3]));
    let b = return_pad_vec(listed(&[3, 2, 1, 0]));
    let key = |pads: &Vec<ReturnPad>| -> Vec<(u64, Vec<String>)> {
        pads.iter().map(|p| (p.elf_va, p.entries.iter().map(|e| e.func.clone()).collect())).collect()
    };
    assert_eq!(key(&a), key(&b));
    assert_eq!(a.iter().map(|p| p.elf_va).collect::<Vec<u64>>(), vec![1775, 2031, 2083, 2095]);
}
