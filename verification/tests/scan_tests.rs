use loc_counter::aggregate::AggregationState;
use loc_counter::registry::{LanguageEntry, Registry};
use loc_counter::report::into_sorted_report;
use loc_counter::scan::{scan_files, ScannedFile};

fn entry(name: &str, exts: &[&str]) -> LanguageEntry {
    LanguageEntry {
        name: name.to_string(),
        extensions: exts.iter().map(|e| e.to_string()).collect(),
    }
}

fn rust_registry() -> Registry {
    Registry::new(vec![entry("Rust", &[".rs"])])
}

fn text(name: &str, content: &[u8]) -> ScannedFile {
    ScannedFile { name: name.to_string(), content: Some(content.to_vec()) }
}

fn binary(name: &str) -> ScannedFile {
    ScannedFile { name: name.to_string(), content: None }
}

#[test]
fn scenario_two_files() {
    // a.rs with two segments and b.unknownext with one: three lines in
    // all, two under Rust and one under Unknown.
    let reg = rust_registry();
    let files = vec![text("a.rs", b"fn main(){}\n"), text("b.unknownext", b"x")];
    let st = scan_files(&reg, &files).unwrap();
    assert_eq!(st.total_lines, 3);
    assert_eq!(st.get(&"Rust".to_string()), Some(2));
    assert_eq!(st.get(&"Unknown".to_string()), Some(1));
}

#[test]
fn unmatched_extension_goes_to_unknown() {
    let reg = rust_registry();
    let files = vec![text("data.xyz", b"1\n2\n3\n")];
    let st = scan_files(&reg, &files).unwrap();
    assert_eq!(st.total_lines, 4);
    assert_eq!(st.get(&"Unknown".to_string()), Some(4));
    assert_eq!(st.get(&"Rust".to_string()), None);
}

#[test]
fn file_without_extension_goes_to_unknown() {
    let reg = rust_registry();
    let files = vec![text("README", b"hello\n")];
    let st = scan_files(&reg, &files).unwrap();
    assert_eq!(st.get(&"Unknown".to_string()), Some(2));
}

#[test]
fn binary_file_contributes_nothing() {
    let reg = rust_registry();
    let files = vec![text("a.rs", b"ok\n"), binary("blob.rs"), binary("image.png")];
    let st = scan_files(&reg, &files).unwrap();
    assert_eq!(st.total_lines, 2);
    assert_eq!(st.get(&"Rust".to_string()), Some(2));
    assert_eq!(st.get(&"Unknown".to_string()), None);
}

#[test]
fn empty_file_adds_one_to_its_bucket() {
    let reg = rust_registry();
    let files = vec![text("empty.rs", b"")];
    let st = scan_files(&reg, &files).unwrap();
    assert_eq!(st.total_lines, 1);
    assert_eq!(st.get(&"Rust".to_string()), Some(1));
}

#[test]
fn empty_scan_is_empty() {
    let reg = rust_registry();
    let files: Vec<ScannedFile> = Vec::new();
    let st = scan_files(&reg, &files).unwrap();
    assert_eq!(st.total_lines, 0);
    assert_eq!(st.get(&"Rust".to_string()), None);
    assert!(into_sorted_report(st).is_empty());
}

#[test]
fn scanning_twice_is_identical() {
    let reg = Registry::new(vec![entry("Rust", &[".rs"]), entry("C", &[".c", ".h"])]);
    let files = vec![
        text("a.rs", b"one\ntwo\n"),
        text("b.c", b"int x;\n"),
        binary("blob"),
        text("c.h", b"#pragma once\n"),
        text("notes.txt", b"hi"),
    ];
    let st1 = scan_files(&reg, &files).unwrap();
    let st2 = scan_files(&reg, &files).unwrap();
    assert_eq!(st1.total_lines, st2.total_lines);
    let r1 = into_sorted_report(st1);
    let r2 = into_sorted_report(st2);
    assert_eq!(r1.len(), r2.len());
    for (a, b) in r1.iter().zip(r2.iter()) {
        assert_eq!(a.0, b.0);
        assert_eq!(a.1, b.1);
    }
}

#[test]
fn bucket_counts_sum_to_total() {
    let reg = Registry::new(vec![entry("Rust", &[".rs"]), entry("C", &[".c"])]);
    let files = vec![
        text("a.rs", b"1\n2\n3\n"),
        text("b.c", b"x"),
        text("strange.bin", b"\n\n"),
        text("d.rs", b""),
    ];
    let st = scan_files(&reg, &files).unwrap();
    let total: u64 = st.total_lines;
    let report = into_sorted_report(st);
    let sum: u64 = report.iter().map(|p| p.1).sum();
    assert_eq!(sum, total);
    for p in &report {
        assert!(p.1 <= total);
    }
}

#[test]
fn sorted_report_descends_by_count() {
    let reg = Registry::new(vec![
        entry("Rust", &[".rs"]),
        entry("C", &[".c"]),
        entry("Python", &[".py"]),
    ]);
    let files = vec![
        text("a.c", b"1\n"),
        text("b.py", b"1\n2\n3\n4\n"),
        text("c.rs", b"1\n2\n"),
        text("d.xyz", b"1\n2\n3\n4\n5\n6\n"),
    ];
    let st = scan_files(&reg, &files).unwrap();
    let report = into_sorted_report(st);
    assert_eq!(report.len(), 4);
    for w in report.windows(2) {
        assert!(w[0].1 >= w[1].1);
    }
    assert_eq!(report[0].0, "Unknown");
    assert_eq!(report[0].1, 7);
    assert_eq!(report[1].0, "Python");
    assert_eq!(report[1].1, 5);
    assert_eq!(report[2].0, "Rust");
    assert_eq!(report[2].1, 3);
    assert_eq!(report[3].0, "C");
    assert_eq!(report[3].1, 2);
}

#[test]
fn process_file_accumulates() {
    let reg = rust_registry();
    let mut st = AggregationState::new();
    st.process_file(&reg, "a.rs", b"fn main(){}\n");
    st.process_file(&reg, "b.rs", b"mod a;\n");
    st.process_file(&reg, "notes", b"x");
    assert_eq!(st.total_lines, 5);
    assert_eq!(st.get(&"Rust".to_string()), Some(4));
    assert_eq!(st.get(&"Unknown".to_string()), Some(1));
}

#[test]
fn same_language_under_two_extensions_shares_a_bucket() {
    let reg = Registry::new(vec![entry("C", &[".c", ".h"])]);
    let files = vec![text("a.c", b"1\n"), text("a.h", b"2\n")];
    let st = scan_files(&reg, &files).unwrap();
    assert_eq!(st.get(&"C".to_string()), Some(4));
    assert_eq!(st.total_lines, 4);
}
