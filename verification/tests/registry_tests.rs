use loc_counter::registry::{extension_of, LanguageEntry, Registry};

fn entry(name: &str, exts: &[&str]) -> LanguageEntry {
    LanguageEntry {
        name: name.to_string(),
        extensions: exts.iter().map(|e| e.to_string()).collect(),
    }
}

fn sample_registry() -> Registry {
    Registry::new(vec![
        entry("Rust", &[".rs"]),
        entry("Python", &[".py", ".pyw"]),
        entry("C", &[".c", ".h"]),
    ])
}

#[test]
fn classify_known_extension() {
    let reg = sample_registry();
    assert_eq!(reg.classify(Some(b".rs")), Some(0));
    assert_eq!(reg.classify(Some(b".pyw")), Some(1));
    assert_eq!(reg.classify(Some(b".h")), Some(2));
}

#[test]
fn classify_absent_extension_is_none() {
    let reg = sample_registry();
    assert_eq!(reg.classify(None), None);
}

#[test]
fn classify_unmatched_extension_is_none() {
    let reg = sample_registry();
    assert_eq!(reg.classify(Some(b".xyz")), None);
}

#[test]
fn classify_is_case_sensitive() {
    let reg = sample_registry();
    assert_eq!(reg.classify(Some(b".RS")), None);
}

#[test]
fn classify_is_deterministic() {
    let reg = sample_registry();
    for _ in 0..3 {
        assert_eq!(reg.classify(Some(b".py")), Some(1));
        assert_eq!(reg.classify(Some(b".nope")), None);
    }
}

#[test]
fn classify_first_match_wins() {
    let reg = Registry::new(vec![entry("First", &[".x"]), entry("Second", &[".x"])]);
    assert_eq!(reg.classify(Some(b".x")), Some(0));
}

#[test]
fn classify_name_whole_path_component() {
    let reg = sample_registry();
    assert_eq!(reg.classify_name(b"main.rs"), Some(0));
    assert_eq!(reg.classify_name(b"README"), None);
    assert_eq!(reg.classify_name(b"data.xyz"), None);
}

#[test]
fn extension_of_simple_name() {
    assert_eq!(extension_of(b"main.rs"), Some(&b".rs"[..]));
}

#[test]
fn extension_of_name_without_dot() {
    assert_eq!(extension_of(b"Makefile"), None);
}

#[test]
fn extension_of_takes_last_dot() {
    assert_eq!(extension_of(b"archive.tar.gz"), Some(&b".gz"[..]));
}

#[test]
fn extension_of_leading_dot_name() {
    assert_eq!(extension_of(b".gitignore"), Some(&b".gitignore"[..]));
}

#[test]
fn extension_of_trailing_dot() {
    assert_eq!(extension_of(b"odd."), Some(&b"."[..]));
}
