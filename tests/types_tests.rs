use drift_core::types::{Language, Position, Range};

#[test]
fn extension_maps_to_language() {
    assert_eq!(Language::from_extension("ts"), Some(Language::TypeScript));
    assert_eq!(Language::from_extension("tsx"), Some(Language::TypeScript));
    assert_eq!(Language::from_extension("mjs"), Some(Language::JavaScript));
    assert_eq!(Language::from_extension("pyi"), Some(Language::Python));
    assert_eq!(Language::from_extension("java"), Some(Language::Java));
    assert_eq!(Language::from_extension("cs"), Some(Language::CSharp));
    assert_eq!(Language::from_extension("php"), Some(Language::Php));
    assert_eq!(Language::from_extension("go"), Some(Language::Go));
    assert_eq!(Language::from_extension("rs"), Some(Language::Rust));
    assert_eq!(Language::from_extension("hpp"), Some(Language::Cpp));
    assert_eq!(Language::from_extension("h"), Some(Language::C));
    assert_eq!(Language::from_extension("txt"), None);
    assert_eq!(Language::from_extension(""), None);
}

#[test]
fn extension_ignores_letter_case() {
    assert_eq!(Language::from_extension("TS"), Some(Language::TypeScript));
    assert_eq!(Language::from_extension("Py"), Some(Language::Python));
    assert_eq!(Language::from_extension("CPP"), Some(Language::Cpp));
}

#[test]
fn lowercase_extension_only_matches_exactly() {
    assert_eq!(Language::from_lowercase_extension("go"), Some(Language::Go));
    assert_eq!(Language::from_lowercase_extension("GO"), None);
}

#[test]
fn path_uses_text_after_last_dot() {
    assert_eq!(Language::from_path("src/app/main.ts"), Some(Language::TypeScript));
    assert_eq!(Language::from_path("lib.d.ts"), Some(Language::TypeScript));
    assert_eq!(Language::from_path("pkg/Handler.JAVA"), Some(Language::Java));
    assert_eq!(Language::from_path("archive.tar.gz"), None);
    assert_eq!(Language::from_path("Makefile"), None);
    assert_eq!(Language::from_path("c"), Some(Language::C));
    assert_eq!(Language::from_path("trailing."), None);
}

#[test]
fn range_new_sets_both_ends() {
    let r = Range::new(1, 2, 3, 4);
    assert_eq!(r.start, Position { line: 1, column: 2 });
    assert_eq!(r.end, Position { line: 3, column: 4 });
}
