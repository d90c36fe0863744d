use asset_relocator::sanitize::{is_safe_char, sanitize_filename};

fn only_safe(name: &str) -> bool {
    name.chars().all(|c| c.is_ascii_alphanumeric() || c == '-' || c == '_' || c == '.')
}

#[test]
fn safe_names_are_kept() {
    assert_eq!(sanitize_filename("diagram.svg"), "diagram.svg");
    assert_eq!(sanitize_filename("a-b_c.D9"), "a-b_c.D9");
    assert_eq!(sanitize_filename(".hidden"), ".hidden");
}

#[test]
fn a_space_becomes_a_hyphen() {
    assert_eq!(sanitize_filename("My Logo.png"), "My-Logo.png");
}

#[test]
fn a_run_becomes_one_hyphen() {
    assert_eq!(sanitize_filename("a  (1)!!.png"), "a-1-.png");
    assert_eq!(sanitize_filename("a/b\\c"), "a-b-c");
    assert_eq!(sanitize_filename("   "), "-");
}

#[test]
fn runs_at_both_ends_are_replaced_too() {
    assert_eq!(sanitize_filename(" a "), "-a-");
    assert_eq!(sanitize_filename("(x)"), "-x-");
}

#[test]
fn letters_outside_ascii_are_not_safe() {
    assert_eq!(sanitize_filename("r\u{e9}sum\u{e9}.pdf"), "r-sum-.pdf");
    assert_eq!(sanitize_filename("\u{56fe}\u{7247}.png"), "-.png");
}

#[test]
fn hyphens_of_the_name_are_not_merged_with_a_run() {
    assert_eq!(sanitize_filename("a- -b"), "a---b");
}

#[test]
fn the_empty_name_falls_back() {
    assert_eq!(sanitize_filename(""), "file.txt");
}

#[test]
fn long_names_are_not_cut() {
    let long = "x".repeat(500);
    assert_eq!(sanitize_filename(&long), long);
}

#[test]
fn the_result_is_never_empty_and_always_safe() {
    let samples = [
        "", " ", "a", "a b", "\t\n", "\u{1f600}", "..", "a//b", "#image(\"x\")", "C:\\x\\y.png",
        "--", "__", "a\u{0}b",
    ];
    for s in samples {
        let out = sanitize_filename(s);
        assert!(!out.is_empty(), "empty for {:?}", s);
        assert!(only_safe(&out), "unsafe {:?} for {:?}", out, s);
        assert!(out.chars().count() <= s.chars().count().max(8));
    }
}

#[test]
fn sanitizing_twice_changes_nothing_more() {
    let samples = ["", "a b", "  x  ", "r\u{e9}sum\u{e9}", "ok.png", "a((b))"];
    for s in samples {
        let once = sanitize_filename(s);
        assert_eq!(sanitize_filename(&once), once);
    }
}

#[test]
fn the_safe_characters_are_the_documented_ones() {
    for c in ['a', 'z', 'A', 'Z', '0', '9', '-', '_', '.'] {
        assert!(is_safe_char(c));
    }
    for c in [' ', '/', '\\', '(', ')', ':', '+', '~', '\u{e9}', '\u{0}', '@', '[', '`', '{'] {
        assert!(!is_safe_char(c));
    }
}
