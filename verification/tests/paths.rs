use asset_relocator::paths::{
    base_name_of, child, is_under, joined, parent_of, quote, relative_of, rooted, strip_markers,
};
use asset_relocator::text::{chars_of, string_of, trimmed, with_forward_slashes};

fn chars(s: &str) -> Vec<char> {
    s.chars().collect()
}

fn text(v: Vec<char>) -> String {
    v.iter().collect()
}

fn base(p: &str) -> Option<String> {
    base_name_of(&chars(p)).map(text)
}

fn parent(p: &str) -> Option<String> {
    parent_of(&chars(p)).map(text)
}

#[test]
fn characters_and_strings_convert_both_ways() {
    for s in ["", "abc", "a\u{e9}\u{1f600}b", " \t"] {
        assert_eq!(chars_of(s), chars(s));
        assert_eq!(string_of(&chars(s)), s);
    }
}

#[test]
fn trimming_takes_unicode_white_space_off_both_ends() {
    assert_eq!(text(trimmed(&chars("  a b \t\n"))), "a b");
    assert_eq!(text(trimmed(&chars("\u{a0}\u{2003}x\u{3000}\u{85}"))), "x");
    assert_eq!(text(trimmed(&chars(" \t\r\n"))), "");
    assert_eq!(text(trimmed(&chars(""))), "");
    assert_eq!(text(trimmed(&chars("\u{200b}x"))), "\u{200b}x");
}

#[test]
fn trimming_agrees_with_the_standard_library() {
    let mut c: u32 = 0;
    while c < 0x3100 {
        if let Some(ch) = char::from_u32(c) {
            let s = format!("{}a{}", ch, ch);
            assert_eq!(text(trimmed(&chars(&s))), s.trim(), "for U+{:04X}", c);
        }
        c += 1;
    }
}

#[test]
fn backslashes_become_forward_slashes() {
    assert_eq!(text(with_forward_slashes(&chars("a\\b/c\\\\d"))), "a/b/c//d");
}

#[test]
fn the_base_name_is_the_last_component() {
    assert_eq!(base("/a/b/c.png"), Some("c.png".to_string()));
    assert_eq!(base("c.png"), Some("c.png".to_string()));
    assert_eq!(base("/a/b/"), Some("b".to_string()));
    assert_eq!(base("/a/b//"), Some("b".to_string()));
    assert_eq!(base("/a/b/."), Some("b".to_string()));
    assert_eq!(base("/a/./b/./"), Some("b".to_string()));
    assert_eq!(base("/a/..."), Some("...".to_string()));
    assert_eq!(base("/a/.b"), Some(".b".to_string()));
}

#[test]
fn some_paths_have_no_base_name() {
    assert_eq!(base(""), None);
    assert_eq!(base("/"), None);
    assert_eq!(base("//"), None);
    assert_eq!(base("."), None);
    assert_eq!(base("./"), None);
    assert_eq!(base(".."), None);
    assert_eq!(base("/a/.."), None);
    assert_eq!(base("/a/../"), None);
    assert_eq!(base("/a/../."), None);
}

#[test]
fn the_base_name_agrees_with_the_standard_library() {
    let paths = [
        "/a/b/c.png", "c.png", "/a/b/", "/a/b//", "/a/b/.", "/a/./b/./", "", "/", "//", ".",
        "./", "..", "/a/..", "/a/../", "a/b", "/a/...", "./a", "a/./", "/.a", "a/..b",
    ];
    for p in paths {
        let expected = std::path::Path::new(p).file_name().map(|n| n.to_str().unwrap().to_string());
        assert_eq!(base(p), expected, "for {:?}", p);
    }
}

#[test]
fn the_parent_is_the_path_without_its_last_component() {
    assert_eq!(parent("/out/assets"), Some("/out".to_string()));
    assert_eq!(parent("/out/assets/"), Some("/out".to_string()));
    assert_eq!(parent("/out//assets"), Some("/out".to_string()));
    assert_eq!(parent("/assets"), Some(String::new()));
    assert_eq!(parent("assets"), Some(String::new()));
    assert_eq!(parent("C:/out/assets"), Some("C:/out".to_string()));
    assert_eq!(parent("C:/assets"), Some("C:".to_string()));
    assert_eq!(parent("a/b/c"), Some("a/b".to_string()));
}

#[test]
fn the_top_has_no_parent() {
    assert_eq!(parent(""), None);
    assert_eq!(parent("/"), None);
    assert_eq!(parent("///"), None);
}

#[test]
fn lying_under_goes_by_whole_components() {
    assert!(is_under(&chars("/out/img/a.png"), &chars("/out")));
    assert!(is_under(&chars("/out"), &chars("/out")));
    assert!(is_under(&chars("/out/"), &chars("/out")));
    assert!(!is_under(&chars("/output/a.png"), &chars("/out")));
    assert!(!is_under(&chars("/ou"), &chars("/out")));
    assert!(!is_under(&chars("/x/out/a"), &chars("/out")));
    assert!(is_under(&chars("/anything"), &chars("")));
    assert!(is_under(&chars("relative"), &chars("")));
    assert!(is_under(&chars(""), &chars("")));
}

#[test]
fn the_relative_form_starts_with_a_slash() {
    assert_eq!(text(relative_of(&chars("/out/img/a.png"), &chars("/out"))), "/img/a.png");
    assert_eq!(text(relative_of(&chars("/out"), &chars("/out"))), "/");
    assert_eq!(text(relative_of(&chars("/a/b"), &chars(""))), "/a/b");
    assert_eq!(text(relative_of(&chars("a/b"), &chars(""))), "/a/b");
    assert_eq!(text(relative_of(&chars(""), &chars(""))), "/");
    assert_eq!(text(relative_of(&chars("/a"), &chars("/a/b/c"))), "/");
}

#[test]
fn rooted_paths_begin_with_a_slash_or_a_drive() {
    assert!(rooted(&chars("/a")));
    assert!(rooted(&chars("/")));
    assert!(rooted(&chars("C:/a")));
    assert!(rooted(&chars("c:")));
    assert!(!rooted(&chars("")));
    assert!(!rooted(&chars("a")));
    assert!(!rooted(&chars("a/b:c")));
    assert!(!rooted(&chars("./a")));
}

#[test]
fn joining_puts_one_slash_between() {
    assert_eq!(text(joined(&chars("/a"), &chars("b"))), "/a/b");
    assert_eq!(text(joined(&chars("/a/"), &chars("b"))), "/a/b");
    assert_eq!(text(joined(&chars(""), &chars("b"))), "b");
    assert_eq!(text(joined(&chars("/a"), &chars(""))), "/a/");
    assert_eq!(text(joined(&chars("/a"), &chars("/b"))), "/b");
    assert_eq!(text(joined(&chars("/a"), &chars("C:/b"))), "C:/b");
    assert_eq!(text(child(&chars("/a"), &chars("/b"))), "/a//b");
}

#[test]
fn joining_agrees_with_the_standard_library() {
    for base in ["/a", "/a/", "", "/", "a/b"] {
        for rel in ["b", "b/c", "", "/b", "../x", "./y"] {
            let expected = std::path::Path::new(base).join(rel);
            assert_eq!(
                text(joined(&chars(base), &chars(rel))),
                expected.to_str().unwrap(),
                "for {:?} and {:?}",
                base,
                rel
            );
        }
    }
}

#[test]
fn verbatim_markers_are_taken_off_the_front() {
    assert_eq!(text(strip_markers(&chars("//?/C:/a"))), "C:/a");
    assert_eq!(text(strip_markers(&chars("//?///?/C:/a"))), "C:/a");
    assert_eq!(text(strip_markers(&chars("/a//?/b"))), "/a//?/b");
    assert_eq!(text(strip_markers(&chars("//?"))), "//?");
    assert_eq!(text(strip_markers(&chars("//?/"))), "");
    assert_eq!(text(strip_markers(&chars(""))), "");
}

#[test]
fn quoting_wraps_only_for_markdown() {
    assert_eq!(text(quote(&chars("/a b"), true, false)), "</a b>");
    assert_eq!(text(quote(&chars("/a(b"), true, false)), "</a(b>");
    assert_eq!(text(quote(&chars("/a)b"), true, false)), "</a)b>");
    assert_eq!(text(quote(&chars("/ab"), true, true)), "</ab>");
    assert_eq!(text(quote(&chars("/ab"), true, false)), "/ab");
    assert_eq!(text(quote(&chars("/a b"), false, true)), "/a b");
    assert_eq!(text(quote(&chars("/a\tb"), true, false)), "/a\tb");
    assert_eq!(text(quote(&chars(""), true, true)), "<>");
}
