use asset_relocator::relocate::{destination_file_name, digest, split_name, tag};
use std::hash::Hasher;

fn chars(s: &str) -> Vec<char> {
    s.chars().collect()
}

fn text(v: &Vec<char>) -> String {
    v.iter().collect()
}

fn split(name: &str) -> (String, String) {
    let (stem, ext) = split_name(&chars(name));
    (text(&stem), text(&ext))
}

#[test]
fn a_name_splits_at_its_last_dot() {
    assert_eq!(split("chart.png"), ("chart".to_string(), "png".to_string()));
    assert_eq!(split("a.tar.gz"), ("a.tar".to_string(), "gz".to_string()));
}

#[test]
fn a_name_without_dot_has_no_extension() {
    assert_eq!(split("README"), ("README".to_string(), String::new()));
}

#[test]
fn a_leading_dot_starts_no_extension() {
    assert_eq!(split(".gitignore"), (".gitignore".to_string(), String::new()));
    assert_eq!(split(".a.b"), (".a".to_string(), "b".to_string()));
}

#[test]
fn a_trailing_dot_gives_an_empty_extension() {
    assert_eq!(split("a."), ("a".to_string(), String::new()));
    assert_eq!(split("..."), ("..".to_string(), String::new()));
}

#[test]
fn directory_names_get_the_stem_file() {
    assert_eq!(split(""), ("file".to_string(), String::new()));
    assert_eq!(split("."), ("file".to_string(), String::new()));
    assert_eq!(split(".."), ("file".to_string(), String::new()));
}

#[test]
fn the_stem_agrees_with_the_standard_library() {
    let names = ["chart.png", "a.tar.gz", "README", ".gitignore", ".a.b", "a.", "...", "a..b", "-"];
    for name in names {
        let p = std::path::Path::new(name);
        let stem = p.file_stem().and_then(|s| s.to_str()).unwrap_or("file");
        let ext = p.extension().and_then(|s| s.to_str()).unwrap_or("");
        assert_eq!(split(name), (stem.to_string(), ext.to_string()), "for {:?}", name);
    }
}

#[test]
fn a_long_stem_is_cut_to_a_hundred_characters() {
    let name = format!("{}.png", "a".repeat(150));
    let (stem, ext) = split(&name);
    assert_eq!(stem, "a".repeat(100));
    assert_eq!(ext, "png");
    let exact = format!("{}.png", "b".repeat(100));
    assert_eq!(split(&exact).0, "b".repeat(100));
    let longer = format!("{}.png", "c".repeat(101));
    assert_eq!(split(&longer).0, "c".repeat(100));
}

#[test]
fn the_extension_is_never_cut() {
    let name = format!("a.{}", "e".repeat(300));
    assert_eq!(split(&name).1, "e".repeat(300));
}

#[test]
fn a_tag_is_the_eight_leading_hex_digits() {
    assert_eq!(text(&tag(0x0123_4567_89ab_cdef)), "12345678");
    assert_eq!(text(&tag(0xffff_ffff_ffff_ffff)), "ffffffff");
    assert_eq!(text(&tag(0xdead_beef_0000_0000)), "deadbeef");
    assert_eq!(text(&tag(0x1_0000_0000)), "10000000");
    assert_eq!(text(&tag(0xffff_ffff)), "ffffffff");
    assert_eq!(text(&tag(0xabc_def0_1234)), "abcdef01");
}

#[test]
fn a_small_hash_is_padded_with_zeros() {
    assert_eq!(text(&tag(0)), "00000000");
    assert_eq!(text(&tag(1)), "00000001");
    assert_eq!(text(&tag(0xabc)), "00000abc");
    assert_eq!(text(&tag(0xfff_ffff)), "0fffffff");
}

#[test]
fn a_tag_agrees_with_formatting_where_that_gives_eight_digits() {
    let mut x: u64 = 0x9e37_79b9_7f4a_7c15;
    for _ in 0..2000 {
        x = x.wrapping_mul(6364136223846793005).wrapping_add(1442695040888963407);
        let v = x >> (x % 40);
        let hex = format!("{:x}", v);
        let expected = if hex.len() >= 8 { hex[..8].to_string() } else { format!("{:0>8}", hex) };
        assert_eq!(text(&tag(v)), expected, "for {:#x}", v);
    }
}

#[test]
fn the_digest_is_that_of_the_default_hasher_on_the_path_bytes() {
    for path in ["", "/a/b/chart.png", "C:/x y/\u{e9}.png"] {
        let mut h = std::collections::hash_map::DefaultHasher::new();
        h.write(path.as_bytes());
        assert_eq!(digest(path), h.finish());
    }
}

#[test]
fn the_digest_depends_on_the_path() {
    assert_ne!(digest("/a/chart.png"), digest("/b/chart.png"));
    assert_eq!(digest("/a/chart.png"), digest("/a/chart.png"));
}

#[test]
fn a_free_name_is_used_as_it_is() {
    assert_eq!(destination_file_name("chart.png", "/a/chart.png", false), "chart.png");
    assert_eq!(destination_file_name("README", "/a/README", false), "README");
    assert_eq!(destination_file_name("a.", "/a/a.", false), "a");
}

#[test]
fn a_taken_name_gets_the_tag_behind_the_stem() {
    let source = "/a/chart.png";
    let t = text(&tag(digest(source)));
    assert_eq!(destination_file_name("chart.png", source, true), format!("chart-{}.png", t));
    assert_eq!(destination_file_name("README", source, true), format!("README-{}", t));
}

#[test]
fn the_tagged_name_has_the_documented_shape() {
    let name = destination_file_name("chart.png", "/one/chart.png", true);
    assert_eq!(name.len(), "chart-".len() + 8 + ".png".len());
    assert!(name.starts_with("chart-"));
    assert!(name.ends_with(".png"));
    let t = &name["chart-".len()..name.len() - ".png".len()];
    assert!(t.chars().all(|c| c.is_ascii_digit() || ('a'..='f').contains(&c)));
}

#[test]
fn two_sources_with_one_base_name_get_different_names() {
    let first = destination_file_name("chart.png", "/one/chart.png", false);
    let second = destination_file_name("chart.png", "/two/chart.png", true);
    assert_ne!(first, second);
}

#[test]
fn the_same_source_gets_the_same_name_every_time() {
    let a = destination_file_name("chart.png", "/one/chart.png", true);
    let b = destination_file_name("chart.png", "/one/chart.png", true);
    assert_eq!(a, b);
}

#[test]
fn the_tag_follows_the_cut_stem() {
    let name = format!("{}.png", "a".repeat(150));
    let out = destination_file_name(&name, "/x", true);
    let t = text(&tag(digest("/x")));
    assert_eq!(out, format!("{}-{}.png", "a".repeat(100), t));
}
