use asset_relocator::relocate::{digest, tag};
use asset_relocator::resolve::{
    is_external_reference, locate, resolve, Candidate, LocalPath, Placement, ResolvedLocation,
};

fn external(raw: &str) -> bool {
    match resolve("/proj/docs", raw, true) {
        ResolvedLocation::External(s) => {
            assert_eq!(s, raw);
            true
        }
        _ => false,
    }
}

fn bundled(raw: &str, wrap: bool) -> String {
    match resolve("/proj/docs", raw, wrap) {
        ResolvedLocation::Bundled(s) => s,
        _ => panic!("not bundled: {:?}", raw),
    }
}

fn local(base: &str, raw: &str, wrap: bool) -> LocalPath {
    match resolve(base, raw, wrap) {
        ResolvedLocation::Local(l) => l,
        _ => panic!("not local: {:?}", raw),
    }
}

fn at(joined: &str) -> LocalPath {
    LocalPath { joined: joined.to_string(), angle: false, wrap: false }
}

fn root_relative(p: Placement) -> String {
    match p {
        Placement::RootRelative(s) => s,
        _ => panic!("not root-relative"),
    }
}

fn absolute(p: Placement) -> String {
    match p {
        Placement::Absolute(s) => s,
        _ => panic!("not absolute"),
    }
}

fn candidate(p: Placement) -> Candidate {
    match p {
        Placement::Relocate(c) => c,
        _ => panic!("not to be relocated"),
    }
}

#[test]
fn the_four_schemes_are_external() {
    assert!(external("http://example.com/x.png"));
    assert!(external("https://example.com/x.png"));
    assert!(external("data:image/png;base64,AAAA"));
    assert!(external("file:///tmp/x.png"));
}

#[test]
fn the_scheme_is_read_without_regard_to_case() {
    assert!(external("HTTP://EXAMPLE.COM/X.PNG"));
    assert!(external("HtTpS://example.com"));
    assert!(external("Data:text/plain,hi"));
    assert!(external("FILE:x"));
}

#[test]
fn white_space_round_an_external_reference_is_kept() {
    assert!(external("  https://example.com/x.png\t"));
    assert!(is_external_reference(" \n data:x"));
}

#[test]
fn what_only_looks_like_a_scheme_is_local() {
    assert!(!is_external_reference("http:/x"));
    assert!(!is_external_reference("httpx://x"));
    assert!(!is_external_reference("ftp://x"));
    assert!(!is_external_reference("a/http://x"));
    assert!(!is_external_reference("<http://x>"));
    assert!(!is_external_reference(""));
    assert!(!is_external_reference("file"));
    assert!(!is_external_reference("\u{212a}ttp://x"));
}

#[test]
fn an_external_reference_is_the_same_for_every_base_and_syntax() {
    for base in ["", "/", "/proj/docs", "C:\\proj"] {
        for wrap in [false, true] {
            match resolve(base, "https://example.com/a b.png", wrap) {
                ResolvedLocation::External(s) => assert_eq!(s, "https://example.com/a b.png"),
                _ => panic!("not external"),
            }
        }
    }
}

#[test]
fn a_bundled_asset_becomes_root_relative() {
    assert_eq!(bundled("assets/diagram.svg", false), "/assets/diagram.svg");
    assert_eq!(bundled("assets", false), "/assets");
    assert_eq!(bundled("  assets/a.png ", true), "/assets/a.png");
    assert_eq!(bundled("assets\\img\\a.png", false), "/assets/img/a.png");
}

#[test]
fn a_bundled_asset_is_wrapped_where_markdown_needs_it() {
    assert_eq!(bundled("<assets/a b.png>", true), "</assets/a b.png>");
    assert_eq!(bundled("<assets/a.png>", true), "</assets/a.png>");
    assert_eq!(bundled("assets/a(1).png", true), "</assets/a(1).png>");
    assert_eq!(bundled("assets/a b.png", true), "</assets/a b.png>");
}

#[test]
fn a_bundled_asset_is_never_wrapped_elsewhere() {
    assert_eq!(bundled("<assets/a b.png>", false), "/assets/a b.png");
    assert_eq!(bundled("assets/a(1).png", false), "/assets/a(1).png");
}

#[test]
fn only_the_directory_named_assets_is_bundled() {
    assert_eq!(local("/d", "assetsx/a.png", false).joined, "/d/assetsx/a.png");
    assert_eq!(local("/d", "Assets/a.png", false).joined, "/d/Assets/a.png");
    assert_eq!(local("/d", "/assets/a.png", false).joined, "/assets/a.png");
    assert_eq!(local("/d", "./assets/a.png", false).joined, "/d/./assets/a.png");
}

#[test]
fn a_relative_reference_is_joined_to_the_base() {
    let l = local("/proj/docs", "../img/logo.png", true);
    assert_eq!(l.joined, "/proj/docs/../img/logo.png");
    assert!(!l.angle);
    assert!(l.wrap);
    assert_eq!(local("/proj/docs/", "a.png", false).joined, "/proj/docs/a.png");
    assert_eq!(local("", "a.png", false).joined, "a.png");
    assert_eq!(local("/", "a.png", false).joined, "/a.png");
}

#[test]
fn a_rooted_reference_stands_for_itself() {
    assert_eq!(local("/proj/docs", "/abs/a.png", false).joined, "/abs/a.png");
    assert_eq!(local("/proj/docs", "C:\\img\\a.png", false).joined, "C:/img/a.png");
    assert_eq!(local("/proj/docs", "\\\\server\\a.png", false).joined, "//server/a.png");
    assert_eq!(local("/proj/docs", "c:a.png", false).joined, "c:a.png");
}

#[test]
fn angle_brackets_are_taken_off_and_remembered() {
    let l = local("/d", " <my img/a b.png> ", true);
    assert_eq!(l.joined, "/d/my img/a b.png");
    assert!(l.angle);
    let l = local("/d", "<>", true);
    assert_eq!(l.joined, "/d/");
    assert!(l.angle);
}

#[test]
fn a_lone_bracket_is_part_of_the_path() {
    let l = local("/d", "<", true);
    assert_eq!(l.joined, "/d/<");
    assert!(!l.angle);
    let l = local("/d", "<a", true);
    assert_eq!(l.joined, "/d/<a");
    assert!(!l.angle);
    let l = local("/d", "a>", true);
    assert_eq!(l.joined, "/d/a>");
    assert!(!l.angle);
}

#[test]
fn an_empty_reference_names_the_base() {
    assert_eq!(local("/d", "", false).joined, "/d/");
    assert_eq!(local("/d", "   ", false).joined, "/d/");
}

#[test]
fn a_file_in_the_content_root_is_referenced_in_place() {
    let p = locate(&at("/out/img/a.png"), Some("/out/img/a.png"), Some("/out/assets"));
    assert_eq!(root_relative(p), "/img/a.png");
}

#[test]
fn a_file_in_the_assets_directory_is_referenced_in_place() {
    let p = locate(&at("/out/assets/a.png"), Some("/out/assets/a.png"), Some("/out/assets"));
    assert_eq!(root_relative(p), "/assets/a.png");
    let p = locate(&at("/out/assets/x/y.png"), None, Some("/out/assets/"));
    assert_eq!(root_relative(p), "/assets/x/y.png");
}

#[test]
fn the_content_root_itself_is_the_root() {
    let p = locate(&at("/out"), Some("/out"), Some("/out/assets"));
    assert_eq!(root_relative(p), "/");
}

#[test]
fn a_neighbour_with_a_longer_name_is_not_inside() {
    let p = locate(&at("/output/a.png"), Some("/output/a.png"), Some("/out/assets"));
    let c = candidate(p);
    assert_eq!(c.source, "/output/a.png");
    assert_eq!(c.name, "a.png");
}

#[test]
fn under_the_top_directory_everything_is_inside() {
    let p = locate(&at("/x/a.png"), Some("/x/a.png"), Some("/assets"));
    assert_eq!(root_relative(p), "/x/a.png");
    let p = locate(&at("x/a.png"), None, Some("assets"));
    assert_eq!(root_relative(p), "/x/a.png");
}

#[test]
fn the_canonical_path_decides_where_it_is_given() {
    let p = locate(&at("/proj/docs/../../out/img/a.png"), Some("/out/img/a.png"), Some("/out/assets"));
    assert_eq!(root_relative(p), "/img/a.png");
    let p = locate(&at("/out/link/a.png"), Some("/elsewhere/a.png"), Some("/out/assets"));
    assert_eq!(candidate(p).source, "/elsewhere/a.png");
}

#[test]
fn without_a_canonical_path_the_joined_path_stands() {
    let p = locate(&at("/proj/docs/../img/a.png"), None, Some("/out/assets"));
    let c = candidate(p);
    assert_eq!(c.source, "/proj/docs/../img/a.png");
    assert_eq!(c.name, "a.png");
    assert_eq!(c.directory, "/out/assets");
}

#[test]
fn backslashes_and_verbatim_markers_are_read_over() {
    let p = locate(&at("x"), Some("\\\\?\\C:\\out\\img\\a.png"), Some("C:\\out\\assets"));
    assert_eq!(root_relative(p), "/img/a.png");
    let p = locate(&at("x"), Some("\\\\?\\C:\\data\\a.png"), None);
    assert_eq!(absolute(p), "C:/data/a.png");
}

#[test]
fn without_an_assets_directory_the_absolute_path_is_written() {
    let p = locate(&at("/proj/img/a.png"), Some("/proj/img/a.png"), None);
    assert_eq!(absolute(p), "/proj/img/a.png");
}

#[test]
fn the_absolute_path_is_wrapped_where_markdown_needs_it() {
    let l = LocalPath { joined: "/proj/my img/a.png".to_string(), angle: false, wrap: true };
    assert_eq!(absolute(locate(&l, None, None)), "</proj/my img/a.png>");
    let l = LocalPath { joined: "/proj/img/a.png".to_string(), angle: true, wrap: true };
    assert_eq!(absolute(locate(&l, None, None)), "</proj/img/a.png>");
    let l = LocalPath { joined: "/proj/my img/a.png".to_string(), angle: true, wrap: false };
    assert_eq!(absolute(locate(&l, None, None)), "/proj/my img/a.png");
}

#[test]
fn a_path_without_a_base_name_is_written_as_it_is() {
    let p = locate(&at("/proj/img/.."), None, Some("/out/assets"));
    assert_eq!(absolute(p), "/proj/img/..");
}

#[test]
fn the_base_name_is_sanitized() {
    let p = locate(&at("/proj/img/My Logo (1).png"), None, Some("/out/assets"));
    let c = candidate(p);
    assert_eq!(c.name, "My-Logo-1-.png");
    assert_eq!(c.source, "/proj/img/My Logo (1).png");
}

#[test]
fn trailing_slashes_and_dots_do_not_hide_the_base_name() {
    let p = locate(&at("/proj/img/a.png/"), None, Some("/out/assets"));
    assert_eq!(candidate(p).name, "a.png");
    let p = locate(&at("/proj/img/a.png/."), None, Some("/out/assets"));
    assert_eq!(candidate(p).name, "a.png");
}

#[test]
fn a_candidate_names_its_paths() {
    let c = candidate(locate(&at("/proj/img/chart.png"), None, Some("/out/assets")));
    assert_eq!(c.probe_path(), "/out/assets/chart.png");
    assert_eq!(c.file_name(false), "chart.png");
    assert_eq!(c.destination_path(false), "/out/assets/chart.png");
    assert_eq!(c.reference(false), "/assets/chart.png");
    let t: String = tag(digest("/proj/img/chart.png")).iter().collect();
    assert_eq!(c.file_name(true), format!("chart-{}.png", t));
    assert_eq!(c.destination_path(true), format!("/out/assets/chart-{}.png", t));
    assert_eq!(c.reference(true), format!("/assets/chart-{}.png", t));
}

#[test]
fn a_directory_with_a_trailing_slash_gets_no_second_one() {
    let c = candidate(locate(&at("/proj/img/chart.png"), None, Some("/out/assets/")));
    assert_eq!(c.probe_path(), "/out/assets/chart.png");
}

#[test]
fn the_reference_to_a_copy_keeps_the_angle_brackets_of_the_source() {
    let l = LocalPath { joined: "/proj/my img/a b.png".to_string(), angle: true, wrap: true };
    let c = candidate(locate(&l, None, Some("/out/assets")));
    assert_eq!(c.name, "a-b.png");
    assert_eq!(c.reference(false), "</assets/a-b.png>");
    let l = LocalPath { joined: "/proj/my img/a b.png".to_string(), angle: false, wrap: true };
    let c = candidate(locate(&l, None, Some("/out/assets")));
    assert_eq!(c.reference(false), "/assets/a-b.png");
}

#[test]
fn an_assets_directory_without_a_parent_has_no_content_root() {
    let p = locate(&at("/proj/a.png"), None, Some("/"));
    assert_eq!(candidate(p).directory, "/");
    let p = locate(&at("/proj/a.png"), None, Some(""));
    assert_eq!(candidate(p).probe_path(), "a.png");
}
