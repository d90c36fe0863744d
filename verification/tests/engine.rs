use asset_relocator::engine::{Reply, Request, Rewriter};
use asset_relocator::relocate::{digest, tag};
use std::collections::BTreeSet;

/// A file system held in memory: a set of files, by their absolute paths.
struct Disk {
    files: BTreeSet<String>,
    read_only: bool,
    asked: Vec<String>,
    copied: Vec<(String, String)>,
}

fn normal(path: &str) -> String {
    let mut parts: Vec<&str> = Vec::new();
    for part in path.split('/') {
        if part.is_empty() || part == "." {
            continue;
        }
        if part == ".." {
            parts.pop();
        } else {
            parts.push(part);
        }
    }
    format!("/{}", parts.join("/"))
}

impl Disk {
    fn with(files: &[&str]) -> Disk {
        Disk {
            files: files.iter().map(|f| f.to_string()).collect(),
            read_only: false,
            asked: Vec::new(),
            copied: Vec::new(),
        }
    }

    fn is_dir(&self, path: &str) -> bool {
        let below = format!("{}/", path.trim_end_matches('/'));
        self.files.iter().any(|f| f.starts_with(&below))
    }

    fn has(&self, path: &str) -> bool {
        let n = normal(path);
        self.files.contains(&n) || self.is_dir(&n)
    }

    fn answer(&mut self, request: Request) -> Option<Reply> {
        match request {
            Request::Canonicalize(path) => {
                self.asked.push(format!("canonicalize {}", path));
                let n = normal(&path);
                Some(Reply::Canonical(if self.has(&n) { Some(n) } else { None }))
            }
            Request::Exists(path) => {
                self.asked.push(format!("exists {}", path));
                Some(Reply::Exists(self.has(&path)))
            }
            Request::Copy { from, to } => {
                self.asked.push(format!("copy {} {}", from, to));
                let done = !self.read_only && self.files.contains(&normal(&from));
                if done {
                    self.files.insert(normal(&to));
                    self.copied.push((from, to));
                }
                Some(Reply::Copied(done))
            }
            Request::Finished => None,
        }
    }
}

fn run(text: &str, base: &str, assets: Option<&str>, disk: &mut Disk) -> (String, Vec<String>) {
    let mut engine = Rewriter::new(text, base, assets);
    let mut steps = 0;
    while let Some(reply) = disk.answer(engine.request()) {
        engine = engine.reply(reply);
        steps += 1;
        assert!(steps < 10_000, "the engine does not come to an end");
    }
    assert!(engine.is_finished());
    (engine.text(), engine.failures())
}

fn tag_of(source: &str) -> String {
    tag(digest(source)).iter().collect()
}

fn is_tag(t: &str) -> bool {
    t.len() == 8 && t.chars().all(|c| c.is_ascii_digit() || ('a'..='f').contains(&c))
}

#[test]
fn a_local_image_is_copied_and_referenced_under_assets() {
    let mut disk = Disk::with(&["/proj/img/My_Logo.png"]);
    let (out, failures) =
        run("![logo](../img/My_Logo.png)", "/proj/docs", Some("/out/assets"), &mut disk);
    assert_eq!(out, "![logo](/assets/My_Logo.png)");
    assert!(failures.is_empty());
    assert!(disk.files.contains("/out/assets/My_Logo.png"));
    assert_eq!(
        disk.copied,
        vec![("/proj/img/My_Logo.png".to_string(), "/out/assets/My_Logo.png".to_string())]
    );
}

#[test]
fn a_file_name_with_a_space_is_sanitized_on_the_way() {
    let mut disk = Disk::with(&["/proj/img/My Logo.png"]);
    let (out, failures) = run(
        "<img src=\"../img/My Logo.png\">",
        "/proj/docs",
        Some("/out/assets"),
        &mut disk,
    );
    assert_eq!(out, "<img src=\"/assets/My-Logo.png\">");
    assert!(failures.is_empty());
    assert!(disk.files.contains("/out/assets/My-Logo.png"));
    assert_eq!(
        disk.asked,
        vec![
            "canonicalize /proj/docs/../img/My Logo.png",
            "exists /out/assets/My-Logo.png",
            "copy /proj/img/My Logo.png /out/assets/My-Logo.png",
        ]
    );
}

#[test]
fn a_markdown_destination_ends_at_its_first_space() {
    let mut disk = Disk::with(&["/proj/img/My Logo.png"]);
    let text = "![logo](../img/My Logo.png)";
    let (out, failures) = run(text, "/proj/docs", Some("/out/assets"), &mut disk);
    assert_eq!(out, text);
    assert_eq!(failures, vec!["../img/My".to_string()]);
    assert!(disk.copied.is_empty());
    assert_eq!(disk.files.len(), 1);
    let mut disk = Disk::with(&["/proj/img/My"]);
    let (out, failures) = run(text, "/proj/docs", Some("/out/assets"), &mut disk);
    assert_eq!(out, "![logo](/assets/My Logo.png)");
    assert!(failures.is_empty());
}

#[test]
fn an_external_image_is_left_alone() {
    let mut disk = Disk::with(&[]);
    let text = "<img src=\"http://example.com/x.png\">";
    let (out, failures) = run(text, "/proj/docs", Some("/out/assets"), &mut disk);
    assert_eq!(out, text);
    assert!(failures.is_empty());
    assert!(disk.asked.is_empty());
    assert!(disk.files.is_empty());
}

#[test]
fn external_references_are_left_alone_in_every_syntax() {
    let mut disk = Disk::with(&[]);
    let text = "![a](https://example.com/a.png \"t\") <img alt='x' src='data:image/png;base64,AA=='> #image(\"FILE:///x.png\")";
    let (out, failures) = run(text, "/proj/docs", Some("/out/assets"), &mut disk);
    assert_eq!(out, text);
    assert!(failures.is_empty());
    assert!(disk.asked.is_empty());
}

#[test]
fn a_bundled_asset_is_made_root_relative_without_a_copy() {
    let mut disk = Disk::with(&[]);
    let (out, failures) =
        run("#image(\"assets/diagram.svg\")", "/proj/docs", Some("/out/assets"), &mut disk);
    assert_eq!(out, "#image(\"/assets/diagram.svg\")");
    assert!(failures.is_empty());
    assert!(disk.asked.is_empty());
    assert!(disk.files.is_empty());
}

#[test]
fn the_second_of_two_images_with_one_name_gets_a_tag() {
    let mut disk = Disk::with(&["/proj/a/chart.png", "/proj/b/chart.png"]);
    let (out, failures) = run(
        "![one](a/chart.png) and ![two](b/chart.png)",
        "/proj",
        Some("/out/assets"),
        &mut disk,
    );
    assert!(failures.is_empty());
    let head = "![one](/assets/chart.png) and ![two](/assets/chart-";
    assert!(out.starts_with(head), "{}", out);
    assert!(out.ends_with(".png)"));
    let t = &out[head.len()..out.len() - ".png)".len()];
    assert!(is_tag(t), "{:?}", t);
    assert_eq!(t, tag_of("/proj/b/chart.png"));
    assert!(disk.files.contains("/out/assets/chart.png"));
    assert!(disk.files.contains(&format!("/out/assets/chart-{}.png", t)));
    assert_eq!(disk.copied.len(), 2);
    assert_ne!(disk.copied[0].1, disk.copied[1].1);
}

#[test]
fn a_file_inside_the_content_root_is_not_copied() {
    let mut disk = Disk::with(&["/out/img/a.png", "/out/assets/b.png"]);
    let (out, failures) = run(
        "![a](img/a.png) ![b](/out/assets/b.png) <img src=\"../out/img/a.png\">",
        "/out",
        Some("/out/assets"),
        &mut disk,
    );
    assert_eq!(out, "![a](/img/a.png) ![b](/assets/b.png) <img src=\"/img/a.png\">");
    assert!(failures.is_empty());
    assert!(disk.copied.is_empty());
    assert_eq!(disk.files.len(), 2);
    assert!(disk.asked.iter().all(|q| q.starts_with("canonicalize ")));
}

#[test]
fn the_second_run_and_every_later_one_give_the_same_document() {
    let mut disk = Disk::with(&["/proj/a/chart.png", "/proj/b/chart.png", "/proj/c.svg"]);
    let text = "![one](a/chart.png) <img src=\"b/chart.png\"> #image(\"c.svg\") ![x](https://e.org/x.png)";
    let (first, _) = run(text, "/proj", Some("/out/assets"), &mut disk);
    let (second, _) = run(text, "/proj", Some("/out/assets"), &mut disk);
    let after_second = disk.files.clone();
    let (third, _) = run(text, "/proj", Some("/out/assets"), &mut disk);
    assert_eq!(second, third);
    assert_eq!(disk.files, after_second);
    assert_ne!(first, second);
    let expected = format!(
        "![one](/assets/chart-{}.png) <img src=\"/assets/chart-{}.png\"> #image(\"/assets/c-{}.svg\") ![x](https://e.org/x.png)",
        tag_of("/proj/a/chart.png"),
        tag_of("/proj/b/chart.png"),
        tag_of("/proj/c.svg")
    );
    assert_eq!(second, expected);
}

#[test]
fn a_failed_copy_leaves_that_reference_as_it_stands() {
    let mut disk = Disk::with(&["/proj/there.png"]);
    let text = "![a](  missing.png  \"t\" ) ![b](there.png) <img  src='gone.png'>";
    let (out, failures) = run(text, "/proj", Some("/out/assets"), &mut disk);
    assert_eq!(out, "![a](  missing.png  \"t\" ) ![b](/assets/there.png) <img  src='gone.png'>");
    assert_eq!(failures, vec!["missing.png".to_string(), "gone.png".to_string()]);
    assert_eq!(disk.copied.len(), 1);
}

#[test]
fn where_nothing_can_be_written_the_document_comes_back_unchanged() {
    let mut disk = Disk::with(&["/proj/a.png", "/proj/b.png"]);
    disk.read_only = true;
    let text = "x ![a](a.png) y <img src=\"b.png\"> z #fig( 'a.png' )";
    let (out, failures) = run(text, "/proj", Some("/out/assets"), &mut disk);
    assert_eq!(out, text);
    assert_eq!(failures.len(), 3);
    assert_eq!(disk.files.len(), 2);
}

#[test]
fn without_an_assets_directory_absolute_paths_are_written() {
    let mut disk = Disk::with(&["/proj/img/a.png"]);
    let (out, failures) = run(
        "![a](img/a.png) ![b](my/b.png) <img src=\"../proj/img/a.png\">",
        "/proj",
        None,
        &mut disk,
    );
    assert_eq!(out, "![a](/proj/img/a.png) ![b](/proj/my/b.png) <img src=\"/proj/img/a.png\">");
    assert!(failures.is_empty());
    assert!(disk.copied.is_empty());
    assert!(disk.asked.iter().all(|q| q.starts_with("canonicalize ")));
}

#[test]
fn a_missing_file_is_still_resolved_as_well_as_can_be() {
    let mut disk = Disk::with(&[]);
    let (out, _) = run("![a](<../x/a.png>)", "/proj/docs", None, &mut disk);
    assert_eq!(out, "![a](</proj/docs/../x/a.png>)");
    let (out, _) = run("![a](../x/a(1).png)", "/proj/docs", None, &mut disk);
    assert_eq!(out, "![a](</proj/docs/../x/a(1>).png)");
    let (out, _) = run("<img src=\"../x/a b.png\">", "/proj/docs", None, &mut disk);
    assert_eq!(out, "<img src=\"/proj/docs/../x/a b.png\">");
}

#[test]
fn angle_brackets_are_kept_for_markdown() {
    let mut disk = Disk::with(&["/proj/a.png"]);
    let (out, _) = run("![a](<a.png> \"t\")", "/proj", Some("/out/assets"), &mut disk);
    assert_eq!(out, "![a](</assets/a.png> \"t\")");
    let (out, _) = run("![a](<assets/a.png>)", "/proj", Some("/out/assets"), &mut disk);
    assert_eq!(out, "![a](</assets/a.png>)");
}

#[test]
fn each_pass_reads_what_the_pass_before_wrote() {
    let mut disk = Disk::with(&["/proj/a.png", "/proj/b.png", "/proj/c.png"]);
    let text = "![<img src=\"a.png\">](b.png \"#image('c.png')\")";
    let (out, failures) = run(text, "/proj", Some("/out/assets"), &mut disk);
    assert_eq!(out, "![<img src=\"/assets/a.png\">](/assets/b.png \"#image('/assets/c.png')\")");
    assert!(failures.is_empty());
    assert_eq!(
        disk.copied.iter().map(|c| c.1.as_str()).collect::<Vec<_>>(),
        vec!["/out/assets/b.png", "/out/assets/a.png", "/out/assets/c.png"]
    );
}

#[test]
fn a_document_without_references_is_finished_at_once() {
    let text = "# Title\n\nJust text, [a link](x.html) and `code`.\n";
    let engine = Rewriter::new(text, "/proj", Some("/out/assets"));
    assert!(engine.is_finished());
    assert!(matches!(engine.request(), Request::Finished));
    assert_eq!(engine.text(), text);
    assert!(engine.failures().is_empty());
    let engine = Rewriter::new("", "", None);
    assert!(engine.is_finished());
    assert_eq!(engine.text(), "");
}

#[test]
fn the_engine_asks_one_thing_after_the_other() {
    let engine = Rewriter::new("![a](a.png)", "/proj", Some("/out/assets"));
    assert!(!engine.is_finished());
    match engine.request() {
        Request::Canonicalize(p) => assert_eq!(p, "/proj/a.png"),
        _ => panic!("expected a path to canonicalize"),
    }
    let engine = engine.reply(Reply::Canonical(Some("/real/a.png".to_string())));
    match engine.request() {
        Request::Exists(p) => assert_eq!(p, "/out/assets/a.png"),
        _ => panic!("expected a path to look for"),
    }
    let engine = engine.reply(Reply::Exists(true));
    let t = tag_of("/real/a.png");
    match engine.request() {
        Request::Copy { from, to } => {
            assert_eq!(from, "/real/a.png");
            assert_eq!(to, format!("/out/assets/a-{}.png", t));
        }
        _ => panic!("expected a copy"),
    }
    let engine = engine.reply(Reply::Copied(true));
    assert!(engine.is_finished());
    assert_eq!(engine.text(), format!("![a](/assets/a-{}.png)", t));
}

#[test]
fn an_answer_to_another_question_is_ignored() {
    let engine = Rewriter::new("![a](a.png)", "/proj", Some("/out/assets"));
    let engine = engine.reply(Reply::Exists(true));
    let engine = engine.reply(Reply::Copied(true));
    match engine.request() {
        Request::Canonicalize(p) => assert_eq!(p, "/proj/a.png"),
        _ => panic!("expected a path to canonicalize"),
    }
    let engine = engine.reply(Reply::Canonical(None));
    let engine = engine.reply(Reply::Canonical(None));
    let engine = engine.reply(Reply::Copied(true));
    assert!(matches!(engine.request(), Request::Exists(_)));
    let engine = engine.reply(Reply::Exists(false));
    let engine = engine.reply(Reply::Exists(true));
    match engine.request() {
        Request::Copy { from, to } => {
            assert_eq!(from, "/proj/a.png");
            assert_eq!(to, "/out/assets/a.png");
        }
        _ => panic!("expected a copy"),
    }
    let engine = engine.reply(Reply::Copied(false));
    assert!(engine.is_finished());
    let engine = engine.reply(Reply::Copied(true));
    assert!(engine.is_finished());
    assert_eq!(engine.text(), "![a](a.png)");
    assert_eq!(engine.failures(), vec!["a.png".to_string()]);
}

#[test]
fn the_text_between_references_is_never_touched() {
    let mut disk = Disk::with(&["/proj/a.png"]);
    let text = "  \u{e9}\t![a](a.png)\r\n\r\n<b>  bold </b> \\ ![broken](  <img src=> #image(a.png) \u{1f600}";
    let (out, _) = run(text, "/proj", Some("/out/assets"), &mut disk);
    assert_eq!(
        out,
        "  \u{e9}\t![a](/assets/a.png)\r\n\r\n<b>  bold </b> \\ ![broken](  <img src=> #image(a.png) \u{1f600}"
    );
}

#[test]
fn a_long_file_name_is_cut_at_the_stem() {
    let long = "n".repeat(180);
    let file = format!("/proj/{}.jpeg", long);
    let mut disk = Disk::with(&[file.as_str()]);
    let text = format!("<img src=\"{}.jpeg\">", long);
    let (out, _) = run(&text, "/proj", Some("/out/assets"), &mut disk);
    assert_eq!(out, format!("<img src=\"/assets/{}.jpeg\">", "n".repeat(100)));
}
