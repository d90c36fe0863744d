use asset_relocator::preview::{rewrite_preview_images, Preview};
use regex::{Captures, Regex};

fn by_pattern(re: &Regex, text: &str) -> (String, Vec<(String, String)>) {
    let mut copies = Vec::new();
    let out = re.replace_all(text, |caps: &Captures| {
        let image_keyword = &caps[1];
        let path_with_quotes = &caps[2];
        let rest_of_args = &caps[3];
        let orig_path = path_with_quotes.trim_matches(|c| c == '"' || c == '\'');
        let filename = std::path::Path::new(orig_path)
            .file_name()
            .unwrap_or_default()
            .to_string_lossy()
            .to_string();
        copies.push((orig_path.to_string(), filename.clone()));
        format!("{}(\"images/{}\"{})", image_keyword, filename, rest_of_args)
    });
    (out.to_string(), copies)
}

fn pattern() -> Regex {
    Regex::new(r#"(#?image)\(\s*("[^"]+"|'[^']+')([^)]*)\)"#).unwrap()
}

fn copies_of(p: &Preview) -> Vec<(String, String)> {
    p.copies.iter().map(|c| (c.source.clone(), c.file_name.clone())).collect()
}

fn agree(re: &Regex, text: &str) {
    let expected = by_pattern(re, text);
    let found = rewrite_preview_images(text);
    assert_eq!(found.text, expected.0, "document for {:?}", text);
    assert_eq!(copies_of(&found), expected.1, "copies for {:?}", text);
}

struct Dice(u64);

impl Dice {
    fn roll(&mut self, n: usize) -> usize {
        self.0 = self.0.wrapping_mul(6364136223846793005).wrapping_add(1442695040888963407);
        ((self.0 >> 33) as usize) % n
    }

    fn text(&mut self, tokens: &[&str], most: usize) -> String {
        let n = self.roll(most + 1);
        let mut s = String::new();
        for _ in 0..n {
            s.push_str(tokens[self.roll(tokens.len())]);
        }
        s
    }
}

#[test]
fn an_image_call_points_into_the_images_directory() {
    let p = rewrite_preview_images("#image(\"/home/me/pics/cat.png\", width: 50%)");
    assert_eq!(p.text, "#image(\"images/cat.png\", width: 50%)");
    assert_eq!(
        copies_of(&p),
        vec![("/home/me/pics/cat.png".to_string(), "cat.png".to_string())]
    );
}

#[test]
fn the_call_needs_no_hash_sign() {
    let p = rewrite_preview_images("figure(image('a/b.svg'), caption: [x])");
    assert_eq!(p.text, "figure(image(\"images/b.svg\"), caption: [x])");
    assert_eq!(copies_of(&p), vec![("a/b.svg".to_string(), "b.svg".to_string())]);
}

#[test]
fn single_quotes_become_double_quotes_and_white_space_goes() {
    let p = rewrite_preview_images("#image( \n 'x.png' , fit: \"cover\" )");
    assert_eq!(p.text, "#image(\"images/x.png\" , fit: \"cover\" )");
}

#[test]
fn the_value_ends_at_the_quote_that_opened_it() {
    let p = rewrite_preview_images("#image(\"it's.png\")");
    assert_eq!(p.text, "#image(\"images/it's.png\")");
    assert_eq!(copies_of(&p), vec![("it's.png".to_string(), "it's.png".to_string())]);
    let p = rewrite_preview_images("#image('a\"b.png')");
    assert_eq!(p.text, "#image(\"images/a\"b.png\")");
}

#[test]
fn quote_characters_at_the_ends_of_the_value_are_dropped() {
    let p = rewrite_preview_images("#image(\"'a.png'\")");
    assert_eq!(p.text, "#image(\"images/a.png\")");
    assert_eq!(copies_of(&p), vec![("a.png".to_string(), "a.png".to_string())]);
    let p = rewrite_preview_images("#image(\"''\")");
    assert_eq!(p.text, "#image(\"images/\")");
    assert_eq!(copies_of(&p), vec![(String::new(), String::new())]);
}

#[test]
fn a_path_without_base_name_gives_an_empty_name() {
    let p = rewrite_preview_images("#image(\"a/..\")");
    assert_eq!(p.text, "#image(\"images/\")");
    assert_eq!(copies_of(&p), vec![("a/..".to_string(), String::new())]);
    let p = rewrite_preview_images("#image(\"/\")");
    assert_eq!(p.text, "#image(\"images/\")");
}

#[test]
fn what_is_no_image_call_is_left_alone() {
    for text in [
        "", "image", "#image", "#image(", "#image(\"a.png\"", "#image(\"\")", "#image(a.png)",
        "#image (\"a.png\")", "#Image(\"a.png\")", "#fig(\"a.png\")", "imag(\"a.png\")",
        "#image(\"a.png')", "#image(x, \"a.png\")",
    ] {
        let p = rewrite_preview_images(text);
        assert_eq!(p.text, text, "for {:?}", text);
        assert!(p.copies.is_empty(), "for {:?}", text);
    }
}

#[test]
fn every_call_is_rewritten_and_the_rest_is_kept() {
    let text = "= Title\n#image(\"a/1.png\")\ntext (with) parens\n  image('b/2.png', alt: \"two\") end\u{e9}";
    let p = rewrite_preview_images(text);
    assert_eq!(
        p.text,
        "= Title\n#image(\"images/1.png\")\ntext (with) parens\n  image(\"images/2.png\", alt: \"two\") end\u{e9}"
    );
    assert_eq!(
        copies_of(&p),
        vec![
            ("a/1.png".to_string(), "1.png".to_string()),
            ("b/2.png".to_string(), "2.png".to_string())
        ]
    );
}

#[test]
fn a_second_run_finds_the_images_where_the_first_put_them() {
    let once = rewrite_preview_images("#image(\"/x/y/z.png\", width: 1cm)");
    let twice = rewrite_preview_images(&once.text);
    assert_eq!(twice.text, once.text);
    assert_eq!(copies_of(&twice), vec![("images/z.png".to_string(), "z.png".to_string())]);
}

#[test]
fn image_calls_are_those_of_the_pattern() {
    let tokens = [
        "#", "image", "(", ")", " ", "\t", "\n", "\"", "'", "a.png", "#image(", "image(\"", "x/",
        "..", ".", "/", ",", "\u{e9}", "\u{3000}", "imag", "e", "\\",
    ];
    let re = pattern();
    let mut dice = Dice(5);
    for _ in 0..4000 {
        let text = dice.text(&tokens, 14);
        agree(&re, &text);
    }
}

#[test]
fn short_image_calls_are_read_as_by_the_pattern() {
    let alphabet = [" ", "\"", "'", "a", ")", "/", "#image(", "."];
    let re = pattern();
    let mut index = [0usize; 5];
    loop {
        let mut text = String::from("image(");
        for &i in index.iter() {
            text.push_str(alphabet[i]);
        }
        text.push_str("\")");
        agree(&re, &text);
        let mut k = 0;
        while k < index.len() {
            index[k] += 1;
            if index[k] < alphabet.len() {
                break;
            }
            index[k] = 0;
            k += 1;
        }
        if k == index.len() {
            break;
        }
    }
}
