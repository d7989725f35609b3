use regex::RegexBuilder;
use spac_update::entry::locate_entry;
use spac_update::expr::{prepare_pkg_expr, PkgParams};
use spac_update::upsert::upsert;

/// The entry of `name` as a pattern: the name behind a blank, then the
/// template through the list and two quoted fields.
fn pattern_spans(name: &str, text: &str) -> Vec<(usize, usize)> {
    let pattern = RegexBuilder::new(&format!(
        r#"( {} =\s*mkPackage\s*\[[^\]]*\][^"]*"[^\s]*"\s*"[^\s]*")"#,
        regex::escape(name)
    ))
    .dot_matches_new_line(true)
    .build()
    .unwrap();
    pattern.find_iter(text).map(|m| (m.start(), m.end())).collect()
}

const FILE: &str = "let mkPackage = ./../mkPackage.dhall in { effect = mkPackage\n[ \"prelude\" ]\n\"https://github.com/purescript/purescript-effect.git\"\n\"v2.0.0\"\n, prelude = mkPackage\n[]\n\"https://github.com/purescript/purescript-prelude.git\"\n\"v5.0.0\"\n, foo-bar = mkPackage [ \"a\", \"b\" ] \"https://x.y/o/foo-bar.git\" \"v0.1.0\" }\n";

#[test]
fn scanner_and_pattern_find_the_same_entries() {
    for name in ["effect", "prelude", "foo-bar"] {
        let spans = pattern_spans(name, FILE);
        assert_eq!(spans.len(), 1);
        let span = locate_entry(FILE.as_bytes(), name.as_bytes()).unwrap();
        // the pattern takes the blank in front of the name with it
        assert_eq!(span.start, spans[0].0 + 1);
        assert_eq!(span.end(), spans[0].1);
    }
}

#[test]
fn scanner_and_pattern_miss_the_same_names() {
    for name in ["console", "foo", "prelud", "relude", "mkPackage"] {
        assert_eq!(pattern_spans(name, FILE), vec![]);
        assert!(locate_entry(FILE.as_bytes(), name.as_bytes()).is_err());
    }
}

#[test]
fn scanner_finds_the_entry_behind_a_brace_where_the_pattern_needs_a_blank() {
    let params = PkgParams {
        name: b"prelude".to_vec(),
        dependencies: b"[]".to_vec(),
        url: b"https://github.com/purescript/purescript-prelude".to_vec(),
        version: b"6.0.1".to_vec(),
    };
    let expr = prepare_pkg_expr(&params).0;
    let file = upsert(None, b"prelude", &expr, false).unwrap();
    let text = String::from_utf8(file.clone()).unwrap();
    assert_eq!(pattern_spans("prelude", &text), vec![]);
    assert_eq!(locate_entry(&file, b"prelude").unwrap().start, 41);
}

#[test]
fn replacement_agrees_with_the_pattern_behind_the_blank() {
    let new_entry = "prelude = mkPackage\n[]\n\"https://github.com/purescript/purescript-prelude.git\"\n\"v6.0.1\"";
    let spans = pattern_spans("prelude", FILE);
    let mut expected = String::new();
    expected.push_str(&FILE[..spans[0].0 + 1]);
    expected.push_str(new_entry);
    expected.push_str(&FILE[spans[0].1..]);
    let out = upsert(Some(FILE.as_bytes()), b"prelude", new_entry.as_bytes(), true).unwrap();
    assert_eq!(out, expected.into_bytes());
}
