use libvrs::fuzzy::{fuzzy_match_args, match_excerpt_args, sort_matches_args};
use libvrs::fuzzy::{excerpt, match_excerpt, sort_matches, FuzzyError};
use libvrs::text::{compact_whitespace, eq_ignore_ascii_case, trim};
use libvrs::value::Val;

fn s(t: &str) -> Val {
    Val::String(t.to_string())
}

fn matched(t: &str) -> Val {
    Val::List(vec![Val::Keyword("match".to_string()), s(t)])
}

#[test]
fn trims_and_compacts_whitespace() {
    assert_eq!(trim("  a b \t\n"), "a b");
    assert_eq!(trim("   "), "");
    assert_eq!(compact_whitespace("  the  quick\n\tfox  "), "the quick fox");
    assert_eq!(compact_whitespace(""), "");
    assert!(eq_ignore_ascii_case("Foo", "fOO"));
    assert!(!eq_ignore_ascii_case("Foo", "Fooo"));
}

#[test]
fn blank_query_has_no_excerpt() {
    assert_eq!(match_excerpt("  ", "some text"), Val::Nil);
    assert_eq!(match_excerpt("zzz", "some text"), Val::Nil);
}

#[test]
fn excerpt_marks_the_match() {
    assert_eq!(
        match_excerpt("fox", "the quick  brown fox jumps"),
        Val::List(vec![s("the quick brown "), matched("fox"), s(" jumps")])
    );
}

#[test]
fn long_text_is_cut_around_the_match() {
    let text = format!("{}needle{}", "a".repeat(100), "b".repeat(300));
    let excerpt = match_excerpt("needle", &text);
    let Val::List(spans) = excerpt else {
        panic!("expected spans");
    };
    let ellipsis = s("\u{2026}");
    assert_eq!(spans.first(), Some(&ellipsis));
    assert_eq!(spans.last(), Some(&ellipsis));
    assert_eq!(spans[1], s(&"a".repeat(32)));
    assert_eq!(spans[2], matched("needle"));
    assert_eq!(spans[3], s(&"b".repeat(160 - 32 - 6)));
    assert_eq!(spans.len(), 5);
}

#[test]
fn exact_fields_rank_first() {
    let items = vec![Val::Int(0), Val::Int(1), Val::Int(2), Val::Int(3)];
    let keys = vec![s("bar"), s("xfoox"), s("Foo"), Val::List(vec![s("zzz"), s("foo bar")])];
    let ranked = sort_matches("foo", &items, &keys).unwrap();
    assert_eq!(ranked[0], Val::Int(2), "the exact field ranks first");
    assert!(!ranked.contains(&Val::Int(0)));
    assert_eq!(ranked.len(), 3);
}

#[test]
fn keys_must_be_text() {
    let items = vec![Val::Int(0), Val::Int(1)];
    let keys = vec![s("a"), Val::Int(5)];
    assert_eq!(sort_matches("a", &items, &keys), Err(FuzzyError::NotText));
    let keys = vec![s("a"), Val::List(vec![s("b"), Val::Nil])];
    assert_eq!(sort_matches("a", &items, &keys), Err(FuzzyError::NotText));
}

#[test]
fn empty_query_keeps_every_item_in_order() {
    let items = vec![Val::Int(0), Val::Int(1), Val::Int(2)];
    let keys = vec![s("c"), s("b"), s("a")];
    assert_eq!(
        sort_matches("", &items, &keys),
        Ok(vec![Val::Int(0), Val::Int(1), Val::Int(2)])
    );
}

fn span_text(v: &Val) -> String {
    match v {
        Val::String(t) => t.clone(),
        Val::List(items) => match &items[1] {
            Val::String(t) => t.clone(),
            _ => panic!("span without text"),
        },
        _ => panic!("not a span"),
    }
}

#[test]
fn excerpt_spans_cover_the_text() {
    let text = "  flying   over the lazy dog, the fox   jumps ";
    let Val::List(spans) = match_excerpt("fo jm", text) else {
        panic!("expected spans");
    };
    let joined: String = spans.iter().map(span_text).collect();
    assert_eq!(joined, compact_whitespace(text));
    assert!(spans.iter().any(|s| matches!(s, Val::List(_))));
}

#[test]
fn unicode_whitespace_is_trimmed() {
    assert_eq!(trim("\u{3000}a\u{00a0}b\u{2029}"), "a\u{00a0}b");
    assert_eq!(trim("\u{200b}a"), "\u{200b}a");
    assert_eq!(compact_whitespace("a\u{2003}\u{85}b"), "a b");
}

#[test]
fn excerpt_marks_the_matched_graphemes() {
    let gs: Vec<String> = ["a", "b", "c", "d"].iter().map(|g| g.to_string()).collect();
    let span = |t: &str| Val::String(t.to_string());
    let matched = |t: &str| Val::List(vec![Val::Keyword("match".to_string()), Val::String(t.to_string())]);
    assert_eq!(
        excerpt(&gs, Some(10), &vec![2, 1, 1]),
        Val::List(vec![span("a"), matched("bc"), span("d")])
    );
    assert_eq!(excerpt(&gs, None, &vec![1]), Val::Nil);
    assert_eq!(excerpt(&gs, Some(3), &vec![]), Val::Nil);
    let long: Vec<String> = (0..200).map(|i| if i == 40 { "x".to_string() } else { "y".to_string() }).collect();
    match excerpt(&long, Some(1), &vec![40]) {
        Val::List(items) => {
            assert_eq!(items.first(), Some(&span("\u{2026}")));
            assert_eq!(items.last(), Some(&span("\u{2026}")));
            assert_eq!(items[2], matched("x"));
        }
        _ => panic!("a match gives an excerpt"),
    }
}

#[test]
fn fuzzy_bindings_check_their_arguments() {
    let items = Val::List(vec![s("a")]);
    let key = Val::Symbol("first".to_string());
    assert_eq!(
        fuzzy_match_args(&vec![s("q"), items.duplicate(), key.duplicate()]).unwrap(),
        ("q".to_string(), vec![s("a")], key.duplicate())
    );
    let e = fuzzy_match_args(&vec![s("q"), s("a"), key.duplicate()]).unwrap_err();
    assert_eq!(e, FuzzyError::FuzzyMatchArguments);
    assert_eq!(e.message(), "fuzzy_match expects text, items, and a key function");
    assert_eq!(
        sort_matches_args(&vec![s("q"), items.duplicate(), Val::List(vec![s("a")])]).unwrap(),
        ("q".to_string(), vec![s("a")], vec![s("a")])
    );
    assert_eq!(sort_matches_args(&vec![s("q"), items, key]).unwrap_err(), FuzzyError::NotText);
    assert_eq!(
        match_excerpt_args(&vec![s("q"), s("text")]).unwrap(),
        ("q".to_string(), "text".to_string())
    );
    let e = match_excerpt_args(&vec![s("q")]).unwrap_err();
    assert_eq!(e, FuzzyError::ExcerptArguments);
    assert_eq!(e.message(), "match_excerpt expects query and text");
}
