use libvrs::jsonform::{format_i128, from_form, to_form, Json};
use libvrs::text::{format_u128, parse_u64};
use libvrs::value::Val;

fn kw(s: &str) -> Val {
    Val::Keyword(s.to_string())
}

fn s(t: &str) -> Val {
    Val::String(t.to_string())
}

#[test]
fn large_numbers_travel_as_decimal_text() {
    assert_eq!(to_form(&Json::Int(42)), Val::Int(42));
    assert_eq!(to_form(&Json::Int(-7)), Val::Int(-7));
    assert_eq!(to_form(&Json::Int(4_294_967_296)), s("4294967296"));
    assert_eq!(to_form(&Json::Int(-3_000_000_000)), s("-3000000000"));
    assert_eq!(format_i128(i128::MIN), i128::MIN.to_string());
    assert_eq!(format_u128(u128::MAX), u128::MAX.to_string());
    assert_eq!(to_form(&Json::Float("1.5".into())), s("1.5"));
}

#[test]
fn objects_become_property_lists() {
    let record = Json::Object(vec![
        ("sequence".to_string(), Json::Int(5_000_000_000)),
        ("process".to_string(), Json::String("alpha".into())),
        ("args".to_string(), Json::Array(vec![Json::Null, Json::Bool(true)])),
    ]);
    let form = to_form(&record);
    assert_eq!(
        form,
        Val::List(vec![
            kw("sequence"),
            s("5000000000"),
            kw("process"),
            s("alpha"),
            kw("args"),
            Val::List(vec![Val::Nil, Val::Bool(true)]),
        ])
    );
    // Counters come back as numbers; other text stays text.
    assert_eq!(from_form(&form), record);
}

#[test]
fn counter_text_is_read_back_only_under_counter_keys() {
    let form = Val::List(vec![kw("cursor"), s("12"), kw("name"), s("12")]);
    assert_eq!(
        from_form(&form),
        Json::Object(vec![
            ("cursor".to_string(), Json::Int(12)),
            ("name".to_string(), Json::String("12".into())),
        ])
    );
    // An odd-length list or one not led by a keyword is an array.
    assert_eq!(
        from_form(&Val::List(vec![kw("a"), Val::Int(1), kw("b")])),
        Json::Array(vec![
            Json::String("a".into()),
            Json::Int(1),
            Json::String("b".into())
        ])
    );
    // Pairs stop at the first key that is not a keyword.
    assert_eq!(
        from_form(&Val::List(vec![kw("a"), Val::Int(1), Val::Int(2), Val::Int(3)])),
        Json::Object(vec![("a".to_string(), Json::Int(1))])
    );
    assert_eq!(from_form(&Val::Symbol("x".into())), Json::String("x".into()));
}

#[test]
fn u64_parsing_follows_from_str() {
    assert_eq!(parse_u64("18446744073709551615"), Some(u64::MAX));
    assert_eq!(parse_u64("18446744073709551616"), None);
    assert_eq!(parse_u64("+7"), Some(7));
    assert_eq!(parse_u64(""), None);
    assert_eq!(parse_u64("-1"), None);
    assert_eq!(parse_u64("1a"), None);
}

#[test]
fn snapshot_survives_lyric_data() {
    let record = Json::Object(vec![
        ("sequence".to_string(), Json::Int(18_000_000_000)),
        ("started_ms".to_string(), Json::Int(1_700_000_000_000)),
        ("kind".to_string(), Json::String("eval".to_string())),
        ("args".to_string(), Json::Array(vec![Json::Int(-3), Json::Null, Json::Bool(true)])),
    ]);
    let snapshot = Json::Object(vec![
        ("cursor".to_string(), Json::Int(u64::MAX as i128)),
        ("dropped".to_string(), Json::Int(0)),
        ("evicted".to_string(), Json::Int(5_000_000_000)),
        ("records".to_string(), Json::Array(vec![record])),
    ]);
    let back = from_form(&to_form(&snapshot));
    assert_eq!(back, snapshot);
}
