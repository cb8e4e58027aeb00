use vectordb::filter::text_contains;
use vectordb::filter::{
    evaluate_filter, Condition, FieldCondition, FieldValue, Filter, GeoBoundingBox, GeoPoint, IsEmpty, IsNull, MatchAny,
    MatchKeyword, MatchText, MatchValue, MetadataEntry, RangeCondition, ValuesCount,
};

fn entry(key: &str, value: FieldValue) -> MetadataEntry {
    MetadataEntry { key: key.to_string(), value }
}

fn keyword(key: &str, v: &str) -> Condition {
    Condition::Match(FieldCondition::MatchKeyword(MatchKeyword { key: key.to_string(), value: MatchValue::Keyword(v.to_string()) }))
}

fn meta() -> Option<Vec<MetadataEntry>> {
    Some(vec![
        entry("category", FieldValue::Text("electronics".to_string())),
        entry("price", FieldValue::Number { int: Some(100), key: 100 }),
        entry("in_stock", FieldValue::Bool(true)),
        entry("title", FieldValue::Text("Fast USB Cable".to_string())),
        entry("tags", FieldValue::Array(3)),
        entry("empty", FieldValue::Array(0)),
        entry("blank", FieldValue::Text(String::new())),
        entry("gone", FieldValue::Null),
        entry("loc", FieldValue::Object { point: Some((50, 10)) }),
    ])
}

#[test]
fn keyword_matches_only_equal_text() {
    assert!(evaluate_filter(&Filter::Must(vec![keyword("category", "electronics")]), &meta()));
    assert!(!evaluate_filter(&Filter::Must(vec![keyword("category", "books")]), &meta()));
    assert!(!evaluate_filter(&Filter::Must(vec![keyword("missing", "x")]), &meta()));
}

#[test]
fn integer_and_bool_match() {
    let c = Condition::Match(FieldCondition::MatchKeyword(MatchKeyword { key: "price".to_string(), value: MatchValue::Integer(100) }));
    assert!(evaluate_filter(&Filter::Must(vec![c]), &meta()));
    let b = Condition::Match(FieldCondition::MatchKeyword(MatchKeyword { key: "in_stock".to_string(), value: MatchValue::Bool(false) }));
    assert!(!evaluate_filter(&Filter::Must(vec![b]), &meta()));
    let wrong_type = Condition::Match(FieldCondition::MatchKeyword(MatchKeyword { key: "price".to_string(), value: MatchValue::Keyword("100".to_string()) }));
    assert!(!evaluate_filter(&Filter::Must(vec![wrong_type]), &meta()));
}

#[test]
fn match_any() {
    let c = Condition::Match(FieldCondition::MatchAny(MatchAny {
        key: "category".to_string(),
        any: vec![MatchValue::Keyword("books".to_string()), MatchValue::Keyword("electronics".to_string())],
    }));
    assert!(evaluate_filter(&Filter::Must(vec![c]), &meta()));
}

#[test]
fn match_text_ignores_case() {
    let c = Condition::Match(FieldCondition::MatchText(MatchText { key: "title".to_string(), text: "usb CABLE".to_string() }));
    assert!(evaluate_filter(&Filter::Must(vec![c]), &meta()));
    let d = Condition::Match(FieldCondition::MatchText(MatchText { key: "title".to_string(), text: "hdmi".to_string() }));
    assert!(!evaluate_filter(&Filter::Must(vec![d]), &meta()));
}

#[test]
fn range_bounds() {
    let inside = Condition::Match(FieldCondition::Range(RangeCondition { key: "price".to_string(), gte: Some(50), gt: None, lte: Some(100), lt: None }));
    assert!(evaluate_filter(&Filter::Must(vec![inside]), &meta()));
    let outside = Condition::Match(FieldCondition::Range(RangeCondition { key: "price".to_string(), gte: None, gt: None, lte: None, lt: Some(100) }));
    assert!(!evaluate_filter(&Filter::Must(vec![outside]), &meta()));
}

#[test]
fn geo_box() {
    let inside = Condition::Match(FieldCondition::GeoBoundingBox(GeoBoundingBox {
        key: "loc".to_string(),
        top_left: GeoPoint { lat: 60, lon: 0 },
        bottom_right: GeoPoint { lat: 40, lon: 20 },
    }));
    assert!(evaluate_filter(&Filter::Must(vec![inside]), &meta()));
    let outside = Condition::Match(FieldCondition::GeoBoundingBox(GeoBoundingBox {
        key: "loc".to_string(),
        top_left: GeoPoint { lat: 45, lon: 0 },
        bottom_right: GeoPoint { lat: 40, lon: 20 },
    }));
    assert!(!evaluate_filter(&Filter::Must(vec![outside]), &meta()));
}

#[test]
fn values_count_empty_and_null() {
    let vc = Condition::Match(FieldCondition::ValuesCount(ValuesCount { key: "tags".to_string(), gte: Some(2), gt: None, lte: None, lt: Some(3) }));
    assert!(!evaluate_filter(&Filter::Must(vec![vc]), &meta()));
    let vc2 = Condition::Match(FieldCondition::ValuesCount(ValuesCount { key: "tags".to_string(), gte: Some(3), gt: None, lte: Some(3), lt: None }));
    assert!(evaluate_filter(&Filter::Must(vec![vc2]), &meta()));
    for key in ["empty", "blank"] {
        let c = Condition::Match(FieldCondition::IsEmpty(IsEmpty { key: key.to_string() }));
        assert!(evaluate_filter(&Filter::Must(vec![c]), &meta()));
    }
    let c = Condition::Match(FieldCondition::IsEmpty(IsEmpty { key: "tags".to_string() }));
    assert!(!evaluate_filter(&Filter::Must(vec![c]), &meta()));
    let n = Condition::Match(FieldCondition::IsNull(IsNull { key: "gone".to_string() }));
    assert!(evaluate_filter(&Filter::Must(vec![n]), &meta()));
    let n2 = Condition::Match(FieldCondition::IsNull(IsNull { key: "absent".to_string() }));
    assert!(!evaluate_filter(&Filter::Must(vec![n2]), &meta()));
}

#[test]
fn must_not_negates_must_on_examples() {
    for (key, value) in [("category", "electronics"), ("category", "books")] {
        let must = evaluate_filter(&Filter::Must(vec![keyword(key, value)]), &meta());
        let must_not = evaluate_filter(&Filter::MustNot(vec![keyword(key, value)]), &meta());
        assert_eq!(must_not, !must);
    }
}

#[test]
fn absent_metadata_never_matches() {
    assert!(!evaluate_filter(&Filter::MustNot(vec![keyword("category", "x")]), &None));
    assert!(!evaluate_filter(&Filter::Should(vec![]), &None));
}

#[test]
fn should_min_should_and_nesting() {
    let should = Filter::Should(vec![keyword("category", "books"), keyword("category", "electronics")]);
    assert!(evaluate_filter(&should, &meta()));
    let min = Filter::MinShould { conditions: vec![keyword("category", "books"), keyword("category", "electronics")], min_count: 2 };
    assert!(!evaluate_filter(&min, &meta()));
    let nested = Filter::Must(vec![Condition::Filter(Box::new(Filter::MustNot(vec![keyword("category", "books")])))]);
    assert!(evaluate_filter(&nested, &meta()));
    assert!(evaluate_filter(&Filter::Must(vec![]), &meta()));
    assert!(!evaluate_filter(&Filter::Should(vec![]), &meta()));
}

fn number_key(x: f64) -> i64 {
    let x = if x == 0.0 { 0.0f64 } else { x };
    let b = x.to_bits() as i64;
    if b < 0 { b ^ i64::MAX } else { b }
}

#[test]
fn test_match_keyword() {
    let metadata = Some(vec![entry("category", FieldValue::Text("electronics".to_string()))]);
    let filter = Filter::Must(vec![keyword("category", "electronics")]);
    assert!(evaluate_filter(&filter, &metadata));
}

#[test]
fn test_range_condition() {
    let metadata = Some(vec![entry("price", FieldValue::Number { int: None, key: number_key(50.0) })]);
    let filter = Filter::Must(vec![Condition::Match(FieldCondition::Range(RangeCondition {
        key: "price".to_string(),
        gte: Some(number_key(10.0)),
        gt: None,
        lte: Some(number_key(100.0)),
        lt: None,
    }))]);
    assert!(evaluate_filter(&filter, &metadata));
}

#[test]
fn test_must_not() {
    let metadata = Some(vec![entry("status", FieldValue::Text("active".to_string()))]);
    let filter = Filter::MustNot(vec![keyword("status", "inactive")]);
    assert!(evaluate_filter(&filter, &metadata));
}

#[test]
fn number_keys_order_like_floats() {
    let xs = [-1e9, -2.5, -0.0, 0.0, 1e-9, 3.0, 1e12];
    for a in xs {
        for b in xs {
            assert_eq!(a < b, number_key(a) < number_key(b), "{} {}", a, b);
        }
    }
}

#[test]
fn text_containment() {
    assert!(text_contains("fast usb cable", "usb c"));
    assert!(text_contains("abc", ""));
    assert!(!text_contains("abc", "abcd"));
    assert!(!text_contains("Fast USB", "usb"));
}
