use json_validator::evolution::{error_status, EvolutionHandler, JobStatus};
use json_validator::index::{Index, IndexError};
use json_validator::location::{LocatedItem, LocatedProperty, Location, Span};
use json_validator::number::Number;
use json_validator::outcome::{build_basic_output, FullContext, Outcome};
use json_validator::pattern::Pattern;
use json_validator::pointer::write_decimal;
use json_validator::schema::{Annotation, Application, Keyword, Schema, Validation, STRING};
use json_validator::uri::{join, strip_empty_fragment};
use json_validator::validator::Validator;

fn schema(curi: &str, kw: Vec<Keyword>) -> Schema {
    Schema { curi: curi.to_string(), kw, tbl: Vec::new() }
}

fn interning(curi: &str, kw: Vec<Keyword>, tbl: Vec<(&str, u64)>) -> Schema {
    Schema { curi: curi.to_string(), kw, tbl: tbl.into_iter().map(|(n, b)| (n.to_string(), b)).collect() }
}

fn span(hashed: u64) -> Span {
    Span { begin: 0, end: 0, hashed }
}

fn property(parent: Location, name: &str, index: usize) -> LocatedProperty {
    LocatedProperty { parent: Box::new(parent), name: name.to_string(), index }
}

fn item(parent: Location, index: usize) -> LocatedItem {
    LocatedItem { parent: Box::new(parent), index }
}

fn app(a: Application, sub: usize) -> Keyword {
    Keyword::Application(a, sub)
}

fn val(v: Validation) -> Keyword {
    Keyword::Validation(v)
}

fn kinds(v: &Validator) -> Vec<String> {
    v.outcomes().iter().map(|(o, _)| o.describe()).collect()
}

fn one_number(v: Validation, n: Number) -> bool {
    let mut index = Index::new();
    index.add(schema("http://example.com/n", vec![val(v)])).unwrap();
    let mut w = Validator::new(&index);
    w.prepare("http://example.com/n").unwrap();
    w.pop_numeric(&span(0), &Location::Root, n);
    w.invalid()
}

/// Walks an object whose properties are numbers, named by `names`.
fn walk_object(v: &mut Validator, names: &[&str]) {
    for (i, name) in names.iter().enumerate() {
        let p = property(Location::Root, name, i);
        v.push_property(&span(0), &p);
        v.pop_numeric(&span(100 + i as u64), &Location::Property(p), Number::Unsigned(i as u64));
    }
    v.pop_object(&span(1), &Location::Root, names.len());
}

/// Walks an array of numbers whose values (and hashes) are `items`.
fn walk_array(v: &mut Validator, items: &[u64]) {
    for (i, x) in items.iter().enumerate() {
        let l = item(Location::Root, i);
        v.push_item(&span(0), &l);
        v.pop_numeric(&span(*x), &Location::Item(l), Number::Unsigned(*x));
    }
    v.pop_array(&span(1), &Location::Root, items.len());
}

#[test]
fn numbers_compare_exactly() {
    let half = Number::Float { mantissa: 1, exponent: -1 };
    let one_and_half = Number::Float { mantissa: 3, exponent: -1 };
    assert!(one_and_half.lt(&Number::Unsigned(2)));
    assert!(!Number::Unsigned(2).lt(&one_and_half));
    assert!(Number::Signed(-1).lt(&Number::Unsigned(0)));
    assert!(Number::Float { mantissa: 2, exponent: -1 }.le(&Number::Unsigned(1)));
    assert!(Number::Unsigned(1).le(&Number::Float { mantissa: 2, exponent: -1 }));
    assert!(Number::Unsigned(u64::MAX).lt(&Number::Float { mantissa: 1, exponent: 64 }));
    assert!(Number::Float { mantissa: -1, exponent: 70 }.lt(&Number::Signed(i64::MIN)));
    assert!(one_and_half.is_multiple_of(&half));
    assert!(Number::Unsigned(10).is_multiple_of(&Number::Float { mantissa: 5, exponent: -1 }));
    assert!(!Number::Unsigned(7).is_multiple_of(&Number::Unsigned(2)));
    assert!(Number::Signed(-6).is_multiple_of(&Number::Unsigned(3)));
    assert!(!Number::Unsigned(6).is_multiple_of(&Number::Unsigned(0)));
    assert!(!half.is_multiple_of(&Number::Unsigned(1)));
    assert!(Number::Float { mantissa: 3, exponent: 100 }.is_multiple_of(&Number::Unsigned(3)));
    assert!(Number::Float { mantissa: 8, exponent: -3 }.is_integral());
    assert!(!Number::Float { mantissa: 9, exponent: -3 }.is_integral());
}

#[test]
fn numeric_bounds() {
    assert!(!one_number(Validation::Maximum(Number::Unsigned(3)), Number::Unsigned(3)));
    assert!(one_number(Validation::Maximum(Number::Unsigned(3)), Number::Float { mantissa: 7, exponent: -1 }));
    assert!(one_number(Validation::ExclusiveMaximum(Number::Unsigned(3)), Number::Unsigned(3)));
    assert!(one_number(Validation::ExclusiveMinimum(Number::Unsigned(3)), Number::Unsigned(3)));
    assert!(!one_number(Validation::ExclusiveMinimum(Number::Unsigned(3)), Number::Float { mantissa: 13, exponent: -2 }));
    assert!(!one_number(Validation::MultipleOf(Number::Float { mantissa: 1, exponent: -2 }), Number::Float { mantissa: 3, exponent: -2 }));
    assert!(one_number(Validation::MultipleOf(Number::Unsigned(4)), Number::Unsigned(6)));
}

#[test]
fn decimal_and_pointer_text() {
    assert_eq!(write_decimal(0), "0");
    assert_eq!(write_decimal(120), "120");
    let loc = Location::Item(item(Location::Property(property(Location::Root, "a/b~c", 0)), 3));
    assert_eq!(loc.pointer(), "/a~1b~0c/3");
    assert_eq!(Location::Root.pointer(), "");
    assert_eq!(loc.index(), Some(3));
    assert!(loc.is_item());
}

#[test]
fn uri_resolution() {
    assert_eq!(join("http://example.com/a/b", "c#").unwrap(), "http://example.com/a/c#");
    assert_eq!(join("http://example.com/a/b", "#").unwrap(), "http://example.com/a/b#");
    assert!(join("not a url", "#").is_none());
    assert_eq!(strip_empty_fragment("http://example.com/a#"), "http://example.com/a");
    assert_eq!(strip_empty_fragment("http://example.com/a#b"), "http://example.com/a#b");
    assert_eq!(strip_empty_fragment("http://example.com/a#b#"), "http://example.com/a#b#");
}

#[test]
fn patterns() {
    assert!(Pattern::new("(").is_none());
    let p = Pattern::new("^a+$").unwrap();
    assert_eq!(p.as_str(), "^a+$");
    assert!(p.is_match("aaa"));
    assert!(!p.is_match("ab"));
}

#[test]
fn index_errors() {
    let mut index = Index::new();
    assert!(matches!(index.add(schema("http://example.com/x", vec![])), Ok(0)));
    match index.add(schema("http://example.com/x", vec![])) {
        Err(IndexError::Duplicate(u)) => assert_eq!(u, "http://example.com/x"),
        _ => panic!("expected a duplicate"),
    }
    match index.add(schema("http://example.com/y", vec![app(Application::Not, 5)])) {
        Err(IndexError::UnknownSubschema(s)) => assert_eq!(s, 5),
        _ => panic!("expected an unknown sub-schema"),
    }
    assert_eq!(index.len(), 1);
    assert_eq!(index.fetch("http://example.com/x"), Some(0));
    assert_eq!(index.fetch("http://example.com/z"), None);
    match index.must_fetch("http://example.com/z") {
        Err(IndexError::NotFound(u)) => assert_eq!(u, "http://example.com/z"),
        _ => panic!("expected not found"),
    }
    let mut v = Validator::new(&index);
    assert!(v.prepare("http://example.com/z").is_err());
}

#[test]
fn any_of_and_not() {
    let mut index = Index::new();
    let s = index.add(schema("http://example.com/a#/anyOf/0", vec![val(Validation::Type(STRING))])).unwrap();
    let f = index.add(schema("http://example.com/a#/anyOf/1", vec![val(Validation::False)])).unwrap();
    index
        .add(schema("http://example.com/a", vec![app(Application::AnyOf { index: 0 }, s), app(Application::AnyOf { index: 1 }, f)]))
        .unwrap();
    index.add(schema("http://example.com/not", vec![app(Application::Not, s)])).unwrap();

    let mut v = Validator::new(&index);
    v.prepare("http://example.com/a").unwrap();
    v.pop_null(&span(0), &Location::Root);
    assert!(v.invalid());
    assert_eq!(kinds(&v), vec!["AnyOfNotMatched"]);

    let mut v = Validator::new(&index);
    v.prepare("http://example.com/a").unwrap();
    v.pop_str(&span(0), &Location::Root, "x");
    assert!(!v.invalid());

    let mut v = Validator::new(&index);
    v.prepare("http://example.com/not").unwrap();
    v.pop_str(&span(0), &Location::Root, "x");
    assert!(v.invalid());
    assert_eq!(kinds(&v), vec!["NotIsValid"]);
    let out = build_basic_output(v.outcomes());
    assert_eq!(out.errors[0].keyword_location, "#/not");

    let mut v = Validator::new(&index);
    v.prepare("http://example.com/not").unwrap();
    v.pop_bool(&span(0), &Location::Root, false);
    assert!(!v.invalid());
    assert!(v.outcomes().is_empty());
}

#[test]
fn one_of_with_two_matches() {
    let mut index = Index::new();
    let e = index.add(schema("http://example.com/o#/oneOf/0", vec![])).unwrap();
    let g = index.add(schema("http://example.com/o#/oneOf/1", vec![])).unwrap();
    index
        .add(schema("http://example.com/o", vec![app(Application::OneOf { index: 0 }, e), app(Application::OneOf { index: 1 }, g)]))
        .unwrap();
    let mut v = Validator::new(&index);
    v.prepare("http://example.com/o").unwrap();
    v.pop_null(&span(0), &Location::Root);
    assert!(v.invalid());
    assert_eq!(kinds(&v), vec!["OneOfMultipleMatched"]);
}

#[test]
fn missing_reference() {
    let mut index = Index::new();
    let any = index.add(schema("http://example.com/r#/any", vec![])).unwrap();
    index.add(schema("http://example.com/r", vec![app(Application::Ref("http://example.com/gone".to_string()), any)])).unwrap();
    let mut v = Validator::new(&index);
    v.prepare("http://example.com/r").unwrap();
    v.pop_null(&span(0), &Location::Root);
    assert!(v.invalid());
    assert_eq!(kinds(&v), vec!["ReferenceNotFound(http://example.com/gone)"]);
}

#[test]
fn reference_is_followed() {
    let mut index = Index::new();
    let target = index.add(schema("http://example.com/t", vec![val(Validation::Type(STRING))])).unwrap();
    index.add(schema("http://example.com/r", vec![app(Application::Ref("http://example.com/t".to_string()), target)])).unwrap();
    let mut v = Validator::new(&index);
    v.prepare("http://example.com/r").unwrap();
    v.pop_null(&span(0), &Location::Root);
    assert!(v.invalid());
    let out = build_basic_output(v.outcomes());
    assert_eq!(out.errors[0].keyword_location, "#/$ref/type");
    assert_eq!(out.errors[0].absolute_keyword_location, "http://example.com/t");
}

#[test]
fn object_keywords() {
    let mut index = Index::new();
    let names = index.add(schema("http://example.com/o#/propertyNames", vec![val(Validation::MaxLength(1))])).unwrap();
    index
        .add(interning(
            "http://example.com/o",
            vec![
                app(Application::PropertyNames, names),
                val(Validation::MinProperties(1)),
                val(Validation::MaxProperties(2)),
                val(Validation::DependentRequired { if_: "a".to_string(), if_interned: 1, then_interned: 2 }),
            ],
            vec![("a", 1), ("b", 2)],
        ))
        .unwrap();
    let run = |names: &[&str]| {
        let mut v = Validator::new(&index);
        v.prepare("http://example.com/o").unwrap();
        walk_object(&mut v, names);
        (v.invalid(), kinds(&v))
    };
    assert_eq!(run(&["a", "b"]).0, false);
    assert_eq!(run(&["b"]).0, false);
    let (bad, k) = run(&["a"]);
    assert!(bad);
    assert_eq!(k, vec!["Invalid(1, 3)"]);
    assert!(run(&[]).0);
    assert!(run(&["a", "b", "c"]).0);
    let (bad, k) = run(&["b", "cc"]);
    assert!(bad);
    assert_eq!(k, vec!["Invalid(0, 0)"]);
}

#[test]
fn pattern_and_additional_properties() {
    let mut index = Index::new();
    let s = index.add(schema("http://example.com/p#/patternProperties/^x", vec![val(Validation::Type(STRING))])).unwrap();
    let f = index.add(schema("http://example.com/p#/additionalProperties", vec![val(Validation::False)])).unwrap();
    index
        .add(schema(
            "http://example.com/p",
            vec![
                app(Application::PatternProperties { re: Pattern::new("^x").unwrap() }, s),
                app(Application::AdditionalProperties, f),
            ],
        ))
        .unwrap();
    let mut v = Validator::new(&index);
    v.prepare("http://example.com/p").unwrap();
    walk_object(&mut v, &["xa"]);
    assert!(v.invalid());
    let out = build_basic_output(v.outcomes());
    assert_eq!(out.errors.len(), 1);
    assert_eq!(out.errors[0].keyword_location, "#/patternProperties/^x/type");
    assert_eq!(out.errors[0].instance_location, "/xa");

    let mut v = Validator::new(&index);
    v.prepare("http://example.com/p").unwrap();
    walk_object(&mut v, &["y"]);
    assert!(v.invalid());
    let out = build_basic_output(v.outcomes());
    assert_eq!(out.errors[0].keyword_location, "#/additionalProperties");
}

#[test]
fn array_keywords() {
    let mut index = Index::new();
    let first = index.add(schema("http://example.com/a#/items/0", vec![val(Validation::Maximum(Number::Unsigned(5)))])).unwrap();
    let rest = index.add(schema("http://example.com/a#/additionalItems", vec![val(Validation::Minimum(Number::Unsigned(10)))])).unwrap();
    let big = index.add(schema("http://example.com/a#/contains", vec![val(Validation::Minimum(Number::Unsigned(100)))])).unwrap();
    index
        .add(schema(
            "http://example.com/a",
            vec![
                app(Application::Items { index: Some(0) }, first),
                app(Application::AdditionalItems, rest),
                app(Application::Contains, big),
                val(Validation::MinContains(1)),
                val(Validation::MaxContains(1)),
                val(Validation::MinItems(1)),
                val(Validation::MaxItems(3)),
            ],
        ))
        .unwrap();
    let run = |items: &[u64]| {
        let mut v = Validator::new(&index);
        v.prepare("http://example.com/a").unwrap();
        walk_array(&mut v, items);
        v.invalid()
    };
    assert!(!run(&[1, 100]));
    assert!(run(&[6, 100]));
    assert!(run(&[1, 5]));
    assert!(run(&[1, 100, 200]));
    assert!(run(&[]));
    assert!(run(&[1, 100, 10, 10]));
}

#[test]
fn unevaluated_items() {
    let mut index = Index::new();
    let first = index.add(schema("http://example.com/u#/items/0", vec![])).unwrap();
    let f = index.add(schema("http://example.com/u#/unevaluatedItems", vec![val(Validation::False)])).unwrap();
    index
        .add(schema(
            "http://example.com/u",
            vec![app(Application::Items { index: Some(0) }, first), app(Application::UnevaluatedItems, f)],
        ))
        .unwrap();
    let run = |items: &[u64]| {
        let mut v = Validator::new(&index);
        v.prepare("http://example.com/u").unwrap();
        walk_array(&mut v, items);
        v.invalid()
    };
    assert!(!run(&[1]));
    assert!(run(&[1, 2]));
}

#[test]
fn annotations_only_when_valid() {
    let mut index = Index::new();
    index
        .add(schema(
            "http://example.com/t",
            vec![
                Keyword::Annotation(Annotation { keyword: "title".to_string(), value: "\"T\"".to_string() }),
                val(Validation::Type(STRING)),
            ],
        ))
        .unwrap();
    let mut v = Validator::new(&index);
    v.prepare("http://example.com/t").unwrap();
    v.pop_str(&span(0), &Location::Root, "x");
    assert!(!v.invalid());
    assert_eq!(kinds(&v), vec!["Annotation(0, 0)"]);
    assert!(build_basic_output(v.outcomes()).valid);
    assert!(!v.outcomes()[0].0.is_error());

    let mut v = Validator::new(&index);
    v.prepare("http://example.com/t").unwrap();
    v.pop_null(&span(0), &Location::Root);
    assert!(v.invalid());
    assert_eq!(kinds(&v), vec!["Invalid(0, 1)"]);
}

#[test]
fn replay_gives_same_outcomes() {
    let mut index = Index::new();
    let f = index.add(schema("http://example.com/r#/additionalProperties", vec![val(Validation::False)])).unwrap();
    index.add(schema("http://example.com/r", vec![app(Application::AdditionalProperties, f)])).unwrap();
    let mut reused = Validator::new(&index);
    let mut first = Vec::new();
    for round in 0..2 {
        reused.prepare("http://example.com/r").unwrap();
        walk_object(&mut reused, &["a", "b"]);
        let got: Vec<(String, String)> = build_basic_output(reused.outcomes())
            .errors
            .into_iter()
            .map(|e| (e.keyword_location, e.instance_location))
            .collect();
        if round == 0 {
            first = got;
        } else {
            assert_eq!(got, first);
        }
    }
    let mut fresh = Validator::new(&index);
    fresh.prepare("http://example.com/r").unwrap();
    walk_object(&mut fresh, &["a", "b"]);
    assert_eq!(fresh.outcomes().len(), first.len());
    assert_eq!(first, vec![("#/additionalProperties".to_string(), "/a".to_string()), ("#/additionalProperties".to_string(), "/b".to_string())]);
}

#[test]
fn contexts_and_statuses() {
    let c = FullContext::default();
    assert_eq!(c.span().hashed, 0);
    assert_eq!(c.keyword_location, "");
    let e = c.basic_output_entry("E".to_string());
    assert_eq!(e.error, "E");
    assert_eq!(Outcome::ReferenceNotFound("u".to_string()).describe(), "ReferenceNotFound(u)");
    assert!(Outcome::NotIsValid.is_error());
    match error_status("draft is empty".to_string()) {
        JobStatus::EvolutionFailed { error } => assert_eq!(error, "draft is empty"),
        _ => panic!("expected a failure"),
    }
    assert_eq!(EvolutionHandler.table_name(), "evolutions");
}

#[test]
fn verdict_matches_errors() {
    let mut index = Index::new();
    let s = index.add(schema("http://example.com/v#/oneOf/0", vec![val(Validation::Type(STRING))])).unwrap();
    let n = index.add(schema("http://example.com/v#/oneOf/1", vec![val(Validation::MaxLength(3))])).unwrap();
    index
        .add(schema(
            "http://example.com/v",
            vec![
                Keyword::Annotation(Annotation { keyword: "title".to_string(), value: "\"V\"".to_string() }),
                app(Application::OneOf { index: 0 }, s),
                app(Application::OneOf { index: 1 }, n),
            ],
        ))
        .unwrap();
    for (text, bad) in [("abcdef", false), ("ab", true)] {
        let mut v = Validator::new(&index);
        v.prepare("http://example.com/v").unwrap();
        v.pop_str(&span(0), &Location::Root, text);
        assert_eq!(v.invalid(), bad, "{}", text);
        assert_eq!(v.invalid(), !build_basic_output(v.outcomes()).valid);
        assert_eq!(v.invalid(), v.outcomes().iter().any(|(o, _)| o.is_error()));
    }
    let mut v = Validator::new(&index);
    v.prepare("http://example.com/v").unwrap();
    v.pop_null(&span(0), &Location::Root);
    assert!(!v.invalid());
    assert_eq!(kinds(&v), vec!["Annotation(2, 0)"]);
}

#[test]
fn pointers_are_url_escaped() {
    let at = |name: &str| Location::Property(property(Location::Root, name, 0)).pointer();
    assert_eq!(at("a b"), "/a%20b");
    assert_eq!(at("é"), "/%C3%A9");
    assert_eq!(at("€"), "/%E2%82%AC");
    assert_eq!(at("😀"), "/%F0%9F%98%80");
    assert_eq!(at("\"q\""), "/%22q%22");
    assert_eq!(at("a~/b"), "/a~0~1b");
}
