use json_validator::index::Index;
use json_validator::location::{LocatedItem, LocatedProperty, Location, Span};
use json_validator::number::Number;
use json_validator::outcome::{build_basic_output, Outcome};
use json_validator::pattern::Pattern;
use json_validator::schema::{Application, Keyword, Literal, Schema, Validation, INTEGER, NUMBER, OBJECT, STRING};
use json_validator::validator::Validator;

fn schema(curi: &str, kw: Vec<Keyword>) -> Schema {
    Schema { curi: curi.to_string(), kw, tbl: Vec::new() }
}

fn interning(curi: &str, kw: Vec<Keyword>, tbl: Vec<(&str, u64)>) -> Schema {
    Schema { curi: curi.to_string(), kw, tbl: tbl.into_iter().map(|(n, b)| (n.to_string(), b)).collect() }
}

fn span(hashed: u64) -> Span {
    Span { begin: 0, end: 0, hashed }
}

fn property(parent: Location, name: &str, index: usize) -> LocatedProperty {
    LocatedProperty { parent: Box::new(parent), name: name.to_string(), index }
}

fn at_property(parent: Location, name: &str, index: usize) -> Location {
    Location::Property(property(parent, name, index))
}

fn item(parent: Location, index: usize) -> LocatedItem {
    LocatedItem { parent: Box::new(parent), index }
}

fn at_item(parent: Location, index: usize) -> Location {
    Location::Item(item(parent, index))
}

fn app(a: Application, sub: usize) -> Keyword {
    Keyword::Application(a, sub)
}

fn val(v: Validation) -> Keyword {
    Keyword::Validation(v)
}

fn errors(v: &Validator) -> Vec<(String, String, String)> {
    build_basic_output(v.outcomes())
        .errors
        .into_iter()
        .map(|e| (e.keyword_location, e.instance_location, e.error))
        .collect()
}

fn validate_number(index: &Index, uri: &str, n: Number) -> bool {
    let mut v = Validator::new(index);
    v.prepare(uri).unwrap();
    v.pop_numeric(&span(1), &Location::Root, n);
    v.invalid()
}

fn validate_str(index: &Index, uri: &str, s: &str) -> bool {
    let mut v = Validator::new(index);
    v.prepare(uri).unwrap();
    v.pop_str(&span(1), &Location::Root, s);
    v.invalid()
}

#[test]
fn minimum_of_integer_fails_at_keyword() {
    let mut index = Index::new();
    index
        .add(schema(
            "http://example.com/min",
            vec![val(Validation::Type(INTEGER)), val(Validation::Minimum(Number::Unsigned(0)))],
        ))
        .unwrap();
    let mut v = Validator::new(&index);
    v.prepare("http://example.com/min").unwrap();
    v.pop_numeric(&span(7), &Location::Root, Number::Signed(-1));
    assert!(v.invalid());
    let errs = errors(&v);
    assert_eq!(errs.len(), 1);
    assert_eq!(errs[0].0, "#/minimum");
    assert_eq!(errs[0].1, "");
    let out = build_basic_output(v.outcomes());
    assert!(!out.valid);
    assert_eq!(out.errors[0].absolute_keyword_location, "http://example.com/min");
}

#[test]
fn one_of_without_match() {
    let mut index = Index::new();
    let s = index.add(schema("http://example.com/one#/oneOf/0", vec![val(Validation::Type(STRING))])).unwrap();
    let n = index.add(schema("http://example.com/one#/oneOf/1", vec![val(Validation::Type(NUMBER))])).unwrap();
    index
        .add(schema(
            "http://example.com/one",
            vec![app(Application::OneOf { index: 0 }, s), app(Application::OneOf { index: 1 }, n)],
        ))
        .unwrap();
    let mut v = Validator::new(&index);
    v.prepare("http://example.com/one").unwrap();
    v.pop_bool(&span(3), &Location::Root, true);
    assert!(v.invalid());
    assert!(v.outcomes().iter().any(|(o, _)| matches!(o, Outcome::OneOfNotMatched)));
    let errs = errors(&v);
    assert_eq!(errs.len(), 1);
    assert_eq!(errs[0].2, "OneOfNotMatched");
}

fn unevaluated_index() -> Index {
    let mut index = Index::new();
    let a = index.add(schema("http://example.com/u#/properties/a", vec![val(Validation::Type(NUMBER))])).unwrap();
    let f = index.add(schema("http://example.com/u#/unevaluatedProperties", vec![val(Validation::False)])).unwrap();
    index
        .add(interning(
            "http://example.com/u",
            vec![
                app(Application::Properties { name: "a".to_string(), name_interned: 1 }, a),
                app(Application::UnevaluatedProperties, f),
            ],
            vec![("a", 1)],
        ))
        .unwrap();
    index
}

#[test]
fn unevaluated_property_fails() {
    let index = unevaluated_index();
    let mut v = Validator::new(&index);
    v.prepare("http://example.com/u").unwrap();
    v.push_property(&span(0), &property(Location::Root, "a", 0));
    v.pop_numeric(&span(11), &at_property(Location::Root, "a", 0), Number::Unsigned(1));
    v.push_property(&span(0), &property(Location::Root, "b", 1));
    v.pop_numeric(&span(12), &at_property(Location::Root, "b", 1), Number::Unsigned(2));
    v.pop_object(&span(13), &Location::Root, 2);
    assert!(v.invalid());
    let errs = errors(&v);
    assert_eq!(errs.len(), 1);
    assert_eq!(errs[0].0, "#/unevaluatedProperties");
    assert_eq!(errs[0].1, "/b");
}

#[test]
fn evaluated_properties_pass() {
    let index = unevaluated_index();
    let mut v = Validator::new(&index);
    v.prepare("http://example.com/u").unwrap();
    v.push_property(&span(0), &property(Location::Root, "a", 0));
    v.pop_numeric(&span(11), &at_property(Location::Root, "a", 0), Number::Unsigned(1));
    v.pop_object(&span(13), &Location::Root, 1);
    assert!(!v.invalid());
    assert!(errors(&v).is_empty());
    assert!(build_basic_output(v.outcomes()).valid);
}

fn if_then_index() -> Index {
    let mut index = Index::new();
    let when = index
        .add(interning(
            "http://example.com/c#/if",
            vec![val(Validation::Required { props_interned: 1 })],
            vec![("x", 1)],
        ))
        .unwrap();
    let then = index
        .add(interning(
            "http://example.com/c#/then",
            vec![val(Validation::Required { props_interned: 1 })],
            vec![("y", 1)],
        ))
        .unwrap();
    // Scopes merge from the top down, so `if` follows `then` in evaluation order.
    index
        .add(schema("http://example.com/c", vec![app(Application::Then, then), app(Application::If, when)]))
        .unwrap();
    index
}

#[test]
fn if_then_requires_when_condition_holds() {
    let index = if_then_index();
    let mut v = Validator::new(&index);
    v.prepare("http://example.com/c").unwrap();
    v.push_property(&span(0), &property(Location::Root, "x", 0));
    v.pop_numeric(&span(5), &at_property(Location::Root, "x", 0), Number::Unsigned(1));
    v.pop_object(&span(6), &Location::Root, 1);
    assert!(v.invalid());
    let errs = errors(&v);
    assert_eq!(errs.len(), 1);
    assert_eq!(errs[0].0, "#/then/required");

    let mut v = Validator::new(&index);
    v.prepare("http://example.com/c").unwrap();
    v.pop_object(&span(6), &Location::Root, 0);
    assert!(!v.invalid());
    assert!(errors(&v).is_empty());
}

fn recursive_index(typed: bool) -> Index {
    let mut index = Index::new();
    let placeholder = index.add(schema("http://example.com/tree#/$defs/any", vec![])).unwrap();
    let next = index
        .add(schema(
            "http://example.com/tree#/properties/next",
            vec![app(Application::RecursiveRef("#".to_string()), placeholder)],
        ))
        .unwrap();
    let mut kw = vec![Keyword::RecursiveAnchor];
    if typed {
        kw.push(val(Validation::Type(OBJECT)));
    }
    kw.push(app(Application::Properties { name: "next".to_string(), name_interned: 1 }, next));
    index.add(interning("http://example.com/tree", kw, vec![("next", 1)])).unwrap();
    index
}

/// Walks `{"next": ... {"next": leaf}}`, `depth` levels deep, with `leaf` a number or `{}`.
fn walk_nested(v: &mut Validator, depth: usize, leaf_number: bool) {
    let mut locs = vec![Location::Root];
    for _ in 0..depth {
        let parent = locs.last().unwrap();
        let p = property(copy(parent), "next", 0);
        v.push_property(&span(0), &p);
        locs.push(Location::Property(p));
    }
    let innermost = locs.pop().unwrap();
    if leaf_number {
        v.pop_numeric(&span(5), &innermost, Number::Unsigned(5));
    } else {
        v.pop_object(&span(6), &innermost, 0);
    }
    while let Some(loc) = locs.pop() {
        v.pop_object(&span(6), &loc, 1);
    }
}

fn copy(loc: &Location) -> Location {
    loc.copy()
}

#[test]
fn recursive_ref_follows_anchor() {
    let index = recursive_index(false);
    for (depth, leaf_number) in [(2, false), (1, true), (2, true)] {
        let mut v = Validator::new(&index);
        v.prepare("http://example.com/tree").unwrap();
        walk_nested(&mut v, depth, leaf_number);
        assert!(!v.invalid(), "depth {} number {}", depth, leaf_number);
    }

    let index = recursive_index(true);
    let mut v = Validator::new(&index);
    v.prepare("http://example.com/tree").unwrap();
    walk_nested(&mut v, 1, true);
    assert!(v.invalid());
    let errs = errors(&v);
    assert_eq!(errs.len(), 1);
    assert_eq!(errs[0].0, "#/properties/next/$recursiveRef/type");
    assert_eq!(errs[0].1, "/next");
}

#[test]
fn lengths_count_unicode_scalars() {
    let mut index = Index::new();
    index.add(schema("http://example.com/max", vec![val(Validation::MaxLength(1))])).unwrap();
    index.add(schema("http://example.com/min", vec![val(Validation::MinLength(2))])).unwrap();
    index
        .add(schema("http://example.com/pat", vec![val(Validation::Pattern(Pattern::new("^.$").unwrap()))]))
        .unwrap();
    assert!(!validate_str(&index, "http://example.com/max", "é"));
    assert!(validate_str(&index, "http://example.com/min", "é"));
    assert!(!validate_str(&index, "http://example.com/pat", "é"));
    assert!(validate_str(&index, "http://example.com/pat", "ab"));
}

#[test]
fn integer_type_accepts_whole_floats() {
    let mut index = Index::new();
    index.add(schema("http://example.com/int", vec![val(Validation::Type(INTEGER))])).unwrap();
    // 1.0 is 1 * 2^0; 1.5 is 3 * 2^-1; -1.5 is -3 * 2^-1.
    assert!(!validate_number(&index, "http://example.com/int", Number::Float { mantissa: 1, exponent: 0 }));
    assert!(!validate_number(&index, "http://example.com/int", Number::Float { mantissa: 4, exponent: -2 }));
    assert!(validate_number(&index, "http://example.com/int", Number::Float { mantissa: 3, exponent: -1 }));
    assert!(validate_number(&index, "http://example.com/int", Number::Float { mantissa: -3, exponent: -1 }));
    assert!(!validate_number(&index, "http://example.com/int", Number::Signed(-7)));
}

fn unique_index() -> Index {
    let mut index = Index::new();
    index.add(schema("http://example.com/uniq", vec![val(Validation::UniqueItems)])).unwrap();
    index
}

fn walk_array<'a>(index: &'a Index, hashes: &[u64]) -> Validator<'a> {
    let mut v = Validator::new(index);
    v.prepare("http://example.com/uniq").unwrap();
    for (i, h) in hashes.iter().enumerate() {
        v.push_item(&span(0), &item(Location::Root, i));
        v.pop_numeric(&span(*h), &at_item(Location::Root, i), Number::Unsigned(*h));
    }
    v.pop_array(&span(99), &Location::Root, hashes.len());
    v
}

#[test]
fn unique_items_compare_hashes() {
    let index = unique_index();
    assert!(!walk_array(&index, &[1, 2, 3]).invalid());
    let v = walk_array(&index, &[1, 2, 1]);
    assert!(v.invalid());
    let errs = errors(&v);
    assert_eq!(errs.len(), 1);
    assert_eq!(errs[0].0, "#/uniqueItems");
    assert_eq!(errs[0].1, "/2");
    // `1` and `1.0` are the same item only when the walker hashes them alike.
    assert!(!walk_array(&index, &[10, 11]).invalid());
    assert!(walk_array(&index, &[10, 10]).invalid());
}

#[test]
fn absent_alternatives_are_satisfied() {
    let mut index = Index::new();
    index.add(schema("http://example.com/none", vec![])).unwrap();
    let mut v = Validator::new(&index);
    v.prepare("http://example.com/none").unwrap();
    v.pop_null(&span(0), &Location::Root);
    assert!(!v.invalid());
    assert!(v.outcomes().is_empty());
}

#[test]
fn const_and_enum_compare_hashes() {
    let mut index = Index::new();
    index.add(schema("http://example.com/const", vec![val(Validation::Const(Literal { hash: 42 }))])).unwrap();
    index
        .add(schema(
            "http://example.com/enum",
            vec![val(Validation::Enum { variants: vec![Literal { hash: 1 }, Literal { hash: 2 }] })],
        ))
        .unwrap();
    for (uri, h, bad) in [
        ("http://example.com/const", 42, false),
        ("http://example.com/const", 41, true),
        ("http://example.com/enum", 2, false),
        ("http://example.com/enum", 3, true),
    ] {
        let mut v = Validator::new(&index);
        v.prepare(uri).unwrap();
        v.pop_bool(&span(h), &Location::Root, true);
        assert_eq!(v.invalid(), bad);
    }
}
