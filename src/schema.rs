use crate::number::Number;
use crate::pattern::Pattern;
use crate::pointer::{decimal, escape_token, push_escaped, str_eq, write_decimal};
use vstd::prelude::*;

verus! {

/// Bit sets of JSON types, as `Type` validations hold them.
pub const INVALID: u32 = 0;
pub const ARRAY: u32 = 1;
pub const BOOLEAN: u32 = 2;
pub const INTEGER: u32 = 4;
pub const NULL: u32 = 8;
pub const NUMBER: u32 = 16;
pub const OBJECT: u32 = 32;
pub const STRING: u32 = 64;

/// A literal JSON value of a schema, known by the content hash of its value.
#[derive(Clone, Copy, Debug, PartialEq, Eq, Structural)]
pub struct Literal {
    pub hash: u64,
}

/// A leaf predicate over the current value.
pub enum Validation {
    False,
    Type(u32),
    Const(Literal),
    Enum { variants: Vec<Literal> },
    MultipleOf(Number),
    Maximum(Number),
    ExclusiveMaximum(Number),
    Minimum(Number),
    ExclusiveMinimum(Number),
    MaxLength(usize),
    MinLength(usize),
    Pattern(Pattern),
    MaxItems(usize),
    MinItems(usize),
    UniqueItems,
    MaxContains(usize),
    MinContains(usize),
    MaxProperties(usize),
    MinProperties(usize),
    /// Properties that must be present, as a mask of interned names.
    Required { props_interned: u64 },
    /// When any property of `if_interned` is present, all of `then_interned` must be.
    DependentRequired { if_: String, if_interned: u64, then_interned: u64 },
}

/// A keyword whose value is a sub-schema, applied in place or to a child.
pub enum Application {
    /// A reference by canonical URI.
    Ref(String),
    /// A reference resolved against the dynamic recursion base.
    RecursiveRef(String),
    Def { key: String },
    Not,
    If,
    Then,
    Else,
    AllOf { index: usize },
    AnyOf { index: usize },
    OneOf { index: usize },
    DependentSchema { if_: String, if_interned: u64 },
    PropertyNames,
    Properties { name: String, name_interned: u64 },
    PatternProperties { re: Pattern },
    AdditionalProperties,
    UnevaluatedProperties,
    Items { index: Option<usize> },
    AdditionalItems,
    Contains,
    UnevaluatedItems,
}

/// Metadata of a schema, attached to the outcomes of a valid evaluation.
pub struct Annotation {
    pub keyword: String,
    pub value: String,
}

/// One keyword of a compiled schema. An application names its sub-schema by its
/// position in the `Index`.
pub enum Keyword {
    RecursiveAnchor,
    Application(Application, usize),
    Validation(Validation),
    Annotation(Annotation),
}

/// A compiled schema: its canonical URI, its keywords in evaluation order, and the
/// bits assigned to the property names that it interns.
///
/// Evaluation order is the compiler's: `properties` before `patternProperties`, then
/// `additionalProperties`, then `unevaluatedProperties` (and likewise for items), and
/// `if` after `then` and `else`, since sibling scopes are merged from the last one
/// back and `then`/`else` read the recorded result of `if`.
pub struct Schema {
    pub curi: String,
    pub kw: Vec<Keyword>,
    pub tbl: Vec<(String, u64)>,
}

/// The bit interned for `name` by `tbl`, or zero.
pub open spec fn interned(tbl: Seq<(String, u64)>, name: Seq<char>) -> u64
    decreases tbl.len(),
{
    if tbl.len() == 0 {
        0
    } else if tbl[0].0@ == name {
        tbl[0].1
    } else {
        interned(tbl.drop_first(), name)
    }
}

impl Schema {
    /// The bit interned for `name`, or zero when the name is not interned.
    pub fn lookup(&self, name: &str) -> (r: u64)
        ensures
            r == interned(self.tbl@, name@),
    {
        let mut i: usize = 0;
        assert(self.tbl@.subrange(0, self.tbl@.len() as int) == self.tbl@);
        while i < self.tbl.len()
            invariant
                i <= self.tbl@.len(),
                interned(self.tbl@, name@) == interned(self.tbl@.subrange(i as int, self.tbl@.len() as int), name@),
            decreases self.tbl@.len() - i,
        {
            let ghost rest = self.tbl@.subrange(i as int, self.tbl@.len() as int);
            assert(rest.drop_first() == self.tbl@.subrange(i + 1, self.tbl@.len() as int));
            if str_eq(self.tbl[i].0.as_str(), name) {
                return self.tbl[i].1;
            }
            i = i + 1;
        }
        0
    }
}

/// The JSON Pointer fragment that an application adds to a keyword location.
pub open spec fn app_fragment(app: Application) -> Seq<char> {
    match app {
        Application::Ref(_) => "/$ref"@,
        Application::RecursiveRef(_) => "/$recursiveRef"@,
        Application::Def { key } => "/$defs/"@ + escape_token(key@),
        Application::Not => "/not"@,
        Application::If => "/if"@,
        Application::Then => "/then"@,
        Application::Else => "/else"@,
        Application::AllOf { index } => "/allOf/"@ + decimal(index as nat),
        Application::AnyOf { index } => "/anyOf/"@ + decimal(index as nat),
        Application::OneOf { index } => "/oneOf/"@ + decimal(index as nat),
        Application::DependentSchema { if_, .. } => "/dependentSchemas/"@ + escape_token(if_@),
        Application::PropertyNames => "/propertyNames"@,
        Application::Properties { name, .. } => "/properties/"@ + escape_token(name@),
        Application::PatternProperties { re } => "/patternProperties/"@ + escape_token(re.source_view()),
        Application::AdditionalProperties => "/additionalProperties"@,
        Application::UnevaluatedProperties => "/unevaluatedProperties"@,
        Application::Items { index: None } => "/items"@,
        Application::Items { index: Some(i) } => "/items/"@ + decimal(i as nat),
        Application::AdditionalItems => "/additionalItems"@,
        Application::Contains => "/contains"@,
        Application::UnevaluatedItems => "/unevaluatedItems"@,
    }
}

/// The JSON Pointer fragment of a validation keyword within its schema.
pub open spec fn validation_fragment(v: Validation) -> Seq<char> {
    match v {
        Validation::False => Seq::empty(),
        Validation::Type(_) => "/type"@,
        Validation::Const(_) => "/const"@,
        Validation::Enum { .. } => "/enum"@,
        Validation::MultipleOf(_) => "/multipleOf"@,
        Validation::Maximum(_) => "/maximum"@,
        Validation::ExclusiveMaximum(_) => "/exclusiveMaximum"@,
        Validation::Minimum(_) => "/minimum"@,
        Validation::ExclusiveMinimum(_) => "/exclusiveMinimum"@,
        Validation::MaxLength(_) => "/maxLength"@,
        Validation::MinLength(_) => "/minLength"@,
        Validation::Pattern(_) => "/pattern"@,
        Validation::MaxItems(_) => "/maxItems"@,
        Validation::MinItems(_) => "/minItems"@,
        Validation::UniqueItems => "/uniqueItems"@,
        Validation::MaxContains(_) => "/maxContains"@,
        Validation::MinContains(_) => "/minContains"@,
        Validation::MaxProperties(_) => "/maxProperties"@,
        Validation::MinProperties(_) => "/minProperties"@,
        Validation::Required { .. } => "/required"@,
        Validation::DependentRequired { if_, .. } => "/dependentRequired/"@ + escape_token(if_@),
    }
}

impl Application {
    /// Extends the keyword location `s` of the applying schema with this application.
    pub fn extend_fragment_pointer(&self, s: String) -> (r: String)
        ensures
            r@ == s@ + app_fragment(*self),
    {
        let mut s = s;
        match self {
            Application::Ref(_) => s.append("/$ref"),
            Application::RecursiveRef(_) => s.append("/$recursiveRef"),
            Application::Def { key } => {
                s.append("/$defs/");
                push_escaped(&mut s, key.as_str());
            },
            Application::Not => s.append("/not"),
            Application::If => s.append("/if"),
            Application::Then => s.append("/then"),
            Application::Else => s.append("/else"),
            Application::AllOf { index } => {
                s.append("/allOf/");
                s.append(write_decimal(*index).as_str());
            },
            Application::AnyOf { index } => {
                s.append("/anyOf/");
                s.append(write_decimal(*index).as_str());
            },
            Application::OneOf { index } => {
                s.append("/oneOf/");
                s.append(write_decimal(*index).as_str());
            },
            Application::DependentSchema { if_, .. } => {
                s.append("/dependentSchemas/");
                push_escaped(&mut s, if_.as_str());
            },
            Application::PropertyNames => s.append("/propertyNames"),
            Application::Properties { name, .. } => {
                s.append("/properties/");
                push_escaped(&mut s, name.as_str());
            },
            Application::PatternProperties { re } => {
                s.append("/patternProperties/");
                push_escaped(&mut s, re.as_str());
            },
            Application::AdditionalProperties => s.append("/additionalProperties"),
            Application::UnevaluatedProperties => s.append("/unevaluatedProperties"),
            Application::Items { index: None } => s.append("/items"),
            Application::Items { index: Some(i) } => {
                s.append("/items/");
                s.append(write_decimal(*i).as_str());
            },
            Application::AdditionalItems => s.append("/additionalItems"),
            Application::Contains => s.append("/contains"),
            Application::UnevaluatedItems => s.append("/unevaluatedItems"),
        }
        s
    }
}

impl Validation {
    /// Extends the keyword location `s` of a schema with this validation keyword.
    pub fn extend_fragment_pointer(&self, s: String) -> (r: String)
        ensures
            r@ == s@ + validation_fragment(*self),
    {
        let mut s = s;
        match self {
            Validation::False => {},
            Validation::Type(_) => s.append("/type"),
            Validation::Const(_) => s.append("/const"),
            Validation::Enum { .. } => s.append("/enum"),
            Validation::MultipleOf(_) => s.append("/multipleOf"),
            Validation::Maximum(_) => s.append("/maximum"),
            Validation::ExclusiveMaximum(_) => s.append("/exclusiveMaximum"),
            Validation::Minimum(_) => s.append("/minimum"),
            Validation::ExclusiveMinimum(_) => s.append("/exclusiveMinimum"),
            Validation::MaxLength(_) => s.append("/maxLength"),
            Validation::MinLength(_) => s.append("/minLength"),
            Validation::Pattern(_) => s.append("/pattern"),
            Validation::MaxItems(_) => s.append("/maxItems"),
            Validation::MinItems(_) => s.append("/minItems"),
            Validation::UniqueItems => s.append("/uniqueItems"),
            Validation::MaxContains(_) => s.append("/maxContains"),
            Validation::MinContains(_) => s.append("/minContains"),
            Validation::MaxProperties(_) => s.append("/maxProperties"),
            Validation::MinProperties(_) => s.append("/minProperties"),
            Validation::Required { .. } => s.append("/required"),
            Validation::DependentRequired { if_, .. } => {
                s.append("/dependentRequired/");
                push_escaped(&mut s, if_.as_str());
            },
        }
        proof {
            if *self is False {
                assert(s@ == s@ + Seq::<char>::empty());
            }
        }
        s
    }
}

} // verus!
