use crate::location::Span;
use crate::number::{num_eq, num_integral, num_lt, num_multiple_of, Number};
use crate::pattern::regex_matches;
use crate::schema::{Literal, Validation, ARRAY, BOOLEAN, INTEGER, INVALID, NULL, NUMBER, OBJECT, STRING};
use crate::scope::{Scope, ScopeView};
use vstd::prelude::*;

verus! {

/// A completed JSON value, as the walker reports it when popping it.
pub enum Leaf<'a> {
    Object(usize),
    Array(usize),
    Bool(bool),
    Null,
    Numeric(Number),
    Str(&'a str),
}

/// The model of a completed value: a string is its characters.
pub ghost enum Token {
    Object(usize),
    Array(usize),
    Bool(bool),
    Null,
    Numeric(Number),
    Str(Seq<char>),
}

pub open spec fn token(leaf: Leaf) -> Token {
    match leaf {
        Leaf::Object(n) => Token::Object(n),
        Leaf::Array(n) => Token::Array(n),
        Leaf::Bool(b) => Token::Bool(b),
        Leaf::Null => Token::Null,
        Leaf::Numeric(n) => Token::Numeric(n),
        Leaf::Str(s) => Token::Str(s@),
    }
}

/// The JSON types of a completed value. A number with a nonzero fractional part is
/// only a `number`; any other number is also an `integer`.
pub open spec fn leaf_types(leaf: Token) -> u32 {
    match leaf {
        Token::Object(_) => OBJECT,
        Token::Array(_) => ARRAY,
        Token::Bool(_) => BOOLEAN,
        Token::Null => NULL,
        Token::Str(_) => STRING,
        Token::Numeric(n) => if num_integral(n) { INTEGER | NUMBER } else { NUMBER },
    }
}

/// Some literal of `variants` has the hash `h`.
pub open spec fn some_literal(variants: Seq<Literal>, h: u64) -> bool {
    exists|i: int| 0 <= i < variants.len() && (#[trigger] variants[i]).hash == h
}

/// Validation `v` holds of the completed value `leaf` spanning `span`, evaluated by
/// the scope `scope`. A validation that does not concern the kind of value holds.
pub open spec fn validation_holds(v: Validation, leaf: Token, span: Span, scope: ScopeView) -> bool {
    match v {
        Validation::False => false,
        Validation::Type(expect) => expect & leaf_types(leaf) != INVALID,
        Validation::Const(literal) => literal.hash == span.hashed,
        Validation::Enum { variants } => some_literal(variants@, span.hashed),
        Validation::Required { props_interned } => match leaf {
            Token::Object(_) => props_interned & scope.seen_interned == props_interned,
            _ => true,
        },
        Validation::DependentRequired { if_interned, then_interned, .. } => match leaf {
            Token::Object(_) => scope.seen_interned & if_interned == 0
                || scope.seen_interned & then_interned == then_interned,
            _ => true,
        },
        Validation::MinProperties(bound) => match leaf {
            Token::Object(n) => n >= bound,
            _ => true,
        },
        Validation::MaxProperties(bound) => match leaf {
            Token::Object(n) => n <= bound,
            _ => true,
        },
        Validation::MinItems(bound) => match leaf {
            Token::Array(n) => bound <= n,
            _ => true,
        },
        Validation::MaxItems(bound) => match leaf {
            Token::Array(n) => bound >= n,
            _ => true,
        },
        Validation::MinContains(bound) => match leaf {
            Token::Array(_) => bound <= scope.valid_contains,
            _ => true,
        },
        Validation::MaxContains(bound) => match leaf {
            Token::Array(_) => bound >= scope.valid_contains,
            _ => true,
        },
        Validation::Minimum(bound) => match leaf {
            Token::Numeric(n) => !num_lt(n, bound),
            _ => true,
        },
        Validation::Maximum(bound) => match leaf {
            Token::Numeric(n) => num_lt(n, bound) || num_eq(n, bound),
            _ => true,
        },
        Validation::ExclusiveMinimum(bound) => match leaf {
            Token::Numeric(n) => num_lt(bound, n),
            _ => true,
        },
        Validation::ExclusiveMaximum(bound) => match leaf {
            Token::Numeric(n) => num_lt(n, bound),
            _ => true,
        },
        Validation::MultipleOf(bound) => match leaf {
            Token::Numeric(n) => num_multiple_of(n, bound),
            _ => true,
        },
        Validation::MinLength(bound) => match leaf {
            Token::Str(s) => bound <= s.len(),
            _ => true,
        },
        Validation::MaxLength(bound) => match leaf {
            Token::Str(s) => bound >= s.len(),
            _ => true,
        },
        Validation::Pattern(re) => match leaf {
            Token::Str(s) => regex_matches(re.source_view(), s),
            _ => true,
        },
        Validation::UniqueItems => true,
    }
}

/// The JSON types of a completed value.
pub fn types_of(leaf: &Leaf) -> (r: u32)
    ensures
        r == leaf_types(token(*leaf)),
{
    match leaf {
        Leaf::Object(_) => OBJECT,
        Leaf::Array(_) => ARRAY,
        Leaf::Bool(_) => BOOLEAN,
        Leaf::Null => NULL,
        Leaf::Str(_) => STRING,
        Leaf::Numeric(n) => if n.is_integral() { INTEGER | NUMBER } else { NUMBER },
    }
}

/// Whether some literal of `variants` has the hash `h`.
fn any_literal(variants: &Vec<Literal>, h: u64) -> (r: bool)
    ensures
        r == some_literal(variants@, h),
{
    let mut i: usize = 0;
    while i < variants.len()
        invariant
            i <= variants@.len(),
            forall|j: int| 0 <= j < i ==> (#[trigger] variants@[j]).hash != h,
        decreases variants@.len() - i,
    {
        if variants[i].hash == h {
            return true;
        }
        i = i + 1;
    }
    false
}

/// Whether validation `v` holds of `leaf`, spanning `span`, evaluated by `scope`.
pub fn check(v: &Validation, leaf: &Leaf, span: &Span, scope: &Scope) -> (r: bool)
    ensures
        r == validation_holds(*v, token(*leaf), *span, scope@),
{
    let seen = scope.seen_interned();
    match v {
        Validation::False => false,
        Validation::Type(expect) => *expect & types_of(leaf) != INVALID,
        Validation::Const(literal) => literal.hash == span.hashed,
        Validation::Enum { variants } => any_literal(variants, span.hashed),
        Validation::Required { props_interned } => match leaf {
            Leaf::Object(_) => *props_interned & seen == *props_interned,
            _ => true,
        },
        Validation::DependentRequired { if_interned, then_interned, .. } => match leaf {
            Leaf::Object(_) => seen & *if_interned == 0 || seen & *then_interned == *then_interned,
            _ => true,
        },
        Validation::MinProperties(bound) => match leaf {
            Leaf::Object(n) => *n >= *bound,
            _ => true,
        },
        Validation::MaxProperties(bound) => match leaf {
            Leaf::Object(n) => *n <= *bound,
            _ => true,
        },
        Validation::MinItems(bound) => match leaf {
            Leaf::Array(n) => *bound <= *n,
            _ => true,
        },
        Validation::MaxItems(bound) => match leaf {
            Leaf::Array(n) => *bound >= *n,
            _ => true,
        },
        Validation::MinContains(bound) => match leaf {
            Leaf::Array(_) => *bound <= scope.valid_contains(),
            _ => true,
        },
        Validation::MaxContains(bound) => match leaf {
            Leaf::Array(_) => *bound >= scope.valid_contains(),
            _ => true,
        },
        Validation::Minimum(bound) => match leaf {
            Leaf::Numeric(n) => !n.lt(bound),
            _ => true,
        },
        Validation::Maximum(bound) => match leaf {
            Leaf::Numeric(n) => n.le(bound),
            _ => true,
        },
        Validation::ExclusiveMinimum(bound) => match leaf {
            Leaf::Numeric(n) => bound.lt(n),
            _ => true,
        },
        Validation::ExclusiveMaximum(bound) => match leaf {
            Leaf::Numeric(n) => n.lt(bound),
            _ => true,
        },
        Validation::MultipleOf(bound) => match leaf {
            Leaf::Numeric(n) => n.is_multiple_of(bound),
            _ => true,
        },
        Validation::MinLength(bound) => match leaf {
            Leaf::Str(s) => *bound <= s.unicode_len(),
            _ => true,
        },
        Validation::MaxLength(bound) => match leaf {
            Leaf::Str(s) => *bound >= s.unicode_len(),
            _ => true,
        },
        Validation::Pattern(re) => match leaf {
            Leaf::Str(s) => re.is_match(s),
            _ => true,
        },
        Validation::UniqueItems => true,
    }
}

} // verus!
