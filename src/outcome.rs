use crate::location::Span;
use crate::pointer::{decimal, write_decimal};
use vstd::prelude::*;

verus! {

/// An error or a retained annotation. `Invalid` and `Annotation` name their keyword
/// by the position of its schema in the `Index` and its position in that schema.
#[derive(Clone, Debug)]
pub enum Outcome {
    Invalid { schema: usize, keyword: usize },
    NotIsValid,
    AnyOfNotMatched,
    OneOfNotMatched,
    OneOfMultipleMatched,
    ReferenceNotFound(String),
    Annotation { schema: usize, keyword: usize },
}

/// The model of an `Outcome`, with the text of a missing reference as its characters.
pub ghost enum OutcomeView {
    Invalid { schema: usize, keyword: usize },
    NotIsValid,
    AnyOfNotMatched,
    OneOfNotMatched,
    OneOfMultipleMatched,
    ReferenceNotFound(Seq<char>),
    Annotation { schema: usize, keyword: usize },
}

pub open spec fn outcome_view(o: Outcome) -> OutcomeView {
    match o {
        Outcome::Invalid { schema, keyword } => OutcomeView::Invalid { schema, keyword },
        Outcome::NotIsValid => OutcomeView::NotIsValid,
        Outcome::AnyOfNotMatched => OutcomeView::AnyOfNotMatched,
        Outcome::OneOfNotMatched => OutcomeView::OneOfNotMatched,
        Outcome::OneOfMultipleMatched => OutcomeView::OneOfMultipleMatched,
        Outcome::ReferenceNotFound(u) => OutcomeView::ReferenceNotFound(u@),
        Outcome::Annotation { schema, keyword } => OutcomeView::Annotation { schema, keyword },
    }
}

impl Default for Outcome {
    fn default() -> (r: Outcome)
        ensures
            r == Outcome::NotIsValid,
    {
        Outcome::NotIsValid
    }
}

/// The model of a `FullContext`.
pub ghost struct ContextView {
    pub instance_ptr: Seq<char>,
    pub canonical_uri: Seq<char>,
    pub keyword_location: Seq<char>,
    pub span: Span,
}

pub open spec fn context_view(c: FullContext) -> ContextView {
    ContextView {
        instance_ptr: c.instance_ptr@,
        canonical_uri: c.canonical_uri@,
        keyword_location: c.keyword_location@,
        span: c.span,
    }
}

/// The model of an outcome together with the context in which it arose.
pub type Entry = (OutcomeView, ContextView);

pub open spec fn entry_of_pair(p: (Outcome, FullContext)) -> Entry {
    (outcome_view(p.0), context_view(p.1))
}

/// Every outcome but an annotation is an error.
pub open spec fn is_error(o: Outcome) -> bool {
    !(o is Annotation)
}

/// The error text of an outcome in basic output.
pub open spec fn describe(o: Outcome) -> Seq<char> {
    match o {
        Outcome::Invalid { schema, keyword } => "Invalid("@ + decimal(schema as nat) + ", "@ + decimal(keyword as nat) + ")"@,
        Outcome::NotIsValid => "NotIsValid"@,
        Outcome::AnyOfNotMatched => "AnyOfNotMatched"@,
        Outcome::OneOfNotMatched => "OneOfNotMatched"@,
        Outcome::OneOfMultipleMatched => "OneOfMultipleMatched"@,
        Outcome::ReferenceNotFound(u) => "ReferenceNotFound("@ + u@ + ")"@,
        Outcome::Annotation { schema, keyword } => "Annotation("@ + decimal(schema as nat) + ", "@ + decimal(keyword as nat) + ")"@,
    }
}

impl Outcome {
    /// Whether this outcome is an error rather than an annotation.
    pub fn is_error(&self) -> (r: bool)
        ensures
            r == is_error(*self),
    {
        match self {
            Outcome::Invalid { .. }
            | Outcome::NotIsValid
            | Outcome::AnyOfNotMatched
            | Outcome::OneOfNotMatched
            | Outcome::OneOfMultipleMatched
            | Outcome::ReferenceNotFound(_) => true,
            Outcome::Annotation { .. } => false,
        }
    }

    /// The error text of this outcome in basic output.
    pub fn describe(&self) -> (r: String)
        ensures
            r@ == describe(*self),
    {
        match self {
            Outcome::Invalid { schema, keyword } => {
                let mut s = String::from_str("Invalid(");
                s.append(write_decimal(*schema).as_str());
                s.append(", ");
                s.append(write_decimal(*keyword).as_str());
                s.append(")");
                s
            },
            Outcome::NotIsValid => String::from_str("NotIsValid"),
            Outcome::AnyOfNotMatched => String::from_str("AnyOfNotMatched"),
            Outcome::OneOfNotMatched => String::from_str("OneOfNotMatched"),
            Outcome::OneOfMultipleMatched => String::from_str("OneOfMultipleMatched"),
            Outcome::ReferenceNotFound(u) => {
                let mut s = String::from_str("ReferenceNotFound(");
                s.append(u.as_str());
                s.append(")");
                s
            },
            Outcome::Annotation { schema, keyword } => {
                let mut s = String::from_str("Annotation(");
                s.append(write_decimal(*schema).as_str());
                s.append(", ");
                s.append(write_decimal(*keyword).as_str());
                s.append(")");
                s
            },
        }
    }
}

/// Where an outcome arose: the instance's JSON Pointer, the canonical URI of the
/// schema, the keyword location through the applications that led there, and the span.
#[derive(Debug)]
pub struct FullContext {
    pub instance_ptr: String,
    pub canonical_uri: String,
    pub keyword_location: String,
    pub span: Span,
}

impl Default for FullContext {
    fn default() -> (r: FullContext)
        ensures
            r.instance_ptr@ == Seq::<char>::empty(),
            r.canonical_uri@ == Seq::<char>::empty(),
            r.keyword_location@ == Seq::<char>::empty(),
            r.span == (Span { begin: 0, end: 0, hashed: 0 }),
    {
        FullContext {
            instance_ptr: String::new(),
            canonical_uri: String::new(),
            keyword_location: String::new(),
            span: Span { begin: 0, end: 0, hashed: 0 },
        }
    }
}

/// One error of "basic" output.
pub struct BasicOutputEntry {
    pub keyword_location: String,
    pub instance_location: String,
    pub absolute_keyword_location: String,
    pub error: String,
}

/// The "basic" output format: the verdict and the errors, in the order found.
pub struct BasicOutput {
    pub valid: bool,
    pub errors: Vec<BasicOutputEntry>,
}

/// The four texts of a basic output entry.
pub type EntryView = (Seq<char>, Seq<char>, Seq<char>, Seq<char>);

pub open spec fn entry_view(e: BasicOutputEntry) -> EntryView {
    (e.keyword_location@, e.instance_location@, e.absolute_keyword_location@, e.error@)
}

/// The entry of `ctx` for the error text `error`.
pub open spec fn entry_of(ctx: FullContext, error: Seq<char>) -> EntryView {
    (ctx.keyword_location@, ctx.instance_ptr@, ctx.canonical_uri@, error)
}

/// The basic output entries of the error outcomes of `outcomes`, in order.
pub open spec fn basic_entries(outcomes: Seq<(Outcome, FullContext)>) -> Seq<EntryView>
    decreases outcomes.len(),
{
    if outcomes.len() == 0 {
        Seq::empty()
    } else {
        let rest = basic_entries(outcomes.drop_last());
        let (o, c) = outcomes.last();
        if is_error(o) {
            rest.push(entry_of(c, describe(o)))
        } else {
            rest
        }
    }
}

impl FullContext {
    /// The span of the token where the outcome arose.
    pub fn span(&self) -> (r: &Span)
        ensures
            *r == self.span,
    {
        &self.span
    }

    /// The basic output entry of an error that occurred within this context.
    pub fn basic_output_entry(&self, error: String) -> (r: BasicOutputEntry)
        ensures
            entry_view(r) == entry_of(*self, error@),
    {
        BasicOutputEntry {
            keyword_location: self.keyword_location.clone(),
            instance_location: self.instance_ptr.clone(),
            absolute_keyword_location: self.canonical_uri.clone(),
            error,
        }
    }
}

/// Builds "basic" output from validator outcomes: valid exactly when no outcome is an
/// error, with one entry per error outcome, in order.
pub fn build_basic_output(outcomes: &[(Outcome, FullContext)]) -> (r: BasicOutput)
    ensures
        r.errors@.map_values(|e: BasicOutputEntry| entry_view(e)) == basic_entries(outcomes@),
        r.valid == (basic_entries(outcomes@).len() == 0),
        r.valid == (forall|i: int| 0 <= i < outcomes@.len() ==> !is_error(#[trigger] outcomes@[i].0)),
{
    let mut errors: Vec<BasicOutputEntry> = Vec::new();
    let mut i: usize = 0;
    while i < outcomes.len()
        invariant
            i <= outcomes@.len(),
            errors@.map_values(|e: BasicOutputEntry| entry_view(e)) == basic_entries(outcomes@.subrange(0, i as int)),
            (errors@.len() == 0) == (forall|j: int| 0 <= j < i ==> !is_error(#[trigger] outcomes@[j].0)),
        decreases outcomes@.len() - i,
    {
        let ghost pre = outcomes@.subrange(0, i as int);
        assert(outcomes@.subrange(0, i + 1).drop_last() == pre);
        let (o, c) = &outcomes[i];
        if o.is_error() {
            let e = c.basic_output_entry(o.describe());
            errors.push(e);
            assert(errors@.map_values(|e: BasicOutputEntry| entry_view(e)) =~= basic_entries(outcomes@.subrange(0, i + 1)));
        } else {
            assert(errors@.map_values(|e: BasicOutputEntry| entry_view(e)) =~= basic_entries(outcomes@.subrange(0, i + 1)));
        }
        i = i + 1;
    }
    assert(outcomes@.subrange(0, outcomes@.len() as int) == outcomes@);
    let valid = errors.len() == 0;
    BasicOutput { valid, errors }
}

} // verus!
