use crate::collections::{
    bits_get, bits_len, bits_new, bits_of, bits_push, bits_set, hashes_insert, hashes_new, outcome_items, outcomes_append,
    outcomes_clear, outcomes_len, outcomes_new, outcomes_push, outcomes_remove, outcomes_slice, pending_items, pending_len,
    pending_new, pending_push, pending_remove, BoolVec, HashSet, OutcomeVec, PendingVec,
};
use crate::index::Index;
use crate::location::{child_index, instance_pointer, Location, Span};
use crate::outcome::{context_view, entry_of_pair, outcome_view, ContextView, Entry, FullContext, Outcome, OutcomeView};
use crate::schema::{app_fragment, Application, Keyword, Schema};
use vstd::prelude::*;

verus! {

/// The model of a `Scope`: its fields, each outcome with its context reduced to an `Entry`.
pub ghost struct ScopeView {
    pub parent: Option<(usize, usize)>,
    pub schema: usize,
    pub invalid: bool,
    pub outcomes: Seq<Entry>,
    pub outcomes_unevaluated: Seq<(Entry, usize)>,
    pub seen_interned: u64,
    pub valid_if: Option<bool>,
    pub valid_any_of: Seq<bool>,
    pub valid_one_of: Seq<bool>,
    pub valid_contains: nat,
    pub unique_items: Option<Set<u64>>,
    pub evaluated: Seq<bool>,
    pub valid_unevaluated: Seq<bool>,
}

/// The model of a newly pushed `Scope`.
pub open spec fn fresh_scope(parent: Option<(usize, usize)>, schema: usize) -> ScopeView {
    ScopeView {
        parent,
        schema,
        invalid: false,
        outcomes: Seq::empty(),
        outcomes_unevaluated: Seq::empty(),
        seen_interned: 0,
        valid_if: None,
        valid_any_of: Seq::empty(),
        valid_one_of: Seq::empty(),
        valid_contains: 0,
        unique_items: None,
        evaluated: Seq::empty(),
        valid_unevaluated: Seq::empty(),
    }
}

/// One active evaluation of a schema at the current instance position.
///
/// `parent` is the position of the Scope that applied this one, and the position of
/// the applying keyword within that Scope's schema. `schema` is a position in the `Index`.
pub struct Scope {
    pub(crate) parent: Option<(usize, usize)>,
    pub(crate) schema: usize,
    pub(crate) invalid: bool,
    pub(crate) outcomes: OutcomeVec,
    pub(crate) outcomes_unevaluated: PendingVec,
    pub(crate) seen_interned: u64,
    pub(crate) valid_if: Option<bool>,
    pub(crate) valid_any_of: BoolVec,
    pub(crate) valid_one_of: BoolVec,
    pub(crate) valid_contains: usize,
    pub(crate) unique_items: Option<HashSet>,
    pub(crate) evaluated: BoolVec,
    pub(crate) valid_unevaluated: BoolVec,
}

/// The models of a sequence of scopes.
pub open spec fn views(s: Seq<Scope>) -> Seq<ScopeView> {
    s.map_values(|x: Scope| x@)
}

/// The application of keyword `k` of schema `schema`.
pub open spec fn app_of(schemas: Seq<Schema>, schema: usize, k: usize) -> Application {
    match schemas[schema as int].kw@[k as int] {
        Keyword::Application(a, _) => a,
        _ => arbitrary(),
    }
}

/// Keyword `k` of schema `schema` exists and is an application.
pub open spec fn is_app(schemas: Seq<Schema>, schema: usize, k: usize) -> bool {
    &&& schema < schemas.len()
    &&& k < schemas[schema as int].kw@.len()
    &&& schemas[schema as int].kw@[k as int] is Application
}

/// A scope whose parent, if any, is one of `parents`, applying it by an application keyword.
pub open spec fn parent_ok(schemas: Seq<Schema>, parents: Seq<ScopeView>, v: ScopeView) -> bool {
    &&& v.schema < schemas.len()
    &&& match v.parent {
        None => true,
        Some((p, k)) => p < parents.len() && is_app(schemas, parents[p as int].schema, k),
    }
}

/// Scope `i` of `scopes` is well formed: its parent stands below it, and only the
/// first scope has none.
pub open spec fn scope_ok(schemas: Seq<Schema>, scopes: Seq<ScopeView>, i: int) -> bool {
    &&& parent_ok(schemas, scopes.subrange(0, i), scopes[i])
    &&& (scopes[i].parent is None <==> i == 0)
}

pub open spec fn scopes_ok(schemas: Seq<Schema>, scopes: Seq<ScopeView>) -> bool {
    forall|i: int| 0 <= i < scopes.len() ==> #[trigger] scope_ok(schemas, scopes, i)
}

/// The application by which the parent applied scope `v`, if it has a parent.
pub open spec fn parent_app(schemas: Seq<Schema>, parents: Seq<ScopeView>, v: ScopeView) -> Option<Application> {
    match v.parent {
        None => None,
        Some((p, k)) => Some(app_of(schemas, parents[p as int].schema, k)),
    }
}

/// The keyword location of scope `i`: `#`, extended by each application on its
/// chain of parents.
pub open spec fn kw_location(schemas: Seq<Schema>, scopes: Seq<ScopeView>, i: int) -> Seq<char>
    decreases i,
{
    if 0 <= i < scopes.len() {
        match scopes[i].parent {
            Some((p, k)) => if p < i {
                kw_location(schemas, scopes, p as int) + app_fragment(app_of(schemas, scopes[p as int].schema, k))
            } else {
                "#"@
            },
            None => "#"@,
        }
    } else {
        "#"@
    }
}

/// The keyword location of scope `v`, whose parents are `parents`.
pub open spec fn scope_kw_location(schemas: Seq<Schema>, parents: Seq<ScopeView>, v: ScopeView) -> Seq<char> {
    match v.parent {
        Some((p, k)) => kw_location(schemas, parents, p as int) + app_fragment(app_of(schemas, parents[p as int].schema, k)),
        None => "#"@,
    }
}

/// The canonical URI of the outermost scope on the chain of parents of scope `i`
/// (itself included) whose schema begins with `$recursiveAnchor`.
pub open spec fn dyn_base(schemas: Seq<Schema>, scopes: Seq<ScopeView>, i: int) -> Option<Seq<char>>
    decreases i,
{
    if 0 <= i < scopes.len() {
        let outer = match scopes[i].parent {
            Some((p, _)) => if p < i { dyn_base(schemas, scopes, p as int) } else { None },
            None => None,
        };
        match outer {
            Some(b) => Some(b),
            None => if anchored(schemas, scopes[i].schema) {
                Some(schemas[scopes[i].schema as int].curi@)
            } else {
                None
            },
        }
    } else {
        None
    }
}

/// The text of an optional string slice.
pub open spec fn opt_view(o: Option<&str>) -> Option<Seq<char>> {
    match o {
        Some(s) => Some(s@),
        None => None,
    }
}

/// The first keyword of schema `schema` is `$recursiveAnchor`.
pub open spec fn anchored(schemas: Seq<Schema>, schema: usize) -> bool {
    schema < schemas.len() && schemas[schema as int].kw@.len() > 0
        && schemas[schema as int].kw@[0] is RecursiveAnchor
}

impl Scope {
    pub closed spec fn view(&self) -> ScopeView {
        ScopeView {
            parent: self.parent,
            schema: self.schema,
            invalid: self.invalid,
            outcomes: outcome_items(self.outcomes).map_values(|p: (Outcome, FullContext)| entry_of_pair(p)),
            outcomes_unevaluated: pending_items(self.outcomes_unevaluated).map_values(|p: (Outcome, FullContext, usize)| ((outcome_view(p.0), context_view(p.1)), p.2)),
            seen_interned: self.seen_interned,
            valid_if: self.valid_if,
            valid_any_of: bits_of(self.valid_any_of),
            valid_one_of: bits_of(self.valid_one_of),
            valid_contains: self.valid_contains as nat,
            unique_items: match self.unique_items {
                Some(s) => Some(s@),
                None => None,
            },
            evaluated: bits_of(self.evaluated),
            valid_unevaluated: bits_of(self.valid_unevaluated),
        }
    }

    /// A new scope of `schema`, applied by keyword `parent.1` of scope `parent.0`.
    pub fn new(parent: Option<(usize, usize)>, schema: usize) -> (r: Scope)
        ensures
            r@ == fresh_scope(parent, schema),
    {
        let r = Scope {
            parent,
            schema,
            invalid: false,
            outcomes: outcomes_new(),
            outcomes_unevaluated: pending_new(),
            seen_interned: 0,
            valid_if: None,
            valid_any_of: bits_new(),
            valid_one_of: bits_new(),
            valid_contains: 0,
            unique_items: None,
            evaluated: bits_new(),
            valid_unevaluated: bits_new(),
        };
        assert(r@.outcomes =~= Seq::<Entry>::empty());
        assert(r@.outcomes_unevaluated =~= Seq::<(Entry, usize)>::empty());
        r
    }

    /// Records an outcome of this scope.
    pub(crate) fn add_outcome(&mut self, o: Outcome, c: FullContext)
        ensures
            final(self)@ == (ScopeView { outcomes: old(self)@.outcomes.push((outcome_view(o), context_view(c))), ..old(self)@ }),
    {
        outcomes_push(&mut self.outcomes, (o, c));
        assert(self@.outcomes =~= old(self)@.outcomes.push((outcome_view(o), context_view(c))));
    }

    /// The keyword location of this scope, whose parents are `parents`.
    pub fn keyword_location(&self, parents: &[Scope], index: &Index) -> (r: String)
        requires
            scopes_ok(index@, views(parents@)),
            parent_ok(index@, views(parents@), self@),
        ensures
            r@ == scope_kw_location(index@, views(parents@), self@),
    {
        match self.parent {
            Some((p, k)) => {
                let s = location_of(parents, p, index);
                application(index, parents[p].schema, k).extend_fragment_pointer(s)
            },
            None => String::from_str("#"),
        }
    }

    /// The dynamic recursion base of this scope, whose parents are `parents`.
    pub fn dynamic_base<'a>(&self, parents: &[Scope], index: &'a Index) -> (r: Option<&'a str>)
        requires
            scopes_ok(index@, views(parents@)),
            parent_ok(index@, views(parents@), self@),
        ensures
            opt_view(r) == dyn_base(index@, views(parents@).push(self@), parents@.len() as int),
    {
        let ghost all = views(parents@).push(self@);
        let ghost n = parents@.len() as int;
        let outer = match self.parent {
            Some((p, _)) => base_of(parents, p, index),
            None => None,
        };
        proof {
            lemma_dyn_base_prefix(index@, views(parents@), self@);
        }
        match outer {
            Some(b) => Some(b),
            None => {
                let schema = index.get(self.schema);
                if schema.kw.len() > 0 {
                    if let Keyword::RecursiveAnchor = &schema.kw[0] {
                        return Some(schema.curi.as_str());
                    }
                }
                None
            },
        }
    }
}

/// Extending `scopes` leaves the recursion base of each scope unchanged.
proof fn lemma_dyn_base_prefix(schemas: Seq<Schema>, scopes: Seq<ScopeView>, v: ScopeView)
    ensures
        forall|i: int| 0 <= i < scopes.len() ==> dyn_base(schemas, scopes.push(v), i) == #[trigger] dyn_base(schemas, scopes, i),
{
    assert forall|i: int| 0 <= i < scopes.len() implies dyn_base(schemas, scopes.push(v), i) == #[trigger] dyn_base(schemas, scopes, i) by {
        lemma_dyn_base_prefix_at(schemas, scopes, v, i);
    }
}

proof fn lemma_dyn_base_prefix_at(schemas: Seq<Schema>, scopes: Seq<ScopeView>, v: ScopeView, i: int)
    requires
        0 <= i < scopes.len(),
    ensures
        dyn_base(schemas, scopes.push(v), i) == dyn_base(schemas, scopes, i),
    decreases i,
{
    assert(scopes.push(v)[i] == scopes[i]);
    if let Some((p, _)) = scopes[i].parent {
        if p < i {
            lemma_dyn_base_prefix_at(schemas, scopes, v, p as int);
        }
    }
}

/// The application of keyword `k` of schema `schema`.
pub(crate) fn application(index: &Index, schema: usize, k: usize) -> (r: &Application)
    requires
        is_app(index@, schema, k),
    ensures
        *r == app_of(index@, schema, k),
{
    match &index.get(schema).kw[k] {
        Keyword::Application(a, _) => a,
        _ => vstd::pervasive::unreached(),
    }
}

/// The keyword location of scope `i` of `scopes`.
fn location_of(scopes: &[Scope], i: usize, index: &Index) -> (r: String)
    requires
        i < scopes@.len(),
        scopes_ok(index@, views(scopes@)),
    ensures
        r@ == kw_location(index@, views(scopes@), i as int),
    decreases i,
{
    proof {
        assert(scope_ok(index@, views(scopes@), i as int));
    }
    match scopes[i].parent {
        Some((p, k)) => {
            let s = location_of(scopes, p, index);
            application(index, scopes[p].schema, k).extend_fragment_pointer(s)
        },
        None => String::from_str("#"),
    }
}

/// The recursion base of scope `i` of `scopes`.
pub(crate) fn base_of<'a>(scopes: &[Scope], i: usize, index: &'a Index) -> (r: Option<&'a str>)
    requires
        i < scopes@.len(),
        scopes_ok(index@, views(scopes@)),
    ensures
        opt_view(r) == dyn_base(index@, views(scopes@), i as int),
    decreases i,
{
    proof {
        assert(scope_ok(index@, views(scopes@), i as int));
    }
    let outer = match scopes[i].parent {
        Some((p, _)) => base_of(scopes, p, index),
        None => None,
    };
    match outer {
        Some(b) => Some(b),
        None => {
            let schema = index.get(scopes[i].schema);
            if schema.kw.len() > 0 {
                if let Keyword::RecursiveAnchor = &schema.kw[0] {
                    return Some(schema.curi.as_str());
                }
            }
            None
        },
    }
}

impl FullContext {
    /// The context of an outcome of `scope`, whose parents are `parents`, at `loc`.
    pub fn with_details(loc: &Location, span: &Span, index: &Index, scope: &Scope, parents: &[Scope]) -> (r: FullContext)
        requires
            scopes_ok(index@, views(parents@)),
            parent_ok(index@, views(parents@), scope@),
        ensures
            r.instance_ptr@ == instance_pointer(*loc),
            r.canonical_uri@ == index@[scope@.schema as int].curi@,
            r.keyword_location@ == scope_kw_location(index@, views(parents@), scope@),
            r.span == *span,
    {
        FullContext {
            instance_ptr: loc.pointer(),
            canonical_uri: index.get(scope.schema).curi.clone(),
            keyword_location: scope.keyword_location(parents, index),
            span: *span,
        }
    }
}



/// The number of `true` entries of `s`.
pub open spec fn count_true(s: Seq<bool>) -> nat
    decreases s.len(),
{
    if s.len() == 0 {
        0
    } else {
        count_true(s.drop_last()) + if s.last() { 1nat } else { 0nat }
    }
}

/// Child `i` was claimed by an evaluating application.
pub open spec fn evaluated_at(ev: Seq<bool>, i: usize) -> bool {
    i < ev.len() && ev[i as int]
}

/// `a`, with each entry or-ed with the entry of `b` at the same position, if any.
pub open spec fn or_bits(a: Seq<bool>, b: Seq<bool>) -> Seq<bool> {
    Seq::new(a.len(), |i: int| a[i] || (i < b.len() && b[i]))
}

/// The speculative outcomes whose child was not claimed, in order.
pub open spec fn promoted(ou: Seq<(Entry, usize)>, ev: Seq<bool>) -> Seq<Entry>
    decreases ou.len(),
{
    if ou.len() == 0 {
        Seq::empty()
    } else {
        let rest = promoted(ou.drop_last(), ev);
        if evaluated_at(ev, ou.last().1) {
            rest
        } else {
            rest.push(ou.last().0)
        }
    }
}

/// The annotation outcomes of the keywords `kw` of schema `schema`, in order, each in
/// the context `ctx`.
pub open spec fn annotations(schema: usize, kw: Seq<Keyword>, ctx: ContextView) -> Seq<Entry>
    decreases kw.len(),
{
    if kw.len() == 0 {
        Seq::empty()
    } else {
        let rest = annotations(schema, kw.drop_last(), ctx);
        if kw.last() is Annotation {
            rest.push((OutcomeView::Annotation { schema, keyword: (kw.len() - 1) as usize }, ctx))
        } else {
            rest
        }
    }
}

/// How many `oneOf` alternatives matched, an absent `oneOf` counting as one.
pub open spec fn one_of_matches(v: ScopeView) -> nat {
    (if v.valid_one_of.len() == 0 { 1nat } else { 0nat }) + count_true(v.valid_one_of)
}

/// `anyOf` is present and no alternative matched.
pub open spec fn any_of_failed(v: ScopeView) -> bool {
    v.valid_any_of.len() > 0 && !v.valid_any_of.contains(true)
}

/// The validity of scope `v` once its in-place applications have been unwound, before
/// a `not` that applied it is taken into account.
pub open spec fn finished_invalid(v: ScopeView) -> bool {
    v.invalid || any_of_failed(v) || one_of_matches(v) != 1
        || (v.valid_unevaluated.len() > 0 && or_bits(v.evaluated, v.valid_unevaluated).contains(false))
}

/// The outcomes of scope `v` once finished, before `not` and annotations; those it adds
/// arise in the context `ctx`.
pub open spec fn finished_outcomes(v: ScopeView, ctx: ContextView) -> Seq<Entry> {
    let o1 = if any_of_failed(v) { v.outcomes.push((OutcomeView::AnyOfNotMatched, ctx)) } else { v.outcomes };
    let c = one_of_matches(v);
    let o2 = if c == 0 {
        o1.push((OutcomeView::OneOfNotMatched, ctx))
    } else if c > 1 {
        o1.push((OutcomeView::OneOfMultipleMatched, ctx))
    } else {
        o1
    };
    o2 + promoted(v.outcomes_unevaluated, v.evaluated)
}

/// Scope `v` once finished: `under_not` tells whether a `not` applied it, `annots`
/// are the annotation outcomes of its schema, and `ctx` the context of what it adds.
pub open spec fn finish_view(v: ScopeView, under_not: bool, annots: Seq<Entry>, ctx: ContextView) -> ScopeView {
    let inv = finished_invalid(v);
    let invalid = if under_not { !inv } else { inv };
    let o = if under_not {
        if inv { Seq::empty() } else { seq![(OutcomeView::NotIsValid, ctx)] }
    } else {
        finished_outcomes(v, ctx)
    };
    ScopeView {
        invalid,
        outcomes: if invalid { o } else { o + annots },
        outcomes_unevaluated: Seq::empty(),
        evaluated: or_bits(v.evaluated, v.valid_unevaluated),
        ..v
    }
}

/// The context of an outcome of scope `v`, whose parents are `parents`, for the value
/// at the instance pointer `ptr` spanning `span`.
pub open spec fn scope_ctx(schemas: Seq<Schema>, parents: Seq<ScopeView>, v: ScopeView, ptr: Seq<char>, span: Span) -> ContextView {
    ContextView {
        instance_ptr: ptr,
        canonical_uri: schemas[v.schema as int].curi@,
        keyword_location: scope_kw_location(schemas, parents, v),
        span,
    }
}

/// Merging `child` into `parent` by `app` moves the child's outcomes out of it.
pub open spec fn drains(child: ScopeView, parent: ScopeView, app: Application, idx: Option<usize>) -> bool {
    match handle_of(app, parent) {
        Handle::RequiredInPlace | Handle::RequiredChild => true,
        Handle::OptionalInPlace => !child.invalid,
        Handle::UnevaluatedChild => idx is Some,
        Handle::Ignore => false,
    }
}

/// The application is `not`.
pub open spec fn is_not(app: Option<Application>) -> bool {
    app matches Some(Application::Not)
}

/// `s`, extended with `false` up to length `n`.
pub open spec fn pad(s: Seq<bool>, n: nat) -> Seq<bool> {
    if s.len() >= n {
        s
    } else {
        s + Seq::new((n - s.len()) as nat, |i: int| false)
    }
}

/// How the result of a child scope is merged into its parent.
pub enum Handle {
    RequiredInPlace,
    RequiredChild,
    OptionalInPlace,
    UnevaluatedChild,
    Ignore,
}

/// The handling of a child applied by `app`, given the state of its parent.
pub open spec fn handle_of(app: Application, parent: ScopeView) -> Handle {
    match app {
        Application::Def { .. } => Handle::Ignore,
        Application::AllOf { .. } | Application::Ref(_) | Application::RecursiveRef(_) | Application::Not => Handle::RequiredInPlace,
        Application::Then => if parent.valid_if == Some(true) { Handle::RequiredInPlace } else { Handle::Ignore },
        Application::Else => if parent.valid_if == Some(false) { Handle::RequiredInPlace } else { Handle::Ignore },
        Application::DependentSchema { if_interned, .. } => if if_interned & parent.seen_interned != 0 {
            Handle::RequiredInPlace
        } else {
            Handle::Ignore
        },
        Application::If | Application::AnyOf { .. } | Application::OneOf { .. } | Application::Contains => Handle::OptionalInPlace,
        Application::PatternProperties { .. }
        | Application::AdditionalProperties
        | Application::Items { .. }
        | Application::Properties { .. }
        | Application::PropertyNames
        | Application::AdditionalItems => Handle::RequiredChild,
        Application::UnevaluatedProperties | Application::UnevaluatedItems => Handle::UnevaluatedChild,
    }
}

/// The parent after it records the result of a child applied by `app`.
pub open spec fn record_view(child: ScopeView, parent: ScopeView, app: Application) -> ScopeView {
    let valid = !child.invalid;
    match app {
        Application::If => ScopeView { valid_if: Some(valid), ..parent },
        Application::AnyOf { .. } => ScopeView { valid_any_of: parent.valid_any_of.push(valid), ..parent },
        Application::OneOf { .. } => ScopeView { valid_one_of: parent.valid_one_of.push(valid), ..parent },
        Application::Contains => ScopeView {
            valid_contains: if valid && parent.valid_contains < usize::MAX { parent.valid_contains + 1 } else { parent.valid_contains },
            ..parent
        },
        _ => parent,
    }
}

/// The parent after the finished `child`, applied by `app` to the child at position
/// `idx` (if any) of the current container, is merged into it.
pub open spec fn unwind_view(child: ScopeView, parent: ScopeView, app: Application, idx: Option<usize>) -> ScopeView {
    let p = record_view(child, parent, app);
    match handle_of(app, parent) {
        Handle::RequiredInPlace => ScopeView {
            invalid: p.invalid || child.invalid,
            outcomes: p.outcomes + child.outcomes,
            evaluated: if child.invalid { p.evaluated } else { or_bits(p.evaluated, child.evaluated) },
            ..p
        },
        Handle::OptionalInPlace => if child.invalid {
            p
        } else {
            ScopeView {
                outcomes: p.outcomes + child.outcomes,
                evaluated: or_bits(p.evaluated, child.evaluated),
                ..p
            }
        },
        Handle::RequiredChild => ScopeView {
            invalid: p.invalid || child.invalid,
            outcomes: p.outcomes + child.outcomes,
            ..p
        },
        Handle::UnevaluatedChild => match idx {
            Some(ci) => ScopeView {
                outcomes_unevaluated: p.outcomes_unevaluated + child.outcomes.map_values(|o: Entry| (o, ci)),
                valid_unevaluated: pad(p.valid_unevaluated, ci as nat).push(!child.invalid),
                ..p
            },
            None => p,
        },
        Handle::Ignore => p,
    }
}


/// The handling of a child applied by `app`, given the state of its parent.
fn handle(app: &Application, parent: &Scope) -> (r: Handle)
    ensures
        r == handle_of(*app, parent@),
{
    match app {
        Application::Def { .. } => Handle::Ignore,
        Application::AllOf { .. } | Application::Ref(_) | Application::RecursiveRef(_) | Application::Not => Handle::RequiredInPlace,
        Application::Then => match parent.valid_if {
            Some(true) => Handle::RequiredInPlace,
            _ => Handle::Ignore,
        },
        Application::Else => match parent.valid_if {
            Some(false) => Handle::RequiredInPlace,
            _ => Handle::Ignore,
        },
        Application::DependentSchema { if_interned, .. } => if *if_interned & parent.seen_interned != 0 {
            Handle::RequiredInPlace
        } else {
            Handle::Ignore
        },
        Application::If | Application::AnyOf { .. } | Application::OneOf { .. } | Application::Contains => Handle::OptionalInPlace,
        Application::PatternProperties { .. }
        | Application::AdditionalProperties
        | Application::Items { .. }
        | Application::Properties { .. }
        | Application::PropertyNames
        | Application::AdditionalItems => Handle::RequiredChild,
        Application::UnevaluatedProperties | Application::UnevaluatedItems => Handle::UnevaluatedChild,
    }
}

/// Whether `s` holds `b`.
fn holds(s: &BoolVec, b: bool) -> (r: bool)
    ensures
        r == bits_of(*s).contains(b),
{
    let n = bits_len(s);
    let mut i: usize = 0;
    while i < n
        invariant
            n == bits_of(*s).len(),
            i <= n,
            forall|j: int| 0 <= j < i ==> bits_of(*s)[j] != b,
        decreases n - i,
    {
        if bits_get(s, i) == b {
            return true;
        }
        i = i + 1;
    }
    false
}

/// The number of `true` entries of `s`.
fn count_trues(s: &BoolVec) -> (r: usize)
    ensures
        r == count_true(bits_of(*s)),
{
    let ghost v = bits_of(*s);
    let len = bits_len(s);
    let mut n: usize = 0;
    let mut i: usize = 0;
    while i < len
        invariant
            v == bits_of(*s),
            len == v.len(),
            i <= len,
            n == count_true(v.subrange(0, i as int)),
            n <= i,
        decreases len - i,
    {
        assert(v.subrange(0, i + 1).drop_last() == v.subrange(0, i as int));
        if bits_get(s, i) {
            n = n + 1;
        }
        i = i + 1;
    }
    assert(v.subrange(0, len as int) == v);
    n
}

/// Ors `b` into `a`, entry by entry.
fn or_into(a: &mut BoolVec, b: &BoolVec)
    ensures
        bits_of(*final(a)) == or_bits(bits_of(*old(a)), bits_of(*b)),
{
    let ghost a0 = bits_of(*a);
    let n = bits_len(a);
    let m = bits_len(b);
    let mut i: usize = 0;
    while i < n
        invariant
            n == a0.len(),
            m == bits_of(*b).len(),
            i <= n,
            bits_of(*a).len() == n,
            forall|j: int| 0 <= j < i ==> #[trigger] bits_of(*a)[j] == (a0[j] || (j < bits_of(*b).len() && bits_of(*b)[j])),
            forall|j: int| i <= j < n ==> #[trigger] bits_of(*a)[j] == a0[j],
        decreases n - i,
    {
        if i < m && bits_get(b, i) {
            bits_set(a, i, true);
        }
        i = i + 1;
    }
    assert(bits_of(*a) =~= or_bits(a0, bits_of(*b)));
}

/// Concludes `scope`, whose parents are `parents`: checks `anyOf` and `oneOf`, promotes
/// the speculative outcomes of unclaimed children, folds speculative evaluations in,
/// inverts under `not`, and attaches annotations when valid.
pub(crate) fn finish_scope(scope: &mut Scope, parents: &[Scope], index: &Index, span: &Span, loc: &Location)
    requires
        scopes_ok(index@, views(parents@)),
        parent_ok(index@, views(parents@), old(scope)@),
    ensures
        ({
            let ctx = scope_ctx(index@, views(parents@), old(scope)@, instance_pointer(*loc), *span);
            final(scope)@ == finish_view(
                old(scope)@,
                is_not(parent_app(index@, views(parents@), old(scope)@)),
                annotations(old(scope)@.schema, index@[old(scope)@.schema as int].kw@, ctx),
                ctx,
            )
        }),
{
    let ghost v = scope@;
    let ghost cx = scope_ctx(index@, views(parents@), v, instance_pointer(*loc), *span);
    let ghost o0 = v.outcomes;
    if bits_len(&scope.valid_any_of) > 0 && !holds(&scope.valid_any_of, true) {
        scope.invalid = true;
        let ctx = FullContext::with_details(loc, span, index, scope, parents);
        scope.add_outcome(Outcome::AnyOfNotMatched, ctx);
    }
    let ghost o1 = scope@.outcomes;
    assert(o1 == if any_of_failed(v) { o0.push((OutcomeView::AnyOfNotMatched, cx)) } else { o0 });
    let c: usize = count_trues(&scope.valid_one_of);
    let c: usize = if bits_len(&scope.valid_one_of) == 0 { c + 1 } else { c };
    if c == 0 {
        scope.invalid = true;
        let ctx = FullContext::with_details(loc, span, index, scope, parents);
        scope.add_outcome(Outcome::OneOfNotMatched, ctx);
    } else if c > 1 {
        scope.invalid = true;
        let ctx = FullContext::with_details(loc, span, index, scope, parents);
        scope.add_outcome(Outcome::OneOfMultipleMatched, ctx);
    }
    let ghost o2 = scope@.outcomes;
    assert(scope@.invalid == (v.invalid || any_of_failed(v) || one_of_matches(v) != 1));

    // Promote the speculative outcomes of children that nothing else claimed.
    let mut pending = pending_new();
    std::mem::swap(&mut pending, &mut scope.outcomes_unevaluated);
    let ghost ou = v.outcomes_unevaluated;
    let ghost orig = pending_items(pending);
    let ghost n = orig.len();
    assert(ou == orig.map_values(|p: (Outcome, FullContext, usize)| ((outcome_view(p.0), context_view(p.1)), p.2)));
    let ghost mut k: int = 0;
    assert(scope@.outcomes_unevaluated =~= Seq::<(Entry, usize)>::empty());
    assert(ou.subrange(0, 0) =~= Seq::<(Entry, usize)>::empty());
    assert(o2 + promoted(ou.subrange(0, 0), v.evaluated) =~= o2);
    while pending_len(&pending) > 0
        invariant
            0 <= k <= n,
            pending_items(pending) == orig.subrange(k, n as int),
            ou == orig.map_values(|p: (Outcome, FullContext, usize)| ((outcome_view(p.0), context_view(p.1)), p.2)),
            n == orig.len(),
            scope@.outcomes == o2 + promoted(ou.subrange(0, k), v.evaluated),
            scope@.evaluated == v.evaluated,
            scope@.invalid == (v.invalid || any_of_failed(v) || one_of_matches(v) != 1),
            scope@.parent == v.parent,
            scope@.schema == v.schema,
            scope@.valid_unevaluated == v.valid_unevaluated,
            scope@.outcomes_unevaluated == Seq::<(Entry, usize)>::empty(),
            scope@ == (ScopeView { outcomes: scope@.outcomes, invalid: scope@.invalid, outcomes_unevaluated: Seq::empty(), ..v }),
        decreases pending_items(pending).len(),
    {
        let (o, ctx, ind) = pending_remove(&mut pending, 0);
        assert(ou.subrange(0, k + 1).drop_last() == ou.subrange(0, k));
        assert(ou[k] == ((outcome_view(o), context_view(ctx)), ind));
        let claimed = ind < bits_len(&scope.evaluated) && bits_get(&scope.evaluated, ind);
        if !claimed {
            scope.add_outcome(o, ctx);
        }
        proof {
            k = k + 1;
            assert(pending_items(pending) =~= orig.subrange(k, n as int));
        }
    }
    assert(ou.subrange(0, n as int) == ou);
    assert(scope@.outcomes == finished_outcomes(v, cx));

    // Fold successful speculative applications into `evaluated`.
    or_into(&mut scope.evaluated, &scope.valid_unevaluated);
    if bits_len(&scope.valid_unevaluated) > 0 && holds(&scope.evaluated, false) {
        scope.invalid = true;
    }
    assert(scope@.invalid == finished_invalid(v));

    let under_not = match scope.parent {
        Some((p, k)) => match application(index, parents[p].schema, k) {
            Application::Not => true,
            _ => false,
        },
        None => false,
    };
    if under_not {
        outcomes_clear(&mut scope.outcomes);
        scope.invalid = !scope.invalid;
        if scope.invalid {
            let ctx = FullContext::with_details(loc, span, index, scope, parents);
            scope.add_outcome(Outcome::NotIsValid, ctx);
        }
        assert(scope@.outcomes =~= if finished_invalid(v) { Seq::empty() } else { seq![(OutcomeView::NotIsValid, cx)] });
    }
    let ghost o4 = scope@.outcomes;

    // Attach the schema's annotations to a valid scope.
    if !scope.invalid {
        let schema = index.get(scope.schema);
        let sid = scope.schema;
        let mut k: usize = 0;
        assert(schema.kw@.subrange(0, 0) =~= Seq::<Keyword>::empty());
        assert(o4 + annotations(sid, schema.kw@.subrange(0, 0), cx) =~= o4);
        while k < schema.kw.len()
            invariant
                k <= schema.kw@.len(),
                *schema == index@[sid as int],
                sid == v.schema,
                scope@.schema == sid,
                scopes_ok(index@, views(parents@)),
                parent_ok(index@, views(parents@), scope@),
                scope@.outcomes == o4 + annotations(sid, schema.kw@.subrange(0, k as int), cx),
                cx == scope_ctx(index@, views(parents@), v, instance_pointer(*loc), *span),
                scope@ == (ScopeView { outcomes: scope@.outcomes, ..scope@ }),
                !scope@.invalid,
                scope@.invalid == (if under_not { !finished_invalid(v) } else { finished_invalid(v) }),
                scope@.evaluated == or_bits(v.evaluated, v.valid_unevaluated),
                scope@.outcomes_unevaluated == Seq::<(Entry, usize)>::empty(),
                scope@ == (ScopeView { outcomes: scope@.outcomes, invalid: scope@.invalid, outcomes_unevaluated: Seq::empty(), evaluated: scope@.evaluated, ..v }),
            decreases schema.kw@.len() - k,
        {
            assert(schema.kw@.subrange(0, k + 1).drop_last() == schema.kw@.subrange(0, k as int));
            if let Keyword::Annotation(_) = &schema.kw[k] {
                let ctx = FullContext::with_details(loc, span, index, scope, parents);
                scope.add_outcome(Outcome::Annotation { schema: sid, keyword: k }, ctx);
            }
            k = k + 1;
        }
        assert(schema.kw@.subrange(0, schema.kw@.len() as int) == schema.kw@);
    }
}

/// Moves the outcomes of `from` onto the end of `to`.
fn move_outcomes(to: &mut OutcomeVec, from: &mut OutcomeVec)
    ensures
        outcome_items(*final(to)).map_values(|p: (Outcome, FullContext)| entry_of_pair(p))
            == outcome_items(*old(to)).map_values(|p: (Outcome, FullContext)| entry_of_pair(p))
            + outcome_items(*old(from)).map_values(|p: (Outcome, FullContext)| entry_of_pair(p)),
        outcome_items(*final(from)).len() == 0,
{
    let ghost t0 = outcome_items(*to);
    let ghost f0 = outcome_items(*from);
    outcomes_append(to, from);
    assert(outcome_items(*to).map_values(|p: (Outcome, FullContext)| entry_of_pair(p)) =~= t0.map_values(
        |p: (Outcome, FullContext)| entry_of_pair(p),
    ) + f0.map_values(|p: (Outcome, FullContext)| entry_of_pair(p)));
}

/// Merges the finished `scope`, applied by `app`, into its `parent`; `loc` is the
/// location of the value that both evaluated.
pub(crate) fn unwind_scope(scope: &mut Scope, parent: &mut Scope, app: &Application, loc: &Location)
    ensures
        final(parent)@ == unwind_view(old(scope)@, old(parent)@, *app, child_index(*loc)),
        final(scope)@ == (ScopeView {
            outcomes: if drains(old(scope)@, old(parent)@, *app, child_index(*loc)) { Seq::empty() } else { old(scope)@.outcomes },
            ..old(scope)@
        }),
{
    let ghost c = scope@;
    let ghost p0 = parent@;
    let h = handle(app, parent);
    let valid = !scope.invalid;
    match app {
        Application::If => {
            parent.valid_if = Some(valid);
        },
        Application::AnyOf { .. } => {
            bits_push(&mut parent.valid_any_of, valid);
        },
        Application::OneOf { .. } => {
            bits_push(&mut parent.valid_one_of, valid);
        },
        Application::Contains => {
            if valid && parent.valid_contains < usize::MAX {
                parent.valid_contains = parent.valid_contains + 1;
            }
        },
        _ => {},
    }
    let ghost p1 = parent@;
    assert(p1 == record_view(c, p0, *app));
    match h {
        Handle::RequiredInPlace => {
            parent.invalid = parent.invalid || scope.invalid;
            move_outcomes(&mut parent.outcomes, &mut scope.outcomes);
            assert(scope@.outcomes =~= Seq::<Entry>::empty());
            if valid {
                or_into(&mut parent.evaluated, &scope.evaluated);
            }
        },
        Handle::OptionalInPlace => {
            if valid {
                move_outcomes(&mut parent.outcomes, &mut scope.outcomes);
                assert(scope@.outcomes =~= Seq::<Entry>::empty());
                or_into(&mut parent.evaluated, &scope.evaluated);
            }
        },
        Handle::RequiredChild => {
            parent.invalid = parent.invalid || scope.invalid;
            move_outcomes(&mut parent.outcomes, &mut scope.outcomes);
            assert(scope@.outcomes =~= Seq::<Entry>::empty());
        },
        Handle::UnevaluatedChild => {
            if let Some(ci) = loc.index() {
                let ghost co = c.outcomes;
                let ghost n = outcome_items(scope.outcomes).len();
                let ghost orig = outcome_items(scope.outcomes);
                let ghost base = parent@.outcomes_unevaluated;
                let ghost mut k: int = 0;
                assert(co.subrange(0, 0).map_values(|o: Entry| (o, ci)) =~= Seq::<(Entry, usize)>::empty());
                assert(base + co.subrange(0, 0).map_values(|o: Entry| (o, ci)) =~= base);
                while outcomes_len(&scope.outcomes) > 0
                    invariant
                        0 <= k <= n,
                        n == orig.len(),
                        co == orig.map_values(|p: (Outcome, FullContext)| entry_of_pair(p)),
                        outcome_items(scope.outcomes) == orig.subrange(k, n as int),
                        scope@ == (ScopeView { outcomes: scope@.outcomes, ..c }),
                        parent@.outcomes_unevaluated == base + co.subrange(0, k).map_values(|o: Entry| (o, ci)),
                        parent@ == (ScopeView { outcomes_unevaluated: parent@.outcomes_unevaluated, ..p1 }),
                    decreases outcome_items(scope.outcomes).len(),
                {
                    let (o, ctx) = outcomes_remove(&mut scope.outcomes, 0);
                    assert(orig.subrange(k, n as int)[0] == orig[k]);
                    assert(co[k] == (outcome_view(o), context_view(ctx)));
                    let ghost before = parent@.outcomes_unevaluated;
                    pending_push(&mut parent.outcomes_unevaluated, (o, ctx, ci));
                    assert(parent@.outcomes_unevaluated == before.push(((outcome_view(o), context_view(ctx)), ci)));
                    proof {
                        assert(co.subrange(0, k + 1).map_values(|o: Entry| (o, ci))
                            =~= co.subrange(0, k).map_values(|o: Entry| (o, ci)).push((co[k], ci)));
                        k = k + 1;
                        assert(outcome_items(scope.outcomes) =~= orig.subrange(k, n as int));
                        assert(parent@.outcomes_unevaluated =~= base + co.subrange(0, k).map_values(|o: Entry| (o, ci)));
                    }
                }
                assert(co.subrange(0, n as int) == co);
                assert(scope@.outcomes =~= Seq::<Entry>::empty());
                let ghost vu = bits_of(parent.valid_unevaluated);
                while bits_len(&parent.valid_unevaluated) < ci
                    invariant
                        vu == p1.valid_unevaluated,
                        bits_of(parent.valid_unevaluated).len() <= if vu.len() >= ci { vu.len() } else { ci as nat },
                        bits_of(parent.valid_unevaluated) == vu + Seq::new((bits_of(parent.valid_unevaluated).len() - vu.len()) as nat, |i: int| false),
                        bits_of(parent.valid_unevaluated).len() >= vu.len(),
                        parent@ == (ScopeView { valid_unevaluated: parent@.valid_unevaluated, ..parent@ }),
                        parent@.outcomes_unevaluated == base + co.map_values(|o: Entry| (o, ci)),
                        parent@ == (ScopeView { outcomes_unevaluated: parent@.outcomes_unevaluated, valid_unevaluated: parent@.valid_unevaluated, ..p1 }),
                    decreases ci - bits_of(parent.valid_unevaluated).len(),
                {
                    bits_push(&mut parent.valid_unevaluated, false);
                    assert(bits_of(parent.valid_unevaluated) =~= vu + Seq::new((bits_of(parent.valid_unevaluated).len() - vu.len()) as nat, |i: int| false));
                }
                assert(bits_of(parent.valid_unevaluated) =~= pad(vu, ci as nat));
                bits_push(&mut parent.valid_unevaluated, valid);
            }
        },
        Handle::Ignore => {},
    }
}

impl Scope {
    pub fn schema(&self) -> (r: usize)
        ensures
            r == self@.schema,
    {
        self.schema
    }

    pub fn parent(&self) -> (r: Option<(usize, usize)>)
        ensures
            r == self@.parent,
    {
        self.parent
    }

    pub fn invalid(&self) -> (r: bool)
        ensures
            r == self@.invalid,
    {
        self.invalid
    }

    pub fn seen_interned(&self) -> (r: u64)
        ensures
            r == self@.seen_interned,
    {
        self.seen_interned
    }

    pub fn valid_contains(&self) -> (r: usize)
        ensures
            r == self@.valid_contains,
    {
        self.valid_contains
    }

    /// The outcomes of this scope, with their contexts.
    pub fn outcomes(&self) -> (r: &[(Outcome, FullContext)])
        ensures
            r@.map_values(|p: (Outcome, FullContext)| entry_of_pair(p)) == self@.outcomes,
    {
        outcomes_slice(&self.outcomes)
    }

    /// Marks this scope as failed, with outcome `o`.
    pub(crate) fn fail(&mut self, o: Outcome, c: FullContext)
        ensures
            final(self)@ == (ScopeView { invalid: true, outcomes: old(self)@.outcomes.push((outcome_view(o), context_view(c))), ..old(self)@ }),
    {
        self.invalid = true;
        self.add_outcome(o, c);
    }

    /// Notes the property-name bits `bits` as seen.
    pub(crate) fn add_seen(&mut self, bits: u64)
        ensures
            final(self)@ == (ScopeView { seen_interned: old(self)@.seen_interned | bits, ..old(self)@ }),
    {
        self.seen_interned = self.seen_interned | bits;
    }

    /// Appends whether the next child was evaluated.
    pub(crate) fn push_evaluated(&mut self, b: bool)
        ensures
            final(self)@ == (ScopeView { evaluated: old(self)@.evaluated.push(b), ..old(self)@ }),
    {
        bits_push(&mut self.evaluated, b);
    }

    /// Starts collecting the hashes of the items of this scope, afresh.
    pub(crate) fn track_unique_items(&mut self)
        ensures
            final(self)@ == (ScopeView { unique_items: Some(Set::empty()), ..old(self)@ }),
    {
        self.unique_items = Some(hashes_new());
    }

    /// Records the item hash `h` where item hashes are collected. Returns whether it
    /// was already recorded.
    pub(crate) fn note_item(&mut self, h: u64) -> (dup: bool)
        ensures
            match old(self)@.unique_items {
                Some(set) => dup == set.contains(h) && final(self)@ == (ScopeView { unique_items: Some(set.insert(h)), ..old(self)@ }),
                None => !dup && final(self)@ == old(self)@,
            },
    {
        match &mut self.unique_items {
            Some(set) => !hashes_insert(set, h),
            None => false,
        }
    }
}

} // verus!
