use crate::checks::{validation_holds, Token};
use crate::location::{instance_pointer, Location, Span};
use crate::number::{num_integral, Number};
use crate::outcome::{ContextView, Entry, OutcomeView};
use crate::pointer::{decimal, escape_token};
use crate::schema::{Application, Schema, Validation, INTEGER, NUMBER};
use crate::scope::{
    anchored, any_of_failed, count_true, dyn_base, evaluated_at, finish_view, finished_invalid, finished_outcomes,
    one_of_matches, or_bits, promoted, scope_ok, scopes_ok, unwind_view, ScopeView,
};
use crate::uri::{url_join, without_empty_fragment};
use crate::validator::{
    recursive_target,
    checked_view, expand_closure, expanded, failures, item_pushed, property_pushed, uniq_failures, unique_view,
};
use vstd::prelude::*;

verus! {

/// Finishing a scope whose `unevaluated*` keywords recorded nothing leaves its
/// `evaluated` bits as they are, and they take no part in its validity. Otherwise each
/// bit absorbs the speculative result for its child, and a child that stays unevaluated
/// fails the scope (before any `not`).
pub proof fn unevaluated_children_decide(v: ScopeView, under_not: bool, annots: Seq<Entry>, ctx: ContextView)
    ensures
        v.valid_unevaluated.len() == 0 ==> finish_view(v, under_not, annots, ctx).evaluated == v.evaluated,
        v.valid_unevaluated.len() == 0 ==> (finished_invalid(v) <==> (v.invalid || any_of_failed(v) || one_of_matches(v) != 1)),
        forall|i: int| 0 <= i < v.evaluated.len() ==> #[trigger] finish_view(v, under_not, annots, ctx).evaluated[i]
            == (v.evaluated[i] || (i < v.valid_unevaluated.len() && v.valid_unevaluated[i])),
        (v.valid_unevaluated.len() > 0 && exists|i: int| 0 <= i < v.evaluated.len() && !(#[trigger] finish_view(v, under_not, annots, ctx).evaluated[i]))
            ==> finished_invalid(v),
        !under_not ==> finish_view(v, under_not, annots, ctx).invalid == finished_invalid(v),
{
    if v.valid_unevaluated.len() == 0 {
        assert(or_bits(v.evaluated, v.valid_unevaluated) =~= v.evaluated);
    }
    let f = finish_view(v, under_not, annots, ctx);
    if v.valid_unevaluated.len() > 0 && exists|i: int| 0 <= i < v.evaluated.len() && !(#[trigger] f.evaluated[i]) {
        let i = choose|i: int| 0 <= i < v.evaluated.len() && !(#[trigger] f.evaluated[i]);
        assert(or_bits(v.evaluated, v.valid_unevaluated)[i] == false);
        assert(or_bits(v.evaluated, v.valid_unevaluated).contains(false));
    }
}

/// With no `oneOf` alternative, `oneOf` counts as matched once.
pub proof fn absent_one_of_matches(v: ScopeView)
    requires
        v.valid_one_of.len() == 0,
    ensures
        one_of_matches(v) == 1,
{
}

/// With no `anyOf` alternative, `anyOf` does not fail.
pub proof fn absent_any_of_holds(v: ScopeView)
    requires
        v.valid_any_of.len() == 0,
    ensures
        !any_of_failed(v),
{
}

/// `oneOf` holds exactly when one alternative was valid: finishing fails a scope
/// otherwise, with `OneOfNotMatched` where none was and `OneOfMultipleMatched` where
/// several were; a scope that nothing else fails is valid exactly when one matched.
pub proof fn one_of_exactly_one(v: ScopeView, annots: Seq<Entry>, ctx: ContextView)
    ensures
        one_of_matches(v) != 1 ==> finish_view(v, false, annots, ctx).invalid,
        one_of_matches(v) == 0 ==> finish_view(v, false, annots, ctx).outcomes.contains((OutcomeView::OneOfNotMatched, ctx)),
        one_of_matches(v) > 1 ==> finish_view(v, false, annots, ctx).outcomes.contains((OutcomeView::OneOfMultipleMatched, ctx)),
        (!v.invalid && !any_of_failed(v) && v.valid_unevaluated.len() == 0)
            ==> (finish_view(v, false, annots, ctx).invalid <==> one_of_matches(v) != 1),
{
    let o1 = if any_of_failed(v) { v.outcomes.push((OutcomeView::AnyOfNotMatched, ctx)) } else { v.outcomes };
    let p = promoted(v.outcomes_unevaluated, v.evaluated);
    let f = finish_view(v, false, annots, ctx);
    if one_of_matches(v) == 0 {
        assert(f.outcomes == o1.push((OutcomeView::OneOfNotMatched, ctx)) + p);
        assert(f.outcomes[o1.len() as int] == (OutcomeView::OneOfNotMatched, ctx));
    } else if one_of_matches(v) > 1 {
        assert(f.outcomes == o1.push((OutcomeView::OneOfMultipleMatched, ctx)) + p);
        assert(f.outcomes[o1.len() as int] == (OutcomeView::OneOfMultipleMatched, ctx));
    }
    if v.valid_unevaluated.len() == 0 {
        assert(or_bits(v.evaluated, v.valid_unevaluated) =~= v.evaluated);
    }
}

/// Each `oneOf` alternative records its own validity in its parent, and never fails
/// the parent by itself.
pub proof fn one_of_records_alternative(child: ScopeView, parent: ScopeView, index: usize, idx: Option<usize>)
    ensures
        unwind_view(child, parent, Application::OneOf { index }, idx).valid_one_of == parent.valid_one_of.push(!child.invalid),
        unwind_view(child, parent, Application::OneOf { index }, idx).invalid == parent.invalid,
        count_true(parent.valid_one_of.push(!child.invalid)) == count_true(parent.valid_one_of) + if child.invalid { 0nat } else { 1nat },
{
    assert(parent.valid_one_of.push(!child.invalid).drop_last() == parent.valid_one_of);
}

/// `not` inverts the validity of the scope it applies, and keeps none of its outcomes:
/// an inner success becomes the single error `NotIsValid`, an inner failure a success
/// that carries only the scope's annotations. Its parent then takes that validity.
pub proof fn not_inverts(v: ScopeView, annots: Seq<Entry>, ctx: ContextView, parent: ScopeView, idx: Option<usize>)
    ensures
        finish_view(v, true, annots, ctx).invalid == !finished_invalid(v),
        finish_view(v, true, annots, ctx).outcomes == if finished_invalid(v) { annots } else { seq![(OutcomeView::NotIsValid, ctx)] },
        unwind_view(finish_view(v, true, annots, ctx), parent, Application::Not, idx).invalid
            == (parent.invalid || !finished_invalid(v)),
{
    assert(Seq::<Entry>::empty() + annots =~= annots);
}

/// Scope `j` lies on the chain of parents of scope `i` (itself included).
pub open spec fn on_chain(scopes: Seq<ScopeView>, i: int, j: int) -> bool
    decreases i,
{
    if !(0 <= i < scopes.len()) {
        false
    } else if i == j {
        true
    } else {
        match scopes[i].parent {
            Some((p, _)) => p < i && on_chain(scopes, p as int, j),
            None => false,
        }
    }
}

/// The recursion base of a scope is the canonical URI of the outermost scope on its
/// chain of parents whose schema carries `$recursiveAnchor`; where no such scope
/// exists there is none, and a `$recursiveRef` resolves against the scope's own URI.
pub proof fn recursive_base_is_outermost_anchor(schemas: Seq<Schema>, scopes: Seq<ScopeView>, i: int)
    requires
        scopes_ok(schemas, scopes),
        0 <= i < scopes.len(),
    ensures
        dyn_base(schemas, scopes, i) is None <==> forall|j: int| #[trigger] on_chain(scopes, i, j) ==> !anchored(schemas, scopes[j].schema),
        dyn_base(schemas, scopes, i) matches Some(b) ==> exists|j: int| {
            &&& #[trigger] on_chain(scopes, i, j)
            &&& anchored(schemas, scopes[j].schema)
            &&& b == schemas[scopes[j].schema as int].curi@
            &&& forall|q: int| #[trigger] on_chain(scopes, j, q) && q != j ==> !anchored(schemas, scopes[q].schema)
        },
    decreases i,
{
    assert(scope_ok(schemas, scopes, i));
    match scopes[i].parent {
        Some((p, _)) => {
            let p = p as int;
            recursive_base_is_outermost_anchor(schemas, scopes, p);
            assert forall|j: int| #[trigger] on_chain(scopes, i, j) implies j == i || on_chain(scopes, p, j) by {}
            assert forall|j: int| #[trigger] on_chain(scopes, p, j) implies on_chain(scopes, i, j) by {
                assert(i != j ==> on_chain(scopes, i, j) == on_chain(scopes, p, j));
                if i == j {
                    lemma_chain_below(scopes, p, j);
                }
            }
            match dyn_base(schemas, scopes, p) {
                Some(b) => {
                    let j = choose|j: int| {
                        &&& #[trigger] on_chain(scopes, p, j)
                        &&& anchored(schemas, scopes[j].schema)
                        &&& b == schemas[scopes[j].schema as int].curi@
                        &&& forall|q: int| #[trigger] on_chain(scopes, j, q) && q != j ==> !anchored(schemas, scopes[q].schema)
                    };
                    assert(on_chain(scopes, i, j));
                },
                None => {
                    if anchored(schemas, scopes[i].schema) {
                        assert(on_chain(scopes, i, i));
                        assert forall|q: int| #[trigger] on_chain(scopes, i, q) && q != i implies !anchored(schemas, scopes[q].schema) by {
                            assert(on_chain(scopes, p, q));
                        }
                    }
                },
            }
        },
        None => {
            assert forall|j: int| #[trigger] on_chain(scopes, i, j) implies j == i by {}
            if anchored(schemas, scopes[i].schema) {
                assert(on_chain(scopes, i, i));
            }
        },
    }
}

/// A scope on the chain of `p` lies at or below `p`.
proof fn lemma_chain_below(scopes: Seq<ScopeView>, p: int, j: int)
    requires
        on_chain(scopes, p, j),
    ensures
        j <= p,
    decreases p,
{
    if p != j {
        if let Some((q, _)) = scopes[p].parent {
            lemma_chain_below(scopes, q as int, j);
        }
    }
}

/// Expansion that has run to its end yields the same scopes for any larger fuel.
proof fn lemma_closure_settled(schemas: Seq<Schema>, s: Seq<ScopeView>, pivot: int, f: nat, g: nat, ptr: Seq<char>, span: Span)
    requires
        f <= g,
        expand_closure(schemas, s, pivot, f, ptr, span).1 >= expand_closure(schemas, s, pivot, f, ptr, span).0.len(),
    ensures
        expand_closure(schemas, s, pivot, g, ptr, span) == expand_closure(schemas, s, pivot, f, ptr, span),
    decreases f,
{
    if pivot >= s.len() {
    } else {
        assert(f > 0);
        lemma_closure_settled(schemas, crate::validator::expand_one(schemas, s, pivot, ptr, span), pivot + 1, (f - 1) as nat, (g - 1) as nat, ptr, span);
    }
}

/// Expansion is a function of the scopes it starts from: two complete expansions agree.
pub proof fn expansion_is_deterministic(schemas: Seq<Schema>, before: Seq<ScopeView>, pivot: int, a: Seq<ScopeView>, b: Seq<ScopeView>, ptr: Seq<char>, span: Span)
    requires
        expanded(schemas, before, pivot, a, ptr, span),
        expanded(schemas, before, pivot, b, ptr, span),
    ensures
        a == b,
{
    let fa = choose|fuel: nat| {
        let (s, p) = #[trigger] expand_closure(schemas, before, pivot, fuel, ptr, span);
        s == a && p >= s.len()
    };
    let fb = choose|fuel: nat| {
        let (s, p) = #[trigger] expand_closure(schemas, before, pivot, fuel, ptr, span);
        s == b && p >= s.len()
    };
    if fa <= fb {
        lemma_closure_settled(schemas, before, pivot, fa, fb, ptr, span);
    } else {
        lemma_closure_settled(schemas, before, pivot, fb, fa, ptr, span);
    }
}

/// Replaying the start of a property from the same scopes yields the same scopes,
/// outcomes and their contexts included.
pub proof fn property_replay_is_deterministic(
    schemas: Seq<Schema>,
    before: Seq<ScopeView>,
    from: int,
    name: Seq<char>,
    parent: Location,
    span: Span,
    a: Seq<ScopeView>,
    b: Seq<ScopeView>,
)
    requires
        property_pushed(schemas, before, from, name, parent, span, a),
        property_pushed(schemas, before, from, name, parent, span, b),
    ensures
        a == b,
{
    let to = before.len() as int;
    let ptr = instance_pointer(parent) + "/"@ + escape_token(name);
    let names = crate::validator::names_pushed(schemas, before, from, to - from);
    let ea = choose|x: Seq<ScopeView>|
        #[trigger] expanded(schemas, names, to, x, ptr, span) && expanded(
            schemas,
            crate::validator::props_pushed(schemas, crate::validator::props_marked(schemas, crate::validator::completed(schemas, x, to, from, Token::Str(name), span, parent), from, to, name), from, to - from, name),
            to,
            a,
            ptr,
            span,
        );
    let eb = choose|x: Seq<ScopeView>|
        #[trigger] expanded(schemas, names, to, x, ptr, span) && expanded(
            schemas,
            crate::validator::props_pushed(schemas, crate::validator::props_marked(schemas, crate::validator::completed(schemas, x, to, from, Token::Str(name), span, parent), from, to, name), from, to - from, name),
            to,
            b,
            ptr,
            span,
        );
    expansion_is_deterministic(schemas, names, to, ea, eb, ptr, span);
    expansion_is_deterministic(
        schemas,
        crate::validator::props_pushed(schemas, crate::validator::props_marked(schemas, crate::validator::completed(schemas, ea, to, from, Token::Str(name), span, parent), from, to, name), from, to - from, name),
        to,
        a,
        b,
        ptr,
        span,
    );
}

/// Replaying the start of an array item from the same scopes yields the same scopes,
/// outcomes and their contexts included.
pub proof fn item_replay_is_deterministic(
    schemas: Seq<Schema>,
    before: Seq<ScopeView>,
    from: int,
    parent: Location,
    index: usize,
    span: Span,
    a: Seq<ScopeView>,
    b: Seq<ScopeView>,
)
    requires
        item_pushed(schemas, before, from, parent, index, span, a),
        item_pushed(schemas, before, from, parent, index, span, b),
    ensures
        a == b,
{
    let to = before.len() as int;
    expansion_is_deterministic(
        schemas,
        crate::validator::items_pushed(schemas, crate::validator::items_marked(schemas, before, from, to, index), from, to - from, index),
        to,
        a,
        b,
        instance_pointer(parent) + "/"@ + decimal(index as nat),
        span,
    );
}

/// The outcome is an error: anything but an annotation.
pub open spec fn is_error_view(o: OutcomeView) -> bool {
    !(o is Annotation)
}

/// Some outcome of `s` is an error.
pub open spec fn has_error(s: Seq<Entry>) -> bool {
    exists|i: int| 0 <= i < s.len() && is_error_view(#[trigger] s[i].0)
}

/// No outcome of `s` is an error.
pub open spec fn no_errors(s: Seq<Entry>) -> bool {
    forall|i: int| 0 <= i < s.len() ==> !is_error_view(#[trigger] s[i].0)
}

/// A scope is failed exactly when one of its outcomes is an error.
pub open spec fn errors_match(v: ScopeView) -> bool {
    v.invalid <==> has_error(v.outcomes)
}

/// The speculative results of a scope account for themselves: an error held back for
/// a child comes from a failed speculative evaluation of that child, and once any was
/// recorded, each child is evaluated, speculatively valid, or has such an error.
pub open spec fn speculation_ok(v: ScopeView) -> bool {
    &&& forall|k: int| 0 <= k < v.outcomes_unevaluated.len() && is_error_view(#[trigger] v.outcomes_unevaluated[k].0.0) ==> {
        let j = v.outcomes_unevaluated[k].1;
        &&& j < v.evaluated.len()
        &&& j < v.valid_unevaluated.len()
        &&& !v.valid_unevaluated[j as int]
    }
    &&& v.valid_unevaluated.len() > 0 ==> forall|j: int| 0 <= j < v.evaluated.len() ==> {
        ||| #[trigger] v.evaluated[j]
        ||| (j < v.valid_unevaluated.len() && v.valid_unevaluated[j])
        ||| exists|k: int| 0 <= k < v.outcomes_unevaluated.len() && v.outcomes_unevaluated[k].1 == j
            && is_error_view(#[trigger] v.outcomes_unevaluated[k].0.0)
    }
}

proof fn lemma_has_error_concat(a: Seq<Entry>, b: Seq<Entry>)
    ensures
        has_error(a + b) <==> (has_error(a) || has_error(b)),
{
    if has_error(a + b) {
        let i = choose|i: int| 0 <= i < (a + b).len() && is_error_view(#[trigger] (a + b)[i].0);
        if i >= a.len() {
            assert(b[i - a.len()] == (a + b)[i]);
        }
    }
    if has_error(a) {
        let i = choose|i: int| 0 <= i < a.len() && is_error_view(#[trigger] a[i].0);
        assert((a + b)[i] == a[i]);
    }
    if has_error(b) {
        let i = choose|i: int| 0 <= i < b.len() && is_error_view(#[trigger] b[i].0);
        assert((a + b)[a.len() + i] == b[i]);
    }
}

proof fn lemma_has_error_push(a: Seq<Entry>, o: Entry)
    ensures
        has_error(a.push(o)) <==> (has_error(a) || is_error_view(o.0)),
{
    assert(a.push(o) == a + seq![o]);
    lemma_has_error_concat(a, seq![o]);
    if is_error_view(o.0) {
        assert(seq![o][0] == o);
    }
}

/// What `promoted` holds: the outcomes of the unclaimed children, and only those.
proof fn lemma_promoted(ou: Seq<(Entry, usize)>, ev: Seq<bool>)
    ensures
        forall|k: int| 0 <= k < ou.len() && !evaluated_at(ev, #[trigger] ou[k].1) ==> promoted(ou, ev).contains(ou[k].0),
        forall|i: int| 0 <= i < promoted(ou, ev).len() ==> exists|k: int| 0 <= k < ou.len() && !evaluated_at(ev, ou[k].1)
            && #[trigger] promoted(ou, ev)[i] == ou[k].0,
    decreases ou.len(),
{
    if ou.len() > 0 {
        let rest = ou.drop_last();
        lemma_promoted(rest, ev);
        let r = promoted(rest, ev);
        assert forall|k: int| 0 <= k < ou.len() && !evaluated_at(ev, #[trigger] ou[k].1) implies promoted(ou, ev).contains(ou[k].0) by {
            if k < ou.len() - 1 {
                assert(rest[k] == ou[k]);
                let i = choose|i: int| 0 <= i < r.len() && r[i] == ou[k].0;
                assert(promoted(ou, ev)[i] == r[i]);
            } else {
                assert(promoted(ou, ev)[r.len() as int] == ou[k].0);
            }
        }
        assert forall|i: int| 0 <= i < promoted(ou, ev).len() implies exists|k: int| 0 <= k < ou.len() && !evaluated_at(ev, ou[k].1)
            && #[trigger] promoted(ou, ev)[i] == ou[k].0 by {
            if i < r.len() {
                let k = choose|k: int| 0 <= k < rest.len() && !evaluated_at(ev, rest[k].1) && #[trigger] r[i] == rest[k].0;
                assert(ou[k] == rest[k]);
            } else {
                assert(ou[ou.len() - 1] == ou.last());
            }
        }
    }
}

/// Finishing keeps a scope failed exactly when it holds an error: `anyOf`, `oneOf`, a
/// child left unevaluated, and `not` each fail it with an error outcome to show for it.
pub proof fn finishing_keeps_errors_and_failure_together(v: ScopeView, under_not: bool, annots: Seq<Entry>, ctx: ContextView)
    requires
        errors_match(v),
        speculation_ok(v),
        no_errors(annots),
    ensures
        errors_match(finish_view(v, under_not, annots, ctx)),
{
    let f = finish_view(v, under_not, annots, ctx);
    let inv = finished_invalid(v);
    let o1 = if any_of_failed(v) { v.outcomes.push((OutcomeView::AnyOfNotMatched, ctx)) } else { v.outcomes };
    let c = one_of_matches(v);
    let o2 = if c == 0 {
        o1.push((OutcomeView::OneOfNotMatched, ctx))
    } else if c > 1 {
        o1.push((OutcomeView::OneOfMultipleMatched, ctx))
    } else {
        o1
    };
    let p = promoted(v.outcomes_unevaluated, v.evaluated);
    lemma_has_error_push(v.outcomes, (OutcomeView::AnyOfNotMatched, ctx));
    lemma_has_error_push(o1, (OutcomeView::OneOfNotMatched, ctx));
    lemma_has_error_push(o1, (OutcomeView::OneOfMultipleMatched, ctx));
    lemma_has_error_concat(o2, p);
    lemma_promoted(v.outcomes_unevaluated, v.evaluated);
    let folded = or_bits(v.evaluated, v.valid_unevaluated);
    if has_error(p) {
        let i = choose|i: int| 0 <= i < p.len() && is_error_view(#[trigger] p[i].0);
        let k = choose|k: int| 0 <= k < v.outcomes_unevaluated.len() && !evaluated_at(v.evaluated, v.outcomes_unevaluated[k].1)
            && #[trigger] p[i] == v.outcomes_unevaluated[k].0;
        let j = v.outcomes_unevaluated[k].1;
        assert(is_error_view(v.outcomes_unevaluated[k].0.0));
        assert(folded[j as int] == false);
        assert(folded.contains(false));
    }
    if v.valid_unevaluated.len() > 0 && folded.contains(false) {
        let j = choose|j: int| 0 <= j < folded.len() && folded[j] == false;
        assert(!v.evaluated[j]);
        let k = choose|k: int| 0 <= k < v.outcomes_unevaluated.len() && v.outcomes_unevaluated[k].1 == j
            && is_error_view(#[trigger] v.outcomes_unevaluated[k].0.0);
        assert(p.contains(v.outcomes_unevaluated[k].0));
        let i = choose|i: int| 0 <= i < p.len() && p[i] == v.outcomes_unevaluated[k].0;
        assert(is_error_view(p[i].0));
    }
    assert(has_error(finished_outcomes(v, ctx)) == inv);
    if under_not {
        if inv {
            assert(f.outcomes == annots);
        } else {
            assert(f.outcomes == seq![(OutcomeView::NotIsValid, ctx)]);
            assert(f.outcomes[0] == (OutcomeView::NotIsValid, ctx));
            assert(is_error_view(f.outcomes[0].0));
        }
    } else if !inv {
        lemma_has_error_concat(finished_outcomes(v, ctx), annots);
    }
}

/// Merging a child into its parent keeps the parent failed exactly when it holds an
/// error, given that the child is.
pub proof fn merging_keeps_errors_and_failure_together(child: ScopeView, parent: ScopeView, app: Application, idx: Option<usize>)
    requires
        errors_match(child),
        errors_match(parent),
    ensures
        errors_match(unwind_view(child, parent, app, idx)),
{
    lemma_has_error_concat(parent.outcomes, child.outcomes);
}

/// Checking validations keeps a scope failed exactly when it holds an error: each
/// failing validation adds one.
pub proof fn checking_keeps_errors_and_failure_together(schemas: Seq<Schema>, v: ScopeView, leaf: Token, span: Span, base: ContextView)
    requires
        errors_match(v),
    ensures
        errors_match(checked_view(schemas, v, leaf, span, base)),
{
    let f = failures(v.schema, schemas[v.schema as int].kw@, leaf, span, v, base);
    lemma_failures_are_errors(v.schema, schemas[v.schema as int].kw@, leaf, span, v, base);
    lemma_has_error_concat(v.outcomes, f);
    if f.len() > 0 {
        assert(is_error_view(f[0].0));
    }
}

proof fn lemma_failures_are_errors(schema: usize, kw: Seq<crate::schema::Keyword>, leaf: Token, span: Span, v: ScopeView, base: ContextView)
    ensures
        forall|i: int| 0 <= i < failures(schema, kw, leaf, span, v, base).len() ==> is_error_view(#[trigger] failures(schema, kw, leaf, span, v, base)[i].0),
    decreases kw.len(),
{
    if kw.len() > 0 {
        lemma_failures_are_errors(schema, kw.drop_last(), leaf, span, v, base);
        let rest = failures(schema, kw.drop_last(), leaf, span, v, base);
        let all = failures(schema, kw, leaf, span, v, base);
        assert forall|i: int| 0 <= i < all.len() implies is_error_view(#[trigger] all[i].0) by {
            if i < rest.len() {
                assert(all[i] == rest[i]);
            }
        }
    }
}

proof fn lemma_uniq_failures_are_errors(schema: usize, kw: Seq<crate::schema::Keyword>, base: ContextView)
    ensures
        forall|i: int| 0 <= i < uniq_failures(schema, kw, base).len() ==> is_error_view(#[trigger] uniq_failures(schema, kw, base)[i].0),
    decreases kw.len(),
{
    if kw.len() > 0 {
        lemma_uniq_failures_are_errors(schema, kw.drop_last(), base);
        let rest = uniq_failures(schema, kw.drop_last(), base);
        let all = uniq_failures(schema, kw, base);
        assert forall|i: int| 0 <= i < all.len() implies is_error_view(#[trigger] all[i].0) by {
            if i < rest.len() {
                assert(all[i] == rest[i]);
            }
        }
    }
}

/// Noting an array item keeps a scope failed exactly when it holds an error: a repeated
/// item fails it with one error per `uniqueItems`.
pub proof fn noting_items_keeps_errors_and_failure_together(schemas: Seq<Schema>, v: ScopeView, h: u64, base: ContextView)
    requires
        errors_match(v),
    ensures
        errors_match(unique_view(schemas, v, h, base)),
{
    let f = uniq_failures(v.schema, schemas[v.schema as int].kw@, base);
    lemma_uniq_failures_are_errors(v.schema, schemas[v.schema as int].kw@, base);
    lemma_has_error_concat(v.outcomes, f);
    if f.len() > 0 {
        assert(is_error_view(f[0].0));
    }
}

/// String lengths count Unicode scalar values: `minLength` and `maxLength` compare
/// their bound with the number of characters, whatever their UTF-8 width.
pub proof fn lengths_count_characters(s: Seq<char>, bound: usize, span: Span, v: ScopeView)
    ensures
        validation_holds(Validation::MinLength(bound), Token::Str(s), span, v) == (bound <= s.len()),
        validation_holds(Validation::MaxLength(bound), Token::Str(s), span, v) == (bound >= s.len()),
{
}

/// `type: integer` accepts a number exactly when it has no fractional part: `1.0`
/// (`1 * 2^0`) is accepted and `1.5` (`3 * 2^-1`) is not.
pub proof fn integer_type_is_integral_value(n: Number, span: Span, v: ScopeView)
    ensures
        validation_holds(Validation::Type(INTEGER), Token::Numeric(n), span, v) == num_integral(n),
        validation_holds(Validation::Type(NUMBER), Token::Numeric(n), span, v),
{
    assert(4u32 & (4u32 | 16u32) != 0u32) by (bit_vector);
    assert(4u32 & 16u32 == 0u32) by (bit_vector);
    assert(16u32 & (4u32 | 16u32) != 0u32) by (bit_vector);
    assert(16u32 & 16u32 != 0u32) by (bit_vector);
}

/// `uniqueItems` compares items by the hash of their span alone: of two items new to
/// a scope, the second repeats the first exactly when their hashes are equal.
pub proof fn unique_items_compare_hashes(schemas: Seq<Schema>, v: ScopeView, set: Set<u64>, h: u64, g: u64, base: ContextView)
    requires
        v.unique_items == Some(set),
        !set.contains(g),
        !set.contains(h),
    ensures
        unique_view(schemas, unique_view(schemas, v, g, base), h, base).invalid == (v.invalid || (h == g
            && uniq_failures(v.schema, schemas[v.schema as int].kw@, base).len() > 0)),
{
    if h == g {
        assert(set.insert(g).contains(h));
    } else {
        assert(!set.insert(g).contains(h));
    }
}

/// Without a `$recursiveAnchor` on the chain of parents of scope `i` (itself included),
/// a `$recursiveRef` of scope `i` resolves against the scope's own canonical URI.
pub proof fn recursive_ref_without_anchor_is_lexical(schemas: Seq<Schema>, scopes: Seq<ScopeView>, i: int, reference: Seq<char>)
    requires
        scopes_ok(schemas, scopes),
        0 <= i < scopes.len(),
        forall|j: int| #[trigger] on_chain(scopes, i, j) ==> !anchored(schemas, scopes[j].schema),
    ensures
        recursive_target(schemas, scopes, i, reference) == match url_join(schemas[scopes[i].schema as int].curi@, reference) {
            Some(t) => Some(without_empty_fragment(t)),
            None => None,
        },
{
    recursive_base_is_outermost_anchor(schemas, scopes, i);
}

} // verus!
