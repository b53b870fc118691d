use crate::checks::{check, token, validation_holds, Leaf, Token};
use crate::index::{has_curi, Index, IndexError};
use crate::location::{child_index, instance_pointer, Location, LocatedItem, LocatedProperty, Span};
use crate::pointer::{decimal, escape_token};
use crate::number::Number;
use crate::outcome::{context_view, entry_of_pair, outcome_view, ContextView, Entry, FullContext, Outcome, OutcomeView};
use crate::pattern::regex_matches;
use crate::schema::{interned, validation_fragment, Application, Keyword, Schema, Validation};
use crate::scope::{
    annotations, app_of, application, base_of, dyn_base, finish_scope, finish_view, fresh_scope, is_app, is_not,
    kw_location, parent_app, parent_ok, scope_ctx, scope_ok, scopes_ok, unwind_scope, unwind_view,
    views, Scope, ScopeView,
};
use crate::uri::{join, strip_empty_fragment, url_join, without_empty_fragment};
use vstd::prelude::*;

verus! {

/// The position of the schema whose canonical URI is `uri`, if any.
pub open spec fn lookup(schemas: Seq<Schema>, uri: Seq<char>) -> Option<usize> {
    if has_curi(schemas, uri) {
        Some(choose|i: usize| i < schemas.len() && (#[trigger] schemas[i as int]).curi@ == uri)
    } else {
        None
    }
}

/// `v`, failed with outcome `o` in its context.
pub open spec fn failed(v: ScopeView, o: Entry) -> ScopeView {
    ScopeView { invalid: true, outcomes: v.outcomes.push(o), ..v }
}

/// Scopes after scope `i` resolves a reference, applied by its keyword `k`, to `uri`,
/// at the value with instance pointer `ptr` spanning `span`.
pub open spec fn resolve(schemas: Seq<Schema>, scopes: Seq<ScopeView>, i: int, k: int, uri: Seq<char>, ptr: Seq<char>, span: Span) -> Seq<ScopeView> {
    match lookup(schemas, uri) {
        Some(t) => scopes.push(fresh_scope(Some((i as usize, k as usize)), t)),
        None => scopes.update(i, failed(scopes[i], (OutcomeView::ReferenceNotFound(uri), scope_ctx(schemas, scopes, scopes[i], ptr, span)))),
    }
}

/// The URI that a `$recursiveRef` of `reference`, applied by scope `i`, resolves to.
pub open spec fn recursive_target(schemas: Seq<Schema>, scopes: Seq<ScopeView>, i: int, reference: Seq<char>) -> Option<Seq<char>> {
    let base = match dyn_base(schemas, scopes, i) {
        Some(b) => b,
        None => schemas[scopes[i].schema as int].curi@,
    };
    match url_join(base, reference) {
        Some(j) => Some(without_empty_fragment(j)),
        None => None,
    }
}

/// Scopes after scope `i` expands its keyword `k`: an in-place application pushes a
/// scope of its target, and `uniqueItems` starts collecting item hashes.
pub open spec fn expand_kw(schemas: Seq<Schema>, scopes: Seq<ScopeView>, i: int, k: int, ptr: Seq<char>, span: Span) -> Seq<ScopeView> {
    let v = scopes[i];
    match schemas[v.schema as int].kw@[k] {
        Keyword::Validation(Validation::UniqueItems) => scopes.update(i, ScopeView { unique_items: Some(Set::empty()), ..v }),
        Keyword::Application(app, sub) => match app {
            Application::AllOf { .. }
            | Application::AnyOf { .. }
            | Application::OneOf { .. }
            | Application::Not
            | Application::If
            | Application::Then
            | Application::Else
            | Application::DependentSchema { .. } => scopes.push(fresh_scope(Some((i as usize, k as usize)), sub)),
            Application::Ref(uri) => resolve(schemas, scopes, i, k, uri@, ptr, span),
            Application::RecursiveRef(uri) => match recursive_target(schemas, scopes, i, uri@) {
                Some(t) => resolve(schemas, scopes, i, k, t, ptr, span),
                None => scopes.update(i, failed(v, (OutcomeView::ReferenceNotFound(uri@), scope_ctx(schemas, scopes, v, ptr, span)))),
            },
            _ => scopes,
        },
        _ => scopes,
    }
}

/// Scopes after scope `i` expands its first `n` keywords.
pub open spec fn expand_upto(schemas: Seq<Schema>, scopes: Seq<ScopeView>, i: int, n: int, ptr: Seq<char>, span: Span) -> Seq<ScopeView>
    decreases n,
{
    if n <= 0 {
        scopes
    } else {
        expand_kw(schemas, expand_upto(schemas, scopes, i, n - 1, ptr, span), i, n - 1, ptr, span)
    }
}

/// Scopes after scope `i` expands all its keywords.
pub open spec fn expand_one(schemas: Seq<Schema>, scopes: Seq<ScopeView>, i: int, ptr: Seq<char>, span: Span) -> Seq<ScopeView> {
    expand_upto(schemas, scopes, i, schemas[scopes[i].schema as int].kw@.len() as int, ptr, span)
}

/// Scopes after expanding scopes `pivot..` in turn, newly pushed ones included, for
/// at most `fuel` steps; with the position reached.
pub open spec fn expand_closure(schemas: Seq<Schema>, scopes: Seq<ScopeView>, pivot: int, fuel: nat, ptr: Seq<char>, span: Span) -> (Seq<ScopeView>, int)
    decreases fuel,
{
    if pivot >= scopes.len() || fuel == 0 {
        (scopes, pivot)
    } else {
        expand_closure(schemas, expand_one(schemas, scopes, pivot, ptr, span), pivot + 1, (fuel - 1) as nat, ptr, span)
    }
}

/// `after` is `before` with scopes `pivot..` expanded until no scope is left to expand,
/// at the value with instance pointer `ptr` spanning `span`.
pub open spec fn expanded(schemas: Seq<Schema>, before: Seq<ScopeView>, pivot: int, after: Seq<ScopeView>, ptr: Seq<char>, span: Span) -> bool {
    exists|fuel: nat| {
        let (s, p) = #[trigger] expand_closure(schemas, before, pivot, fuel, ptr, span);
        s == after && p >= s.len()
    }
}

/// The context of a failed validation `val` of a scope whose context is `base`: its
/// keyword location is extended by the validation keyword.
pub open spec fn at_keyword(base: ContextView, val: Validation) -> ContextView {
    ContextView { keyword_location: base.keyword_location + validation_fragment(val), ..base }
}

/// The `Invalid` outcomes of the validations among keywords `kw` of schema `schema`
/// that fail of `leaf`, in order, each in the context of its keyword within `base`.
pub open spec fn failures(schema: usize, kw: Seq<Keyword>, leaf: Token, span: Span, v: ScopeView, base: ContextView) -> Seq<Entry>
    decreases kw.len(),
{
    if kw.len() == 0 {
        Seq::empty()
    } else {
        let rest = failures(schema, kw.drop_last(), leaf, span, v, base);
        match kw.last() {
            Keyword::Validation(val) => if validation_holds(val, leaf, span, v) {
                rest
            } else {
                rest.push((OutcomeView::Invalid { schema, keyword: (kw.len() - 1) as usize }, at_keyword(base, val)))
            },
            _ => rest,
        }
    }
}

/// Scope `v`, whose context is `base`, after its validations are checked against `leaf`.
pub open spec fn checked_view(schemas: Seq<Schema>, v: ScopeView, leaf: Token, span: Span, base: ContextView) -> ScopeView {
    let f = failures(v.schema, schemas[v.schema as int].kw@, leaf, span, v, base);
    ScopeView { invalid: v.invalid || f.len() > 0, outcomes: v.outcomes + f, ..v }
}

/// Scopes after those from `from` on are checked against `leaf`, the value at the
/// instance pointer `ptr` spanning `span`.
pub open spec fn checked_from(schemas: Seq<Schema>, scopes: Seq<ScopeView>, from: int, leaf: Token, span: Span, ptr: Seq<char>) -> Seq<ScopeView> {
    Seq::new(scopes.len(), |i: int| if from <= i {
        checked_view(schemas, scopes[i], leaf, span, scope_ctx(schemas, scopes, scopes[i], ptr, span))
    } else {
        scopes[i]
    })
}

/// Scope `v` when the top scope, whose parents are the others, is finished at the value
/// with instance pointer `ptr` spanning `span`.
pub open spec fn finished(schemas: Seq<Schema>, parents: Seq<ScopeView>, v: ScopeView, ptr: Seq<char>, span: Span) -> ScopeView {
    let ctx = scope_ctx(schemas, parents, v, ptr, span);
    finish_view(v, is_not(parent_app(schemas, parents, v)), annotations(v.schema, schemas[v.schema as int].kw@, ctx), ctx)
}

/// Scopes after each scope above `pivot` (but the first) is finished and merged into
/// its parent, from the top down; `loc` is where the popped value sits.
pub open spec fn unwind_views(schemas: Seq<Schema>, scopes: Seq<ScopeView>, pivot: int, loc: Location, span: Span) -> Seq<ScopeView>
    decreases scopes.len(),
{
    if scopes.len() <= pivot || scopes.len() <= 1 {
        scopes
    } else {
        let parents = scopes.drop_last();
        let top = finished(schemas, parents, scopes.last(), instance_pointer(loc), span);
        match top.parent {
            Some((p, k)) => if p < parents.len() {
                unwind_views(
                    schemas,
                    parents.update(p as int, unwind_view(top, parents[p as int], app_of(schemas, parents[p as int].schema, k), child_index(loc))),
                    pivot,
                    loc,
                    span,
                )
            } else {
                parents
            },
            None => parents,
        }
    }
}

/// The `Invalid` outcomes of the `uniqueItems` keywords among `kw` of schema `schema`,
/// in the context `base` extended by the keyword.
pub open spec fn uniq_failures(schema: usize, kw: Seq<Keyword>, base: ContextView) -> Seq<Entry>
    decreases kw.len(),
{
    if kw.len() == 0 {
        Seq::empty()
    } else {
        let rest = uniq_failures(schema, kw.drop_last(), base);
        if kw.last() matches Keyword::Validation(Validation::UniqueItems) {
            rest.push((OutcomeView::Invalid { schema, keyword: (kw.len() - 1) as usize }, at_keyword(base, Validation::UniqueItems)))
        } else {
            rest
        }
    }
}

/// Scope `v`, whose context is `base`, after an array item with hash `h` completes within it.
pub open spec fn unique_view(schemas: Seq<Schema>, v: ScopeView, h: u64, base: ContextView) -> ScopeView {
    match v.unique_items {
        Some(set) => if set.contains(h) {
            let f = uniq_failures(v.schema, schemas[v.schema as int].kw@, base);
            ScopeView { invalid: v.invalid || f.len() > 0, outcomes: v.outcomes + f, unique_items: Some(set.insert(h)), ..v }
        } else {
            ScopeView { unique_items: Some(set.insert(h)), ..v }
        },
        None => v,
    }
}

/// Scopes after a value completes: the scopes above `pivot` are finished and merged,
/// and when the value is an array item, the re-activated scopes `from..pivot` note its hash.
pub open spec fn popped(schemas: Seq<Schema>, scopes: Seq<ScopeView>, pivot: int, from: int, loc: Location, span: Span) -> Seq<ScopeView> {
    let ptr = instance_pointer(loc);
    let u = unwind_views(schemas, scopes, pivot, loc, span);
    let r = if pivot == 0 { u.update(0, finished(schemas, Seq::empty(), u[0], ptr, span)) } else { u };
    if loc is Item {
        Seq::new(r.len(), |i: int| if from <= i < pivot {
            unique_view(schemas, r[i], span.hashed, scope_ctx(schemas, r, r[i], ptr, span))
        } else {
            r[i]
        })
    } else {
        r
    }
}

/// The sub-schema of an application keyword.
pub open spec fn sub_of(kw: Keyword) -> usize {
    match kw {
        Keyword::Application(_, sub) => sub,
        _ => 0,
    }
}

/// Fresh scopes for keywords `ks` of keywords `kw`, applied by scope `si`.
pub open spec fn applied(si: usize, kw: Seq<Keyword>, ks: Seq<usize>) -> Seq<ScopeView> {
    ks.map_values(|k: usize| fresh_scope(Some((si, k)), sub_of(kw[k as int])))
}

/// The positions of the `propertyNames` keywords among `kw`.
pub open spec fn names_scan(kw: Seq<Keyword>) -> Seq<usize>
    decreases kw.len(),
{
    if kw.len() == 0 {
        Seq::empty()
    } else {
        let r = names_scan(kw.drop_last());
        if kw.last() matches Keyword::Application(Application::PropertyNames, _) {
            r.push((kw.len() - 1) as usize)
        } else {
            r
        }
    }
}

/// For the property `name`, interned as `bit`: whether keywords `kw` evaluate it, and
/// the positions of those that apply to its value. `properties` applies on its interned
/// name, `patternProperties` on a match, `additionalProperties` when neither did, and
/// `unevaluatedProperties` (speculatively) when nothing evaluated it.
pub open spec fn prop_scan(kw: Seq<Keyword>, name: Seq<char>, bit: u64) -> (bool, Seq<usize>)
    decreases kw.len(),
{
    if kw.len() == 0 {
        (false, Seq::empty())
    } else {
        let (e, ks) = prop_scan(kw.drop_last(), name, bit);
        let k = (kw.len() - 1) as usize;
        match kw.last() {
            Keyword::Application(app, _) => match app {
                Application::Properties { name_interned, .. } => if name_interned == bit { (true, ks.push(k)) } else { (e, ks) },
                Application::PatternProperties { re } => if regex_matches(re.source_view(), name) { (true, ks.push(k)) } else { (e, ks) },
                Application::AdditionalProperties => if !e { (true, ks.push(k)) } else { (e, ks) },
                Application::UnevaluatedProperties => if !e { (false, ks.push(k)) } else { (e, ks) },
                _ => (e, ks),
            },
            _ => (e, ks),
        }
    }
}

/// For the item at `index`: whether keywords `kw` evaluate it, whether indexed `items`
/// were seen, and the positions of those that apply to it. Open `items` applies, indexed
/// `items` on its index, `additionalItems` when indexed `items` exist and none matched,
/// `contains` always (without evaluating), and `unevaluatedItems` when nothing evaluated it.
pub open spec fn item_scan(kw: Seq<Keyword>, index: usize) -> (bool, bool, Seq<usize>)
    decreases kw.len(),
{
    if kw.len() == 0 {
        (false, false, Seq::empty())
    } else {
        let (e, indexed, ks) = item_scan(kw.drop_last(), index);
        let k = (kw.len() - 1) as usize;
        match kw.last() {
            Keyword::Application(app, _) => match app {
                Application::Items { index: None } => (true, indexed, ks.push(k)),
                Application::Items { index: Some(i) } => if i == index { (true, true, ks.push(k)) } else { (e, true, ks) },
                Application::AdditionalItems => if indexed && !e { (true, indexed, ks.push(k)) } else { (e, indexed, ks) },
                Application::Contains => (e, indexed, ks.push(k)),
                Application::UnevaluatedItems => if !e { (e, indexed, ks.push(k)) } else { (e, indexed, ks) },
                _ => (e, indexed, ks),
            },
            _ => (e, indexed, ks),
        }
    }
}

/// The keywords of the schema of scope `v`.
pub open spec fn kw_of(schemas: Seq<Schema>, v: ScopeView) -> Seq<Keyword> {
    schemas[v.schema as int].kw@
}

/// The bit interned for `name` by the schema of scope `v`.
pub open spec fn bit_of(schemas: Seq<Schema>, v: ScopeView, name: Seq<char>) -> u64 {
    interned(schemas[v.schema as int].tbl@, name)
}

/// `scopes`, followed by the `propertyNames` scopes of the `n` scopes from `from`.
pub open spec fn names_pushed(schemas: Seq<Schema>, scopes: Seq<ScopeView>, from: int, n: int) -> Seq<ScopeView>
    decreases n,
{
    if n <= 0 {
        scopes
    } else {
        let si = from + n - 1;
        let kw = kw_of(schemas, scopes[si]);
        names_pushed(schemas, scopes, from, n - 1) + applied(si as usize, kw, names_scan(kw))
    }
}

/// `scopes`, followed by the scopes that the `n` scopes from `from` apply to the value of
/// property `name`.
pub open spec fn props_pushed(schemas: Seq<Schema>, scopes: Seq<ScopeView>, from: int, n: int, name: Seq<char>) -> Seq<ScopeView>
    decreases n,
{
    if n <= 0 {
        scopes
    } else {
        let si = from + n - 1;
        let kw = kw_of(schemas, scopes[si]);
        props_pushed(schemas, scopes, from, n - 1, name) + applied(si as usize, kw, prop_scan(kw, name, bit_of(schemas, scopes[si], name)).1)
    }
}

/// `scopes`, followed by the scopes that the `n` scopes from `from` apply to the item at `index`.
pub open spec fn items_pushed(schemas: Seq<Schema>, scopes: Seq<ScopeView>, from: int, n: int, index: usize) -> Seq<ScopeView>
    decreases n,
{
    if n <= 0 {
        scopes
    } else {
        let si = from + n - 1;
        let kw = kw_of(schemas, scopes[si]);
        items_pushed(schemas, scopes, from, n - 1, index) + applied(si as usize, kw, item_scan(kw, index).2)
    }
}

/// Scopes `from..to` once they have seen property `name`: its interned bit is noted,
/// and whether they evaluate it.
pub open spec fn props_marked(schemas: Seq<Schema>, scopes: Seq<ScopeView>, from: int, to: int, name: Seq<char>) -> Seq<ScopeView> {
    Seq::new(scopes.len(), |i: int| if from <= i < to {
        let v = scopes[i];
        let bit = bit_of(schemas, v, name);
        ScopeView {
            seen_interned: v.seen_interned | bit,
            evaluated: v.evaluated.push(prop_scan(kw_of(schemas, v), name, bit).0),
            ..v
        }
    } else {
        scopes[i]
    })
}

/// Scopes `from..to` once they have seen the item at `index`: whether they evaluate it.
pub open spec fn items_marked(schemas: Seq<Schema>, scopes: Seq<ScopeView>, from: int, to: int, index: usize) -> Seq<ScopeView> {
    Seq::new(scopes.len(), |i: int| if from <= i < to {
        let v = scopes[i];
        ScopeView { evaluated: v.evaluated.push(item_scan(kw_of(schemas, v), index).0), ..v }
    } else {
        scopes[i]
    })
}

/// Changing a scope but for its schema commutes with pushing the scopes that apply to a property.
proof fn lemma_props_pushed_update(schemas: Seq<Schema>, m: Seq<ScopeView>, j: int, v: ScopeView, from: int, n: int, name: Seq<char>)
    requires
        0 <= j < m.len(),
        v.schema == m[j].schema,
        0 <= from,
        from + n <= m.len(),
    ensures
        props_pushed(schemas, m.update(j, v), from, n, name) == props_pushed(schemas, m, from, n, name).update(j, v),
        props_pushed(schemas, m, from, n, name).len() >= m.len(),
        forall|i: int| 0 <= i < m.len() ==> #[trigger] props_pushed(schemas, m, from, n, name)[i] == m[i],
    decreases n,
{
    if n > 0 {
        lemma_props_pushed_update(schemas, m, j, v, from, n - 1, name);
        let si = from + n - 1;
        assert(m.update(j, v)[si].schema == m[si].schema);
        let a = props_pushed(schemas, m, from, n - 1, name);
        let x = applied(si as usize, kw_of(schemas, m[si]), prop_scan(kw_of(schemas, m[si]), name, bit_of(schemas, m[si], name)).1);
        assert(a.update(j, v) + x =~= (a + x).update(j, v));
    }
}

/// Changing a scope but for its schema commutes with pushing the scopes that apply to an item.
proof fn lemma_items_pushed_update(schemas: Seq<Schema>, m: Seq<ScopeView>, j: int, v: ScopeView, from: int, n: int, index: usize)
    requires
        0 <= j < m.len(),
        v.schema == m[j].schema,
        0 <= from,
        from + n <= m.len(),
    ensures
        items_pushed(schemas, m.update(j, v), from, n, index) == items_pushed(schemas, m, from, n, index).update(j, v),
        items_pushed(schemas, m, from, n, index).len() >= m.len(),
        forall|i: int| 0 <= i < m.len() ==> #[trigger] items_pushed(schemas, m, from, n, index)[i] == m[i],
    decreases n,
{
    if n > 0 {
        lemma_items_pushed_update(schemas, m, j, v, from, n - 1, index);
        let si = from + n - 1;
        assert(m.update(j, v)[si].schema == m[si].schema);
        let a = items_pushed(schemas, m, from, n - 1, index);
        let x = applied(si as usize, kw_of(schemas, m[si]), item_scan(kw_of(schemas, m[si]), index).2);
        assert(a.update(j, v) + x =~= (a + x).update(j, v));
    }
}

/// Pushing the `propertyNames` scopes keeps the scopes below.
proof fn lemma_names_pushed_prefix(schemas: Seq<Schema>, m: Seq<ScopeView>, from: int, n: int)
    ensures
        names_pushed(schemas, m, from, n).len() >= m.len(),
        forall|i: int| 0 <= i < m.len() ==> #[trigger] names_pushed(schemas, m, from, n)[i] == m[i],
    decreases n,
{
    if n > 0 {
        lemma_names_pushed_prefix(schemas, m, from, n - 1);
    }
}

/// The keywords `ks` are application keywords among `kw`.
pub open spec fn apps_within(kw: Seq<Keyword>, ks: Seq<usize>) -> bool {
    forall|j: int| 0 <= j < ks.len() ==> #[trigger] ks[j] < kw.len() && kw[ks[j] as int] is Application
}

/// Whether keywords of `schema` evaluate property `name`, interned as `bit`, and which
/// of them apply to its value.
fn scan_props(schema: &Schema, name: &str, bit: u64) -> (r: (bool, Vec<usize>))
    ensures
        (r.0, r.1@) == prop_scan(schema.kw@, name@, bit),
        apps_within(schema.kw@, r.1@),
{
    let mut e = false;
    let mut ks: Vec<usize> = Vec::new();
    let mut k: usize = 0;
    while k < schema.kw.len()
        invariant
            k <= schema.kw@.len(),
            (e, ks@) == prop_scan(schema.kw@.subrange(0, k as int), name@, bit),
            apps_within(schema.kw@, ks@),
        decreases schema.kw@.len() - k,
    {
        assert(schema.kw@.subrange(0, k + 1).drop_last() == schema.kw@.subrange(0, k as int));
        assert(schema.kw@.subrange(0, k + 1).last() == schema.kw@[k as int]);
        if let Keyword::Application(app, _) = &schema.kw[k] {
            match app {
                Application::Properties { name_interned, .. } => {
                    if *name_interned == bit {
                        e = true;
                        ks.push(k);
                    }
                },
                Application::PatternProperties { re } => {
                    if re.is_match(name) {
                        e = true;
                        ks.push(k);
                    }
                },
                Application::AdditionalProperties => {
                    if !e {
                        e = true;
                        ks.push(k);
                    }
                },
                Application::UnevaluatedProperties => {
                    if !e {
                        ks.push(k);
                    }
                },
                _ => {},
            }
        }
        k = k + 1;
    }
    assert(schema.kw@.subrange(0, schema.kw@.len() as int) == schema.kw@);
    (e, ks)
}

/// Whether keywords of `schema` evaluate the item at `index`, and which of them apply to it.
fn scan_items(schema: &Schema, index: usize) -> (r: (bool, Vec<usize>))
    ensures
        r.0 == item_scan(schema.kw@, index).0,
        r.1@ == item_scan(schema.kw@, index).2,
        apps_within(schema.kw@, r.1@),
{
    let mut e = false;
    let mut indexed = false;
    let mut ks: Vec<usize> = Vec::new();
    let mut k: usize = 0;
    while k < schema.kw.len()
        invariant
            k <= schema.kw@.len(),
            (e, indexed, ks@) == item_scan(schema.kw@.subrange(0, k as int), index),
            apps_within(schema.kw@, ks@),
        decreases schema.kw@.len() - k,
    {
        assert(schema.kw@.subrange(0, k + 1).drop_last() == schema.kw@.subrange(0, k as int));
        assert(schema.kw@.subrange(0, k + 1).last() == schema.kw@[k as int]);
        if let Keyword::Application(app, _) = &schema.kw[k] {
            match app {
                Application::Items { index: None } => {
                    e = true;
                    ks.push(k);
                },
                Application::Items { index: Some(i) } => {
                    indexed = true;
                    if *i == index {
                        e = true;
                        ks.push(k);
                    }
                },
                Application::AdditionalItems => {
                    if indexed && !e {
                        e = true;
                        ks.push(k);
                    }
                },
                Application::Contains => {
                    ks.push(k);
                },
                Application::UnevaluatedItems => {
                    if !e {
                        ks.push(k);
                    }
                },
                _ => {},
            }
        }
        k = k + 1;
    }
    assert(schema.kw@.subrange(0, schema.kw@.len() as int) == schema.kw@);
    (e, ks)
}

/// Which keywords of `schema` are `propertyNames`.
fn scan_names(schema: &Schema) -> (r: Vec<usize>)
    ensures
        r@ == names_scan(schema.kw@),
        apps_within(schema.kw@, r@),
{
    let mut ks: Vec<usize> = Vec::new();
    let mut k: usize = 0;
    while k < schema.kw.len()
        invariant
            k <= schema.kw@.len(),
            ks@ == names_scan(schema.kw@.subrange(0, k as int)),
            apps_within(schema.kw@, ks@),
        decreases schema.kw@.len() - k,
    {
        assert(schema.kw@.subrange(0, k + 1).drop_last() == schema.kw@.subrange(0, k as int));
        assert(schema.kw@.subrange(0, k + 1).last() == schema.kw@[k as int]);
        if let Keyword::Application(Application::PropertyNames, _) = &schema.kw[k] {
            ks.push(k);
        }
        k = k + 1;
    }
    assert(schema.kw@.subrange(0, schema.kw@.len() as int) == schema.kw@);
    ks
}

/// The scopes after a value, `leaf`, completes at `loc`: the active scopes check their
/// validations, then the active window is popped.
pub open spec fn completed(schemas: Seq<Schema>, scopes: Seq<ScopeView>, pivot: int, below: int, leaf: Token, span: Span, loc: Location) -> Seq<ScopeView> {
    popped(schemas, checked_from(schemas, scopes, pivot, leaf, span, instance_pointer(loc)), pivot, below, loc, span)
}

/// `after` follows `before` when property `name` of the object at `parent` begins, with
/// the window `from..` active: the `propertyNames` scopes are pushed, expanded, checked
/// against the name and popped; then the property's scopes are pushed and expanded.
pub open spec fn property_pushed(schemas: Seq<Schema>, before: Seq<ScopeView>, from: int, name: Seq<char>, parent: Location, span: Span, after: Seq<ScopeView>) -> bool {
    let to = before.len() as int;
    let ptr = instance_pointer(parent) + "/"@ + escape_token(name);
    exists|a: Seq<ScopeView>|
        #[trigger] expanded(schemas, names_pushed(schemas, before, from, to - from), to, a, ptr, span) && expanded(
            schemas,
            props_pushed(schemas, props_marked(schemas, completed(schemas, a, to, from, Token::Str(name), span, parent), from, to, name), from, to - from, name),
            to,
            after,
            ptr,
            span,
        )
}

/// `after` follows `before` when the item at `index` of the array at `parent` begins,
/// with the window `from..` active: the item's scopes are pushed and expanded.
pub open spec fn item_pushed(schemas: Seq<Schema>, before: Seq<ScopeView>, from: int, parent: Location, index: usize, span: Span, after: Seq<ScopeView>) -> bool {
    let to = before.len() as int;
    let ptr = instance_pointer(parent) + "/"@ + decimal(index as nat);
    expanded(schemas, items_pushed(schemas, items_marked(schemas, before, from, to, index), from, to - from, index), to, after, ptr, span)
}

/// Two sequences of scopes with the same parents and schemas, position by position.
pub open spec fn same_shape(a: Seq<ScopeView>, b: Seq<ScopeView>) -> bool {
    &&& a.len() == b.len()
    &&& forall|q: int| 0 <= q < a.len() ==> (#[trigger] a[q]).parent == b[q].parent && a[q].schema == b[q].schema
}

/// Keyword locations depend on the parents and schemas of the scopes alone.
proof fn lemma_shape_kw_location(schemas: Seq<Schema>, a: Seq<ScopeView>, b: Seq<ScopeView>, i: int)
    requires
        same_shape(a, b),
    ensures
        kw_location(schemas, a, i) == kw_location(schemas, b, i),
    decreases i,
{
    if 0 <= i < a.len() {
        assert(a[i].parent == b[i].parent);
        if let Some((p, _)) = a[i].parent {
            if p < i {
                lemma_shape_kw_location(schemas, a, b, p as int);
                assert(a[p as int].schema == b[p as int].schema);
            }
        }
    }
}

/// The context of a scope depends on the parents and schemas of the scopes alone.
proof fn lemma_shape_ctx(schemas: Seq<Schema>, a: Seq<ScopeView>, b: Seq<ScopeView>, v: ScopeView, ptr: Seq<char>, span: Span)
    requires
        same_shape(a, b),
        v.parent matches Some((p, _)) ==> p < a.len(),
    ensures
        scope_ctx(schemas, a, v, ptr, span) == scope_ctx(schemas, b, v, ptr, span),
{
    if let Some((p, _)) = v.parent {
        lemma_shape_kw_location(schemas, a, b, p as int);
        assert(a[p as int].schema == b[p as int].schema);
    }
}

/// Adding a scope applied by a scope of `scopes` keeps them well formed.
proof fn lemma_ok_push(schemas: Seq<Schema>, scopes: Seq<ScopeView>, v: ScopeView)
    requires
        scopes_ok(schemas, scopes),
        scopes.len() > 0,
        parent_ok(schemas, scopes, v),
        v.parent is Some,
    ensures
        scopes_ok(schemas, scopes.push(v)),
{
    let s = scopes.push(v);
    assert forall|i: int| 0 <= i < s.len() implies #[trigger] scope_ok(schemas, s, i) by {
        if i < scopes.len() {
            assert(scope_ok(schemas, scopes, i));
            assert(s.subrange(0, i) == scopes.subrange(0, i));
        } else {
            assert(s.subrange(0, i) == scopes);
        }
    }
}

/// Changing a scope but for its parent and schema keeps them well formed.
proof fn lemma_ok_update(schemas: Seq<Schema>, scopes: Seq<ScopeView>, j: int, v: ScopeView)
    requires
        scopes_ok(schemas, scopes),
        0 <= j < scopes.len(),
        v.parent == scopes[j].parent,
        v.schema == scopes[j].schema,
    ensures
        scopes_ok(schemas, scopes.update(j, v)),
{
    let s = scopes.update(j, v);
    assert forall|i: int| 0 <= i < s.len() implies #[trigger] scope_ok(schemas, s, i) by {
        assert(scope_ok(schemas, scopes, i));
        let a = s.subrange(0, i);
        let b = scopes.subrange(0, i);
        assert(a.len() == b.len());
        assert(forall|q: int| 0 <= q < a.len() ==> a[q].schema == b[q].schema);
    }
}

/// A prefix of well-formed scopes is well formed.
proof fn lemma_ok_prefix(schemas: Seq<Schema>, scopes: Seq<ScopeView>, n: int)
    requires
        scopes_ok(schemas, scopes),
        0 <= n <= scopes.len(),
    ensures
        scopes_ok(schemas, scopes.subrange(0, n)),
{
    let s = scopes.subrange(0, n);
    assert forall|i: int| 0 <= i < s.len() implies #[trigger] scope_ok(schemas, s, i) by {
        assert(scope_ok(schemas, scopes, i));
        assert(s.subrange(0, i) == scopes.subrange(0, i));
    }
}

/// A well-formed scope's parent is among all the scopes.
proof fn lemma_parent_ok(schemas: Seq<Schema>, scopes: Seq<ScopeView>, i: int)
    requires
        scopes_ok(schemas, scopes),
        0 <= i < scopes.len(),
    ensures
        parent_ok(schemas, scopes, scopes[i]),
        parent_ok(schemas, scopes.subrange(0, i), scopes[i]),
        scopes[i].parent matches Some((p, _)) ==> p < i,
{
    assert(scope_ok(schemas, scopes, i));
}

/// The schema whose canonical URI is that of schema `t` is `t`.
proof fn lemma_lookup(index: &Index, uri: Seq<char>, t: usize)
    requires
        index.wf(),
        t < index@.len(),
        index@[t as int].curi@ == uri,
    ensures
        lookup(index@, uri) == Some(t),
{
    assert(has_curi(index@, uri));
    let c = choose|i: usize| i < index@.len() && (#[trigger] index@[i as int]).curi@ == uri;
    if c != t {
        assert(index@[c as int].curi@ != index@[t as int].curi@);
    }
}

/// One more step of expansion, from where `fuel` steps stopped short of the end.
proof fn lemma_closure_step(schemas: Seq<Schema>, s: Seq<ScopeView>, pivot: int, fuel: nat, ptr: Seq<char>, span: Span)
    requires
        expand_closure(schemas, s, pivot, fuel, ptr, span).1 < expand_closure(schemas, s, pivot, fuel, ptr, span).0.len(),
    ensures
        ({
            let (t, p) = expand_closure(schemas, s, pivot, fuel, ptr, span);
            expand_closure(schemas, s, pivot, fuel + 1, ptr, span) == (expand_one(schemas, t, p, ptr, span), p + 1)
        }),
    decreases fuel,
{
    if pivot >= s.len() {
    } else if fuel == 0 {
        assert(expand_closure(schemas, expand_one(schemas, s, pivot, ptr, span), pivot + 1, 0, ptr, span)
            == (expand_one(schemas, s, pivot, ptr, span), pivot + 1));
    } else {
        lemma_closure_step(schemas, expand_one(schemas, s, pivot, ptr, span), pivot + 1, (fuel - 1) as nat, ptr, span);
    }
}

/// The streaming validation engine: a stack of active scopes over an index of schemas.
///
/// `active_offsets` holds where each window of active scopes begins; the current
/// window runs from its last entry to the end of `scopes`.
pub struct Validator<'sm> {
    index: &'sm Index,
    scopes: Vec<Scope>,
    active_offsets: Vec<usize>,
}

impl<'sm> Validator<'sm> {
    /// The models of the scopes, bottom first.
    pub closed spec fn scopes(&self) -> Seq<ScopeView> {
        views(self.scopes@)
    }

    /// Where each window of active scopes begins.
    pub closed spec fn offsets(&self) -> Seq<usize> {
        self.active_offsets@
    }

    /// The schemas of the index.
    pub closed spec fn schemas(&self) -> Seq<Schema> {
        self.index@
    }

    pub closed spec fn index_wf(&self) -> bool {
        self.index.wf()
    }

    /// Windows start at the bottom, grow upward, and lie within the scopes.
    pub open spec fn offsets_ok(&self) -> bool {
        &&& forall|i: int| 0 <= i < self.offsets().len() ==> #[trigger] self.offsets()[i] <= self.scopes().len()
        &&& forall|i: int, j: int| 0 <= i <= j < self.offsets().len() ==> #[trigger] self.offsets()[i] <= #[trigger] self.offsets()[j]
        &&& forall|i: int| 0 < i < self.offsets().len() ==> #[trigger] self.offsets()[i] >= 1
        &&& self.offsets().len() > 0 ==> self.offsets()[0] == 0
    }

    /// The engine's invariant.
    pub open spec fn wf(&self) -> bool {
        &&& self.index_wf()
        &&& scopes_ok(self.schemas(), self.scopes())
        &&& self.offsets_ok()
        &&& self.scopes().len() == 0 ==> self.offsets().len() == 0
    }

    /// A root scope exists: the engine was prepared.
    pub open spec fn prepared(&self) -> bool {
        self.scopes().len() > 0
    }

    /// The walk is under way: a window is active.
    pub open spec fn walking(&self) -> bool {
        self.prepared() && self.offsets().len() > 0
    }

    /// The start of the active window.
    pub open spec fn pivot(&self) -> int {
        self.offsets().last() as int
    }

    /// The start of the window below the active one.
    pub open spec fn below_pivot(&self) -> int {
        if self.offsets().len() > 1 { self.offsets()[self.offsets().len() - 2] as int } else { 0 }
    }

    /// A new engine over `index`, to be prepared before use.
    pub fn new(index: &'sm Index) -> (r: Validator<'sm>)
        ensures
            r.wf(),
            r.schemas() == index@,
            r.scopes() == Seq::<ScopeView>::empty(),
            r.offsets() == Seq::<usize>::empty(),
    {
        proof {
            use_type_invariant(index);
        }
        let r = Validator { index, scopes: Vec::new(), active_offsets: Vec::new() };
        assert(r.scopes() =~= Seq::<ScopeView>::empty());
        r
    }

    /// Prepares to validate against the schema whose canonical URI is `uri`, discarding
    /// any earlier walk. Fails, changing nothing, when no schema has that URI.
    pub fn prepare(&mut self, uri: &str) -> (r: Result<(), IndexError>)
        requires
            old(self).wf(),
        ensures
            final(self).wf(),
            final(self).schemas() == old(self).schemas(),
            r is Ok <==> has_curi(old(self).schemas(), uri@),
            match r {
                Ok(()) => final(self).offsets() == seq![0usize] && final(self).walking()
                    && expanded(
                    old(self).schemas(),
                    seq![fresh_scope(None, lookup(old(self).schemas(), uri@).unwrap())],
                    0,
                    final(self).scopes(),
                    Seq::empty(),
                    Span { begin: 0, end: 0, hashed: 0 },
                ),
                Err(IndexError::NotFound(u)) => u@ == uri@ && final(self).scopes() == old(self).scopes()
                    && final(self).offsets() == old(self).offsets(),
                Err(_) => false,
            },
    {
        let root = match self.index.must_fetch(uri) {
            Ok(root) => root,
            Err(e) => return Err(e),
        };
        proof {
            lemma_lookup(self.index, uri@, root);
        }
        self.scopes.clear();
        self.scopes.push(Scope::new(None, root));
        self.active_offsets.clear();
        self.active_offsets.push(0);
        proof {
            assert(self.scopes() =~= seq![fresh_scope(None, root)]);
            assert(scope_ok(self.schemas(), self.scopes(), 0));
            assert(self.offsets() =~= seq![0usize]);
        }
        let span = Span { begin: 0, end: 0, hashed: 0 };
        let root = Location::Root;
        assert(instance_pointer(root) == Seq::<char>::empty());
        self.expand_scopes(0, &span, &root);
        Ok(())
    }

    /// Whether the instance failed to validate against the schema.
    pub fn invalid(&self) -> (r: bool)
        requires
            self.prepared(),
        ensures
            r == self.scopes()[0].invalid,
    {
        self.scopes[0].invalid()
    }

    /// The errors and annotations of the root scope, in the order found.
    pub fn outcomes(&self) -> (r: &[(Outcome, FullContext)])
        requires
            self.prepared(),
        ensures
            r@.map_values(|p: (Outcome, FullContext)| entry_of_pair(p)) == self.scopes()[0].outcomes,
    {
        self.scopes[0].outcomes()
    }

    /// Pushes a scope of `sub`, applied by keyword `k` of scope `i`.
    fn push_scope(&mut self, i: usize, k: usize, sub: usize)
        requires
            old(self).wf(),
            i < old(self).scopes().len(),
            is_app(old(self).schemas(), old(self).scopes()[i as int].schema, k),
            sub < old(self).schemas().len(),
        ensures
            final(self).wf(),
            final(self).schemas() == old(self).schemas(),
            final(self).offsets() == old(self).offsets(),
            final(self).scopes() == old(self).scopes().push(fresh_scope(Some((i, k)), sub)),
    {
        let ghost s0 = self.scopes();
        self.scopes.push(Scope::new(Some((i, k)), sub));
        proof {
            assert(self.scopes() =~= s0.push(fresh_scope(Some((i, k)), sub)));
            lemma_ok_push(self.schemas(), s0, fresh_scope(Some((i, k)), sub));
        }
    }

    /// Fails scope `i` with outcome `o`, where `loc` is the current location.
    fn fail_scope(&mut self, i: usize, o: Outcome, span: &Span, loc: &Location)
        requires
            old(self).wf(),
            i < old(self).scopes().len(),
        ensures
            final(self).wf(),
            final(self).schemas() == old(self).schemas(),
            final(self).offsets() == old(self).offsets(),
            final(self).scopes() == old(self).scopes().update(i as int, failed(
                old(self).scopes()[i as int],
                (outcome_view(o), scope_ctx(old(self).schemas(), old(self).scopes(), old(self).scopes()[i as int], instance_pointer(*loc), *span)),
            )),
    {
        let ghost s0 = self.scopes();
        proof {
            lemma_parent_ok(self.schemas(), s0, i as int);
        }
        let ctx = FullContext::with_details(loc, span, self.index, &self.scopes[i], self.scopes.as_slice());
        let ghost e = (outcome_view(o), context_view(ctx));
        assert(context_view(ctx) == scope_ctx(self.schemas(), s0, s0[i as int], instance_pointer(*loc), *span));
        self.scopes[i].fail(o, ctx);
        proof {
            assert(self.scopes() =~= s0.update(i as int, failed(s0[i as int], e)));
            lemma_ok_update(self.schemas(), s0, i as int, failed(s0[i as int], e));
        }
    }

    /// Fails scope `i` for its validation `val`, keyword `k` of its schema `sid`.
    fn fail_validation(&mut self, i: usize, sid: usize, k: usize, val: &Validation, span: &Span, loc: &Location)
        requires
            old(self).wf(),
            i < old(self).scopes().len(),
            sid == old(self).scopes()[i as int].schema,
        ensures
            final(self).wf(),
            final(self).schemas() == old(self).schemas(),
            final(self).offsets() == old(self).offsets(),
            final(self).scopes() == old(self).scopes().update(i as int, failed(
                old(self).scopes()[i as int],
                (
                    OutcomeView::Invalid { schema: sid, keyword: k },
                    at_keyword(scope_ctx(old(self).schemas(), old(self).scopes(), old(self).scopes()[i as int], instance_pointer(*loc), *span), *val),
                ),
            )),
    {
        let ghost s0 = self.scopes();
        proof {
            lemma_parent_ok(self.schemas(), s0, i as int);
        }
        let base = self.scopes[i].keyword_location(self.scopes.as_slice(), self.index);
        let ctx = FullContext {
            instance_ptr: loc.pointer(),
            canonical_uri: self.index.get(sid).curi.clone(),
            keyword_location: val.extend_fragment_pointer(base),
            span: *span,
        };
        let ghost e = (OutcomeView::Invalid { schema: sid, keyword: k }, context_view(ctx));
        assert(context_view(ctx) == at_keyword(scope_ctx(self.schemas(), s0, s0[i as int], instance_pointer(*loc), *span), *val));
        self.scopes[i].fail(Outcome::Invalid { schema: sid, keyword: k }, ctx);
        proof {
            assert(self.scopes() =~= s0.update(i as int, failed(s0[i as int], e)));
            lemma_ok_update(self.schemas(), s0, i as int, failed(s0[i as int], e));
        }
    }

    /// Resolves a reference of scope `i`, by its keyword `k`, to the canonical URI `uri`.
    fn resolve(&mut self, i: usize, k: usize, uri: &str, span: &Span, loc: &Location)
        requires
            old(self).wf(),
            i < old(self).scopes().len(),
            is_app(old(self).schemas(), old(self).scopes()[i as int].schema, k),
        ensures
            final(self).wf(),
            final(self).schemas() == old(self).schemas(),
            final(self).offsets() == old(self).offsets(),
            final(self).scopes() == resolve(old(self).schemas(), old(self).scopes(), i as int, k as int, uri@, instance_pointer(*loc), *span),
    {
        match self.index.fetch(uri) {
            Some(t) => {
                proof {
                    lemma_lookup(self.index, uri@, t);
                }
                self.push_scope(i, k, t);
            },
            None => {
                let u = uri.to_string();
                self.fail_scope(i, Outcome::ReferenceNotFound(u), span, loc);
            },
        }
    }

    /// Expands scope `i`: pushes a scope for each of its in-place applications,
    /// resolving references, and starts collecting item hashes for `uniqueItems`.
    fn expand_scope(&mut self, i: usize, span: &Span, loc: &Location)
        requires
            old(self).wf(),
            i < old(self).scopes().len(),
        ensures
            final(self).wf(),
            final(self).schemas() == old(self).schemas(),
            final(self).offsets() == old(self).offsets(),
            final(self).scopes() == expand_one(old(self).schemas(), old(self).scopes(), i as int, instance_pointer(*loc), *span),
            final(self).scopes().len() >= old(self).scopes().len(),
    {
        let ghost s0 = self.scopes();
        proof {
            lemma_parent_ok(self.schemas(), s0, i as int);
        }
        let index = self.index;
        let sid = self.scopes[i].schema();
        let schema = index.get(sid);
        let n = schema.kw.len();
        let mut k: usize = 0;
        while k < n
            invariant
                self.wf(),
                self.schemas() == index@,
                self.offsets() == old(self).offsets(),
                s0 == old(self).scopes(),
                sid == s0[i as int].schema,
                sid < index@.len(),
                index.wf(),
                *schema == index@[sid as int],
                n == schema.kw@.len(),
                k <= n,
                i < s0.len(),
                i < self.scopes().len(),
                self.scopes()[i as int].schema == sid,
                self.scopes() == expand_upto(index@, s0, i as int, k as int, instance_pointer(*loc), *span),
                self.scopes().len() >= s0.len(),
            decreases n - k,
        {
            proof {
                assert(index.wf());
                assert(crate::index::keywords_within(index@[sid as int].kw@, index@.len()));
            }
            let ghost before = self.scopes();
            match &schema.kw[k] {
                Keyword::Validation(Validation::UniqueItems) => {
                    self.scopes[i].track_unique_items();
                    proof {
                        assert(self.scopes() =~= before.update(i as int, ScopeView { unique_items: Some(Set::empty()), ..before[i as int] }));
                        lemma_ok_update(index@, before, i as int, ScopeView { unique_items: Some(Set::empty()), ..before[i as int] });
                    }
                },
                Keyword::Application(app, sub) => {
                    assert(is_app(index@, before[i as int].schema, k));
                    match app {
                        Application::AllOf { .. }
                        | Application::AnyOf { .. }
                        | Application::OneOf { .. }
                        | Application::Not
                        | Application::If
                        | Application::Then
                        | Application::Else
                        | Application::DependentSchema { .. } => {
                            self.push_scope(i, k, *sub);
                        },
                        Application::Ref(uri) => {
                            self.resolve(i, k, uri.as_str(), span, loc);
                        },
                        Application::RecursiveRef(uri) => {
                            // The recursion base is that of the outermost anchored scope,
                            // or this schema's own canonical URI.
                            let base: &str = match base_of(self.scopes.as_slice(), i, index) {
                                Some(b) => b,
                                None => schema.curi.as_str(),
                            };
                            match join(base, uri.as_str()) {
                                Some(joined) => {
                                    let target = strip_empty_fragment(joined.as_str());
                                    self.resolve(i, k, target.as_str(), span, loc);
                                },
                                None => {
                                    let u = uri.clone();
                                    self.fail_scope(i, Outcome::ReferenceNotFound(u), span, loc);
                                },
                            }
                        },
                        _ => {},
                    }
                },
                _ => {},
            }
            proof {
                assert(expand_upto(index@, s0, i as int, k + 1, instance_pointer(*loc), *span)
                    == expand_kw(index@, before, i as int, k as int, instance_pointer(*loc), *span));
            }
            k = k + 1;
        }
    }

    /// Expands scopes from `pivot` on, and each scope that expansion pushes, until
    /// none is left.
    fn expand_scopes(&mut self, pivot: usize, span: &Span, loc: &Location)
        requires
            old(self).wf(),
        ensures
            final(self).wf(),
            final(self).schemas() == old(self).schemas(),
            final(self).offsets() == old(self).offsets(),
            expanded(old(self).schemas(), old(self).scopes(), pivot as int, final(self).scopes(), instance_pointer(*loc), *span),
            final(self).scopes().len() >= old(self).scopes().len(),
    {
        let ghost s0 = self.scopes();
        let ghost mut fuel: nat = 0;
        let mut p = pivot;
        while p < self.scopes.len()
            invariant
                self.wf(),
                self.schemas() == old(self).schemas(),
                self.offsets() == old(self).offsets(),
                s0 == old(self).scopes(),
                expand_closure(self.schemas(), s0, pivot as int, fuel, instance_pointer(*loc), *span) == (self.scopes(), p as int),
                self.scopes().len() >= s0.len(),
            decreases usize::MAX - p,
        {
            proof {
                lemma_closure_step(self.schemas(), s0, pivot as int, fuel, instance_pointer(*loc), *span);
            }
            self.expand_scope(p, span, loc);
            p = p + 1;
            proof {
                fuel = fuel + 1;
            }
        }
        assert(expand_closure(self.schemas(), s0, pivot as int, fuel, instance_pointer(*loc), *span) == (self.scopes(), p as int));
    }

    /// Checks the validations of each active scope against the completed value `leaf`,
    /// failing a scope with an `Invalid` outcome for each validation that does not hold.
    fn check_validations(&mut self, span: &Span, loc: &Location, leaf: &Leaf)
        requires
            old(self).wf(),
            old(self).walking(),
        ensures
            final(self).wf(),
            final(self).schemas() == old(self).schemas(),
            final(self).offsets() == old(self).offsets(),
            final(self).scopes() == checked_from(old(self).schemas(), old(self).scopes(), old(self).pivot(), token(*leaf), *span, instance_pointer(*loc)),
    {
        let ghost s0 = self.scopes();
        let ghost ptr = instance_pointer(*loc);
        let index = self.index;
        let from = self.active_offsets[self.active_offsets.len() - 1];
        let to = self.scopes.len();
        let mut ind = from;
        while ind < to
            invariant
                self.wf(),
                self.schemas() == index@,
                index.wf(),
                self.offsets() == old(self).offsets(),
                s0 == old(self).scopes(),
                ptr == instance_pointer(*loc),
                from == old(self).pivot(),
                to == s0.len(),
                from <= ind <= to,
                same_shape(self.scopes(), s0),
                self.scopes() == Seq::new(s0.len(), |i: int| if from <= i < ind {
                    checked_view(index@, s0[i], token(*leaf), *span, scope_ctx(index@, s0, s0[i], ptr, *span))
                } else {
                    s0[i]
                }),
            decreases to - ind,
        {
            proof {
                lemma_parent_ok(self.schemas(), self.scopes(), ind as int);
            }
            let ghost v0 = s0[ind as int];
            let ghost base = scope_ctx(index@, s0, v0, ptr, *span);
            let ghost before = self.scopes();
            let sid = self.scopes[ind].schema();
            let schema = index.get(sid);
            let mut k: usize = 0;
            assert(v0.outcomes + failures(sid, schema.kw@.subrange(0, 0), token(*leaf), *span, v0, base) =~= v0.outcomes);
            while k < schema.kw.len()
                invariant
                    self.wf(),
                    self.schemas() == index@,
                    self.offsets() == old(self).offsets(),
                    sid == v0.schema,
                    sid < index@.len(),
                    *schema == index@[sid as int],
                    k <= schema.kw@.len(),
                    ind < to,
                    to == self.scopes().len(),
                    ptr == instance_pointer(*loc),
                    base == scope_ctx(index@, s0, v0, ptr, *span),
                    same_shape(before, s0),
                    v0 == s0[ind as int],
                    s0.len() == to,
                    self.scopes() == before.update(ind as int, ScopeView {
                        invalid: v0.invalid || failures(sid, schema.kw@.subrange(0, k as int), token(*leaf), *span, v0, base).len() > 0,
                        outcomes: v0.outcomes + failures(sid, schema.kw@.subrange(0, k as int), token(*leaf), *span, v0, base),
                        ..v0
                    }),
                    before[ind as int] == v0,
                    before.len() == to,
                decreases schema.kw@.len() - k,
            {
                assert(schema.kw@.subrange(0, k + 1).drop_last() == schema.kw@.subrange(0, k as int));
                let ghost cur = self.scopes();
                if let Keyword::Validation(val) = &schema.kw[k] {
                    if !check(val, leaf, span, &self.scopes[ind]) {
                        proof {
                            lemma_parent_ok(self.schemas(), cur, ind as int);
                            assert(same_shape(cur, s0));
                            lemma_shape_ctx(index@, cur, s0, cur[ind as int], ptr, *span);
                        }
                        let base_location = self.scopes[ind].keyword_location(self.scopes.as_slice(), index);
                        let ctx = FullContext {
                            instance_ptr: loc.pointer(),
                            canonical_uri: schema.curi.clone(),
                            keyword_location: val.extend_fragment_pointer(base_location),
                            span: *span,
                        };
                        assert(context_view(ctx) == at_keyword(base, *val));
                        self.scopes[ind].fail(Outcome::Invalid { schema: sid, keyword: k }, ctx);
                        proof {
                            lemma_ok_update(index@, cur, ind as int, self.scopes()[ind as int]);
                            assert(self.scopes() =~= cur.update(ind as int, self.scopes()[ind as int]));
                        }
                    }
                }
                proof {
                    assert(self.scopes() =~= before.update(ind as int, ScopeView {
                        invalid: v0.invalid || failures(sid, schema.kw@.subrange(0, k + 1), token(*leaf), *span, v0, base).len() > 0,
                        outcomes: v0.outcomes + failures(sid, schema.kw@.subrange(0, k + 1), token(*leaf), *span, v0, base),
                        ..v0
                    }));
                }
                k = k + 1;
            }
            assert(schema.kw@.subrange(0, schema.kw@.len() as int) == schema.kw@);
            ind = ind + 1;
            assert(self.scopes() =~= Seq::new(s0.len(), |i: int| if from <= i < ind {
                checked_view(index@, s0[i], token(*leaf), *span, scope_ctx(index@, s0, s0[i], ptr, *span))
            } else {
                s0[i]
            }));
        }
        assert(self.scopes() =~= checked_from(index@, s0, from as int, token(*leaf), *span, ptr));
    }

    /// Completes the active window: finishes each of its scopes from the top down,
    /// merging all but the root into their parents, pops the window, and, for an array
    /// item, lets the re-activated scopes note its hash against `uniqueItems`.
    fn pop(&mut self, span: &Span, loc: &Location)
        requires
            old(self).wf(),
            old(self).walking(),
        ensures
            final(self).wf(),
            final(self).schemas() == old(self).schemas(),
            final(self).offsets() == old(self).offsets().drop_last(),
            final(self).prepared(),
            final(self).scopes().len() == if old(self).pivot() > 0 { old(self).pivot() } else { 1 },
            final(self).scopes() == popped(old(self).schemas(), old(self).scopes(), old(self).pivot(), old(self).below_pivot(), *loc, *span),
    {
        let ghost s0 = self.scopes();
        let ghost idx = child_index(*loc);
        let ghost ptr = instance_pointer(*loc);
        let index = self.index;
        let pivot = self.active_offsets[self.active_offsets.len() - 1];
        proof {
            if self.offsets().len() > 1 {
                assert(self.offsets()[self.offsets().len() - 2] as int <= pivot);
            }
        }
        while self.scopes.len() > pivot && self.scopes.len() > 1
            invariant
                index.wf(),
                self.schemas() == index@,
                scopes_ok(index@, self.scopes()),
                self.offsets() == old(self).offsets(),
                self.scopes().len() >= 1,
                self.scopes().len() >= pivot,
                idx == child_index(*loc),
                ptr == instance_pointer(*loc),
                s0 == old(self).scopes(),
                unwind_views(index@, self.scopes(), pivot as int, *loc, *span) == unwind_views(index@, s0, pivot as int, *loc, *span),
            decreases self.scopes@.len(),
        {
            let ghost cur = self.scopes();
            let n = self.scopes.len();
            proof {
                lemma_parent_ok(index@, cur, n - 1);
                lemma_ok_prefix(index@, cur, n - 1);
                assert(cur.subrange(0, n - 1) == cur.drop_last());
            }
            let mut scope = self.scopes.pop().unwrap();
            proof {
                assert(views(self.scopes@) =~= cur.drop_last());
                assert(scope@ == cur.last());
                assert(scope_ok(index@, cur, n - 1));
            }
            finish_scope(&mut scope, self.scopes.as_slice(), index, span, loc);
            let ghost top = scope@;
            assert(top == finished(index@, cur.drop_last(), cur.last(), ptr, *span));
            match scope.parent() {
                Some((p, k)) => {
                    let app = application(index, self.scopes[p].schema(), k);
                    let ghost parents = self.scopes();
                    unwind_scope(&mut scope, &mut self.scopes[p], app, loc);
                    proof {
                        // The parent is merged in place; the other scopes stay as they were.
                        let merged = unwind_view(top, parents[p as int], *app, idx);
                        assert(self.scopes()[p as int] == self.scopes@[p as int]@);
                        assert forall|j: int| 0 <= j < parents.len() && j != p implies self.scopes()[j] == parents[j] by {
                            assert(self.scopes()[j] == self.scopes@[j]@);
                        }
                        assert(self.scopes() =~= parents.update(p as int, merged));
                        assert(top.parent == Some((p, k)));
                        lemma_ok_update(index@, parents, p as int, merged);
                    }
                },
                None => {},
            }
        }
        if pivot == 0 {
            let ghost cur = self.scopes();
            let mut root = self.scopes.pop().unwrap();
            let none: Vec<Scope> = Vec::new();
            proof {
                assert(scope_ok(index@, cur, 0));
                assert(views(none@) =~= Seq::<ScopeView>::empty());
                assert(scopes_ok(index@, views(none@)));
            }
            finish_scope(&mut root, none.as_slice(), index, span, loc);
            self.scopes.push(root);
            proof {
                assert(self.scopes() =~= cur.update(0, finished(index@, Seq::empty(), cur[0], ptr, *span)));
                lemma_ok_update(index@, cur, 0, finished(index@, Seq::empty(), cur[0], ptr, *span));
            }
        }
        let ghost r = self.scopes();
        assert(r.len() >= pivot);
        assert(r.len() == if pivot > 0 { pivot as int } else { 1 });
        self.active_offsets.pop();
        let from: usize = if self.active_offsets.len() > 0 {
            self.active_offsets[self.active_offsets.len() - 1]
        } else {
            0
        };
        assert(self.offsets() =~= old(self).offsets().drop_last());
        assert(self.wf());
        if loc.is_item() {
            let mut i = from;
            while i < pivot
                invariant
                    index.wf(),
                    self.wf(),
                    self.schemas() == index@,
                    scopes_ok(index@, self.scopes()),
                    self.offsets() == old(self).offsets().drop_last(),
                    self.scopes@.len() == r.len(),
                    self.scopes().len() == r.len(),
                    from <= i <= pivot,
                    pivot <= r.len(),
                    ptr == instance_pointer(*loc),
                    same_shape(self.scopes(), r),
                    scopes_ok(index@, r),
                    self.scopes() == Seq::new(r.len(), |j: int| if from <= j < i {
                        unique_view(index@, r[j], span.hashed, scope_ctx(index@, r, r[j], ptr, *span))
                    } else {
                        r[j]
                    }),
                decreases pivot - i,
            {
                let ghost cur = self.scopes();
                let dup = self.scopes[i].note_item(span.hashed);
                proof {
                    lemma_ok_update(index@, cur, i as int, self.scopes()[i as int]);
                    assert(self.scopes() =~= cur.update(i as int, self.scopes()[i as int]));
                    assert(same_shape(self.scopes(), r));
                }
                if dup {
                    // A repeated item fails each `uniqueItems` of this scope.
                    let sid = self.scopes[i].schema();
                    proof {
                        lemma_parent_ok(index@, cur, i as int);
                    }
                    let schema = index.get(sid);
                    let ghost v1 = self.scopes()[i as int];
                    let ghost mid = self.scopes();
                    let ghost base = scope_ctx(index@, r, r[i as int], ptr, *span);
                    proof {
                        lemma_parent_ok(index@, r, i as int);
                        lemma_shape_ctx(index@, mid, r, v1, ptr, *span);
                    }
                    let mut k: usize = 0;
                    assert(v1.outcomes + uniq_failures(sid, schema.kw@.subrange(0, 0), base) =~= v1.outcomes);
                    while k < schema.kw.len()
                        invariant
                            index.wf(),
                            self.wf(),
                            self.scopes@.len() == r.len(),
                            self.schemas() == index@,
                            scopes_ok(index@, self.scopes()),
                            self.offsets() == old(self).offsets().drop_last(),
                            sid == v1.schema,
                            sid < index@.len(),
                            *schema == index@[sid as int],
                            k <= schema.kw@.len(),
                            i < mid.len(),
                            mid[i as int] == v1,
                            same_shape(mid, r),
                            scopes_ok(index@, mid),
                            scopes_ok(index@, r),
                            ptr == instance_pointer(*loc),
                            base == scope_ctx(index@, mid, v1, ptr, *span),
                            self.scopes() == mid.update(i as int, ScopeView {
                                invalid: v1.invalid || uniq_failures(sid, schema.kw@.subrange(0, k as int), base).len() > 0,
                                outcomes: v1.outcomes + uniq_failures(sid, schema.kw@.subrange(0, k as int), base),
                                ..v1
                            }),
                        decreases schema.kw@.len() - k,
                    {
                        assert(schema.kw@.subrange(0, k + 1).drop_last() == schema.kw@.subrange(0, k as int));
                        if let Keyword::Validation(val) = &schema.kw[k] {
                            if let Validation::UniqueItems = val {
                                proof {
                                    let cur2 = self.scopes();
                                    assert(same_shape(cur2, mid));
                                    lemma_parent_ok(index@, mid, i as int);
                                    lemma_shape_ctx(index@, cur2, mid, cur2[i as int], ptr, *span);
                                }
                                self.fail_validation(i, sid, k, val, span, loc);
                            }
                        }
                        assert(self.scopes() =~= mid.update(i as int, ScopeView {
                            invalid: v1.invalid || uniq_failures(sid, schema.kw@.subrange(0, k + 1), base).len() > 0,
                            outcomes: v1.outcomes + uniq_failures(sid, schema.kw@.subrange(0, k + 1), base),
                            ..v1
                        }));
                        k = k + 1;
                    }
                    assert(schema.kw@.subrange(0, schema.kw@.len() as int) == schema.kw@);
                }
                i = i + 1;
                assert(self.scopes() =~= Seq::new(r.len(), |j: int| if from <= j < i {
                    unique_view(index@, r[j], span.hashed, scope_ctx(index@, r, r[j], ptr, *span))
                } else {
                    r[j]
                }));
            }
        }
        assert(self.scopes() =~= popped(index@, s0, pivot as int, from as int, *loc, *span));
    }

    /// Pushes a scope for each application keyword `ks` of `schema`, the schema of scope `si`.
    fn push_applied(&mut self, si: usize, schema: &Schema, ks: &Vec<usize>)
        requires
            old(self).wf(),
            si < old(self).scopes().len(),
            *schema == old(self).schemas()[old(self).scopes()[si as int].schema as int],
            apps_within(schema.kw@, ks@),
        ensures
            final(self).wf(),
            final(self).schemas() == old(self).schemas(),
            final(self).offsets() == old(self).offsets(),
            final(self).scopes() == old(self).scopes() + applied(si, schema.kw@, ks@),
    {
        let ghost s0 = self.scopes();
        proof {
            lemma_parent_ok(self.schemas(), s0, si as int);
            assert(self.index_wf());
            assert(crate::index::keywords_within(schema.kw@, self.schemas().len()));
        }
        let mut j: usize = 0;
        assert(s0 + applied(si, schema.kw@, ks@.subrange(0, 0)) =~= s0);
        while j < ks.len()
            invariant
                self.wf(),
                self.schemas() == old(self).schemas(),
                self.offsets() == old(self).offsets(),
                s0 == old(self).scopes(),
                si < s0.len(),
                *schema == self.schemas()[s0[si as int].schema as int],
                s0[si as int].schema < self.schemas().len(),
                crate::index::keywords_within(schema.kw@, self.schemas().len()),
                apps_within(schema.kw@, ks@),
                j <= ks@.len(),
                self.scopes() == s0 + applied(si, schema.kw@, ks@.subrange(0, j as int)),
            decreases ks@.len() - j,
        {
            let k = ks[j];
            assert(ks@[j as int] < schema.kw@.len());
            let sub = match &schema.kw[k] {
                Keyword::Application(_, sub) => *sub,
                _ => vstd::pervasive::unreached(),
            };
            assert(self.scopes()[si as int] == s0[si as int]);
            self.push_scope(si, k, sub);
            j = j + 1;
            assert(self.scopes() =~= s0 + applied(si, schema.kw@, ks@.subrange(0, j as int)));
        }
        assert(ks@.subrange(0, ks@.len() as int) == ks@);
    }

    /// Pushes the `propertyNames` scopes of scopes `from..to`.
    fn push_names(&mut self, from: usize, to: usize)
        requires
            old(self).wf(),
            from <= to == old(self).scopes().len(),
        ensures
            final(self).wf(),
            final(self).schemas() == old(self).schemas(),
            final(self).offsets() == old(self).offsets(),
            final(self).scopes() == names_pushed(old(self).schemas(), old(self).scopes(), from as int, to - from),
            final(self).scopes().len() >= old(self).scopes().len(),
    {
        let ghost s0 = self.scopes();
        let index = self.index;
        let mut si = from;
        while si < to
            invariant
                self.wf(),
                self.schemas() == old(self).schemas(),
                self.schemas() == index@,
                self.offsets() == old(self).offsets(),
                s0 == old(self).scopes(),
                scopes_ok(self.schemas(), s0),
                from <= si <= to == s0.len(),
                self.scopes() == names_pushed(index@, s0, from as int, si - from),
                self.scopes().len() >= s0.len(),
            decreases to - si,
        {
            proof {
                lemma_names_pushed_prefix(index@, s0, from as int, si - from);
                lemma_parent_ok(index@, s0, si as int);
                assert(self.scopes()[si as int] == s0[si as int]);
                assert(self.scopes()[si as int] == self.scopes@[si as int]@);
            }
            let schema = index.get(self.scopes[si].schema());
            let ks = scan_names(schema);
            self.push_applied(si, schema, &ks);
            si = si + 1;
        }
    }

    /// Notes property `name` in scopes `from..to`, and pushes the scopes that they apply to its value.
    fn push_props(&mut self, from: usize, to: usize, name: &str)
        requires
            old(self).wf(),
            from <= to == old(self).scopes().len(),
        ensures
            final(self).wf(),
            final(self).schemas() == old(self).schemas(),
            final(self).offsets() == old(self).offsets(),
            final(self).scopes() == props_pushed(
                old(self).schemas(),
                props_marked(old(self).schemas(), old(self).scopes(), from as int, to as int, name@),
                from as int,
                to - from,
                name@,
            ),
            final(self).scopes().len() >= old(self).scopes().len(),
    {
        let ghost s0 = self.scopes();
        let index = self.index;
        let mut si = from;
        assert(props_marked(index@, s0, from as int, from as int, name@) =~= s0);
        while si < to
            invariant
                self.wf(),
                self.schemas() == old(self).schemas(),
                self.schemas() == index@,
                self.offsets() == old(self).offsets(),
                s0 == old(self).scopes(),
                scopes_ok(self.schemas(), s0),
                from <= si <= to == s0.len(),
                self.scopes() == props_pushed(index@, props_marked(index@, s0, from as int, si as int, name@), from as int, si - from, name@),
                self.scopes().len() >= s0.len(),
            decreases to - si,
        {
            let ghost m = props_marked(index@, s0, from as int, si as int, name@);
            let ghost cur = self.scopes();
            proof {
                lemma_props_pushed_update(index@, m, si as int, m[si as int], from as int, si - from, name@);
                lemma_parent_ok(index@, s0, si as int);
                assert(cur[si as int] == s0[si as int]);
            }
            let sid = self.scopes[si].schema();
            let schema = index.get(sid);
            let bit = schema.lookup(name);
            let (e, ks) = scan_props(schema, name, bit);
            self.scopes[si].add_seen(bit);
            self.scopes[si].push_evaluated(e);
            let ghost marked = self.scopes()[si as int];
            proof {
                assert(self.scopes() =~= cur.update(si as int, marked));
                lemma_ok_update(index@, cur, si as int, marked);
                lemma_props_pushed_update(index@, m, si as int, marked, from as int, si - from, name@);
                assert(m.update(si as int, marked) =~= props_marked(index@, s0, from as int, si + 1, name@));
            }
            self.push_applied(si, schema, &ks);
            si = si + 1;
        }
    }

    /// Notes the item at `index` in scopes `from..to`, and pushes the scopes that they apply to it.
    fn push_items(&mut self, from: usize, to: usize, index: usize)
        requires
            old(self).wf(),
            from <= to == old(self).scopes().len(),
        ensures
            final(self).wf(),
            final(self).schemas() == old(self).schemas(),
            final(self).offsets() == old(self).offsets(),
            final(self).scopes() == items_pushed(
                old(self).schemas(),
                items_marked(old(self).schemas(), old(self).scopes(), from as int, to as int, index),
                from as int,
                to - from,
                index,
            ),
            final(self).scopes().len() >= old(self).scopes().len(),
    {
        let ghost s0 = self.scopes();
        let idx = self.index;
        let mut si = from;
        assert(items_marked(idx@, s0, from as int, from as int, index) =~= s0);
        while si < to
            invariant
                self.wf(),
                self.schemas() == old(self).schemas(),
                self.schemas() == idx@,
                self.offsets() == old(self).offsets(),
                s0 == old(self).scopes(),
                scopes_ok(self.schemas(), s0),
                from <= si <= to == s0.len(),
                self.scopes() == items_pushed(idx@, items_marked(idx@, s0, from as int, si as int, index), from as int, si - from, index),
                self.scopes().len() >= s0.len(),
            decreases to - si,
        {
            let ghost m = items_marked(idx@, s0, from as int, si as int, index);
            let ghost cur = self.scopes();
            proof {
                lemma_items_pushed_update(idx@, m, si as int, m[si as int], from as int, si - from, index);
                lemma_parent_ok(idx@, s0, si as int);
                assert(cur[si as int] == s0[si as int]);
            }
            let sid = self.scopes[si].schema();
            let schema = idx.get(sid);
            let (e, ks) = scan_items(schema, index);
            self.scopes[si].push_evaluated(e);
            let ghost marked = self.scopes()[si as int];
            proof {
                assert(self.scopes() =~= cur.update(si as int, marked));
                lemma_ok_update(idx@, cur, si as int, marked);
                lemma_items_pushed_update(idx@, m, si as int, marked, from as int, si - from, index);
                assert(m.update(si as int, marked) =~= items_marked(idx@, s0, from as int, si + 1, index));
            }
            self.push_applied(si, schema, &ks);
            si = si + 1;
        }
    }

    /// Completes a value: checks it against the active scopes, then pops their window.
    fn complete(&mut self, span: &Span, loc: &Location, leaf: &Leaf)
        requires
            old(self).wf(),
            old(self).walking(),
        ensures
            final(self).wf(),
            final(self).prepared(),
            final(self).schemas() == old(self).schemas(),
            final(self).offsets() == old(self).offsets().drop_last(),
            final(self).scopes() == completed(old(self).schemas(), old(self).scopes(), old(self).pivot(), old(self).below_pivot(), token(*leaf), *span, *loc),
            final(self).scopes().len() == if old(self).pivot() > 0 { old(self).pivot() } else { 1 },
    {
        self.check_validations(span, loc, leaf);
        self.pop(span, loc);
    }

    /// An object with `num_properties` properties completes at `loc`.
    pub fn pop_object(&mut self, span: &Span, loc: &Location, num_properties: usize)
        requires
            old(self).wf(),
            old(self).walking(),
        ensures
            final(self).wf(),
            final(self).prepared(),
            final(self).schemas() == old(self).schemas(),
            final(self).offsets() == old(self).offsets().drop_last(),
            final(self).scopes() == completed(old(self).schemas(), old(self).scopes(), old(self).pivot(), old(self).below_pivot(), Token::Object(num_properties), *span, *loc),
    {
        self.complete(span, loc, &Leaf::Object(num_properties));
    }

    /// An array with `num_items` items completes at `loc`.
    pub fn pop_array(&mut self, span: &Span, loc: &Location, num_items: usize)
        requires
            old(self).wf(),
            old(self).walking(),
        ensures
            final(self).wf(),
            final(self).prepared(),
            final(self).schemas() == old(self).schemas(),
            final(self).offsets() == old(self).offsets().drop_last(),
            final(self).scopes() == completed(old(self).schemas(), old(self).scopes(), old(self).pivot(), old(self).below_pivot(), Token::Array(num_items), *span, *loc),
    {
        self.complete(span, loc, &Leaf::Array(num_items));
    }

    /// A boolean completes at `loc`.
    pub fn pop_bool(&mut self, span: &Span, loc: &Location, b: bool)
        requires
            old(self).wf(),
            old(self).walking(),
        ensures
            final(self).wf(),
            final(self).prepared(),
            final(self).schemas() == old(self).schemas(),
            final(self).offsets() == old(self).offsets().drop_last(),
            final(self).scopes() == completed(old(self).schemas(), old(self).scopes(), old(self).pivot(), old(self).below_pivot(), Token::Bool(b), *span, *loc),
    {
        self.complete(span, loc, &Leaf::Bool(b));
    }

    /// A number completes at `loc`.
    pub fn pop_numeric(&mut self, span: &Span, loc: &Location, num: Number)
        requires
            old(self).wf(),
            old(self).walking(),
        ensures
            final(self).wf(),
            final(self).prepared(),
            final(self).schemas() == old(self).schemas(),
            final(self).offsets() == old(self).offsets().drop_last(),
            final(self).scopes() == completed(old(self).schemas(), old(self).scopes(), old(self).pivot(), old(self).below_pivot(), Token::Numeric(num), *span, *loc),
    {
        self.complete(span, loc, &Leaf::Numeric(num));
    }

    /// A string completes at `loc`.
    pub fn pop_str(&mut self, span: &Span, loc: &Location, s: &str)
        requires
            old(self).wf(),
            old(self).walking(),
        ensures
            final(self).wf(),
            final(self).prepared(),
            final(self).schemas() == old(self).schemas(),
            final(self).offsets() == old(self).offsets().drop_last(),
            final(self).scopes() == completed(old(self).schemas(), old(self).scopes(), old(self).pivot(), old(self).below_pivot(), Token::Str(s@), *span, *loc),
            final(self).scopes().len() == if old(self).pivot() > 0 { old(self).pivot() } else { 1 },
    {
        self.complete(span, loc, &Leaf::Str(s));
    }

    /// A null completes at `loc`.
    pub fn pop_null(&mut self, span: &Span, loc: &Location)
        requires
            old(self).wf(),
            old(self).walking(),
        ensures
            final(self).wf(),
            final(self).prepared(),
            final(self).schemas() == old(self).schemas(),
            final(self).offsets() == old(self).offsets().drop_last(),
            final(self).scopes() == completed(old(self).schemas(), old(self).scopes(), old(self).pivot(), old(self).below_pivot(), Token::Null, *span, *loc),
    {
        self.complete(span, loc, &Leaf::Null);
    }

    /// A property of the object at `loc.parent` begins. Its name is first validated as a
    /// string by the active `propertyNames`; then the scopes that apply to its value
    /// become the active window.
    #[verifier::rlimit(40)]
    pub fn push_property(&mut self, span: &Span, loc: &LocatedProperty)
        requires
            old(self).wf(),
            old(self).walking(),
        ensures
            final(self).wf(),
            final(self).walking(),
            final(self).schemas() == old(self).schemas(),
            final(self).offsets() == old(self).offsets().push(old(self).scopes().len() as usize),
            property_pushed(old(self).schemas(), old(self).scopes(), old(self).pivot(), loc.name@, *loc.parent, *span, final(self).scopes()),
    {
        let ghost s0 = self.scopes();
        let ghost schemas = self.schemas();
        let from = self.active_offsets[self.active_offsets.len() - 1];
        let to = self.scopes.len();
        let here = Location::Property(LocatedProperty { parent: Box::new(loc.parent.copy()), name: loc.name.clone(), index: loc.index });
        assert(instance_pointer(here) == instance_pointer(*loc.parent) + "/"@ + escape_token(loc.name@));
        self.push_names(from, to);
        self.expand_scopes(to, span, &here);
        self.active_offsets.push(to);
        proof {
            assert(self.offsets()[self.offsets().len() - 1] == to);
            assert(self.wf());
            assert(self.pivot() == to);
            assert(self.below_pivot() == from);
        }
        self.pop_str(span, &loc.parent, loc.name.as_str());
        assert(self.offsets() =~= old(self).offsets());
        assert(self.scopes().len() >= to);
        self.push_props(from, to, loc.name.as_str());
        self.expand_scopes(to, span, &here);
        self.active_offsets.push(to);
        proof {
            assert(self.offsets()[self.offsets().len() - 1] == to);
        }
    }

    /// The array item at `loc.index` begins: the scopes that apply to it become the
    /// active window.
    pub fn push_item(&mut self, span: &Span, loc: &LocatedItem)
        requires
            old(self).wf(),
            old(self).walking(),
        ensures
            final(self).wf(),
            final(self).walking(),
            final(self).schemas() == old(self).schemas(),
            final(self).offsets() == old(self).offsets().push(old(self).scopes().len() as usize),
            item_pushed(old(self).schemas(), old(self).scopes(), old(self).pivot(), *loc.parent, loc.index, *span, final(self).scopes()),
    {
        let from = self.active_offsets[self.active_offsets.len() - 1];
        let to = self.scopes.len();
        let here = Location::Item(LocatedItem { parent: Box::new(loc.parent.copy()), index: loc.index });
        assert(instance_pointer(here) == instance_pointer(*loc.parent) + "/"@ + decimal(loc.index as nat));
        self.push_items(from, to, loc.index);
        self.expand_scopes(to, span, &here);
        self.active_offsets.push(to);
        proof {
            assert(self.offsets()[self.offsets().len() - 1] == to);
        }
    }
}

} // verus!
