use crate::pattern::{regex_matches, Pattern};
use crate::pointer::str_eq;
use vstd::prelude::*;

verus! {

/// Handles queued requests to evolve collections.
pub struct EvolutionHandler;

impl EvolutionHandler {
    /// The table that queues the requests this handler serves.
    pub fn table_name(&self) -> (r: &'static str)
        ensures
            r@ == "evolutions"@,
    {
        "evolutions"
    }
}

/// One requested evolution: the current name of a collection and, when it is to be
/// re-created, its new name. Without a new name only materialization bindings change.
pub struct EvolveRequest {
    pub current_name: String,
    pub new_name: Option<String>,
}

/// A summary of one evolved collection.
pub struct EvolvedCollection {
    /// Name of the collection before the evolution.
    pub old_name: String,
    /// The new name, which is the old name where only bindings were updated.
    pub new_name: String,
    /// The materializations updated as a result of evolving this collection.
    pub updated_materializations: Vec<String>,
    /// The captures updated as a result of evolving this collection.
    pub updated_captures: Vec<String>,
}

/// The outcome of an evolution job.
pub enum JobStatus {
    EvolutionFailed { error: String },
    Success { evolved_collections: Vec<EvolvedCollection>, publication_id: Option<u64> },
}

/// The status of a job that failed with the message `err`.
pub fn error_status(err: String) -> (r: JobStatus)
    ensures
        r matches JobStatus::EvolutionFailed { error } && error@ == err@,
{
    JobStatus::EvolutionFailed { error: err }
}

/// The kind of a catalog specification.
#[derive(Clone, Copy, Debug, PartialEq, Eq, Structural)]
pub enum CatalogType {
    Capture,
    Collection,
    Materialization,
    Test,
}

/// A specification of a draft: its catalog name, its kind (none where the draft
/// deletes it), and the live specification it updates, if it was ever published.
pub struct DraftSpecRow {
    pub catalog_name: String,
    pub draft_type: Option<CatalogType>,
    pub live_spec_id: Option<u64>,
}

/// The requested new name for `name`: `None` where `name` is not requested, and
/// `Some(None)` where it is requested without a new name. The first request counts.
pub open spec fn requested(evolving: Seq<(String, Option<String>)>, name: Seq<char>) -> Option<Option<String>>
    decreases evolving.len(),
{
    if evolving.len() == 0 {
        None
    } else if evolving[0].0@ == name {
        Some(evolving[0].1)
    } else {
        requested(evolving.drop_first(), name)
    }
}

/// Why the requested evolution of the collection of `row` cannot go ahead, if it cannot.
pub open spec fn row_error(row: DraftSpecRow, new_name: Option<String>, names: Seq<char>) -> Option<Seq<char>> {
    let old = row.catalog_name@;
    match new_name {
        Some(n) if !regex_matches(names, n@) => Some("requested collection name '"@ + n@ + "' is invalid"@),
        _ => if row.draft_type is None {
            Some("cannot re-create collection '"@ + old + "' which was already deleted in the draft"@)
        } else if row.live_spec_id is None {
            Some("cannot re-create collection '"@ + old + "' because it has never been published"@)
        } else {
            None
        },
    }
}

/// The error of the first row, in order, whose collection is requested and cannot evolve.
pub open spec fn first_row_error(rows: Seq<DraftSpecRow>, evolving: Seq<(String, Option<String>)>, names: Seq<char>) -> Option<Seq<char>>
    decreases rows.len(),
{
    if rows.len() == 0 {
        None
    } else {
        let e = match requested(evolving, rows[0].catalog_name@) {
            Some(n) => row_error(rows[0], n, names),
            None => None,
        };
        if e is Some {
            e
        } else {
            first_row_error(rows.drop_first(), evolving, names)
        }
    }
}

/// Some row has the catalog name `name`.
pub open spec fn in_draft(rows: Seq<DraftSpecRow>, name: Seq<char>) -> bool {
    exists|i: int| 0 <= i < rows.len() && (#[trigger] rows[i]).catalog_name@ == name
}

/// The requested names that no row has, joined by ", ", in request order.
pub open spec fn missing_list(rows: Seq<DraftSpecRow>, evolving: Seq<(String, Option<String>)>) -> Seq<char>
    decreases evolving.len(),
{
    if evolving.len() == 0 {
        Seq::empty()
    } else {
        let rest = missing_list(rows, evolving.drop_last());
        let name = evolving.last().0@;
        if in_draft(rows, name) {
            rest
        } else if rest.len() == 0 {
            name
        } else {
            rest + ", "@ + name
        }
    }
}

/// Some requested name is in no row.
pub open spec fn any_missing(rows: Seq<DraftSpecRow>, evolving: Seq<(String, Option<String>)>) -> bool {
    exists|k: int| 0 <= k < evolving.len() && !in_draft(rows, (#[trigger] evolving[k]).0@)
}

/// Checks that the requested collections can evolve within the draft `spec_rows`:
/// each requested collection is in the draft, not deleted there, published before, and
/// any new name matches the collection-name rule `names`. Fails with the reason of the
/// first row, in order, that cannot evolve, else with the list of requested names
/// absent from the draft.
pub fn validate_evolving_collections(
    spec_rows: &Vec<DraftSpecRow>,
    evolving_collections: &Vec<(String, Option<String>)>,
    names: &Pattern,
) -> (r: Result<(), String>)
    ensures
        match first_row_error(spec_rows@, evolving_collections@, names.source_view()) {
            Some(e) => r matches Err(m) && m@ == e,
            None => if any_missing(spec_rows@, evolving_collections@) {
                r matches Err(m) && m@ == "the collections: "@ + missing_list(spec_rows@, evolving_collections@) + " are not present in the draft"@
            } else {
                r is Ok
            },
        },
{
    let mut i: usize = 0;
    let ghost rows = spec_rows@;
    let ghost ev = evolving_collections@;
    let ghost pat = names.source_view();
    assert(rows.subrange(0, rows.len() as int) == rows);
    while i < spec_rows.len()
        invariant
            rows == spec_rows@,
            ev == evolving_collections@,
            pat == names.source_view(),
            i <= rows.len(),
            first_row_error(rows, ev, pat) == first_row_error(rows.subrange(i as int, rows.len() as int), ev, pat),
        decreases rows.len() - i,
    {
        let ghost rest = rows.subrange(i as int, rows.len() as int);
        assert(rest.drop_first() == rows.subrange(i + 1, rows.len() as int));
        assert(rest[0] == rows[i as int]);
        let row = &spec_rows[i];
        match lookup_request(evolving_collections, row.catalog_name.as_str()) {
            Some(new_name) => {
                if let Some(n) = new_name {
                    if !names.is_match(n.as_str()) {
                        let mut m = String::from_str("requested collection name '");
                        m.append(n.as_str());
                        m.append("' is invalid");
                        return Err(m);
                    }
                }
                if row.draft_type.is_none() {
                    let mut m = String::from_str("cannot re-create collection '");
                    m.append(row.catalog_name.as_str());
                    m.append("' which was already deleted in the draft");
                    return Err(m);
                }
                if row.live_spec_id.is_none() {
                    let mut m = String::from_str("cannot re-create collection '");
                    m.append(row.catalog_name.as_str());
                    m.append("' because it has never been published");
                    return Err(m);
                }
            },
            None => {},
        }
        i = i + 1;
    }
    assert(rows.subrange(rows.len() as int, rows.len() as int).len() == 0);
    let mut missing = String::new();
    let mut any = false;
    let mut k: usize = 0;
    while k < evolving_collections.len()
        invariant
            rows == spec_rows@,
            ev == evolving_collections@,
            k <= ev.len(),
            missing@ == missing_list(rows, ev.subrange(0, k as int)),
            any == exists|j: int| 0 <= j < k && !in_draft(rows, (#[trigger] ev[j]).0@),
        decreases ev.len() - k,
    {
        assert(ev.subrange(0, k + 1).drop_last() == ev.subrange(0, k as int));
        assert(ev.subrange(0, k + 1).last() == ev[k as int]);
        let name = evolving_collections[k].0.as_str();
        if !has_row(spec_rows, name) {
            if missing.unicode_len() > 0 {
                missing.append(", ");
            }
            missing.append(name);
            any = true;
        }
        k = k + 1;
    }
    assert(ev.subrange(0, ev.len() as int) == ev);
    if any {
        let mut m = String::from_str("the collections: ");
        m.append(missing.as_str());
        m.append(" are not present in the draft");
        return Err(m);
    }
    Ok(())
}

/// The requested new name for `name`, as `requested` says.
fn lookup_request<'a>(evolving: &'a Vec<(String, Option<String>)>, name: &str) -> (r: Option<&'a Option<String>>)
    ensures
        match r {
            Some(n) => requested(evolving@, name@) == Some(*n),
            None => requested(evolving@, name@) is None,
        },
{
    let mut i: usize = 0;
    assert(evolving@.subrange(0, evolving@.len() as int) == evolving@);
    while i < evolving.len()
        invariant
            i <= evolving@.len(),
            requested(evolving@, name@) == requested(evolving@.subrange(i as int, evolving@.len() as int), name@),
        decreases evolving@.len() - i,
    {
        let ghost rest = evolving@.subrange(i as int, evolving@.len() as int);
        assert(rest.drop_first() == evolving@.subrange(i + 1, evolving@.len() as int));
        assert(rest[0] == evolving@[i as int]);
        if str_eq(evolving[i].0.as_str(), name) {
            return Some(&evolving[i].1);
        }
        i = i + 1;
    }
    None
}

/// Whether some row has the catalog name `name`.
fn has_row(rows: &Vec<DraftSpecRow>, name: &str) -> (r: bool)
    ensures
        r == in_draft(rows@, name@),
{
    let mut i: usize = 0;
    while i < rows.len()
        invariant
            i <= rows@.len(),
            forall|j: int| 0 <= j < i ==> (#[trigger] rows@[j]).catalog_name@ != name@,
        decreases rows@.len() - i,
    {
        if str_eq(rows[i].catalog_name.as_str(), name) {
            return true;
        }
        i = i + 1;
    }
    false
}

} // verus!
