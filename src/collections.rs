use crate::outcome::{FullContext, Outcome};
use vstd::prelude::*;

verus! {

#[verifier::external_type_specification]
#[verifier::external_body]
pub struct ExFxHasher(fxhash::FxHasher);

#[verifier::external_type_specification]
#[verifier::external_body]
#[verifier::reject_recursive_types(H)]
pub struct ExBuildHasherDefault<H>(std::hash::BuildHasherDefault<H>);

/// A vector of flags, one per alternative or per child, held inline while short.
#[verifier::external_body]
pub struct BoolVec {
    bits: tinyvec::TinyVec<[bool; 15]>,
}

/// A set of item hashes.
pub type HashSet = fxhash::FxHashSet<u64>;

/// The flags that a `BoolVec` holds, in order.
pub uninterp spec fn bits_of(v: BoolVec) -> Seq<bool>;

/// An empty vector of flags.
///
/// Relies on tinyvec's `Default for TinyVec`, which makes an empty inline vector.
#[verifier::external_body]
pub fn bits_new() -> (r: BoolVec)
    ensures
        bits_of(r) == Seq::<bool>::empty(),
{
    BoolVec { bits: tinyvec::TinyVec::default() }
}

/// The number of flags.
///
/// Relies on tinyvec's `TinyVec::len`.
#[verifier::external_body]
pub fn bits_len(v: &BoolVec) -> (r: usize)
    ensures
        r == bits_of(*v).len(),
{
    v.bits.len()
}

/// The flag at position `i`.
///
/// Relies on tinyvec's `Index for TinyVec`, the element at a position within its length.
#[verifier::external_body]
pub fn bits_get(v: &BoolVec, i: usize) -> (r: bool)
    requires
        i < bits_of(*v).len(),
    ensures
        r == bits_of(*v)[i as int],
{
    v.bits[i]
}

/// Sets the flag at position `i`.
///
/// Relies on tinyvec's `IndexMut for TinyVec`, the element at a position within its length.
#[verifier::external_body]
pub fn bits_set(v: &mut BoolVec, i: usize, b: bool)
    requires
        i < bits_of(*old(v)).len(),
    ensures
        bits_of(*final(v)) == bits_of(*old(v)).update(i as int, b),
{
    v.bits[i] = b;
}

/// Appends a flag.
///
/// Relies on tinyvec's `TinyVec::push`, which appends, moving to the heap when full.
#[verifier::external_body]
pub fn bits_push(v: &mut BoolVec, b: bool)
    ensures
        bits_of(*final(v)) == bits_of(*old(v)).push(b),
{
    v.bits.push(b);
}

/// An empty set of hashes.
pub fn hashes_new() -> (r: HashSet)
    ensures
        r@ == Set::<u64>::empty(),
{
    HashSet::default()
}

/// Adds `h`; true when it was not already present.
///
/// Relies on std's `HashSet::insert`, here under fxhash's hasher, which returns
/// whether the value was newly inserted.
#[verifier::external_body]
pub fn hashes_insert(set: &mut HashSet, h: u64) -> (r: bool)
    ensures
        final(set)@ == old(set)@.insert(h),
        r == !old(set)@.contains(h),
{
    set.insert(h)
}

/// The outcomes of a scope with their contexts, held inline while few.
#[verifier::external_body]
pub struct OutcomeVec {
    items: tinyvec::TinyVec<[(Outcome, FullContext); 4]>,
}

/// The entries of an `OutcomeVec`, in order.
pub uninterp spec fn outcome_items(v: OutcomeVec) -> Seq<(Outcome, FullContext)>;

/// An empty list of outcomes.
///
/// Relies on tinyvec's `Default for TinyVec`, which makes an empty inline vector.
#[verifier::external_body]
pub fn outcomes_new() -> (r: OutcomeVec)
    ensures
        outcome_items(r) == Seq::<(Outcome, FullContext)>::empty(),
{
    OutcomeVec { items: tinyvec::TinyVec::default() }
}

/// The number of entries.
///
/// Relies on tinyvec's `TinyVec::len`.
#[verifier::external_body]
pub fn outcomes_len(v: &OutcomeVec) -> (r: usize)
    ensures
        r == outcome_items(*v).len(),
{
    v.items.len()
}

/// Appends an entry.
///
/// Relies on tinyvec's `TinyVec::push`, which appends, moving to the heap when full.
#[verifier::external_body]
pub fn outcomes_push(v: &mut OutcomeVec, e: (Outcome, FullContext))
    ensures
        outcome_items(*final(v)) == outcome_items(*old(v)).push(e),
{
    v.items.push(e);
}

/// Moves all entries of `other` onto the end of `v`.
///
/// Relies on tinyvec's `TinyVec::append`, which moves the entries in order and
/// leaves `other` empty.
#[verifier::external_body]
pub fn outcomes_append(v: &mut OutcomeVec, other: &mut OutcomeVec)
    ensures
        outcome_items(*final(v)) == outcome_items(*old(v)) + outcome_items(*old(other)),
        outcome_items(*final(other)) == Seq::<(Outcome, FullContext)>::empty(),
{
    v.items.append(&mut other.items);
}

/// Removes and returns the entry at position `i`, shifting the rest down.
///
/// Relies on tinyvec's `TinyVec::remove`, which panics only past the end.
#[verifier::external_body]
pub fn outcomes_remove(v: &mut OutcomeVec, i: usize) -> (r: (Outcome, FullContext))
    requires
        i < outcome_items(*old(v)).len(),
    ensures
        r == outcome_items(*old(v))[i as int],
        outcome_items(*final(v)) == outcome_items(*old(v)).remove(i as int),
{
    v.items.remove(i)
}

/// Removes all entries.
///
/// Relies on tinyvec's `TinyVec::clear`.
#[verifier::external_body]
pub fn outcomes_clear(v: &mut OutcomeVec)
    ensures
        outcome_items(*final(v)) == Seq::<(Outcome, FullContext)>::empty(),
{
    v.items.clear();
}

/// The entries, as a slice.
///
/// Relies on tinyvec's `TinyVec::as_slice`.
#[verifier::external_body]
pub fn outcomes_slice(v: &OutcomeVec) -> (r: &[(Outcome, FullContext)])
    ensures
        r@ == outcome_items(*v),
{
    v.items.as_slice()
}

/// Speculative outcomes, each with the child position it concerns, held inline while few.
#[verifier::external_body]
pub struct PendingVec {
    items: tinyvec::TinyVec<[(Outcome, FullContext, usize); 4]>,
}

/// The entries of a `PendingVec`, in order.
pub uninterp spec fn pending_items(v: PendingVec) -> Seq<(Outcome, FullContext, usize)>;

/// An empty list of speculative outcomes.
///
/// Relies on tinyvec's `Default for TinyVec`, which makes an empty inline vector.
#[verifier::external_body]
pub fn pending_new() -> (r: PendingVec)
    ensures
        pending_items(r) == Seq::<(Outcome, FullContext, usize)>::empty(),
{
    PendingVec { items: tinyvec::TinyVec::default() }
}

/// The number of entries.
///
/// Relies on tinyvec's `TinyVec::len`.
#[verifier::external_body]
pub fn pending_len(v: &PendingVec) -> (r: usize)
    ensures
        r == pending_items(*v).len(),
{
    v.items.len()
}

/// Appends an entry.
///
/// Relies on tinyvec's `TinyVec::push`, which appends, moving to the heap when full.
#[verifier::external_body]
pub fn pending_push(v: &mut PendingVec, e: (Outcome, FullContext, usize))
    ensures
        pending_items(*final(v)) == pending_items(*old(v)).push(e),
{
    v.items.push(e);
}

/// Removes and returns the entry at position `i`, shifting the rest down.
///
/// Relies on tinyvec's `TinyVec::remove`, which panics only past the end.
#[verifier::external_body]
pub fn pending_remove(v: &mut PendingVec, i: usize) -> (r: (Outcome, FullContext, usize))
    requires
        i < pending_items(*old(v)).len(),
    ensures
        r == pending_items(*old(v))[i as int],
        pending_items(*final(v)) == pending_items(*old(v)).remove(i as int),
{
    v.items.remove(i)
}

} // verus!
