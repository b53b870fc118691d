use crate::pointer::{decimal, escape_token, push_escaped, write_decimal};
use vstd::prelude::*;

verus! {

/// The byte range of the current JSON token, and a content hash of its value.
#[derive(Clone, Copy, Debug, PartialEq, Eq, Structural)]
pub struct Span {
    pub begin: usize,
    pub end: usize,
    pub hashed: u64,
}

/// Where a value sits within the document being walked.
#[derive(Debug)]
pub enum Location {
    Root,
    Property(LocatedProperty),
    Item(LocatedItem),
}

/// A property of an object: its name, and its position among the object's properties.
#[derive(Debug)]
pub struct LocatedProperty {
    pub parent: Box<Location>,
    pub name: String,
    pub index: usize,
}

/// An item of an array, at its position.
#[derive(Debug)]
pub struct LocatedItem {
    pub parent: Box<Location>,
    pub index: usize,
}

/// The JSON Pointer of the value at `loc`.
pub open spec fn instance_pointer(loc: Location) -> Seq<char>
    decreases loc,
{
    match loc {
        Location::Root => Seq::empty(),
        Location::Property(p) => instance_pointer(*p.parent) + "/"@ + escape_token(p.name@),
        Location::Item(i) => instance_pointer(*i.parent) + "/"@ + decimal(i.index as nat),
    }
}

/// The position of the value at `loc` among its container's children.
pub open spec fn child_index(loc: Location) -> Option<usize> {
    match loc {
        Location::Root => None,
        Location::Property(p) => Some(p.index),
        Location::Item(i) => Some(i.index),
    }
}

impl Location {
    /// The JSON Pointer of this location.
    pub fn pointer(&self) -> (r: String)
        ensures
            r@ == instance_pointer(*self),
        decreases *self,
    {
        match self {
            Location::Root => String::new(),
            Location::Property(p) => {
                let mut s = p.parent.pointer();
                s.append("/");
                push_escaped(&mut s, p.name.as_str());
                s
            },
            Location::Item(i) => {
                let mut s = i.parent.pointer();
                s.append("/");
                let d = write_decimal(i.index);
                s.append(d.as_str());
                s
            },
        }
    }

    /// A copy of this location.
    pub fn copy(&self) -> (r: Location)
        ensures
            instance_pointer(r) == instance_pointer(*self),
            child_index(r) == child_index(*self),
            (r is Item) == (*self is Item),
        decreases *self,
    {
        match self {
            Location::Root => Location::Root,
            Location::Property(p) => Location::Property(LocatedProperty {
                parent: Box::new(p.parent.copy()),
                name: p.name.clone(),
                index: p.index,
            }),
            Location::Item(i) => Location::Item(LocatedItem { parent: Box::new(i.parent.copy()), index: i.index }),
        }
    }

    /// The position of this location among its container's children.
    pub fn index(&self) -> (r: Option<usize>)
        ensures
            r == child_index(*self),
    {
        match self {
            Location::Root => None,
            Location::Property(p) => Some(p.index),
            Location::Item(i) => Some(i.index),
        }
    }

    /// Whether this location is an array item.
    pub fn is_item(&self) -> (r: bool)
        ensures
            r == (*self is Item),
    {
        match self {
            Location::Item(_) => true,
            _ => false,
        }
    }
}

} // verus!
