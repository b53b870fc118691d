use crate::pointer::str_eq;
use crate::schema::{Keyword, Schema};
use vstd::prelude::*;

verus! {

/// Why a schema could not be added to, or found in, an `Index`.
#[derive(Debug)]
pub enum IndexError {
    /// No schema has this canonical URI.
    NotFound(String),
    /// A schema with this canonical URI is already indexed.
    Duplicate(String),
    /// A keyword names a sub-schema that is not (yet) indexed.
    UnknownSubschema(usize),
}

/// The compiled schemas, each reachable by its position and by its canonical URI.
pub struct Index {
    schemas: Vec<Schema>,
}

/// The sub-schema positions of `kw` are all below `n`.
pub open spec fn keywords_within(kw: Seq<Keyword>, n: nat) -> bool {
    forall|k: int| 0 <= k < kw.len() ==> (#[trigger] kw[k] matches Keyword::Application(_, sub) ==> sub < n)
}

/// Position `i` is the one schema of `schemas` whose canonical URI is `uri`.
pub open spec fn has_curi(schemas: Seq<Schema>, uri: Seq<char>) -> bool {
    exists|i: int| 0 <= i < schemas.len() && (#[trigger] schemas[i]).curi@ == uri
}

impl Index {
    /// The indexed schemas, by position.
    pub closed spec fn view(&self) -> Seq<Schema> {
        self.schemas@
    }

    /// Every sub-schema is indexed, and canonical URIs are unique.
    pub open spec fn wf(&self) -> bool {
        &&& forall|i: int| 0 <= i < self@.len() ==> keywords_within(#[trigger] self@[i].kw@, self@.len())
        &&& forall|i: int, j: int|
            0 <= i < self@.len() && 0 <= j < self@.len() && i != j ==> (#[trigger] self@[i]).curi@ != (#[trigger] self@[j]).curi@
    }

    #[verifier::type_invariant]
    pub open spec fn inv(self) -> bool {
        self.wf()
    }

    /// An empty index.
    pub fn new() -> (r: Index)
        ensures
            r@ == Seq::<Schema>::empty(),
            r.wf(),
    {
        Index { schemas: Vec::new() }
    }

    /// The number of indexed schemas.
    pub fn len(&self) -> (r: usize)
        ensures
            r == self@.len(),
    {
        self.schemas.len()
    }

    /// The schema at position `id`.
    pub fn get(&self, id: usize) -> (r: &Schema)
        requires
            id < self@.len(),
        ensures
            *r == self@[id as int],
    {
        &self.schemas[id]
    }

    /// Adds `schema` at the next position, which is returned. Fails when its
    /// canonical URI is already indexed, or when a keyword names a sub-schema that is not.
    pub fn add(&mut self, schema: Schema) -> (r: Result<usize, IndexError>)
        ensures
            final(self).wf(),
            match r {
                Ok(id) => id == old(self)@.len() && final(self)@ == old(self)@.push(schema),
                Err(IndexError::Duplicate(u)) => u@ == schema.curi@ && has_curi(old(self)@, schema.curi@)
                    && final(self)@ == old(self)@,
                Err(IndexError::UnknownSubschema(s)) => !has_curi(old(self)@, schema.curi@)
                    && !keywords_within(schema.kw@, old(self)@.len() as nat) && s >= old(self)@.len()
                    && final(self)@ == old(self)@,
                Err(IndexError::NotFound(_)) => false,
            },
            r is Ok <==> !has_curi(old(self)@, schema.curi@) && keywords_within(schema.kw@, old(self)@.len() as nat),
    {
        proof {
            use_type_invariant(&*self);
        }
        if let Some(_) = self.fetch(schema.curi.as_str()) {
            return Err(IndexError::Duplicate(schema.curi.clone()));
        }
        let n = self.schemas.len();
        let mut k: usize = 0;
        while k < schema.kw.len()
            invariant
                n == self@.len(),
                self@ == old(self)@,
                self.wf(),
                !has_curi(self@, schema.curi@),
                k <= schema.kw@.len(),
                forall|j: int| 0 <= j < k ==> (#[trigger] schema.kw@[j] matches Keyword::Application(_, sub) ==> sub < n),
            decreases schema.kw@.len() - k,
        {
            if let Keyword::Application(_, sub) = &schema.kw[k] {
                if *sub >= n {
                    return Err(IndexError::UnknownSubschema(*sub));
                }
            }
            k = k + 1;
        }
        let mut schemas: Vec<Schema> = Vec::new();
        std::mem::swap(&mut schemas, &mut self.schemas);
        schemas.push(schema);
        self.schemas = schemas;
        proof {
            assert forall|i: int| 0 <= i < self@.len() implies keywords_within(#[trigger] self@[i].kw@, self@.len()) by {
                if i < n {
                    assert(keywords_within(old(self)@[i].kw@, n as nat));
                }
            }
            assert forall|i: int, j: int|
                0 <= i < self@.len() && 0 <= j < self@.len() && i != j implies (#[trigger] self@[i]).curi@ != (#[trigger] self@[j]).curi@ by {
                if i == n {
                    assert(old(self)@[j].curi@ != schema.curi@);
                } else if j == n {
                    assert(old(self)@[i].curi@ != schema.curi@);
                }
            }
        }
        Ok(n)
    }

    /// The position of the schema whose canonical URI is `uri`, if any.
    pub fn fetch(&self, uri: &str) -> (r: Option<usize>)
        ensures
            match r {
                Some(i) => i < self@.len() && self@[i as int].curi@ == uri@,
                None => !has_curi(self@, uri@),
            },
    {
        let mut i: usize = 0;
        while i < self.schemas.len()
            invariant
                i <= self@.len(),
                forall|j: int| 0 <= j < i ==> (#[trigger] self@[j]).curi@ != uri@,
            decreases self@.len() - i,
        {
            if str_eq(self.schemas[i].curi.as_str(), uri) {
                return Some(i);
            }
            i = i + 1;
        }
        None
    }

    /// As `fetch`, failing with `NotFound` where no schema has the canonical URI `uri`.
    pub fn must_fetch(&self, uri: &str) -> (r: Result<usize, IndexError>)
        ensures
            match r {
                Ok(i) => i < self@.len() && self@[i as int].curi@ == uri@,
                Err(IndexError::NotFound(u)) => u@ == uri@ && !has_curi(self@, uri@),
                Err(_) => false,
            },
    {
        match self.fetch(uri) {
            Some(i) => Ok(i),
            None => Err(IndexError::NotFound(uri.to_string())),
        }
    }
}

} // verus!
