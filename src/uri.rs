use vstd::prelude::*;

verus! {

/// The serialization of `reference` resolved against the absolute URL `base`, or
/// `None` where `base` is no absolute URL or the reference cannot be resolved.
pub uninterp spec fn url_join(base: Seq<char>, reference: Seq<char>) -> Option<Seq<char>>;

/// Resolves `reference` against `base`.
///
/// Relies on url::Url::join, with url::Url::parse reading `base` into a URL first:
/// the serialized result depends on the two texts alone.
#[verifier::external_body]
pub fn join(base: &str, reference: &str) -> (r: Option<String>)
    ensures
        match r {
            Some(s) => url_join(base@, reference@) == Some(s@),
            None => url_join(base@, reference@).is_none(),
        },
{
    match url::Url::parse(base) {
        Ok(b) => match b.join(reference) {
            Ok(u) => Some(String::from(u)),
            Err(_) => None,
        },
        Err(_) => None,
    }
}

/// `uri` without an empty fragment: a trailing `#` that begins the fragment is dropped.
pub open spec fn without_empty_fragment(uri: Seq<char>) -> Seq<char> {
    if uri.len() > 0 && uri.last() == '#' && !uri.drop_last().contains('#') {
        uri.drop_last()
    } else {
        uri
    }
}

/// Drops an empty fragment from `uri`, so that it is found in an index of canonical URIs.
pub fn strip_empty_fragment(uri: &str) -> (r: String)
    ensures
        r@ == without_empty_fragment(uri@),
{
    let n = uri.unicode_len();
    if n == 0 || uri.get_char(n - 1) != '#' {
        return uri.to_string();
    }
    let mut i: usize = 0;
    while i < n - 1
        invariant
            n == uri@.len(),
            n > 0,
            i <= n - 1,
            forall|j: int| 0 <= j < i ==> uri@[j] != '#',
        decreases n - 1 - i,
    {
        if uri.get_char(i) == '#' {
            assert(uri@.drop_last()[i as int] == '#');
            return uri.to_string();
        }
        i = i + 1;
    }
    assert(!uri@.drop_last().contains('#'));
    uri.substring_char(0, n - 1).to_string()
}

} // verus!
