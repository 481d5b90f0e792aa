//! Header lists: ordered `(name, value)` pairs, kept as they were received.
//!
//! Names keep their case and duplicates are kept. There are two lookups over
//! the same list: one that compares names exactly, and one that ignores the
//! case of ASCII letters. Both return the value of the first match.

use vstd::prelude::*;
use crate::text::{is_text, same_ignoring_ascii_case, same_ignoring_case, text};

verus! {

/// The view of a header list: each name and value by its bytes.
pub open spec fn header_views(headers: Seq<(Vec<u8>, Vec<u8>)>) -> Seq<(Seq<u8>, Seq<u8>)> {
    Seq::new(headers.len(), |i: int| (headers[i].0@, headers[i].1@))
}

/// The value of the first header at or after index `from` whose name is
/// exactly `name`.
pub open spec fn lookup_from(headers: Seq<(Seq<u8>, Seq<u8>)>, name: Seq<u8>, from: int) -> Option<
    Seq<u8>,
>
    decreases headers.len() - from,
{
    if from < 0 || from >= headers.len() {
        None
    } else if headers[from].0 == name {
        Some(headers[from].1)
    } else {
        lookup_from(headers, name, from + 1)
    }
}

/// The value of the first header whose name is exactly `name`.
pub open spec fn lookup(headers: Seq<(Seq<u8>, Seq<u8>)>, name: Seq<u8>) -> Option<Seq<u8>> {
    lookup_from(headers, name, 0)
}

/// The value of the first header at or after index `from` whose name is `name`
/// up to the case of ASCII letters.
pub open spec fn lookup_ignoring_case_from(
    headers: Seq<(Seq<u8>, Seq<u8>)>,
    name: Seq<u8>,
    from: int,
) -> Option<Seq<u8>>
    decreases headers.len() - from,
{
    if from < 0 || from >= headers.len() {
        None
    } else if same_ignoring_case(headers[from].0, name) {
        Some(headers[from].1)
    } else {
        lookup_ignoring_case_from(headers, name, from + 1)
    }
}

/// The value of the first header whose name is `name` up to the case of ASCII
/// letters.
pub open spec fn lookup_ignoring_case(headers: Seq<(Seq<u8>, Seq<u8>)>, name: Seq<u8>) -> Option<
    Seq<u8>,
> {
    lookup_ignoring_case_from(headers, name, 0)
}

/// A list with one more header at its end views as the old view with that
/// header's view at its end.
pub proof fn lemma_header_views_push(headers: Seq<(Vec<u8>, Vec<u8>)>, h: (Vec<u8>, Vec<u8>))
    ensures
        header_views(headers.push(h)) == header_views(headers).push((h.0@, h.1@)),
{
    assert(header_views(headers.push(h)) =~= header_views(headers).push((h.0@, h.1@)));
}

/// Finds the value of the first header named exactly `name`.
pub fn find_header<'a>(headers: &'a [(Vec<u8>, Vec<u8>)], name: &str) -> (r: Option<&'a Vec<u8>>)
    ensures
        match r {
            Some(v) => lookup(header_views(headers@), text(name)) == Some(v@),
            None => lookup(header_views(headers@), text(name)) is None,
        },
{
    let mut i: usize = 0;
    while i < headers.len()
        invariant
            i <= headers.len(),
            lookup(header_views(headers@), text(name)) == lookup_from(
                header_views(headers@),
                text(name),
                i as int,
            ),
        decreases headers.len() - i,
    {
        if is_text(headers[i].0.as_slice(), name) {
            return Some(&headers[i].1);
        }
        i += 1;
    }
    None
}

/// Finds the value of the first header named `name`, whatever the case of its
/// letters.
pub fn find_header_ignoring_case<'a>(headers: &'a [(Vec<u8>, Vec<u8>)], name: &str) -> (r: Option<
    &'a Vec<u8>,
>)
    ensures
        match r {
            Some(v) => lookup_ignoring_case(header_views(headers@), text(name)) == Some(v@),
            None => lookup_ignoring_case(header_views(headers@), text(name)) is None,
        },
{
    let mut i: usize = 0;
    while i < headers.len()
        invariant
            i <= headers.len(),
            lookup_ignoring_case(header_views(headers@), text(name)) == lookup_ignoring_case_from(
                header_views(headers@),
                text(name),
                i as int,
            ),
        decreases headers.len() - i,
    {
        if same_ignoring_ascii_case(headers[i].0.as_slice(), name.as_bytes()) {
            return Some(&headers[i].1);
        }
        i += 1;
    }
    None
}

/// Looking a name up in the second of two joined lists, past the first one,
/// is looking it up in the second list alone.
pub proof fn lemma_lookup_from_second(
    first: Seq<(Seq<u8>, Seq<u8>)>,
    second: Seq<(Seq<u8>, Seq<u8>)>,
    name: Seq<u8>,
    from: int,
)
    requires
        0 <= from <= second.len(),
    ensures
        lookup_from(first + second, name, first.len() + from) == lookup_from(second, name, from),
    decreases second.len() - from,
{
    if from < second.len() {
        assert((first + second)[first.len() + from] == second[from]);
        lemma_lookup_from_second(first, second, name, from + 1);
    }
}

/// Looking a name up in two joined lists finds it in the first list, or else
/// in the second.
pub proof fn lemma_lookup_from_joined(
    first: Seq<(Seq<u8>, Seq<u8>)>,
    second: Seq<(Seq<u8>, Seq<u8>)>,
    name: Seq<u8>,
    from: int,
)
    requires
        0 <= from <= first.len(),
    ensures
        lookup_from(first + second, name, from) == match lookup_from(first, name, from) {
            Some(value) => Some(value),
            None => lookup(second, name),
        },
    decreases first.len() - from,
{
    if from < first.len() {
        assert((first + second)[from] == first[from]);
        lemma_lookup_from_joined(first, second, name, from + 1);
    } else {
        lemma_lookup_from_second(first, second, name, 0);
    }
}

} // verus!
