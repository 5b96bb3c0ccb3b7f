//! Trusted interface to the string-interner crate, which backs the
//! identifier interner: it deduplicates identifier text into small
//! comparable handles, the same handle for the same text.
//!
//! The interner is instantiated with `usize` symbols, whose symbol space
//! cannot be exhausted, and with the standard library's hasher.

use vstd::prelude::*;

verus! {

/// The identifier interner, holding the outside interner whole: its type
/// cannot be declared to Verus piecewise, since its generics carry an
/// outside trait bound, so the struct is opaque and everything known of it
/// is said by the wrappers below.
///
/// The interner is a string backend with `usize` symbols and the standard
/// library's hasher.
#[verifier::external_body]
pub struct IdentInterner {
    inner: string_interner::StringInterner<
        string_interner::backend::StringBackend<usize>,
        std::collections::hash_map::RandomState,
    >,
}

/// What the interner holds: each interned text, mapped to its handle.
pub uninterp spec fn interned_of(it: IdentInterner) -> Map<Seq<char>, usize>;

/// How many texts the interner holds; the next fresh handle.
pub uninterp spec fn interner_len(it: IdentInterner) -> nat;

/// Whether the interner map holds nothing.
pub open spec fn interner_empty(m: Map<Seq<char>, usize>) -> bool {
    m == Map::<Seq<char>, usize>::empty()
}

/// Relies on StringInterner::new (string-interner): a new interner holds
/// nothing.
#[verifier::external_body]
pub fn interner_new() -> (r: IdentInterner)
    ensures
        interner_empty(interned_of(r)),
        interner_len(r) == 0,
{
    IdentInterner { inner: string_interner::StringInterner::new() }
}

/// Relies on StringInterner::get_or_intern (string-interner): the same text
/// always yields the same symbol; a fresh text is assigned the next symbol,
/// which for the string backend is the number of texts interned so far.
/// That count is the length of a vector the backend keeps, so it is always
/// below the address space's size.
#[verifier::external_body]
pub fn intern_text(it: &mut IdentInterner, s: &str) -> (r: usize)
    ensures
        interned_of(*old(it)).dom().contains(s@) ==> {
            &&& r == interned_of(*old(it))[s@]
            &&& interned_of(*final(it)) == interned_of(*old(it))
            &&& interner_len(*final(it)) == interner_len(*old(it))
        },
        interner_len(*old(it)) < usize::MAX,
        !interned_of(*old(it)).dom().contains(s@) ==> {
            &&& r == interner_len(*old(it))
            &&& interned_of(*final(it)) == interned_of(*old(it)).insert(s@, r)
            &&& interner_len(*final(it)) == interner_len(*old(it)) + 1
        },
{
    it.inner.get_or_intern(s)
}

/// Relies on StringInterner::get (string-interner): the symbol for a text
/// that has been interned, and nothing for one that has not.
#[verifier::external_body]
pub fn intern_get(it: &IdentInterner, s: &str) -> (r: Option<usize>)
    ensures
        match r {
            Some(u) => interned_of(*it).dom().contains(s@) && u == interned_of(*it)[s@],
            None => !interned_of(*it).dom().contains(s@),
        },
{
    it.inner.get(s)
}

} // verus!
