//! The immutable index of a sealed segment.
//!
//! A sealed segment serializes its page index as a finite-state-transducer
//! map (the `fst` crate): keys are page numbers as big-endian 32-bit byte
//! strings, values pack `(frame_no_delta, offset)`.  The fst calls stand
//! behind the trusted items of this module; everything above them is
//! verified against their contracts.

use vstd::prelude::*;

use crate::error::WalError;

verus! {

/// `fst::Map`: an immutable map from byte-string keys to `u64` values,
/// backed by its serialized form.
#[verifier::external_type_specification]
#[verifier::external_body]
#[verifier::reject_recursive_types(D)]
pub struct ExFstMap<D>(fst::Map<D>);

/// `fst::MapBuilder`: streams lexicographically ascending insertions into
/// the serialized form of an `fst::Map`.
#[verifier::external_type_specification]
#[verifier::external_body]
#[verifier::reject_recursive_types(W)]
pub struct ExFstMapBuilder<W>(fst::MapBuilder<W>);

/// The `(page_no, value)` pairs inserted into a builder so far, in
/// insertion order.
pub uninterp spec fn builder_entries(b: fst::MapBuilder<Vec<u8>>) -> Seq<(u32, u64)>;

/// The contents of an fst map, keyed by the page number whose big-endian
/// bytes form the fst key.
pub uninterp spec fn fst_contents(m: fst::Map<Vec<u8>>) -> Map<u32, u64>;

/// The serialized form of an fst map.
pub uninterp spec fn fst_map_bytes(m: fst::Map<Vec<u8>>) -> Seq<u8>;

/// The size of the serialized form an in-memory builder produces from the
/// given insertions; a function of the inserted pairs alone.
pub uninterp spec fn fst_encoded_len(entries: Seq<(u32, u64)>) -> nat;

/// The map described by a sequence of `(page_no, value)` pairs, newest
/// pair winning.
pub open spec fn pairs_as_map(entries: Seq<(u32, u64)>) -> Map<u32, u64>
    decreases entries.len(),
{
    if entries.len() == 0 {
        Map::empty()
    } else {
        pairs_as_map(entries.drop_last()).insert(entries.last().0, entries.last().1)
    }
}

/// Relies on `fst::MapBuilder::memory`: a fresh in-memory builder holds
/// nothing.
#[verifier::external_body]
pub fn builder_new() -> (b: fst::MapBuilder<Vec<u8>>)
    ensures
        builder_entries(b) == Seq::<(u32, u64)>::empty(),
{
    fst::MapBuilder::memory()
}

/// Relies on `fst::MapBuilder::insert`: inserting a key greater than every
/// key inserted before succeeds and records the pair, and writing to the
/// in-memory `Vec<u8>` writer cannot fail.  Page numbers are inserted as
/// their big-endian bytes, whose lexicographic order is the numeric order.
#[verifier::external_body]
pub fn builder_insert(b: &mut fst::MapBuilder<Vec<u8>>, page_no: u32, value: u64) -> (r: Result<
    (),
    WalError,
>)
    requires
        forall|i: int|
            0 <= i < builder_entries(*old(b)).len() ==> (#[trigger] builder_entries(
                *old(b),
            )[i]).0 < page_no,
    ensures
        r is Ok,
        builder_entries(*final(b)) == builder_entries(*old(b)).push((page_no, value)),
{
    match b.insert(page_no.to_be_bytes(), value) {
        Ok(()) => Ok(()),
        Err(_) => Err(WalError::Io),
    }
}

/// Relies on `fst::MapBuilder::into_map`: finishing an in-memory builder
/// yields the map holding exactly the inserted pairs, serialized in the
/// form that `fst::Map::new` reads back.
#[verifier::external_body]
pub fn builder_into_map(b: fst::MapBuilder<Vec<u8>>) -> (m: fst::Map<Vec<u8>>)
    ensures
        fst_contents(m) == pairs_as_map(builder_entries(b)),
        fst_contents(m).dom().finite(),
        fst_map_bytes(m).len() == fst_encoded_len(builder_entries(b)),
{
    b.into_map()
}

/// Relies on `fst::Map::get`: returns the value recorded for the key, or
/// `None` when the key is absent.
#[verifier::external_body]
pub fn map_get(m: &fst::Map<Vec<u8>>, page_no: u32) -> (r: Option<u64>)
    ensures
        r == if fst_contents(*m).dom().contains(page_no) {
            Some(fst_contents(*m)[page_no])
        } else {
            None::<u64>
        },
{
    m.get(page_no.to_be_bytes())
}

/// Relies on `fst::Map::as_fst` and `fst::raw::Fst::as_bytes`: the
/// serialized form of the map.
#[verifier::external_body]
pub fn map_bytes(m: &fst::Map<Vec<u8>>) -> (r: Vec<u8>)
    ensures
        r@ == fst_map_bytes(*m),
{
    m.as_fst().as_bytes().to_vec()
}

/// The map described by strictly ascending pairs holds exactly their keys.
pub proof fn lemma_pairs_as_map_sorted(entries: Seq<(u32, u64)>)
    requires
        crate::index::spec_keys_sorted(entries),
    ensures
        pairs_as_map(entries).dom().finite(),
        pairs_as_map(entries).dom().len() == entries.len(),
        forall|j: int|
            0 <= j < entries.len() ==> pairs_as_map(entries).dom().contains(
                (#[trigger] entries[j]).0,
            ) && pairs_as_map(entries)[entries[j].0] == entries[j].1,
        forall|p: u32|
            pairs_as_map(entries).dom().contains(p) ==> exists|j: int|
                0 <= j < entries.len() && (#[trigger] entries[j]).0 == p,
    decreases entries.len(),
{
    if entries.len() > 0 {
        let prefix = entries.drop_last();
        assert(crate::index::spec_keys_sorted(prefix));
        lemma_pairs_as_map_sorted(prefix);
        let m0 = pairs_as_map(prefix);
        let k = entries.last().0;
        if m0.dom().contains(k) {
            let j = choose|j: int| 0 <= j < prefix.len() && (#[trigger] prefix[j]).0 == k;
            assert(entries[j].0 < entries[entries.len() - 1].0);
            assert(false);
        }
        vstd::set::axiom_set_insert_len(m0.dom(), k);
        assert forall|j: int| 0 <= j < entries.len() implies pairs_as_map(entries).dom().contains(
            (#[trigger] entries[j]).0,
        ) && pairs_as_map(entries)[entries[j].0] == entries[j].1 by {
            if j < entries.len() - 1 {
                assert(prefix[j] == entries[j]);
                assert(entries[j].0 < entries[entries.len() - 1].0);
            }
        }
    }
}

} // verus!
