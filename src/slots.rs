//! The key store of the stable backend: a `slotmap::DenseSlotMap` from
//! generation-tagged keys to dense positions. A key is handed around as the
//! `u64` that `KeyData::as_ffi` gives, whose upper half holds the slot's
//! version; a live key's version is odd.
use vstd::prelude::*;
use slotmap::{DefaultKey, DenseSlotMap, Key, KeyData};

verus! {

/// A key store. The slot map sits in a field that Verus does not read; the
/// functions below are the only ways in.
#[verifier::external_body]
pub struct KeySlots {
    map: DenseSlotMap<DefaultKey, usize>,
}

/// The bit that marks a key's version as odd, that is, in use.
pub const LIVE_BIT: u64 = 0x1_0000_0000;

/// What a key store holds: each live key, as its `u64` form, with the
/// position stored under it.
pub uninterp spec fn slot_contents(m: KeySlots) -> Map<u64, usize>;

/// Relies on `DenseSlotMap::with_capacity`: a new map holds nothing. Its
/// vectors allocate room for up to `cap + 1` entries of 8 bytes, which
/// `requires` keeps within the `isize::MAX` bytes that `Vec` accepts.
#[verifier::external_body]
pub(crate) fn slots_with_capacity(cap: usize) -> (r: KeySlots)
    requires
        cap < 0x0fff_ffff_ffff_ffff,
    ensures
        slot_contents(r).dom() =~= Set::<u64>::empty(),
{
    KeySlots { map: DenseSlotMap::with_capacity(cap) }
}

/// Relies on `DenseSlotMap::insert`: the value is stored under a key that
/// no live entry holds, whose version is odd. It panics only when every slot
/// is taken and there are `u32::MAX` slots, which `requires` rules out.
#[verifier::external_body]
pub(crate) fn slots_insert(m: &mut KeySlots, value: usize) -> (r: u64)
    requires
        slot_contents(*old(m)).len() + 2 < u32::MAX,
    ensures
        !slot_contents(*old(m)).contains_key(r),
        slot_contents(*final(m)) == slot_contents(*old(m)).insert(r, value),
        r | LIVE_BIT == r,
{
    m.map.insert(value).data().as_ffi()
}

/// Relies on `DenseSlotMap::remove`: the entry under the key goes, if there
/// is one, and its value comes back. `KeyData::from_ffi` rebuilds the key
/// exactly from a `u64` whose version is odd.
#[verifier::external_body]
pub(crate) fn slots_remove(m: &mut KeySlots, bits: u64) -> (r: Option<usize>)
    requires
        bits | LIVE_BIT == bits,
    ensures
        slot_contents(*old(m)).contains_key(bits) ==> r == Some(slot_contents(*old(m))[bits])
            && slot_contents(*final(m)) == slot_contents(*old(m)).remove(bits),
        !slot_contents(*old(m)).contains_key(bits) ==> r.is_none() && slot_contents(*final(m))
            == slot_contents(*old(m)),
{
    m.map.remove(DefaultKey::from(KeyData::from_ffi(bits)))
}

/// Relies on `DenseSlotMap::get`: the value under the key, if there is one.
#[verifier::external_body]
pub(crate) fn slots_get(m: &KeySlots, bits: u64) -> (r: Option<usize>)
    requires
        bits | LIVE_BIT == bits,
    ensures
        slot_contents(*m).contains_key(bits) ==> r == Some(slot_contents(*m)[bits]),
        !slot_contents(*m).contains_key(bits) ==> r.is_none(),
{
    m.map.get(DefaultKey::from(KeyData::from_ffi(bits))).copied()
}

/// Relies on `DenseSlotMap`'s `IndexMut`: overwrites the value under a
/// live key (it panics on any other key, which `requires` rules out).
#[verifier::external_body]
pub(crate) fn slots_set(m: &mut KeySlots, bits: u64, value: usize)
    requires
        bits | LIVE_BIT == bits,
        slot_contents(*old(m)).contains_key(bits),
    ensures
        slot_contents(*final(m)) == slot_contents(*old(m)).insert(bits, value),
{
    m.map[DefaultKey::from(KeyData::from_ffi(bits))] = value;
}

} // verus!
