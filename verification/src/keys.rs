//! Keys of regions and the keys under which their data are stored.
//!
//! An engine holds the data of all regions side by side with its own records.
//! A key of a region is stored under its _data key_: the key behind one byte
//! that marks data.
use vstd::prelude::*;
use vstd::slice::slice_subrange;

verus! {

/// The byte in front of every data key.
pub const DATA_PREFIX: u8 = 0x7a;

/// The byte that alone is an upper bound of all data keys.
pub const DATA_MAX: u8 = 0x7b;

/// A range of keys, and the replicas that hold it.
pub struct Region {
    /// The number by which the region is known.
    pub id: u64,
    /// The least key that belongs to the region.
    pub start_key: Vec<u8>,
    /// The least key beyond the region; empty where the region has no end.
    pub end_key: Vec<u8>,
    /// The ids of the peers. A region without any is not initialized yet.
    pub peers: Vec<u64>,
}

impl Region {
    /// Only an initialized region has data.
    pub open spec fn is_initialized(&self) -> bool {
        self.peers@.len() > 0
    }

    /// The keys that belong to the region.
    pub open spec fn contains_key(&self, key: Seq<u8>) -> bool {
        crate::order::in_range(key, self.start_key@, self.end_key@)
    }
}

/// The data key of `key`.
pub open spec fn data_key_of(key: Seq<u8>) -> Seq<u8> {
    seq![DATA_PREFIX] + key
}

/// The data key that bounds the data of a region with this end key.
pub open spec fn data_end_key_of(end_key: Seq<u8>) -> Seq<u8> {
    if end_key.len() == 0 {
        seq![DATA_MAX]
    } else {
        data_key_of(end_key)
    }
}

/// `key` is some key's data key.
pub open spec fn is_data_key(key: Seq<u8>) -> bool {
    key.len() > 0 && key[0] == DATA_PREFIX
}

/// The key whose data key `key` is.
pub open spec fn origin_key_of(key: Seq<u8>) -> Seq<u8>
    recommends
        is_data_key(key),
{
    key.skip(1)
}

/// Tells data keys from the engine's other records.
pub fn validate_data_key(key: &[u8]) -> (valid: bool)
    ensures
        valid == is_data_key(key@),
{
    key.len() > 0 && key[0] == DATA_PREFIX
}

/// Puts the data mark in front of a key.
pub fn data_key(key: &[u8]) -> (data: Vec<u8>)
    ensures
        data@ == data_key_of(key@),
{
    let mut data: Vec<u8> = Vec::new();
    data.push(DATA_PREFIX);
    data.extend_from_slice(key);
    assert(data@ =~= data_key_of(key@));
    data
}

/// Takes the data mark off a data key.
pub fn origin_key(key: &[u8]) -> (origin: &[u8])
    requires
        is_data_key(key@),
    ensures
        origin@ == origin_key_of(key@),
{
    slice_subrange(key, 1, key.len())
}

/// The bound of a region's data: its end key's data key, or the bound of all
/// data where the region has no end.
pub fn data_end_key(region_end_key: &[u8]) -> (data: Vec<u8>)
    ensures
        data@ == data_end_key_of(region_end_key@),
{
    if region_end_key.len() == 0 {
        let mut data: Vec<u8> = Vec::new();
        data.push(DATA_MAX);
        assert(data@ =~= data_end_key_of(region_end_key@));
        data
    } else {
        data_key(region_end_key)
    }
}

/// Where the data of an initialized region start.
pub fn enc_start_key(region: &Region) -> (key: Vec<u8>)
    requires
        region.is_initialized(),
    ensures
        key@ == data_key_of(region.start_key@),
{
    data_key(region.start_key.as_slice())
}

/// Where the data of an initialized region end.
pub fn enc_end_key(region: &Region) -> (key: Vec<u8>)
    requires
        region.is_initialized(),
    ensures
        key@ == data_end_key_of(region.end_key@),
{
    data_end_key(region.end_key.as_slice())
}

/// What is taken off a data key is what was put behind the mark.
pub proof fn law_origin_key_undoes_data_key(key: Seq<u8>)
    ensures
        is_data_key(data_key_of(key)),
        origin_key_of(data_key_of(key)) == key,
{
    assert(origin_key_of(data_key_of(key)) =~= key);
}

/// A data key is the data key of its origin key.
pub proof fn law_data_key_undoes_origin_key(key: Seq<u8>)
    requires
        is_data_key(key),
    ensures
        data_key_of(origin_key_of(key)) == key,
{
    assert(data_key_of(origin_key_of(key)) =~= key);
}

/// A data key is one byte and the key behind it: what is appended to a key is
/// appended to its data key.
pub proof fn law_data_key_appends(key: Seq<u8>, more: Seq<u8>)
    ensures
        data_key_of(Seq::empty()) == seq![0x7au8],
        data_key_of(key + more) == data_key_of(key) + more,
{
    assert(data_key_of(Seq::empty()) =~= seq![0x7au8]);
    assert(data_key_of(key + more) =~= data_key_of(key) + more);
}

/// The keys that are told to be data keys are the data keys of keys, and no
/// others: those that start with the mark.
pub proof fn law_data_keys_are_recognized(key: Seq<u8>)
    ensures
        is_data_key(key) <==> exists|origin: Seq<u8>| key == #[trigger] data_key_of(origin),
        is_data_key(key) <==> key.len() > 0 && key[0] == 0x7a,
{
    if is_data_key(key) {
        law_data_key_undoes_origin_key(key);
    }
}

/// A region is initialized once it has a peer. Its keys are those from its
/// start key on, and before its end key, if it has one.
pub proof fn law_region(region: &Region, key: Seq<u8>)
    ensures
        region.is_initialized() <==> region.peers@.len() != 0,
        region.contains_key(key) <==> crate::order::key_le(region.start_key@, key) && (
        region.end_key@.len() == 0 || crate::order::key_lt(key, region.end_key@)),
{
}

} // verus!
