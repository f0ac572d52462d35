//! The split check for tables.
//!
//! A region that holds keys of more than one table is split where a table
//! begins. Before its keys are walked, the first and the last of them are
//! looked up: often they alone show that no split is needed, or where it has
//! to be. Otherwise the keys are fed one by one until a split key is found.
use vstd::pervasive::unreached;
use vstd::prelude::*;
use vstd::slice::{slice_subrange, slice_to_vec};

use crate::codec::{TABLE_PREFIX, TABLE_PREFIX_KEY_LEN, TABLE_PREFIX_LEN};
use crate::keys::{
    data_end_key_of, data_key, data_key_of, enc_end_key, enc_start_key, is_data_key, origin_key,
    origin_key_of, validate_data_key, Region,
};

verus! {

/// The length of the part of an encoded table key that tells which table it
/// belongs to. The encoding puts one byte of its own between the bytes of the
/// table id; what it appends behind them is left out.
pub const ENCODED_TABLE_TABLE_PREFIX: usize = TABLE_PREFIX_KEY_LEN + 1;

/// What a check of one region has found out so far.
#[derive(Debug)]
pub struct TableStatus {
    first_encoded_table_prefix: Option<Vec<u8>>,
    last_encoded_table_prefix: Option<Vec<u8>>,
}

/// A [`TableStatus`] as a value.
#[verifier::ext_equal]
pub struct TableStatusView {
    /// The table that the region is known to start in.
    pub first: Option<Seq<u8>>,
    /// The table that the region is to be split at.
    pub last: Option<Seq<u8>>,
}

/// The bytes of an optional key.
pub open spec fn optional_key(key: Option<Vec<u8>>) -> Option<Seq<u8>> {
    match key {
        Some(k) => Some(k@),
        None => None,
    }
}

impl View for TableStatus {
    type V = TableStatusView;

    closed spec fn view(&self) -> TableStatusView {
        TableStatusView {
            first: optional_key(self.first_encoded_table_prefix),
            last: optional_key(self.last_encoded_table_prefix),
        }
    }
}

impl TableStatusView {
    /// Nothing is known.
    pub open spec fn unknown() -> TableStatusView {
        TableStatusView { first: None, last: None }
    }
}

impl Default for TableStatus {
    fn default() -> (status: TableStatus)
        ensures
            status@ == TableStatusView::unknown(),
    {
        TableStatus { first_encoded_table_prefix: None, last_encoded_table_prefix: None }
    }
}

/// The part of an encoded key that names its table, if it is a table's key.
pub open spec fn table_prefix_of(key: Seq<u8>) -> Option<Seq<u8>> {
    if key.len() >= ENCODED_TABLE_TABLE_PREFIX && key[0] == TABLE_PREFIX {
        Some(key.take(ENCODED_TABLE_TABLE_PREFIX as int))
    } else {
        None
    }
}

/// Both keys belong to the same table.
pub open spec fn same_table(left: Seq<u8>, right: Seq<u8>) -> bool {
    table_prefix_of(left) is Some && table_prefix_of(left) == table_prefix_of(right)
}

/// Extracts the part of an encoded key that names its table. `None` where the
/// key does not start as a table's key does, or is too short to name a table.
pub fn extract_encoded_table_prefix(encode_key: &[u8]) -> (prefix: Option<&[u8]>)
    ensures
        prefix is Some <==> table_prefix_of(encode_key@) is Some,
        prefix matches Some(p) ==> table_prefix_of(encode_key@) == Some(p@),
{
    if encode_key.len() >= ENCODED_TABLE_TABLE_PREFIX && encode_key[0] == TABLE_PREFIX {
        Some(slice_subrange(encode_key, 0, ENCODED_TABLE_TABLE_PREFIX))
    } else {
        None
    }
}

/// Compares two keys byte by byte.
fn same_bytes(left: &[u8], right: &[u8]) -> (same: bool)
    ensures
        same == (left@ == right@),
{
    if left.len() != right.len() {
        return false;
    }
    let mut i: usize = 0;
    while i < left.len()
        invariant
            i <= left@.len(),
            left@.len() == right@.len(),
            forall|j: int| 0 <= j < i ==> left@[j] == right@[j],
        decreases left@.len() - i,
    {
        if left[i] != right[i] {
            return false;
        }
        i += 1;
    }
    assert(left@ =~= right@);
    true
}

/// Tells whether two encoded keys belong to the same table.
pub fn is_same_table(left_key: &[u8], right_key: &[u8]) -> (same: bool)
    ensures
        same == same_table(left_key@, right_key@),
{
    if left_key.len() >= ENCODED_TABLE_TABLE_PREFIX && left_key[0] == TABLE_PREFIX
        && right_key.len() >= ENCODED_TABLE_TABLE_PREFIX {
        let left = slice_subrange(left_key, 0, ENCODED_TABLE_TABLE_PREFIX);
        let right = slice_subrange(right_key, 0, ENCODED_TABLE_TABLE_PREFIX);
        assert(left@[0] == left_key@[0] && right@[0] == right_key@[0]);
        same_bytes(left, right)
    } else {
        false
    }
}

/// Where a key lies, seen from the keys of tables.
pub enum Area {
    /// Before every key of a table.
    Before,
    /// Among the keys of tables.
    Tables,
    /// Behind every key of a table.
    After,
}

/// The area that a key lies in.
pub open spec fn area_of(key: Seq<u8>) -> Area
    recommends
        key.len() >= TABLE_PREFIX_LEN,
{
    if key[0] < TABLE_PREFIX {
        Area::Before
    } else if key[0] == TABLE_PREFIX {
        Area::Tables
    } else {
        Area::After
    }
}

/// Finds the area that a key lies in.
fn area(key: &[u8]) -> (area: Area)
    requires
        key@.len() >= TABLE_PREFIX_LEN,
    ensures
        area == area_of(key@),
{
    if key[0] < TABLE_PREFIX {
        Area::Before
    } else if key[0] == TABLE_PREFIX {
        Area::Tables
    } else {
        Area::After
    }
}

/// Why the bounds of a region's data could not be told.
#[derive(Debug, PartialEq, Eq)]
pub enum Error {
    /// The engine failed, and said so.
    Engine(String),
    /// The engine found a first key and no last key, or the other way round.
    InvalidBound {
        /// The first key that the engine found.
        first_key: Option<Vec<u8>>,
        /// The last key that the engine found.
        last_key: Option<Vec<u8>>,
    },
}

/// The first and the last data key of a region, or `None` where it has no data.
pub type Bounds = Result<Option<(Vec<u8>, Vec<u8>)>, Error>;

/// The range of data keys that is read for a region, unless it is inside a
/// table.
pub open spec fn range_of(region: &Region) -> Option<(Seq<u8>, Seq<u8>)> {
    if same_table(region.start_key@, region.end_key@) {
        None
    } else {
        Some((data_key_of(region.start_key@), data_end_key_of(region.end_key@)))
    }
}

/// The keys of an optional range.
pub open spec fn optional_range(range: Option<(Vec<u8>, Vec<u8>)>) -> Option<(Seq<u8>, Seq<u8>)> {
    match range {
        Some((start, end)) => Some((start@, end@)),
        None => None,
    }
}

/// The range of data keys in which the first and the last key of a region are
/// looked up. `None` where the region is known to lie inside a table, which
/// saves the reading.
pub fn scan_range(region: &Region) -> (range: Option<(Vec<u8>, Vec<u8>)>)
    requires
        same_table(region.start_key@, region.end_key@) || region.is_initialized(),
    ensures
        range is None <==> same_table(region.start_key@, region.end_key@),
        range matches Some((start, end)) ==> {
            &&& start@ == data_key_of(region.start_key@)
            &&& end@ == data_end_key_of(region.end_key@)
        },
        optional_range(range) == range_of(region),
{
    if is_same_table(region.start_key.as_slice(), region.end_key.as_slice()) {
        None
    } else {
        Some((enc_start_key(region), enc_end_key(region)))
    }
}

/// What a first and a last key, each found or not, are together.
pub open spec fn joined(first_key: Option<Vec<u8>>, last_key: Option<Vec<u8>>) -> Bounds {
    if first_key is Some && last_key is Some {
        Ok(Some((first_key->0, last_key->0)))
    } else if first_key is Some || last_key is Some {
        Err(Error::InvalidBound { first_key, last_key })
    } else {
        Ok(None)
    }
}

/// Puts together what the engine found: `first_key` is the least key of the
/// scan range, `last_key` the greatest key before the end of the range.
///
/// Where only one of them was found, the bounds are invalid. That happens where
/// the range is empty and some key stands in front of it.
pub fn bound_keys(first_key: Option<Vec<u8>>, last_key: Option<Vec<u8>>) -> (bounds: Bounds)
    ensures
        bounds == (match (first_key, last_key) {
            (Some(first), Some(last)) => Ok::<_, Error>(Some((first, last))),
            (None, None) => Ok(None),
            _ => Err(Error::InvalidBound { first_key, last_key }),
        }),
        bounds == joined(first_key, last_key),
{
    match (first_key, last_key) {
        (Some(first), Some(last)) => Ok(Some((first, last))),
        (None, None) => Ok(None),
        (first_key, last_key) => Err(Error::InvalidBound { first_key, last_key }),
    }
}

/// Both bounds are data keys.
pub open spec fn are_data_keys(start_key: Seq<u8>, end_key: Seq<u8>) -> bool {
    is_data_key(start_key) && is_data_key(end_key)
}

/// Both bounds are data keys, and their origin keys are long enough to hold a
/// table id.
pub open spec fn are_long_data_keys(start_key: Seq<u8>, end_key: Seq<u8>) -> bool {
    &&& are_data_keys(start_key, end_key)
    &&& origin_key_of(start_key).len() >= TABLE_PREFIX_KEY_LEN
    &&& origin_key_of(end_key).len() >= TABLE_PREFIX_KEY_LEN
}

/// The first key of a region does not lie in a later area than its last key.
pub open spec fn are_in_order(start_key: Seq<u8>, end_key: Seq<u8>) -> bool {
    are_long_data_keys(start_key, end_key) ==> match (
        area_of(origin_key_of(start_key)),
        area_of(origin_key_of(end_key)),
    ) {
        (Area::Tables, Area::Before) => false,
        (Area::After, Area::Before) => false,
        (Area::After, Area::Tables) => false,
        _ => true,
    }
}

/// The first and last key alone show that a table does not begin between them.
pub open spec fn no_table_begins_between(first: Seq<u8>, last: Seq<u8>) -> bool {
    ||| area_of(first) is Before && area_of(last) is Before
    ||| area_of(first) is After && area_of(last) is After
    ||| same_table(first, last)
}

/// The first and the last key that were found. Why there are none makes no
/// difference to the check.
pub open spec fn found_keys(bounds: Bounds) -> Option<(Seq<u8>, Seq<u8>)> {
    match bounds {
        Ok(Some((start_key, end_key))) => Some((start_key@, end_key@)),
        _ => None,
    }
}

/// The check of a region is skipped.
pub open spec fn is_skipped(region: &Region, found: Option<(Seq<u8>, Seq<u8>)>) -> bool {
    ||| same_table(region.start_key@, region.end_key@)
    ||| match found {
        Some((start_key, end_key)) => {
            ||| !are_data_keys(start_key, end_key)
            ||| {
                &&& are_long_data_keys(start_key, end_key)
                &&& no_table_begins_between(origin_key_of(start_key), origin_key_of(end_key))
            }
        },
        None => true,
    }
}

/// What the first and last key of a region that is not skipped add to what is
/// known. If the last key lies among the tables, the region is split at its
/// table. If only the first one does, the region starts in its table.
pub open spec fn learned(
    known: TableStatusView,
    found: Option<(Seq<u8>, Seq<u8>)>,
) -> TableStatusView {
    match found {
        Some((start_key, end_key)) if are_long_data_keys(start_key, end_key) => {
            let first = origin_key_of(start_key);
            let last = origin_key_of(end_key);
            if area_of(last) is Tables {
                TableStatusView { last: table_prefix_of(last), ..known }
            } else if area_of(first) is Tables {
                TableStatusView { first: table_prefix_of(first), ..known }
            } else {
                known
            }
        },
        _ => known,
    }
}

/// Tells whether the bounds of a region can be used by [`before_check`]: they
/// cannot if the first key lies in a later area than the last one.
pub fn bounds_in_order(start_key: &[u8], end_key: &[u8]) -> (in_order: bool)
    ensures
        in_order == are_in_order(start_key@, end_key@),
{
    if !validate_data_key(start_key) || !validate_data_key(end_key) {
        return true;
    }
    let encoded_start_key = origin_key(start_key);
    let encoded_end_key = origin_key(end_key);
    if encoded_start_key.len() < TABLE_PREFIX_KEY_LEN || encoded_end_key.len()
        < TABLE_PREFIX_KEY_LEN {
        return true;
    }
    match (area(encoded_start_key), area(encoded_end_key)) {
        (Area::Tables, Area::Before) => false,
        (Area::After, Area::Before) => false,
        (Area::After, Area::Tables) => false,
        _ => true,
    }
}

/// Copies the part of an encoded key that names its table.
fn copy_table_prefix(key: &[u8]) -> (prefix: Option<Vec<u8>>)
    ensures
        optional_key(prefix) == table_prefix_of(key@),
{
    match extract_encoded_table_prefix(key) {
        Some(prefix) => Some(slice_to_vec(prefix)),
        None => None,
    }
}

/// Does some quick checks with the bounds of a region's data: `true` for
/// skipping [`check_key`].
///
/// A region is skipped if it is inside a table, if its bounds are missing or
/// not data keys, and if no table begins between them. Otherwise the status
/// takes up what the bounds tell; of bounds that are too short for a table id,
/// nothing.
pub fn before_check(status: &mut TableStatus, region: &Region, bounds: Bounds) -> (skip: bool)
    requires
        same_table(region.start_key@, region.end_key@) || (found_keys(bounds) matches Some((s, e))
            ==> are_in_order(s, e)),
    ensures
        skip == is_skipped(region, found_keys(bounds)),
        skip ==> *final(status) == *old(status),
        !skip ==> final(status)@ == learned(old(status)@, found_keys(bounds)),
{
    if is_same_table(region.start_key.as_slice(), region.end_key.as_slice()) {
        // The region is inside a table.
        return true;
    }
    let (start_key, end_key) = match bounds {
        Ok(Some((start_key, end_key))) => (start_key, end_key),
        Ok(None) => return true,
        Err(_) => return true,
    };

    if !validate_data_key(start_key.as_slice()) || !validate_data_key(end_key.as_slice()) {
        return true;
    }
    let encoded_start_key = origin_key(start_key.as_slice());
    let encoded_end_key = origin_key(end_key.as_slice());

    if encoded_start_key.len() < TABLE_PREFIX_KEY_LEN || encoded_end_key.len()
        < TABLE_PREFIX_KEY_LEN {
        // Such a key does not name a table: the region has to be walked.
        return false;
    }
    match (area(encoded_start_key), area(encoded_end_key)) {
        // The region does not cover table data.
        (Area::Before, Area::Before) => true,
        (Area::After, Area::After) => true,
        // The region covers all table data.
        (Area::Before, Area::After) => false,
        // The later part of the region is table data.
        (Area::Before, Area::Tables) => {
            status.last_encoded_table_prefix = copy_table_prefix(encoded_end_key);
            false
        },
        // The region is in the table area.
        (Area::Tables, Area::Tables) => {
            if is_same_table(encoded_start_key, encoded_end_key) {
                true
            } else {
                // Table ids do not grow by one, so the table next to the
                // first one is not known: the last one is split off.
                status.last_encoded_table_prefix = copy_table_prefix(encoded_end_key);
                false
            }
        },
        // The earlier part of the region is table data.
        (Area::Tables, Area::After) => {
            status.first_encoded_table_prefix = copy_table_prefix(encoded_start_key);
            false
        },
        // Bounds in order leave nothing else.
        _ => unreached(),
    }
}

/// The split key that a key of the region shows: the table to be split at, if
/// it is known already, else the table of the key itself, if the region is not
/// known to start in it.
pub open spec fn split_key_at(status: TableStatusView, data_key: Seq<u8>) -> Option<Seq<u8>> {
    match status.last {
        Some(prefix) => Some(data_key_of(prefix)),
        None => if is_data_key(data_key) {
            match table_prefix_of(origin_key_of(data_key)) {
                Some(prefix) if status.first != Some(prefix) => Some(data_key_of(prefix)),
                _ => None,
            }
        } else {
            None
        },
    }
}

/// A table that the region is to be split at is used once.
pub open spec fn after_key(status: TableStatusView) -> TableStatusView {
    TableStatusView { last: None, ..status }
}

/// Feed keys in order to find the split key.
///
/// A split key that [`before_check`] found is returned at once. Otherwise, if
/// `current_data_key` belongs to a table and not to the one that the region
/// starts in, the data key of its table is returned.
pub fn check_key(status: &mut TableStatus, current_data_key: &[u8]) -> (split_key: Option<Vec<u8>>)
    ensures
        optional_key(split_key) == split_key_at(old(status)@, current_data_key@),
        final(status)@ == after_key(old(status)@),
{
    if let Some(last_encoded_table_prefix) = status.last_encoded_table_prefix.take() {
        return Some(data_key(last_encoded_table_prefix.as_slice()));
    }
    if !validate_data_key(current_data_key) {
        return None;
    }
    let current_encoded_key = origin_key(current_data_key);
    match extract_encoded_table_prefix(current_encoded_key) {
        Some(current) => match &status.first_encoded_table_prefix {
            Some(first) => {
                if same_bytes(current, first.as_slice()) {
                    None
                } else {
                    Some(data_key(current))
                }
            },
            // This is the very first table key of the region.
            None => Some(data_key(current)),
        },
        None => None,
    }
}

/// What the split checks of one region have found out.
#[derive(Debug)]
pub struct Status {
    /// The part of the check for tables, unless it is skipped.
    pub table: Option<TableStatus>,
}

impl View for Status {
    type V = Option<TableStatusView>;

    open spec fn view(&self) -> Option<TableStatusView> {
        match self.table {
            Some(table) => Some(table@),
            None => None,
        }
    }
}

/// The status of a check that begins with these bounds, behind the status
/// `before`.
pub open spec fn begun(
    before: Option<TableStatusView>,
    region: &Region,
    bounds: Bounds,
) -> Option<TableStatusView> {
    if is_skipped(region, found_keys(bounds)) {
        before
    } else {
        Some(learned(TableStatusView::unknown(), found_keys(bounds)))
    }
}

/// The answer of a check to a key.
pub open spec fn answer(status: Option<TableStatusView>, key: Seq<u8>) -> Option<Seq<u8>> {
    match status {
        Some(table) => split_key_at(table, key),
        None => None,
    }
}

/// The status of a check behind a key.
pub open spec fn fed(status: Option<TableStatusView>) -> Option<TableStatusView> {
    match status {
        Some(table) => Some(after_key(table)),
        None => None,
    }
}

impl Default for Status {
    fn default() -> (status: Status)
        ensures
            status.table is None,
    {
        Status { table: None }
    }
}

/// Watches the split check of regions and has them split at tables.
#[derive(Default)]
pub struct TableCheckObserver;

impl TableCheckObserver {
    /// Begins the check of a region with the bounds of its data. Where the
    /// check for tables is skipped, the status stays as it is.
    pub fn new_split_check_status(&self, status: &mut Status, region: &Region, bounds: Bounds)
        requires
            same_table(region.start_key@, region.end_key@) || (found_keys(bounds) matches Some((
                s,
                e,
            )) ==> are_in_order(s, e)),
        ensures
            is_skipped(region, found_keys(bounds)) ==> *final(status) == *old(status),
            !is_skipped(region, found_keys(bounds)) ==> {
                &&& final(status).table matches Some(table)
                &&& table@ == learned(TableStatusView::unknown(), found_keys(bounds))
            },
            final(status)@ == begun(old(status)@, region, bounds),
    {
        let mut table_status = TableStatus::default();
        let skip = before_check(&mut table_status, region, bounds);
        if !skip {
            status.table = Some(table_status);
        }
    }

    /// Goes on with the next key of the region, and returns the split key once
    /// it is found. Sizes do not matter here.
    pub fn on_split_check(&self, status: &mut Status, key: &[u8], _size: u64) -> (split_key: Option<
        Vec<u8>,
    >)
        ensures
            match old(status).table {
                Some(table) => {
                    &&& optional_key(split_key) == split_key_at(table@, key@)
                    &&& final(status).table matches Some(next)
                    &&& next@ == after_key(table@)
                },
                None => split_key is None && final(status).table is None,
            },
            optional_key(split_key) == answer(old(status)@, key@),
            final(status)@ == fed(old(status)@),
    {
        if let Some(table_status) = &mut status.table {
            check_key(table_status, key)
        } else {
            None
        }
    }
}

} // verus!
