//! What the split check for tables promises as a whole.
use vstd::prelude::*;

use crate::codec::TABLE_PREFIX_KEY_LEN;
use crate::keys::{
    data_end_key_of, data_key_of, is_data_key, law_data_key_undoes_origin_key,
    law_origin_key_undoes_data_key, origin_key_of, Region, DATA_PREFIX,
};
use crate::order::{
    in_range, key_le, key_lt, lemma_before_other_beginning, lemma_beginning_comes_first,
    lemma_beginnings_decide, lemma_key_le_transitive, lemma_key_order_asymmetric,
    lemma_key_order_total, lemma_order_behind_byte, lemma_same_beginning_between, precedes_at,
};
use crate::table::{
    after_key, answer, are_in_order, are_long_data_keys, area_of, begun, fed, found_keys,
    is_skipped, joined, learned, optional_key, optional_range, range_of, same_table, split_key_at,
    table_prefix_of, Bounds, Error, TableStatusView, ENCODED_TABLE_TABLE_PREFIX,
};

verus! {

/// Data keys are ordered as the keys that they stand for.
pub proof fn law_data_keys_keep_order(a: Seq<u8>, b: Seq<u8>)
    ensures
        key_lt(data_key_of(a), data_key_of(b)) <==> key_lt(a, b),
        key_le(data_key_of(a), data_key_of(b)) <==> key_le(a, b),
{
    lemma_order_behind_byte(DATA_PREFIX, a, b);
}

/// The range in which the keys of a region are looked up holds the data keys
/// of the region and no other record.
pub proof fn law_scan_range_is_region(region: &Region, key: Seq<u8>)
    ensures
        in_range(key, data_key_of(region.start_key@), data_end_key_of(region.end_key@)) <==> (
        is_data_key(key) && region.contains_key(origin_key_of(key))),
{
    let start = region.start_key@;
    let end = region.end_key@;
    let origin = origin_key_of(key);
    if is_data_key(key) {
        law_data_key_undoes_origin_key(key);
        law_data_keys_keep_order(start, origin);
        law_data_keys_keep_order(origin, end);
        if end.len() == 0 {
            assert(precedes_at(key, data_end_key_of(end), 0));
        }
    } else if in_range(key, data_key_of(start), data_end_key_of(end)) {
        let i = choose|i: int| precedes_at(data_key_of(start), key, i);
        let j = choose|j: int| precedes_at(key, data_end_key_of(end), j);
        assert(data_key_of(start)[0] == DATA_PREFIX);
        assert(precedes_at(data_key_of(start), key, i));
        assert(precedes_at(key, data_end_key_of(end), j));
        assert(key[0] >= DATA_PREFIX);
        assert(false);
    }
}

/// Between two keys of a table there are only keys of this table.
pub proof fn law_table_is_contiguous(left: Seq<u8>, key: Seq<u8>, right: Seq<u8>)
    requires
        same_table(left, right),
        key_le(left, key),
        key_le(key, right),
    ensures
        same_table(left, key),
{
    let n = ENCODED_TABLE_TABLE_PREFIX as int;
    lemma_same_beginning_between(left, key, right, n);
    assert(key.take(n)[0] == key[0]);
    assert(left.take(n)[0] == left[0]);
}

/// A region whose start key and end key belong to the same table holds keys of
/// this table only.
pub proof fn law_region_inside_table(region: &Region, key: Seq<u8>)
    requires
        same_table(region.start_key@, region.end_key@),
        region.contains_key(key),
    ensures
        same_table(region.start_key@, key),
{
    law_table_is_contiguous(region.start_key@, key, region.end_key@);
}

/// Bounds that are ordered as keys can be used by the check.
pub proof fn law_ordered_bounds_are_usable(first: Seq<u8>, last: Seq<u8>)
    requires
        key_le(first, last),
    ensures
        are_in_order(first, last),
{
    if are_long_data_keys(first, last) {
        law_data_key_undoes_origin_key(first);
        law_data_key_undoes_origin_key(last);
        law_data_keys_keep_order(origin_key_of(first), origin_key_of(last));
        lemma_area_grows(origin_key_of(first), origin_key_of(last));
    }
}

/// Of two keys, the later one does not start with the smaller byte.
proof fn lemma_area_grows(first: Seq<u8>, last: Seq<u8>)
    requires
        key_le(first, last),
        first.len() > 0,
        last.len() > 0,
    ensures
        first[0] <= last[0],
{
    if first != last {
        let i = choose|i: int| precedes_at(first, last, i);
        assert(precedes_at(first, last, i));
    }
}

/// `found` is what a search of `store` for its least key from `start` on, and
/// before `end`, comes to.
pub open spec fn is_first_key(
    store: Set<Seq<u8>>,
    start: Seq<u8>,
    end: Seq<u8>,
    found: Option<Seq<u8>>,
) -> bool {
    match found {
        Some(first) => {
            &&& store.contains(first)
            &&& key_le(start, first)
            &&& key_lt(first, end)
            &&& forall|key: Seq<u8>|
                #[trigger] store.contains(key) && key_le(start, key) ==> key_le(first, key)
        },
        None => forall|key: Seq<u8>| #[trigger]
            store.contains(key) && key_le(start, key) ==> !key_lt(key, end),
    }
}

/// `found` is what a search of `store` for its greatest key before `end` comes
/// to.
pub open spec fn is_last_key(store: Set<Seq<u8>>, end: Seq<u8>, found: Option<Seq<u8>>) -> bool {
    match found {
        Some(last) => {
            &&& store.contains(last)
            &&& key_lt(last, end)
            &&& forall|key: Seq<u8>| #[trigger]
                store.contains(key) && key_lt(key, end) ==> key_le(key, last)
        },
        None => forall|key: Seq<u8>| #[trigger] store.contains(key) ==> !key_lt(key, end),
    }
}

/// `key` is stored, and belongs to the data of the region.
pub open spec fn holds_for_region(store: Set<Seq<u8>>, region: &Region, key: Seq<u8>) -> bool {
    store.contains(key) && is_data_key(key) && region.contains_key(origin_key_of(key))
}

/// An engine that finds the first and the last key of a region's scan range
/// finds the least and the greatest key of its data, and they can be used by
/// the check. It finds a first key exactly if the region has data, and then a
/// last key too; a last key alone is a key in front of the region.
pub proof fn law_bounds_of_region(
    region: &Region,
    store: Set<Seq<u8>>,
    first: Option<Seq<u8>>,
    last: Option<Seq<u8>>,
)
    requires
        is_first_key(
            store,
            data_key_of(region.start_key@),
            data_end_key_of(region.end_key@),
            first,
        ),
        is_last_key(store, data_end_key_of(region.end_key@), last),
    ensures
        first is Some <==> exists|key: Seq<u8>| holds_for_region(store, region, key),
        first is Some ==> last is Some,
        first is Some ==> {
            &&& holds_for_region(store, region, first->0)
            &&& holds_for_region(store, region, last->0)
            &&& forall|key: Seq<u8>| #[trigger]
                holds_for_region(store, region, key) ==> key_le(first->0, key) && key_le(
                    key,
                    last->0,
                )
            &&& key_le(first->0, last->0)
            &&& are_in_order(first->0, last->0)
        },
        first is None && last is Some ==> key_lt(last->0, data_key_of(region.start_key@)),
{
    let start = data_key_of(region.start_key@);
    let end = data_end_key_of(region.end_key@);
    assert forall|key: Seq<u8>| #[trigger] holds_for_region(store, region, key) implies key_le(
        start,
        key,
    ) && key_lt(key, end) by {
        law_scan_range_is_region(region, key);
    }
    if first is Some {
        law_scan_range_is_region(region, first->0);
        assert(holds_for_region(store, region, first->0));
        assert(last is Some);
        assert(key_le(first->0, last->0));
        lemma_key_le_transitive(start, first->0, last->0);
        law_scan_range_is_region(region, last->0);
        law_ordered_bounds_are_usable(first->0, last->0);
    } else if last is Some {
        lemma_key_order_total(start, last->0);
    }
}

/// The split key that feeding the keys in order comes to.
pub open spec fn walk(status: TableStatusView, keys: Seq<Seq<u8>>) -> Option<Seq<u8>>
    decreases keys.len(),
{
    if keys.len() == 0 {
        None
    } else {
        match split_key_at(status, keys[0]) {
            Some(split_key) => Some(split_key),
            None => walk(after_key(status), keys.skip(1)),
        }
    }
}

/// The first and the last of the keys.
pub open spec fn ends_of(keys: Seq<Seq<u8>>) -> Option<(Seq<u8>, Seq<u8>)> {
    if keys.len() == 0 {
        None
    } else {
        Some((keys[0], keys.last()))
    }
}

/// The split key that a whole check of a region with these keys comes to.
pub open spec fn split_key_of(region: &Region, keys: Seq<Seq<u8>>) -> Option<Seq<u8>> {
    if is_skipped(region, ends_of(keys)) {
        None
    } else {
        walk(learned(TableStatusView::unknown(), ends_of(keys)), keys)
    }
}

/// The keys are data keys of the region, in order.
pub open spec fn are_keys_of(region: &Region, keys: Seq<Seq<u8>>) -> bool {
    &&& forall|i: int|
        0 <= i < keys.len() ==> is_data_key(#[trigger] keys[i]) && region.contains_key(
            origin_key_of(keys[i]),
        )
    &&& forall|i: int, j: int| 0 <= i < j < keys.len() ==> key_lt(#[trigger] keys[i], #[trigger] keys[j])
}

/// The table that the key behind a data key belongs to, if it belongs to one.
pub open spec fn table_of(data_key: Seq<u8>) -> Option<Seq<u8>> {
    table_prefix_of(origin_key_of(data_key))
}

/// While the keys are fed nothing changes as long as no split key is found. The
/// one that is found then is that of the first key that shows one.
proof fn lemma_walk(status: TableStatusView, keys: Seq<Seq<u8>>)
    requires
        status.last is None,
    ensures
        match walk(status, keys) {
            Some(split_key) => exists|i: int|
                0 <= i < keys.len() && #[trigger] split_key_at(status, keys[i]) == Some(split_key)
                    && forall|j: int| 0 <= j < i ==> #[trigger] split_key_at(status, keys[j]) is None,
            None => forall|i: int|
                0 <= i < keys.len() ==> #[trigger] split_key_at(status, keys[i]) is None,
        },
    decreases keys.len(),
{
    if keys.len() > 0 && split_key_at(status, keys[0]) is None {
        let rest = keys.skip(1);
        assert(after_key(status) =~= status);
        lemma_walk(status, rest);
        match walk(status, rest) {
            Some(split_key) => {
                let i = choose|i: int|
                    0 <= i < rest.len() && #[trigger] split_key_at(status, rest[i]) == Some(
                        split_key,
                    ) && forall|j: int| 0 <= j < i ==> #[trigger] split_key_at(status, rest[j]) is None;
                assert(rest[i] == keys[i + 1]);
                assert forall|j: int| 0 <= j < i + 1 implies #[trigger] split_key_at(
                    status,
                    keys[j],
                ) is None by {
                    if j > 0 {
                        assert(rest[j - 1] == keys[j]);
                        assert(split_key_at(status, rest[j - 1]) is None);
                    }
                }
            },
            None => {
                assert forall|i: int| 0 <= i < keys.len() implies #[trigger] split_key_at(
                    status,
                    keys[i],
                ) is None by {
                    if i > 0 {
                        assert(rest[i - 1] == keys[i]);
                        assert(split_key_at(status, rest[i - 1]) is None);
                    }
                }
            },
        }
    } else if keys.len() > 0 {
        assert(split_key_at(status, keys[0]) == walk(status, keys));
    }
}

/// A region that is not split holds keys of at most one table, and none if its
/// first key is not a table's key.
pub proof fn law_unsplit_region_holds_one_table(region: &Region, keys: Seq<Seq<u8>>, i: int)
    requires
        are_keys_of(region, keys),
        split_key_of(region, keys) is None,
        0 <= i < keys.len(),
        table_of(keys[i]) is Some,
    ensures
        table_of(keys[i]) == table_of(keys[0]),
{
    let first = origin_key_of(keys[0]);
    let key = origin_key_of(keys[i]);
    let last = origin_key_of(keys.last());
    lemma_ends(region, keys, i);
    if same_table(region.start_key@, region.end_key@) {
        law_region_inside_table(region, first);
        law_region_inside_table(region, key);
    } else if is_skipped(region, ends_of(keys)) {
        lemma_area_grows(first, key);
        lemma_area_grows(key, last);
        law_table_is_contiguous(first, key, last);
    } else {
        let status = learned(TableStatusView::unknown(), ends_of(keys));
        if status.last is Some {
            assert(split_key_at(status, keys[0]) is Some);
        } else {
            lemma_walk(status, keys);
            assert(split_key_at(status, keys[i]) is None);
        }
    }
}

/// What the first and the last of a region's keys are to any of them.
proof fn lemma_ends(region: &Region, keys: Seq<Seq<u8>>, i: int)
    requires
        are_keys_of(region, keys),
        0 <= i < keys.len(),
    ensures
        key_le(keys[0], keys[i]),
        key_le(keys[i], keys.last()),
        key_le(origin_key_of(keys[0]), origin_key_of(keys[i])),
        key_le(origin_key_of(keys[i]), origin_key_of(keys.last())),
{
    law_data_key_undoes_origin_key(keys[0]);
    law_data_key_undoes_origin_key(keys[i]);
    law_data_key_undoes_origin_key(keys.last());
    law_data_keys_keep_order(origin_key_of(keys[0]), origin_key_of(keys[i]));
    law_data_keys_keep_order(origin_key_of(keys[i]), origin_key_of(keys.last()));
}

/// The last key of a region tells nothing of the table that its first key
/// belongs to: it is too short for a table's key, and not one that shows that
/// the tables are over.
pub open spec fn tells_too_little(last: Seq<u8>) -> bool {
    ||| last.len() < TABLE_PREFIX_KEY_LEN
    ||| last.len() < ENCODED_TABLE_TABLE_PREFIX && area_of(last) is Tables
}

/// A split key lies between the keys of the region: behind the first one, and
/// not behind the last one. So each part of the region keeps some of its keys.
/// It is where a table begins that has keys in the region, and that the first
/// key does not belong to.
///
/// This is not so if the first key belongs to a table and the last key tells
/// too little: the region is then split where the table of its first key
/// begins.
pub proof fn law_split_key_separates(region: &Region, keys: Seq<Seq<u8>>, split_key: Seq<u8>)
    requires
        are_keys_of(region, keys),
        split_key_of(region, keys) == Some(split_key),
        table_of(keys[0]) is None || !tells_too_little(origin_key_of(keys.last())),
    ensures
        key_lt(keys[0], split_key),
        key_le(split_key, keys.last()),
        is_data_key(split_key),
        region.contains_key(origin_key_of(split_key)),
        origin_key_of(split_key) != region.start_key@,
        exists|i: int|
            0 < i < keys.len() && #[trigger] table_of(keys[i]) == Some(origin_key_of(split_key)),
        table_of(keys[0]) != Some(origin_key_of(split_key)),
{
    let n = ENCODED_TABLE_TABLE_PREFIX as int;
    let status = learned(TableStatusView::unknown(), ends_of(keys));
    let first = origin_key_of(keys[0]);
    let last = origin_key_of(keys.last());
    let split = origin_key_of(split_key);
    lemma_ends(region, keys, 0);
    if first.len() > 0 && last.len() > 0 {
        lemma_area_grows(first, last);
    }
    let i = if status.last is Some {
        keys.len() - 1
    } else {
        lemma_walk(status, keys);
        choose|i: int|
            0 <= i < keys.len() && #[trigger] split_key_at(status, keys[i]) == Some(split_key)
    };
    let key = origin_key_of(keys[i]);
    assert(split_key == data_key_of(key.take(n)));
    law_origin_key_undoes_data_key(key.take(n));
    assert(table_of(keys[i]) == Some(split));
    assert(table_of(keys[0]) != Some(split));
    lemma_ends(region, keys, i);
    if first.len() >= n && first.take(n) == split {
        assert(first.take(n)[0] == first[0] && split[0] == key[0]);
    }
    lemma_before_other_beginning(first, key, n);
    lemma_beginning_comes_first(key, n);
    lemma_key_le_transitive(split, key, last);
    law_data_key_undoes_origin_key(keys[0]);
    law_data_key_undoes_origin_key(keys.last());
    law_data_keys_keep_order(first, split);
    law_data_keys_keep_order(split, last);
    let start = region.start_key@;
    let end = region.end_key@;
    lemma_key_le_transitive(start, first, split);
    if start == split {
        lemma_key_order_asymmetric(first, split);
    }
    if end.len() > 0 {
        lemma_key_le_transitive(split, last, end);
    }
}

/// If the first key is long enough for a table id, and the last key belongs to
/// a table, the region is split where that table begins.
pub proof fn law_split_at_last_table(region: &Region, keys: Seq<Seq<u8>>, split_key: Seq<u8>)
    requires
        split_key_of(region, keys) == Some(split_key),
        origin_key_of(keys[0]).len() >= TABLE_PREFIX_KEY_LEN,
        table_of(keys.last()) is Some,
    ensures
        table_of(keys.last()) == Some(origin_key_of(split_key)),
{
    law_origin_key_undoes_data_key(table_of(keys.last())->0);
}

/// If the first key is too short for a table id, or the last key does not
/// belong to a table, the region is split where the table of one of its keys
/// begins, and the keys before that one belong to no table but that of the
/// first key.
pub proof fn law_split_at_first_new_table(region: &Region, keys: Seq<Seq<u8>>, split_key: Seq<u8>)
    requires
        are_keys_of(region, keys),
        split_key_of(region, keys) == Some(split_key),
        origin_key_of(keys[0]).len() < TABLE_PREFIX_KEY_LEN || table_of(keys.last()) is None,
    ensures
        exists|i: int|
            0 <= i < keys.len() && #[trigger] table_of(keys[i]) == Some(origin_key_of(split_key))
                && forall|j: int|
                0 <= j < i ==> (#[trigger] table_of(keys[j]) is None || table_of(keys[j])
                    == table_of(keys[0])),
{
    let status = learned(TableStatusView::unknown(), ends_of(keys));
    lemma_walk(status, keys);
    let i = choose|i: int|
        0 <= i < keys.len() && #[trigger] split_key_at(status, keys[i]) == Some(split_key)
            && forall|j: int| 0 <= j < i ==> #[trigger] split_key_at(status, keys[j]) is None;
    law_origin_key_undoes_data_key(table_of(keys[i])->0);
    assert(table_of(keys[i]) == Some(origin_key_of(split_key)));
    assert forall|j: int| 0 <= j < i implies (#[trigger] table_of(keys[j]) is None || table_of(
        keys[j],
    ) == table_of(keys[0])) by {
        assert(split_key_at(status, keys[j]) is None);
    }
}

/// A region is never split inside a table: the keys of one table stay together.
pub proof fn law_split_never_cuts_table(
    region: &Region,
    keys: Seq<Seq<u8>>,
    split_key: Seq<u8>,
    a: Seq<u8>,
    b: Seq<u8>,
)
    requires
        split_key_of(region, keys) == Some(split_key),
        same_table(a, b),
    ensures
        key_lt(data_key_of(a), split_key) <==> key_lt(data_key_of(b), split_key),
{
    let n = ENCODED_TABLE_TABLE_PREFIX as int;
    let status = learned(TableStatusView::unknown(), ends_of(keys));
    let i = if status.last is Some {
        keys.len() - 1
    } else {
        lemma_walk(status, keys);
        choose|i: int|
            0 <= i < keys.len() && #[trigger] split_key_at(status, keys[i]) == Some(split_key)
    };
    let key = origin_key_of(keys[i]);
    assert(split_key == data_key_of(key.take(n)));
    law_data_keys_keep_order(a, key.take(n));
    law_data_keys_keep_order(b, key.take(n));
    lemma_beginning_decides(a, key, n);
    lemma_beginning_decides(b, key, n);
}

/// Whether a key comes before a beginning of another one is for its own
/// beginning to decide.
proof fn lemma_beginning_decides(a: Seq<u8>, key: Seq<u8>, n: int)
    requires
        0 <= n <= a.len(),
        n <= key.len(),
    ensures
        key_lt(a, key.take(n)) <==> key_lt(a.take(n), key.take(n)),
{
    lemma_key_order_total(a.take(n), key.take(n));
    if key_lt(a.take(n), key.take(n)) {
        lemma_beginnings_decide(a, key, n);
    } else {
        lemma_beginning_comes_first(a, n);
        lemma_key_le_transitive(key.take(n), a.take(n), a);
        if key_lt(a, key.take(n)) {
            lemma_key_order_asymmetric(a, key.take(n));
        }
    }
}

/// The range in which a region's keys are looked up, byte by byte: what lies in
/// it starts with the data mark, and the rest is a key of the region.
pub proof fn law_scan_range_by_bytes(start: Seq<u8>, end: Seq<u8>, key: Seq<u8>)
    ensures
        key_le(data_key_of(start), key) && key_lt(key, data_end_key_of(end)) <==> {
            &&& key.len() > 0
            &&& key[0] == 0x7a
            &&& key_le(start, key.skip(1))
            &&& end.len() == 0 || key_lt(key.skip(1), end)
        },
{
    let origin = key.skip(1);
    if key.len() > 0 && key[0] == 0x7a {
        law_data_key_undoes_origin_key(key);
        law_data_keys_keep_order(start, origin);
        law_data_keys_keep_order(origin, end);
        if end.len() == 0 {
            assert(precedes_at(key, data_end_key_of(end), 0));
        }
    } else if key_le(data_key_of(start), key) && key_lt(key, data_end_key_of(end)) {
        let i = choose|i: int| precedes_at(data_key_of(start), key, i);
        let j = choose|j: int| precedes_at(key, data_end_key_of(end), j);
        assert(data_key_of(start)[0] == 0x7a);
        assert(precedes_at(data_key_of(start), key, i));
        assert(precedes_at(key, data_end_key_of(end), j));
        assert(false);
    }
}

/// What is extracted from a key are ten bytes that the key begins with, the
/// table mark first. Nothing is extracted exactly if there are no such bytes.
/// What is extracted from them are they themselves.
pub proof fn law_extracted_prefix(key: Seq<u8>, name: Seq<u8>)
    ensures
        table_prefix_of(key) == Some(name) <==> {
            &&& name.len() == 10
            &&& name[0] == 0x74
            &&& name.is_prefix_of(key)
        },
        table_prefix_of(key) is None <==> key.len() < 10 || key[0] != 0x74,
        table_prefix_of(key) == Some(name) ==> table_prefix_of(name) == Some(name),
{
    if key.len() >= 10 {
        assert(key.take(10) =~= key.subrange(0, 10));
        assert(key.take(10)[0] == key[0]);
    }
    if name.len() == 10 {
        assert(name.take(10) =~= name);
        if name.is_prefix_of(key) {
            assert(key.subrange(0, 10)[0] == key[0]);
        }
    }
}

/// Two keys belong to the same table exactly if they begin with the same ten
/// bytes, the table mark first. No key that starts otherwise belongs to the
/// same table as any key.
pub proof fn law_same_table_is_same_name(left: Seq<u8>, right: Seq<u8>)
    ensures
        same_table(left, right) <==> exists|name: Seq<u8>|
            {
                &&& name.len() == 10
                &&& name[0] == 0x74
                &&& #[trigger] name.is_prefix_of(left)
                &&& name.is_prefix_of(right)
            },
        same_table(left, right) ==> left[0] == 0x74 && right[0] == 0x74,
        left.len() < 10 || right.len() < 10 ==> !same_table(left, right),
{
    if same_table(left, right) {
        let name = left.take(10);
        law_extracted_prefix(left, name);
        law_extracted_prefix(right, name);
        assert(name.is_prefix_of(left));
    }
    assert forall|name: Seq<u8>|
        name.len() == 10 && name[0] == 0x74 && #[trigger] name.is_prefix_of(left)
            && name.is_prefix_of(right) implies same_table(left, right) by {
        law_extracted_prefix(left, name);
        law_extracted_prefix(right, name);
    }
}

/// To belong to the same table is an equivalence on the keys of tables.
pub proof fn law_same_table_is_equivalence(a: Seq<u8>, b: Seq<u8>, c: Seq<u8>)
    ensures
        same_table(a, a) <==> a.len() >= 10 && a[0] == 0x74,
        same_table(a, b) <==> same_table(b, a),
        same_table(a, b) && same_table(b, c) ==> same_table(a, c),
{
}

/// The bounds that the engine gave are those that the check goes by, the first
/// one as the first and the last one as the last. Without them it goes by none.
pub proof fn law_bounds_are_taken_as_given(start_key: Vec<u8>, end_key: Vec<u8>, err: Error)
    ensures
        found_keys(Ok(Some((start_key, end_key)))) == Some((start_key@, end_key@)),
        found_keys(Ok(None)) is None,
        found_keys(Err(err)) is None,
{
}

/// A vector's bytes are the bytes of the key that it holds.
pub proof fn law_optional_key(key: Vec<u8>)
    ensures
        optional_key(Some(key)) == Some(key@),
        optional_key(None) is None,
{
}

/// Which regions are skipped: one whose start key and end key begin with the
/// same table's name; one without bounds; one with a bound that lacks the data
/// mark; and, if both bounds are ten bytes or longer, one with both bounds
/// before the table mark, both behind it, or both with one table's name.
pub proof fn law_what_is_skipped(region: &Region, bounds: Bounds)
    ensures
        is_skipped(region, found_keys(bounds)) <==> {
            ||| exists|name: Seq<u8>|
                {
                    &&& name.len() == 10
                    &&& name[0] == 0x74
                    &&& #[trigger] name.is_prefix_of(region.start_key@)
                    &&& name.is_prefix_of(region.end_key@)
                }
            ||| match bounds {
                Ok(Some((s, e))) => {
                    ||| s@.len() == 0 || s@[0] != 0x7a
                    ||| e@.len() == 0 || e@[0] != 0x7a
                    ||| s@.len() >= 10 && e@.len() >= 10 && {
                        ||| s@[1] < 0x74 && e@[1] < 0x74
                        ||| s@[1] > 0x74 && e@[1] > 0x74
                        ||| exists|name: Seq<u8>|
                            {
                                &&& name.len() == 10
                                &&& name[0] == 0x74
                                &&& #[trigger] name.is_prefix_of(s@.skip(1))
                                &&& name.is_prefix_of(e@.skip(1))
                            }
                    }
                },
                _ => true,
            }
        },
{
    law_same_table_is_same_name(region.start_key@, region.end_key@);
    if let Ok(Some((s, e))) = bounds {
        law_same_table_is_same_name(s@.skip(1), e@.skip(1));
    }
}

/// Skipping loses no table: if a region is skipped with the first and the last
/// of its data keys as bounds, a key between them that begins with a table's
/// name has that name in common with the first one.
pub proof fn law_skipping_loses_no_table(
    region: &Region,
    start_key: Vec<u8>,
    end_key: Vec<u8>,
    key: Seq<u8>,
    name: Seq<u8>,
)
    requires
        is_skipped(region, found_keys(Ok(Some((start_key, end_key))))),
        start_key@.len() > 0 && start_key@[0] == 0x7a,
        end_key@.len() > 0 && end_key@[0] == 0x7a,
        region.contains_key(start_key@.skip(1)),
        region.contains_key(end_key@.skip(1)),
        key_le(start_key@, key),
        key_le(key, end_key@),
        name.len() == 10,
        name[0] == 0x74,
        (seq![0x7au8] + name).is_prefix_of(key),
    ensures
        (seq![0x7au8] + name).is_prefix_of(start_key@),
{
    let first = start_key@.skip(1);
    let last = end_key@.skip(1);
    let origin = key.skip(1);
    lemma_mark_before_name(key, name);
    law_data_key_undoes_origin_key(start_key@);
    law_data_key_undoes_origin_key(end_key@);
    law_data_key_undoes_origin_key(key);
    law_data_keys_keep_order(first, origin);
    law_data_keys_keep_order(origin, last);
    law_extracted_prefix(origin, name);
    if same_table(region.start_key@, region.end_key@) {
        let start = region.start_key@;
        let end = region.end_key@;
        lemma_key_le_transitive(start, first, origin);
        lemma_key_le_transitive(origin, last, end);
        law_table_is_contiguous(start, origin, end);
        law_region_inside_table(region, first);
    } else {
        lemma_area_grows(first, origin);
        lemma_area_grows(origin, last);
        law_table_is_contiguous(first, origin, last);
    }
    law_extracted_prefix(first, name);
    lemma_mark_before_name(start_key@, name);
}

/// A data key begins with the mark and a name exactly if the key behind the
/// mark begins with the name.
proof fn lemma_mark_before_name(key: Seq<u8>, name: Seq<u8>)
    ensures
        (seq![0x7au8] + name).is_prefix_of(key) <==> is_data_key(key) && name.is_prefix_of(
            origin_key_of(key),
        ),
{
    let marked = seq![0x7au8] + name;
    let n = name.len() as int;
    if marked.is_prefix_of(key) {
        assert(key.subrange(0, n + 1)[0] == marked[0]);
        assert forall|i: int| 0 <= i < n implies name[i] == key.skip(1)[i] by {
            assert(key.subrange(0, n + 1)[i + 1] == marked[i + 1]);
        }
        assert(name =~= key.skip(1).subrange(0, n));
    }
    if is_data_key(key) && name.is_prefix_of(key.skip(1)) {
        assert forall|i: int| 0 <= i < n + 1 implies marked[i] == key[i] by {
            if i > 0 {
                assert(key.skip(1).subrange(0, n)[i - 1] == name[i - 1]);
            }
        }
        assert(marked =~= key.subrange(0, n + 1));
    }
}

/// A region whose first and last key belong to different tables is checked, and
/// whatever key is fed first, the answer is the beginning of the last key's
/// table. It lies behind the first key, and not behind the last.
pub proof fn law_last_table_is_split_off(
    region: &Region,
    start_key: Vec<u8>,
    end_key: Vec<u8>,
    first_name: Seq<u8>,
    last_name: Seq<u8>,
    key: Seq<u8>,
)
    requires
        region.contains_key(start_key@.skip(1)),
        region.contains_key(end_key@.skip(1)),
        key_le(start_key@, end_key@),
        first_name.len() == 10 && first_name[0] == 0x74,
        last_name.len() == 10 && last_name[0] == 0x74,
        (seq![0x7au8] + first_name).is_prefix_of(start_key@),
        (seq![0x7au8] + last_name).is_prefix_of(end_key@),
        first_name != last_name,
    ensures
        !is_skipped(region, found_keys(Ok(Some((start_key, end_key))))),
        split_key_at(
            learned(TableStatusView::unknown(), found_keys(Ok(Some((start_key, end_key))))),
            key,
        ) == Some(seq![0x7au8] + last_name),
        key_lt(start_key@, seq![0x7au8] + last_name),
        key_le(seq![0x7au8] + last_name, end_key@),
{
    let first = start_key@.skip(1);
    let last = end_key@.skip(1);
    lemma_mark_before_name(start_key@, first_name);
    lemma_mark_before_name(end_key@, last_name);
    law_extracted_prefix(first, first_name);
    law_extracted_prefix(last, last_name);
    if same_table(region.start_key@, region.end_key@) {
        law_region_inside_table(region, first);
        law_region_inside_table(region, last);
    }
    law_data_key_undoes_origin_key(start_key@);
    law_data_key_undoes_origin_key(end_key@);
    law_data_keys_keep_order(first, last);
    lemma_before_other_beginning(first, last, 10);
    lemma_beginning_comes_first(last, 10);
    law_data_keys_keep_order(first, last_name);
    law_data_keys_keep_order(last_name, last);
}

/// What a status takes up from bounds. Bounds with the data mark and ten bytes
/// or more: if the last key starts with the table mark, its table's name, or
/// none if it is too short for one, becomes the table to split at; if only the
/// first key does, its table's name becomes the table that the region starts
/// in. The rest of the status stays, and so does all of it with other bounds.
pub proof fn law_what_is_learned(
    known: TableStatusView,
    start_key: Vec<u8>,
    end_key: Vec<u8>,
    name: Seq<u8>,
)
    ensures
        ({
            let s = start_key@;
            let e = end_key@;
            let next = learned(known, found_keys(Ok(Some((start_key, end_key)))));
            let marked = s.len() >= 10 && s[0] == 0x7a && e.len() >= 10 && e[0] == 0x7a;
            let is_name = name.len() == 10 && name[0] == 0x74;
            if marked && e[1] == 0x74 {
                &&& next.first == known.first
                &&& next.last == Some(name) <==> is_name && (seq![0x7au8] + name).is_prefix_of(e)
                &&& next.last is None <==> e.len() == 10
            } else if marked && s[1] == 0x74 {
                &&& next.last == known.last
                &&& next.first == Some(name) <==> is_name && (seq![0x7au8] + name).is_prefix_of(s)
                &&& next.first is None <==> s.len() == 10
            } else {
                next == known
            }
        }),
        forall|err: Error| #[trigger] learned(known, found_keys(Err(err))) == known,
        learned(known, found_keys(Ok(None))) == known,
{
    law_extracted_prefix(start_key@.skip(1), name);
    law_extracted_prefix(end_key@.skip(1), name);
    lemma_mark_before_name(start_key@, name);
    lemma_mark_before_name(end_key@, name);
}

/// A check begins with nothing known.
pub proof fn law_nothing_is_known_at_first()
    ensures
        TableStatusView::unknown().first is None,
        TableStatusView::unknown().last is None,
{
}

/// A table that the region is to be split at is the answer to any key, at once.
pub proof fn law_known_split_key_is_returned_at_once(
    status: TableStatusView,
    name: Seq<u8>,
    key: Seq<u8>,
)
    requires
        status.last == Some(name),
    ensures
        split_key_at(status, key) == Some(seq![0x7au8] + name),
{
}

/// If no table to split at is known, the answer to a key is its own beginning:
/// eleven bytes, the data mark and the table mark first, unless they name the
/// table that the region starts in. Without such bytes there is no answer.
pub proof fn law_split_key_begins_the_key(
    status: TableStatusView,
    key: Seq<u8>,
    split_key: Seq<u8>,
)
    requires
        status.last is None,
    ensures
        split_key_at(status, key) == Some(split_key) <==> {
            &&& split_key.len() == 11
            &&& split_key[0] == 0x7a
            &&& split_key[1] == 0x74
            &&& split_key.is_prefix_of(key)
            &&& status.first != Some(split_key.skip(1))
        },
        split_key_at(status, key) is None <==> {
            ||| key.len() < 11
            ||| key[0] != 0x7a
            ||| key[1] != 0x74
            ||| status.first == Some(key.subrange(1, 11))
        },
{
    let origin = key.skip(1);
    if split_key.len() == 11 {
        let name = split_key.skip(1);
        law_extracted_prefix(origin, name);
        lemma_mark_before_name(key, name);
        if split_key[0] == 0x7a {
            assert(seq![0x7au8] + name =~= split_key);
        }
    }
    if key.len() >= 11 {
        assert(origin.take(10) =~= key.subrange(1, 11));
    }
    if let Some(prefix) = table_prefix_of(origin) {
        assert((seq![0x7au8] + prefix).skip(1) =~= prefix);
        law_extracted_prefix(origin, prefix);
        lemma_mark_before_name(key, prefix);
    }
}

/// Of a status, a fed key uses up the table to split at, and nothing else. So
/// the next answer is what it would be had none been known.
pub proof fn law_key_uses_up_known_split_key(status: TableStatusView, key: Seq<u8>)
    ensures
        after_key(status).last is None,
        after_key(status).first == status.first,
        split_key_at(after_key(status), key) == split_key_at(
            TableStatusView { first: status.first, last: None },
            key,
        ),
{
}

/// Bounds cannot be used only if both have the data mark and ten bytes or more,
/// and the first one's area comes behind the last one's. Such bounds are out of
/// order as keys too.
pub proof fn law_what_is_out_of_order(first: Seq<u8>, last: Seq<u8>)
    ensures
        !are_in_order(first, last) <==> {
            &&& first.len() >= 10 && first[0] == 0x7a
            &&& last.len() >= 10 && last[0] == 0x7a
            &&& first[1] > last[1]
            &&& first[1] >= 0x74
            &&& last[1] <= 0x74
        },
        !are_in_order(first, last) ==> key_lt(last, first),
{
    if !are_in_order(first, last) {
        assert(precedes_at(last, first, 1));
    }
}

/// A whole check with the first and the last of a region's keys as bounds comes
/// to the split key of the region.
pub proof fn law_check_with_ends_as_bounds(
    region: &Region,
    keys: Seq<Seq<u8>>,
    start_key: Vec<u8>,
    end_key: Vec<u8>,
)
    requires
        keys.len() > 0,
        start_key@ == keys[0],
        end_key@ == keys.last(),
    ensures
        split_key_of(region, keys) == (if is_skipped(
            region,
            found_keys(Ok(Some((start_key, end_key)))),
        ) {
            None
        } else {
            walk(
                learned(TableStatusView::unknown(), found_keys(Ok(Some((start_key, end_key))))),
                keys,
            )
        }),
{
}

/// For a region inside a table nothing is read. For any other one, what is read
/// starts with the data mark and is a key of the region behind it, and all such
/// keys are read.
pub proof fn law_what_is_read(region: &Region, key: Seq<u8>)
    ensures
        range_of(region) is None <==> exists|name: Seq<u8>|
            {
                &&& name.len() == 10
                &&& name[0] == 0x74
                &&& #[trigger] name.is_prefix_of(region.start_key@)
                &&& name.is_prefix_of(region.end_key@)
            },
        range_of(region) matches Some((start, end)) ==> (key_le(start, key) && key_lt(key, end) <==> {
            &&& key.len() > 0
            &&& key[0] == 0x7a
            &&& key_le(region.start_key@, key.skip(1))
            &&& region.end_key@.len() == 0 || key_lt(key.skip(1), region.end_key@)
        }),
{
    law_same_table_is_same_name(region.start_key@, region.end_key@);
    law_scan_range_by_bytes(region.start_key@, region.end_key@, key);
}

/// A range of vectors is the range of their bytes.
pub proof fn law_optional_range(start: Vec<u8>, end: Vec<u8>)
    ensures
        optional_range(Some((start, end))) == Some((start@, end@)),
        optional_range(None) is None,
{
}

/// Two keys are bounds, none are none, and one alone is an error that tells
/// which one it is.
pub proof fn law_bounds_come_together(first: Vec<u8>, last: Vec<u8>)
    ensures
        found_keys(joined(Some(first), Some(last))) == Some((first@, last@)),
        joined(None, None) == Ok::<Option<(Vec<u8>, Vec<u8>)>, Error>(None),
        joined(Some(first), None) == Err::<Option<(Vec<u8>, Vec<u8>)>, _>(
            Error::InvalidBound { first_key: Some(first), last_key: None },
        ),
        joined(None, Some(last)) == Err::<Option<(Vec<u8>, Vec<u8>)>, _>(
            Error::InvalidBound { first_key: None, last_key: Some(last) },
        ),
{
}

/// With what an engine finds in the range of a region, the check has bounds
/// exactly if the region has data. They are then the least and the greatest of
/// its data keys. The bounds are invalid exactly if the region has no data and
/// some stored key comes before them.
pub proof fn law_check_gets_ends_of_region(
    region: &Region,
    store: Set<Seq<u8>>,
    first: Option<Vec<u8>>,
    last: Option<Vec<u8>>,
)
    requires
        is_first_key(
            store,
            data_key_of(region.start_key@),
            data_end_key_of(region.end_key@),
            optional_key(first),
        ),
        is_last_key(store, data_end_key_of(region.end_key@), optional_key(last)),
    ensures
        found_keys(joined(first, last)) is Some <==> exists|key: Seq<u8>|
            holds_for_region(store, region, key),
        found_keys(joined(first, last)) matches Some((s, e)) ==> {
            &&& holds_for_region(store, region, s)
            &&& holds_for_region(store, region, e)
            &&& forall|key: Seq<u8>| #[trigger]
                holds_for_region(store, region, key) ==> key_le(s, key) && key_le(key, e)
        },
        joined(first, last) is Err <==> {
            &&& forall|key: Seq<u8>| !holds_for_region(store, region, key)
            &&& exists|key: Seq<u8>| #[trigger]
                store.contains(key) && key_lt(key, data_end_key_of(region.end_key@))
        },
{
    law_bounds_of_region(region, store, optional_key(first), optional_key(last));
    if last is Some {
        assert(store.contains(last->0@));
    }
}

/// A check that has begun and a key that is fed first: if the first and the last
/// key of the region belong to different tables, the answer is the beginning of
/// the last key's table, whatever the status was before.
pub proof fn law_observer_splits_off_last_table(
    before: Option<TableStatusView>,
    region: &Region,
    start_key: Vec<u8>,
    end_key: Vec<u8>,
    first_name: Seq<u8>,
    last_name: Seq<u8>,
    key: Seq<u8>,
)
    requires
        region.contains_key(start_key@.skip(1)),
        region.contains_key(end_key@.skip(1)),
        key_le(start_key@, end_key@),
        first_name.len() == 10 && first_name[0] == 0x74,
        last_name.len() == 10 && last_name[0] == 0x74,
        (seq![0x7au8] + first_name).is_prefix_of(start_key@),
        (seq![0x7au8] + last_name).is_prefix_of(end_key@),
        first_name != last_name,
    ensures
        answer(begun(before, region, Ok(Some((start_key, end_key)))), key) == Some(
            seq![0x7au8] + last_name,
        ),
{
    law_last_table_is_split_off(region, start_key, end_key, first_name, last_name, key);
}

/// A skipped check leaves the status as it was; any other one does not depend
/// on it, and has a status. Without a status there is no answer, with one the
/// answer and the next status are those of the table check.
pub proof fn law_observer_keeps_one_status(
    before: Option<TableStatusView>,
    other: Option<TableStatusView>,
    region: &Region,
    bounds: Bounds,
    table: TableStatusView,
    key: Seq<u8>,
)
    ensures
        is_skipped(region, found_keys(bounds)) ==> begun(before, region, bounds) == before,
        !is_skipped(region, found_keys(bounds)) ==> {
            &&& begun(before, region, bounds) is Some
            &&& begun(before, region, bounds) == begun(other, region, bounds)
        },
        answer(None, key) is None,
        fed(None) is None,
        answer(Some(table), key) == split_key_at(table, key),
        fed(Some(table)) == Some(TableStatusView { first: table.first, last: None }),
{
}

/// A whole check of a region's keys by the observer comes to the split key of
/// the region: a check that begins with the first and the last key and is fed
/// the keys in order answers with it, and with nothing before. Until then the
/// status stays as it is.
pub proof fn law_observer_finds_split_key(
    region: &Region,
    keys: Seq<Seq<u8>>,
    start_key: Vec<u8>,
    end_key: Vec<u8>,
)
    requires
        keys.len() > 0,
        start_key@ == keys[0],
        end_key@ == keys.last(),
    ensures
        ({
            let status = begun(None, region, Ok(Some((start_key, end_key))));
            match split_key_of(region, keys) {
                Some(split_key) => exists|i: int|
                    {
                        &&& 0 <= i < keys.len()
                        &&& #[trigger] answer(status, keys[i]) == Some(split_key)
                        &&& forall|j: int| 0 <= j < i ==> #[trigger] answer(status, keys[j]) is None
                        &&& i > 0 ==> fed(status) == status
                    },
                None => fed(status) == status && forall|i: int|
                    0 <= i < keys.len() ==> #[trigger] answer(status, keys[i]) is None,
            }
        }),
{
    let status = begun(None, region, Ok(Some((start_key, end_key))));
    if let Some(table) = status {
        if table.last is Some {
            assert(answer(status, keys[0]) == walk(table, keys));
        } else {
            assert(after_key(table) =~= table);
            lemma_walk(table, keys);
            match walk(table, keys) {
                Some(split_key) => {
                    let i = choose|i: int|
                        0 <= i < keys.len() && #[trigger] split_key_at(table, keys[i]) == Some(
                            split_key,
                        ) && forall|j: int|
                            0 <= j < i ==> #[trigger] split_key_at(table, keys[j]) is None;
                    assert(answer(status, keys[i]) == Some(split_key));
                },
                None => {
                    assert forall|i: int| 0 <= i < keys.len() implies #[trigger] answer(
                        status,
                        keys[i],
                    ) is None by {
                        assert(split_key_at(table, keys[i]) is None);
                    }
                },
            }
        }
    }
}

} // verus!
