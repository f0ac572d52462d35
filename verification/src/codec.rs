//! How keys of tables are written down.
//!
//! A key of a table is a mark, the table id and what the key holds beside it.
//! Before it is used as a key of a region, the whole is encoded: its bytes are
//! taken in groups, and behind each group stands a byte that tells how many of
//! them count.
use vstd::prelude::*;

use crate::order::{
    key_lt, lemma_beginnings_decide, lemma_key_lt_irreflexive, lemma_key_order_asymmetric,
    lemma_key_order_total, precedes_at,
};
use crate::table::{same_table, table_prefix_of, ENCODED_TABLE_TABLE_PREFIX};

verus! {

/// The byte that every key of a table starts with.
pub const TABLE_PREFIX: u8 = 0x74;

/// The length of that mark.
pub const TABLE_PREFIX_LEN: usize = 1;

/// The length of the mark and a table id behind it.
pub const TABLE_PREFIX_KEY_LEN: usize = 9;

/// The number of bytes that are encoded together.
pub const ENC_GROUP_SIZE: usize = 8;

/// The byte behind an encoded group. It is less by the number of bytes that
/// the group lacks.
pub const ENC_MARKER: u8 = 0xff;

/// What has to be added to a signed number so that it is not negative.
pub const SIGN_OFFSET: i128 = 0x8000_0000_0000_0000;

/// The number `n`, modulo what fits, as `len` bytes, the most significant one
/// first.
pub open spec fn be_bytes(n: nat, len: nat) -> Seq<u8>
    decreases len,
{
    if len == 0 {
        seq![]
    } else {
        be_bytes(n / 256, (len - 1) as nat).push((n % 256) as u8)
    }
}

/// A signed number as the bytes of its distance from the least number.
pub open spec fn encoded_i64(v: i64) -> Seq<u8> {
    be_bytes((v + SIGN_OFFSET) as nat, 8)
}

/// The beginning of every key of a table: `t[table_id]`.
pub open spec fn table_key_prefix(table_id: i64) -> Seq<u8> {
    seq![TABLE_PREFIX] + encoded_i64(table_id)
}

/// The encoding of a key. A full group is followed by the marker; the last
/// group, which is never full, is filled up with zeros.
pub open spec fn encoded_bytes(raw: Seq<u8>) -> Seq<u8>
    decreases raw.len(),
{
    if raw.len() >= ENC_GROUP_SIZE {
        raw.take(ENC_GROUP_SIZE as int).push(ENC_MARKER) + encoded_bytes(
            raw.skip(ENC_GROUP_SIZE as int),
        )
    } else {
        let pad = (ENC_GROUP_SIZE - raw.len()) as nat;
        (raw + Seq::new(pad, |i: int| 0u8)).push((ENC_MARKER - pad) as u8)
    }
}

/// Appends a number as `len` bytes, the most significant one first.
fn push_be_bytes(buf: &mut Vec<u8>, n: u64, len: usize)
    ensures
        final(buf)@ == old(buf)@ + be_bytes(n as nat, len as nat),
    decreases len,
{
    if len > 0 {
        push_be_bytes(buf, n / 256, len - 1);
        buf.push((n % 256) as u8);
    }
    assert(buf@ =~= old(buf)@ + be_bytes(n as nat, len as nat));
}

/// Appends a signed number: the bytes of what its distance from the least
/// number is.
pub fn encode_i64(buf: &mut Vec<u8>, v: i64)
    ensures
        final(buf)@ == old(buf)@ + encoded_i64(v),
{
    push_be_bytes(buf, (v as i128 + SIGN_OFFSET) as u64, 8);
}

/// Composes the beginning of every key of a table: `t[table_id]`.
pub fn gen_table_prefix(table_id: i64) -> (prefix: Vec<u8>)
    ensures
        prefix@ == table_key_prefix(table_id),
{
    let mut buf: Vec<u8> = Vec::new();
    buf.push(TABLE_PREFIX);
    encode_i64(&mut buf, table_id);
    assert(buf@ =~= table_key_prefix(table_id));
    buf
}

/// Encodes a key in groups.
pub fn encode_bytes(key: &[u8]) -> (encoded: Vec<u8>)
    ensures
        encoded@ == encoded_bytes(key@),
{
    let mut out: Vec<u8> = Vec::new();
    let mut index: usize = 0;
    assert(key@.skip(0) =~= key@);
    while key.len() - index >= ENC_GROUP_SIZE
        invariant
            index <= key@.len(),
            encoded_bytes(key@) == out@ + encoded_bytes(key@.skip(index as int)),
        decreases key@.len() - index,
    {
        let ghost rest = key@.skip(index as int);
        let ghost before = out@;
        let group = vstd::slice::slice_subrange(key, index, index + ENC_GROUP_SIZE);
        out.extend_from_slice(group);
        out.push(ENC_MARKER);
        proof {
            assert(out@ =~= before + rest.take(ENC_GROUP_SIZE as int).push(ENC_MARKER));
            assert(rest.skip(ENC_GROUP_SIZE as int) =~= key@.skip(index + ENC_GROUP_SIZE));
            assert(out@ + encoded_bytes(rest.skip(ENC_GROUP_SIZE as int)) =~= before
                + encoded_bytes(rest));
        }
        index += ENC_GROUP_SIZE;
    }
    let ghost rest = key@.skip(index as int);
    let ghost before = out@;
    let group = vstd::slice::slice_subrange(key, index, key.len());
    out.extend_from_slice(group);
    let pad: usize = ENC_GROUP_SIZE - group.len();
    let mut i: usize = 0;
    while i < pad
        invariant
            i <= pad,
            out@ == before + rest + Seq::new(i as nat, |i: int| 0u8),
        decreases pad - i,
    {
        out.push(0);
        i += 1;
    }
    out.push(ENC_MARKER - pad as u8);
    assert(out@ =~= before + encoded_bytes(rest));
    out
}

/// The part of an encoded key that names the table with this id: the marker
/// stands between the last byte of the id and those before it.
pub open spec fn encoded_table_prefix(table_id: i64) -> Seq<u8> {
    table_key_prefix(table_id).take(ENC_GROUP_SIZE as int).push(ENC_MARKER).push(
        table_key_prefix(table_id)[ENC_GROUP_SIZE as int],
    )
}

/// The beginning of an encoded table key that is extracted names its table,
/// whatever else the key holds.
pub proof fn law_extracted_prefix_names_table(table_id: i64, rest: Seq<u8>)
    ensures
        table_prefix_of(encoded_bytes(table_key_prefix(table_id) + rest)) == Some(
            encoded_table_prefix(table_id),
        ),
{
    let raw = table_key_prefix(table_id) + rest;
    lemma_be_bytes_len((table_id + SIGN_OFFSET) as nat, 8);
    let tail = raw.skip(ENC_GROUP_SIZE as int);
    assert(tail.len() >= 1 && tail[0] == raw[ENC_GROUP_SIZE as int]);
    let encoded = encoded_bytes(raw);
    assert(encoded == raw.take(ENC_GROUP_SIZE as int).push(ENC_MARKER) + encoded_bytes(tail));
    assert(encoded_bytes(tail).len() >= 1 && encoded_bytes(tail)[0] == tail[0]);
    assert(encoded.take(ENCODED_TABLE_TABLE_PREFIX as int) =~= encoded_table_prefix(table_id));
}

/// The extracted beginnings of keys are enough to find out whether the keys
/// belong to the same table.
pub proof fn law_extracted_prefix_is_enough(a: i64, b: i64, a_rest: Seq<u8>, b_rest: Seq<u8>)
    ensures
        same_table(
            encoded_bytes(table_key_prefix(a) + a_rest),
            encoded_bytes(table_key_prefix(b) + b_rest),
        ) <==> a == b,
{
    law_extracted_prefix_names_table(a, a_rest);
    law_extracted_prefix_names_table(b, b_rest);
    if a < b {
        lemma_table_prefixes_sort(a, b);
        lemma_key_lt_irreflexive(encoded_table_prefix(a));
    } else if b < a {
        lemma_table_prefixes_sort(b, a);
        lemma_key_lt_irreflexive(encoded_table_prefix(a));
    }
}

/// Encoded keys of different tables sort by the ids of the tables.
pub proof fn law_tables_sort_by_id(a: i64, b: i64, a_rest: Seq<u8>, b_rest: Seq<u8>)
    requires
        a < b,
    ensures
        key_lt(
            encoded_bytes(table_key_prefix(a) + a_rest),
            encoded_bytes(table_key_prefix(b) + b_rest),
        ),
{
    law_extracted_prefix_names_table(a, a_rest);
    law_extracted_prefix_names_table(b, b_rest);
    lemma_table_prefixes_sort(a, b);
    lemma_beginnings_decide(
        encoded_bytes(table_key_prefix(a) + a_rest),
        encoded_bytes(table_key_prefix(b) + b_rest),
        ENCODED_TABLE_TABLE_PREFIX as int,
    );
}

/// The beginnings that name tables sort by the ids of the tables.
proof fn lemma_table_prefixes_sort(a: i64, b: i64)
    requires
        a < b,
    ensures
        key_lt(encoded_table_prefix(a), encoded_table_prefix(b)),
{
    let n = (a + SIGN_OFFSET) as nat;
    let m = (b + SIGN_OFFSET) as nat;
    reveal_with_fuel(byte_bound, 9);
    lemma_be_bytes_len(n, 8);
    lemma_be_bytes_len(m, 8);
    lemma_be_bytes_sort(n, m, 8);
    let i = choose|i: int| precedes_at(be_bytes(n, 8), be_bytes(m, 8), i);
    let p = encoded_table_prefix(a);
    let q = encoded_table_prefix(b);
    assert forall|j: int| 0 <= j < 7 implies p[j + 1] == be_bytes(n, 8)[j] && q[j + 1] == be_bytes(
        m,
        8,
    )[j] by {}
    let at: int = if i < 7 {
        i + 1
    } else {
        9
    };
    assert forall|j: int| 0 <= j < at implies p[j] == q[j] by {
        if 0 < j < 8 {
            assert(p[(j - 1) + 1] == be_bytes(n, 8)[j - 1]);
        }
    }
    assert(precedes_at(p, q, at));
}

/// The least number that does not fit into `len` bytes.
spec fn byte_bound(len: nat) -> nat
    decreases len,
{
    if len == 0 {
        1
    } else {
        256 * byte_bound((len - 1) as nat)
    }
}

proof fn lemma_be_bytes_len(n: nat, len: nat)
    ensures
        be_bytes(n, len).len() == len,
    decreases len,
{
    if len > 0 {
        lemma_be_bytes_len(n / 256, (len - 1) as nat);
    }
}

/// Numbers that fit sort as their bytes do.
proof fn lemma_be_bytes_sort(n: nat, m: nat, len: nat)
    requires
        n < m < byte_bound(len),
    ensures
        key_lt(be_bytes(n, len), be_bytes(m, len)),
    decreases len,
{
    if len > 0 {
        let short = (len - 1) as nat;
        let p = be_bytes(n / 256, short);
        let q = be_bytes(m / 256, short);
        lemma_be_bytes_len(n / 256, short);
        lemma_be_bytes_len(m / 256, short);
        if n / 256 < m / 256 {
            lemma_be_bytes_sort(n / 256, m / 256, short);
            let i = choose|i: int| precedes_at(p, q, i);
            assert(precedes_at(be_bytes(n, len), be_bytes(m, len), i));
        } else {
            assert(n / 256 == m / 256);
            assert(precedes_at(be_bytes(n, len), be_bytes(m, len), short as int));
        }
    }
}

/// Numbers are encoded in eight bytes that sort as the numbers do. There are as
/// many numbers as there are eight bytes, so that leaves one encoding.
pub proof fn law_numbers_sort(a: i64, b: i64)
    ensures
        encoded_i64(a).len() == 8,
        key_lt(encoded_i64(a), encoded_i64(b)) <==> a < b,
        encoded_i64(a) == encoded_i64(b) <==> a == b,
{
    let n = (a + SIGN_OFFSET) as nat;
    let m = (b + SIGN_OFFSET) as nat;
    reveal_with_fuel(byte_bound, 9);
    lemma_be_bytes_len(n, 8);
    lemma_key_lt_irreflexive(encoded_i64(a));
    if a < b {
        lemma_be_bytes_sort(n, m, 8);
    } else if b < a {
        lemma_be_bytes_sort(m, n, 8);
        lemma_key_order_asymmetric(encoded_i64(b), encoded_i64(a));
    }
}

/// The beginnings of table keys are nine bytes, the table mark first, and sort
/// as the table ids do.
pub proof fn law_table_key_prefixes_sort(a: i64, b: i64)
    ensures
        table_key_prefix(a).len() == 9,
        table_key_prefix(a)[0] == 0x74,
        key_lt(table_key_prefix(a), table_key_prefix(b)) <==> a < b,
        table_key_prefix(a) == table_key_prefix(b) <==> a == b,
{
    law_numbers_sort(a, b);
    crate::order::lemma_order_behind_byte(TABLE_PREFIX, encoded_i64(a), encoded_i64(b));
    assert(table_key_prefix(a).skip(1) =~= encoded_i64(a));
    assert(table_key_prefix(b).skip(1) =~= encoded_i64(b));
}

/// Every byte of a key is found again in its encoding: eight bytes of the key,
/// then one that tells how many of them count. The last group is never full;
/// zeros stand in for what it lacks.
pub proof fn law_encoding_keeps_every_byte(raw: Seq<u8>)
    ensures
        encoded_bytes(raw).len() == 9 * (raw.len() / 8 + 1),
        forall|i: int| 0 <= i < raw.len() ==> encoded_bytes(raw)[i + i / 8] == #[trigger] raw[i],
        forall|i: int|
            raw.len() <= i < 8 * (raw.len() / 8 + 1) ==> #[trigger] encoded_bytes(raw)[i + i / 8]
                == 0,
        forall|j: int| 0 <= j < raw.len() / 8 ==> #[trigger] encoded_bytes(raw)[9 * j + 8] == 0xff,
        encoded_bytes(raw).last() == 0xf7 + raw.len() % 8,
    decreases raw.len(),
{
    let encoded = encoded_bytes(raw);
    if raw.len() >= 8 {
        let tail = raw.skip(8);
        let rest = encoded_bytes(tail);
        law_encoding_keeps_every_byte(tail);
        assert(encoded == raw.take(8).push(0xff) + rest);
        assert forall|i: int| 0 <= i < raw.len() implies encoded[i + i / 8] == #[trigger] raw[i] by {
            if i >= 8 {
                assert(tail[i - 8] == raw[i]);
                assert(rest[(i - 8) + (i - 8) / 8] == tail[i - 8]);
            }
        }
        assert forall|i: int| raw.len() <= i < 8 * (raw.len() / 8 + 1) implies #[trigger] encoded[i
            + i / 8] == 0 by {
            assert(rest[(i - 8) + (i - 8) / 8] == 0);
        }
        assert forall|j: int| 0 <= j < raw.len() / 8 implies #[trigger] encoded[9 * j + 8]
            == 0xff by {
            if j > 0 {
                assert(rest[9 * (j - 1) + 8] == 0xff);
            }
        }
    }
}

/// Encoded keys sort as the keys do, and different keys have different
/// encodings.
pub proof fn law_encoding_keeps_order(a: Seq<u8>, b: Seq<u8>)
    ensures
        key_lt(encoded_bytes(a), encoded_bytes(b)) <==> key_lt(a, b),
        encoded_bytes(a) == encoded_bytes(b) <==> a == b,
{
    lemma_key_order_total(a, b);
    lemma_key_lt_irreflexive(a);
    lemma_key_lt_irreflexive(encoded_bytes(a));
    if key_lt(a, b) {
        lemma_encodings_differ(a, b);
    } else if key_lt(b, a) {
        lemma_encodings_differ(b, a);
        lemma_key_order_asymmetric(encoded_bytes(b), encoded_bytes(a));
    }
}

/// No encoded key is the beginning of another one.
pub proof fn law_no_encoding_begins_another(a: Seq<u8>, b: Seq<u8>)
    requires
        encoded_bytes(a).is_prefix_of(encoded_bytes(b)),
    ensures
        a == b,
{
    lemma_key_order_total(a, b);
    let x = encoded_bytes(a);
    let y = encoded_bytes(b);
    assert(forall|i: int| 0 <= i < x.len() ==> x[i] == y.subrange(0, x.len() as int)[i]);
    if key_lt(a, b) {
        lemma_encodings_differ(a, b);
    } else if key_lt(b, a) {
        lemma_encodings_differ(b, a);
    }
}

/// `x` and `y` agree before position `i`, and there `x` holds the smaller byte.
spec fn differ_at(x: Seq<u8>, y: Seq<u8>, i: int) -> bool {
    &&& 0 <= i < x.len()
    &&& i < y.len()
    &&& x[i] < y[i]
    &&& forall|j: int| 0 <= j < i ==> x[j] == y[j]
}

/// The encodings of two keys differ in a byte, and that decides their order.
proof fn lemma_encodings_differ(a: Seq<u8>, b: Seq<u8>)
    requires
        key_lt(a, b),
    ensures
        exists|i: int| differ_at(encoded_bytes(a), encoded_bytes(b), i),
        key_lt(encoded_bytes(a), encoded_bytes(b)),
    decreases a.len(),
{
    let x = encoded_bytes(a);
    let y = encoded_bytes(b);
    let i = choose|i: int| precedes_at(a, b, i);
    lemma_encoded_group(a);
    lemma_encoded_group(b);
    if a.len() >= 8 && b.len() >= 8 && i >= 8 {
        let a_rest = a.skip(8);
        let b_rest = b.skip(8);
        assert(precedes_at(a_rest, b_rest, i - 8));
        lemma_encodings_differ(a_rest, b_rest);
        let k = choose|k: int| differ_at(encoded_bytes(a_rest), encoded_bytes(b_rest), k);
        assert(x == a.take(8).push(0xff) + encoded_bytes(a_rest));
        assert(y == b.take(8).push(0xff) + encoded_bytes(b_rest));
        assert(differ_at(x, y, k + 9));
    } else if i < a.len() {
        assert(differ_at(x, y, i));
    } else {
        lemma_zeros_come_first(x, y, i);
    }
    let k = choose|k: int| differ_at(x, y, k);
    assert(precedes_at(x, y, k));
}

/// The first group of an encoded key.
proof fn lemma_encoded_group(raw: Seq<u8>)
    ensures
        encoded_bytes(raw).len() >= 9,
        forall|j: int|
            0 <= j < 8 ==> #[trigger] encoded_bytes(raw)[j] == (if j < raw.len() {
                raw[j]
            } else {
                0u8
            }),
        encoded_bytes(raw)[8] == (if raw.len() >= 8 {
            0xff
        } else {
            0xf7 + raw.len()
        }),
{
}

/// A group that is filled up with zeros comes before any that holds more.
proof fn lemma_zeros_come_first(x: Seq<u8>, y: Seq<u8>, n: int)
    requires
        0 <= n <= 8,
        x.len() >= 9,
        y.len() >= 9,
        forall|j: int| 0 <= j < n ==> x[j] == y[j],
        forall|j: int| n <= j < 8 ==> x[j] == 0,
        x[8] < y[8],
    ensures
        exists|i: int| differ_at(x, y, i),
    decreases 8 - n,
{
    if n == 8 || y[n] > 0 {
        assert(differ_at(x, y, n));
    } else {
        lemma_zeros_come_first(x, y, n + 1);
    }
}

/// A table is named by ten bytes, the table mark first.
pub proof fn law_table_names(table_id: i64)
    ensures
        encoded_table_prefix(table_id).len() == 10,
        encoded_table_prefix(table_id)[0] == 0x74,
        encoded_table_prefix(table_id).is_prefix_of(encoded_bytes(table_key_prefix(table_id))),
{
    law_extracted_prefix_names_table(table_id, seq![]);
    law_numbers_sort(table_id, table_id);
    assert(table_key_prefix(table_id) + seq![] =~= table_key_prefix(table_id));
    let encoded = encoded_bytes(table_key_prefix(table_id));
    assert(encoded.subrange(0, 10) =~= encoded.take(10));
}

} // verus!
