//! The byte-wise order of keys, and what it says of keys that share a prefix.
use vstd::prelude::*;

verus! {

/// `a` and `b` agree before position `i`, and there `a` ends or holds the smaller byte.
pub open spec fn precedes_at(a: Seq<u8>, b: Seq<u8>, i: int) -> bool {
    &&& 0 <= i <= a.len()
    &&& i < b.len()
    &&& forall|j: int| 0 <= j < i ==> a[j] == b[j]
    &&& i == a.len() || a[i] < b[i]
}

/// `a` comes before `b` in the order in which keys are stored.
pub open spec fn key_lt(a: Seq<u8>, b: Seq<u8>) -> bool {
    exists|i: int| precedes_at(a, b, i)
}

/// `a` comes before `b`, or is `b`.
pub open spec fn key_le(a: Seq<u8>, b: Seq<u8>) -> bool {
    a == b || key_lt(a, b)
}

/// `key` lies in the range from `start` up to, not including, `end`; an empty
/// `end` bounds nothing.
pub open spec fn in_range(key: Seq<u8>, start: Seq<u8>, end: Seq<u8>) -> bool {
    &&& key_le(start, key)
    &&& end.len() == 0 || key_lt(key, end)
}

/// No key comes before itself.
pub proof fn lemma_key_lt_irreflexive(a: Seq<u8>)
    ensures
        !key_lt(a, a),
{
}

/// The order is transitive.
pub proof fn lemma_key_lt_transitive(a: Seq<u8>, b: Seq<u8>, c: Seq<u8>)
    requires
        key_lt(a, b),
        key_lt(b, c),
    ensures
        key_lt(a, c),
{
    let i = choose|i: int| precedes_at(a, b, i);
    let j = choose|j: int| precedes_at(b, c, j);
    if i < j {
        assert(precedes_at(a, c, i));
    } else {
        assert(precedes_at(a, c, j));
    }
}

/// Any two keys can be compared.
pub proof fn lemma_key_order_total(a: Seq<u8>, b: Seq<u8>)
    ensures
        key_le(a, b) || key_lt(b, a),
{
    lemma_first_difference(a, b, 0);
}

/// Two keys that agree before position `n` can be compared.
proof fn lemma_first_difference(a: Seq<u8>, b: Seq<u8>, n: int)
    requires
        0 <= n <= a.len(),
        n <= b.len(),
        forall|j: int| 0 <= j < n ==> a[j] == b[j],
    ensures
        key_le(a, b) || key_lt(b, a),
    decreases a.len() - n,
{
    if n == a.len() && n == b.len() {
        assert(a =~= b);
    } else if n == a.len() || (n < b.len() && a[n] < b[n]) {
        assert(precedes_at(a, b, n));
    } else if n == b.len() || b[n] < a[n] {
        assert(precedes_at(b, a, n));
    } else {
        lemma_first_difference(a, b, n + 1);
    }
}

/// The order is transitive also where keys may be equal.
pub proof fn lemma_key_le_transitive(a: Seq<u8>, b: Seq<u8>, c: Seq<u8>)
    requires
        key_le(a, b),
        key_le(b, c),
    ensures
        key_le(a, c),
        key_lt(a, b) || key_lt(b, c) ==> key_lt(a, c),
{
    if key_lt(a, b) && key_lt(b, c) {
        lemma_key_lt_transitive(a, b, c);
    }
}

/// The order goes one way.
pub proof fn lemma_key_order_asymmetric(a: Seq<u8>, b: Seq<u8>)
    requires
        key_lt(a, b),
    ensures
        !key_le(b, a),
{
    if key_lt(b, a) {
        lemma_key_lt_transitive(a, b, a);
    }
    lemma_key_lt_irreflexive(a);
}

/// A key does not come before its own beginning.
pub proof fn lemma_beginning_comes_first(a: Seq<u8>, n: int)
    requires
        0 <= n <= a.len(),
    ensures
        key_le(a.take(n), a),
{
    if n == a.len() {
        assert(a.take(n) =~= a);
    } else {
        assert(precedes_at(a.take(n), a, n));
    }
}

/// Between two keys that begin alike, all keys do.
pub proof fn lemma_same_beginning_between(a: Seq<u8>, c: Seq<u8>, b: Seq<u8>, n: int)
    requires
        0 <= n <= a.len(),
        n <= b.len(),
        a.take(n) == b.take(n),
        key_le(a, c),
        key_le(c, b),
    ensures
        c.len() >= n,
        c.take(n) == a.take(n),
{
    assert(forall|j: int| 0 <= j < n ==> a[j] == a.take(n)[j] && b[j] == b.take(n)[j]);
    if a != c && c != b {
        let i = choose|i: int| precedes_at(a, c, i);
        let j = choose|j: int| precedes_at(c, b, j);
        if i < n {
            assert(a[i] == b[i]);
            if j < n {
                assert(a[j] == b[j]);
            }
            assert(false);
        }
    }
    assert(c.take(n) =~= a.take(n));
}

/// A key that comes before another one and does not begin as the other one
/// does, comes before that beginning.
pub proof fn lemma_before_other_beginning(a: Seq<u8>, c: Seq<u8>, n: int)
    requires
        0 <= n <= c.len(),
        key_le(a, c),
        a.len() < n || a.take(n) != c.take(n),
    ensures
        key_lt(a, c.take(n)),
{
    if a == c {
        assert(false);
    }
    let i = choose|i: int| precedes_at(a, c, i);
    if i < n {
        assert(precedes_at(a, c.take(n), i));
    } else {
        assert(a.take(n) =~= c.take(n));
    }
}

/// A byte put in front of both keys does not change their order.
pub proof fn lemma_order_behind_byte(x: u8, a: Seq<u8>, b: Seq<u8>)
    ensures
        key_lt(seq![x] + a, seq![x] + b) <==> key_lt(a, b),
        key_le(seq![x] + a, seq![x] + b) <==> key_le(a, b),
{
    let xa = seq![x] + a;
    let xb = seq![x] + b;
    if key_lt(a, b) {
        let i = choose|i: int| precedes_at(a, b, i);
        assert(precedes_at(xa, xb, i + 1));
    }
    if key_lt(xa, xb) {
        let i = choose|i: int| precedes_at(xa, xb, i);
        assert(i > 0);
        assert forall|j: int| 0 <= j < i - 1 implies a[j] == b[j] by {
            assert(xa[j + 1] == xb[j + 1]);
        }
        assert(precedes_at(a, b, i - 1));
    }
    if xa == xb {
        assert(a =~= xa.skip(1));
        assert(b =~= xb.skip(1));
    }
}

/// Beginnings of one length that differ decide the order of the keys.
pub proof fn lemma_beginnings_decide(a: Seq<u8>, b: Seq<u8>, n: int)
    requires
        0 <= n <= a.len(),
        n <= b.len(),
        key_lt(a.take(n), b.take(n)),
    ensures
        key_lt(a, b),
        key_lt(a, b.take(n)),
{
    let i = choose|i: int| precedes_at(a.take(n), b.take(n), i);
    assert forall|j: int| 0 <= j < i implies a[j] == b[j] by {
        assert(a.take(n)[j] == b.take(n)[j]);
    }
    assert(precedes_at(a, b, i));
    assert(precedes_at(a, b.take(n), i));
}

/// Of two keys, the first byte in which they differ decides; and a key comes
/// before every longer one that begins with it.
pub proof fn law_first_different_byte_decides(
    common: Seq<u8>,
    x: u8,
    y: u8,
    a: Seq<u8>,
    b: Seq<u8>,
)
    requires
        x != y,
    ensures
        key_lt(common + seq![x] + a, common + seq![y] + b) <==> x < y,
        key_lt(common, common + seq![x] + a),
{
    let n = common.len() as int;
    let left = common + seq![x] + a;
    let right = common + seq![y] + b;
    assert(precedes_at(common, left, n));
    if x < y {
        assert(precedes_at(left, right, n));
    } else {
        assert(precedes_at(right, left, n));
        lemma_key_order_asymmetric(right, left);
    }
}

} // verus!
