//! The order of keys: byte strings compared lexicographically.

use vstd::prelude::*;

verus! {

/// How one key stands to another.
#[derive(Clone, Copy, Debug, PartialEq, Eq, Structural)]
pub enum KeyOrder {
    Less,
    Equal,
    Greater,
}

/// `a` and `b` hold the same bytes below `n`; at `n`, either `a` ends and `b` goes on, or the byte
/// of `a` is the smaller one.
pub open spec fn key_less_at(a: Seq<u8>, b: Seq<u8>, n: int) -> bool {
    &&& 0 <= n <= a.len()
    &&& n < b.len()
    &&& forall|i: int| 0 <= i < n ==> a[i] == b[i]
    &&& n == a.len() || a[n] < b[n]
}

/// `a` comes strictly before `b` in lexicographic order.
pub open spec fn key_less(a: Seq<u8>, b: Seq<u8>) -> bool {
    exists|n: int| key_less_at(a, b, n)
}

/// The order of `a` relative to `b`.
pub open spec fn key_order(a: Seq<u8>, b: Seq<u8>) -> KeyOrder {
    if a == b {
        KeyOrder::Equal
    } else if key_less(a, b) {
        KeyOrder::Less
    } else {
        KeyOrder::Greater
    }
}

/// No key comes before itself.
pub proof fn law_key_less_irreflexive(a: Seq<u8>)
    ensures
        !key_less(a, a),
{
}

/// The order of keys is transitive.
pub proof fn law_key_less_transitive(a: Seq<u8>, b: Seq<u8>, c: Seq<u8>)
    requires
        key_less(a, b),
        key_less(b, c),
    ensures
        key_less(a, c),
{
    let m = choose|n: int| key_less_at(a, b, n);
    let n = choose|n: int| key_less_at(b, c, n);
    let first = if m < n { m } else { n };
    assert(key_less_at(a, c, first));
}

/// Of two different keys, one comes before the other.
pub proof fn law_key_less_total(a: Seq<u8>, b: Seq<u8>)
    ensures
        a == b || key_less(a, b) || key_less(b, a),
{
    lemma_ordered_from(a, b, 0);
}

/// Two keys never come before each other both ways.
pub proof fn law_key_less_asymmetric(a: Seq<u8>, b: Seq<u8>)
    requires
        key_less(a, b),
    ensures
        !key_less(b, a),
        a != b,
{
    if key_less(b, a) {
        law_key_less_transitive(a, b, a);
    }
}

/// Keys that agree below `from` are equal or ordered.
proof fn lemma_ordered_from(a: Seq<u8>, b: Seq<u8>, from: int)
    requires
        0 <= from <= a.len(),
        from <= b.len(),
        forall|i: int| 0 <= i < from ==> a[i] == b[i],
    ensures
        a == b || key_less(a, b) || key_less(b, a),
    decreases a.len() - from,
{
    if from == a.len() && from == b.len() {
        assert(a =~= b);
    } else if from == a.len() || (from < b.len() && a[from] < b[from]) {
        assert(key_less_at(a, b, from));
    } else if from == b.len() || b[from] < a[from] {
        assert(key_less_at(b, a, from));
    } else {
        lemma_ordered_from(a, b, from + 1);
    }
}

/// Compares two keys.
pub fn order_keys(a: &[u8], b: &[u8]) -> (order: KeyOrder)
    ensures
        order == key_order(a@, b@),
        order is Less <==> key_less(a@, b@),
        order is Equal <==> a@ == b@,
        order is Greater <==> key_less(b@, a@),
{
    let mut i: usize = 0;
    while i < a.len() && i < b.len()
        invariant
            i <= a@.len(),
            i <= b@.len(),
            forall|j: int| 0 <= j < i ==> a@[j] == b@[j],
        decreases a@.len() - i,
    {
        if a[i] < b[i] {
            proof {
                assert(key_less_at(a@, b@, i as int));
                law_key_less_asymmetric(a@, b@);
            }
            return KeyOrder::Less;
        }
        if b[i] < a[i] {
            proof {
                assert(key_less_at(b@, a@, i as int));
                law_key_less_asymmetric(b@, a@);
            }
            return KeyOrder::Greater;
        }
        i = i + 1;
    }
    if i < b.len() {
        proof {
            assert(key_less_at(a@, b@, i as int));
            law_key_less_asymmetric(a@, b@);
        }
        KeyOrder::Less
    } else if i < a.len() {
        proof {
            assert(key_less_at(b@, a@, i as int));
            law_key_less_asymmetric(b@, a@);
        }
        KeyOrder::Greater
    } else {
        proof {
            assert(a@ =~= b@);
            law_key_less_irreflexive(a@);
        }
        KeyOrder::Equal
    }
}

/// The order of keys goes by their first byte, and where that is the same, by the rest. An empty key
/// comes before all others.
pub proof fn law_key_less_by_first_byte(a: Seq<u8>, b: Seq<u8>)
    ensures
        key_less(a, b) <==> b.len() > 0 && (a.len() == 0 || a[0] < b[0] || (a[0] == b[0]
            && key_less(a.skip(1), b.skip(1)))),
{
    if key_less(a, b) {
        let n = choose|n: int| key_less_at(a, b, n);
        if n > 0 {
            assert(a[0] == b[0]);
            assert(key_less_at(a.skip(1), b.skip(1), n - 1));
        }
    }
    if b.len() > 0 && (a.len() == 0 || a[0] < b[0]) {
        assert(key_less_at(a, b, 0));
    }
    if a.len() > 0 && b.len() > 0 && a[0] == b[0] && key_less(a.skip(1), b.skip(1)) {
        let n = choose|n: int| key_less_at(a.skip(1), b.skip(1), n);
        assert forall|i: int| 0 <= i < n + 1 implies a[i] == b[i] by {
            if i > 0 {
                assert(a.skip(1)[i - 1] == b.skip(1)[i - 1]);
            }
        }
        assert(key_less_at(a, b, n + 1));
    }
}

/// A common start does not matter to the order of keys.
pub proof fn law_key_less_common_start(start: Seq<u8>, a: Seq<u8>, b: Seq<u8>)
    ensures
        key_less(start + a, start + b) <==> key_less(a, b),
    decreases start.len(),
{
    if start.len() == 0 {
        assert(start + a =~= a);
        assert(start + b =~= b);
    } else {
        law_key_less_by_first_byte(start + a, start + b);
        assert((start + a).skip(1) =~= start.skip(1) + a);
        assert((start + b).skip(1) =~= start.skip(1) + b);
        law_key_less_common_start(start.skip(1), a, b);
    }
}

/// The order of two keys is less, equal or greater as the one comes before the other, is the other,
/// or comes after it.
pub proof fn law_key_order(a: Seq<u8>, b: Seq<u8>)
    ensures
        key_order(a, b) is Less <==> key_less(a, b),
        key_order(a, b) is Equal <==> a == b,
        key_order(a, b) is Greater <==> key_less(b, a),
{
    law_key_less_total(a, b);
    law_key_less_irreflexive(a);
    if key_less(a, b) {
        law_key_less_asymmetric(a, b);
    }
}

} // verus!
