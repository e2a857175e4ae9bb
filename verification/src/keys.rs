//! The order of keys: bytewise lexicographic, as `<[u8]>::cmp` orders slices.

use vstd::prelude::*;

verus! {

/// `a` sorts strictly before `b`: at the first position where they differ
/// `a` holds the smaller byte, or `a` is a proper prefix of `b`.
pub open spec fn key_lt(a: Seq<u8>, b: Seq<u8>) -> bool
    decreases a.len(),
{
    if a.len() == 0 {
        b.len() > 0
    } else if b.len() == 0 {
        false
    } else if a[0] != b[0] {
        a[0] < b[0]
    } else {
        key_lt(a.drop_first(), b.drop_first())
    }
}

/// The result of comparing two keys.
#[derive(Clone, Copy, Debug, PartialEq, Eq)]
pub enum KeyOrder {
    Less,
    Equal,
    Greater,
}

/// No key sorts before itself.
pub proof fn lemma_key_lt_irreflexive(a: Seq<u8>)
    ensures
        !key_lt(a, a),
    decreases a.len(),
{
    if a.len() > 0 {
        lemma_key_lt_irreflexive(a.drop_first());
    }
}

/// Two keys never sort before each other.
pub proof fn lemma_key_lt_asymmetric(a: Seq<u8>, b: Seq<u8>)
    ensures
        !(key_lt(a, b) && key_lt(b, a)),
    decreases a.len(),
{
    if a.len() > 0 && b.len() > 0 && a[0] == b[0] {
        lemma_key_lt_asymmetric(a.drop_first(), b.drop_first());
    }
}

/// The order is transitive.
pub proof fn lemma_key_lt_transitive(a: Seq<u8>, b: Seq<u8>, c: Seq<u8>)
    requires
        key_lt(a, b),
        key_lt(b, c),
    ensures
        key_lt(a, c),
    decreases a.len(),
{
    if a.len() > 0 && b.len() > 0 && c.len() > 0 && a[0] == b[0] && b[0] == c[0] {
        lemma_key_lt_transitive(a.drop_first(), b.drop_first(), c.drop_first());
    }
}

/// Any two distinct keys are ordered one way or the other.
pub proof fn lemma_key_lt_total(a: Seq<u8>, b: Seq<u8>)
    ensures
        a == b || key_lt(a, b) || key_lt(b, a),
    decreases a.len(),
{
    if a.len() > 0 && b.len() > 0 && a[0] == b[0] {
        lemma_key_lt_total(a.drop_first(), b.drop_first());
        if a.drop_first() == b.drop_first() {
            assert(a =~= seq![a[0]] + a.drop_first());
            assert(b =~= seq![b[0]] + b.drop_first());
        }
    } else if a.len() == 0 && b.len() == 0 {
        assert(a =~= b);
    }
}

/// The key order is bytewise: `a` sorts before `b` exactly when, at the
/// first position where they differ, `a` holds the numerically smaller
/// byte, or when `a` is a proper prefix of `b`.
pub proof fn lemma_key_lt_bytewise(a: Seq<u8>, b: Seq<u8>)
    ensures
        key_lt(a, b) <==> exists|i: int|
            0 <= i <= a.len() && i <= b.len() && #[trigger] a.take(i) == b.take(i) && (
            (i == a.len() && i < b.len()) || (i < a.len() && i < b.len() && a[i] < b[i])),
    decreases a.len(),
{
    if a.len() == 0 {
        if key_lt(a, b) {
            assert(a.take(0) =~= b.take(0));
        }
    } else if b.len() == 0 {
        if exists|i: int|
            0 <= i <= a.len() && i <= b.len() && #[trigger] a.take(i) == b.take(i) && (
            (i == a.len() && i < b.len()) || (i < a.len() && i < b.len() && a[i] < b[i])) {
            let i = choose|i: int|
                0 <= i <= a.len() && i <= b.len() && #[trigger] a.take(i) == b.take(i) && (
                (i == a.len() && i < b.len()) || (i < a.len() && i < b.len() && a[i] < b[i]));
            assert(false);
        }
    } else {
        let ta = a.drop_first();
        let tb = b.drop_first();
        lemma_key_lt_bytewise(ta, tb);
        if key_lt(a, b) {
            if a[0] != b[0] {
                assert(a.take(0) =~= b.take(0));
            } else {
                let j = choose|j: int|
                    0 <= j <= ta.len() && j <= tb.len() && #[trigger] ta.take(j) == tb.take(j) && (
                    (j == ta.len() && j < tb.len()) || (j < ta.len() && j < tb.len() && ta[j] < tb[j]));
                assert(a.take(j + 1) =~= seq![a[0]] + ta.take(j));
                assert(b.take(j + 1) =~= seq![b[0]] + tb.take(j));
                assert(a.take(j + 1) == b.take(j + 1));
            }
        }
        if exists|i: int|
            0 <= i <= a.len() && i <= b.len() && #[trigger] a.take(i) == b.take(i) && (
            (i == a.len() && i < b.len()) || (i < a.len() && i < b.len() && a[i] < b[i])) {
            let i = choose|i: int|
                0 <= i <= a.len() && i <= b.len() && #[trigger] a.take(i) == b.take(i) && (
                (i == a.len() && i < b.len()) || (i < a.len() && i < b.len() && a[i] < b[i]));
            if i > 0 {
                assert(a[0] == a.take(i)[0]);
                assert(b[0] == b.take(i)[0]);
                assert(ta.take(i - 1) =~= a.take(i).drop_first());
                assert(tb.take(i - 1) =~= b.take(i).drop_first());
                assert(ta.take(i - 1) == tb.take(i - 1));
                if i < a.len() && i < b.len() {
                    assert(ta[i - 1] == a[i]);
                    assert(tb[i - 1] == b[i]);
                }
                assert(key_lt(ta, tb));
            }
        }
    }
}

/// The rule that keeps keys in bytewise order, stated position by position:
/// where, at every length `k` on which `a` and `b` agree, `b` goes on past
/// `k` and the byte of `a` there (if any) is no greater than that of `b`,
/// `a` sorts before `b`.
pub proof fn lemma_key_lt_from_prefixes(a: Seq<u8>, b: Seq<u8>)
    requires
        forall|k: int|
            0 <= k <= a.len() && k <= b.len() && #[trigger] a.take(k) == b.take(k) ==> k < b.len() && (k
                < a.len() ==> a[k] <= b[k]),
    ensures
        key_lt(a, b),
    decreases a.len(),
{
    assert(a.take(0) =~= b.take(0));
    if a.len() > 0 && a[0] == b[0] {
        let ta = a.drop_first();
        let tb = b.drop_first();
        assert forall|k: int|
            0 <= k <= ta.len() && k <= tb.len() && #[trigger] ta.take(k) == tb.take(k) implies k < tb.len() && (k
                < ta.len() ==> ta[k] <= tb[k]) by {
            assert(a.take(k + 1) =~= seq![a[0]] + ta.take(k));
            assert(b.take(k + 1) =~= seq![b[0]] + tb.take(k));
        }
        lemma_key_lt_from_prefixes(ta, tb);
    }
}

/// Comparing two keys that agree on their first `i` bytes is comparing what follows.
proof fn lemma_key_lt_skip(a: Seq<u8>, b: Seq<u8>, i: int)
    requires
        0 <= i <= a.len(),
        i <= b.len(),
        a.take(i) == b.take(i),
    ensures
        key_lt(a, b) == key_lt(a.skip(i), b.skip(i)),
    decreases i,
{
    if i > 0 {
        assert(a[0] == a.take(i)[0]);
        assert(b[0] == b.take(i)[0]);
        assert(a.drop_first().take(i - 1) =~= a.take(i).drop_first());
        assert(b.drop_first().take(i - 1) =~= b.take(i).drop_first());
        lemma_key_lt_skip(a.drop_first(), b.drop_first(), i - 1);
        assert(a.drop_first().skip(i - 1) =~= a.skip(i));
        assert(b.drop_first().skip(i - 1) =~= b.skip(i));
    } else {
        assert(a.skip(0) =~= a);
        assert(b.skip(0) =~= b);
    }
}

/// Compares two keys bytewise, as `<[u8]>::cmp` does.
pub fn compare_keys(a: &[u8], b: &[u8]) -> (r: KeyOrder)
    ensures
        (r == KeyOrder::Less) == key_lt(a@, b@),
        (r == KeyOrder::Equal) == (a@ == b@),
        (r == KeyOrder::Greater) == key_lt(b@, a@),
        (r == KeyOrder::Less) == exists|i: int|
            0 <= i <= a@.len() && i <= b@.len() && #[trigger] a@.take(i) == b@.take(i) && (
            (i == a@.len() && i < b@.len()) || (i < a@.len() && i < b@.len() && a@[i] < b@[i])),
        (r == KeyOrder::Greater) == exists|i: int|
            0 <= i <= b@.len() && i <= a@.len() && #[trigger] b@.take(i) == a@.take(i) && (
            (i == b@.len() && i < a@.len()) || (i < b@.len() && i < a@.len() && b@[i] < a@[i])),
{
    let mut i: usize = 0;
    while i < a.len() && i < b.len()
        invariant
            i <= a@.len(),
            i <= b@.len(),
            a@.take(i as int) == b@.take(i as int),
        decreases a@.len() - i,
    {
        if a[i] != b[i] {
            proof {
                lemma_key_lt_bytewise(a@, b@);
                lemma_key_lt_bytewise(b@, a@);
                lemma_key_lt_skip(a@, b@, i as int);
                lemma_key_lt_skip(b@, a@, i as int);
                assert(a@.skip(i as int)[0] == a@[i as int]);
                assert(b@.skip(i as int)[0] == b@[i as int]);
                assert(a@[i as int] != b@[i as int]);
            }
            if a[i] < b[i] {
                return KeyOrder::Less;
            } else {
                return KeyOrder::Greater;
            }
        }
        proof {
            assert(a@.take(i + 1) =~= a@.take(i as int).push(a@[i as int]));
            assert(b@.take(i + 1) =~= b@.take(i as int).push(b@[i as int]));
        }
        i = i + 1;
    }
    proof {
        lemma_key_lt_bytewise(a@, b@);
        lemma_key_lt_bytewise(b@, a@);
        lemma_key_lt_skip(a@, b@, i as int);
        lemma_key_lt_skip(b@, a@, i as int);
        lemma_key_lt_irreflexive(a@);
    }
    if a.len() == b.len() {
        proof {
            assert(a@ =~= a@.take(i as int));
            assert(b@ =~= b@.take(i as int));
        }
        KeyOrder::Equal
    } else if a.len() < b.len() {
        proof {
            assert(a@.take(i as int) =~= a@);
        }
        KeyOrder::Less
    } else {
        proof {
            assert(b@.take(i as int) =~= b@);
        }
        KeyOrder::Greater
    }
}

} // verus!
