//! The order of keys: strings compared character by character, by code point.

use vstd::prelude::*;
use vstd::std_specs::iter::IteratorSpec;

verus! {

/// `a` comes before `b`: at the first position where they differ `a` holds
/// the smaller code point, or `a` is a proper prefix of `b`.
pub open spec fn key_lt(a: Seq<char>, b: Seq<char>) -> bool
    decreases a.len(),
{
    if b.len() == 0 {
        false
    } else if a.len() == 0 {
        true
    } else if a.first() == b.first() {
        key_lt(a.drop_first(), b.drop_first())
    } else {
        a.first() < b.first()
    }
}

/// How one key stands to another.
#[derive(Clone, Copy, Debug, PartialEq, Eq, Structural)]
pub enum KeyOrder {
    Before,
    Same,
    After,
}

/// How `a` stands to `b` in the order of keys.
pub open spec fn key_order(a: Seq<char>, b: Seq<char>) -> KeyOrder {
    if a == b {
        KeyOrder::Same
    } else if key_lt(a, b) {
        KeyOrder::Before
    } else {
        KeyOrder::After
    }
}

pub proof fn lemma_key_lt_irreflexive(a: Seq<char>)
    ensures
        !key_lt(a, a),
    decreases a.len(),
{
    if a.len() > 0 {
        lemma_key_lt_irreflexive(a.drop_first());
    }
}

pub proof fn lemma_key_lt_total(a: Seq<char>, b: Seq<char>)
    ensures
        key_lt(a, b) || a == b || key_lt(b, a),
    decreases a.len(),
{
    if a.len() > 0 && b.len() > 0 && a.first() == b.first() {
        lemma_key_lt_total(a.drop_first(), b.drop_first());
        if a.drop_first() == b.drop_first() {
            assert(a =~= seq![a.first()] + a.drop_first());
            assert(b =~= seq![b.first()] + b.drop_first());
        }
    } else if a.len() == 0 && b.len() == 0 {
        assert(a =~= b);
    }
}

pub proof fn lemma_key_lt_asymmetric(a: Seq<char>, b: Seq<char>)
    ensures
        !(key_lt(a, b) && key_lt(b, a)),
    decreases a.len(),
{
    if a.len() > 0 && b.len() > 0 && a.first() == b.first() {
        lemma_key_lt_asymmetric(a.drop_first(), b.drop_first());
    }
}

pub proof fn lemma_key_lt_transitive(a: Seq<char>, b: Seq<char>, c: Seq<char>)
    requires
        key_lt(a, b),
        key_lt(b, c),
    ensures
        key_lt(a, c),
    decreases a.len(),
{
    if a.len() > 0 && b.len() > 0 && c.len() > 0 {
        if a.first() == b.first() && b.first() == c.first() {
            lemma_key_lt_transitive(a.drop_first(), b.drop_first(), c.drop_first());
        }
    }
}

/// Compares two keys.
pub fn compare_keys(a: &str, b: &str) -> (r: KeyOrder)
    ensures
        r == key_order(a@, b@),
{
    broadcast use vstd::string::group_string_axioms;

    let mut ia = a.chars();
    let mut ib = b.chars();
    let ghost mut k: int = 0;
    assert(a@.skip(0) == a@ && b@.skip(0) == b@);
    loop
        invariant
            0 <= k <= a@.len(),
            k <= b@.len(),
            a@.take(k) == b@.take(k),
            key_lt(a@, b@) == key_lt(a@.skip(k), b@.skip(k)),
            key_lt(b@, a@) == key_lt(b@.skip(k), a@.skip(k)),
            ia.remaining() == a@.skip(k),
            ib.remaining() == b@.skip(k),
        decreases a@.len() - k,
    {
        let x = ia.next();
        let y = ib.next();
        match (x, y) {
            (None, None) => {
                assert(a@.take(k) == a@);
                assert(b@.take(k) == b@);
                proof {
                    lemma_key_lt_irreflexive(a@);
                }
                return KeyOrder::Same;
            },
            (None, Some(_)) => {
                assert(a@.len() != b@.len());
                return KeyOrder::Before;
            },
            (Some(_), None) => {
                assert(a@.len() != b@.len());
                return KeyOrder::After;
            },
            (Some(p), Some(q)) => {
                assert(p == a@[k] && q == b@[k]);
                if p != q {
                    return if p < q {
                        KeyOrder::Before
                    } else {
                        KeyOrder::After
                    };
                }
                assert(a@.take(k + 1) == a@.take(k).push(p));
                assert(b@.take(k + 1) == b@.take(k).push(q));
                assert(a@.skip(k).drop_first() == a@.skip(k + 1));
                assert(b@.skip(k).drop_first() == b@.skip(k + 1));
                proof {
                    k = k + 1;
                }
            },
        }
    }
}

} // verus!
