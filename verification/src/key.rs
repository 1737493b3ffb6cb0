//! Byte-string keys and their lexicographic order.

use vstd::prelude::*;

verus! {

/// How two keys compare.
#[derive(Debug, Clone, Copy, PartialEq, Eq, Structural)]
pub enum Order {
    Less,
    Equal,
    Greater,
}

/// `a` comes before `b`: at the first difference `a` has the smaller byte, or `a` is a
/// proper prefix of `b`.
#[verifier::opaque]
pub open spec fn key_lt(a: Seq<u8>, b: Seq<u8>) -> bool
    decreases a.len(),
{
    if b.len() == 0 {
        false
    } else if a.len() == 0 {
        true
    } else if a[0] != b[0] {
        a[0] < b[0]
    } else {
        key_lt(a.skip(1), b.skip(1))
    }
}

/// `a` is `b` or comes before it.
pub open spec fn key_le(a: Seq<u8>, b: Seq<u8>) -> bool {
    a == b || key_lt(a, b)
}

/// No key comes before itself.
pub broadcast proof fn law_key_irreflexive(a: Seq<u8>)
    ensures
        !(#[trigger] key_lt(a, a)),
    decreases a.len(),
{
    reveal(key_lt);
    if a.len() > 0 {
        law_key_irreflexive(a.skip(1));
    }
}

/// The order of keys is transitive.
pub broadcast proof fn law_key_transitive(a: Seq<u8>, b: Seq<u8>, c: Seq<u8>)
    requires
        #[trigger] key_lt(a, b),
        #[trigger] key_lt(b, c),
    ensures
        key_lt(a, c),
    decreases a.len(),
{
    reveal(key_lt);
    if a.len() > 0 && a[0] == b[0] && b[0] == c[0] {
        law_key_transitive(a.skip(1), b.skip(1), c.skip(1));
    }
}

/// Any two keys compare.
pub proof fn law_key_total(a: Seq<u8>, b: Seq<u8>)
    ensures
        key_lt(a, b) || a == b || key_lt(b, a),
    decreases a.len(),
{
    reveal(key_lt);
    if a.len() > 0 && b.len() > 0 && a[0] == b[0] {
        law_key_total(a.skip(1), b.skip(1));
        if a.skip(1) == b.skip(1) {
            assert(a =~= seq![a[0]] + a.skip(1));
            assert(b =~= seq![b[0]] + b.skip(1));
        }
    } else if a.len() == 0 && b.len() == 0 {
        assert(a =~= b);
    }
}

/// The empty key comes before every other key.
pub proof fn law_empty_key_first(a: Seq<u8>)
    ensures
        key_le(Seq::<u8>::empty(), a),
{
    reveal(key_lt);
    if a.len() == 0 {
        assert(a =~= Seq::<u8>::empty());
    }
}

/// A key comes before every longer key that it starts.
pub proof fn law_prefix_first(p: Seq<u8>, s: Seq<u8>)
    requires
        s.len() > 0,
    ensures
        key_lt(p, p + s),
        !key_lt(p + s, p),
    decreases p.len(),
{
    broadcast use group_key_order;

    reveal(key_lt);
    if p.len() > 0 {
        law_prefix_first(p.skip(1), s);
        assert((p + s).skip(1) =~= p.skip(1) + s);
        assert((p + s)[0] == p[0]);
    }
}

/// The first byte in which two keys differ decides, whatever stands before and behind it.
pub proof fn law_first_difference(p: Seq<u8>, x: u8, s: Seq<u8>, y: u8, t: Seq<u8>)
    requires
        x < y,
    ensures
        key_lt(p + seq![x] + s, p + seq![y] + t),
        !key_lt(p + seq![y] + t, p + seq![x] + s),
    decreases p.len(),
{
    broadcast use group_key_order;

    reveal(key_lt);
    let a = p + seq![x] + s;
    let b = p + seq![y] + t;
    if p.len() > 0 {
        law_first_difference(p.skip(1), x, s, y, t);
        assert(a.skip(1) =~= p.skip(1) + seq![x] + s);
        assert(b.skip(1) =~= p.skip(1) + seq![y] + t);
        assert(a[0] == p[0] && b[0] == p[0]);
    } else {
        assert(a[0] == x && b[0] == y);
    }
}

/// The order of keys is the order of byte strings: one comes before another exactly where the
/// two agree up to some place, and there the first one ends and the other goes on, or the first
/// one has the smaller byte.
pub proof fn law_key_lexicographic(a: Seq<u8>, b: Seq<u8>)
    ensures
        key_lt(a, b) <==> exists|i: int|
            0 <= i <= a.len() && i < b.len() && #[trigger] a.take(i) == b.take(i) && (i == a.len()
                || a[i] < b[i]),
        key_le(a, b) <==> a == b || key_lt(a, b),
    decreases a.len(),
{
    reveal(key_lt);
    if a.len() > 0 && b.len() > 0 && a[0] == b[0] {
        let c = a.skip(1);
        let d = b.skip(1);
        law_key_lexicographic(c, d);
        if key_lt(c, d) {
            let j = choose|j: int|
                0 <= j <= c.len() && j < d.len() && #[trigger] c.take(j) == d.take(j) && (j
                    == c.len() || c[j] < d[j]);
            assert(a.take(j + 1) =~= seq![a[0]] + c.take(j));
            assert(b.take(j + 1) =~= seq![b[0]] + d.take(j));
            assert(a.take(j + 1) == b.take(j + 1));
        }
        if exists|i: int|
            0 <= i <= a.len() && i < b.len() && #[trigger] a.take(i) == b.take(i) && (i == a.len()
                || a[i] < b[i]) {
            let i = choose|i: int|
                0 <= i <= a.len() && i < b.len() && #[trigger] a.take(i) == b.take(i) && (i
                    == a.len() || a[i] < b[i]);
            assert(i > 0);
            assert(c.take(i - 1) =~= a.take(i).skip(1));
            assert(d.take(i - 1) =~= b.take(i).skip(1));
            assert(c.take(i - 1) == d.take(i - 1));
        }
    } else if b.len() > 0 {
        assert(a.take(0) =~= b.take(0));
        if exists|i: int|
            0 <= i <= a.len() && i < b.len() && #[trigger] a.take(i) == b.take(i) && (i == a.len()
                || a[i] < b[i]) {
            let i = choose|i: int|
                0 <= i <= a.len() && i < b.len() && #[trigger] a.take(i) == b.take(i) && (i
                    == a.len() || a[i] < b[i]);
            if i > 0 {
                assert(a.take(i)[0] == a[0] && b.take(i)[0] == b[0]);
            }
        }
    }
}

pub broadcast group group_key_order {
    law_key_irreflexive,
    law_key_transitive,
}

/// Compares two keys byte by byte.
pub fn compare(a: &[u8], b: &[u8]) -> (r: Order)
    ensures
        r == Order::Less <==> key_lt(a@, b@),
        r == Order::Equal <==> a@ == b@,
        r == Order::Greater <==> key_lt(b@, a@),
        r == Order::Less <==> exists|i: int|
            0 <= i <= a@.len() && i < b@.len() && #[trigger] a@.take(i) == b@.take(i) && (i
                == a@.len() || a@[i] < b@[i]),
        r == Order::Greater <==> exists|i: int|
            0 <= i <= b@.len() && i < a@.len() && #[trigger] b@.take(i) == a@.take(i) && (i
                == b@.len() || b@[i] < a@[i]),
{
    broadcast use group_key_order;

    proof {
        law_key_lexicographic(a@, b@);
        law_key_lexicographic(b@, a@);
    }
    let mut i: usize = 0;
    proof {
        assert(a@.skip(0) =~= a@);
        assert(b@.skip(0) =~= b@);
    }
    while i < a.len() && i < b.len() && a[i] == b[i]
        invariant
            i <= a@.len(),
            i <= b@.len(),
            key_lt(a@, b@) == key_lt(a@.skip(i as int), b@.skip(i as int)),
            key_lt(b@, a@) == key_lt(b@.skip(i as int), a@.skip(i as int)),
            a@.take(i as int) == b@.take(i as int),
        decreases a@.len() - i,
    {
        proof {
            reveal(key_lt);
            assert(a@.skip(i as int).skip(1) =~= a@.skip(i + 1));
            assert(b@.skip(i as int).skip(1) =~= b@.skip(i + 1));
            assert(a@.take(i + 1) =~= a@.take(i as int).push(a@[i as int]));
            assert(b@.take(i + 1) =~= b@.take(i as int).push(b@[i as int]));
        }
        i += 1;
    }
    proof {
        reveal(key_lt);
    }
    if i == a.len() {
        if i == b.len() {
            assert(a@.take(i as int) =~= a@);
            assert(b@.take(i as int) =~= b@);
            Order::Equal
        } else {
            Order::Less
        }
    } else if i == b.len() {
        Order::Greater
    } else if a[i] < b[i] {
        Order::Less
    } else {
        Order::Greater
    }
}

} // verus!
