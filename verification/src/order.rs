//! The order of strings by their UTF-8 bytes, as `str`'s `Ord` documents
//! it: lexicographic over the bytes.

use vstd::prelude::*;
use vstd::utf8::{decode_utf8, encode_utf8, encode_utf8_decode_utf8};

verus! {

/// `a` comes strictly before `b` in lexicographic byte order.
pub open spec fn bytes_lt(a: Seq<u8>, b: Seq<u8>) -> bool
    decreases a.len(),
{
    if b.len() == 0 {
        false
    } else if a.len() == 0 {
        true
    } else if a[0] != b[0] {
        a[0] < b[0]
    } else {
        bytes_lt(a.drop_first(), b.drop_first())
    }
}

/// `a` comes strictly before `b` when both are compared by their UTF-8 bytes.
pub open spec fn str_lt(a: Seq<char>, b: Seq<char>) -> bool {
    bytes_lt(encode_utf8(a), encode_utf8(b))
}

/// Every pair of a sequence of strings is in strictly increasing order.
pub open spec fn strictly_sorted(s: Seq<Seq<char>>) -> bool {
    forall|i: int, j: int| 0 <= i < j < s.len() ==> str_lt(#[trigger] s[i], #[trigger] s[j])
}

/// No byte sequence comes before itself.
pub proof fn lemma_bytes_lt_irreflexive(a: Seq<u8>)
    ensures
        !bytes_lt(a, a),
    decreases a.len(),
{
    if a.len() > 0 {
        lemma_bytes_lt_irreflexive(a.drop_first());
    }
}

/// The byte order is transitive.
pub proof fn lemma_bytes_lt_transitive(a: Seq<u8>, b: Seq<u8>, c: Seq<u8>)
    requires
        bytes_lt(a, b),
        bytes_lt(b, c),
    ensures
        bytes_lt(a, c),
    decreases a.len(),
{
    if a.len() > 0 && b.len() > 0 && c.len() > 0 && a[0] == b[0] && b[0] == c[0] {
        lemma_bytes_lt_transitive(a.drop_first(), b.drop_first(), c.drop_first());
    }
}

/// Two distinct byte sequences are ordered one way or the other.
pub proof fn lemma_bytes_lt_total(a: Seq<u8>, b: Seq<u8>)
    requires
        a != b,
    ensures
        bytes_lt(a, b) || bytes_lt(b, a),
    decreases a.len(),
{
    if a.len() == 0 {
        assert(b.len() > 0) by {
            if b.len() == 0 {
                assert(a =~= b);
            }
        }
    } else if b.len() > 0 && a[0] == b[0] {
        assert(a.drop_first() != b.drop_first()) by {
            if a.drop_first() == b.drop_first() {
                assert(a =~= seq![a[0]] + a.drop_first());
                assert(b =~= seq![b[0]] + b.drop_first());
            }
        }
        lemma_bytes_lt_total(a.drop_first(), b.drop_first());
    }
}

/// No string comes before itself.
pub proof fn lemma_str_lt_irreflexive(a: Seq<char>)
    ensures
        !str_lt(a, a),
{
    lemma_bytes_lt_irreflexive(encode_utf8(a));
}

/// The string order is transitive.
pub proof fn lemma_str_lt_transitive(a: Seq<char>, b: Seq<char>, c: Seq<char>)
    requires
        str_lt(a, b),
        str_lt(b, c),
    ensures
        str_lt(a, c),
{
    lemma_bytes_lt_transitive(encode_utf8(a), encode_utf8(b), encode_utf8(c));
}

/// Two distinct strings are ordered one way or the other.
pub proof fn lemma_str_lt_total(a: Seq<char>, b: Seq<char>)
    requires
        a != b,
    ensures
        str_lt(a, b) || str_lt(b, a),
{
    lemma_utf8_injective(a, b);
    lemma_bytes_lt_total(encode_utf8(a), encode_utf8(b));
}

/// Distinct strings have distinct UTF-8 encodings.
pub proof fn lemma_utf8_injective(a: Seq<char>, b: Seq<char>)
    ensures
        encode_utf8(a) == encode_utf8(b) ==> a == b,
{
    encode_utf8_decode_utf8(a);
    encode_utf8_decode_utf8(b);
}

/// `x` with `e` put in its place in the order.
pub open spec fn insert_sorted(x: Seq<Seq<char>>, e: Seq<char>) -> Seq<Seq<char>>
    decreases x.len(),
{
    if x.len() == 0 {
        seq![e]
    } else if str_lt(e, x[0]) {
        seq![e] + x
    } else {
        seq![x[0]] + insert_sorted(x.drop_first(), e)
    }
}

/// Putting a new string in its place keeps a list strictly sorted and adds
/// just that string.
pub proof fn lemma_insert_sorted(x: Seq<Seq<char>>, e: Seq<char>)
    requires
        strictly_sorted(x),
        !x.contains(e),
    ensures
        strictly_sorted(insert_sorted(x, e)),
        insert_sorted(x, e).to_set() == x.to_set().insert(e),
        insert_sorted(x, e).len() == x.len() + 1,
    decreases x.len(),
{
    let r = insert_sorted(x, e);
    if x.len() == 0 {
        assert(r.to_set() =~= x.to_set().insert(e)) by {
            assert(r[0] == e);
        }
    } else if str_lt(e, x[0]) {
        assert forall|i: int, j: int| 0 <= i < j < r.len() implies str_lt(#[trigger] r[i], #[trigger] r[j]) by {
            if i == 0 {
                if j > 1 {
                    assert(str_lt(x[0], x[j - 1]));
                    lemma_str_lt_transitive(e, x[0], x[j - 1]);
                }
            } else {
                assert(str_lt(x[i - 1], x[j - 1]));
            }
        }
        assert(r.to_set() =~= x.to_set().insert(e)) by {
            assert forall|v: Seq<char>| r.to_set().contains(v) implies x.to_set().insert(e).contains(v) by {
                let k = choose|k: int| 0 <= k < r.len() && r[k] == v;
                if k > 0 {
                    assert(x[k - 1] == v);
                }
            }
            assert forall|v: Seq<char>| x.to_set().insert(e).contains(v) implies r.to_set().contains(v) by {
                if v == e {
                    assert(r[0] == e);
                } else {
                    let k = choose|k: int| 0 <= k < x.len() && x[k] == v;
                    assert(r[k + 1] == v);
                }
            }
        }
    } else {
        let t = x.drop_first();
        assert(x[0] != e) by {
            assert(x.contains(x[0]));
        }
        lemma_str_lt_total(x[0], e);
        assert(str_lt(x[0], e));
        assert(strictly_sorted(t)) by {
            assert forall|i: int, j: int| 0 <= i < j < t.len() implies str_lt(#[trigger] t[i], #[trigger] t[j]) by {
                assert(str_lt(x[i + 1], x[j + 1]));
            }
        }
        assert(!t.contains(e)) by {
            if t.contains(e) {
                let k = choose|k: int| 0 <= k < t.len() && t[k] == e;
                assert(x[k + 1] == e);
            }
        }
        lemma_insert_sorted(t, e);
        let rt = insert_sorted(t, e);
        assert(r == seq![x[0]] + rt);
        assert forall|q: int| 0 <= q < rt.len() implies str_lt(x[0], #[trigger] rt[q]) by {
            assert(rt.to_set().contains(rt[q]));
            if rt[q] != e {
                assert(t.to_set().contains(rt[q]));
                let k = choose|k: int| 0 <= k < t.len() && t[k] == rt[q];
                assert(str_lt(x[0], x[k + 1]));
            }
        }
        assert forall|i: int, j: int| 0 <= i < j < r.len() implies str_lt(#[trigger] r[i], #[trigger] r[j]) by {
            if i == 0 {
                assert(r[j] == rt[j - 1]);
            } else {
                assert(r[i] == rt[i - 1]);
                assert(r[j] == rt[j - 1]);
            }
        }
        assert(r.to_set() =~= x.to_set().insert(e)) by {
            assert forall|v: Seq<char>| r.to_set().contains(v) implies x.to_set().insert(e).contains(v) by {
                let k = choose|k: int| 0 <= k < r.len() && r[k] == v;
                if k > 0 {
                    assert(rt.to_set().contains(rt[k - 1]));
                    if v != e {
                        assert(t.to_set().contains(v));
                        let m = choose|m: int| 0 <= m < t.len() && t[m] == v;
                        assert(x[m + 1] == v);
                    }
                }
            }
            assert forall|v: Seq<char>| x.to_set().insert(e).contains(v) implies r.to_set().contains(v) by {
                if v == e {
                    assert(rt.to_set().contains(e));
                    let k = choose|k: int| 0 <= k < rt.len() && rt[k] == e;
                    assert(r[k + 1] == e);
                } else {
                    let k = choose|k: int| 0 <= k < x.len() && x[k] == v;
                    if k > 0 {
                        assert(t[k - 1] == v);
                        assert(t.to_set().contains(v));
                        assert(rt.to_set().contains(v));
                        let m = choose|m: int| 0 <= m < rt.len() && rt[m] == v;
                        assert(r[m + 1] == v);
                    } else {
                        assert(r[0] == v);
                    }
                }
            }
        }
    }
}

/// Every finite set of strings has a strictly sorted listing.
pub proof fn lemma_sorted_listing_exists(s: Set<Seq<char>>)
    requires
        s.finite(),
    ensures
        exists|x: Seq<Seq<char>>| strictly_sorted(x) && x.to_set() == s,
    decreases s.len(),
{
    if s.len() == 0 {
        assert(s =~= Set::<Seq<char>>::empty());
        assert(Seq::<Seq<char>>::empty().to_set() =~= s);
        assert(strictly_sorted(Seq::<Seq<char>>::empty()));
    } else {
        let e = s.choose();
        lemma_sorted_listing_exists(s.remove(e));
        let x = choose|x: Seq<Seq<char>>| strictly_sorted(x) && x.to_set() == s.remove(e);
        assert(!x.contains(e)) by {
            if x.contains(e) {
                assert(x.to_set().contains(e));
            }
        }
        lemma_insert_sorted(x, e);
        assert(insert_sorted(x, e).to_set() =~= s);
    }
}

/// The strictly sorted listing of a set of strings.
pub open spec fn sorted_listing(s: Set<Seq<char>>) -> Seq<Seq<char>> {
    choose|x: Seq<Seq<char>>| strictly_sorted(x) && x.to_set() == s
}

/// Whether `a` comes strictly before `b` in lexicographic byte order.
pub fn bytes_less(a: &[u8], b: &[u8]) -> (r: bool)
    ensures
        r == bytes_lt(a@, b@),
{
    let mut i: usize = 0;
    assert(a@.skip(0) =~= a@);
    assert(b@.skip(0) =~= b@);
    while i < a.len() && i < b.len()
        invariant
            i <= a@.len(),
            i <= b@.len(),
            bytes_lt(a@, b@) == bytes_lt(a@.skip(i as int), b@.skip(i as int)),
        decreases a@.len() - i,
    {
        if a[i] != b[i] {
            return a[i] < b[i];
        }
        assert(a@.skip(i as int).drop_first() =~= a@.skip(i + 1));
        assert(b@.skip(i as int).drop_first() =~= b@.skip(i + 1));
        i = i + 1;
    }
    i < b.len()
}

/// Whether two byte slices hold the same bytes.
pub fn bytes_equal(a: &[u8], b: &[u8]) -> (r: bool)
    ensures
        r == (a@ == b@),
{
    if a.len() != b.len() {
        return false;
    }
    let mut i: usize = 0;
    while i < a.len()
        invariant
            i <= a@.len(),
            a@.len() == b@.len(),
            forall|k: int| 0 <= k < i ==> a@[k] == b@[k],
        decreases a@.len() - i,
    {
        if a[i] != b[i] {
            return false;
        }
        i = i + 1;
    }
    assert(a@ =~= b@);
    true
}

/// Whether `a` comes strictly before `b` by their UTF-8 bytes.
pub fn str_less(a: &str, b: &str) -> (r: bool)
    ensures
        r == str_lt(a@, b@),
{
    bytes_less(a.as_bytes(), b.as_bytes())
}

/// Whether two strings hold the same characters.
pub fn str_equal(a: &str, b: &str) -> (r: bool)
    ensures
        r == (a@ == b@),
{
    proof {
        lemma_utf8_injective(a@, b@);
    }
    bytes_equal(a.as_bytes(), b.as_bytes())
}

} // verus!
