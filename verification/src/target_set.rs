//! A set of strings held in insertion order, with a hash index over their
//! bytes for lookups.

use crate::order::{lemma_str_lt_irreflexive, lemma_str_lt_total, lemma_str_lt_transitive, str_equal, str_less, str_lt, strictly_sorted};
use std::collections::hash_map::DefaultHasher;
use std::collections::HashMap;
use std::hash::Hasher;
use vstd::prelude::*;
use vstd::std_specs::hash::DefaultHasherAdditionalSpecFns;
use vstd::utf8::encode_utf8;

verus! {

broadcast use vstd::std_specs::hash::group_hash_axioms;

/// The characters of each string of a sequence.
pub open spec fn views(s: Seq<String>) -> Seq<Seq<char>> {
    s.map_values(|x: String| x@)
}

/// The index key of a string: its UTF-8 bytes hashed by a fresh
/// `DefaultHasher`.
pub open spec fn key_of(s: Seq<char>) -> u64 {
    DefaultHasher::spec_finish(seq![encode_utf8(s)])
}

/// Computes the index key of a string.
fn key_of_str(s: &str) -> (k: u64)
    ensures
        k == key_of(s@),
{
    let mut h = DefaultHasher::new();
    h.write(s.as_bytes());
    assert(h@ =~= seq![encode_utf8(s@)]);
    h.finish()
}

/// The parts of a set agree: the strings are distinct, each is filed in the
/// index under its key, and the index files nothing else.
pub open spec fn parts_agree(items: Seq<String>, index: Map<u64, Vec<usize>>) -> bool {
    &&& views(items).no_duplicates()
    &&& forall|i: int|
        0 <= i < items.len() ==> {
            &&& #[trigger] index.contains_key(key_of(items[i]@))
            &&& index[key_of(items[i]@)]@.contains(i as usize)
        }
    &&& forall|h: u64, j: int|
        index.contains_key(h) && 0 <= j < index[h]@.len() ==> {
            &&& #[trigger] index[h]@[j] < items.len()
            &&& key_of(items[index[h]@[j] as int]@) == h
        }
}

/// A finite set of strings.
pub struct TargetSet {
    items: Vec<String>,
    index: HashMap<u64, Vec<usize>>,
}

impl std::fmt::Debug for TargetSet {
    /// Formats the members as a set, through `Formatter::debug_set`.
    #[verifier::external_body]
    fn fmt(&self, f: &mut std::fmt::Formatter<'_>) -> std::fmt::Result {
        f.debug_set().entries(self.items.iter()).finish()
    }
}

impl Clone for TargetSet {
    fn clone(&self) -> (c: Self)
        ensures
            c@ == self@,
    {
        TargetSet::from_strings(self.as_vec())
    }
}

/// Merges two strictly increasing lists with no string in common into one
/// strictly increasing list of all their strings.
fn merge_sorted(a: &Vec<String>, b: &Vec<String>) -> (out: Vec<String>)
    requires
        strictly_sorted(views(a@)),
        strictly_sorted(views(b@)),
        forall|x: Seq<char>| views(a@).contains(x) ==> !views(b@).contains(x),
    ensures
        strictly_sorted(views(out@)),
        views(out@).to_set() == views(a@).to_set() + views(b@).to_set(),
        out@.len() == a@.len() + b@.len(),
{
    let mut out: Vec<String> = Vec::new();
    let mut i: usize = 0;
    let mut j: usize = 0;
    let ghost va = views(a@);
    let ghost vb = views(b@);
    assert(views(out@).to_set() =~= va.take(0).to_set() + vb.take(0).to_set());
    while i < a.len() || j < b.len()
        invariant
            va == views(a@),
            vb == views(b@),
            strictly_sorted(va),
            strictly_sorted(vb),
            forall|x: Seq<char>| va.contains(x) ==> !vb.contains(x),
            i <= a@.len(),
            j <= b@.len(),
            out@.len() == i + j,
            strictly_sorted(views(out@)),
            views(out@).to_set() == va.take(i as int).to_set() + vb.take(j as int).to_set(),
            forall|k: int| 0 <= k < out@.len() && i < a@.len() ==> str_lt(#[trigger] views(out@)[k], va[i as int]),
            forall|k: int| 0 <= k < out@.len() && j < b@.len() ==> str_lt(#[trigger] views(out@)[k], vb[j as int]),
        decreases a@.len() + b@.len() - i - j,
    {
        let ghost old_out = views(out@);
        let take_a = if i < a.len() && j < b.len() {
            str_less(a[i].as_str(), b[j].as_str())
        } else {
            i < a.len()
        };
        if take_a {
            let x = a[i].clone();
            out.push(x);
            proof {
                assert(views(out@) =~= old_out.push(va[i as int]));
                assert(va.take(i + 1) =~= va.take(i as int).push(va[i as int]));
                va.take(i as int).lemma_push_to_set_commute(va[i as int]);
                old_out.lemma_push_to_set_commute(va[i as int]);
                assert(views(out@).to_set() =~= va.take(i + 1).to_set() + vb.take(j as int).to_set());
                assert forall|k: int| 0 <= k < out@.len() && i + 1 < a@.len() implies str_lt(#[trigger] views(out@)[k], va[i + 1]) by {
                    assert(str_lt(va[i as int], va[i + 1]));
                    if k < old_out.len() {
                        lemma_str_lt_transitive(old_out[k], va[i as int], va[i + 1]);
                    }
                }
                assert forall|k1: int, k2: int| 0 <= k1 < k2 < views(out@).len() implies str_lt(#[trigger] views(out@)[k1], #[trigger] views(out@)[k2]) by {
                    if k2 < old_out.len() {
                        assert(str_lt(old_out[k1], old_out[k2]));
                    }
                }
            }
            i = i + 1;
        } else {
            let x = b[j].clone();
            out.push(x);
            proof {
                if i < a@.len() {
                    assert(va.contains(va[i as int]));
                    lemma_str_lt_total(va[i as int], vb[j as int]);
                }
                assert(views(out@) =~= old_out.push(vb[j as int]));
                assert(vb.take(j + 1) =~= vb.take(j as int).push(vb[j as int]));
                vb.take(j as int).lemma_push_to_set_commute(vb[j as int]);
                old_out.lemma_push_to_set_commute(vb[j as int]);
                assert(views(out@).to_set() =~= va.take(i as int).to_set() + vb.take(j + 1).to_set());
                assert forall|k: int| 0 <= k < out@.len() && j + 1 < b@.len() implies str_lt(#[trigger] views(out@)[k], vb[j + 1]) by {
                    assert(str_lt(vb[j as int], vb[j + 1]));
                    if k < old_out.len() {
                        lemma_str_lt_transitive(old_out[k], vb[j as int], vb[j + 1]);
                    }
                }
                assert forall|k1: int, k2: int| 0 <= k1 < k2 < views(out@).len() implies str_lt(#[trigger] views(out@)[k1], #[trigger] views(out@)[k2]) by {
                    if k2 < old_out.len() {
                        assert(str_lt(old_out[k1], old_out[k2]));
                    }
                }
            }
            j = j + 1;
        }
    }
    assert(va.take(i as int) =~= va);
    assert(vb.take(j as int) =~= vb);
    out
}

/// A strictly increasing copy of the strings of `v` between `lo` and `hi`.
fn sort_range(v: &Vec<String>, lo: usize, hi: usize) -> (out: Vec<String>)
    requires
        lo <= hi <= v@.len(),
        views(v@).no_duplicates(),
    ensures
        strictly_sorted(views(out@)),
        views(out@).to_set() == views(v@).subrange(lo as int, hi as int).to_set(),
        out@.len() == hi - lo,
    decreases hi - lo,
{
    if hi - lo <= 1 {
        let mut out: Vec<String> = Vec::new();
        if lo < hi {
            out.push(v[lo].clone());
        }
        assert(views(out@) =~= views(v@).subrange(lo as int, hi as int));
        out
    } else {
        let mid = lo + (hi - lo) / 2;
        let a = sort_range(v, lo, mid);
        let b = sort_range(v, mid, hi);
        let ghost whole = views(v@);
        proof {
            assert forall|x: Seq<char>| views(a@).contains(x) implies !views(b@).contains(x) by {
                assert(views(a@).to_set().contains(x));
                assert(whole.subrange(lo as int, mid as int).contains(x));
                let p = choose|p: int| 0 <= p < mid - lo && whole.subrange(lo as int, mid as int)[p] == x;
                if views(b@).contains(x) {
                    assert(views(b@).to_set().contains(x));
                    assert(whole.subrange(mid as int, hi as int).contains(x));
                    let q = choose|q: int| 0 <= q < hi - mid && whole.subrange(mid as int, hi as int)[q] == x;
                    assert(whole[lo + p] == whole[mid + q]);
                }
            }
        }
        let out = merge_sorted(&a, &b);
        proof {
            let sa = whole.subrange(lo as int, mid as int);
            let sb = whole.subrange(mid as int, hi as int);
            assert(whole.subrange(lo as int, hi as int) =~= sa + sb);
            vstd::seq_lib::seq_to_set_distributes_over_add(sa, sb);
        }
        out
    }
}

impl View for TargetSet {
    type V = Set<Seq<char>>;

    closed spec fn view(&self) -> Set<Seq<char>> {
        views(self.items@).to_set()
    }
}

impl TargetSet {
    #[verifier::type_invariant]
    closed spec fn well_formed(self) -> bool {
        parts_agree(self.items@, self.index@)
    }

    /// The members in the order in which they were first added.
    pub closed spec fn members(&self) -> Seq<Seq<char>> {
        views(self.items@)
    }

    /// The members listed once each are the set.
    proof fn lemma_members(&self)
        requires
            self.well_formed(),
        ensures
            self.members().no_duplicates(),
            self.members().to_set() == self@,
            self@.finite(),
            self@.len() == self.members().len(),
    {
        self.members().unique_seq_to_set();
    }

    /// An empty set.
    pub fn new() -> (s: Self)
        ensures
            s@ == Set::<Seq<char>>::empty(),
            s.members() == Seq::<Seq<char>>::empty(),
    {
        let s = TargetSet { items: Vec::new(), index: HashMap::new() };
        assert(views(s.items@).to_set() =~= Set::<Seq<char>>::empty());
        s
    }

    /// The set of the strings of `v`, each kept once.
    pub fn from_strings(v: &Vec<String>) -> (s: Self)
        ensures
            s@ == views(v@).to_set(),
    {
        let mut s = TargetSet::new();
        let n = v.len();
        let mut i: usize = 0;
        while i < n
            invariant
                n == v@.len(),
                i <= n,
                s@ == views(v@).take(i as int).to_set(),
            decreases n - i,
        {
            s.insert(v[i].clone());
            proof {
                assert(views(v@).take(i + 1) =~= views(v@).take(i as int).push(v@[i as int]@));
                views(v@).take(i as int).lemma_push_to_set_commute(v@[i as int]@);
            }
            i = i + 1;
        }
        assert(views(v@).take(n as int) =~= views(v@));
        s
    }

    /// Adds every member of `other`.
    pub fn insert_all(&mut self, other: &TargetSet)
        ensures
            final(self)@ == old(self)@ + other@,
    {
        let v = other.as_vec();
        let n = v.len();
        let mut i: usize = 0;
        while i < n
            invariant
                n == v@.len(),
                i <= n,
                views(v@).to_set() == other@,
                self@ == old(self)@ + views(v@).take(i as int).to_set(),
            decreases n - i,
        {
            self.insert(v[i].clone());
            proof {
                assert(views(v@).take(i + 1) =~= views(v@).take(i as int).push(v@[i as int]@));
                views(v@).take(i as int).lemma_push_to_set_commute(v@[i as int]@);
                assert(self@ =~= old(self)@ + views(v@).take(i + 1).to_set());
            }
            i = i + 1;
        }
        assert(views(v@).take(n as int) =~= views(v@));
    }

    /// Whether both sets have the same members.
    pub fn same_members(&self, other: &TargetSet) -> (r: bool)
        ensures
            r == (self@ == other@),
    {
        let v = self.as_vec();
        if v.len() != other.len() {
            return false;
        }
        let ghost other_finite = other@.finite();
        assert(other_finite);
        let n = v.len();
        let mut i: usize = 0;
        while i < n
            invariant
                n == v@.len(),
                i <= n,
                views(v@).to_set() == self@,
                self@.finite(),
                self@.len() == n,
                other@.len() == n,
                forall|k: int| 0 <= k < i ==> other@.contains(#[trigger] views(v@)[k]),
            decreases n - i,
        {
            if !other.contains(v[i].as_str()) {
                assert(self@.contains(views(v@)[i as int]));
                return false;
            }
            i = i + 1;
        }
        proof {
            assert(self@.subset_of(other@)) by {
                assert forall|x: Seq<char>| self@.contains(x) implies other@.contains(x) by {
                    let k = choose|k: int| 0 <= k < n && views(v@)[k] == x;
                }
            }
            vstd::set_lib::lemma_subset_equality(self@, other@);
        }
        true
    }

    /// Number of members.
    pub fn len(&self) -> (n: usize)
        ensures
            n == self@.len(),
            n == self.members().len(),
            self@.finite(),
    {
        proof {
            use_type_invariant(self);
            self.lemma_members();
        }
        self.items.len()
    }

    /// The members in the order in which they were first added.
    pub fn as_vec(&self) -> (v: &Vec<String>)
        ensures
            views(v@) == self.members(),
            views(v@).no_duplicates(),
            views(v@).to_set() == self@,
            self@.finite(),
            self@.len() == v@.len(),
    {
        proof {
            use_type_invariant(self);
            self.lemma_members();
        }
        &self.items
    }

    /// The members in strictly increasing byte order.
    pub fn sorted(&self) -> (v: Vec<String>)
        ensures
            strictly_sorted(views(v@)),
            views(v@).to_set() == self@,
            v@.len() == self@.len(),
    {
        proof {
            use_type_invariant(self);
            self.lemma_members();
            assert(views(self.items@).subrange(0, self.items@.len() as int) =~= views(self.items@));
        }
        sort_range(&self.items, 0, self.items.len())
    }

    /// Whether `t` is a member.
    pub fn contains(&self, t: &str) -> (r: bool)
        ensures
            r == self@.contains(t@),
    {
        proof {
            use_type_invariant(self);
        }
        let k = key_of_str(t);
        match self.index.get(&k) {
            None => {
                proof {
                    if self@.contains(t@) {
                        let i = choose|i: int| 0 <= i < self.items@.len() && views(self.items@)[i] == t@;
                        assert(self.index@.contains_key(key_of(self.items@[i]@)));
                    }
                }
                false
            },
            Some(bucket) => {
                let n = bucket.len();
                let mut j: usize = 0;
                while j < n
                    invariant
                        n == bucket@.len(),
                        j <= n,
                        self.index@.contains_key(k),
                        self.index@[k] == *bucket,
                        parts_agree(self.items@, self.index@),
                        forall|jj: int| 0 <= jj < j ==> self.items@[bucket@[jj] as int]@ != t@,
                    decreases n - j,
                {
                    let p = bucket[j];
                    assert(p < self.items@.len());
                    if str_equal(self.items[p].as_str(), t) {
                        proof {
                            assert(views(self.items@)[p as int] == t@);
                        }
                        return true;
                    }
                    j = j + 1;
                }
                proof {
                    if self@.contains(t@) {
                        let i = choose|i: int| 0 <= i < self.items@.len() && views(self.items@)[i] == t@;
                        assert(self.items@[i]@ == t@);
                        assert(i < self.items.len());
                        assert(key_of(self.items@[i]@) == k);
                        assert(self.index@[k]@.contains(i as usize));
                        let jj = choose|jj: int| 0 <= jj < bucket@.len() && bucket@[jj] == i as usize;
                        assert(bucket@[jj] as int == i);
                        assert(self.items@[bucket@[jj] as int]@ == t@);
                    }
                }
                false
            },
        }
    }

    /// Adds `s` to the set; a member already there is left as it is.
    pub fn insert(&mut self, s: String)
        ensures
            final(self)@ == old(self)@.insert(s@),
            old(self)@.contains(s@) ==> final(self).members() == old(self).members(),
            !old(self)@.contains(s@) ==> final(self).members() == old(self).members().push(s@),
    {
        if self.contains(s.as_str()) {
            proof {
                assert(old(self)@.insert(s@) =~= old(self)@);
            }
            return;
        }
        let k = key_of_str(s.as_str());
        let mut tmp = TargetSet::new();
        std::mem::swap(self, &mut tmp);
        proof {
            use_type_invariant(&tmp);
        }
        let TargetSet { mut items, mut index } = tmp;
        let ghost old_items = items@;
        let ghost old_index = index@;
        let pos = items.len();
        let mut bucket = match index.remove(&k) {
            Some(b) => b,
            None => Vec::new(),
        };
        let ghost old_bucket = bucket@;
        assert(old_index.contains_key(k) ==> old_bucket == old_index[k]@);
        assert(!old_index.contains_key(k) ==> old_bucket.len() == 0);
        bucket.push(pos);
        items.push(s);
        index.insert(k, bucket);
        proof {
            assert(views(items@) =~= views(old_items).push(s@));
            assert(!views(old_items).contains(s@));
            assert forall|i: int| 0 <= i < items@.len() implies {
                &&& #[trigger] index@.contains_key(key_of(items@[i]@))
                &&& index@[key_of(items@[i]@)]@.contains(i as usize)
            } by {
                assert(index@.contains_key(k));
                assert(index@[k]@ == old_bucket.push(pos));
                if i < old_items.len() {
                    assert(items@[i] == old_items[i]);
                    let key = key_of(items@[i]@);
                    assert(old_index.contains_key(key));
                    assert(old_index[key]@.contains(i as usize));
                    if key == k {
                        let jj = choose|jj: int| 0 <= jj < old_index[k]@.len() && old_index[k]@[jj] == i as usize;
                        assert(index@[k]@[jj] == i as usize);
                    } else {
                        assert(index@[key] == old_index[key]);
                    }
                } else {
                    assert(items@[i] == s);
                    assert(index@[k]@[index@[k]@.len() - 1] == i as usize);
                }
            }
            assert forall|h: u64, j: int|
                index@.contains_key(h) && 0 <= j < index@[h]@.len() implies {
                &&& #[trigger] index@[h]@[j] < items@.len()
                &&& key_of(items@[index@[h]@[j] as int]@) == h
            } by {
                if h != k {
                    assert(old_index.contains_key(h));
                    assert(index@[h] == old_index[h]);
                } else if j < old_bucket.len() {
                    assert(old_index.contains_key(k));
                    assert(index@[h]@[j] == old_index[k]@[j]);
                }
            }
            views(old_items).lemma_push_to_set_commute(s@);
        }
        *self = TargetSet { items, index };
    }
}

} // verus!
