//! An in-memory storage source: key/value pairs kept in ascending key order.

use vstd::prelude::*;
use crate::datum::copy_range;

verus! {

/// Byte-wise lexicographic order on keys.
pub open spec fn key_lt(a: Seq<u8>, b: Seq<u8>) -> bool
    decreases a.len(),
{
    if a.len() == 0 {
        b.len() > 0
    } else if b.len() == 0 {
        false
    } else if a[0] != b[0] {
        a[0] < b[0]
    } else {
        key_lt(a.skip(1), b.skip(1))
    }
}

pub proof fn lemma_key_lt_irreflexive(a: Seq<u8>)
    ensures
        !key_lt(a, a),
    decreases a.len(),
{
    if a.len() > 0 {
        lemma_key_lt_irreflexive(a.skip(1));
    }
}

pub proof fn lemma_key_lt_asymmetric(a: Seq<u8>, b: Seq<u8>)
    ensures
        key_lt(a, b) ==> !key_lt(b, a),
    decreases a.len(),
{
    if a.len() > 0 && b.len() > 0 && a[0] == b[0] {
        lemma_key_lt_asymmetric(a.skip(1), b.skip(1));
    }
}

pub proof fn lemma_key_lt_total(a: Seq<u8>, b: Seq<u8>)
    ensures
        a != b ==> key_lt(a, b) || key_lt(b, a),
    decreases a.len(),
{
    if a.len() > 0 && b.len() > 0 && a[0] == b[0] {
        lemma_key_lt_total(a.skip(1), b.skip(1));
        if a.skip(1) == b.skip(1) {
            assert(a =~= seq![a[0]] + a.skip(1));
            assert(b =~= seq![b[0]] + b.skip(1));
        }
    }
    if a.len() == 0 && b.len() == 0 {
        assert(a =~= b);
    }
}

pub proof fn lemma_key_lt_transitive(a: Seq<u8>, b: Seq<u8>, c: Seq<u8>)
    requires
        key_lt(a, b),
        key_lt(b, c),
    ensures
        key_lt(a, c),
    decreases a.len(),
{
    if a.len() > 0 && b.len() > 0 && c.len() > 0 && a[0] == b[0] && b[0] == c[0] {
        lemma_key_lt_transitive(a.skip(1), b.skip(1), c.skip(1));
    }
}

/// Keys strictly ascending.
pub open spec fn sorted(s: Seq<(Seq<u8>, Seq<u8>)>) -> bool {
    forall|i: int, j: int| 0 <= i < j < s.len() ==> key_lt(#[trigger] s[i].0, #[trigger] s[j].0)
}

/// First position at or after `i` whose key is not below `x`.
pub open spec fn lower_bound(s: Seq<(Seq<u8>, Seq<u8>)>, x: Seq<u8>, i: nat) -> nat
    decreases s.len() - i,
{
    if i >= s.len() {
        s.len()
    } else if key_lt(s[i as int].0, x) {
        lower_bound(s, x, i + 1)
    } else {
        i
    }
}

pub proof fn lemma_lower_bound_range(s: Seq<(Seq<u8>, Seq<u8>)>, x: Seq<u8>, i: nat)
    requires
        i <= s.len(),
    ensures
        i <= lower_bound(s, x, i) <= s.len(),
        forall|k: int| i <= k < lower_bound(s, x, i) ==> key_lt(#[trigger] s[k].0, x),
        lower_bound(s, x, i) < s.len() ==> !key_lt(s[lower_bound(s, x, i) as int].0, x),
    decreases s.len() - i,
{
    if i < s.len() && key_lt(s[i as int].0, x) {
        lemma_lower_bound_range(s, x, i + 1);
    }
}

/// `s` with `(k, v)` stored at its place in key order, replacing the value of
/// an equal key.
pub open spec fn insert_sorted(s: Seq<(Seq<u8>, Seq<u8>)>, k: Seq<u8>, v: Seq<u8>) -> Seq<
    (Seq<u8>, Seq<u8>),
> {
    let p = lower_bound(s, k, 0);
    if p < s.len() && s[p as int].0 == k {
        s.update(p as int, (k, v))
    } else {
        s.insert(p as int, (k, v))
    }
}

/// The contents after inserting `pairs` one by one into an empty storage.
pub open spec fn contents_of(pairs: Seq<(Seq<u8>, Seq<u8>)>) -> Seq<(Seq<u8>, Seq<u8>)>
    decreases pairs.len(),
{
    if pairs.len() == 0 {
        Seq::empty()
    } else {
        let last = pairs.last();
        insert_sorted(contents_of(pairs.drop_last()), last.0, last.1)
    }
}

pub proof fn lemma_insert_sorted(s: Seq<(Seq<u8>, Seq<u8>)>, k: Seq<u8>, v: Seq<u8>)
    requires
        sorted(s),
    ensures
        sorted(insert_sorted(s, k, v)),
{
    let p = lower_bound(s, k, 0);
    lemma_lower_bound_range(s, k, 0);
    let t = insert_sorted(s, k, v);
    if p < s.len() && s[p as int].0 == k {
        assert forall|i: int, j: int| 0 <= i < j < t.len() implies key_lt(
            #[trigger] t[i].0,
            #[trigger] t[j].0,
        ) by {
            assert(key_lt(s[i].0, s[j].0));
        }
    } else {
        if p < s.len() {
            lemma_key_lt_total(s[p as int].0, k);
        }
        assert forall|i: int, j: int| 0 <= i < j < t.len() implies key_lt(
            #[trigger] t[i].0,
            #[trigger] t[j].0,
        ) by {
            if i < p && j == p {
            } else if i < p && j > p {
                assert(key_lt(s[i].0, s[p as int].0));
                assert(key_lt(k, s[p as int].0));
                lemma_key_lt_transitive(s[i].0, k, s[p as int].0);
                if j - 1 > p {
                    assert(key_lt(s[p as int].0, s[j - 1].0));
                    lemma_key_lt_transitive(s[i].0, s[p as int].0, s[j - 1].0);
                }
            } else if i == p {
                assert(key_lt(k, s[p as int].0));
                if j - 1 > p {
                    assert(key_lt(s[p as int].0, s[j - 1].0));
                    lemma_key_lt_transitive(k, s[p as int].0, s[j - 1].0);
                }
            } else if i < p {
                assert(key_lt(s[i].0, s[j].0));
            } else {
                assert(key_lt(s[i - 1].0, s[j - 1].0));
            }
        }
    }
}

pub proof fn lemma_contents_sorted(pairs: Seq<(Seq<u8>, Seq<u8>)>)
    ensures
        sorted(contents_of(pairs)),
    decreases pairs.len(),
{
    if pairs.len() > 0 {
        lemma_contents_sorted(pairs.drop_last());
        lemma_insert_sorted(contents_of(pairs.drop_last()), pairs.last().0, pairs.last().1);
    }
}


/// In sorted storage, the lower bound of `x` splits the keys below `x` from
/// the others.
pub proof fn lemma_lower_bound_partition(s: Seq<(Seq<u8>, Seq<u8>)>, x: Seq<u8>, i: int)
    requires
        sorted(s),
        0 <= i < s.len(),
    ensures
        i < lower_bound(s, x, 0) <==> key_lt(s[i].0, x),
{
    lemma_lower_bound_range(s, x, 0);
    let lb = lower_bound(s, x, 0) as int;
    if i > lb && key_lt(s[i].0, x) {
        assert(key_lt(s[lb].0, s[i].0));
        lemma_key_lt_transitive(s[lb].0, s[i].0, x);
    }
}

/// Whether key `a` sorts before key `b`.
pub fn key_less(a: &[u8], b: &[u8]) -> (r: bool)
    ensures
        r == key_lt(a@, b@),
{
    let la: usize = a.len();
    let lb: usize = b.len();
    let mut i: usize = 0;
    assert(a@.skip(0) =~= a@);
    assert(b@.skip(0) =~= b@);
    while i < la && i < lb
        invariant
            la == a@.len(),
            lb == b@.len(),
            i <= la,
            i <= lb,
            key_lt(a@, b@) == key_lt(a@.skip(i as int), b@.skip(i as int)),
        decreases la - i,
    {
        if a[i] != b[i] {
            return a[i] < b[i];
        }
        assert(a@.skip(i as int).skip(1) =~= a@.skip(i + 1));
        assert(b@.skip(i as int).skip(1) =~= b@.skip(i + 1));
        i = i + 1;
    }
    i < lb
}

/// Whether two keys are equal.
pub fn key_eq(a: &[u8], b: &[u8]) -> (r: bool)
    ensures
        r == (a@ == b@),
{
    let la: usize = a.len();
    if la != b.len() {
        return false;
    }
    let mut i: usize = 0;
    while i < la
        invariant
            la == a@.len() == b@.len(),
            i <= la,
            a@.subrange(0, i as int) == b@.subrange(0, i as int),
        decreases la - i,
    {
        if a[i] != b[i] {
            return false;
        }
        assert(a@.subrange(0, i + 1) == a@.subrange(0, i as int).push(a@[i as int]));
        assert(b@.subrange(0, i + 1) == b@.subrange(0, i as int).push(b@[i as int]));
        i = i + 1;
    }
    assert(a@ == a@.subrange(0, la as int));
    assert(b@ == b@.subrange(0, la as int));
    true
}

/// Key/value pairs held in memory, in ascending key order.
pub struct FixtureStorage {
    pairs: Vec<(Vec<u8>, Vec<u8>)>,
}

/// The byte strings of a vector of pairs.
pub open spec fn pairs_view(v: Seq<(Vec<u8>, Vec<u8>)>) -> Seq<(Seq<u8>, Seq<u8>)> {
    Seq::new(v.len(), |k: int| (v[k].0@, v[k].1@))
}

impl View for FixtureStorage {
    type V = Seq<(Seq<u8>, Seq<u8>)>;

    closed spec fn view(&self) -> Seq<(Seq<u8>, Seq<u8>)> {
        pairs_view(self.pairs@)
    }
}

impl FixtureStorage {
    /// A storage with no pairs.
    pub fn new() -> (r: FixtureStorage)
        ensures
            r@ == Seq::<(Seq<u8>, Seq<u8>)>::empty(),
            sorted(r@),
    {
        let r = FixtureStorage { pairs: Vec::new() };
        assert(r@ =~= Seq::<(Seq<u8>, Seq<u8>)>::empty());
        r
    }

    /// A storage holding `pairs`; of pairs with equal keys the last one stays.
    pub fn from(pairs: Vec<(Vec<u8>, Vec<u8>)>) -> (r: FixtureStorage)
        ensures
            r@ == contents_of(pairs_view(pairs@)),
            sorted(r@),
    {
        let mut s = FixtureStorage::new();
        let n: usize = pairs.len();
        let mut i: usize = 0;
        while i < n
            invariant
                i <= n == pairs@.len(),
                s@ == contents_of(pairs_view(pairs@).subrange(0, i as int)),
            decreases n - i,
        {
            let k = &pairs[i].0;
            let v = &pairs[i].1;
            let kc = copy_range(k.as_slice(), 0, k.len());
            let vc = copy_range(v.as_slice(), 0, v.len());
            assert(kc@ =~= k@);
            assert(vc@ =~= v@);
            let ghost prev = s@;
            s.insert(kc, vc);
            proof {
                let ps = pairs_view(pairs@).subrange(0, i + 1);
                assert(ps.drop_last() =~= pairs_view(pairs@).subrange(0, i as int));
                assert(ps.last() == (k@, v@));
                assert(contents_of(ps) == insert_sorted(prev, k@, v@));
            }
            i = i + 1;
        }
        assert(pairs_view(pairs@).subrange(0, n as int) =~= pairs_view(pairs@));
        proof {
            lemma_contents_sorted(pairs_view(pairs@));
        }
        s
    }

    /// Stores `value` under `key`, replacing any value the key had.
    pub fn insert(&mut self, key: Vec<u8>, value: Vec<u8>)
        ensures
            final(self)@ == insert_sorted(old(self)@, key@, value@),
            sorted(old(self)@) ==> sorted(final(self)@),
    {
        let n: usize = self.pairs.len();
        let mut p: usize = 0;
        while p < n && key_less(self.pairs[p].0.as_slice(), key.as_slice())
            invariant
                n == self.pairs@.len(),
                p <= n,
                lower_bound(self@, key@, 0) == lower_bound(self@, key@, p as nat),
            decreases n - p,
        {
            p = p + 1;
        }
        let ghost s = self@;
        if p < n && key_eq(self.pairs[p].0.as_slice(), key.as_slice()) {
            self.pairs.set(p, (key, value));
            assert(self@ =~= s.update(p as int, (key@, value@)));
        } else {
            self.pairs.insert(p, (key, value));
            assert(self@ =~= s.insert(p as int, (key@, value@)));
        }
        proof {
            if sorted(s) {
                lemma_insert_sorted(s, key@, value@);
            }
        }
    }

    /// Number of pairs.
    pub fn len(&self) -> (r: usize)
        ensures
            r == self@.len(),
    {
        self.pairs.len()
    }

    /// The key of the `i`-th pair.
    pub fn key_at(&self, i: usize) -> (r: &[u8])
        requires
            i < self@.len(),
        ensures
            r@ == self@[i as int].0,
    {
        self.pairs[i].0.as_slice()
    }

    /// The value of the `i`-th pair.
    pub fn value_at(&self, i: usize) -> (r: &[u8])
        requires
            i < self@.len(),
        ensures
            r@ == self@[i as int].1,
    {
        self.pairs[i].1.as_slice()
    }

    /// Position of the first pair whose key is not below `x`.
    pub fn lower_bound(&self, x: &[u8]) -> (r: usize)
        ensures
            r == lower_bound(self@, x@, 0),
    {
        let n: usize = self.pairs.len();
        let mut p: usize = 0;
        while p < n && key_less(self.pairs[p].0.as_slice(), x)
            invariant
                n == self@.len(),
                p <= n,
                lower_bound(self@, x@, 0) == lower_bound(self@, x@, p as nat),
            decreases n - p,
        {
            p = p + 1;
        }
        p
    }

    /// Whether the data read so far could not be cached; unknown for data
    /// held in memory.
    pub fn met_uncacheable_data(&self) -> (r: Option<bool>)
        ensures
            r is None,
    {
        None
    }
}

} // verus!
