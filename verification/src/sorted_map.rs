use vstd::prelude::*;

verus! {

broadcast use vstd::std_specs::vec::group_vec_axioms;

/// Keys of a sorted map: a strict total order on their views.
pub trait MapKey: View + Sized {
    spec fn key_lt(a: Self::V, b: Self::V) -> bool;

    proof fn lemma_key_order(a: Self::V, b: Self::V, c: Self::V)
        ensures
            !Self::key_lt(a, a),
            Self::key_lt(a, b) && Self::key_lt(b, c) ==> Self::key_lt(a, c),
            a != b ==> Self::key_lt(a, b) || Self::key_lt(b, a),
    ;

    fn key_less(&self, other: &Self) -> (r: bool)
        ensures
            r == Self::key_lt(self@, other@),
    ;

    fn key_same(&self, other: &Self) -> (r: bool)
        ensures
            r == (self@ == other@),
    ;

    fn copy_key(&self) -> (r: Self)
        ensures
            r@ == self@,
    ;
}

/// Whether the keys of `s` strictly increase.
pub open spec fn sorted_keys<K: MapKey, W>(s: Seq<(K::V, W)>) -> bool {
    forall|i: int, j: int| 0 <= i < j < s.len() ==> K::key_lt(#[trigger] s[i].0, #[trigger] s[j].0)
}

/// The first index, from `j` on, whose key is not below `k`.
pub open spec fn first_not_below<K: MapKey, W>(s: Seq<(K::V, W)>, k: K::V, j: int) -> int
    decreases s.len() - j,
{
    if j < 0 || j >= s.len() {
        if j < 0 {
            0
        } else {
            j
        }
    } else if K::key_lt(s[j].0, k) {
        first_not_below::<K, W>(s, k, j + 1)
    } else {
        j
    }
}

/// Where `k` is or belongs.
pub open spec fn slot<K: MapKey, W>(s: Seq<(K::V, W)>, k: K::V) -> int {
    first_not_below::<K, W>(s, k, 0)
}

/// The value stored under `k`.
pub open spec fn get_s<K: MapKey, W>(s: Seq<(K::V, W)>, k: K::V) -> Option<W> {
    let j = slot::<K, W>(s, k);
    if j < s.len() && s[j].0 == k {
        Some(s[j].1)
    } else {
        None
    }
}

/// The entries with `k` mapped to `v`: the entry of `k` replaced, or a new
/// entry in key order.
pub open spec fn insert_s<K: MapKey, W>(s: Seq<(K::V, W)>, k: K::V, v: W) -> Seq<(K::V, W)> {
    let j = slot::<K, W>(s, k);
    if j < s.len() && s[j].0 == k {
        s.update(j, (k, v))
    } else {
        s.insert(j, (k, v))
    }
}

/// The entries without the one of `k`.
pub open spec fn remove_s<K: MapKey, W>(s: Seq<(K::V, W)>, k: K::V) -> Seq<(K::V, W)> {
    let j = slot::<K, W>(s, k);
    if j < s.len() && s[j].0 == k {
        s.remove(j)
    } else {
        s
    }
}

proof fn lemma_first_not_below<K: MapKey, W>(s: Seq<(K::V, W)>, k: K::V, j: int)
    requires
        0 <= j <= s.len(),
        sorted_keys::<K, W>(s),
        forall|i: int| 0 <= i < j ==> K::key_lt(#[trigger] s[i].0, k),
    ensures
        j <= first_not_below::<K, W>(s, k, j) <= s.len(),
        forall|i: int| 0 <= i < first_not_below::<K, W>(s, k, j) ==> K::key_lt(#[trigger] s[i].0, k),
        forall|i: int| first_not_below::<K, W>(s, k, j) <= i < s.len() ==> !K::key_lt(#[trigger] s[i].0, k),
    decreases s.len() - j,
{
    if j < s.len() {
        if K::key_lt(s[j].0, k) {
            lemma_first_not_below::<K, W>(s, k, j + 1);
        } else {
            assert forall|i: int| j <= i < s.len() implies !K::key_lt(#[trigger] s[i].0, k) by {
                if i > j {
                    K::lemma_key_order(s[j].0, s[i].0, k);
                    K::lemma_key_order(k, s[j].0, s[i].0);
                    K::lemma_key_order(s[j].0, k, s[i].0);
                    if K::key_lt(s[i].0, k) {
                        K::lemma_key_order(s[j].0, s[i].0, k);
                        K::lemma_key_order(k, k, k);
                        if s[j].0 == k {
                            K::lemma_key_order(k, s[i].0, k);
                        } else {
                            K::lemma_key_order(k, s[j].0, s[j].0);
                            K::lemma_key_order(s[j].0, s[i].0, s[j].0);
                        }
                    }
                }
            }
        }
    }
}

/// The slot of `k` splits the entries into those below `k` and the rest.
pub proof fn lemma_slot<K: MapKey, W>(s: Seq<(K::V, W)>, k: K::V)
    requires
        sorted_keys::<K, W>(s),
    ensures
        0 <= slot::<K, W>(s, k) <= s.len(),
        forall|i: int| 0 <= i < slot::<K, W>(s, k) ==> K::key_lt(#[trigger] s[i].0, k),
        forall|i: int| slot::<K, W>(s, k) <= i < s.len() ==> !K::key_lt(#[trigger] s[i].0, k),
{
    lemma_first_not_below::<K, W>(s, k, 0);
}

/// Inserting keeps the keys sorted.
pub proof fn lemma_insert_sorted<K: MapKey, W>(s: Seq<(K::V, W)>, k: K::V, v: W)
    requires
        sorted_keys::<K, W>(s),
    ensures
        sorted_keys::<K, W>(insert_s::<K, W>(s, k, v)),
{
    lemma_slot::<K, W>(s, k);
    let j = slot::<K, W>(s, k);
    let r = insert_s::<K, W>(s, k, v);
    if j < s.len() && s[j].0 == k {
        assert forall|a: int, b: int| 0 <= a < b < r.len() implies K::key_lt(#[trigger] r[a].0, #[trigger] r[b].0) by {
            assert(r[a].0 == s[a].0);
            assert(r[b].0 == s[b].0);
        }
    } else {
        assert forall|a: int, b: int| 0 <= a < b < r.len() implies K::key_lt(#[trigger] r[a].0, #[trigger] r[b].0) by {
            if b < j {
                assert(r[a] == s[a] && r[b] == s[b]);
            } else if b == j {
                assert(r[a] == s[a]);
            } else if a < j {
                assert(r[a] == s[a] && r[b] == s[b - 1]);
                K::lemma_key_order(s[b - 1].0, k, s[b - 1].0);
                K::lemma_key_order(s[a].0, k, s[b - 1].0);
            } else if a == j {
                assert(r[b] == s[b - 1]);
                K::lemma_key_order(k, s[b - 1].0, k);
                if j < s.len() {
                    if b - 1 > j {
                        assert(K::key_lt(s[j].0, s[b - 1].0));
                    }
                    K::lemma_key_order(s[b - 1].0, k, s[b - 1].0);
                }
            } else {
                assert(r[a] == s[a - 1] && r[b] == s[b - 1]);
            }
        }
    }
}

/// Removing keeps the keys sorted.
pub proof fn lemma_remove_sorted<K: MapKey, W>(s: Seq<(K::V, W)>, k: K::V)
    requires
        sorted_keys::<K, W>(s),
    ensures
        sorted_keys::<K, W>(remove_s::<K, W>(s, k)),
{
    lemma_slot::<K, W>(s, k);
    let j = slot::<K, W>(s, k);
    let r = remove_s::<K, W>(s, k);
    if j < s.len() && s[j].0 == k {
        assert forall|a: int, b: int| 0 <= a < b < r.len() implies K::key_lt(#[trigger] r[a].0, #[trigger] r[b].0) by {
            let a2 = if a < j { a } else { a + 1 };
            let b2 = if b < j { b } else { b + 1 };
            assert(r[a] == s[a2] && r[b] == s[b2]);
        }
    }
}

/// Inserting the next entry of a sorted sequence into its prefix appends it.
pub proof fn lemma_insert_next<K: MapKey, W>(s: Seq<(K::V, W)>, i: int)
    requires
        sorted_keys::<K, W>(s),
        0 <= i < s.len(),
    ensures
        insert_s::<K, W>(s.subrange(0, i), s[i].0, s[i].1) == s.subrange(0, i + 1),
{
    let p = s.subrange(0, i);
    lemma_slot::<K, W>(p, s[i].0);
    let j = slot::<K, W>(p, s[i].0);
    if j < i {
        assert(K::key_lt(p[j].0, s[i].0));
        K::lemma_key_order(p[j].0, s[i].0, p[j].0);
    }
    assert(j == i);
    assert(p.insert(i, s[i]) =~= s.subrange(0, i + 1));
}

/// A prefix of sorted entries is sorted.
pub proof fn lemma_sorted_prefix<K: MapKey, W>(s: Seq<(K::V, W)>, n: int)
    requires
        sorted_keys::<K, W>(s),
        0 <= n <= s.len(),
    ensures
        sorted_keys::<K, W>(s.subrange(0, n)),
{
    let p = s.subrange(0, n);
    assert forall|i: int, j: int| 0 <= i < j < p.len() implies K::key_lt(
        #[trigger] p[i].0,
        #[trigger] p[j].0,
    ) by {
        assert(p[i] == s[i] && p[j] == s[j]);
        assert(K::key_lt(s[i].0, s[j].0));
    }
}

/// In sorted entries, the value stored under the key of entry `i` is that
/// entry's value.
pub proof fn lemma_get_at<K: MapKey, W>(s: Seq<(K::V, W)>, i: int)
    requires
        sorted_keys::<K, W>(s),
        0 <= i < s.len(),
    ensures
        get_s::<K, W>(s, s[i].0) == Some(s[i].1),
{
    let k = s[i].0;
    lemma_slot::<K, W>(s, k);
    let j = slot::<K, W>(s, k);
    K::lemma_key_order(k, k, k);
    if j < i {
        assert(K::key_lt(s[j].0, k));
        assert(K::key_lt(s[j].0, s[i].0));
        K::lemma_key_order(s[j].0, k, s[j].0);
    } else if j > i {
        assert(!K::key_lt(s[i].0, k));
    }
    assert(j == i);
}

/// A key that no entry has stores nothing.
pub proof fn lemma_get_absent<K: MapKey, W>(s: Seq<(K::V, W)>, k: K::V)
    requires
        sorted_keys::<K, W>(s),
        forall|i: int| 0 <= i < s.len() ==> (#[trigger] s[i]).0 != k,
    ensures
        get_s::<K, W>(s, k) is None,
{
    lemma_slot::<K, W>(s, k);
    let j = slot::<K, W>(s, k);
    if 0 <= j < s.len() {
        assert(s[j].0 != k);
    }
}

/// What a sorted map stores under a key: the value of the entry with that
/// key, or nothing where no entry has it.
pub proof fn lemma_get_cases<K: MapKey, W>(s: Seq<(K::V, W)>, k: K::V)
    requires
        sorted_keys::<K, W>(s),
    ensures
        (exists|i: int| 0 <= i < s.len() && (#[trigger] s[i]).0 == k) ==> ({
            let i = choose|i: int| 0 <= i < s.len() && (#[trigger] s[i]).0 == k;
            get_s::<K, W>(s, k) == Some(s[i].1)
        }),
        !(exists|i: int| 0 <= i < s.len() && (#[trigger] s[i]).0 == k) ==> get_s::<K, W>(s, k) is None,
{
    if exists|i: int| 0 <= i < s.len() && (#[trigger] s[i]).0 == k {
        let i = choose|i: int| 0 <= i < s.len() && (#[trigger] s[i]).0 == k;
        lemma_get_at::<K, W>(s, i);
    } else {
        lemma_get_absent::<K, W>(s, k);
    }
}

/// Reading after writing: after `k` is mapped to `v`, `k` stores `v` and
/// every other key stores what it stored before.
pub proof fn law_get_insert<K: MapKey, W>(s: Seq<(K::V, W)>, k: K::V, v: W, k2: K::V)
    requires
        sorted_keys::<K, W>(s),
    ensures
        get_s::<K, W>(insert_s::<K, W>(s, k, v), k) == Some(v),
        k2 != k ==> get_s::<K, W>(insert_s::<K, W>(s, k, v), k2) == get_s::<K, W>(s, k2),
{
    let r = insert_s::<K, W>(s, k, v);
    lemma_insert_sorted::<K, W>(s, k, v);
    lemma_slot::<K, W>(s, k);
    let j = slot::<K, W>(s, k);
    assert(r[j] == (k, v));
    lemma_get_at::<K, W>(r, j);
    if k2 != k {
        lemma_get_cases::<K, W>(s, k2);
        lemma_get_cases::<K, W>(r, k2);
        let replaced = j < s.len() && s[j].0 == k;
        if exists|i: int| 0 <= i < s.len() && (#[trigger] s[i]).0 == k2 {
            let i = choose|i: int| 0 <= i < s.len() && (#[trigger] s[i]).0 == k2;
            let i2 = if replaced || i < j {
                i
            } else {
                i + 1
            };
            assert(r[i2] == s[i]);
            lemma_get_at::<K, W>(r, i2);
        } else {
            assert forall|i: int| 0 <= i < r.len() implies (#[trigger] r[i]).0 != k2 by {
                if replaced {
                    if i != j {
                        assert(r[i] == s[i]);
                    }
                } else if i < j {
                    assert(r[i] == s[i]);
                } else if i > j {
                    assert(r[i] == s[i - 1]);
                }
            }
            lemma_get_absent::<K, W>(r, k2);
        }
    }
}

/// Whether every key satisfies `p`.
pub open spec fn all_keys<A, W>(s: Seq<(A, W)>, p: spec_fn(A) -> bool) -> bool {
    forall|i: int| 0 <= i < s.len() ==> p(#[trigger] s[i].0)
}

/// Inserting a key that satisfies `p` keeps every key satisfying it.
pub proof fn lemma_insert_keys<K: MapKey, W>(s: Seq<(K::V, W)>, k: K::V, v: W, p: spec_fn(K::V) -> bool)
    requires
        sorted_keys::<K, W>(s),
        all_keys(s, p),
        p(k),
    ensures
        all_keys(insert_s::<K, W>(s, k, v), p),
{
    lemma_slot::<K, W>(s, k);
    let j = slot::<K, W>(s, k);
    let r = insert_s::<K, W>(s, k, v);
    assert forall|i: int| 0 <= i < r.len() implies p(#[trigger] r[i].0) by {
        if j < s.len() && s[j].0 == k {
            if i != j {
                assert(r[i] == s[i]);
            }
        } else if 0 <= j <= s.len() {
            if i < j {
                assert(r[i] == s[i]);
            } else if i > j {
                assert(r[i] == s[i - 1]);
            }
        }
    }
}

/// A map whose entries are kept in increasing key order.
pub struct SortedMap<K: MapKey, W: View> {
    entries: Vec<(K, W)>,
}

/// The views of a sequence of entries.
pub open spec fn entry_views<K: View, W: View>(s: Seq<(K, W)>) -> Seq<(K::V, W::V)> {
    Seq::new(s.len(), |i: int| (s[i].0@, s[i].1@))
}

impl<K: MapKey, W: View> View for SortedMap<K, W> {
    type V = Seq<(K::V, W::V)>;

    closed spec fn view(&self) -> Seq<(K::V, W::V)> {
        entry_views(self.entries@)
    }
}

impl<K: MapKey, W: View> SortedMap<K, W> {
    #[verifier::type_invariant]
    spec fn inv(self) -> bool {
        sorted_keys::<K, W::V>(entry_views(self.entries@))
    }

    /// An empty map.
    pub fn new() -> (r: SortedMap<K, W>)
        ensures
            r@ == Seq::<(K::V, W::V)>::empty(),
    {
        let r = SortedMap { entries: Vec::new() };
        assert(entry_views(r.entries@) =~= Seq::<(K::V, W::V)>::empty());
        r
    }

    /// The number of entries; the keys are in increasing order.
    pub fn len(&self) -> (r: usize)
        ensures
            r == self@.len(),
            sorted_keys::<K, W::V>(self@),
    {
        proof {
            use_type_invariant(self);
        }
        self.entries.len()
    }

    /// The key and value of entry `i`.
    pub fn entry(&self, i: usize) -> (r: (&K, &W))
        requires
            i < self@.len(),
        ensures
            (r.0@, r.1@) == self@[i as int],
    {
        let e = &self.entries[i];
        (&e.0, &e.1)
    }

    /// The slot of `k`, as `slot` defines it.
    fn find_slot(&self, k: &K) -> (r: usize)
        ensures
            r == slot::<K, W::V>(self@, k@),
    {
        let ghost s = self@;
        let mut j: usize = 0;
        while j < self.entries.len()
            invariant
                s == self@,
                j <= s.len(),
                slot::<K, W::V>(s, k@) == first_not_below::<K, W::V>(s, k@, j as int),
            decreases s.len() - j,
        {
            if !self.entries[j].0.key_less(k) {
                return j;
            }
            j = j + 1;
        }
        j
    }

    /// The value stored under `k`.
    pub fn get(&self, k: &K) -> (r: Option<&W>)
        ensures
            r matches Some(v) ==> get_s::<K, W::V>(self@, k@) == Some(v@),
            r is None ==> get_s::<K, W::V>(self@, k@) is None,
    {
        let j = self.find_slot(k);
        if j < self.entries.len() && self.entries[j].0.key_same(k) {
            Some(&self.entries[j].1)
        } else {
            None
        }
    }

    /// Maps `k` to `v`.
    pub fn insert(&mut self, k: K, v: W)
        ensures
            final(self)@ == insert_s::<K, W::V>(old(self)@, k@, v@),
    {
        proof {
            use_type_invariant(&*self);
            lemma_insert_sorted::<K, W::V>(self@, k@, v@);
            lemma_slot::<K, W::V>(self@, k@);
        }
        let j = self.find_slot(&k);
        let ghost s = self@;
        let mut entries: Vec<(K, W)> = Vec::new();
        std::mem::swap(&mut entries, &mut self.entries);
        if j < entries.len() && entries[j].0.key_same(&k) {
            entries.set(j, (k, v));
            assert(entry_views(entries@) =~= s.update(j as int, (k@, v@)));
        } else {
            entries.insert(j, (k, v));
            assert(entry_views(entries@) =~= s.insert(j as int, (k@, v@)));
        }
        self.entries = entries;
    }

    /// Drops the entry of `k`, if any.
    pub fn remove(&mut self, k: &K)
        ensures
            final(self)@ == remove_s::<K, W::V>(old(self)@, k@),
    {
        proof {
            use_type_invariant(&*self);
            lemma_remove_sorted::<K, W::V>(self@, k@);
            lemma_slot::<K, W::V>(self@, k@);
        }
        let j = self.find_slot(k);
        let ghost s = self@;
        let mut entries: Vec<(K, W)> = Vec::new();
        std::mem::swap(&mut entries, &mut self.entries);
        if j < entries.len() && entries[j].0.key_same(k) {
            entries.remove(j);
            assert(entry_views(entries@) =~= s.remove(j as int));
        }
        self.entries = entries;
    }
}

} // verus!
