use crate::names::{chars_lt, lemma_chars_order, names_less};
use crate::natural::Natural;
use crate::sorted_map::{
    get_s, insert_s, law_get_insert, lemma_get_absent, lemma_insert_sorted, lemma_slot,
    lemma_sorted_prefix, slot, sorted_keys, MapKey, SortedMap,
};
use crate::symbol::{share, Symbol};
use std::cmp::Ordering;
use std::sync::Arc;
use vstd::prelude::*;

verus! {

impl MapKey for Arc<Symbol> {
    open spec fn key_lt(a: Seq<char>, b: Seq<char>) -> bool {
        chars_lt(a, b)
    }

    proof fn lemma_key_order(a: Seq<char>, b: Seq<char>, c: Seq<char>) {
        lemma_chars_order(a, b, c);
    }

    fn key_less(&self, other: &Arc<Symbol>) -> (r: bool) {
        names_less(self.name(), other.name())
    }

    fn key_same(&self, other: &Arc<Symbol>) -> (r: bool) {
        self.same(other)
    }

    fn copy_key(&self) -> (r: Arc<Symbol>) {
        share(self)
    }
}

/// The model of a monomial: its symbols in increasing name order, each with
/// its degree.
pub type TermV = Seq<(Seq<char>, nat)>;

/// The degree of `sym` in a monomial: zero where it does not occur.
pub open spec fn deg_s(t: TermV, sym: Seq<char>) -> nat {
    match get_s::<Arc<Symbol>, nat>(t, sym) {
        Some(d) => d,
        None => 0,
    }
}

/// The sum of the degrees.
pub open spec fn total_s(t: TermV) -> nat
    decreases t.len(),
{
    if t.len() == 0 {
        0
    } else {
        total_s(t.subrange(0, t.len() - 1)) + t[t.len() - 1].1
    }
}

/// `acc` with each entry of `e` in turn added in: its degree inserted, or
/// added to the degree already there.
pub open spec fn merge_all(acc: TermV, e: TermV) -> TermV
    decreases e.len(),
{
    if e.len() == 0 {
        acc
    } else {
        let a2 = merge_all(acc, e.subrange(0, e.len() - 1));
        let (k, b) = e[e.len() - 1];
        insert_s::<Arc<Symbol>, nat>(
            a2,
            k,
            match get_s::<Arc<Symbol>, nat>(a2, k) {
                Some(a) => a + b,
                None => b,
            },
        )
    }
}

/// The product of two monomials: the entries of both merged, degrees of a
/// shared symbol added.
pub open spec fn term_mul_s(a: TermV, b: TermV) -> TermV {
    merge_all(Seq::empty(), a + b)
}

/// `acc` with each symbol of `e` inserted with its degree times `n`.
pub open spec fn scale_all(acc: TermV, e: TermV, n: nat) -> TermV
    decreases e.len(),
{
    if e.len() == 0 {
        acc
    } else {
        let a2 = scale_all(acc, e.subrange(0, e.len() - 1), n);
        insert_s::<Arc<Symbol>, nat>(a2, e[e.len() - 1].0, n * e[e.len() - 1].1)
    }
}

/// A monomial raised to the power `n`: every degree times `n`.
pub open spec fn term_pow_s(t: TermV, n: nat) -> TermV {
    scale_all(Seq::empty(), t, n)
}

/// Whether every symbol listed in `b` has in `a` the degree `b` gives it.
pub open spec fn term_eq_s(a: TermV, b: TermV) -> bool {
    forall|i: int| 0 <= i < b.len() ==> deg_s(a, #[trigger] b[i].0) == b[i].1
}

/// Comparison by the symbols listed in `b`, from entry `i` on: the first
/// whose degree in `a` differs from the one in `b` decides.
pub open spec fn term_order_from(a: TermV, b: TermV, i: int) -> Ordering
    decreases b.len() - i,
{
    if i < 0 || i >= b.len() {
        Ordering::Equal
    } else {
        let d = deg_s(a, b[i].0);
        if d > b[i].1 {
            Ordering::Greater
        } else if d < b[i].1 {
            Ordering::Less
        } else {
            term_order_from(a, b, i + 1)
        }
    }
}

/// A monomial: symbols with their degrees, kept in increasing name order.
pub struct Term(pub SortedMap<Arc<Symbol>, Natural>);

impl View for Term {
    type V = TermV;

    open spec fn view(&self) -> TermV {
        self.0@
    }
}

impl Term {
    /// The monomial one: no symbol.
    pub fn empty() -> (r: Term)
        ensures
            r@ == Seq::<(Seq<char>, nat)>::empty(),
    {
        Term(SortedMap::new())
    }

    /// The monomial `sym`.
    pub fn from_symbol(sym: &Arc<Symbol>) -> (r: Term)
        ensures
            r@ == seq![(sym@, 1nat)],
    {
        let mut m = SortedMap::new();
        m.insert(share(sym), Natural::one());
        proof {
            lemma_slot::<Arc<Symbol>, nat>(Seq::empty(), sym@);
            assert(m@ =~= seq![(sym@, 1nat)]);
        }
        Term(m)
    }

    /// The degree of `sym`, zero where it does not occur.
    pub fn degree(&self, sym: &Arc<Symbol>) -> (r: Natural)
        ensures
            r@ == deg_s(self@, sym@),
    {
        match self.0.get(sym) {
            Some(t) => t.duplicate(),
            None => Natural::zero(),
        }
    }

    /// The sum of the degrees.
    pub fn total_degree(&self) -> (r: Natural)
        ensures
            r@ == total_s(self@),
    {
        let ghost t = self@;
        let mut sum = Natural::zero();
        let n = self.0.len();
        for i in 0..n
            invariant
                t == self@,
                n == t.len(),
                sum@ == total_s(t.subrange(0, i as int)),
        {
            let (_, d) = self.0.entry(i);
            proof {
                assert(t.subrange(0, i + 1).subrange(0, i as int) =~= t.subrange(0, i as int));
            }
            sum = sum.plus(d);
        }
        proof {
            assert(t.subrange(0, t.len() as int) =~= t);
        }
        sum
    }

    /// A copy of the monomial.
    pub fn duplicate(&self) -> (r: Term)
        ensures
            r@ == self@,
    {
        let ghost t = self@;
        let mut m: SortedMap<Arc<Symbol>, Natural> = SortedMap::new();
        let n = self.0.len();
        for i in 0..n
            invariant
                t == self@,
                n == t.len(),
                sorted_keys::<Arc<Symbol>, nat>(t),
                m@ == t.subrange(0, i as int),
        {
            let (k, d) = self.0.entry(i);
            proof {
                lemma_append_sorted(t, i as int);
            }
            m.insert(share(k), d.duplicate());
        }
        proof {
            assert(t.subrange(0, t.len() as int) =~= t);
        }
        Term(m)
    }

    /// Whether every symbol of `other` has here the degree it has there.
    /// Only `other`'s symbols are looked at, so the test is not symmetric:
    /// `x*y` equals `x`, but `x` does not equal `x*y`.
    pub fn eq(&self, other: &Term) -> (r: bool)
        ensures
            r == term_eq_s(self@, other@),
    {
        let ghost b = other@;
        let n = other.0.len();
        for i in 0..n
            invariant
                b == other@,
                n == b.len(),
                forall|k: int| 0 <= k < i ==> deg_s(self@, #[trigger] b[k].0) == b[k].1,
        {
            let (sym, deg) = other.0.entry(i);
            if !self.degree(sym).same(deg) {
                assert(deg_s(self@, b[i as int].0) != b[i as int].1);
                return false;
            }
        }
        true
    }

    /// Compares by the symbols of `other`, in order: the first whose degree
    /// here differs from its degree there decides. Only `other`'s symbols
    /// are looked at, so this is not the order monomials are kept in (that
    /// is `term_lt`), and it is not antisymmetric.
    pub fn partial_compare(&self, other: &Term) -> (r: Option<Ordering>)
        ensures
            r == Some(term_order_from(self@, other@, 0)),
    {
        let ghost b = other@;
        let ghost mut at: int = 0;
        let n = other.0.len();
        let mut i: usize = 0;
        while i < n
            invariant
                b == other@,
                n == b.len(),
                at == i,
                i <= n,
                term_order_from(self@, b, 0) == term_order_from(self@, b, at),
            decreases n - i,
        {
            let (sym, deg) = other.0.entry(i);
            let d = self.degree(sym);
            if deg.less(&d) {
                return Some(Ordering::Greater);
            }
            if d.less(deg) {
                return Some(Ordering::Less);
            }
            i = i + 1;
            proof {
                at = at + 1;
            }
        }
        Some(Ordering::Equal)
    }

    /// The product: degrees of a shared symbol added.
    pub fn mul(&self, rhs: &Term) -> (r: Term)
        ensures
            r@ == term_mul_s(self@, rhs@),
    {
        let ghost a = self@;
        let ghost e = self@ + rhs@;
        let mut m: SortedMap<Arc<Symbol>, Natural> = SortedMap::new();
        let n1 = self.0.len();
        for i in 0..n1
            invariant
                a == self@,
                e == self@ + rhs@,
                n1 == a.len(),
                m@ == merge_all(Seq::empty(), e.subrange(0, i as int)),
        {
            let (k, b) = self.0.entry(i);
            proof {
                assert(e.subrange(0, i + 1).subrange(0, i as int) =~= e.subrange(0, i as int));
                assert(e[i as int] == (k@, b@));
            }
            let v = match m.get(k) {
                Some(x) => x.plus(b),
                None => b.duplicate(),
            };
            m.insert(share(k), v);
        }
        let n2 = rhs.0.len();
        for j in 0..n2
            invariant
                a == self@,
                e == self@ + rhs@,
                n1 == a.len(),
                n2 == rhs@.len(),
                m@ == merge_all(Seq::empty(), e.subrange(0, n1 + j)),
        {
            let (k, b) = rhs.0.entry(j);
            proof {
                assert(e.subrange(0, n1 + j + 1).subrange(0, n1 + j) =~= e.subrange(0, n1 + j));
                assert(e[n1 + j] == (k@, b@));
            }
            let v = match m.get(k) {
                Some(x) => x.plus(b),
                None => b.duplicate(),
            };
            m.insert(share(k), v);
        }
        proof {
            assert(e.subrange(0, e.len() as int) =~= e);
        }
        Term(m)
    }

    /// Every degree times `rhs`.
    pub fn pow(&self, rhs: &Natural) -> (r: Term)
        ensures
            r@ == term_pow_s(self@, rhs@),
    {
        let ghost t = self@;
        let mut m: SortedMap<Arc<Symbol>, Natural> = SortedMap::new();
        let n = self.0.len();
        for i in 0..n
            invariant
                t == self@,
                n == t.len(),
                m@ == scale_all(Seq::empty(), t.subrange(0, i as int), rhs@),
        {
            let (k, b) = self.0.entry(i);
            proof {
                assert(t.subrange(0, i + 1).subrange(0, i as int) =~= t.subrange(0, i as int));
            }
            m.insert(share(k), rhs.times(b));
        }
        proof {
            assert(t.subrange(0, t.len() as int) =~= t);
        }
        Term(m)
    }

    /// The entries a hash of the monomial is made of: those whose degree is
    /// not zero, in order.
    pub fn hash_entries(&self) -> (r: Vec<(Arc<Symbol>, Natural)>)
        ensures
            r@.len() == nonzero_entries(self@).len(),
            forall|i: int|
                0 <= i < r@.len() ==> ((#[trigger] r@[i]).0@, r@[i].1@) == nonzero_entries(self@)[i],
    {
        let ghost t = self@;
        let mut out: Vec<(Arc<Symbol>, Natural)> = Vec::new();
        let n = self.0.len();
        for i in 0..n
            invariant
                t == self@,
                n == t.len(),
                out@.len() == nonzero_entries(t.subrange(0, i as int)).len(),
                forall|k: int|
                    0 <= k < out@.len() ==> ((#[trigger] out@[k]).0@, out@[k].1@) == nonzero_entries(
                        t.subrange(0, i as int),
                    )[k],
        {
            let (sym, deg) = self.0.entry(i);
            proof {
                assert(t.subrange(0, i + 1).subrange(0, i as int) =~= t.subrange(0, i as int));
            }
            if !deg.is_zero() {
                out.push((share(sym), deg.duplicate()));
            }
        }
        proof {
            assert(t.subrange(0, n as int) =~= t);
        }
        out
    }

    /// The number of symbols listed.
    pub fn len(&self) -> (r: usize)
        ensures
            r == self@.len(),
            sorted_keys::<Arc<Symbol>, nat>(self@),
    {
        self.0.len()
    }

    /// Drops `sym` from the monomial.
    pub fn remove(&mut self, sym: &Arc<Symbol>)
        ensures
            final(self)@ == crate::sorted_map::remove_s::<Arc<Symbol>, nat>(old(self)@, sym@),
    {
        self.0.remove(sym)
    }

    /// Lists `sym` with degree `deg`.
    pub fn insert(&mut self, sym: Arc<Symbol>, deg: Natural)
        ensures
            final(self)@ == insert_s::<Arc<Symbol>, nat>(old(self)@, sym@, deg@),
    {
        self.0.insert(sym, deg)
    }
}

/// The sum of the degrees listed for `sym`, over every entry.
pub open spec fn key_sum(e: TermV, sym: Seq<char>) -> nat
    decreases e.len(),
{
    if e.len() == 0 {
        0
    } else {
        let last = e[e.len() - 1];
        key_sum(e.subrange(0, e.len() - 1), sym) + if last.0 == sym {
            last.1
        } else {
            0
        }
    }
}

proof fn lemma_key_sum_concat(a: TermV, b: TermV, sym: Seq<char>)
    ensures
        key_sum(a + b, sym) == key_sum(a, sym) + key_sum(b, sym),
    decreases b.len(),
{
    if b.len() == 0 {
        assert(a + b =~= a);
    } else {
        let bp = b.subrange(0, b.len() - 1);
        lemma_key_sum_concat(a, bp, sym);
        assert((a + b).subrange(0, (a + b).len() - 1) =~= a + bp);
    }
}

/// In a monomial, the degrees listed for `sym` add up to its degree.
proof fn lemma_key_sum_sorted(t: TermV, sym: Seq<char>)
    requires
        sorted_keys::<Arc<Symbol>, nat>(t),
    ensures
        key_sum(t, sym) == deg_s(t, sym),
    decreases t.len(),
{
    if t.len() == 0 {
        lemma_get_absent::<Arc<Symbol>, nat>(t, sym);
    } else {
        let n = t.len() - 1;
        let p = t.subrange(0, n);
        lemma_sorted_prefix::<Arc<Symbol>, nat>(t, n);
        lemma_key_sum_sorted(p, sym);
        lemma_append_sorted(t, n);
        assert(t.subrange(0, n + 1) =~= t);
        law_get_insert::<Arc<Symbol>, nat>(p, t[n].0, t[n].1, sym);
        if t[n].0 == sym {
            assert forall|i: int| 0 <= i < p.len() implies (#[trigger] p[i]).0 != sym by {
                assert(chars_lt(t[i].0, t[n].0));
                lemma_chars_order(sym, sym, sym);
            }
            lemma_get_absent::<Arc<Symbol>, nat>(p, sym);
        }
    }
}

proof fn lemma_merge_all(acc: TermV, e: TermV, sym: Seq<char>)
    requires
        sorted_keys::<Arc<Symbol>, nat>(acc),
    ensures
        sorted_keys::<Arc<Symbol>, nat>(merge_all(acc, e)),
        deg_s(merge_all(acc, e), sym) == deg_s(acc, sym) + key_sum(e, sym),
    decreases e.len(),
{
    if e.len() > 0 {
        let ep = e.subrange(0, e.len() - 1);
        lemma_merge_all(acc, ep, sym);
        let a2 = merge_all(acc, ep);
        let (k, b) = e[e.len() - 1];
        let v = match get_s::<Arc<Symbol>, nat>(a2, k) {
            Some(a) => a + b,
            None => b,
        };
        lemma_insert_sorted::<Arc<Symbol>, nat>(a2, k, v);
        law_get_insert::<Arc<Symbol>, nat>(a2, k, v, sym);
    }
}

/// Multiplying monomials adds the degrees of every symbol.
pub proof fn law_mul_degree(a: TermV, b: TermV, sym: Seq<char>)
    requires
        sorted_keys::<Arc<Symbol>, nat>(a),
        sorted_keys::<Arc<Symbol>, nat>(b),
    ensures
        deg_s(term_mul_s(a, b), sym) == deg_s(a, sym) + deg_s(b, sym),
        sorted_keys::<Arc<Symbol>, nat>(term_mul_s(a, b)),
{
    let e = Seq::<(Seq<char>, nat)>::empty();
    lemma_get_absent::<Arc<Symbol>, nat>(e, sym);
    lemma_merge_all(e, a + b, sym);
    lemma_key_sum_concat(a, b, sym);
    lemma_key_sum_sorted(a, sym);
    lemma_key_sum_sorted(b, sym);
}

proof fn lemma_scale_all(t: TermV, i: int, n: nat, sym: Seq<char>)
    requires
        sorted_keys::<Arc<Symbol>, nat>(t),
        0 <= i <= t.len(),
    ensures
        sorted_keys::<Arc<Symbol>, nat>(scale_all(Seq::empty(), t.subrange(0, i), n)),
        deg_s(scale_all(Seq::empty(), t.subrange(0, i), n), sym) == n * deg_s(t.subrange(0, i), sym),
    decreases i,
{
    let e = Seq::<(Seq<char>, nat)>::empty();
    if i == 0 {
        lemma_get_absent::<Arc<Symbol>, nat>(e, sym);
        assert(t.subrange(0, 0) =~= e);
        assert(deg_s(e, sym) == 0);
        assert(n * 0 == 0) by (nonlinear_arith);
    } else {
        let p = t.subrange(0, i - 1);
        lemma_scale_all(t, i - 1, n, sym);
        assert(t.subrange(0, i).subrange(0, i - 1) =~= p);
        let x = scale_all(e, p, n);
        let (k, d) = t[i - 1];
        lemma_insert_sorted::<Arc<Symbol>, nat>(x, k, n * d);
        law_get_insert::<Arc<Symbol>, nat>(x, k, n * d, sym);
        lemma_sorted_prefix::<Arc<Symbol>, nat>(t, i - 1);
        lemma_append_sorted(t, i - 1);
        law_get_insert::<Arc<Symbol>, nat>(p, k, d, sym);
        let before = deg_s(p, sym);
        if k == sym {
            assert forall|a: int| 0 <= a < p.len() implies (#[trigger] p[a]).0 != sym by {
                assert(chars_lt(t[a].0, t[i - 1].0));
                lemma_chars_order(sym, sym, sym);
            }
            lemma_get_absent::<Arc<Symbol>, nat>(p, sym);
            assert(deg_s(t.subrange(0, i), sym) == d);
            assert(deg_s(insert_s::<Arc<Symbol>, nat>(x, k, n * d), sym) == n * d);
        } else {
            assert(deg_s(t.subrange(0, i), sym) == before);
            assert(deg_s(insert_s::<Arc<Symbol>, nat>(x, k, n * d), sym) == deg_s(x, sym));
        }
    }
}

/// Raising a monomial to the power `n` multiplies the degree of every
/// symbol by `n`.
pub proof fn law_pow_degree(t: TermV, n: nat, sym: Seq<char>)
    requires
        sorted_keys::<Arc<Symbol>, nat>(t),
    ensures
        deg_s(term_pow_s(t, n), sym) == n * deg_s(t, sym),
{
    lemma_scale_all(t, t.len() as int, n, sym);
    assert(t.subrange(0, t.len() as int) =~= t);
}

/// The entries whose degree is not zero: what a monomial's hash is made
/// of.
pub open spec fn nonzero_entries(t: TermV) -> TermV
    decreases t.len(),
{
    if t.len() == 0 {
        t
    } else {
        let p = nonzero_entries(t.subrange(0, t.len() - 1));
        if t[t.len() - 1].1 == 0 {
            p
        } else {
            p.push(t[t.len() - 1])
        }
    }
}

/// Every monomial equals itself.
pub proof fn law_term_eq_reflexive(t: TermV)
    requires
        sorted_keys::<Arc<Symbol>, nat>(t),
    ensures
        term_eq_s(t, t),
{
    assert forall|i: int| 0 <= i < t.len() implies deg_s(t, #[trigger] t[i].0) == t[i].1 by {
        crate::sorted_map::lemma_get_at::<Arc<Symbol>, nat>(t, i);
    }
}

/// Order on the entries of monomials: by name, then by degree.
pub open spec fn entry_lt(x: (Seq<char>, nat), y: (Seq<char>, nat)) -> bool {
    chars_lt(x.0, y.0) || (x.0 == y.0 && x.1 < y.1)
}

proof fn lemma_entry_order(x: (Seq<char>, nat), y: (Seq<char>, nat), z: (Seq<char>, nat))
    ensures
        !entry_lt(x, x),
        entry_lt(x, y) && entry_lt(y, z) ==> entry_lt(x, z),
        x != y ==> entry_lt(x, y) || entry_lt(y, x),
{
    lemma_chars_order(x.0, y.0, z.0);
    lemma_chars_order(x.0, x.0, x.0);
    lemma_chars_order(y.0, x.0, y.0);
    lemma_chars_order(x.0, z.0, y.0);
    lemma_chars_order(y.0, z.0, x.0);
}

/// Lexicographic order on monomials from entry `i` on, a proper prefix first:
/// the order in which a `BTreeMap` keyed by monomials keeps them.
pub open spec fn term_lt_from(a: TermV, b: TermV, i: int) -> bool
    decreases a.len() - i,
{
    if i < 0 {
        false
    } else if i >= a.len() {
        i < b.len()
    } else if i >= b.len() {
        false
    } else if a[i] != b[i] {
        entry_lt(a[i], b[i])
    } else {
        term_lt_from(a, b, i + 1)
    }
}

/// Lexicographic order on monomials.
pub open spec fn term_lt(a: TermV, b: TermV) -> bool {
    term_lt_from(a, b, 0)
}

proof fn lemma_term_irreflexive(a: TermV, i: int)
    requires
        0 <= i,
    ensures
        !term_lt_from(a, a, i),
    decreases a.len() - i,
{
    if i < a.len() {
        lemma_term_irreflexive(a, i + 1);
    }
}

proof fn lemma_term_transitive(a: TermV, b: TermV, c: TermV, i: int)
    requires
        0 <= i,
        term_lt_from(a, b, i),
        term_lt_from(b, c, i),
    ensures
        term_lt_from(a, c, i),
    decreases a.len() - i,
{
    if i < a.len() && i < b.len() && i < c.len() {
        lemma_entry_order(a[i], b[i], c[i]);
        lemma_entry_order(a[i], c[i], b[i]);
        lemma_entry_order(c[i], a[i], b[i]);
        if a[i] == b[i] && b[i] == c[i] {
            lemma_term_transitive(a, b, c, i + 1);
        }
    }
}

proof fn lemma_term_total(a: TermV, b: TermV, i: int)
    requires
        0 <= i <= a.len(),
        i <= b.len(),
        a.subrange(i, a.len() as int) != b.subrange(i, b.len() as int),
    ensures
        term_lt_from(a, b, i) || term_lt_from(b, a, i),
    decreases a.len() - i,
{
    if i < a.len() && i < b.len() && a[i] == b[i] {
        assert(a.subrange(i + 1, a.len() as int) != b.subrange(i + 1, b.len() as int)) by {
            if a.subrange(i + 1, a.len() as int) == b.subrange(i + 1, b.len() as int) {
                assert(a.subrange(i, a.len() as int) =~= seq![a[i]] + a.subrange(i + 1, a.len() as int));
                assert(b.subrange(i, b.len() as int) =~= seq![b[i]] + b.subrange(i + 1, b.len() as int));
            }
        }
        lemma_term_total(a, b, i + 1);
    } else if i < a.len() && i < b.len() {
        lemma_entry_order(a[i], b[i], a[i]);
    } else if i >= a.len() && i >= b.len() {
        assert(a.subrange(i, a.len() as int) =~= b.subrange(i, b.len() as int));
    }
}

/// The order on monomials is a strict total order.
pub proof fn lemma_term_order(a: TermV, b: TermV, c: TermV)
    ensures
        !term_lt(a, a),
        term_lt(a, b) && term_lt(b, c) ==> term_lt(a, c),
        a != b ==> term_lt(a, b) || term_lt(b, a),
{
    assert(a.subrange(0, a.len() as int) =~= a);
    assert(b.subrange(0, b.len() as int) =~= b);
    lemma_term_irreflexive(a, 0);
    if term_lt(a, b) && term_lt(b, c) {
        lemma_term_transitive(a, b, c, 0);
    }
    if a != b {
        lemma_term_total(a, b, 0);
    }
}

impl MapKey for Term {
    open spec fn key_lt(a: TermV, b: TermV) -> bool {
        term_lt(a, b)
    }

    proof fn lemma_key_order(a: TermV, b: TermV, c: TermV) {
        lemma_term_order(a, b, c);
    }

    fn key_less(&self, other: &Term) -> (r: bool) {
        let ghost a = self@;
        let ghost b = other@;
        let n = self.0.len();
        let m = other.0.len();
        let mut i: usize = 0;
        let ghost mut at: int = 0;
        while i < n && i < m
            invariant
                a == self@,
                b == other@,
                n == a.len(),
                m == b.len(),
                at == i,
                i <= n,
                i <= m,
                term_lt(a, b) == term_lt_from(a, b, at),
            decreases n - i,
        {
            let (k1, d1) = self.0.entry(i);
            let (k2, d2) = other.0.entry(i);
            proof {
                assert(a[at] == (k1@, d1@));
                assert(b[at] == (k2@, d2@));
            }
            if !k1.same(k2) {
                assert(a[at] != b[at]);
                return names_less(k1.name(), k2.name());
            }
            if !d1.same(d2) {
                assert(a[at] != b[at]);
                proof {
                    lemma_chars_order(a[at].0, a[at].0, a[at].0);
                }
                return d1.less(d2);
            }
            i = i + 1;
            proof {
                at = at + 1;
            }
        }
        i >= n && i < m
    }

    fn key_same(&self, other: &Term) -> (r: bool) {
        let ghost a = self@;
        let ghost b = other@;
        let n = self.0.len();
        if n != other.0.len() {
            return false;
        }
        for i in 0..n
            invariant
                a == self@,
                b == other@,
                n == a.len(),
                n == b.len(),
                forall|k: int| 0 <= k < i ==> a[k] == b[k],
        {
            let (k1, d1) = self.0.entry(i);
            let (k2, d2) = other.0.entry(i);
            if !k1.same(k2) || !d1.same(d2) {
                return false;
            }
        }
        assert(a =~= b);
        true
    }

    fn copy_key(&self) -> (r: Term) {
        self.duplicate()
    }
}

/// Inserting the next entry of a sorted sequence into its prefix appends it.
pub proof fn lemma_append_sorted(t: TermV, i: int)
    requires
        sorted_keys::<Arc<Symbol>, nat>(t),
        0 <= i < t.len(),
    ensures
        insert_s::<Arc<Symbol>, nat>(t.subrange(0, i), t[i].0, t[i].1) == t.subrange(0, i + 1),
{
    let p = t.subrange(0, i);
    lemma_slot::<Arc<Symbol>, nat>(p, t[i].0);
    let j = slot::<Arc<Symbol>, nat>(p, t[i].0);
    if j < i {
        assert(chars_lt(p[j].0, t[i].0));
        lemma_chars_order(p[j].0, t[i].0, p[j].0);
    }
    assert(j == i);
    assert(p.insert(i, t[i]) =~= t.subrange(0, i + 1));
}

} // verus!
