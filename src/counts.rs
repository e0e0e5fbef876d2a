//! Counters of label occurrences, and the stable ranking used to report them.
use vstd::arithmetic::div_mod::lemma_fundamental_div_mod;
use crate::labels::CPUID_FEATURE;
use vstd::prelude::*;

verus! {

/// Something that carries an occurrence count and is ranked by it.
pub trait Item: Sized {
    spec fn spec_count(&self) -> u64;

    /// The label id the item stands for.
    spec fn spec_id(&self) -> usize;

    fn count(&self) -> (r: u64)
        ensures
            r == self.spec_count(),
    ;
}

/// A label id together with the number of times it was seen.
#[derive(Clone, Copy, Debug, PartialEq, Eq, Structural)]
pub struct Count {
    pub id: usize,
    pub count: u64,
}

impl Item for Count {
    open spec fn spec_count(&self) -> u64 {
        self.count
    }

    open spec fn spec_id(&self) -> usize {
        self.id
    }

    fn count(&self) -> (r: u64) {
        self.count
    }
}

/// `x` placed into `t` in front of the first item whose count is not above its own.
pub open spec fn place<T: Item>(x: T, t: Seq<T>) -> Seq<T>
    decreases t.len(),
{
    if t.len() == 0 {
        seq![x]
    } else if t[0].spec_count() > x.spec_count() {
        seq![t[0]] + place(x, t.drop_first())
    } else {
        seq![x] + t
    }
}

/// The items of `s` by count, highest first; items of equal count keep their order.
pub open spec fn sort_desc<T: Item>(s: Seq<T>) -> Seq<T>
    decreases s.len(),
{
    if s.len() == 0 {
        s
    } else {
        place(s[0], sort_desc(s.drop_first()))
    }
}

/// The items of `s` whose count is `c`, in their order in `s`.
pub open spec fn with_count<T: Item>(s: Seq<T>, c: u64) -> Seq<T>
    decreases s.len(),
{
    if s.len() == 0 {
        s
    } else if s[0].spec_count() == c {
        seq![s[0]] + with_count(s.drop_first(), c)
    } else {
        with_count(s.drop_first(), c)
    }
}

/// Counts never rise from one item to a later one.
pub open spec fn is_desc<T: Item>(s: Seq<T>) -> bool {
    forall|i: int, j: int| 0 <= i < j < s.len() ==> s[i].spec_count() >= s[j].spec_count()
}

/// The sum of the counts in `s`.
pub open spec fn total<T: Item>(s: Seq<T>) -> nat
    decreases s.len(),
{
    if s.len() == 0 {
        0
    } else {
        (s[0].spec_count() + total(s.drop_first())) as nat
    }
}

proof fn lemma_place_at<T: Item>(x: T, t: Seq<T>, p: int)
    requires
        0 <= p <= t.len(),
        forall|k: int| 0 <= k < p ==> t[k].spec_count() > x.spec_count(),
        p == t.len() || t[p].spec_count() <= x.spec_count(),
    ensures
        place(x, t) == t.insert(p, x),
    decreases p,
{
    if p == 0 {
        assert(place(x, t) =~= t.insert(p, x));
    } else {
        let r = t.drop_first();
        assert forall|k: int| 0 <= k < p - 1 implies r[k].spec_count() > x.spec_count() by {
            assert(r[k] == t[k + 1]);
        }
        lemma_place_at(x, r, p - 1);
        assert(place(x, t) =~= t.insert(p, x));
    }
}

proof fn lemma_place_len<T: Item>(x: T, t: Seq<T>)
    ensures
        place(x, t).len() == t.len() + 1,
    decreases t.len(),
{
    if t.len() > 0 && t[0].spec_count() > x.spec_count() {
        lemma_place_len(x, t.drop_first());
    }
}

proof fn lemma_with_count_prepend<T: Item>(a: T, t: Seq<T>, c: u64)
    ensures
        with_count(seq![a] + t, c) == if a.spec_count() == c {
            seq![a] + with_count(t, c)
        } else {
            with_count(t, c)
        },
{
    assert((seq![a] + t).drop_first() =~= t);
}

proof fn lemma_total_prepend<T: Item>(a: T, t: Seq<T>)
    ensures
        total(seq![a] + t) == a.spec_count() + total(t),
{
    assert((seq![a] + t).drop_first() =~= t);
}

proof fn lemma_place_with_count<T: Item>(x: T, t: Seq<T>, c: u64)
    ensures
        with_count(place(x, t), c) == if x.spec_count() == c {
            seq![x] + with_count(t, c)
        } else {
            with_count(t, c)
        },
    decreases t.len(),
{
    if t.len() == 0 {
        lemma_with_count_prepend(x, t, c);
    } else if t[0].spec_count() > x.spec_count() {
        let r = t.drop_first();
        assert(t =~= seq![t[0]] + r);
        lemma_place_with_count(x, r, c);
        lemma_with_count_prepend(t[0], place(x, r), c);
        lemma_with_count_prepend(t[0], r, c);
    } else {
        lemma_with_count_prepend(x, t, c);
    }
}

proof fn lemma_place_total<T: Item>(x: T, t: Seq<T>)
    ensures
        total(place(x, t)) == x.spec_count() + total(t),
    decreases t.len(),
{
    if t.len() == 0 {
        lemma_total_prepend(x, t);
    } else if t[0].spec_count() > x.spec_count() {
        let r = t.drop_first();
        assert(t =~= seq![t[0]] + r);
        lemma_place_total(x, r);
        lemma_total_prepend(t[0], place(x, r));
        lemma_total_prepend(t[0], r);
    } else {
        lemma_total_prepend(x, t);
    }
}

proof fn lemma_place_desc<T: Item>(x: T, t: Seq<T>)
    requires
        is_desc(t),
    ensures
        is_desc(place(x, t)),
    decreases t.len(),
{
    lemma_place_len(x, t);
    if t.len() > 0 && t[0].spec_count() > x.spec_count() {
        let r = t.drop_first();
        lemma_place_desc(x, r);
        lemma_place_len(x, r);
        lemma_place_items(x, r);
        let u = place(x, t);
        assert forall|i: int, j: int| 0 <= i < j < u.len() implies u[i].spec_count()
            >= u[j].spec_count() by {
            if i == 0 {
                let v = place(x, r);
                assert(u[j] == v[j - 1]);
                if v[j - 1] != x {
                    let k = choose|k: int| 0 <= k < r.len() && r[k] == v[j - 1];
                    assert(r[k] == t[k + 1]);
                }
            }
        }
    }
}

proof fn lemma_place_items<T: Item>(x: T, t: Seq<T>)
    ensures
        forall|i: int|
            0 <= i < place(x, t).len() ==> place(x, t)[i] == x || exists|k: int|
                0 <= k < t.len() && t[k] == #[trigger] place(x, t)[i],
    decreases t.len(),
{
    lemma_place_len(x, t);
    let u = place(x, t);
    if t.len() > 0 && t[0].spec_count() > x.spec_count() {
        let r = t.drop_first();
        lemma_place_items(x, r);
        assert forall|i: int| 0 <= i < u.len() implies u[i] == x || exists|k: int|
            0 <= k < t.len() && t[k] == #[trigger] u[i] by {
            if i == 0 {
                assert(t[0] == u[i]);
            } else {
                let v = place(x, r);
                assert(u[i] == v[i - 1]);
                if v[i - 1] != x {
                    let k = choose|k: int| 0 <= k < r.len() && r[k] == v[i - 1];
                    assert(t[k + 1] == u[i]);
                }
            }
        }
    } else if t.len() > 0 {
        assert forall|i: int| 0 <= i < u.len() implies u[i] == x || exists|k: int|
            0 <= k < t.len() && t[k] == #[trigger] u[i] by {
            if i > 0 {
                assert(t[i - 1] == u[i]);
            }
        }
    }
}

/// Every item of a sorted list is an item of the list it was sorted from.
pub proof fn lemma_sort_items<T: Item>(s: Seq<T>)
    ensures
        forall|i: int|
            0 <= i < sort_desc(s).len() ==> exists|k: int|
                0 <= k < s.len() && s[k] == #[trigger] sort_desc(s)[i],
    decreases s.len(),
{
    if s.len() > 0 {
        let r = s.drop_first();
        lemma_sort_items(r);
        lemma_place_items(s[0], sort_desc(r));
        let u = sort_desc(s);
        assert forall|i: int| 0 <= i < u.len() implies exists|k: int|
            0 <= k < s.len() && s[k] == #[trigger] u[i] by {
            if u[i] != s[0] {
                let k = choose|k: int| 0 <= k < sort_desc(r).len() && sort_desc(r)[k] == u[i];
                let k2 = choose|k2: int| 0 <= k2 < r.len() && r[k2] == #[trigger] sort_desc(r)[k];
                assert(s[k2 + 1] == u[i]);
            } else {
                assert(s[0] == u[i]);
            }
        }
    }
}

/// A sorted list holds as many items as the list it was sorted from, and the
/// counts in it never rise from one item to the next.
pub proof fn lemma_sort_desc<T: Item>(s: Seq<T>)
    ensures
        sort_desc(s).len() == s.len(),
        is_desc(sort_desc(s)),
    decreases s.len(),
{
    if s.len() > 0 {
        lemma_sort_desc(s.drop_first());
        lemma_place_len(s[0], sort_desc(s.drop_first()));
        lemma_place_desc(s[0], sort_desc(s.drop_first()));
    }
}

/// Sorting is stable: the items of any one count come out in the order they
/// went in, none lost and none added.
pub proof fn lemma_sort_stable<T: Item>(s: Seq<T>, c: u64)
    ensures
        with_count(sort_desc(s), c) == with_count(s, c),
    decreases s.len(),
{
    if s.len() > 0 {
        let r = s.drop_first();
        lemma_sort_stable(r, c);
        lemma_place_with_count(s[0], sort_desc(r), c);
        assert(s =~= seq![s[0]] + r);
        lemma_with_count_prepend(s[0], r, c);
    }
}

/// Sorting keeps the sum of the counts.
pub proof fn lemma_sort_total<T: Item>(s: Seq<T>)
    ensures
        total(sort_desc(s)) == total(s),
    decreases s.len(),
{
    if s.len() > 0 {
        let r = s.drop_first();
        lemma_sort_total(r);
        lemma_place_total(s[0], sort_desc(r));
    }
}

/// Ids rise from each item to the next.
pub open spec fn ids_rising<T: Item>(s: Seq<T>) -> bool {
    forall|i: int, j: int| 0 <= i < j < s.len() ==> s[i].spec_id() < s[j].spec_id()
}

/// Items come by count, highest first, and by id among equal counts.
pub open spec fn ranked<T: Item>(u: Seq<T>) -> bool {
    forall|i: int, j: int|
        0 <= i < j < u.len() ==> u[i].spec_count() > u[j].spec_count() || (u[i].spec_count()
            == u[j].spec_count() && u[i].spec_id() < u[j].spec_id())
}

proof fn lemma_place_ranked<T: Item>(x: T, t: Seq<T>)
    requires
        ranked(t),
        forall|k: int| 0 <= k < t.len() ==> x.spec_id() < #[trigger] t[k].spec_id(),
    ensures
        ranked(place(x, t)),
    decreases t.len(),
{
    lemma_place_len(x, t);
    let u = place(x, t);
    if t.len() > 0 && t[0].spec_count() > x.spec_count() {
        let r = t.drop_first();
        assert forall|k: int| 0 <= k < r.len() implies x.spec_id() < #[trigger] r[k].spec_id() by {
            assert(r[k] == t[k + 1]);
        }
        lemma_place_ranked(x, r);
        lemma_place_items(x, r);
        let v = place(x, r);
        assert forall|i: int, j: int| 0 <= i < j < u.len() implies u[i].spec_count()
            > u[j].spec_count() || (u[i].spec_count() == u[j].spec_count() && u[i].spec_id()
            < u[j].spec_id()) by {
            assert(u[j] == v[j - 1]);
            if i > 0 {
                assert(u[i] == v[i - 1]);
            } else if v[j - 1] != x {
                let k = choose|k: int| 0 <= k < r.len() && r[k] == v[j - 1];
                assert(r[k] == t[k + 1]);
            }
        }
    } else if t.len() > 0 {
        assert forall|i: int, j: int| 0 <= i < j < u.len() implies u[i].spec_count()
            > u[j].spec_count() || (u[i].spec_count() == u[j].spec_count() && u[i].spec_id()
            < u[j].spec_id()) by {
            assert(u[j] == t[j - 1]);
            if i > 0 {
                assert(u[i] == t[i - 1]);
            } else if j > 1 {
                assert(t[0].spec_count() >= t[j - 1].spec_count());
            }
        }
    }
}

/// A list whose ids rise, as every report does, sorts into one whose items of
/// equal count come in rising id order: identical input, identical output.
pub proof fn lemma_sort_ranked<T: Item>(s: Seq<T>)
    requires
        ids_rising(s),
    ensures
        ranked(sort_desc(s)),
    decreases s.len(),
{
    if s.len() > 0 {
        let r = s.drop_first();
        assert forall|i: int, j: int| 0 <= i < j < r.len() implies r[i].spec_id() < r[j].spec_id() by {
            assert(r[i] == s[i + 1] && r[j] == s[j + 1]);
        }
        lemma_sort_ranked(r);
        lemma_sort_items(r);
        let u = sort_desc(r);
        assert forall|k: int| 0 <= k < u.len() implies s[0].spec_id() < #[trigger] u[k].spec_id() by {
            let m = choose|m: int| 0 <= m < r.len() && r[m] == u[k];
            assert(r[m] == s[m + 1]);
        }
        lemma_place_ranked(s[0], u);
    }
}

/// Sorts `items` by count, highest first, keeping the order of items of equal count.
pub fn sort_list<T: Item>(items: &mut Vec<T>)
    ensures
        final(items)@ == sort_desc(old(items)@),
{
    let ghost orig = items@;
    let mut out: Vec<T> = Vec::new();
    while items.len() > 0
        invariant
            items.len() <= orig.len(),
            items@ == orig.subrange(0, items.len() as int),
            out@ == sort_desc(orig.subrange(items.len() as int, orig.len() as int)),
        decreases items.len(),
    {
        let ghost before = orig.subrange(items.len() as int, orig.len() as int);
        let x = items.pop().unwrap();
        let ghost after = orig.subrange(items.len() as int, orig.len() as int);
        assert(after.drop_first() =~= before);
        assert(after[0] == x);
        let c = x.count();
        let mut p: usize = 0;
        while p < out.len() && out[p].count() > c
            invariant
                p <= out.len(),
                c == x.spec_count(),
                forall|k: int| 0 <= k < p ==> out@[k].spec_count() > c,
            decreases out.len() - p,
        {
            p += 1;
        }
        proof {
            lemma_place_at(x, out@, p as int);
        }
        out.insert(p, x);
    }
    assert(orig.subrange(0, orig.len() as int) =~= orig);
    *items = out;
}

impl Count {
    pub fn new(id: usize, count: u64) -> (r: Count)
        ensures
            r.id == id,
            r.count == count,
    {
        Count { id, count }
    }

    pub fn id(&self) -> (r: usize)
        ensures
            r == self.id,
    {
        self.id
    }

    /// Whether this counts the feature of the `CPUID` instruction.
    pub fn is_cpuid(&self) -> (r: bool)
        ensures
            r == (self.id == CPUID_FEATURE),
    {
        self.id == CPUID_FEATURE
    }
}

/// Some entry of a feature report counts the `CPUID` feature.
pub open spec fn has_cpuid(s: Seq<Count>) -> bool {
    exists|k: int| 0 <= k < s.len() && (#[trigger] s[k]).id == CPUID_FEATURE
}

/// Whether a feature report shows `CPUID` usage: the program may probe the
/// CPU and choose its code paths at run time.
pub fn has_cpuid_usage(features: &[Count]) -> (r: bool)
    ensures
        r == has_cpuid(features@),
{
    let mut k: usize = 0;
    while k < features.len()
        invariant
            k <= features.len(),
            forall|m: int| 0 <= m < k ==> (#[trigger] features@[m]).id != CPUID_FEATURE,
        decreases features.len() - k,
    {
        if features[k].is_cpuid() {
            return true;
        }
        k += 1;
    }
    false
}

/// The nonzero entries of `c`, each with its index as id, in index order.
pub open spec fn nonzero(c: Seq<u64>) -> Seq<Count>
    decreases c.len(),
{
    if c.len() == 0 {
        Seq::empty()
    } else {
        let rest = nonzero(c.drop_last());
        if c.last() > 0 {
            rest.push(Count { id: (c.len() - 1) as usize, count: c.last() })
        } else {
            rest
        }
    }
}

/// The sum of the entries of `c`.
pub open spec fn sum(c: Seq<u64>) -> nat
    decreases c.len(),
{
    if c.len() == 0 {
        0
    } else {
        (sum(c.drop_last()) + c.last()) as nat
    }
}

/// Turns a table of counters, indexed by label id, into the list of labels
/// that were seen, with their counts, in id order.
pub fn map_counts(c: &Vec<u64>) -> (r: Vec<Count>)
    ensures
        r@ == nonzero(c@),
        ids_rising(r@),
{
    let mut r: Vec<Count> = Vec::new();
    let mut i: usize = 0;
    while i < c.len()
        invariant
            i <= c.len(),
            r@ == nonzero(c@.subrange(0, i as int)),
        decreases c.len() - i,
    {
        assert(c@.subrange(0, i + 1).drop_last() =~= c@.subrange(0, i as int));
        if c[i] > 0 {
            r.push(Count { id: i, count: c[i] });
        }
        i += 1;
    }
    assert(c@.subrange(0, c.len() as int) =~= c@);
    proof {
        lemma_nonzero_entries(c@);
    }
    r
}

/// No label with a zero count is reported.
pub proof fn lemma_nonzero_positive(c: Seq<u64>)
    ensures
        forall|k: int| 0 <= k < nonzero(c).len() ==> #[trigger] nonzero(c)[k].count > 0,
    decreases c.len(),
{
    if c.len() > 0 {
        let d = c.drop_last();
        lemma_nonzero_positive(d);
        let m = nonzero(d);
        let n = nonzero(c);
        assert forall|k: int| 0 <= k < n.len() implies #[trigger] n[k].count > 0 by {
            if k < m.len() {
                assert(n[k] == m[k]);
            }
        }
    }
}

/// Each reported entry names a label of the table and carries its counter,
/// ids strictly rising; every label with a nonzero counter is reported.
pub proof fn lemma_nonzero_entries(c: Seq<u64>)
    requires
        c.len() <= usize::MAX,
    ensures
        forall|k: int|
            0 <= k < nonzero(c).len() ==> (#[trigger] nonzero(c)[k]).id < c.len() && nonzero(
                c,
            )[k].count == c[nonzero(c)[k].id as int],
        forall|k: int, l: int|
            0 <= k < l < nonzero(c).len() ==> nonzero(c)[k].id < nonzero(c)[l].id,
        forall|f: int|
            0 <= f < c.len() && c[f] > 0 ==> exists|k: int|
                0 <= k < nonzero(c).len() && (#[trigger] nonzero(c)[k]).id == f,
    decreases c.len(),
{
    if c.len() > 0 {
        let d = c.drop_last();
        lemma_nonzero_entries(d);
        let m = nonzero(d);
        let n = nonzero(c);
        let e = Count { id: (c.len() - 1) as usize, count: c.last() };
        if c.last() > 0 {
            assert(n == m.push(e));
        } else {
            assert(n == m);
        }
        assert forall|k: int| 0 <= k < n.len() implies (#[trigger] n[k]).id < c.len() && n[k].count
            == c[n[k].id as int] by {
            if k < m.len() {
                assert(n[k] == m[k]);
                assert(d[m[k].id as int] == c[m[k].id as int]);
            }
        }
        assert forall|k: int, l: int| 0 <= k < l < n.len() implies n[k].id < n[l].id by {
            assert(n[k] == m[k]);
            if l < m.len() {
                assert(n[l] == m[l]);
            }
        }
        assert forall|f: int| 0 <= f < c.len() && c[f] > 0 implies exists|k: int|
            0 <= k < n.len() && (#[trigger] n[k]).id == f by {
            if f < c.len() - 1 {
                assert(d[f] == c[f]);
                let k = choose|k: int| 0 <= k < m.len() && (#[trigger] m[k]).id == f;
                assert(n[k] == m[k]);
            } else {
                assert(n[n.len() - 1] == e);
            }
        }
    }
}

proof fn lemma_total_push<T: Item>(s: Seq<T>, a: T)
    ensures
        total(s.push(a)) == total(s) + a.spec_count(),
    decreases s.len(),
{
    if s.len() > 0 {
        lemma_total_push(s.drop_first(), a);
        assert(s.push(a).drop_first() =~= s.drop_first().push(a));
    } else {
        assert(s.push(a).drop_first() =~= s);
    }
}

/// Leaving out the zero counters keeps the sum.
pub proof fn lemma_nonzero_total(c: Seq<u64>)
    ensures
        total(nonzero(c)) == sum(c),
    decreases c.len(),
{
    if c.len() > 0 {
        lemma_nonzero_total(c.drop_last());
        let e = Count { id: (c.len() - 1) as usize, count: c.last() };
        lemma_total_push(nonzero(c.drop_last()), e);
    }
}

/// A feature counter with the mnemonics of the instructions that required it.
pub struct Detail {
    pub id: usize,
    pub count: u64,
    pub mnemonics: Vec<Count>,
}

impl Item for Detail {
    open spec fn spec_count(&self) -> u64 {
        self.count
    }

    open spec fn spec_id(&self) -> usize {
        self.id
    }

    fn count(&self) -> (r: u64) {
        self.count
    }
}

impl Detail {
    pub fn id(&self) -> (r: usize)
        ensures
            r == self.id,
    {
        self.id
    }

    pub fn mnemonics(&self) -> (r: &[Count])
        ensures
            r@ == self.mnemonics@,
    {
        self.mnemonics.as_slice()
    }

    /// Its own count is the sum of its mnemonics' counts.
    pub open spec fn wf(&self) -> bool {
        self.count == total(self.mnemonics@)
    }

    /// Sorts the mnemonics by count, highest first, keeping the order of equal counts.
    pub fn sort(&mut self)
        ensures
            final(self).id == old(self).id,
            final(self).count == old(self).count,
            final(self).mnemonics@ == sort_desc(old(self).mnemonics@),
    {
        sort_list(&mut self.mnemonics);
    }
}

/// Sorts the details by count, then the mnemonics within each detail; the
/// two orders are independent of each other.
pub fn sort_details(items: &mut Vec<Detail>)
    ensures
        final(items).len() == old(items).len(),
        forall|i: int|
            0 <= i < final(items).len() ==> {
                let d = #[trigger] final(items)@[i];
                let e = sort_desc(old(items)@)[i];
                &&& d.id == e.id
                &&& d.count == e.count
                &&& d.mnemonics@ == sort_desc(e.mnemonics@)
            },
        (forall|i: int| 0 <= i < old(items).len() ==> (#[trigger] old(items)@[i]).wf()) ==> (
        forall|i: int| 0 <= i < final(items).len() ==> (#[trigger] final(items)@[i]).wf()),
{
    sort_list(items);
    let ghost sorted = items@;
    proof {
        lemma_sort_desc(old(items)@);
    }
    let mut i: usize = 0;
    while i < items.len()
        invariant
            i <= items.len(),
            items.len() == sorted.len(),
            sorted == sort_desc(old(items)@),
            forall|k: int|
                i <= k < items.len() ==> #[trigger] items@[k] == sorted[k],
            forall|k: int|
                0 <= k < i ==> {
                    let d = #[trigger] items@[k];
                    &&& d.id == sorted[k].id
                    &&& d.count == sorted[k].count
                    &&& d.mnemonics@ == sort_desc(sorted[k].mnemonics@)
                },
        decreases items.len() - i,
    {
        items[i].sort();
        i += 1;
    }
    proof {
        if forall|i: int| 0 <= i < old(items).len() ==> (#[trigger] old(items)@[i]).wf() {
            lemma_sort_items(old(items)@);
            assert forall|i: int| 0 <= i < items.len() implies (#[trigger] items@[i]).wf() by {
                let k = choose|k: int| 0 <= k < old(items).len() && old(items)@[k] == sorted[i];
                assert(old(items)@[k].wf());
                lemma_sort_total(sorted[i].mnemonics@);
            }
        }
    }
}

/// The sum of the counts of `items`; none where it does not fit in a `u64`.
pub fn item_total<T: Item>(items: &[T]) -> (r: Option<u64>)
    ensures
        r is Some <==> total(items@) <= u64::MAX,
        r is Some ==> r->0 == total(items@),
{
    let mut t: u64 = 0;
    let mut k: usize = 0;
    while k < items.len()
        invariant
            k <= items.len(),
            t == total(items@.take(k as int)),
        decreases items.len() - k,
    {
        let c = items[k].count();
        proof {
            assert(items@.take(k + 1) =~= items@.take(k as int).push(items@[k as int]));
            lemma_total_push(items@.take(k as int), items@[k as int]);
        }
        if c > u64::MAX - t {
            proof {
                lemma_total_prefix(items@, k + 1);
            }
            return None;
        }
        t = t + c;
        k += 1;
    }
    assert(items@.take(items.len() as int) =~= items@);
    Some(t)
}

proof fn lemma_total_prefix<T: Item>(s: Seq<T>, k: int)
    requires
        0 <= k <= s.len(),
    ensures
        total(s.take(k)) <= total(s),
    decreases s.len() - k,
{
    if k < s.len() {
        lemma_total_prefix(s, k + 1);
        assert(s.take(k + 1) =~= s.take(k).push(s[k]));
        lemma_total_push(s.take(k), s[k]);
    } else {
        assert(s.take(k) =~= s);
    }
}

/// Share of `count` in `total`, in hundredths of a percent, rounded to the
/// nearest (halves up).
pub open spec fn share(count: nat, total: nat) -> nat {
    ((20000 * count + total) / (2 * total)) as nat
}

/// The share of `count` in `total`, in hundredths of a percent.
pub fn percent(count: u64, total: u64) -> (r: u64)
    requires
        count <= total,
        total > 0,
    ensures
        r == share(count as nat, total as nat),
        r <= 10000,
{
    let n: u128 = 20000 * (count as u128) + (total as u128);
    let d: u128 = 2 * (total as u128);
    let q: u128 = n / d;
    proof {
        lemma_share_bounds(count as nat, total as nat);
        assert(q <= 10000) by (nonlinear_arith)
            requires
                d * q <= n,
                n == 20000 * count + total,
                d == 2 * total,
                count <= total,
                total > 0,
        ;
    }
    q as u64
}

proof fn lemma_share_bounds(c: nat, t: nat)
    requires
        t > 0,
    ensures
        2 * t * share(c, t) <= 20000 * c + t,
        20000 * c + t < 2 * t * share(c, t) + 2 * t,
{
    lemma_fundamental_div_mod((20000 * c + t) as int, (2 * t) as int);
}

proof fn lemma_item_le_total<T: Item>(s: Seq<T>, i: int)
    requires
        0 <= i < s.len(),
    ensures
        s[i].spec_count() <= total(s),
    decreases s.len(),
{
    if i > 0 {
        lemma_item_le_total(s.drop_first(), i - 1);
    }
}

/// The total of a report and the share of each of its items in it, in
/// hundredths of a percent; a report whose total is zero shows 0.00% for
/// each item. None where the total does not fit in a `u64`.
pub fn percentages<T: Item>(items: &[T]) -> (r: Option<(u64, Vec<u64>)>)
    ensures
        r is Some <==> total(items@) <= u64::MAX,
        r matches Some((t, p)) ==> {
            &&& t == total(items@)
            &&& p.len() == items.len()
            &&& forall|i: int|
                0 <= i < p.len() ==> #[trigger] p@[i] == if t > 0 {
                    share(items@[i].spec_count() as nat, t as nat)
                } else {
                    0
                }
        },
{
    let t = match item_total(items) {
        Some(t) => t,
        None => return None,
    };
    let mut p: Vec<u64> = Vec::new();
    let mut k: usize = 0;
    while k < items.len()
        invariant
            k <= items.len(),
            t == total(items@),
            p.len() == k,
            forall|i: int|
                0 <= i < k ==> #[trigger] p@[i] == if t > 0 {
                    share(items@[i].spec_count() as nat, t as nat)
                } else {
                    0
                },
        decreases items.len() - k,
    {
        let c = items[k].count();
        if t > 0 {
            proof {
                lemma_item_le_total(items@, k as int);
            }
            p.push(percent(c, t));
        } else {
            p.push(0);
        }
        k += 1;
    }
    Some((t, p))
}

/// The share of each item of `items` in a total `t` of which they are part.
pub fn shares_in<T: Item>(items: &[T], t: u64) -> (r: Vec<u64>)
    requires
        t > 0,
        total(items@) <= t,
    ensures
        r.len() == items.len(),
        forall|i: int|
            0 <= i < r.len() ==> #[trigger] r@[i] == share(items@[i].spec_count() as nat, t as nat),
{
    let mut p: Vec<u64> = Vec::new();
    let mut k: usize = 0;
    while k < items.len()
        invariant
            k <= items.len(),
            t > 0,
            total(items@) <= t,
            p.len() == k,
            forall|i: int|
                0 <= i < k ==> #[trigger] p@[i] == share(items@[i].spec_count() as nat, t as nat),
        decreases items.len() - k,
    {
        proof {
            lemma_item_le_total(items@, k as int);
        }
        p.push(percent(items[k].count(), t));
        k += 1;
    }
    p
}

/// The figures of a details report: the grand total `F` of the feature
/// counts, each feature's share of `F`, and each of its mnemonics' share of
/// `F` as well (not of the feature's own count); with `F` zero every share
/// is 0.00%. None where `F` does not fit in a `u64`.
pub fn detail_percentages(details: &[Detail]) -> (r: Option<(u64, Vec<u64>, Vec<Vec<u64>>)>)
    requires
        forall|k: int| 0 <= k < details.len() ==> (#[trigger] details@[k]).wf(),
    ensures
        r is Some <==> total(details@) <= u64::MAX,
        r matches Some((f, p, m)) ==> {
            &&& f == total(details@)
            &&& p.len() == details.len()
            &&& m.len() == details.len()
            &&& forall|k: int|
                0 <= k < details.len() ==> {
                    &&& #[trigger] p@[k] == if f > 0 {
                        share(details@[k].count as nat, f as nat)
                    } else {
                        0
                    }
                    &&& m@[k].len() == details@[k].mnemonics.len()
                    &&& forall|i: int|
                        0 <= i < m@[k].len() ==> #[trigger] m@[k]@[i] == if f > 0 {
                            share(details@[k].mnemonics@[i].count as nat, f as nat)
                        } else {
                            0
                        }
                }
        },
{
    let (f, p) = match percentages(details) {
        Some(x) => x,
        None => return None,
    };
    let mut m: Vec<Vec<u64>> = Vec::new();
    let mut k: usize = 0;
    while k < details.len()
        invariant
            k <= details.len(),
            f == total(details@),
            m.len() == k,
            forall|j: int| 0 <= j < details.len() ==> (#[trigger] details@[j]).wf(),
            forall|j: int|
                0 <= j < k ==> {
                    &&& (#[trigger] m@[j]).len() == details@[j].mnemonics.len()
                    &&& forall|i: int|
                        0 <= i < m@[j].len() ==> #[trigger] m@[j]@[i] == if f > 0 {
                            share(details@[j].mnemonics@[i].count as nat, f as nat)
                        } else {
                            0
                        }
                },
        decreases details.len() - k,
    {
        let mnemonics = details[k].mnemonics();
        if f > 0 {
            proof {
                lemma_item_le_total(details@, k as int);
                assert(details@[k as int].wf());
            }
            m.push(shares_in(mnemonics, f));
        } else {
            m.push(vec![0u64; mnemonics.len()]);
        }
        k += 1;
    }
    Some((f, p, m))
}

/// The sum of the shares of the items of `s` in `t`.
pub open spec fn shares<T: Item>(s: Seq<T>, t: nat) -> nat
    decreases s.len(),
{
    if s.len() == 0 {
        0
    } else {
        share(s[0].spec_count() as nat, t) + shares(s.drop_first(), t)
    }
}

proof fn lemma_shares_bounds<T: Item>(s: Seq<T>, t: nat)
    requires
        t > 0,
    ensures
        2 * t * shares(s, t) <= 20000 * total(s) + s.len() * t,
        20000 * total(s) + s.len() * t <= 2 * t * shares(s, t) + 2 * t * s.len(),
    decreases s.len(),
{
    if s.len() > 0 {
        let r = s.drop_first();
        lemma_shares_bounds(r, t);
        let c = s[0].spec_count() as nat;
        lemma_share_bounds(c, t);
        let q = share(c, t);
        let qs = shares(r, t);
        let tr = total(r);
        let n = r.len();
        assert(2 * t * (q + qs) <= 20000 * (c + tr) + (n + 1) * t) by (nonlinear_arith)
            requires
                2 * t * q <= 20000 * c + t,
                2 * t * qs <= 20000 * tr + n * t,
        ;
        assert(20000 * (c + tr) + (n + 1) * t <= 2 * t * (q + qs) + 2 * t * (n + 1))
            by (nonlinear_arith)
            requires
                20000 * c + t < 2 * t * q + 2 * t,
                20000 * tr + n * t <= 2 * t * qs + 2 * t * n,
        ;
    }
}

/// In a report whose total is the sum of its entries, the shares of the
/// sorted entries add up to 100.00%, give or take 0.01% per entry.
pub proof fn lemma_shares_sum<T: Item>(s: Seq<T>)
    requires
        total(s) > 0,
    ensures
        10000 - s.len() <= shares(sort_desc(s), total(s)) <= 10000 + s.len(),
{
    let u = sort_desc(s);
    let t = total(s);
    lemma_sort_desc(s);
    lemma_sort_total(s);
    lemma_shares_bounds(u, t);
    let q = shares(u, t);
    let n = s.len();
    assert(2 * q <= 20000 + n) by (nonlinear_arith)
        requires
            2 * t * q <= 20000 * t + n * t,
            t > 0,
    ;
    assert(20000 <= 2 * q + n) by (nonlinear_arith)
        requires
            20000 * t + n * t <= 2 * t * q + 2 * t * n,
            t > 0,
    ;
}

} // verus!
