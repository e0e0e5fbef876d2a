//! Classification tasks: they take decoded instructions one by one and count
//! the labels each one carries.
use crate::binary::Segment;
use crate::counts::{has_cpuid, ids_rising, Item, lemma_nonzero_total, sum, total, Detail, lemma_nonzero_entries, lemma_nonzero_positive, map_counts, nonzero, Count};
use crate::instr::{all_wf, decode, decoded, Instr, InstrView};
use crate::labels::{CPUID_FEATURE, FEATURE_COUNT, MNEMONIC_COUNT, REGISTER_COUNT};
use vstd::prelude::*;
use vstd::slice::slice_subrange;

verus! {

/// How many times `x` occurs in `s`.
pub open spec fn occurrences(s: Seq<usize>, x: usize) -> nat
    decreases s.len(),
{
    if s.len() == 0 {
        0
    } else {
        occurrences(s.drop_last(), x) + if s.last() == x {
            1nat
        } else {
            0nat
        }
    }
}

/// How many times the valid instructions of `s` require feature `f`; an
/// instruction that requires several features is credited to each.
pub open spec fn feature_tally(s: Seq<InstrView>, f: usize) -> nat
    decreases s.len(),
{
    if s.len() == 0 {
        0
    } else {
        feature_tally(s.drop_last(), f) + if s.last().valid {
            occurrences(s.last().features, f)
        } else {
            0
        }
    }
}

/// How many feature requirements the valid instructions of `s` carry in all.
pub open spec fn feature_weight(s: Seq<InstrView>) -> nat
    decreases s.len(),
{
    if s.len() == 0 {
        0
    } else {
        feature_weight(s.drop_last()) + if s.last().valid {
            s.last().features.len()
        } else {
            0
        }
    }
}

proof fn lemma_occurrences_push(s: Seq<usize>, x: usize, f: usize)
    ensures
        occurrences(s.push(x), f) == occurrences(s, f) + if x == f {
            1nat
        } else {
            0nat
        },
{
    assert(s.push(x).drop_last() =~= s);
}

proof fn lemma_occurrences_le(s: Seq<usize>, f: usize)
    ensures
        occurrences(s, f) <= s.len(),
    decreases s.len(),
{
    if s.len() > 0 {
        lemma_occurrences_le(s.drop_last(), f);
    }
}

proof fn lemma_tally_le_weight(s: Seq<InstrView>, f: usize)
    ensures
        feature_tally(s, f) <= feature_weight(s),
    decreases s.len(),
{
    if s.len() > 0 {
        lemma_tally_le_weight(s.drop_last(), f);
        lemma_occurrences_le(s.last().features, f);
    }
}

proof fn lemma_weight_prefix(s: Seq<InstrView>, k: int)
    requires
        0 <= k <= s.len(),
    ensures
        feature_weight(s.take(k)) <= feature_weight(s),
    decreases s.len() - k,
{
    if k < s.len() {
        lemma_weight_prefix(s, k + 1);
        assert(s.take(k + 1).drop_last() =~= s.take(k));
    } else {
        assert(s.take(k) =~= s);
    }
}

/// A classification task: it takes valid and invalid instructions alike, in
/// order, and is then turned into its report.
pub trait Task: Sized {
    type Output;

    /// The counters agree with the instructions seen.
    spec fn wf(&self) -> bool;

    /// The instructions taken so far.
    spec fn seen(&self) -> Seq<InstrView>;

    /// The counters can hold what a task counts after the instructions of `s`.
    spec fn within(s: Seq<InstrView>) -> bool;

    /// What fits after some instructions fits after fewer of them.
    proof fn lemma_within_prefix(s: Seq<InstrView>, k: int)
        requires
            Self::within(s),
            0 <= k <= s.len(),
        ensures
            Self::within(s.take(k)),
    ;

    /// Counters that agree with the instructions seen hold them.
    proof fn lemma_wf_within(&self)
        requires
            self.wf(),
        ensures
            Self::within(self.seen()),
    ;

    fn new() -> (r: Self)
        ensures
            r.wf(),
            r.seen() == Seq::<InstrView>::empty(),
    ;

    /// Whether the counters can take `i` without overflowing.
    fn can_add(&self, i: &Instr) -> (r: bool)
        requires
            self.wf(),
        ensures
            r == Self::within(self.seen().push(i@)),
    ;

    fn add(&mut self, i: &Instr)
        requires
            old(self).wf(),
            i@.wf(),
            Self::within(old(self).seen().push(i@)),
        ensures
            final(self).wf(),
            final(self).seen() == old(self).seen().push(i@),
    ;

    /// `r` is the report of a task in this state.
    spec fn reports(&self, r: Self::Output) -> bool;

    fn into_result(self) -> (r: Self::Output)
        requires
            self.wf(),
        ensures
            self.reports(r),
    ;
}

/// Counts, for each CPU feature, the valid instructions that require it.
pub struct TaskCount {
    pub features: Vec<u64>,
    /// The sum of the counters.
    pub total: u64,
    pub seen: Ghost<Seq<InstrView>>,
}

impl TaskCount {
    /// The report: each feature that was required, with its count, in id order.
    pub fn report(self) -> (r: Vec<Count>)
        requires
            self.wf(),
        ensures
            r@ == nonzero(self.features@),
            forall|f: int| 0 <= f < FEATURE_COUNT ==> self.features@[f] == feature_tally(self.seen@, f as usize),
    {
        map_counts(&self.features)
    }
}

impl Task for TaskCount {
    type Output = Vec<Count>;

    open spec fn wf(&self) -> bool {
        &&& self.features@.len() == FEATURE_COUNT
        &&& self.total == feature_weight(self.seen@)
        &&& forall|f: int|
            0 <= f < FEATURE_COUNT ==> #[trigger] self.features@[f] == feature_tally(
                self.seen@,
                f as usize,
            )
        &&& all_wf(self.seen@)
    }

    open spec fn seen(&self) -> Seq<InstrView> {
        self.seen@
    }

    open spec fn within(s: Seq<InstrView>) -> bool {
        feature_weight(s) <= u64::MAX
    }

    proof fn lemma_within_prefix(s: Seq<InstrView>, k: int) {
        lemma_weight_prefix(s, k);
    }

    proof fn lemma_wf_within(&self) {
    }

    fn new() -> (r: Self) {
        let features = vec![0u64; FEATURE_COUNT];
        TaskCount { features, total: 0, seen: Ghost(Seq::empty()) }
    }

    fn can_add(&self, i: &Instr) -> (r: bool) {
        assert(self.seen@.push(i@).drop_last() =~= self.seen@);
        !i.valid || i.features.len() as u64 <= u64::MAX - self.total
    }

    fn add(&mut self, i: &Instr) {
        let ghost s0 = self.seen@;
        let ghost s1 = s0.push(i@);
        assert(s1.drop_last() =~= s0);
        if i.valid {
            let mut j: usize = 0;
            while j < i.features.len()
                invariant
                    j <= i.features.len(),
                    i@.wf(),
                    i.valid,
                    self.features@.len() == FEATURE_COUNT,
                    self.total == feature_weight(s0),
                    feature_weight(s1) <= u64::MAX,
                    feature_weight(s1) == feature_weight(s0) + i.features.len(),
                    forall|f: int|
                        0 <= f < FEATURE_COUNT ==> #[trigger] self.features@[f] == feature_tally(
                            s0,
                            f as usize,
                        ) + occurrences(i.features@.take(j as int), f as usize),
                decreases i.features.len() - j,
            {
                let f = i.features[j];
                proof {
                    assert(i@.features[j as int] == f);
                    assert(self.features@[f as int] == feature_tally(s0, f) + occurrences(
                        i.features@.take(j as int),
                        f,
                    ));
                    lemma_tally_le_weight(s0, f);
                    lemma_occurrences_le(i.features@.take(j as int), f);
                    assert(i.features@.take(j + 1) =~= i.features@.take(j as int).push(f));
                    assert forall|g: usize| #[trigger]
                        occurrences(i.features@.take(j + 1), g) == occurrences(
                            i.features@.take(j as int),
                            g,
                        ) + if f == g {
                            1nat
                        } else {
                            0nat
                        } by {
                        lemma_occurrences_push(i.features@.take(j as int), f, g);
                    }
                }
                self.features[f] = self.features[f] + 1;
                j += 1;
            }
            assert(i.features@.take(i.features.len() as int) =~= i.features@);
            self.total = self.total + i.features.len() as u64;
        }
        self.seen = Ghost(s1);
    }

    open spec fn reports(&self, r: Vec<Count>) -> bool {
        r@ == nonzero(self.features@)
    }

    fn into_result(self) -> (r: Vec<Count>) {
        self.report()
    }
}

proof fn lemma_occurrences_contains(s: Seq<usize>, f: usize)
    ensures
        occurrences(s, f) > 0 <==> s.contains(f),
    decreases s.len(),
{
    if s.len() > 0 {
        let d = s.drop_last();
        lemma_occurrences_contains(d, f);
        if d.contains(f) {
            let j = choose|j: int| 0 <= j < d.len() && d[j] == f;
            assert(s[j] == f);
        }
        if s.contains(f) {
            let j = choose|j: int| 0 <= j < s.len() && s[j] == f;
            if j < d.len() {
                assert(d[j] == f);
            }
        }
    }
}

proof fn lemma_tally_positive(s: Seq<InstrView>, f: usize)
    ensures
        feature_tally(s, f) > 0 <==> exists|k: int|
            0 <= k < s.len() && s[k].valid && (#[trigger] s[k]).features.contains(f),
    decreases s.len(),
{
    if s.len() > 0 {
        let d = s.drop_last();
        lemma_tally_positive(d, f);
        lemma_occurrences_contains(s.last().features, f);
        if exists|k: int| 0 <= k < d.len() && d[k].valid && (#[trigger] d[k]).features.contains(f) {
            let k = choose|k: int|
                0 <= k < d.len() && d[k].valid && (#[trigger] d[k]).features.contains(f);
            assert(s[k] == d[k]);
        }
        if exists|k: int| 0 <= k < s.len() && s[k].valid && (#[trigger] s[k]).features.contains(f) {
            let k = choose|k: int|
                0 <= k < s.len() && s[k].valid && (#[trigger] s[k]).features.contains(f);
            if k < d.len() {
                assert(d[k] == s[k]);
            }
        }
    }
}

/// The report of a count task names the `CPUID` feature exactly when some
/// valid instruction seen requires it.
pub proof fn lemma_cpuid_usage(s: Seq<InstrView>, c: Seq<u64>)
    requires
        c.len() == FEATURE_COUNT,
        forall|f: int| 0 <= f < FEATURE_COUNT ==> #[trigger] c[f] == feature_tally(s, f as usize),
    ensures
        has_cpuid(nonzero(c)) <==> exists|k: int|
            0 <= k < s.len() && s[k].valid && (#[trigger] s[k]).features.contains(CPUID_FEATURE),
{
    lemma_nonzero_entries(c);
    lemma_nonzero_positive(c);
    lemma_tally_positive(s, CPUID_FEATURE);
    let n = nonzero(c);
    assert(c[CPUID_FEATURE as int] == feature_tally(s, CPUID_FEATURE));
    if has_cpuid(n) {
        let k = choose|k: int| 0 <= k < n.len() && (#[trigger] n[k]).id == CPUID_FEATURE;
        assert(n[k].count > 0);
    }
    if c[CPUID_FEATURE as int] > 0 {
        let k = choose|k: int| 0 <= k < n.len() && (#[trigger] n[k]).id == CPUID_FEATURE as int;
        assert(has_cpuid(n));
    }
}

/// How many times the valid instructions of `s` that have mnemonic `m`
/// require feature `f`.
pub open spec fn pair_tally(s: Seq<InstrView>, f: usize, m: usize) -> nat
    decreases s.len(),
{
    if s.len() == 0 {
        0
    } else {
        pair_tally(s.drop_last(), f, m) + if s.last().valid && s.last().mnemonic == m {
            occurrences(s.last().features, f)
        } else {
            0
        }
    }
}

/// How many operand slots of the valid instructions of `s` name register
/// `r`; id 0, no register, is never counted.
pub open spec fn register_tally(s: Seq<InstrView>, r: usize) -> nat
    decreases s.len(),
{
    if s.len() == 0 {
        0
    } else {
        register_tally(s.drop_last(), r) + if s.last().valid && r != 0 {
            occurrences(s.last().registers, r)
        } else {
            0
        }
    }
}

/// How many operand slots the valid instructions of `s` have in all.
pub open spec fn slot_weight(s: Seq<InstrView>) -> nat
    decreases s.len(),
{
    if s.len() == 0 {
        0
    } else {
        slot_weight(s.drop_last()) + if s.last().valid {
            s.last().registers.len()
        } else {
            0
        }
    }
}

/// The sum of `pair_tally(s, f, m)` over the mnemonics `m` below `n`.
pub open spec fn pair_row_sum(s: Seq<InstrView>, f: usize, n: nat) -> nat
    decreases n,
{
    if n == 0 {
        0
    } else {
        pair_row_sum(s, f, (n - 1) as nat) + pair_tally(s, f, (n - 1) as usize)
    }
}

proof fn lemma_pair_row_push(s: Seq<InstrView>, x: InstrView, f: usize, n: nat)
    requires
        n <= MNEMONIC_COUNT,
    ensures
        pair_row_sum(s.push(x), f, n) == pair_row_sum(s, f, n) + if x.valid && x.mnemonic < n {
            occurrences(x.features, f)
        } else {
            0
        },
    decreases n,
{
    assert(s.push(x).drop_last() =~= s);
    if n > 0 {
        lemma_pair_row_push(s, x, f, (n - 1) as nat);
    }
}

/// Each valid instruction has one mnemonic, so over all mnemonics the
/// counts of a feature's mnemonics add up to the feature's own count.
pub proof fn lemma_mnemonics_sum_to_feature(s: Seq<InstrView>, f: usize)
    requires
        all_wf(s),
    ensures
        pair_row_sum(s, f, MNEMONIC_COUNT as nat) == feature_tally(s, f),
    decreases s.len(),
{
    if s.len() == 0 {
        lemma_pair_row_empty(s, f, MNEMONIC_COUNT as nat);
    } else {
        let d = s.drop_last();
        assert(all_wf(d)) by {
            assert forall|k: int| 0 <= k < d.len() implies d[k].wf() by {
                assert(d[k] == s[k]);
            }
        }
        lemma_mnemonics_sum_to_feature(d, f);
        assert(d.push(s.last()) =~= s);
        assert(s.last().wf());
        lemma_pair_row_push(d, s.last(), f, MNEMONIC_COUNT as nat);
    }
}

proof fn lemma_pair_row_empty(s: Seq<InstrView>, f: usize, n: nat)
    requires
        s.len() == 0,
    ensures
        pair_row_sum(s, f, n) == 0,
    decreases n,
{
    if n > 0 {
        lemma_pair_row_empty(s, f, (n - 1) as nat);
    }
}

proof fn lemma_pair_le_tally(s: Seq<InstrView>, f: usize, m: usize)
    ensures
        pair_tally(s, f, m) <= feature_tally(s, f),
    decreases s.len(),
{
    if s.len() > 0 {
        lemma_pair_le_tally(s.drop_last(), f, m);
    }
}

proof fn lemma_register_le_slots(s: Seq<InstrView>, r: usize)
    ensures
        register_tally(s, r) <= slot_weight(s),
    decreases s.len(),
{
    if s.len() > 0 {
        lemma_register_le_slots(s.drop_last(), r);
        lemma_occurrences_le(s.last().registers, r);
    }
}

proof fn lemma_slots_prefix(s: Seq<InstrView>, k: int)
    requires
        0 <= k <= s.len(),
    ensures
        slot_weight(s.take(k)) <= slot_weight(s),
    decreases s.len() - k,
{
    if k < s.len() {
        lemma_slots_prefix(s, k + 1);
        assert(s.take(k + 1).drop_last() =~= s.take(k));
    } else {
        assert(s.take(k) =~= s);
    }
}

proof fn lemma_sum_update(c: Seq<u64>, i: int, v: u64)
    requires
        0 <= i < c.len(),
    ensures
        sum(c.update(i, v)) + c[i] == sum(c) + v,
    decreases c.len(),
{
    if i < c.len() - 1 {
        lemma_sum_update(c.drop_last(), i, v);
        assert(c.update(i, v).drop_last() =~= c.drop_last().update(i, v));
    } else {
        assert(c.update(i, v).drop_last() =~= c.drop_last());
    }
}

proof fn lemma_entry_le_sum(c: Seq<u64>, i: int)
    requires
        0 <= i < c.len(),
    ensures
        c[i] <= sum(c),
    decreases c.len(),
{
    if i < c.len() - 1 {
        lemma_entry_le_sum(c.drop_last(), i);
    }
}

/// The count of one feature, with a counter for each mnemonic.
pub struct DetailCounter {
    pub count: u64,
    pub mnemonics: Vec<u64>,
}

impl DetailCounter {
    pub open spec fn wf(&self) -> bool {
        &&& self.mnemonics@.len() == MNEMONIC_COUNT
        &&& self.count == sum(self.mnemonics@)
    }

    fn new() -> (r: Self)
        ensures
            r.wf(),
            r.count == 0,
            forall|m: int| 0 <= m < MNEMONIC_COUNT ==> #[trigger] r.mnemonics@[m] == 0,
    {
        let mnemonics = vec![0u64; MNEMONIC_COUNT];
        proof {
            lemma_sum_zero(mnemonics@);
        }
        DetailCounter { count: 0, mnemonics }
    }

    fn add(&mut self, mnemonic: usize)
        requires
            old(self).wf(),
            mnemonic < MNEMONIC_COUNT,
            old(self).count < u64::MAX,
        ensures
            final(self).wf(),
            final(self).count == old(self).count + 1,
            final(self).mnemonics@ == old(self).mnemonics@.update(
                mnemonic as int,
                (old(self).mnemonics@[mnemonic as int] + 1) as u64,
            ),
    {
        proof {
            lemma_entry_le_sum(self.mnemonics@, mnemonic as int);
            lemma_sum_update(
                self.mnemonics@,
                mnemonic as int,
                (self.mnemonics@[mnemonic as int] + 1) as u64,
            );
        }
        self.count = self.count + 1;
        self.mnemonics[mnemonic] = self.mnemonics[mnemonic] + 1;
    }
}

proof fn lemma_sum_zero(c: Seq<u64>)
    requires
        forall|i: int| 0 <= i < c.len() ==> c[i] == 0,
    ensures
        sum(c) == 0,
    decreases c.len(),
{
    if c.len() > 0 {
        lemma_sum_zero(c.drop_last());
    }
}

/// The feature counters `fs` hold the tallies of `s`, and besides those, for
/// an instruction of mnemonic `m`, the features listed in `extra`.
pub open spec fn counters_after(
    fs: Seq<DetailCounter>,
    s: Seq<InstrView>,
    extra: Seq<usize>,
    m: usize,
) -> bool {
    &&& fs.len() == FEATURE_COUNT
    &&& forall|f: int|
        0 <= f < FEATURE_COUNT ==> {
            &&& (#[trigger] fs[f]).wf()
            &&& fs[f].count == feature_tally(s, f as usize) + occurrences(extra, f as usize)
            &&& forall|n: int|
                0 <= n < MNEMONIC_COUNT ==> #[trigger] fs[f].mnemonics@[n] == pair_tally(
                    s,
                    f as usize,
                    n as usize,
                ) + if n == m {
                    occurrences(extra, f as usize)
                } else {
                    0
                }
        }
}

/// Counts, for each CPU feature, the valid instructions that require it and
/// their mnemonics; and, apart from that, the registers of their operands.
pub struct TaskDetail {
    pub features: Vec<DetailCounter>,
    pub registers: Vec<u64>,
    /// The sum of the feature counters.
    pub total: u64,
    /// The number of operand slots of the valid instructions seen.
    pub slots: u64,
    pub seen: Ghost<Seq<InstrView>>,
}

/// The feature counters of a detail task, indexed by feature id.
pub open spec fn detail_counts(fs: Seq<DetailCounter>) -> Seq<u64> {
    Seq::new(fs.len(), |f: int| fs[f].count)
}

impl Task for TaskDetail {
    type Output = (Vec<Detail>, Vec<Count>);

    open spec fn wf(&self) -> bool {
        &&& self.features@.len() == FEATURE_COUNT
        &&& self.registers@.len() == REGISTER_COUNT
        &&& self.total == feature_weight(self.seen@)
        &&& self.slots == slot_weight(self.seen@)
        &&& forall|f: int|
            0 <= f < FEATURE_COUNT ==> {
                &&& (#[trigger] self.features@[f]).wf()
                &&& self.features@[f].count == feature_tally(self.seen@, f as usize)
                &&& forall|m: int|
                    0 <= m < MNEMONIC_COUNT ==> #[trigger] self.features@[f].mnemonics@[m]
                        == pair_tally(self.seen@, f as usize, m as usize)
            }
        &&& forall|r: int|
            0 <= r < REGISTER_COUNT ==> #[trigger] self.registers@[r] == register_tally(
                self.seen@,
                r as usize,
            )
        &&& all_wf(self.seen@)
    }

    open spec fn seen(&self) -> Seq<InstrView> {
        self.seen@
    }

    open spec fn within(s: Seq<InstrView>) -> bool {
        feature_weight(s) <= u64::MAX && slot_weight(s) <= u64::MAX
    }

    proof fn lemma_within_prefix(s: Seq<InstrView>, k: int) {
        lemma_weight_prefix(s, k);
        lemma_slots_prefix(s, k);
    }

    proof fn lemma_wf_within(&self) {
    }

    fn new() -> (r: Self) {
        let mut features: Vec<DetailCounter> = Vec::new();
        let mut f: usize = 0;
        while f < FEATURE_COUNT
            invariant
                f <= FEATURE_COUNT,
                features@.len() == f,
                forall|g: int|
                    0 <= g < f ==> {
                        &&& (#[trigger] features@[g]).wf()
                        &&& features@[g].count == 0
                        &&& forall|m: int|
                            0 <= m < MNEMONIC_COUNT ==> #[trigger] features@[g].mnemonics@[m] == 0
                    },
            decreases FEATURE_COUNT - f,
        {
            features.push(DetailCounter::new());
            f += 1;
        }
        let registers = vec![0u64; REGISTER_COUNT];
        TaskDetail { features, registers, total: 0, slots: 0, seen: Ghost(Seq::empty()) }
    }

    fn can_add(&self, i: &Instr) -> (r: bool) {
        assert(self.seen@.push(i@).drop_last() =~= self.seen@);
        !i.valid || (i.features.len() as u64 <= u64::MAX - self.total && 4 <= u64::MAX
            - self.slots)
    }

    fn add(&mut self, i: &Instr) {
        let ghost s0 = self.seen@;
        let ghost s1 = s0.push(i@);
        assert(s1.drop_last() =~= s0);
        if i.valid {
            let m = i.mnemonic;
            let mut j: usize = 0;
            while j < i.features.len()
                invariant
                    j <= i.features.len(),
                    i@.wf(),
                    i.valid,
                    m == i.mnemonic,
                    feature_weight(s1) <= u64::MAX,
                    feature_weight(s1) == feature_weight(s0) + i.features.len(),
                    self.total == old(self).total,
                    self.slots == old(self).slots,
                    self.registers@ == old(self).registers@,
                    counters_after(self.features@, s0, i.features@.take(j as int), m),
                decreases i.features.len() - j,
            {
                let f = i.features[j];
                proof {
                    assert(i@.features[j as int] == f);
                    assert(self.features@[f as int].wf());
                    assert(self.features@[f as int].count == feature_tally(s0, f) + occurrences(
                        i.features@.take(j as int),
                        f,
                    ));
                    lemma_tally_le_weight(s0, f);
                    lemma_occurrences_le(i.features@.take(j as int), f);
                    assert(i.features@.take(j + 1) =~= i.features@.take(j as int).push(f));
                    assert forall|g: usize| #[trigger]
                        occurrences(i.features@.take(j + 1), g) == occurrences(
                            i.features@.take(j as int),
                            g,
                        ) + if f == g {
                            1nat
                        } else {
                            0nat
                        } by {
                        lemma_occurrences_push(i.features@.take(j as int), f, g);
                    }
                }
                let ghost fs = self.features@;
                self.features[f].add(m);
                proof {
                    let e = i.features@.take(j + 1);
                    assert forall|g: int| 0 <= g < FEATURE_COUNT implies {
                        &&& (#[trigger] self.features@[g]).wf()
                        &&& self.features@[g].count == feature_tally(s0, g as usize)
                            + occurrences(e, g as usize)
                        &&& forall|n: int|
                            0 <= n < MNEMONIC_COUNT ==> #[trigger] self.features@[g].mnemonics@[n]
                                == pair_tally(s0, g as usize, n as usize) + if n == m {
                                occurrences(e, g as usize)
                            } else {
                                0
                            }
                    } by {
                        if g != f as int {
                            assert(self.features@[g] == fs[g]);
                        } else {
                            assert(fs[g].wf());
                            lemma_entry_le_sum(fs[g].mnemonics@, m as int);
                            assert(occurrences(e, f) == occurrences(i.features@.take(j as int), f)
                                + 1);
                            assert forall|n: int| 0 <= n < MNEMONIC_COUNT implies #[trigger]
                                self.features@[g].mnemonics@[n] == pair_tally(
                                    s0,
                                    g as usize,
                                    n as usize,
                                ) + if n == m {
                                    occurrences(e, g as usize)
                                } else {
                                    0
                                } by {
                                assert(self.features@[g].mnemonics@ == fs[g].mnemonics@.update(
                                    m as int,
                                    (fs[g].mnemonics@[m as int] + 1) as u64,
                                ));
                                assert(fs[g].mnemonics@[n] == pair_tally(s0, g as usize, n as usize)
                                    + if n == m {
                                    occurrences(i.features@.take(j as int), g as usize)
                                } else {
                                    0
                                });
                            }
                        }
                    }
                }
                j += 1;
            }
            assert(i.features@.take(i.features.len() as int) =~= i.features@);
            self.total = self.total + i.features.len() as u64;
            let mut op: usize = 0;
            while op < 4
                invariant
                    op <= 4,
                    i@.wf(),
                    i.valid,
                    self.registers@.len() == REGISTER_COUNT,
                    self.slots == slot_weight(s0),
                    self.total == feature_weight(s1),
                    counters_after(self.features@, s0, i.features@, m),
                    slot_weight(s1) <= u64::MAX,
                    slot_weight(s1) == slot_weight(s0) + 4,
                    forall|r: int|
                        0 <= r < REGISTER_COUNT ==> #[trigger] self.registers@[r] == register_tally(
                            s0,
                            r as usize,
                        ) + if r != 0 {
                            occurrences(i.registers@.take(op as int), r as usize)
                        } else {
                            0
                        },
                decreases 4 - op,
            {
                let r = i.registers[op];
                proof {
                    assert(i@.registers[op as int] == r);
                    assert(i.registers@.take(op + 1) =~= i.registers@.take(op as int).push(r));
                    assert forall|g: usize| #[trigger]
                        occurrences(i.registers@.take(op + 1), g) == occurrences(
                            i.registers@.take(op as int),
                            g,
                        ) + if r == g {
                            1nat
                        } else {
                            0nat
                        } by {
                        lemma_occurrences_push(i.registers@.take(op as int), r, g);
                    }
                }
                if r > 0 {
                    proof {
                        assert(self.registers@[r as int] == register_tally(s0, r) + occurrences(
                            i.registers@.take(op as int),
                            r,
                        ));
                        lemma_register_le_slots(s0, r);
                        lemma_occurrences_le(i.registers@.take(op as int), r);
                    }
                    self.registers[r] = self.registers[r] + 1;
                }
                op += 1;
            }
            assert(i.registers@.take(4) =~= i.registers@);
            self.slots = self.slots + 4;
        }
        self.seen = Ghost(s1);
    }

    open spec fn reports(&self, r: (Vec<Detail>, Vec<Count>)) -> bool {
        &&& r.0.len() == nonzero(detail_counts(self.features@)).len()
        &&& forall|k: int|
            0 <= k < r.0.len() ==> {
                let e = nonzero(detail_counts(self.features@))[k];
                let d = #[trigger] r.0@[k];
                &&& d.id == e.id
                &&& d.count == e.count
                &&& d.mnemonics@ == nonzero(self.features@[e.id as int].mnemonics@)
                &&& d.wf()
            }
        &&& r.1@ == nonzero(self.registers@)
    }

    fn into_result(self) -> (r: (Vec<Detail>, Vec<Count>)) {
        self.report()
    }
}

impl TaskDetail {
    /// The report: each feature that was required, with its count and the
    /// mnemonics that required it, in id order; and each register used, with
    /// its count, in id order. A feature's count is the sum of its
    /// mnemonics' counts.
    pub fn report(self) -> (r: (Vec<Detail>, Vec<Count>))
        requires
            self.wf(),
        ensures
            r.0.len() == nonzero(detail_counts(self.features@)).len(),
            forall|k: int|
                0 <= k < r.0.len() ==> {
                    let e = nonzero(detail_counts(self.features@))[k];
                    let d = #[trigger] r.0@[k];
                    &&& d.id == e.id
                    &&& d.count == e.count
                    &&& d.mnemonics@ == nonzero(self.features@[e.id as int].mnemonics@)
                    &&& d.wf()
                },
            r.1@ == nonzero(self.registers@),
            ids_rising(r.0@),
    {
        let ghost fc = detail_counts(self.features@);
        let mut details: Vec<Detail> = Vec::new();
        let mut f: usize = 0;
        while f < self.features.len()
            invariant
                self.wf(),
                fc == detail_counts(self.features@),
                f <= self.features.len(),
                details.len() == nonzero(fc.take(f as int)).len(),
                forall|k: int|
                    0 <= k < details.len() ==> {
                        let e = nonzero(fc.take(f as int))[k];
                        let d = #[trigger] details@[k];
                        &&& d.id == e.id
                        &&& d.count == e.count
                        &&& d.mnemonics@ == nonzero(self.features@[e.id as int].mnemonics@)
                        &&& d.wf()
                    },
            decreases self.features.len() - f,
        {
            assert(fc.take(f + 1).drop_last() =~= fc.take(f as int));
            let ghost before = nonzero(fc.take(f as int));
            let c = self.features[f].count;
            if c > 0 {
                let mnemonics = map_counts(&self.features[f].mnemonics);
                proof {
                    lemma_nonzero_total(self.features@[f as int].mnemonics@);
                }
                details.push(Detail { id: f, count: c, mnemonics });
                assert forall|k: int| 0 <= k < details.len() implies {
                    let e = nonzero(fc.take(f + 1))[k];
                    let d = #[trigger] details@[k];
                    &&& d.id == e.id
                    &&& d.count == e.count
                    &&& d.mnemonics@ == nonzero(self.features@[e.id as int].mnemonics@)
                    &&& d.wf()
                } by {
                    if k < details.len() - 1 {
                        assert(nonzero(fc.take(f + 1))[k] == before[k]);
                    }
                }
            }
            f += 1;
        }
        assert(fc.take(FEATURE_COUNT as int) =~= fc);
        proof {
            lemma_nonzero_entries(fc);
            assert forall|i: int, j: int| 0 <= i < j < details.len() implies details@[i].spec_id()
                < details@[j].spec_id() by {
                assert(details@[i].id == nonzero(fc)[i].id);
                assert(details@[j].id == nonzero(fc)[j].id);
            }
        }
        let registers = map_counts(&self.registers);
        (details, registers)
    }
}

/// The counters of a task would overflow.
#[derive(Clone, Copy, Debug, PartialEq, Eq, Structural)]
pub struct Overflow;

/// Why the code sections could not all be decoded.
#[derive(Clone, Copy, Debug, PartialEq, Eq, Structural)]
pub enum ReadError {
    /// A section's byte range runs past the end of the file.
    ShortRead,
    /// The task's counters would overflow.
    Overflow,
}

/// The bytes of segment `s` of a file that holds `data`; none where its
/// range runs past the end of the file.
pub open spec fn segment_bytes(data: Seq<u8>, s: Segment) -> Option<Seq<u8>> {
    if s.offset + s.size <= data.len() {
        Some(data.subrange(s.offset as int, s.offset + s.size))
    } else {
        None
    }
}

/// Every segment of `segs` lies within the file.
pub open spec fn all_in_file(data: Seq<u8>, segs: Seq<Segment>) -> bool {
    forall|k: int| 0 <= k < segs.len() ==> (#[trigger] segment_bytes(data, segs[k])) is Some
}

/// The instructions of the segments `segs`, one after the other, each
/// segment decoded on its own from its first byte.
pub open spec fn decoded_all(bitness: u32, data: Seq<u8>, segs: Seq<Segment>) -> Seq<InstrView>
    decreases segs.len(),
{
    if segs.len() == 0 {
        Seq::empty()
    } else {
        let bytes = match segment_bytes(data, segs.last()) {
            Some(b) => b,
            None => Seq::empty(),
        };
        decoded_all(bitness, data, segs.drop_last()) + decoded(bitness, bytes)
    }
}

proof fn lemma_decoded_all_prefix(bitness: u32, data: Seq<u8>, segs: Seq<Segment>, k: int)
    requires
        0 <= k <= segs.len(),
    ensures
        decoded_all(bitness, data, segs).take(decoded_all(bitness, data, segs.take(k)).len() as int)
            == decoded_all(bitness, data, segs.take(k)),
        decoded_all(bitness, data, segs.take(k)).len() <= decoded_all(bitness, data, segs).len(),
    decreases segs.len() - k,
{
    let all = decoded_all(bitness, data, segs);
    if k == segs.len() {
        assert(segs.take(k) =~= segs);
        assert(all.take(all.len() as int) =~= all);
    } else {
        lemma_decoded_all_prefix(bitness, data, segs, k + 1);
        assert(segs.take(k + 1).drop_last() =~= segs.take(k));
        let a = decoded_all(bitness, data, segs.take(k));
        let b = decoded_all(bitness, data, segs.take(k + 1));
        assert forall|i: int| 0 <= i < a.len() implies all[i] == a[i] by {
            assert(b[i] == a[i]);
            assert(all.take(b.len() as int)[i] == b[i]);
        }
        assert(all.take(a.len() as int) =~= a);
    }
}

/// Feeds the instructions decoded from byte ranges to a task.
pub struct Decoder<T: Task> {
    pub bitness: u32,
    pub task: T,
}

impl<T: Task> Decoder<T> {
    pub fn new(bitness: u32, task: T) -> (r: Self)
        requires
            bitness == 32 || bitness == 64,
        ensures
            r.bitness == bitness,
            r.task == task,
    {
        Decoder { bitness, task }
    }

    /// Decodes `data` from its first byte and hands every instruction, valid
    /// or not, to the task. Fails, leaving the task with the instructions
    /// before the first that does not fit, where its counters would overflow.
    pub fn read(&mut self, data: &[u8]) -> (r: Result<(), Overflow>)
        requires
            old(self).task.wf(),
            old(self).bitness == 32 || old(self).bitness == 64,
        ensures
            final(self).bitness == old(self).bitness,
            final(self).task.wf(),
            r is Ok <==> T::within(old(self).task.seen() + decoded(old(self).bitness, data@)),
            r is Ok ==> final(self).task.seen() == old(self).task.seen() + decoded(
                old(self).bitness,
                data@,
            ),
            r is Err ==> exists|k: int|
                0 <= k < decoded(old(self).bitness, data@).len() && final(self).task.seen()
                    == old(self).task.seen() + decoded(old(self).bitness, data@).take(k),
    {
        let insns = decode(self.bitness, data);
        let ghost d = decoded(self.bitness, data@);
        let ghost s0 = self.task.seen();
        assert(insns@.len() == d.len());
        let mut k: usize = 0;
        while k < insns.len()
            invariant
                k <= insns.len(),
                insns@.len() == d.len(),
                forall|m: int| 0 <= m < insns.len() ==> (#[trigger] insns@[m])@ == d[m],
                forall|m: int| 0 <= m < insns.len() ==> (#[trigger] insns@[m])@.wf(),
                self.task.wf(),
                self.task.seen() == s0 + d.take(k as int),
                self.bitness == old(self).bitness,
                d == decoded(old(self).bitness, data@),
                s0 == old(self).task.seen(),
            decreases insns.len() - k,
        {
            assert(insns@.map_values(|i: Instr| i@)[k as int] == insns@[k as int]@);
            assert((s0 + d.take(k as int)).push(d[k as int]) =~= (s0 + d).take(
                s0.len() + k + 1,
            ));
            assert(s0 + d.take(k + 1) =~= (s0 + d.take(k as int)).push(d[k as int]));
            if !self.task.can_add(&insns[k]) {
                proof {
                    if T::within(s0 + d) {
                        T::lemma_within_prefix(s0 + d, s0.len() + k + 1);
                    }
                }
                return Err(Overflow);
            }
            self.task.add(&insns[k]);
            k += 1;
        }
        assert(d.take(d.len() as int) =~= d);
        proof {
            self.task.lemma_wf_within();
        }
        Ok(())
    }

    /// Decodes each segment of the file that `data` holds, in order, each
    /// on its own. Fails where a segment runs past the end of the file, or
    /// where the task's counters would overflow; the task then holds the
    /// instructions taken before.
    pub fn read_segments(&mut self, data: &[u8], segments: &[Segment]) -> (r: Result<(), ReadError>)
        requires
            old(self).task.wf(),
            old(self).bitness == 32 || old(self).bitness == 64,
        ensures
            final(self).bitness == old(self).bitness,
            final(self).task.wf(),
            r is Ok <==> all_in_file(data@, segments@) && T::within(
                old(self).task.seen() + decoded_all(old(self).bitness, data@, segments@),
            ),
            r is Ok ==> final(self).task.seen() == old(self).task.seen() + decoded_all(
                old(self).bitness,
                data@,
                segments@,
            ),
            r == Err::<(), ReadError>(ReadError::ShortRead) ==> !all_in_file(data@, segments@),
            r == Err::<(), ReadError>(ReadError::Overflow) ==> !T::within(
                old(self).task.seen() + decoded_all(old(self).bitness, data@, segments@),
            ),
    {
        let ghost s0 = self.task.seen();
        let ghost b = self.bitness;
        let ghost all = decoded_all(b, data@, segments@);
        let n: usize = data.len();
        let len = n as u64;
        let mut k: usize = 0;
        while k < segments.len()
            invariant
                k <= segments.len(),
                self.task.wf(),
                self.bitness == b,
                b == old(self).bitness,
                b == 32 || b == 64,
                s0 == old(self).task.seen(),
                all == decoded_all(b, data@, segments@),
                n == data@.len(),
                len == n,
                all_in_file(data@, segments@.take(k as int)),
                self.task.seen() == s0 + decoded_all(b, data@, segments@.take(k as int)),
            decreases segments.len() - k,
        {
            let seg = &segments[k];
            let ghost before = decoded_all(b, data@, segments@.take(k as int));
            proof {
                assert(segments@.take(k + 1).drop_last() =~= segments@.take(k as int));
                assert(segments@.take(k + 1).last() == segments@[k as int]);
                lemma_decoded_all_prefix(b, data@, segments@, k + 1);
            }
            if seg.size > len || seg.offset > len - seg.size {
                proof {
                    assert(segment_bytes(data@, segments@[k as int]) is None);
                }
                return Err(ReadError::ShortRead);
            }
            let start = seg.offset as usize;
            let end = (seg.offset + seg.size) as usize;
            let bytes = slice_subrange(data, start, end);
            assert(bytes@ == segment_bytes(data@, segments@[k as int])->0);
            assert forall|m: int| 0 <= m < k + 1 implies (#[trigger] segment_bytes(
                data@,
                segments@.take(k + 1)[m],
            )) is Some by {
                if m < k {
                    assert(segments@.take(k + 1)[m] == segments@.take(k as int)[m]);
                    assert(segment_bytes(data@, segments@.take(k as int)[m]) is Some);
                }
            }
            let ghost next = decoded_all(b, data@, segments@.take(k + 1));
            assert(s0 + next =~= (s0 + before) + decoded(b, bytes@));
            match self.read(bytes) {
                Ok(()) => {},
                Err(_) => {
                    proof {
                        if T::within(s0 + all) {
                            assert((s0 + all).take((s0.len() + next.len()) as int) =~= s0 + next);
                            T::lemma_within_prefix(s0 + all, (s0.len() + next.len()) as int);
                        }
                    }
                    return Err(ReadError::Overflow);
                },
            }
            k += 1;
        }
        proof {
            assert(segments@.take(segments.len() as int) =~= segments@);
            self.task.lemma_wf_within();
        }
        Ok(())
    }

    pub fn into_result(self) -> (r: T::Output)
        requires
            self.task.wf(),
        ensures
            self.task.reports(r),
    {
        self.task.into_result()
    }
}

} // verus!
