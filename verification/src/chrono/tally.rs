//! Totals of dice outcomes.
use vstd::prelude::*;

use crate::chrono::axes::RollAxes;

verus! {

/// The mathematical value of a total: one unbounded integer per score.
pub struct Tally {
    pub passfail: int,
    pub blank: int,
    pub luck: int,
    pub triumph: int,
    pub despair: int,
}

impl Tally {
    pub open spec fn zero() -> Tally {
        Tally { passfail: 0, blank: 0, luck: 0, triumph: 0, despair: 0 }
    }

    /// Score by score sum.
    pub open spec fn plus(self, o: Tally) -> Tally {
        Tally {
            passfail: self.passfail + o.passfail,
            blank: self.blank + o.blank,
            luck: self.luck + o.luck,
            triumph: self.triumph + o.triumph,
            despair: self.despair + o.despair,
        }
    }

    /// Each score multiplied by `n`.
    pub open spec fn scale(self, n: int) -> Tally {
        Tally {
            passfail: self.passfail * n,
            blank: self.blank * n,
            luck: self.luck * n,
            triumph: self.triumph * n,
            despair: self.despair * n,
        }
    }

    /// Each score is within the range of its field in `DiceRollResult`.
    pub open spec fn fits(self) -> bool {
        &&& i16::MIN <= self.passfail <= i16::MAX
        &&& 0 <= self.blank <= u8::MAX
        &&& i8::MIN <= self.luck <= i8::MAX
        &&& 0 <= self.triumph <= u8::MAX
        &&& 0 <= self.despair <= u8::MAX
    }

    /// Score by score at most.
    pub open spec fn le(self, o: Tally) -> bool {
        &&& self.passfail <= o.passfail
        &&& self.blank <= o.blank
        &&& self.luck <= o.luck
        &&& self.triumph <= o.triumph
        &&& self.despair <= o.despair
    }
}

/// Score by score larger of two totals.
pub open spec fn tally_max(a: Tally, b: Tally) -> Tally {
    Tally {
        passfail: if a.passfail >= b.passfail { a.passfail } else { b.passfail },
        blank: if a.blank >= b.blank { a.blank } else { b.blank },
        luck: if a.luck >= b.luck { a.luck } else { b.luck },
        triumph: if a.triumph >= b.triumph { a.triumph } else { b.triumph },
        despair: if a.despair >= b.despair { a.despair } else { b.despair },
    }
}

/// Score by score smaller of two totals.
pub open spec fn tally_min(a: Tally, b: Tally) -> Tally {
    Tally {
        passfail: if a.passfail <= b.passfail { a.passfail } else { b.passfail },
        blank: if a.blank <= b.blank { a.blank } else { b.blank },
        luck: if a.luck <= b.luck { a.luck } else { b.luck },
        triumph: if a.triumph <= b.triumph { a.triumph } else { b.triumph },
        despair: if a.despair <= b.despair { a.despair } else { b.despair },
    }
}

/// Score by score largest of a non-empty sequence of totals (zero when empty).
pub open spec fn max_tally(s: Seq<Tally>) -> Tally
    decreases s.len(),
{
    if s.len() == 0 {
        Tally::zero()
    } else if s.len() == 1 {
        s[0]
    } else {
        tally_max(max_tally(s.drop_last()), s.last())
    }
}

/// Score by score smallest of a non-empty sequence of totals (zero when empty).
pub open spec fn min_tally(s: Seq<Tally>) -> Tally
    decreases s.len(),
{
    if s.len() == 0 {
        Tally::zero()
    } else if s.len() == 1 {
        s[0]
    } else {
        tally_min(min_tally(s.drop_last()), s.last())
    }
}

/// Every total of a sequence lies between its smallest and largest.
pub proof fn lemma_min_max_bound(s: Seq<Tally>, j: int)
    requires
        0 <= j < s.len(),
    ensures
        min_tally(s).le(s[j]),
        s[j].le(max_tally(s)),
    decreases s.len(),
{
    if s.len() > 1 && j < s.len() - 1 {
        lemma_min_max_bound(s.drop_last(), j);
    }
}

/// A total that lies score by score between two totals in range is in range.
pub proof fn lemma_fits_between(a: Tally, t: Tally, b: Tally)
    requires
        a.fits(),
        b.fits(),
        a.le(t),
        t.le(b),
    ensures
        t.fits(),
{
}

proof fn lemma_int_between(lo: int, hi: int, k: int, n: int, t: int, min: int, max: int)
    by (nonlinear_arith)
    requires
        min <= 0 <= max,
        0 <= k <= n,
        min <= lo * n,
        hi * n <= max,
        lo * k <= t <= hi * k,
    ensures
        min <= t <= max,
{
}

/// A sum of `k` totals, each between `lo` and `hi`, stays in range when
/// `n * lo` and `n * hi` are and `k <= n`.
pub proof fn lemma_scaled_fits(lo: Tally, hi: Tally, k: int, n: int, t: Tally)
    requires
        0 <= k <= n,
        lo.scale(n).fits(),
        hi.scale(n).fits(),
        lo.scale(k).le(t),
        t.le(hi.scale(k)),
    ensures
        t.fits(),
{
    lemma_int_between(lo.passfail, hi.passfail, k, n, t.passfail, i16::MIN as int, i16::MAX as int);
    lemma_int_between(lo.blank, hi.blank, k, n, t.blank, 0, u8::MAX as int);
    lemma_int_between(lo.luck, hi.luck, k, n, t.luck, i8::MIN as int, i8::MAX as int);
    lemma_int_between(lo.triumph, hi.triumph, k, n, t.triumph, 0, u8::MAX as int);
    lemma_int_between(lo.despair, hi.despair, k, n, t.despair, 0, u8::MAX as int);
}

proof fn lemma_int_scale_step(x: int, k: int)
    by (nonlinear_arith)
    ensures
        x * (k + 1) == x * k + x,
        x * 0 == 0,
{
}

/// Scaling by one more adds one more copy.
pub proof fn lemma_scale_step(t: Tally, k: int)
    ensures
        t.scale(k + 1) == t.scale(k).plus(t),
        t.scale(0) == Tally::zero(),
{
    lemma_int_scale_step(t.passfail, k);
    lemma_int_scale_step(t.blank, k);
    lemma_int_scale_step(t.luck, k);
    lemma_int_scale_step(t.triumph, k);
    lemma_int_scale_step(t.despair, k);
}

/// What one outcome adds to a total.
pub open spec fn axis_tally(a: RollAxes) -> Tally {
    match a {
        RollAxes::Blank => Tally { blank: 1, ..Tally::zero() },
        RollAxes::OppThreat(ot) => Tally {
            luck: if ot {
                1
            } else {
                -1
            },
            ..Tally::zero()
        },
        RollAxes::PassFail { outcome, outstanding } => Tally {
            passfail: if outcome {
                1
            } else {
                -1
            },
            triumph: if outstanding && outcome {
                1
            } else {
                0
            },
            despair: if outstanding && !outcome {
                1
            } else {
                0
            },
            ..Tally::zero()
        },
    }
}

/// The total of a sequence of outcomes, added left to right.
pub open spec fn sum_axes(s: Seq<RollAxes>) -> Tally
    decreases s.len(),
{
    if s.len() == 0 {
        Tally::zero()
    } else {
        sum_axes(s.drop_last()).plus(axis_tally(s.last()))
    }
}

/// Adding the outcomes of `s` one by one to a zero total stays within the
/// fields' ranges at every step.
pub open spec fn axes_fit(s: Seq<RollAxes>) -> bool {
    forall|k: int| 0 <= k <= s.len() ==> #[trigger] sum_axes(s.take(k)).fits()
}

/// The total outcome of a roll, one field per score.
#[derive(Debug, Clone, Copy)]
pub struct DiceRollResult {
    pub passfail: i16,
    pub blank: u8,
    pub luck: i8,
    pub triumph: u8,
    pub despair: u8,
}

impl View for DiceRollResult {
    type V = Tally;

    open spec fn view(&self) -> Tally {
        Tally {
            passfail: self.passfail as int,
            blank: self.blank as int,
            luck: self.luck as int,
            triumph: self.triumph as int,
            despair: self.despair as int,
        }
    }
}

impl Default for DiceRollResult {
    fn default() -> (r: DiceRollResult)
        ensures
            r@ == Tally::zero(),
    {
        DiceRollResult { passfail: 0, blank: 0, luck: 0, triumph: 0, despair: 0 }
    }
}

impl DiceRollResult {
    /// Adds one outcome: a blank counts one blank; a pass or fail moves
    /// `passfail` up or down by one and, when outstanding, counts a triumph
    /// or a despair; an opportunity or threat moves `luck` up or down by one.
    pub fn add_axis(&mut self, rhs: &RollAxes)
        requires
            old(self)@.plus(axis_tally(*rhs)).fits(),
        ensures
            final(self)@ == old(self)@.plus(axis_tally(*rhs)),
    {
        match rhs {
            RollAxes::Blank => {
                self.blank = self.blank + 1;
            },
            RollAxes::PassFail { outcome, outstanding } => {
                if *outcome {
                    self.passfail = self.passfail + 1;
                } else {
                    self.passfail = self.passfail - 1;
                }
                if *outstanding {
                    if *outcome {
                        self.triumph = self.triumph + 1;
                    } else {
                        self.despair = self.despair + 1;
                    }
                }
            },
            RollAxes::OppThreat(ot) => {
                if *ot {
                    self.luck = self.luck + 1;
                } else {
                    self.luck = self.luck - 1;
                }
            },
        }
    }

    /// Adds another total, score by score.
    pub fn add_result(&mut self, rhs: &DiceRollResult)
        requires
            old(self)@.plus(rhs@).fits(),
        ensures
            final(self)@ == old(self)@.plus(rhs@),
    {
        self.passfail = self.passfail + rhs.passfail;
        self.blank = self.blank + rhs.blank;
        self.luck = self.luck + rhs.luck;
        self.triumph = self.triumph + rhs.triumph;
        self.despair = self.despair + rhs.despair;
    }

    /// The score by score sum of two totals, or nothing when some score
    /// would leave the range of its field.
    pub fn checked_plus(&self, rhs: &DiceRollResult) -> (r: Option<DiceRollResult>)
        ensures
            match r {
                Some(x) => x@ == self@.plus(rhs@),
                None => !self@.plus(rhs@).fits(),
            },
    {
        let w = WideTally::scaled(self, 1).plus(&WideTally::scaled(rhs, 1));
        assert(self@.scale(1) == self@ && rhs@.scale(1) == rhs@);
        if w.fits() {
            let mut x = *self;
            x.add_result(rhs);
            Some(x)
        } else {
            None
        }
    }

    /// The total of one outcome.
    pub fn from_axis(item: &RollAxes) -> (r: DiceRollResult)
        ensures
            r@ == axis_tally(*item),
    {
        let mut r = DiceRollResult::default();
        r.add_axis(item);
        r
    }

    /// The total of a sequence of outcomes, added left to right.
    pub fn from_axes(v: &Vec<RollAxes>) -> (r: DiceRollResult)
        requires
            axes_fit(v@),
        ensures
            r@ == sum_axes(v@),
    {
        let mut r = DiceRollResult::default();
        let mut i: usize = 0;
        while i < v.len()
            invariant
                i <= v.len(),
                axes_fit(v@),
                r@ == sum_axes(v@.take(i as int)),
            decreases v.len() - i,
        {
            assert(v@.take(i + 1).drop_last() =~= v@.take(i as int));
            assert(sum_axes(v@.take(i + 1)).fits());
            r.add_axis(&v[i]);
            i = i + 1;
        }
        assert(v@.take(i as int) =~= v@);
        r
    }
}

impl RollAxes {
    /// The total of two outcomes.
    pub fn add(&self, rhs: &RollAxes) -> (r: DiceRollResult)
        ensures
            r@ == axis_tally(*self).plus(axis_tally(*rhs)),
    {
        let mut r = DiceRollResult::from_axis(self);
        r.add_axis(rhs);
        r
    }
}


/// Adding totals does not depend on their order.
pub proof fn lemma_plus_commutative(a: Tally, b: Tally)
    ensures
        a.plus(b) == b.plus(a),
{
}

/// Adding totals does not depend on how they are grouped.
pub proof fn lemma_plus_associative(a: Tally, b: Tally, c: Tally)
    ensures
        a.plus(b).plus(c) == a.plus(b.plus(c)),
{
}

/// The zero total adds nothing.
pub proof fn lemma_plus_zero(a: Tally)
    ensures
        a.plus(Tally::zero()) == a,
        Tally::zero().plus(a) == a,
{
}

/// The total of two runs of outcomes one after the other is the sum of
/// their totals.
pub proof fn lemma_sum_axes_concat(a: Seq<RollAxes>, b: Seq<RollAxes>)
    ensures
        sum_axes(a + b) == sum_axes(a).plus(sum_axes(b)),
    decreases b.len(),
{
    if b.len() == 0 {
        assert(a + b =~= a);
    } else {
        assert((a + b).drop_last() =~= a + b.drop_last());
        assert((a + b).last() == b.last());
        lemma_sum_axes_concat(a, b.drop_last());
    }
}

/// The total of outcomes does not depend on their order: swapping two runs
/// gives the same total.
pub proof fn lemma_sum_axes_swap(a: Seq<RollAxes>, b: Seq<RollAxes>)
    ensures
        sum_axes(a + b) == sum_axes(b + a),
{
    lemma_sum_axes_concat(a, b);
    lemma_sum_axes_concat(b, a);
}

/// Adding two outcomes does not depend on their order.
pub proof fn lemma_axes_add_commutative(a: RollAxes, b: RollAxes)
    ensures
        axis_tally(a).plus(axis_tally(b)) == axis_tally(b).plus(axis_tally(a)),
{
}

/// A total held in wide integers, for checking bounds before rolling.
#[derive(Clone, Copy)]
pub struct WideTally {
    pub passfail: i64,
    pub blank: i64,
    pub luck: i64,
    pub triumph: i64,
    pub despair: i64,
}

impl View for WideTally {
    type V = Tally;

    open spec fn view(&self) -> Tally {
        Tally {
            passfail: self.passfail as int,
            blank: self.blank as int,
            luck: self.luck as int,
            triumph: self.triumph as int,
            despair: self.despair as int,
        }
    }
}

/// No score of `t` is further from zero than `bound`.
pub open spec fn within(t: Tally, bound: int) -> bool {
    &&& -bound <= t.passfail <= bound
    &&& -bound <= t.blank <= bound
    &&& -bound <= t.luck <= bound
    &&& -bound <= t.triumph <= bound
    &&& -bound <= t.despair <= bound
}

proof fn lemma_mul_bound(x: int, n: int)
    by (nonlinear_arith)
    requires
        -32768 <= x <= 32767,
        0 <= n <= 255,
    ensures
        -8388608 <= x * n <= 8388608,
{
}

impl WideTally {
    pub fn zero() -> (r: WideTally)
        ensures
            r@ == Tally::zero(),
    {
        WideTally { passfail: 0, blank: 0, luck: 0, triumph: 0, despair: 0 }
    }

    /// `n` copies of a total.
    pub fn scaled(r: &DiceRollResult, n: u8) -> (w: WideTally)
        ensures
            w@ == r@.scale(n as int),
            within(w@, 8388608),
    {
        proof {
            lemma_mul_bound(r.passfail as int, n as int);
            lemma_mul_bound(r.blank as int, n as int);
            lemma_mul_bound(r.luck as int, n as int);
            lemma_mul_bound(r.triumph as int, n as int);
            lemma_mul_bound(r.despair as int, n as int);
        }
        WideTally {
            passfail: (r.passfail as i64) * (n as i64),
            blank: (r.blank as i64) * (n as i64),
            luck: (r.luck as i64) * (n as i64),
            triumph: (r.triumph as i64) * (n as i64),
            despair: (r.despair as i64) * (n as i64),
        }
    }

    /// Score by score sum.
    pub fn plus(&self, o: &WideTally) -> (w: WideTally)
        requires
            within(self@, 8388608),
            within(o@, 8388608),
        ensures
            w@ == self@.plus(o@),
    {
        WideTally {
            passfail: self.passfail + o.passfail,
            blank: self.blank + o.blank,
            luck: self.luck + o.luck,
            triumph: self.triumph + o.triumph,
            despair: self.despair + o.despair,
        }
    }

    /// Whether each score is within the range of its field in
    /// `DiceRollResult`.
    pub fn fits(&self) -> (b: bool)
        ensures
            b == self@.fits(),
    {
        -32768 <= self.passfail && self.passfail <= 32767 && 0 <= self.blank && self.blank <= 255
            && -128 <= self.luck && self.luck <= 127 && 0 <= self.triumph && self.triumph <= 255
            && 0 <= self.despair && self.despair <= 255
    }
}

/// Whether adding the outcomes one by one to a zero total stays within the
/// fields' ranges at every step.
pub fn axes_fit_check(v: &Vec<RollAxes>) -> (b: bool)
    ensures
        b == axes_fit(v@),
{
    let mut acc = WideTally::zero();
    assert(v@.take(0) =~= Seq::<RollAxes>::empty());
    let mut i: usize = 0;
    while i < v.len()
        invariant
            i <= v.len(),
            acc@ == sum_axes(v@.take(i as int)),
            forall|k: int| 0 <= k <= i ==> #[trigger] sum_axes(v@.take(k)).fits(),
        decreases v.len() - i,
    {
        assert(v@.take(i + 1).drop_last() =~= v@.take(i as int));
        assert(v@.take(i + 1).last() == v@[i as int]);
        assert(acc@.fits());
        let step = WideTally::from_axis(&v[i]);
        acc = acc.plus(&step);
        if !acc.fits() {
            assert(!sum_axes(v@.take(i + 1)).fits());
            return false;
        }
        i = i + 1;
    }
    assert(v@.take(i as int) =~= v@);
    assert forall|k: int| 0 <= k <= v@.len() implies #[trigger] sum_axes(v@.take(k)).fits() by {
        assert(v@.take(k) == v@.take(i as int).take(k));
    }
    true
}

impl WideTally {
    /// What one outcome adds to a total.
    pub fn from_axis(a: &RollAxes) -> (w: WideTally)
        ensures
            w@ == axis_tally(*a),
            within(w@, 1),
    {
        match a {
            RollAxes::Blank => WideTally { blank: 1, ..WideTally::zero() },
            RollAxes::OppThreat(ot) => WideTally {
                luck: if *ot { 1 } else { -1 },
                ..WideTally::zero()
            },
            RollAxes::PassFail { outcome, outstanding } => WideTally {
                passfail: if *outcome { 1 } else { -1 },
                triumph: if *outstanding && *outcome { 1 } else { 0 },
                despair: if *outstanding && !*outcome { 1 } else { 0 },
                ..WideTally::zero()
            },
        }
    }
}

impl DiceRollResult {
    /// Score by score larger of two totals.
    pub fn max_of(a: &DiceRollResult, b: &DiceRollResult) -> (r: DiceRollResult)
        ensures
            r@ == tally_max(a@, b@),
    {
        DiceRollResult {
            passfail: if a.passfail >= b.passfail { a.passfail } else { b.passfail },
            blank: if a.blank >= b.blank { a.blank } else { b.blank },
            luck: if a.luck >= b.luck { a.luck } else { b.luck },
            triumph: if a.triumph >= b.triumph { a.triumph } else { b.triumph },
            despair: if a.despair >= b.despair { a.despair } else { b.despair },
        }
    }

    /// Score by score smaller of two totals.
    pub fn min_of(a: &DiceRollResult, b: &DiceRollResult) -> (r: DiceRollResult)
        ensures
            r@ == tally_min(a@, b@),
    {
        DiceRollResult {
            passfail: if a.passfail <= b.passfail { a.passfail } else { b.passfail },
            blank: if a.blank <= b.blank { a.blank } else { b.blank },
            luck: if a.luck <= b.luck { a.luck } else { b.luck },
            triumph: if a.triumph <= b.triumph { a.triumph } else { b.triumph },
            despair: if a.despair <= b.despair { a.despair } else { b.despair },
        }
    }
}

} // verus!
