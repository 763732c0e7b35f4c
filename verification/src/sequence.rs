//! A musical sequence: notes and rests played one after the other, and stacks
//! of sequences played at once.
use vstd::prelude::*;
use crate::note::Note;
use vstd::arithmetic::mul::{
    lemma_mul_is_associative, lemma_mul_is_distributive_add, lemma_mul_is_distributive_add_other_way,
};
use crate::rational::{Rational, fits_i64, in_i64};

verus! {

/// Items played one after the other, together with their total duration.
#[derive(Debug, PartialEq, Eq)]
pub struct Sequence {
    duration: Rational,
    items: Vec<SeqItem>,
}

/// One item of a sequence.
#[derive(Debug, PartialEq, Eq)]
pub enum SeqItem {
    /// A note held for a duration.
    Note { note: Note, duration: Rational },
    /// Silence for a duration.
    Rest { duration: Rational },
    /// Several sequences played at once.
    Stack { sequences: Vec<Sequence> },
}

/// `a + b` is computed without overflow.
pub open spec fn sum_fits(a: Rational, b: Rational) -> bool {
    &&& fits_i64(a.n() * b.d())
    &&& fits_i64(a.d() * b.n())
    &&& in_i64(a.n() * b.d() + a.d() * b.n())
    &&& in_i64(a.d() * b.d())
    &&& a.d() * b.d() != 0
}

/// `a` and `b` are compared without overflow.
pub open spec fn compare_fits(a: Rational, b: Rational) -> bool {
    fits_i64(a.n() * b.d()) && fits_i64(b.n() * a.d())
}

impl Sequence {
    /// The total duration that the sequence records.
    pub closed spec fn spec_duration(self) -> Rational {
        self.duration
    }

    /// The items of the sequence, in order.
    pub closed spec fn spec_items(self) -> Seq<SeqItem> {
        self.items@
    }
}

/// The longest duration among the sequences, the last one among equals, and
/// zero when there are none.
pub open spec fn longest(s: Seq<Sequence>) -> Rational
    decreases s.len(),
{
    if s.len() == 0 {
        Rational::zero_value()
    } else if s.len() == 1 {
        s[0].spec_duration()
    } else {
        let acc = longest(s.drop_last());
        let x = s.last().spec_duration();
        if x.less(acc) { acc } else { x }
    }
}

/// Every comparison made while finding the longest duration stays in range.
pub open spec fn longest_fits(s: Seq<Sequence>) -> bool
    decreases s.len(),
{
    s.len() <= 1 || (longest_fits(s.drop_last()) && compare_fits(
        longest(s.drop_last()),
        s.last().spec_duration(),
    ))
}

/// How long an item takes: its own duration, or for a stack the longest of
/// its sequences.
pub open spec fn item_duration(item: SeqItem) -> Rational {
    match item {
        SeqItem::Note { duration, .. } => duration,
        SeqItem::Rest { duration } => duration,
        SeqItem::Stack { sequences } => longest(sequences@),
    }
}

/// The duration of the item is found without overflow.
pub open spec fn item_fits(item: SeqItem) -> bool {
    match item {
        SeqItem::Stack { sequences } => longest_fits(sequences@),
        _ => true,
    }
}

/// The sum of the item durations, as the unreduced fraction that adding them
/// one after the other builds.
pub open spec fn total(items: Seq<SeqItem>) -> (int, int)
    decreases items.len(),
{
    if items.len() == 0 {
        (0, 1)
    } else {
        let (p, q) = total(items.drop_last());
        let x = item_duration(items.last());
        (p * x.d() + q * x.n(), q * x.d())
    }
}

/// The recorded duration is the sum of the item durations.
pub open spec fn consistent(s: Sequence) -> bool {
    &&& s.spec_duration().wf()
    &&& total(s.spec_items()).1 != 0
    &&& s.spec_duration().denotes(total(s.spec_items()).0, total(s.spec_items()).1)
}

/// The longest duration among `seqs`.
fn longest_of(seqs: &Vec<Sequence>) -> (r: Rational)
    requires
        longest_fits(seqs@),
    ensures
        r == longest(seqs@),
{
    if seqs.len() == 0 {
        return Rational::zero();
    }
    let mut acc = seqs[0].duration;
    let mut i: usize = 1;
    proof {
        assert(seqs@.take(1).drop_last() =~= seq![]);
        assert(seqs@.take(1) =~= seq![seqs@[0]]);
    }
    while i < seqs.len()
        invariant
            1 <= i <= seqs.len(),
            longest_fits(seqs@),
            acc == longest(seqs@.take(i as int)),
        decreases seqs.len() - i,
    {
        proof {
            lemma_longest_fits_prefix(seqs@, i as int + 1);
            assert(seqs@.take(i as int + 1).drop_last() =~= seqs@.take(i as int));
        }
        acc = acc.max(seqs[i].duration);
        i = i + 1;
    }
    proof {
        assert(seqs@.take(seqs.len() as int) =~= seqs@);
    }
    acc
}

/// A prefix of sequences whose comparisons stay in range has the same property.
proof fn lemma_longest_fits_prefix(s: Seq<Sequence>, k: int)
    requires
        longest_fits(s),
        0 <= k <= s.len(),
    ensures
        longest_fits(s.take(k)),
    decreases s.len(),
{
    if k < s.len() {
        lemma_longest_fits_prefix(s.drop_last(), k);
        assert(s.drop_last().take(k) =~= s.take(k));
    } else {
        assert(s.take(k) =~= s);
    }
}

impl Sequence {
    /// An empty sequence of duration zero.
    pub fn new() -> (r: Sequence)
        ensures
            r.spec_duration() == Rational::zero_value(),
            r.spec_items() == Seq::<SeqItem>::empty(),
            consistent(r),
    {
        proof {
            Rational::lemma_zero_value();
        }
        Sequence { duration: Rational::zero(), items: Vec::new() }
    }

    /// Append an item; the duration grows by the item's duration.
    pub fn add(&mut self, item: SeqItem)
        requires
            item_fits(item),
            sum_fits(old(self).spec_duration(), item_duration(item)),
        ensures
            final(self).spec_duration().is_sum(old(self).spec_duration(), item_duration(item)),
            final(self).spec_items() == old(self).spec_items().push(item),
            consistent(*old(self)) ==> consistent(*final(self)),
    {
        let d = match &item {
            SeqItem::Note { duration, .. } => *duration,
            SeqItem::Rest { duration } => *duration,
            SeqItem::Stack { sequences } => longest_of(sequences),
        };
        let ghost before = *self;
        self.duration = self.duration.add(d);
        self.items.push(item);
        proof {
            let after = *self;
            assert(after.spec_items().drop_last() =~= before.spec_items());
            if consistent(before) {
                let (p, q) = total(before.spec_items());
                assert(d.d() != 0) by (nonlinear_arith)
                    requires before.duration.d() * d.d() != 0;
                lemma_sum_denotes(before.duration, d, after.duration, p, q, d.n(), d.d());
            }
        }
    }

    /// Append all items of `other`; the duration grows by its duration.
    pub fn extend(&mut self, other: Sequence)
        requires
            sum_fits(old(self).spec_duration(), other.spec_duration()),
        ensures
            final(self).spec_duration().is_sum(old(self).spec_duration(), other.spec_duration()),
            final(self).spec_items() == old(self).spec_items() + other.spec_items(),
            consistent(*old(self)) && consistent(other) ==> consistent(*final(self)),
    {
        let ghost before = *self;
        self.duration = self.duration.add(other.duration);
        let mut rest = other.items;
        self.items.append(&mut rest);
        proof {
            let after = *self;
            if consistent(before) && consistent(other) {
                let (p1, q1) = total(before.spec_items());
                let (p2, q2) = total(other.spec_items());
                lemma_total_concat(before.spec_items(), other.spec_items());
                let (pt, qt) = total(after.spec_items());
                lemma_sum_denotes(before.duration, other.duration, after.duration, p1, q1, p2, q2);
                lemma_frac_trans(after.duration.n(), after.duration.d(), p1 * q2 + q1 * p2, q1 * q2, pt, qt);
            }
        }
    }

    /// The total duration.
    pub fn duration(&self) -> (r: Rational)
        ensures
            r == self.spec_duration(),
    {
        self.duration
    }

    /// The items, in order.
    pub fn items(&self) -> (r: &[SeqItem])
        ensures
            r@ == self.spec_items(),
    {
        self.items.as_slice()
    }
}

/// When `a` is `p/q` and `b` is `x/y`, their sum `r` is `(p*y + q*x) / (q*y)`.
proof fn lemma_sum_denotes(a: Rational, b: Rational, r: Rational, p: int, q: int, x: int, y: int)
    requires
        r.is_sum(a, b),
        a.denotes(p, q),
        b.denotes(x, y),
        a.d() * b.d() != 0,
        q != 0,
        y != 0,
    ensures
        r.denotes(p * y + q * x, q * y),
        q * y != 0,
{
    assert(q * y != 0) by (nonlinear_arith)
        requires q != 0, y != 0;
    lemma_frac_add(a.n(), a.d(), b.n(), b.d(), p, q, x, y);
    lemma_frac_trans(
        r.n(),
        r.d(),
        a.n() * b.d() + a.d() * b.n(),
        a.d() * b.d(),
        p * y + q * x,
        q * y,
    );
}

/// A factor that is not zero cancels.
proof fn lemma_cancel(a: int, b: int, c: int)
    requires
        a * c == b * c,
        c != 0,
    ensures
        a == b,
{
    assert((a - b) * c == 0) by (nonlinear_arith)
        requires a * c == b * c;
    assert(a - b == 0) by (nonlinear_arith)
        requires (a - b) * c == 0, c != 0;
}

/// Equality of fractions is transitive: `r/s = n1/d1` and `n1/d1 = n2/d2`
/// give `r/s = n2/d2`.
proof fn lemma_frac_trans(r: int, s: int, n1: int, d1: int, n2: int, d2: int)
    requires
        r * d1 == n1 * s,
        n1 * d2 == n2 * d1,
        d1 != 0,
    ensures
        r * d2 == n2 * s,
{
    assert((r * d2) * d1 == (r * d1) * d2) by (nonlinear_arith);
    assert((n1 * s) * d2 == (n1 * d2) * s) by (nonlinear_arith);
    assert((n2 * d1) * s == (n2 * s) * d1) by (nonlinear_arith);
    lemma_cancel(r * d2, n2 * s, d1);
}

/// Adding equal fractions gives equal sums: with `an/ad = p/q` and
/// `bn/bd = x/y`, `(an*bd + ad*bn) / (ad*bd) = (p*y + q*x) / (q*y)`.
proof fn lemma_frac_add(an: int, ad: int, bn: int, bd: int, p: int, q: int, x: int, y: int)
    requires
        an * q == p * ad,
        bn * y == x * bd,
    ensures
        (an * bd + ad * bn) * (q * y) == (p * y + q * x) * (ad * bd),
{
    lemma_mul_is_distributive_add_other_way(q * y, an * bd, ad * bn);
    lemma_mul_is_distributive_add_other_way(ad * bd, p * y, q * x);
    assert((an * bd) * (q * y) == (an * q) * (bd * y)) by (nonlinear_arith);
    assert((ad * bn) * (q * y) == (bn * y) * (ad * q)) by (nonlinear_arith);
    assert((p * ad) * (bd * y) == (p * y) * (ad * bd)) by (nonlinear_arith);
    assert((x * bd) * (ad * q) == (q * x) * (ad * bd)) by (nonlinear_arith);
}

/// The total of two item lists one after the other is the sum of their totals.
proof fn lemma_total_concat(a: Seq<SeqItem>, b: Seq<SeqItem>)
    requires
        total(a).1 != 0,
        total(b).1 != 0,
    ensures
        total(a + b).1 != 0,
        total(a + b).0 * (total(a).1 * total(b).1) == (total(a).0 * total(b).1 + total(a).1 * total(b).0)
            * total(a + b).1,
    decreases b.len(),
{
    let (p1, q1) = total(a);
    if b.len() == 0 {
        assert(a + b =~= a);
        assert(total(b) == (0int, 1int));
        assert(p1 * (q1 * 1) == (p1 * 1 + q1 * 0) * q1) by (nonlinear_arith);
    } else {
        let b0 = b.drop_last();
        let x = item_duration(b.last());
        let (p2p, q2p) = total(b0);
        assert(q2p * x.d() != 0);
        assert(q2p != 0 && x.d() != 0) by (nonlinear_arith)
            requires q2p * x.d() != 0;
        lemma_total_concat(a, b0);
        assert((a + b).drop_last() =~= a + b0);
        assert((a + b).last() == b.last());
        let (ptp, qtp) = total(a + b0);
        let (xn, xd) = (x.n(), x.d());
        assert(qtp * xd != 0) by (nonlinear_arith)
            requires qtp != 0, xd != 0;
        let m = p1 * q2p + q1 * p2p;
        let n = q1 * q2p;
        lemma_frac_add(ptp, qtp, xn, xd, m, n, xn, xd);
        lemma_mul_is_associative(q1, q2p, xd);
        lemma_mul_is_associative(p1, q2p, xd);
        lemma_mul_is_associative(q1, p2p, xd);
        lemma_mul_is_associative(q1, q2p, xn);
        lemma_mul_is_distributive_add(q1, p2p * xd, q2p * xn);
        lemma_mul_is_distributive_add_other_way(xd, p1 * q2p, q1 * p2p);
        assert(total(a + b) == (ptp * xd + qtp * xn, qtp * xd));
        assert(total(b) == (p2p * xd + q2p * xn, q2p * xd));
        assert(q1 * (q2p * xd) == n * xd);
        assert(p1 * (q2p * xd) + q1 * (p2p * xd + q2p * xn) == m * xd + n * xn);
        assert((ptp * xd + qtp * xn) * (n * xd) == (m * xd + n * xn) * (qtp * xd));
        assert((ptp * xd + qtp * xn) * (q1 * (q2p * xd)) == (p1 * (q2p * xd) + q1 * (p2p * xd + q2p * xn)) * (qtp * xd));
    }
}

/// `a` is no later than `b`.
proof fn lemma_not_less_trans(a: Rational, b: Rational, c: Rational)
    requires
        a.d() > 0,
        b.d() > 0,
        c.d() > 0,
        !b.less(a),
        !c.less(b),
    ensures
        !c.less(a),
{
    let (an, ad, bn, bd, cn, cd) = (a.n(), a.d(), b.n(), b.d(), c.n(), c.d());
    assert((an * cd) * bd <= (bn * ad) * cd) by (nonlinear_arith) requires an * bd <= bn * ad, cd > 0;
    assert((bn * cd) * ad <= (cn * ad) * bd) by (nonlinear_arith) requires bn * cd <= cn * bd, ad > 0;
    assert((bn * ad) * cd == (bn * cd) * ad) by (nonlinear_arith);
    assert(an * cd <= cn * ad) by (nonlinear_arith)
        requires (an * cd) * bd <= (cn * ad) * bd, bd > 0;
}

/// A stack lasts as long as its longest part: its duration is no shorter
/// than any of its sequences, and is the duration of one of them, or zero
/// when there are none.
pub proof fn law_longest_is_maximum(s: Seq<Sequence>)
    requires
        forall|k: int| 0 <= k < s.len() ==> (#[trigger] s[k]).spec_duration().d() > 0,
    ensures
        forall|k: int| 0 <= k < s.len() ==> !longest(s).less(#[trigger] s[k].spec_duration()),
        s.len() == 0 ==> longest(s) == Rational::zero_value(),
        s.len() > 0 ==> exists|k: int| 0 <= k < s.len() && longest(s) == #[trigger] s[k].spec_duration(),
    decreases s.len(),
{
    if s.len() > 1 {
        let pre = s.drop_last();
        law_longest_is_maximum(pre);
        let acc = longest(pre);
        let x = s.last().spec_duration();
        let k0 = choose|k: int| 0 <= k < pre.len() && acc == #[trigger] pre[k].spec_duration();
        assert(pre[k0] == s[k0]);
        assert(acc.d() > 0);
        assert(x.d() > 0);
        assert forall|k: int| 0 <= k < s.len() implies !longest(s).less(#[trigger] s[k].spec_duration()) by {
            if k < s.len() - 1 {
                assert(pre[k] == s[k]);
                assert(!acc.less(s[k].spec_duration()));
                if !x.less(acc) {
                    lemma_not_less_trans(s[k].spec_duration(), acc, x);
                }
            } else {
                if x.less(acc) {
                    assert(!acc.less(x)) by (nonlinear_arith)
                        requires x.n() * acc.d() < acc.n() * x.d();
                }
            }
        }
        if x.less(acc) {
            assert(longest(s) == s[k0].spec_duration());
        } else {
            assert(longest(s) == s[s.len() - 1].spec_duration());
        }
    } else if s.len() == 1 {
        assert(longest(s) == s[0].spec_duration());
        assert(!s[0].spec_duration().less(s[0].spec_duration()));
    }
}

} // verus!
