//! Defines structs and methods for working with tax.
//!
//! A [`Schedule`] represents the income tax schedule for a particular
//! year: the tax-free allowance and the income tax bands. The
//! [`Schedule::apply`] method calculates the tax details for a gross
//! income, band by band.

use vstd::prelude::*;

use crate::gbp::max_pence;
use crate::gbp::min_int;
use crate::gbp::rate_mul;
use crate::gbp::Gbp;
use crate::gbp::Rate;

verus! {

/// Struct representing a tax band.
///
/// A tax band has a name, an amount of affected income (the width of the
/// income slice the band covers), and a rate. When applied to an amount
/// of income, only the income up to the affected amount has tax
/// computed.
pub struct Band {
    name: String,
    affected_income: Gbp,
    rate: Rate,
}

impl Band {
    /// Well-formedness: the affected income is a well-formed amount and
    /// the rate is a fraction of at most one.
    pub closed spec fn inv(&self) -> bool {
        self.affected_income.inv() && self.rate@ <= 10000
    }

    /// The band's name, as text.
    pub closed spec fn spec_name(&self) -> Seq<char> {
        self.name@
    }

    /// The band's affected income, in pence.
    pub closed spec fn spec_affected_income(&self) -> int {
        self.affected_income@
    }

    /// The band's rate, in basis points.
    pub closed spec fn spec_rate(&self) -> int {
        self.rate@
    }

    /// Construct a new tax band from a name, affected income, and tax
    /// rate. The rate must be a fraction of at most one (10000 basis
    /// points).
    pub fn new(name: String, affected_income: Gbp, rate: Rate) -> (r: Band)
        requires
            affected_income.inv(),
            rate@ <= 10000,
        ensures
            r.inv(),
            r.spec_name() == name@,
            r.spec_affected_income() == affected_income@,
            r.spec_rate() == rate@,
    {
        Band { name, affected_income, rate }
    }

    /// Get the tax band's name.
    pub fn name(&self) -> (r: &str)
        ensures
            r@ == self.spec_name(),
    {
        self.name.as_str()
    }

    /// Get the tax band's affected income.
    pub fn affected_income(&self) -> (r: Gbp)
        requires
            self.inv(),
        ensures
            r.inv(),
            r@ == self.spec_affected_income(),
    {
        self.affected_income
    }

    /// Get the tax band's tax rate.
    pub fn rate(&self) -> (r: Rate)
        ensures
            r@ == self.spec_rate(),
    {
        self.rate
    }

    /// Apply the band to an amount, returning the amount the tax applied
    /// to (the smaller of the band's affected income and the amount) and
    /// the tax due on it at the band's rate.
    pub fn apply(&self, amount: Gbp) -> (r: (Gbp, Gbp))
        requires
            self.inv(),
            amount.inv(),
        ensures
            r.0.inv(),
            r.0@ == min_int(self.spec_affected_income(), amount@),
            r.1.inv(),
            r.1@ == rate_mul(r.0@, self.spec_rate()),
            0 <= r.1@ <= r.0@,
    {
        let affected = self.affected_income.min_of(amount);
        proof {
            crate::gbp::lemma_view_bounds(affected);
            crate::gbp::lemma_rate_bounds(self.rate);
            crate::gbp::lemma_rate_mul_le(affected@, self.rate@);
        }
        let tax = affected.multiply_by_rate(self.rate);
        (affected, tax)
    }
}

/// The width of band `i` derived from a list of cumulative thresholds:
/// the distance to the previous threshold, less one for every band after
/// the first (consecutive thresholds are treated as exclusive-open on
/// the lower bound, a convention of this schedule's published tables).
pub open spec fn band_width(ts: Seq<u32>, i: int) -> int {
    if i == 0 {
        ts[0] as int
    } else {
        ts[i] - ts[i - 1] - (if ts[i - 1] > 0 {
            1int
        } else {
            0int
        })
    }
}

/// The cumulative threshold values of a list of (name, threshold, rate)
/// triples.
pub open spec fn threshold_values(ts: Seq<(&str, u32, Rate)>) -> Seq<u32> {
    ts.map_values(|t: (&str, u32, Rate)| t.1)
}

/// The affected incomes of a sequence of bands, in pence.
pub open spec fn band_widths_pence(bands: Seq<Band>) -> Seq<int> {
    bands.map_values(|b: Band| b.spec_affected_income())
}

/// The taxable income that remains after the first `i` bands have each
/// consumed their share: each band takes the smaller of its width and
/// what remains.
pub open spec fn remaining(widths: Seq<int>, taxable: int, i: int) -> int
    decreases i,
{
    if i <= 0 {
        taxable
    } else {
        remaining(widths, taxable, i - 1) - min_int(
            widths[i - 1],
            remaining(widths, taxable, i - 1),
        )
    }
}

/// Struct representing a year's tax schedule.
///
/// A schedule holds a tax-free allowance and an ordered sequence of
/// bands, lowest rate first, ending in a band that covers the largest
/// representable amount so that all income above the thresholds is
/// absorbed at the top rate.
pub struct Schedule {
    tax_free_allowance: Gbp,
    bands: Vec<Band>,
}

impl Schedule {
    /// Well-formedness: the allowance is a well-formed amount, there is
    /// at least one band, every band is well-formed, and the final band
    /// covers the largest representable amount.
    pub closed spec fn inv(&self) -> bool {
        &&& self.tax_free_allowance.inv()
        &&& self.bands@.len() >= 1
        &&& (forall|i: int| 0 <= i < self.bands@.len() ==> (#[trigger] self.bands@[i]).inv())
        &&& self.bands@.last().spec_affected_income() == max_pence()
    }

    /// The tax-free allowance, in pence.
    pub closed spec fn spec_allowance(&self) -> int {
        self.tax_free_allowance@
    }

    /// The schedule's bands, in order.
    pub closed spec fn spec_bands(&self) -> Seq<Band> {
        self.bands@
    }

    /// Construct a `Schedule` from a tax-free allowance, top rate, and
    /// the cumulative thresholds and rates in between.
    ///
    /// This is a convenient way of constructing a `Schedule` from the
    /// format schedules are more commonly described in - a list of
    /// thresholds and tax rates. Thresholds must not decrease (and must
    /// strictly increase once positive), and every rate must be a
    /// fraction of at most one.
    pub fn new(tax_free_allowance: u32, top_rate: (&str, Rate), thresholds: Vec<(&str, u32, Rate)>)
        -> (r: Schedule)
        requires
            top_rate.1@ <= 10000,
            forall|i: int| 0 <= i < thresholds@.len() ==> (#[trigger] thresholds@[i].2)@ <= 10000,
            forall|i: int|
                0 < i < thresholds@.len() ==> thresholds@[i - 1].1 <= (
                #[trigger] thresholds@[i].1) && (thresholds@[i - 1].1 > 0
                    ==> thresholds@[i - 1].1 < thresholds@[i].1),
        ensures
            r.inv(),
            r.spec_allowance() == tax_free_allowance * 100,
            r.spec_bands().len() == thresholds@.len() + 1,
            forall|i: int|
                0 <= i < thresholds@.len() ==> {
                    let b = #[trigger] r.spec_bands()[i];
                    b.spec_name() == thresholds@[i].0@ && b.spec_affected_income() == 100
                        * band_width(threshold_values(thresholds@), i) && b.spec_rate()
                        == thresholds@[i].2@
                },
            r.spec_bands().last().spec_name() == top_rate.0@,
            r.spec_bands().last().spec_affected_income() == max_pence(),
            r.spec_bands().last().spec_rate() == top_rate.1@,
    {
        let mut bands: Vec<Band> = Vec::new();
        let mut prev_threshold: u32 = 0;
        let mut i: usize = 0;
        while i < thresholds.len()
            invariant
                0 <= i <= thresholds@.len(),
                top_rate.1@ <= 10000,
                forall|k: int|
                    0 <= k < thresholds@.len() ==> (#[trigger] thresholds@[k].2)@ <= 10000,
                forall|k: int|
                    0 < k < thresholds@.len() ==> thresholds@[k - 1].1 <= (
                    #[trigger] thresholds@[k].1) && (thresholds@[k - 1].1 > 0
                        ==> thresholds@[k - 1].1 < thresholds@[k].1),
                prev_threshold == if i == 0 {
                    0u32
                } else {
                    thresholds@[i - 1].1
                },
                bands@.len() == i,
                forall|k: int|
                    0 <= k < i ==> {
                        let b = #[trigger] bands@[k];
                        b.inv() && b.spec_name() == thresholds@[k].0@ && b.spec_affected_income()
                            == 100 * band_width(threshold_values(thresholds@), k) && b.spec_rate()
                            == thresholds@[k].2@
                    },
            decreases thresholds@.len() - i,
        {
            let (name, threshold, rate) = thresholds[i];
            let modifier: u32 = if prev_threshold > 0 {
                1
            } else {
                0
            };
            let width = threshold - prev_threshold - modifier;
            bands.push(Band::new(String::from_str(name), Gbp::from_pounds(width), rate));
            prev_threshold = threshold;
            i += 1;
        }
        bands.push(Band::new(String::from_str(top_rate.0), Gbp::max_value(), top_rate.1));
        Schedule { tax_free_allowance: Gbp::from_pounds(tax_free_allowance), bands }
    }

    /// Get the tax-free allowance for this schedule.
    pub fn tax_free_allowance(&self) -> (r: Gbp)
        requires
            self.inv(),
        ensures
            r.inv(),
            r@ == self.spec_allowance(),
    {
        self.tax_free_allowance
    }

    /// Apply the tax bands to a given gross income and return, for each
    /// band in order, the band, the income taxed at that band, and the
    /// tax due.
    ///
    /// This calculates the initial taxable income, accounting for the
    /// tax-free allowance, then applies each band in turn, reducing the
    /// remaining taxable income as tax is applied. Because the final
    /// band covers the largest representable amount, the taxable income
    /// is fully consumed when the last band has been applied; and a
    /// gross income equal to the allowance is taxed nothing in every
    /// band.
    pub fn apply<'a>(&'a self, gross_income: Gbp) -> (r: Vec<(&'a Band, Gbp, Gbp)>)
        requires
            self.inv(),
            gross_income.inv(),
            self.spec_allowance() <= gross_income@,
        ensures
            r@.len() == self.spec_bands().len(),
            forall|i: int|
                0 <= i < r@.len() ==> {
                    let e = #[trigger] r@[i];
                    let widths = band_widths_pence(self.spec_bands());
                    let taxable0 = gross_income@ - self.spec_allowance();
                    *e.0 == self.spec_bands()[i] && e.1.inv() && e.1@ == min_int(
                        widths[i],
                        remaining(widths, taxable0, i),
                    ) && e.2.inv() && e.2@ == rate_mul(e.1@, self.spec_bands()[i].spec_rate())
                },
            remaining(
                band_widths_pence(self.spec_bands()),
                gross_income@ - self.spec_allowance(),
                self.spec_bands().len() as int,
            ) == 0,
            gross_income@ == self.spec_allowance() ==> forall|i: int|
                0 <= i < r@.len() ==> (#[trigger] r@[i]).1@ == 0 && r@[i].2@ == 0,
    {
        let ghost widths = band_widths_pence(self.spec_bands());
        let ghost taxable0 = gross_income@ - self.spec_allowance();
        let mut taxable = gross_income.subtract(self.tax_free_allowance);
        let mut result: Vec<(&'a Band, Gbp, Gbp)> = Vec::new();
        let mut i: usize = 0;
        proof {
            crate::gbp::lemma_view_bounds(gross_income);
            crate::gbp::lemma_view_bounds(self.tax_free_allowance);
        }
        while i < self.bands.len()
            invariant
                self.inv(),
                0 <= i <= self.spec_bands().len(),
                widths == band_widths_pence(self.spec_bands()),
                0 <= taxable0 <= max_pence(),
                taxable.inv(),
                taxable@ == remaining(widths, taxable0, i as int),
                0 <= taxable@ <= taxable0,
                result@.len() == i,
                forall|k: int|
                    0 <= k < i ==> {
                        let e = #[trigger] result@[k];
                        *e.0 == self.spec_bands()[k] && e.1.inv() && e.1@ == min_int(
                            widths[k],
                            remaining(widths, taxable0, k),
                        ) && e.2.inv() && e.2@ == rate_mul(e.1@, self.spec_bands()[k].spec_rate())
                    },
            decreases self.spec_bands().len() - i,
        {
            let band = &self.bands[i];
            let (affected, tax) = band.apply(taxable);
            taxable.subtract_assign(affected);
            result.push((band, affected, tax));
            i += 1;
        }
        proof {
            assert(taxable@ == remaining(widths, taxable0, widths.len() as int));
            assert(self.spec_bands().last().spec_affected_income() == max_pence());
            assert(widths[widths.len() - 1] == max_pence());
            lemma_widths_nonneg(self.spec_bands());
            lemma_monotonic_consumption(widths, taxable0);
            assert(remaining(widths, taxable0, widths.len() - 1) <= taxable0);
            assert(remaining(widths, taxable0, widths.len() as int) == 0);
            if gross_income@ == self.spec_allowance() {
                lemma_zero_taxable(widths);
                assert(forall|k: int|
                    0 <= k < result@.len() ==> (#[trigger] result@[k]).1@ == 0 && result@[k].2@
                        == 0) by {
                    assert(forall|k: int|
                        0 <= k < result@.len() ==> (#[trigger] result@[k]).1@ == min_int(
                            widths[k],
                            remaining(widths, 0, k),
                        ) && result@[k].2@ == rate_mul(result@[k].1@, self.spec_bands()[k].spec_rate()));
                }
            }
        }
        result
    }
}

/// The widths of well-formed bands are non-negative.
proof fn lemma_widths_nonneg(bands: Seq<Band>)
    requires
        forall|i: int| 0 <= i < bands.len() ==> (#[trigger] bands[i]).inv(),
    ensures
        forall|i: int|
            0 <= i < bands.len() ==> 0 <= #[trigger] band_widths_pence(bands)[i],
{
    assert forall|i: int| 0 <= i < bands.len() implies 0 <= #[trigger] band_widths_pence(
        bands,
    )[i] by {
        crate::gbp::lemma_view_bounds(bands[i].affected_income);
    }
}

/// The total of a sequence of integers.
pub open spec fn sum_int(s: Seq<int>) -> int
    decreases s.len(),
{
    if s.len() == 0 {
        0
    } else {
        sum_int(s.drop_last()) + s.last()
    }
}

/// Law: for positive thresholds, the widths of the non-final bands sum
/// to the last threshold less one pound for each band after the first
/// (each later band gives up one pound to the open lower bound). The
/// final band's ceiling is the largest representable amount, as
/// [`Schedule::new`] states.
pub proof fn lemma_band_width_sum(ts: Seq<u32>)
    requires
        ts.len() >= 1,
        forall|i: int| 0 <= i < ts.len() ==> #[trigger] ts[i] >= 1,
    ensures
        sum_int(Seq::new(ts.len(), |i: int| band_width(ts, i))) == ts.last() - (ts.len() - 1),
    decreases ts.len(),
{
    let ws = Seq::new(ts.len(), |i: int| band_width(ts, i));
    if ts.len() == 1 {
        reveal_with_fuel(sum_int, 2);
        assert(ws.drop_last() =~= Seq::<int>::empty());
        assert(ws.last() == band_width(ts, 0));
        assert(sum_int(ws) == band_width(ts, 0));
    } else {
        let pre = ts.drop_last();
        lemma_band_width_sum(pre);
        let wpre = Seq::new(pre.len(), |i: int| band_width(pre, i));
        assert(ws.drop_last() =~= wpre);
        assert(ws.last() == band_width(ts, ts.len() - 1));
        assert(ts[ts.len() - 2] >= 1);
    }
}

/// Law: consuming taxable income is monotonic. The taxable income that
/// remains after each band is at most what remained before it, and it
/// never falls below zero nor rises above what there was to begin with.
pub proof fn lemma_monotonic_consumption(widths: Seq<int>, taxable: int)
    requires
        0 <= taxable,
        forall|k: int| 0 <= k < widths.len() ==> 0 <= #[trigger] widths[k],
    ensures
        forall|i: int|
            0 <= i < widths.len() ==> #[trigger] remaining(widths, taxable, i + 1) <= remaining(
                widths,
                taxable,
                i,
            ),
        forall|i: int|
            0 <= i <= widths.len() ==> 0 <= #[trigger] remaining(widths, taxable, i) <= taxable,
{
    assert forall|i: int| 0 <= i <= widths.len() implies 0 <= #[trigger] remaining(
        widths,
        taxable,
        i,
    ) <= taxable by {
        lemma_remaining_bounds(widths, taxable, i);
    }
}

/// Helper for [`lemma_monotonic_consumption`]: induction over the band
/// count.
proof fn lemma_remaining_bounds(widths: Seq<int>, taxable: int, i: int)
    requires
        0 <= taxable,
        0 <= i <= widths.len(),
        forall|k: int| 0 <= k < widths.len() ==> 0 <= #[trigger] widths[k],
    ensures
        0 <= remaining(widths, taxable, i) <= taxable,
    decreases i,
{
    if i > 0 {
        lemma_remaining_bounds(widths, taxable, i - 1);
    }
}

/// Law: with no taxable income, every band's affected income is zero,
/// and zero taxable income remains at every step.
pub proof fn lemma_zero_taxable(widths: Seq<int>)
    requires
        forall|i: int| 0 <= i < widths.len() ==> 0 <= #[trigger] widths[i],
    ensures
        forall|i: int| 0 <= i <= widths.len() ==> #[trigger] remaining(widths, 0, i) == 0,
        forall|i: int|
            0 <= i < widths.len() ==> min_int(#[trigger] widths[i], remaining(widths, 0, i)) == 0,
        forall|bp: int| 0 <= bp ==> #[trigger] rate_mul(0, bp) == 0,
{
    assert forall|i: int| 0 <= i <= widths.len() implies #[trigger] remaining(widths, 0, i)
        == 0 by {
        lemma_zero_taxable_step(widths, i);
    }
}

/// Helper for [`lemma_zero_taxable`]: induction over the band count.
proof fn lemma_zero_taxable_step(widths: Seq<int>, i: int)
    requires
        0 <= i <= widths.len(),
        forall|k: int| 0 <= k < widths.len() ==> 0 <= #[trigger] widths[k],
    ensures
        remaining(widths, 0, i) == 0,
    decreases i,
{
    if i > 0 {
        lemma_zero_taxable_step(widths, i - 1);
    }
}

} // verus!
