use vstd::prelude::*;

use crate::amount::{amount_add, fadd_bits, Amount};
use crate::date::{date_day_number, Date, DateConversionError};
use crate::flows::{first_invalid_date, CashFlow, CashFlowList, DiscountTerm};

verus! {

/// A bullet bond: a maturity date, a flat per-year coupon amount (an amount,
/// not a rate) and a principal repaid at maturity. Immutable; the valuation
/// date and discount rate are supplied per call.
#[derive(Clone, Copy, PartialEq, Eq, Structural, Debug)]
pub struct Bond {
    pub maturity: Date,
    pub coupon: Amount,
    pub principal: Amount,
}

/// How many plain coupon flows a schedule holds: one per calendar year from
/// the valuation year up to but excluding the maturity year, none once the
/// valuation year reaches maturity.
pub open spec fn coupon_count(b: Bond, as_of_year: int) -> int {
    if as_of_year < b.maturity.year {
        b.maturity.year - as_of_year
    } else {
        0
    }
}

/// The derived schedule: coupon flows dated January 1 of each year in
/// `[as_of_year, maturity.year)`, then one final flow at the maturity date
/// whose amount is the IEEE binary64 sum of coupon and principal.
pub open spec fn spec_schedule(b: Bond, as_of_year: int) -> Seq<CashFlow> {
    Seq::new(
        (coupon_count(b, as_of_year) + 1) as nat,
        |i: int|
            if i < coupon_count(b, as_of_year) {
                CashFlow {
                    amount: b.coupon,
                    date: Date { day: 1, month: 1, year: (as_of_year + i) as i32 },
                }
            } else {
                CashFlow {
                    amount: Amount { bits: fadd_bits(b.coupon.bits, b.principal.bits) },
                    date: b.maturity,
                }
            },
    )
}

impl Bond {
    /// Builds the bond as given; nothing is validated here.
    pub fn new(maturity: Date, coupon: Amount, principal: Amount) -> (r: Bond)
        ensures
            r == (Bond { maturity, coupon, principal }),
    {
        Bond { maturity, coupon, principal }
    }

    /// The bond's implied cash-flow list for a valuation date: a coupon flow
    /// dated January 1 of every calendar year from `as_of`'s year up to but
    /// excluding the maturity year, then the redemption flow of coupon plus
    /// principal dated exactly at maturity. Only `as_of`'s year is consulted;
    /// its month and day play no part here.
    pub fn schedule(&self, as_of: &Date) -> (r: CashFlowList)
        ensures
            r.cash_flows@ == spec_schedule(*self, as_of.year as int),
    {
        let ghost target = spec_schedule(*self, as_of.year as int);
        let mut flows = CashFlowList::new();
        let mut year: i32 = as_of.year;
        while year < self.maturity.year
            invariant
                as_of.year <= year,
                year <= self.maturity.year || year == as_of.year,
                flows.cash_flows@.len() == year - as_of.year,
                target == spec_schedule(*self, as_of.year as int),
                forall|i: int| 0 <= i < year - as_of.year ==> flows.cash_flows@[i] == target[i],
            decreases self.maturity.year - year,
        {
            flows.add(CashFlow::new(self.coupon, Date::new(1, 1, year)));
            year = year + 1;
        }
        flows.add(CashFlow::new(amount_add(self.coupon, self.principal), self.maturity));
        proof {
            assert(flows.cash_flows@ =~= target);
        }
        flows
    }

    /// The discount terms of the derived schedule against `as_of`: what the
    /// price is, up to the caller's binary64 discounting and summation.
    ///
    /// Succeeds exactly when every schedule date converts and the valuation
    /// date converts; the final flow carries the maturity date, so an
    /// inconvertible maturity fails here even when no coupon year remains.
    pub fn price_terms(&self, as_of: &Date) -> (r: Result<
        Vec<DiscountTerm>,
        DateConversionError,
    >)
        ensures
            r is Ok <==> first_invalid_date(spec_schedule(*self, as_of.year as int), *as_of)
                is None,
            r matches Err(e) ==> Some(e.date) == first_invalid_date(
                spec_schedule(*self, as_of.year as int),
                *as_of,
            ),
            r matches Ok(v) ==> v@.len() == spec_schedule(*self, as_of.year as int).len() && (
            forall|i: int|
                0 <= i < v@.len() ==> (#[trigger] v@[i]).amount == spec_schedule(
                    *self,
                    as_of.year as int,
                )[i].amount && v@[i].days == date_day_number(
                    spec_schedule(*self, as_of.year as int)[i].date,
                ) - date_day_number(*as_of)),
    {
        let flows = self.schedule(as_of);
        flows.discount_terms(as_of)
    }
}

/// For a valuation year before maturity the schedule holds exactly
/// `maturity.year - as_of_year` coupon flows, one per calendar year, each of
/// the plain coupon amount and dated January 1, followed by one final flow at
/// the maturity date whose amount is the IEEE binary64 sum of coupon and
/// principal.
pub proof fn lemma_schedule_shape(b: Bond, as_of_year: int)
    requires
        as_of_year < b.maturity.year,
    ensures
        spec_schedule(b, as_of_year).len() == b.maturity.year - as_of_year + 1,
        forall|i: int|
            0 <= i < b.maturity.year - as_of_year ==> #[trigger] spec_schedule(b, as_of_year)[i]
                == (CashFlow {
                amount: b.coupon,
                date: Date { day: 1, month: 1, year: (as_of_year + i) as i32 },
            }),
        spec_schedule(b, as_of_year).last() == (CashFlow {
            amount: Amount { bits: fadd_bits(b.coupon.bits, b.principal.bits) },
            date: b.maturity,
        }),
{
}

/// Once the valuation year reaches or passes the maturity year the schedule
/// degenerates to a single flow: the redemption amount, dated at maturity
/// even when that lies before the valuation date.
pub proof fn lemma_degenerate_schedule(b: Bond, as_of_year: int)
    requires
        as_of_year >= b.maturity.year,
    ensures
        spec_schedule(b, as_of_year).len() == 1,
        spec_schedule(b, as_of_year)[0] == (CashFlow {
            amount: Amount { bits: fadd_bits(b.coupon.bits, b.principal.bits) },
            date: b.maturity,
        }),
{
}

} // verus!
