use vstd::prelude::*;

use crate::amount::Amount;
use crate::date::{date_convertible, date_day_number, days_between, Date, DateConversionError};

verus! {

/// One dated payment: an amount and the date it falls on. Immutable.
#[derive(Clone, Copy, PartialEq, Eq, Structural, Debug)]
pub struct CashFlow {
    pub amount: Amount,
    pub date: Date,
}

/// What remains of one flow once its date has been resolved: the amount and
/// the signed day count from the valuation date. Discounting the amount over
/// `days / 365.25` years is the caller's binary64 step.
#[derive(Clone, Copy, PartialEq, Eq, Structural, Debug)]
pub struct DiscountTerm {
    pub amount: Amount,
    pub days: i64,
}

/// The first date that fails conversion when the flows are valued left to
/// right: each flow's own date is consulted before the valuation date, and an
/// empty list consults no date at all.
pub open spec fn first_invalid_date(flows: Seq<CashFlow>, as_of: Date) -> Option<Date>
    decreases flows.len(),
{
    if flows.len() == 0 {
        None
    } else if !date_convertible(flows[0].date) {
        Some(flows[0].date)
    } else if !date_convertible(as_of) {
        Some(as_of)
    } else {
        first_invalid_date(flows.subrange(1, flows.len() as int), as_of)
    }
}

impl CashFlow {
    /// Pairs the amount with its date; nothing is validated here.
    pub fn new(amount: Amount, date: Date) -> (r: CashFlow)
        ensures
            r == (CashFlow { amount, date }),
    {
        CashFlow { amount, date }
    }

    /// The flow's amount.
    pub fn amount(&self) -> (r: Amount)
        ensures
            r == self.amount,
    {
        self.amount
    }

    /// The flow's date.
    pub fn date(&self) -> (r: Date)
        ensures
            r == self.date,
    {
        self.date
    }

    /// The signed day count from `as_of` to this flow's date: the exponent
    /// numerator of the flow's discount factor. Zero when the flow is dated
    /// exactly at `as_of`.
    pub fn day_count(&self, as_of: &Date) -> (r: Result<i64, DateConversionError>)
        ensures
            r is Ok <==> date_convertible(self.date) && date_convertible(*as_of),
            r matches Ok(n) ==> n == date_day_number(self.date) - date_day_number(*as_of),
            r matches Err(e) ==> !date_convertible(e.date) && e.date == (
            if !date_convertible(self.date) {
                self.date
            } else {
                *as_of
            }),
            self.date == *as_of && date_convertible(self.date) ==> (r matches Ok(n) && n == 0),
    {
        days_between(&self.date, as_of)
    }
}

/// An ordered, append-only list of cash flows; insertion order is the order
/// every valuation walks.
#[derive(Debug)]
pub struct CashFlowList {
    pub cash_flows: Vec<CashFlow>,
}

impl CashFlowList {
    /// An empty list.
    pub fn new() -> (r: CashFlowList)
        ensures
            r.cash_flows@ == Seq::<CashFlow>::empty(),
    {
        CashFlowList { cash_flows: Vec::new() }
    }

    /// Appends a flow at the end; always succeeds.
    pub fn add(&mut self, cash_flow: CashFlow)
        ensures
            final(self).cash_flows@ == old(self).cash_flows@.push(cash_flow),
    {
        self.cash_flows.push(cash_flow);
    }

    /// Resolves every flow to its discount term, in insertion order.
    ///
    /// Succeeds exactly when every flow's date converts and, for a non-empty
    /// list, the valuation date converts too; otherwise it fails with the
    /// first inconvertible date in valuation order. An empty list yields no
    /// terms whatever `as_of` holds, so its net present value is the empty
    /// binary64 sum, zero.
    pub fn discount_terms(&self, as_of: &Date) -> (r: Result<Vec<DiscountTerm>, DateConversionError>)
        ensures
            r is Ok <==> first_invalid_date(self.cash_flows@, *as_of) is None,
            r matches Err(e) ==> Some(e.date) == first_invalid_date(self.cash_flows@, *as_of),
            r matches Ok(v) ==> v@.len() == self.cash_flows@.len() && (forall|i: int|
                0 <= i < v@.len() ==> (#[trigger] v@[i]).amount == self.cash_flows@[i].amount
                    && v@[i].days == date_day_number(self.cash_flows@[i].date) - date_day_number(
                    *as_of,
                )),
    {
        let ghost flows = self.cash_flows@;
        let mut terms: Vec<DiscountTerm> = Vec::new();
        let n = self.cash_flows.len();
        let mut i: usize = 0;
        while i < n
            invariant
                n == flows.len(),
                flows == self.cash_flows@,
                0 <= i <= n,
                terms@.len() == i,
                forall|k: int| 0 <= k < i ==> date_convertible(#[trigger] flows[k].date),
                i > 0 ==> date_convertible(*as_of),
                forall|k: int|
                    0 <= k < i ==> (#[trigger] terms@[k]).amount == flows[k].amount
                        && terms@[k].days == date_day_number(flows[k].date) - date_day_number(
                        *as_of,
                    ),
            decreases n - i,
        {
            let cf = self.cash_flows[i];
            match cf.day_count(as_of) {
                Ok(days) => {
                    terms.push(DiscountTerm { amount: cf.amount, days });
                },
                Err(e) => {
                    proof {
                        lemma_first_invalid_unroll(flows, *as_of, i as int);
                    }
                    return Err(e);
                },
            }
            i = i + 1;
        }
        proof {
            lemma_first_invalid_unroll(flows, *as_of, n as int);
        }
        Ok(terms)
    }
}

/// Walking a prefix of convertible flow dates (with `as_of` convertible once
/// any flow has been passed) does not change which date fails first.
proof fn lemma_first_invalid_unroll(flows: Seq<CashFlow>, as_of: Date, i: int)
    requires
        0 <= i <= flows.len(),
        forall|k: int| 0 <= k < i ==> date_convertible(#[trigger] flows[k].date),
        i > 0 ==> date_convertible(as_of),
    ensures
        first_invalid_date(flows, as_of) == first_invalid_date(
            flows.subrange(i, flows.len() as int),
            as_of,
        ),
    decreases i,
{
    if i > 0 {
        lemma_first_invalid_unroll(flows, as_of, i - 1);
        let tail = flows.subrange(i - 1, flows.len() as int);
        assert(tail[0] == flows[i - 1]);
        assert(date_convertible(tail[0].date));
        assert(tail.subrange(1, tail.len() as int) =~= flows.subrange(i, flows.len() as int));
        assert(first_invalid_date(tail, as_of) == first_invalid_date(
            tail.subrange(1, tail.len() as int),
            as_of,
        ));
    } else {
        assert(flows.subrange(0, flows.len() as int) =~= flows);
    }
}

/// An empty cash-flow list consults no date and yields no discount terms,
/// whatever the valuation date holds: its net present value is zero.
pub proof fn lemma_empty_list_terms(as_of: Date)
    ensures
        first_invalid_date(Seq::<CashFlow>::empty(), as_of) is None,
{
}

} // verus!
