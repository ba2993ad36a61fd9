use vstd::prelude::*;
use crate::decimal::{reciprocal_rate, Rate};
use crate::feed::{lookup, RateMap};

verus! {

/// The code of the base currency, against which every rate is quoted.
pub open spec fn base_code() -> Seq<char> {
    seq!['R', 'U', 'B']
}

/// The base currency's code.
pub fn base_currency() -> (r: String)
    ensures
        r@ == base_code(),
{
    let r = String::from_str("RUB");
    proof {
        reveal_strlit("RUB");
    }
    assert(r@ =~= base_code());
    r
}

/// The currencies followed by default, in the order they are processed.
pub fn get_currencies() -> (r: Vec<String>)
    ensures
        r@.len() == 2,
        r@[0]@ == seq!['U', 'S', 'D'],
        r@[1]@ == seq!['E', 'U', 'R'],
{
    let usd = String::from_str("USD");
    let eur = String::from_str("EUR");
    proof {
        reveal_strlit("USD");
        reveal_strlit("EUR");
    }
    assert(usd@ =~= seq!['U', 'S', 'D']);
    assert(eur@ =~= seq!['E', 'U', 'R']);
    let mut r = Vec::new();
    r.push(usd);
    r.push(eur);
    r
}

/// A rate to be stored for one (from, to, date) key.
#[derive(Debug, Clone)]
pub struct RateRow {
    pub from_currency: String,
    pub to_currency: String,
    pub date: i32,
    pub rate: Rate,
}

/// What a `RateRow` says, in spec terms.
pub struct RowSpec {
    pub from: Seq<char>,
    pub to: Seq<char>,
    pub date: i32,
    pub rate: Rate,
}

impl RateRow {
    pub open spec fn view(&self) -> RowSpec {
        RowSpec {
            from: self.from_currency@,
            to: self.to_currency@,
            date: self.date,
            rate: self.rate,
        }
    }
}

/// Why a date could not be reconciled.
#[derive(Debug, Clone)]
pub enum ReconcileError {
    /// The feed gave no rate for a followed currency.
    MissingRate { currency: String, date: i32 },
    /// The feed gave a zero rate, which has no reciprocal.
    DivisionByZero { currency: String, date: i32 },
}

/// A reconciliation error in spec terms: whether the rate was missing (as
/// opposed to zero), the currency, and the date.
pub struct ErrorSpec {
    pub missing: bool,
    pub currency: Seq<char>,
    pub date: i32,
}

impl ReconcileError {
    pub open spec fn view(&self) -> ErrorSpec {
        match self {
            ReconcileError::MissingRate { currency, date } => ErrorSpec {
                missing: true,
                currency: currency@,
                date: *date,
            },
            ReconcileError::DivisionByZero { currency, date } => ErrorSpec {
                missing: false,
                currency: currency@,
                date: *date,
            },
        }
    }
}

/// The codes of a list of currencies.
pub open spec fn codes_of(cs: Seq<String>) -> Seq<Seq<char>> {
    cs.map_values(|c: String| c@)
}

/// The two rows kept for a currency with rate `r` against the base:
/// currency to base at `r`, base to currency at the reciprocal `q`.
pub open spec fn pair_rows(code: Seq<char>, date: i32, r: Rate, q: Rate) -> Seq<RowSpec> {
    seq![
        RowSpec { from: code, to: base_code(), date, rate: r },
        RowSpec { from: base_code(), to: code, date, rate: q },
    ]
}

/// The two rows kept for `code` at `date`: `code` to base at `rate`, and
/// base to `code` at `reverse`, the reciprocal of `rate`.
pub fn currency_rows(code: &String, date: i32, rate: Rate, reverse: Rate) -> (r: (RateRow, RateRow))
    ensures
        r.0.view() == pair_rows(code@, date, rate, reverse)[0],
        r.1.view() == pair_rows(code@, date, rate, reverse)[1],
{
    let forward = RateRow { from_currency: code.clone(), to_currency: base_currency(), date, rate };
    let backward = RateRow { from_currency: base_currency(), to_currency: code.clone(), date, rate: reverse };
    (forward, backward)
}

/// The rows to write for `date`, currency by currency in the order of
/// `currencies`, up to the first currency that fails, and that failure.
pub open spec fn plan(
    rates: Seq<(Seq<char>, Rate)>,
    currencies: Seq<Seq<char>>,
    date: i32,
) -> (Seq<RowSpec>, Option<ErrorSpec>)
    decreases currencies.len(),
{
    if currencies.len() == 0 {
        (Seq::empty(), None)
    } else {
        let prev = plan(rates, currencies.drop_last(), date);
        let code = currencies.last();
        if prev.1 is Some {
            prev
        } else {
            match lookup(rates, code) {
                None => (prev.0, Some(ErrorSpec { missing: true, currency: code, date })),
                Some(r) => if r.mantissa == 0 {
                    (prev.0, Some(ErrorSpec { missing: false, currency: code, date }))
                } else {
                    (prev.0 + pair_rows(code, date, r, reciprocal_rate(r)), None)
                },
            }
        }
    }
}

/// Once a prefix of the currencies fails, the plan stays as it was.
pub proof fn lemma_plan_stops(rates: Seq<(Seq<char>, Rate)>, currencies: Seq<Seq<char>>, date: i32, i: int)
    requires
        0 <= i <= currencies.len(),
        plan(rates, currencies.take(i), date).1 is Some,
    ensures
        plan(rates, currencies, date) == plan(rates, currencies.take(i), date),
    decreases currencies.len() - i,
{
    if i < currencies.len() {
        assert(currencies.take(i + 1).drop_last() =~= currencies.take(i));
        lemma_plan_stops(rates, currencies, date, i + 1);
    } else {
        assert(currencies.take(i) =~= currencies);
    }
}

/// The rows to write for `date`: for each followed currency `C` in order, the
/// row `C` to base at the feed's rate and the row base to `C` at its
/// reciprocal. Stops at the first currency whose rate is missing or zero,
/// and returns the rows planned before it with that error.
pub fn plan_rows(date: i32, rates: &RateMap, currencies: &Vec<String>) -> (r: (
    Vec<RateRow>,
    Option<ReconcileError>,
))
    requires
        rates.wf(),
    ensures
        r.0@.map_values(|w: RateRow| w.view()) == plan(rates.entries_view(), currencies@.map_values(|c: String| c@), date).0,
        r.1 is None <==> plan(rates.entries_view(), currencies@.map_values(|c: String| c@), date).1 is None,
        r.1 matches Some(e) ==> plan(rates.entries_view(), currencies@.map_values(|c: String| c@), date).1 == Some(e.view()),
        forall|i: int| 0 <= i < r.0@.len() ==> (#[trigger] r.0@[i]).rate.wf(),
{
    let ghost codes = currencies@.map_values(|c: String| c@);
    let ghost rv = rates.entries_view();
    let mut rows: Vec<RateRow> = Vec::new();
    let n = currencies.len();
    let mut i: usize = 0;
    while i < n
        invariant
            n == currencies@.len(),
            i <= n,
            codes == currencies@.map_values(|c: String| c@),
            rv == rates.entries_view(),
            rates.wf(),
            plan(rv, codes.take(i as int), date).1 is None,
            rows@.map_values(|w: RateRow| w.view()) == plan(rv, codes.take(i as int), date).0,
            forall|j: int| 0 <= j < rows@.len() ==> (#[trigger] rows@[j]).rate.wf(),
        decreases n - i,
    {
        let code = &currencies[i];
        assert(codes.take(i + 1).drop_last() =~= codes.take(i as int));
        assert(codes.take(i + 1).last() == code@);
        match rates.get(code) {
            None => {
                let err = ReconcileError::MissingRate { currency: code.clone(), date };
                proof {
                    lemma_plan_stops(rv, codes, date, i + 1);
                }
                return (rows, Some(err));
            },
            Some(rate) => {
                // A zero rate has no reciprocal: that leg fails explicitly.
                let reverse = match rate.reciprocal() {
                    Some(q) => q,
                    None => {
                        let err = ReconcileError::DivisionByZero { currency: code.clone(), date };
                        proof {
                            lemma_plan_stops(rv, codes, date, i + 1);
                        }
                        return (rows, Some(err));
                    },
                };
                let ghost before = rows@.map_values(|w: RateRow| w.view());
                let ghost prev_rows = rows@;
                let (forward, backward) = currency_rows(code, date, rate, reverse);
                rows.push(forward);
                rows.push(backward);
                assert(rows@.map_values(|w: RateRow| w.view()) =~= before + pair_rows(code@, date, rate, reverse));
                assert forall|j: int| 0 <= j < rows@.len() implies (#[trigger] rows@[j]).rate.wf() by {
                    if j < rows@.len() - 2 {
                        assert(rows@[j] == prev_rows[j]);
                    }
                }
            },
        }
        i += 1;
    }
    assert(codes.take(n as int) =~= codes);
    (rows, None)
}

} // verus!
