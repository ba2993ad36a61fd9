use vstd::prelude::*;
use crate::decimal::{reciprocal_rate, same_value, Rate};
use crate::feed::RateMap;
use crate::feed::lookup;
use crate::laws::{
    lemma_apply_matched, lemma_apply_settles, lemma_reverse_row_is_reciprocal, lemma_missing_rate_aborts, lemma_plan_consistent,
    lemma_settled_unchanged, matched, mentions, settled,
};
use crate::reconcile::{base_code, codes_of, plan, plan_rows, RateRow, ReconcileError, RowSpec};

verus! {

/// A stored rate: one row per (from, to, date) key.
#[derive(Debug, Clone)]
pub struct ExchangeRate {
    pub id: u64,
    pub from_currency: String,
    pub to_currency: String,
    pub rate: Rate,
    pub date: i32,
    pub created_at: i64,
    pub updated_at: i64,
}

/// A stored row in spec terms.
pub struct StoredSpec {
    pub id: u64,
    pub from: Seq<char>,
    pub to: Seq<char>,
    pub rate: Rate,
    pub date: i32,
    pub created_at: i64,
    pub updated_at: i64,
}

impl ExchangeRate {
    pub open spec fn view(&self) -> StoredSpec {
        StoredSpec {
            id: self.id,
            from: self.from_currency@,
            to: self.to_currency@,
            rate: self.rate,
            date: self.date,
            created_at: self.created_at,
            updated_at: self.updated_at,
        }
    }
}

/// What one upsert does.
#[derive(Debug, Clone, Copy, PartialEq, Eq, Structural)]
pub enum UpsertAction {
    /// No row has the key: a new one is inserted.
    Insert,
    /// A row has the key and another value: its rate is replaced.
    Update,
    /// A row has the key and the same value: nothing is written.
    Keep,
}

pub open spec fn action_spec(existing: Option<Rate>, rate: Rate) -> UpsertAction {
    match existing {
        None => UpsertAction::Insert,
        Some(x) => if same_value(x, rate) {
            UpsertAction::Keep
        } else {
            UpsertAction::Update
        },
    }
}

/// Decides the write for a computed rate, given the rate stored under the
/// same key, if any: numerically equal values are left alone.
pub fn upsert_action(existing: Option<Rate>, rate: &Rate) -> (a: UpsertAction)
    requires
        rate.wf(),
        existing matches Some(e) ==> e.wf(),
    ensures
        a == action_spec(existing, *rate),
{
    match existing {
        None => UpsertAction::Insert,
        Some(e) => if e.equals(rate) {
            UpsertAction::Keep
        } else {
            UpsertAction::Update
        },
    }
}

pub open spec fn has_key(s: StoredSpec, from: Seq<char>, to: Seq<char>, date: i32) -> bool {
    s.from == from && s.to == to && s.date == date
}

/// Index of the first row with the key, or the number of rows.
pub open spec fn find_row(rows: Seq<StoredSpec>, from: Seq<char>, to: Seq<char>, date: i32) -> int
    decreases rows.len(),
{
    if rows.len() == 0 {
        0
    } else if has_key(rows[0], from, to, date) {
        0
    } else {
        1 + find_row(rows.drop_first(), from, to, date)
    }
}

/// The rows after upserting `w` at time `now`.
pub open spec fn upsert_spec(rows: Seq<StoredSpec>, w: RowSpec, now: i64) -> Seq<StoredSpec> {
    let k = find_row(rows, w.from, w.to, w.date);
    if k < rows.len() {
        if same_value(rows[k].rate, w.rate) {
            rows
        } else {
            rows.update(k, StoredSpec { rate: w.rate, updated_at: now, ..rows[k] })
        }
    } else {
        rows.push(
            StoredSpec {
                id: rows.len() as u64,
                from: w.from,
                to: w.to,
                rate: w.rate,
                date: w.date,
                created_at: now,
                updated_at: now,
            },
        )
    }
}

/// The rows after upserting each of `ws` in turn.
pub open spec fn apply_rows(rows: Seq<StoredSpec>, ws: Seq<RowSpec>, now: i64) -> Seq<StoredSpec>
    decreases ws.len(),
{
    if ws.len() == 0 {
        rows
    } else {
        upsert_spec(apply_rows(rows, ws.drop_last(), now), ws.last(), now)
    }
}

/// `find_row` is the first row with the key.
pub proof fn lemma_find_row(rows: Seq<StoredSpec>, from: Seq<char>, to: Seq<char>, date: i32, k: int)
    requires
        0 <= k <= rows.len(),
        forall|j: int| 0 <= j < k ==> !has_key(#[trigger] rows[j], from, to, date),
        k < rows.len() ==> has_key(rows[k], from, to, date),
    ensures
        find_row(rows, from, to, date) == k,
    decreases rows.len(),
{
    if rows.len() > 0 && k > 0 {
        let t = rows.drop_first();
        assert forall|j: int| 0 <= j < k - 1 implies !has_key(#[trigger] t[j], from, to, date) by {
            assert(t[j] == rows[j + 1]);
        }
        lemma_find_row(t, from, to, date, k - 1);
    }
}

/// An in-memory store of rates, keyed by (from, to, date). Rows are never
/// removed; a row's id is its position.
#[derive(Debug)]
pub struct RateTable {
    pub rows: Vec<ExchangeRate>,
}

impl RateTable {
    pub open spec fn view(&self) -> Seq<StoredSpec> {
        self.rows@.map_values(|r: ExchangeRate| r.view())
    }

    /// Every stored rate lies within the bounds of a decimal, and each
    /// row's id is its position, so ids are distinct.
    pub open spec fn wf(&self) -> bool {
        forall|i: int|
            0 <= i < self.rows@.len() ==> (#[trigger] self.rows@[i]).rate.wf()
                && self.rows@[i].id == i
    }

    pub fn new() -> (t: RateTable)
        ensures
            t.view() == Seq::<StoredSpec>::empty(),
            t.wf(),
    {
        let t = RateTable { rows: Vec::new() };
        assert(t.view() =~= Seq::<StoredSpec>::empty());
        t
    }

    /// Index of the row with the key, if any.
    pub fn find(&self, from: &String, to: &String, date: i32) -> (r: Option<usize>)
        ensures
            r is None <==> find_row(self.view(), from@, to@, date) == self.view().len(),
            r matches Some(k) ==> k == find_row(self.view(), from@, to@, date) && k < self.rows@.len(),
    {
        let ghost v = self.view();
        let n = self.rows.len();
        let mut i: usize = 0;
        while i < n
            invariant
                n == self.rows@.len(),
                i <= n,
                v == self.view(),
                forall|j: int| 0 <= j < i ==> !has_key(#[trigger] v[j], from@, to@, date),
            decreases n - i,
        {
            let row = &self.rows[i];
            assert(v[i as int] == row.view());
            if row.date == date && row.from_currency == *from && row.to_currency == *to {
                proof {
                    lemma_find_row(v, from@, to@, date, i as int);
                }
                return Some(i);
            }
            i += 1;
        }
        proof {
            lemma_find_row(v, from@, to@, date, n as int);
        }
        None
    }

    /// Stores `w` at time `now`: inserts a row where none has its key,
    /// replaces the rate and refreshes `updated_at` where the stored value
    /// differs, and writes nothing where it is the same.
    pub fn upsert(&mut self, w: &RateRow, now: i64) -> (a: UpsertAction)
        requires
            old(self).wf(),
            w.rate.wf(),
            old(self).rows@.len() < u64::MAX,
        ensures
            final(self).wf(),
            final(self).view() == upsert_spec(old(self).view(), w.view(), now),
            final(self).rows@.len() <= old(self).rows@.len() + 1,
            // An inserted row gets an id that no stored row has.
            final(self).rows@.len() == old(self).rows@.len() + 1 ==> forall|i: int|
                0 <= i < old(self).rows@.len() ==> #[trigger] old(self).rows@[i].id
                    != final(self).rows@[old(self).rows@.len() as int].id,
            a == action_spec(
                {
                    let k = find_row(old(self).view(), w.from_currency@, w.to_currency@, w.date);
                    if k < old(self).view().len() {
                        Some(old(self).view()[k].rate)
                    } else {
                        None
                    }
                },
                w.rate,
            ),
    {
        let ghost v = self.view();
        let found = self.find(&w.from_currency, &w.to_currency, w.date);
        match found {
            Some(k) => {
                let a = upsert_action(Some(self.rows[k].rate), &w.rate);
                assert(v[k as int] == self.rows@[k as int].view());
                if a == UpsertAction::Update {
                    let old_row = &self.rows[k];
                    let updated = ExchangeRate {
                        id: old_row.id,
                        from_currency: old_row.from_currency.clone(),
                        to_currency: old_row.to_currency.clone(),
                        rate: w.rate,
                        date: old_row.date,
                        created_at: old_row.created_at,
                        updated_at: now,
                    };
                    let ghost before = self.rows@;
                    self.rows.set(k, updated);
                    assert(self.view() =~= upsert_spec(v, w.view(), now));
                    assert forall|i: int| 0 <= i < self.rows@.len() implies (
                    #[trigger] self.rows@[i]).rate.wf() && self.rows@[i].id == i by {
                        if i != k {
                            assert(self.rows@[i] == before[i]);
                        }
                    }
                }
                a
            },
            None => {
                let id = self.rows.len() as u64;
                let row = ExchangeRate {
                    id,
                    from_currency: w.from_currency.clone(),
                    to_currency: w.to_currency.clone(),
                    rate: w.rate,
                    date: w.date,
                    created_at: now,
                    updated_at: now,
                };
                let ghost before = self.rows@;
                self.rows.push(row);
                assert(self.view() =~= upsert_spec(v, w.view(), now));
                assert forall|i: int| 0 <= i < self.rows@.len() implies (
                #[trigger] self.rows@[i]).rate.wf() && self.rows@[i].id == i by {
                    if i < before.len() {
                        assert(self.rows@[i] == before[i]);
                    }
                }
                UpsertAction::Insert
            },
        }
    }

    /// Reconciles one date: upserts, at time `now`, the rows that
    /// `plan_rows` gives for the fetched rates, in order, and returns its
    /// error, if any, after the rows planned before it are stored.
    pub fn reconcile(&mut self, date: i32, rates: &RateMap, currencies: &Vec<String>, now: i64) -> (r:
        Result<(), ReconcileError>)
        requires
            old(self).wf(),
            rates.wf(),
            old(self).rows@.len() + 2 * currencies@.len() < u64::MAX,
        ensures
            final(self).wf(),
            final(self).view() == apply_rows(
                old(self).view(),
                plan(rates.entries_view(), currencies@.map_values(|c: String| c@), date).0,
                now,
            ),
            r is Ok <==> plan(rates.entries_view(), currencies@.map_values(|c: String| c@), date).1 is None,
            r matches Err(e) ==> plan(rates.entries_view(), currencies@.map_values(|c: String| c@), date).1 == Some(e.view()),
            // Every planned key holds its planned value afterwards, so a
            // second call with the same rates writes nothing.
            !currencies@.map_values(|c: String| c@).contains(base_code()) ==> settled(
                final(self).view(),
                plan(rates.entries_view(), currencies@.map_values(|c: String| c@), date).0,
            ),
            // The base-to-C row written for a currency holds exactly the
            // reciprocal of the C-to-base rate written with it.
            !currencies@.map_values(|c: String| c@).contains(base_code()) ==> forall|i: int, j: int|
                0 <= i < plan(rates.entries_view(), codes_of(currencies@), date).0.len()
                    && 0 <= j < plan(rates.entries_view(), codes_of(currencies@), date).0.len()
                    && (#[trigger] plan(rates.entries_view(), codes_of(currencies@), date).0[i]).to
                    == base_code() && (#[trigger] plan(rates.entries_view(), codes_of(currencies@), date).0[j]).from
                    == base_code() && plan(rates.entries_view(), codes_of(currencies@), date).0[j].to
                    == plan(rates.entries_view(), codes_of(currencies@), date).0[i].from
                    ==> plan(rates.entries_view(), codes_of(currencies@), date).0[j].rate
                    == reciprocal_rate(plan(rates.entries_view(), codes_of(currencies@), date).0[i].rate),
            settled(
                old(self).view(),
                plan(rates.entries_view(), currencies@.map_values(|c: String| c@), date).0,
            ) ==> final(self).view() == old(self).view(),
            // A row whose planned values all equal the value it holds, in
            // particular one whose key is not planned, is left as it was.
            forall|i: int|
                0 <= i < old(self).view().len() && matched(
                    plan(rates.entries_view(), currencies@.map_values(|c: String| c@), date).0,
                    old(self).view()[i],
                ) ==> #[trigger] final(self).view()[i] == old(self).view()[i],
            // A currency without a rate fails the date, and no row of it is
            // changed or added.
            forall|c: Seq<char>|
                !currencies@.map_values(|x: String| x@).contains(base_code())
                    && currencies@.map_values(|x: String| x@).contains(c) && #[trigger] lookup(
                    rates.entries_view(),
                    c,
                ) is None ==> r is Err && (forall|i: int|
                    0 <= i < old(self).view().len() && mentions(old(self).view()[i], c)
                        ==> #[trigger] final(self).view()[i] == old(self).view()[i]) && (forall|i: int|
                    old(self).view().len() <= i < final(self).view().len() ==> !mentions(
                        #[trigger] final(self).view()[i],
                        c,
                    )),
    {
        let (rows, err) = plan_rows(date, rates, currencies);
        let ghost ws = rows@.map_values(|w: RateRow| w.view());
        proof {
            lemma_plan_len(rates.entries_view(), currencies@.map_values(|c: String| c@), date);
        }
        let ghost v0 = self.view();
        let n = rows.len();
        let mut i: usize = 0;
        while i < n
            invariant
                n == rows@.len(),
                i <= n,
                n <= 2 * currencies@.len(),
                ws == rows@.map_values(|w: RateRow| w.view()),
                forall|j: int| 0 <= j < rows@.len() ==> (#[trigger] rows@[j]).rate.wf(),
                self.wf(),
                self.view() == apply_rows(v0, ws.take(i as int), now),
                self.rows@.len() <= v0.len() + i,
                v0.len() + 2 * currencies@.len() < u64::MAX,
            decreases n - i,
        {
            assert(ws.take(i + 1).drop_last() =~= ws.take(i as int));
            assert(ws[i as int] == rows@[i as int].view());
            self.upsert(&rows[i], now);
            i += 1;
        }
        assert(ws.take(n as int) =~= ws);
        proof {
            let codes = currencies@.map_values(|c: String| c@);
            let rv = rates.entries_view();
            if !codes.contains(base_code()) {
                lemma_plan_consistent(rv, codes, date);
                lemma_apply_settles(v0, ws, now);
            }
            if !codes.contains(base_code()) {
                let p = plan(rv, codes, date).0;
                assert forall|i: int, j: int|
                    0 <= i < p.len() && 0 <= j < p.len() && (#[trigger] p[i]).to == base_code()
                        && (#[trigger] p[j]).from == base_code() && p[j].to == p[i].from implies p[j].rate
                    == reciprocal_rate(p[i].rate) by {
                    lemma_reverse_row_is_reciprocal(rv, codes, date, i, j);
                }
            }
            if settled(v0, ws) {
                lemma_settled_unchanged(v0, ws, now);
            }
            lemma_apply_matched(v0, ws, now);
            assert forall|c: Seq<char>|
                !codes.contains(base_code()) && codes.contains(c) && #[trigger] lookup(rv, c)
                    is None implies plan(rv, codes, date).1 is Some && (forall|i: int|
                0 <= i < v0.len() && mentions(v0[i], c) ==> #[trigger] self.view()[i] == v0[i]) && (
            forall|i: int| v0.len() <= i < self.view().len() ==> !mentions(#[trigger] self.view()[i], c)) by {
                lemma_missing_rate_aborts(v0, rv, codes, date, c, now);
            }
        }
        match err {
            Some(e) => Err(e),
            None => Ok(()),
        }
    }
}

/// A plan holds two rows for each currency at most.
pub proof fn lemma_plan_len(rates: Seq<(Seq<char>, Rate)>, currencies: Seq<Seq<char>>, date: i32)
    ensures
        plan(rates, currencies, date).0.len() <= 2 * currencies.len(),
    decreases currencies.len(),
{
    if currencies.len() > 0 {
        lemma_plan_len(rates, currencies.drop_last(), date);
    }
}

} // verus!
