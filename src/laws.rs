use vstd::prelude::*;
use crate::decimal::{reciprocal_rate, same_value, Rate};
use crate::feed::lookup;
use crate::reconcile::{base_code, lemma_plan_stops, plan, RowSpec};
use crate::store::{apply_rows, find_row, has_key, lemma_find_row, upsert_spec, StoredSpec};

verus! {

/// A planned row is either `C` to base at the feed's non-zero rate for `C`,
/// or base to `C` at the reciprocal of that rate, where `C` is one of the
/// currencies and not the base.
pub open spec fn row_shape(
    rates: Seq<(Seq<char>, Rate)>,
    currencies: Seq<Seq<char>>,
    date: i32,
    w: RowSpec,
) -> bool {
    &&& w.date == date
    &&& {
        ||| (w.to == base_code() && w.from != base_code() && currencies.contains(w.from)
            && lookup(rates, w.from) == Some(w.rate) && w.rate.mantissa != 0)
        ||| (w.from == base_code() && w.to != base_code() && currencies.contains(w.to) && (
        lookup(rates, w.to) matches Some(r) && r.mantissa != 0 && w.rate == reciprocal_rate(r)))
    }
}

proof fn lemma_contains_prefix(s: Seq<Seq<char>>, x: Seq<char>)
    requires
        s.len() > 0,
        s.drop_last().contains(x),
    ensures
        s.contains(x),
{
    let j = choose|j: int| 0 <= j < s.drop_last().len() && s.drop_last()[j] == x;
    assert(s[j] == x);
}

/// Every planned row has the shape of `row_shape`.
pub proof fn lemma_plan_shape(rates: Seq<(Seq<char>, Rate)>, currencies: Seq<Seq<char>>, date: i32)
    requires
        !currencies.contains(base_code()),
    ensures
        forall|i: int|
            0 <= i < plan(rates, currencies, date).0.len() ==> row_shape(
                rates,
                currencies,
                date,
                #[trigger] plan(rates, currencies, date).0[i],
            ),
    decreases currencies.len(),
{
    if currencies.len() > 0 {
        let pre = currencies.drop_last();
        if pre.contains(base_code()) {
            lemma_contains_prefix(currencies, base_code());
        }
        lemma_plan_shape(rates, pre, date);
        let prev = plan(rates, pre, date);
        let p = plan(rates, currencies, date);
        let code = currencies.last();
        assert(currencies[currencies.len() - 1] == code);
        assert(code != base_code());
        assert forall|i: int| 0 <= i < p.0.len() implies row_shape(
            rates,
            currencies,
            date,
            #[trigger] p.0[i],
        ) by {
            if i < prev.0.len() {
                assert(p.0[i] == prev.0[i]);
                assert(row_shape(rates, pre, date, prev.0[i]));
                if pre.contains(p.0[i].from) {
                    lemma_contains_prefix(currencies, p.0[i].from);
                }
                if pre.contains(p.0[i].to) {
                    lemma_contains_prefix(currencies, p.0[i].to);
                }
            }
        }
    }
}

/// Rows with the same key carry the same rate.
pub open spec fn consistent(ws: Seq<RowSpec>) -> bool {
    forall|i: int, j: int|
        0 <= i < ws.len() && 0 <= j < ws.len() && #[trigger] ws[i].from == #[trigger] ws[j].from
            && ws[i].to == ws[j].to && ws[i].date == ws[j].date ==> ws[i].rate == ws[j].rate
}

/// Reciprocal pairs: wherever a pass plans `C` to base at a rate `r`, the
/// row it plans for base to `C` holds exactly the reciprocal of `r`, and
/// `r` is not zero.
pub proof fn lemma_reverse_row_is_reciprocal(
    rates: Seq<(Seq<char>, Rate)>,
    currencies: Seq<Seq<char>>,
    date: i32,
    i: int,
    j: int,
)
    requires
        !currencies.contains(base_code()),
        0 <= i < plan(rates, currencies, date).0.len(),
        0 <= j < plan(rates, currencies, date).0.len(),
        plan(rates, currencies, date).0[i].to == base_code(),
        plan(rates, currencies, date).0[j].from == base_code(),
        plan(rates, currencies, date).0[j].to == plan(rates, currencies, date).0[i].from,
    ensures
        plan(rates, currencies, date).0[i].rate.mantissa != 0,
        plan(rates, currencies, date).0[j].rate == reciprocal_rate(
            plan(rates, currencies, date).0[i].rate,
        ),
{
    lemma_plan_shape(rates, currencies, date);
    let ws = plan(rates, currencies, date).0;
    assert(row_shape(rates, currencies, date, ws[i]));
    assert(row_shape(rates, currencies, date, ws[j]));
}

pub proof fn lemma_plan_consistent(rates: Seq<(Seq<char>, Rate)>, currencies: Seq<Seq<char>>, date: i32)
    requires
        !currencies.contains(base_code()),
    ensures
        consistent(plan(rates, currencies, date).0),
{
    lemma_plan_shape(rates, currencies, date);
    let ws = plan(rates, currencies, date).0;
    assert forall|i: int, j: int|
        0 <= i < ws.len() && 0 <= j < ws.len() && #[trigger] ws[i].from == #[trigger] ws[j].from
            && ws[i].to == ws[j].to && ws[i].date == ws[j].date implies ws[i].rate == ws[j].rate by {
        assert(row_shape(rates, currencies, date, ws[i]));
        assert(row_shape(rates, currencies, date, ws[j]));
    }
}

/// `find_row` is the first row with the key, or the number of rows.
proof fn lemma_find_row_props(rows: Seq<StoredSpec>, from: Seq<char>, to: Seq<char>, date: i32)
    ensures
        0 <= find_row(rows, from, to, date) <= rows.len(),
        find_row(rows, from, to, date) < rows.len() ==> has_key(
            rows[find_row(rows, from, to, date)],
            from,
            to,
            date,
        ),
        forall|i: int|
            0 <= i < find_row(rows, from, to, date) ==> !has_key(#[trigger] rows[i], from, to, date),
    decreases rows.len(),
{
    if rows.len() > 0 && !has_key(rows[0], from, to, date) {
        let t = rows.drop_first();
        lemma_find_row_props(t, from, to, date);
        assert forall|i: int| 0 <= i < find_row(rows, from, to, date) implies !has_key(
            #[trigger] rows[i],
            from,
            to,
            date,
        ) by {
            if i > 0 {
                assert(rows[i] == t[i - 1]);
            }
        }
    }
}

/// How one upsert moves the row found for a key: for the upserted key the
/// row afterwards holds a rate of the same value; for any other key the row
/// found stays where it was, with its rate.
proof fn lemma_upsert_find(
    v: Seq<StoredSpec>,
    w: RowSpec,
    now: i64,
    from: Seq<char>,
    to: Seq<char>,
    date: i32,
)
    ensures
        ({
            let v2 = upsert_spec(v, w, now);
            let f2 = find_row(v2, from, to, date);
            let f1 = find_row(v, from, to, date);
            &&& v2.len() >= v.len()
            &&& (from == w.from && to == w.to && date == w.date) ==> (f2 < v2.len()
                && same_value(v2[f2].rate, w.rate))
            &&& !(from == w.from && to == w.to && date == w.date) && f1 < v.len() ==> (f2 == f1
                && v2[f2].rate == v[f1].rate)
        }),
{
    let v2 = upsert_spec(v, w, now);
    let k = find_row(v, w.from, w.to, w.date);
    lemma_find_row_props(v, w.from, w.to, w.date);
    lemma_find_row_props(v, from, to, date);
    let f1 = find_row(v, from, to, date);
    let same = from == w.from && to == w.to && date == w.date;
    if k < v.len() {
        if !same_value(v[k].rate, w.rate) {
            assert forall|i: int| 0 <= i < v.len() implies has_key(#[trigger] v2[i], from, to, date)
                == has_key(v[i], from, to, date) by {}
            if same {
                lemma_find_row(v2, from, to, date, k);
                assert(same_value(w.rate, w.rate));
            } else if f1 < v.len() {
                lemma_find_row(v2, from, to, date, f1);
            }
        }
    } else {
        if same {
            lemma_find_row(v2, from, to, date, v.len() as int);
            assert(same_value(w.rate, w.rate));
        } else if f1 < v.len() {
            lemma_find_row(v2, from, to, date, f1);
        }
    }
}

/// Rows whose keys all hold a rate of the planned value.
pub open spec fn settled(v: Seq<StoredSpec>, ws: Seq<RowSpec>) -> bool {
    forall|j: int|
        0 <= j < ws.len() ==> find_row(v, (#[trigger] ws[j]).from, ws[j].to, ws[j].date) < v.len()
            && same_value(v[find_row(v, ws[j].from, ws[j].to, ws[j].date)].rate, ws[j].rate)
}

/// Reconciling rows that already hold the planned values writes nothing.
pub proof fn lemma_settled_unchanged(v: Seq<StoredSpec>, ws: Seq<RowSpec>, now: i64)
    requires
        settled(v, ws),
    ensures
        apply_rows(v, ws, now) == v,
    decreases ws.len(),
{
    if ws.len() > 0 {
        let pre = ws.drop_last();
        assert forall|j: int| 0 <= j < pre.len() implies find_row(
            v,
            (#[trigger] pre[j]).from,
            pre[j].to,
            pre[j].date,
        ) < v.len() && same_value(v[find_row(v, pre[j].from, pre[j].to, pre[j].date)].rate, pre[j].rate) by {
            assert(pre[j] == ws[j]);
        }
        lemma_settled_unchanged(v, pre, now);
        assert(ws[ws.len() - 1] == ws.last());
    }
}

/// After applying a consistent plan, every planned key holds its value.
pub proof fn lemma_apply_settles(v: Seq<StoredSpec>, ws: Seq<RowSpec>, now: i64)
    requires
        consistent(ws),
    ensures
        settled(apply_rows(v, ws, now), ws),
    decreases ws.len(),
{
    if ws.len() > 0 {
        let pre = ws.drop_last();
        let w = ws.last();
        assert forall|i: int, j: int|
            0 <= i < pre.len() && 0 <= j < pre.len() && #[trigger] pre[i].from
                == #[trigger] pre[j].from && pre[i].to == pre[j].to && pre[i].date == pre[j].date implies pre[i].rate
            == pre[j].rate by {
            assert(pre[i] == ws[i] && pre[j] == ws[j]);
        }
        lemma_apply_settles(v, pre, now);
        let v1 = apply_rows(v, pre, now);
        let v2 = apply_rows(v, ws, now);
        assert(v2 == upsert_spec(v1, w, now));
        assert forall|j: int| 0 <= j < ws.len() implies find_row(
            v2,
            (#[trigger] ws[j]).from,
            ws[j].to,
            ws[j].date,
        ) < v2.len() && same_value(v2[find_row(v2, ws[j].from, ws[j].to, ws[j].date)].rate, ws[j].rate) by {
            lemma_upsert_find(v1, w, now, ws[j].from, ws[j].to, ws[j].date);
            assert(ws[ws.len() - 1] == w);
            if ws[j].from == w.from && ws[j].to == w.to && ws[j].date == w.date {
                assert(ws[j].rate == w.rate);
            } else {
                assert(j < pre.len());
                assert(pre[j] == ws[j]);
            }
        }
    }
}

/// Upsert idempotence: reconciling a date a second time with the same rates
/// writes nothing, whatever the store held before the first time, where the
/// base currency is not among the currencies.
pub proof fn lemma_reconcile_twice_writes_nothing(
    v: Seq<StoredSpec>,
    rates: Seq<(Seq<char>, Rate)>,
    currencies: Seq<Seq<char>>,
    date: i32,
    first: i64,
    second: i64,
)
    requires
        !currencies.contains(base_code()),
    ensures
        apply_rows(
            apply_rows(v, plan(rates, currencies, date).0, first),
            plan(rates, currencies, date).0,
            second,
        ) == apply_rows(v, plan(rates, currencies, date).0, first),
{
    let ws = plan(rates, currencies, date).0;
    lemma_plan_consistent(rates, currencies, date);
    lemma_apply_settles(v, ws, first);
    lemma_settled_unchanged(apply_rows(v, ws, first), ws, second);
}

/// Change detection: upserting a rate of another value for a key that is
/// stored replaces that row's rate and `updated_at`, and nothing else.
pub proof fn lemma_changed_rate_updates_one_row(v: Seq<StoredSpec>, w: RowSpec, now: i64)
    requires
        find_row(v, w.from, w.to, w.date) < v.len(),
        !same_value(v[find_row(v, w.from, w.to, w.date)].rate, w.rate),
    ensures
        0 <= find_row(v, w.from, w.to, w.date),
        ({
            let k = find_row(v, w.from, w.to, w.date);
            let r = upsert_spec(v, w, now);
            &&& r.len() == v.len()
            &&& forall|i: int| 0 <= i < v.len() && i != k ==> #[trigger] r[i] == v[i]
            &&& r[k].rate == w.rate
            &&& r[k].updated_at == now
            &&& r[k].id == v[k].id
            &&& r[k].from == v[k].from
            &&& r[k].to == v[k].to
            &&& r[k].date == v[k].date
            &&& r[k].created_at == v[k].created_at
        }),
{
    lemma_find_row_props(v, w.from, w.to, w.date);
}

pub open spec fn mentions(s: StoredSpec, c: Seq<char>) -> bool {
    s.from == c || s.to == c
}

pub proof fn lemma_apply_leaves_currency(v: Seq<StoredSpec>, ws: Seq<RowSpec>, now: i64, c: Seq<char>)
    requires
        forall|j: int| 0 <= j < ws.len() ==> (#[trigger] ws[j]).from != c && ws[j].to != c,
    ensures
        apply_rows(v, ws, now).len() >= v.len(),
        forall|i: int|
            0 <= i < v.len() && mentions(v[i], c) ==> #[trigger] apply_rows(v, ws, now)[i] == v[i],
        forall|i: int|
            v.len() <= i < apply_rows(v, ws, now).len() ==> !mentions(
                #[trigger] apply_rows(v, ws, now)[i],
                c,
            ),
    decreases ws.len(),
{
    if ws.len() > 0 {
        let pre = ws.drop_last();
        let w = ws.last();
        assert forall|j: int| 0 <= j < pre.len() implies (#[trigger] pre[j]).from != c && pre[j].to
            != c by {
            assert(pre[j] == ws[j]);
        }
        assert(ws[ws.len() - 1] == w);
        lemma_apply_leaves_currency(v, pre, now, c);
        let v1 = apply_rows(v, pre, now);
        let v2 = apply_rows(v, ws, now);
        assert(v2 == upsert_spec(v1, w, now));
        lemma_find_row_props(v1, w.from, w.to, w.date);
        let k = find_row(v1, w.from, w.to, w.date);
        assert forall|i: int| 0 <= i < v.len() && mentions(v[i], c) implies #[trigger] v2[i]
            == v[i] by {
            assert(v1[i] == v[i]);
            if k < v1.len() && i == k {
                assert(has_key(v1[k], w.from, w.to, w.date));
            }
        }
        assert forall|i: int| v.len() <= i < v2.len() implies !mentions(#[trigger] v2[i], c) by {
            if i < v1.len() {
                assert(!mentions(v1[i], c));
                if k < v1.len() && i == k {
                    assert(has_key(v1[k], w.from, w.to, w.date));
                }
            }
        }
    }
}

/// Missing-rate abort: where the feed lacks a rate for one of the
/// currencies, reconciling the date fails, and no stored row for that
/// currency changes nor is added.
pub proof fn lemma_missing_rate_aborts(
    v: Seq<StoredSpec>,
    rates: Seq<(Seq<char>, Rate)>,
    currencies: Seq<Seq<char>>,
    date: i32,
    c: Seq<char>,
    now: i64,
)
    requires
        !currencies.contains(base_code()),
        currencies.contains(c),
        lookup(rates, c) is None,
    ensures
        plan(rates, currencies, date).1 is Some,
        forall|i: int|
            0 <= i < v.len() && mentions(v[i], c) ==> #[trigger] apply_rows(
                v,
                plan(rates, currencies, date).0,
                now,
            )[i] == v[i],
        forall|i: int|
            v.len() <= i < apply_rows(v, plan(rates, currencies, date).0, now).len() ==> !mentions(
                #[trigger] apply_rows(v, plan(rates, currencies, date).0, now)[i],
                c,
            ),
{
    let k = choose|k: int| 0 <= k < currencies.len() && currencies[k] == c;
    let pre = currencies.take(k + 1);
    assert(pre.drop_last() =~= currencies.take(k));
    assert(pre.last() == c);
    assert(plan(rates, pre, date).1 is Some);
    lemma_plan_stops(rates, currencies, date, k + 1);
    lemma_plan_shape(rates, currencies, date);
    let ws = plan(rates, currencies, date).0;
    assert(c != base_code());
    assert forall|j: int| 0 <= j < ws.len() implies (#[trigger] ws[j]).from != c && ws[j].to != c by {
        assert(row_shape(rates, currencies, date, ws[j]));
    }
    lemma_apply_leaves_currency(v, ws, now, c);
}

/// Every planned row with the key of `s` carries the value `s` holds.
pub open spec fn matched(ws: Seq<RowSpec>, s: StoredSpec) -> bool {
    forall|j: int|
        0 <= j < ws.len() && has_key(s, (#[trigger] ws[j]).from, ws[j].to, ws[j].date) ==> same_value(
            s.rate,
            ws[j].rate,
        )
}

/// Change detection over a whole plan: a stored row whose planned values
/// all equal the value it holds (in particular one whose key is not
/// planned) is left as it was; only rows with a changed value are written.
pub proof fn lemma_apply_matched(v: Seq<StoredSpec>, ws: Seq<RowSpec>, now: i64)
    ensures
        apply_rows(v, ws, now).len() >= v.len(),
        forall|i: int|
            0 <= i < v.len() && matched(ws, v[i]) ==> #[trigger] apply_rows(v, ws, now)[i] == v[i],
    decreases ws.len(),
{
    if ws.len() > 0 {
        let pre = ws.drop_last();
        let w = ws.last();
        assert(ws[ws.len() - 1] == w);
        lemma_apply_matched(v, pre, now);
        let v1 = apply_rows(v, pre, now);
        let v2 = apply_rows(v, ws, now);
        assert(v2 == upsert_spec(v1, w, now));
        lemma_find_row_props(v1, w.from, w.to, w.date);
        let k = find_row(v1, w.from, w.to, w.date);
        assert forall|i: int| 0 <= i < v.len() && matched(ws, v[i]) implies #[trigger] v2[i]
            == v[i] by {
            assert forall|j: int|
                0 <= j < pre.len() && has_key(
                    v[i],
                    (#[trigger] pre[j]).from,
                    pre[j].to,
                    pre[j].date,
                ) implies same_value(v[i].rate, pre[j].rate) by {
                assert(pre[j] == ws[j]);
            }
            assert(v1[i] == v[i]);
            if k < v1.len() && i == k {
                assert(has_key(v1[k], w.from, w.to, w.date));
                assert(same_value(v[i].rate, w.rate));
            }
        }
    }
}

} // verus!
