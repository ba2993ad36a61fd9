use vstd::prelude::*;
use crate::decimal::Rate;
use crate::parse::{parse_rate, parsed_rate};

verus! {

/// One currency entry of the feed document.
#[derive(Debug, Clone)]
pub struct Valute {
    pub char_code: String,
    pub vunit_rate: String,
}

/// The feed document: its currency entries in order.
#[derive(Debug, Clone)]
pub struct ValCurs {
    pub valute: Vec<Valute>,
}

/// The rate last given for `code`, if any: later entries win.
pub open spec fn lookup(entries: Seq<(Seq<char>, Rate)>, code: Seq<char>) -> Option<Rate>
    decreases entries.len(),
{
    if entries.len() == 0 {
        None
    } else if entries.last().0 == code {
        Some(entries.last().1)
    } else {
        lookup(entries.drop_last(), code)
    }
}

/// Rates by currency code, as entered; a later entry for a code overrides
/// an earlier one.
#[derive(Debug)]
pub struct RateMap {
    pub entries: Vec<(String, Rate)>,
}

impl RateMap {
    pub open spec fn entries_view(&self) -> Seq<(Seq<char>, Rate)> {
        self.entries@.map_values(|p: (String, Rate)| (p.0@, p.1))
    }

    pub open spec fn spec_get(&self, code: Seq<char>) -> Option<Rate> {
        lookup(self.entries_view(), code)
    }

    /// Every rate lies within the bounds of a decimal.
    pub open spec fn wf(&self) -> bool {
        forall|i: int| 0 <= i < self.entries@.len() ==> (#[trigger] self.entries@[i]).1.wf()
    }

    pub fn new() -> (m: RateMap)
        ensures
            m.entries_view() == Seq::<(Seq<char>, Rate)>::empty(),
            m.wf(),
    {
        let m = RateMap { entries: Vec::new() };
        assert(m.entries_view() =~= Seq::<(Seq<char>, Rate)>::empty());
        m
    }

    pub fn insert(&mut self, code: String, rate: Rate)
        ensures
            final(self).entries_view() == old(self).entries_view().push((code@, rate)),
            old(self).wf() && rate.wf() ==> final(self).wf(),
    {
        self.entries.push((code, rate));
        assert(self.entries_view() =~= old(self).entries_view().push((code@, rate)));
        assert(old(self).wf() && rate.wf() ==> self.wf()) by {
            if old(self).wf() && rate.wf() {
                assert forall|i: int| 0 <= i < self.entries@.len() implies (
                #[trigger] self.entries@[i]).1.wf() by {
                    if i < old(self).entries@.len() {
                        assert(self.entries@[i] == old(self).entries@[i]);
                    }
                }
            }
        }
    }

    pub fn get(&self, code: &String) -> (r: Option<Rate>)
        requires
            self.wf(),
        ensures
            r == self.spec_get(code@),
            r matches Some(x) ==> x.wf(),
    {
        let ghost v = self.entries_view();
        let mut i: usize = self.entries.len();
        assert(v.take(i as int) =~= v);
        while i > 0
            invariant
                i <= self.entries@.len(),
                v == self.entries_view(),
                self.wf(),
                lookup(v, code@) == lookup(v.take(i as int), code@),
            decreases i,
        {
            assert(v.take(i as int).drop_last() =~= v.take(i - 1));
            assert(v[i - 1] == (self.entries@[i - 1].0@, self.entries@[i - 1].1));
            if self.entries[i - 1].0 == *code {
                return Some(self.entries[i - 1].1);
            }
            i -= 1;
        }
        assert(v.take(0) =~= Seq::<(Seq<char>, Rate)>::empty());
        None
    }
}

/// The entries of a rate map built from the feed's entries: those whose
/// rate does not parse are left out.
pub open spec fn curs_entries(vs: Seq<Valute>) -> Seq<(Seq<char>, Rate)>
    decreases vs.len(),
{
    if vs.len() == 0 {
        Seq::empty()
    } else {
        let prev = curs_entries(vs.drop_last());
        match parsed_rate(vs.last().vunit_rate@) {
            Some(r) => prev.push((vs.last().char_code@, r)),
            None => prev,
        }
    }
}

/// Reads the rate of each entry of the feed; entries whose rate does not
/// parse are dropped, and a later entry for a code overrides an earlier one.
pub fn get_curs_map(val_curs: &ValCurs) -> (m: RateMap)
    ensures
        m.entries_view() == curs_entries(val_curs.valute@),
        m.wf(),
{
    let mut m = RateMap::new();
    let n = val_curs.valute.len();
    let mut i: usize = 0;
    while i < n
        invariant
            n == val_curs.valute@.len(),
            i <= n,
            m.entries_view() == curs_entries(val_curs.valute@.take(i as int)),
            m.wf(),
        decreases n - i,
    {
        let v = &val_curs.valute[i];
        assert(val_curs.valute@.take(i + 1).drop_last() =~= val_curs.valute@.take(i as int));
        match parse_rate(v.vunit_rate.as_str()) {
            Some(r) => {
                m.insert(v.char_code.clone(), r);
            },
            None => {},
        }
        i += 1;
    }
    assert(val_curs.valute@.take(n as int) =~= val_curs.valute@);
    m
}

/// The date of a day number (days from the Common Era, 0001-01-01 being
/// day 1) written `dd/mm/yyyy`; none for a day outside the calendar's range.
pub uninterp spec fn dmy_text(day: int) -> Option<Seq<char>>;

/// Relies on chrono's `NaiveDate::from_num_days_from_ce_opt` and its
/// `format("%d/%m/%Y")`: the text depends on the day number alone.
#[verifier::external_body]
fn day_month_year(day: i32) -> (r: Option<String>)
    ensures
        r is None <==> dmy_text(day as int) is None,
        r matches Some(t) ==> dmy_text(day as int) == Some(t@),
{
    chrono::NaiveDate::from_num_days_from_ce_opt(day).map(|d| d.format("%d/%m/%Y").to_string())
}

pub open spec fn feed_url_prefix() -> Seq<char> {
    "https://cbr.ru/scripts/XML_daily.asp?date_req="@
}

/// The feed's address for a date already written `dd/mm/yyyy`.
pub fn url_for_date_text(text: &str) -> (r: String)
    ensures
        r@ == feed_url_prefix() + text@,
{
    let prefix = String::from_str("https://cbr.ru/scripts/XML_daily.asp?date_req=");
    prefix.concat(text)
}

/// The feed's address for a day number; none outside the calendar's range.
pub fn get_url(day: i32) -> (r: Option<String>)
    ensures
        r is None <==> dmy_text(day as int) is None,
        r matches Some(u) ==> dmy_text(day as int) matches Some(t) && u@ == feed_url_prefix() + t,
{
    match day_month_year(day) {
        Some(t) => Some(url_for_date_text(t.as_str())),
        None => None,
    }
}

/// The days of one pass, newest first: `end`, `end - 1`, ..., `start`;
/// none where `start` comes after `end`.
pub fn pass_dates(start: i32, end: i32) -> (r: Option<Vec<i32>>)
    ensures
        r is None <==> start > end,
        r matches Some(v) ==> v@.len() == end - start + 1 && forall|i: int|
            0 <= i < v@.len() ==> #[trigger] v@[i] == end - i,
{
    if start > end {
        return None;
    }
    let mut v: Vec<i32> = Vec::new();
    let mut d: i64 = end as i64;
    while d >= start as i64
        invariant
            start <= end,
            start - 1 <= d <= end,
            v@.len() == end - d,
            forall|i: int| 0 <= i < v@.len() ==> #[trigger] v@[i] == end - i,
        decreases d - start + 1,
    {
        v.push(d as i32);
        d = d - 1;
    }
    Some(v)
}

/// The window of one pass around `today`: six days back through tomorrow,
/// as (first, last) day numbers; none where that leaves the range of `i32`.
pub fn trailing_window(today: i32) -> (r: Option<(i32, i32)>)
    ensures
        r is None <==> (today - 6 < i32::MIN || today + 1 > i32::MAX),
        r matches Some(w) ==> w.0 == today - 6 && w.1 == today + 1,
{
    if today < i32::MIN + 6 || today > i32::MAX - 1 {
        None
    } else {
        Some((today - 6, today + 1))
    }
}

} // verus!
