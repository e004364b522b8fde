//! The time-entry retrieval pipeline: the paginated fetch policy of
//! the remote service, page parsing, and month pruning.
use vstd::prelude::*;
use vstd::string::*;
use base64::Engine;
use chrono::Datelike;
use crate::collect::{
    err_payloads, lemma_err_payloads_pred, lemma_ok_payloads_pred, ok_payloads, partition_results,
};
use crate::date::{Date, days_in_month, format_yyyymmdd, spec_yyyymmdd};
use crate::errors::InternalError;
use crate::jsonval::{json_as_array, json_get, json_get_str};
use crate::num::{push_dec_u128, spec_dec_nat};
use crate::teamwork::{entry_from_parts, EntryView, TimeEntry};

verus! {

/// Relies on chrono::Local::now and chrono's Datelike accessors: the
/// current local date as year, month and day, a real calendar date.
#[verifier::external_body]
fn today_ymd() -> (r: (i32, u32, u32))
    ensures
        1 <= r.1 <= 12,
        1 <= r.2 <= days_in_month(r.0 as int, r.1 as int),
{
    let now = chrono::Local::now();
    (now.year(), now.month(), now.day())
}

/// A `Date` from a real calendar day: accepted exactly when the year
/// fits the supported four-digit range, rejected as a date-parsing
/// failure otherwise.
pub fn date_from_ymd(y: i32, m: u32, d: u32) -> (r: Result<Date, InternalError>)
    requires
        1 <= m <= 12,
        1 <= d <= days_in_month(y as int, m as int),
    ensures
        r is Ok <==> 0 <= y <= 9999,
        r is Ok ==> r->Ok_0 == (Date { year: y, month: m, day: d }) && r->Ok_0.valid(),
        r is Err ==> r->Err_0 is DateParsing,
{
    if y < 0 || y > 9999 {
        return Err(InternalError::DateParsing(String::from_str("year out of range")));
    }
    Ok(Date { year: y, month: m, day: d })
}

/// The current local date. Fails with a date-parsing error exactly
/// when the wall clock stands outside the supported year range.
pub fn current_date() -> (r: Result<Date, InternalError>)
    ensures
        r is Ok ==> r->Ok_0.valid(),
        r is Err ==> r->Err_0 is DateParsing,
{
    let (y, m, d) = today_ymd();
    date_from_ymd(y, m, d)
}

/// The standard base64 encoding of the UTF-8 bytes of a string: a
/// function of the characters alone.
pub uninterp spec fn base64_standard(s: Seq<char>) -> Seq<char>;

/// Relies on the STANDARD engine of the base64 crate: it returns the
/// standard base64 encoding of its input bytes.
#[verifier::external_body]
fn b64_encode(s: &str) -> (r: String)
    ensures
        r@ == base64_standard(s@),
{
    base64::engine::general_purpose::STANDARD.encode(s)
}

/// The listing URL asking for one page of 500 entries from a date on.
pub open spec fn spec_page_url(from_date: Seq<char>, page: int) -> Seq<char> {
    "https://codewonderland.teamwork.com/time_entries.json?pageSize=500&page="@ + spec_dec_nat(
        page as nat,
    ) + "&fromdate="@ + from_date
}

/// The Basic authentication header the service expects: the API key as
/// user name, a placeholder password, base64-encoded.
pub open spec fn spec_auth_header(api_key: Seq<char>) -> Seq<char> {
    "Basic "@ + base64_standard(api_key + ":f"@)
}

/// The request URL and Authorization header value of one page request.
pub fn page_request(api_key: &str, from_date: &str, page: u32) -> (r: (String, String))
    ensures
        r.0@ == spec_page_url(from_date@, page as int),
        r.1@ == spec_auth_header(api_key@),
{
    let mut url = String::from_str(
        "https://codewonderland.teamwork.com/time_entries.json?pageSize=500&page=",
    );
    push_dec_u128(&mut url, page as u128);
    url.append("&fromdate=");
    url.append(from_date);
    let mut cred = String::from_str(api_key);
    cred.append(":f");
    let encoded = b64_encode(cred.as_str());
    let mut auth = String::from_str("Basic ");
    auth.append(encoded.as_str());
    proof {
        assert(url@ =~= spec_page_url(from_date@, page as int));
        assert(auth@ =~= spec_auth_header(api_key@));
    }
    (url, auth)
}

/// One time entry from one element of a fetched `time-entries` array.
pub fn entry_from_json(v: &serde_json::Value) -> (r: Result<TimeEntry, InternalError>)
    ensures
        r is Ok ==> r->Ok_0@.date.valid(),
        r is Err ==> r->Err_0 is TimeEntryParsing || r->Err_0 is DateParsing,
{
    let hours = json_get_str(v, "hours");
    let minutes = json_get_str(v, "minutes");
    let tasklist_id = json_get_str(v, "tasklistId");
    let list_name = json_get_str(v, "todo-list-name");
    let task_name = json_get_str(v, "todo-item-name");
    let description = json_get_str(v, "description");
    let date = json_get_str(v, "dateUserPerspective");
    entry_from_parts(hours, minutes, tasklist_id, list_name, task_name, description, date)
}

/// The entries of one page of the service's response: the elements of
/// its `time-entries` array, one entry per element that parses;
/// elements that do not parse are skipped, and their errors come back
/// beside the entries so the caller can report them. The two halves
/// are the ordered partition of the per-element outcomes, split by
/// `partition_results`. A missing array is an empty page, and anything
/// but an array under that key fails the page.
pub fn parse_entries_page(v: &serde_json::Value) -> (r: Result<
    (Vec<TimeEntry>, Vec<InternalError>),
    InternalError,
>)
    ensures
        r is Ok ==> forall|k: int|
            0 <= k < r->Ok_0.0@.len() ==> (#[trigger] r->Ok_0.0@[k])@.date.valid(),
        r is Ok ==> forall|k: int|
            0 <= k < r->Ok_0.1@.len() ==> (#[trigger] r->Ok_0.1@[k]) is TimeEntryParsing || r->Ok_0.1@[k] is DateParsing,
        r is Err ==> r->Err_0 is JsonParsing,
{
    let time_entries = match json_get(v, "time-entries") {
        Some(te) => te,
        None => {
            return Ok((Vec::new(), Vec::new()));
        },
    };
    let arr = match json_as_array(time_entries) {
        Some(a) => a,
        None => {
            return Err(InternalError::JsonParsing(String::from_str("time-entries")));
        },
    };
    let mut results: Vec<Result<TimeEntry, InternalError>> = Vec::new();
    let mut i: usize = 0;
    while i < arr.len()
        invariant
            forall|k: int|
                0 <= k < results@.len() ==> ((#[trigger] results@[k]) is Ok
                    ==> results@[k]->Ok_0@.date.valid()),
            forall|k: int|
                0 <= k < results@.len() ==> ((#[trigger] results@[k]) is Err
                    ==> results@[k]->Err_0 is TimeEntryParsing || results@[k]->Err_0 is DateParsing),
        decreases arr.len() - i,
    {
        results.push(entry_from_json(&arr[i]));
        i = i + 1;
    }
    let ghost rs = results@;
    let (parsed, skipped) = partition_results(results);
    proof {
        lemma_ok_payloads_pred(rs, |e: TimeEntry| e@.date.valid());
        lemma_err_payloads_pred(
            rs,
            |x: InternalError| x is TimeEntryParsing || x is DateParsing,
        );
        assert(parsed@ == ok_payloads(rs));
        assert(skipped@ == err_payloads(rs));
    }
    Ok((parsed, skipped))
}

/// The entries of `s` whose date lies in calendar month `month`, in
/// order. The pruning rule compares the month number only, not the
/// year: a deliberate simplification of this pipeline.
pub open spec fn spec_prune(s: Seq<EntryView>, month: int) -> Seq<EntryView>
    decreases s.len(),
{
    if s.len() == 0 {
        Seq::empty()
    } else {
        let p = spec_prune(s.drop_last(), month);
        if s.last().date.month == month {
            p.push(s.last())
        } else {
            p
        }
    }
}

proof fn lemma_prune_all_match(s: Seq<EntryView>, month: int)
    ensures
        forall|i: int|
            0 <= i < spec_prune(s, month).len() ==> (#[trigger] spec_prune(s, month)[i]).date.month
                == month,
    decreases s.len(),
{
    if s.len() > 0 {
        lemma_prune_all_match(s.drop_last(), month);
        let p = spec_prune(s.drop_last(), month);
        if s.last().date.month == month {
            assert forall|i: int|
                0 <= i < spec_prune(s, month).len() implies (#[trigger] spec_prune(s, month)[
            i]).date.month == month by {
                if i < p.len() {
                    assert(spec_prune(s, month)[i] == p[i]);
                } else {
                    assert(spec_prune(s, month)[i] == s.last());
                }
            }
        }
    }
}

proof fn lemma_prune_of_matching(s: Seq<EntryView>, month: int)
    requires
        forall|i: int| 0 <= i < s.len() ==> (#[trigger] s[i]).date.month == month,
    ensures
        spec_prune(s, month) == s,
    decreases s.len(),
{
    if s.len() == 0 {
        assert(spec_prune(s, month) =~= s);
    } else {
        assert(forall|i: int|
            0 <= i < s.drop_last().len() ==> (#[trigger] s.drop_last()[i]).date.month == month);
        lemma_prune_of_matching(s.drop_last(), month);
        assert(s[s.len() - 1].date.month == month);
        assert(spec_prune(s.drop_last(), month).push(s.last()) =~= s);
    }
}

/// Pruning is idempotent: pruning an already-pruned sequence returns
/// it unchanged.
pub proof fn lemma_prune_idempotent(s: Seq<EntryView>, month: int)
    ensures
        spec_prune(spec_prune(s, month), month) == spec_prune(s, month),
{
    lemma_prune_all_match(s, month);
    lemma_prune_of_matching(spec_prune(s, month), month);
}

/// Retains exactly the entries whose date falls in the same calendar
/// month as `month_start`, keeping their order.
pub fn prune_entries(entries: Vec<TimeEntry>, month_start: Date) -> (r: Vec<TimeEntry>)
    ensures
        r@.map_values(|x: TimeEntry| x@) == spec_prune(
            entries@.map_values(|x: TimeEntry| x@),
            month_start.month as int,
        ),
{
    let ghost orig = entries@.map_values(|x: TimeEntry| x@);
    let ghost month = month_start.month as int;
    let mut entries = entries;
    let n: usize = entries.len();
    assert(orig.len() == n);
    let mut kept: Vec<TimeEntry> = Vec::new();
    let mut i: usize = 0;
    while entries.len() > 0
        invariant
            orig.len() <= usize::MAX,
            month == month_start.month as int,
            i + entries.len() == orig.len(),
            entries@.map_values(|x: TimeEntry| x@) =~= orig.skip(i as int),
            kept@.map_values(|x: TimeEntry| x@) == spec_prune(orig.take(i as int), month),
        decreases entries.len(),
    {
        let ghost before = entries@;
        let e = entries.remove(0);
        proof {
            assert(before.map_values(|x: TimeEntry| x@)[0] == e@);
            assert(e@ == orig[i as int]);
            assert forall|k: int|
                0 <= k < entries@.len() implies entries@.map_values(|x: TimeEntry| x@)[k]
                == #[trigger] (orig.skip(i as int + 1)[k]) by {
                assert(entries@[k] == before[k + 1]);
                assert(before.map_values(|x: TimeEntry| x@)[k + 1] == orig.skip(i as int)[k + 1]);
            }
            assert(entries@.map_values(|x: TimeEntry| x@) =~= orig.skip(i as int + 1));
            assert(orig.take(i as int + 1).drop_last() =~= orig.take(i as int));
            assert(orig.take(i as int + 1).last() == orig[i as int]);
        }
        if e.date.month == month_start.month {
            kept.push(e);
            proof {
                assert(kept@.map_values(|x: TimeEntry| x@) =~= spec_prune(
                    orig.take(i as int + 1),
                    month,
                ));
            }
        }
        i = i + 1;
    }
    proof {
        assert(orig.take(orig.len() as int) =~= orig);
    }
    kept
}

/// One page request the fetch loop is to make next: the `fromdate`
/// string, the page offset, and whether a rate-limit pause comes first.
pub struct FetchRequest {
    pub from_date: String,
    pub page: u32,
    pub sleep_before: bool,
}

/// What the fetch policy decides after a page arrives.
pub enum FetchStep {
    /// Request one more page.
    Next(FetchRequest),
    /// The last page was short: pagination is exhausted.
    Done,
}

/// The state of the paginated fetch: the current `fromdate`, the page
/// counter, the rate-limit call counter, and every entry fetched so
/// far.
pub struct FetchState {
    pub start_date: Date,
    pub page: u32,
    pub api_calls: u32,
    pub entries: Vec<TimeEntry>,
}

impl FetchState {
    /// The state is consistent: a real start date, the page counter
    /// within the offset ceiling, the call counter below the limit,
    /// and every held entry carrying a real date.
    pub open spec fn wf(self) -> bool {
        &&& self.start_date.valid()
        &&& self.page <= 90
        &&& self.api_calls < 140
        &&& forall|k: int|
            0 <= k < self.entries@.len() ==> (#[trigger] self.entries@[k])@.date.valid()
    }

    /// The fetch begins at the window start: the first request asks
    /// for page offset 0 from the window's first day, and later
    /// requests step the offset up one at a time.
    pub fn start(window_start: Date) -> (r: (FetchState, FetchRequest))
        requires
            window_start.valid(),
        ensures
            r.0.wf(),
            r.0.start_date == window_start,
            r.0.page == 0,
            r.0.api_calls == 0,
            r.0.entries@ == Seq::<TimeEntry>::empty(),
            r.1.from_date@ == spec_yyyymmdd(window_start),
            r.1.page == 0,
            !r.1.sleep_before,
    {
        let state = FetchState { start_date: window_start, page: 0, api_calls: 0, entries: Vec::new() };
        let req = FetchRequest {
            from_date: format_yyyymmdd(window_start),
            page: 0,
            sleep_before: false,
        };
        (state, req)
    }

    /// Feeds the entries of the page just fetched into the state and
    /// decides what to do next. A full page of 500 entries asks for
    /// another page: the page counter steps forward, and past the
    /// ceiling of 90 it resets to 1 while the `fromdate` jumps to the
    /// date of the last entry fetched. Every 140th request is preceded
    /// by a rate-limit pause. A short page ends the fetch.
    pub fn advance(&mut self, page_entries: Vec<TimeEntry>) -> (step: FetchStep)
        requires
            old(self).wf(),
            forall|k: int|
                0 <= k < page_entries@.len() ==> (#[trigger] page_entries@[k])@.date.valid(),
        ensures
            final(self).wf(),
            final(self).entries@ == old(self).entries@ + page_entries@,
            step is Done <==> page_entries@.len() != 500,
            step is Done ==> final(self).start_date == old(self).start_date && final(self).page
                == old(self).page && final(self).api_calls == old(self).api_calls,
            step is Next && old(self).page < 90 ==> final(self).page == old(self).page + 1
                && final(self).start_date == old(self).start_date,
            step is Next && old(self).page == 90 ==> final(self).page == 1
                && final(self).start_date == final(self).entries@.last().date,
            step is Next ==> final(self).api_calls == (
            if old(self).api_calls + 1 >= 140 {
                0int
            } else {
                old(self).api_calls + 1
            }),
            step matches FetchStep::Next(req) ==> (req.sleep_before <==> old(self).api_calls + 1
                >= 140) && req.page == final(self).page && req.from_date@ == spec_yyyymmdd(
                final(self).start_date,
            ),
    {
        let full = page_entries.len() == 500;
        let mut incoming = page_entries;
        self.entries.append(&mut incoming);
        if !full {
            return FetchStep::Done;
        }
        if self.page >= 90 {
            self.page = 1;
            let last_idx = self.entries.len() - 1;
            self.start_date = self.entries[last_idx].date;
        } else {
            self.page = self.page + 1;
        }
        let sleep_before = self.api_calls + 1 >= 140;
        if sleep_before {
            self.api_calls = 0;
        } else {
            self.api_calls = self.api_calls + 1;
        }
        let from_date = format_yyyymmdd(self.start_date);
        FetchStep::Next(FetchRequest { from_date, page: self.page, sleep_before })
    }
}

/// The entries a fetch run gathers when the service answers its page
/// requests with `pages`, page by page: every page is taken whole, and
/// the run goes on exactly as long as pages arrive full, with 500
/// entries. This mirrors what `FetchState::advance` does with each
/// page.
pub open spec fn spec_fetch_entries(pages: Seq<Seq<EntryView>>) -> Seq<EntryView>
    decreases pages.len(),
{
    if pages.len() == 0 {
        Seq::empty()
    } else if pages[0].len() == 500 {
        pages[0] + spec_fetch_entries(pages.drop_first())
    } else {
        pages[0]
    }
}

/// How many pages that run requests.
pub open spec fn spec_pages_consumed(pages: Seq<Seq<EntryView>>) -> int
    decreases pages.len(),
{
    if pages.len() == 0 {
        0
    } else if pages[0].len() == 500 {
        1 + spec_pages_consumed(pages.drop_first())
    } else {
        1
    }
}

/// Pagination terminates and loses nothing: when every page but the
/// last is full and the last is short, the fetch stops exactly after
/// the last page and gathers every entry of every page.
pub proof fn lemma_fetch_terminates(pages: Seq<Seq<EntryView>>)
    requires
        pages.len() > 0,
        forall|i: int| 0 <= i < pages.len() - 1 ==> (#[trigger] pages[i]).len() == 500,
        pages.last().len() != 500,
    ensures
        spec_pages_consumed(pages) == pages.len(),
        spec_fetch_entries(pages) == pages.flatten(),
    decreases pages.len(),
{
    if pages.len() == 1 {
        assert(pages[0].len() != 500);
        assert(pages.drop_first().flatten() =~= Seq::<EntryView>::empty());
        assert(pages.flatten() =~= pages[0]);
    } else {
        assert(pages[0].len() == 500);
        let rest = pages.drop_first();
        assert(rest.last() == pages.last());
        assert(forall|i: int| 0 <= i < rest.len() - 1 ==> (#[trigger] rest[i]).len() == 500);
        lemma_fetch_terminates(rest);
    }
}

} // verus!
