//! Rendering one invoice text per billable client: totals, per-list
//! sections, and per-day task lines.
use vstd::prelude::*;
use vstd::string::*;
use crate::date::{date_heading, spec_date_heading, Date};
use crate::num::{push_dec_u128, spec_dec_int, spec_dec_nat};
use crate::teamwork::{BucketView, Client, ClientView, EntryView, TimeEntriesByList, TimeEntry};

verus! {

/// Duration of one entry in minutes.
pub open spec fn entry_minutes(e: EntryView) -> int {
    e.hours * 60 + e.minutes
}

/// Sum of the entry durations, in minutes.
pub open spec fn entries_total(es: Seq<EntryView>) -> int
    decreases es.len(),
{
    if es.len() == 0 {
        0
    } else {
        entries_total(es.drop_last()) + entry_minutes(es.last())
    }
}

/// Sum of the durations of every entry of every bucket, in minutes.
pub open spec fn buckets_total(bs: Seq<BucketView>) -> int
    decreases bs.len(),
{
    if bs.len() == 0 {
        0
    } else {
        buckets_total(bs.drop_last()) + entries_total(bs.last().entries)
    }
}

/// Total invoiced minutes of one client, over all its buckets.
pub open spec fn client_total(c: ClientView) -> int {
    buckets_total(c.buckets)
}

/// How many entries the buckets hold in all.
pub open spec fn bucket_entry_count(bs: Seq<BucketView>) -> int
    decreases bs.len(),
{
    if bs.len() == 0 {
        0
    } else {
        bucket_entry_count(bs.drop_last()) + bs.last().entries.len()
    }
}

/// Every entry of every bucket of the client carries a real date.
pub open spec fn client_dates_valid(c: ClientView) -> bool {
    forall|i: int, j: int|
        0 <= i < c.buckets.len() && 0 <= j < c.buckets[i].entries.len()
            ==> (#[trigger] c.buckets[i].entries[j]).date.valid()
}

/// An entry's duration is at most 2^37 minutes in magnitude.
proof fn lemma_entries_total_bound(es: Seq<EntryView>)
    requires
        forall|j: int|
            0 <= j < es.len() ==> i32::MIN <= (#[trigger] es[j]).hours <= i32::MAX && i32::MIN <= es[j].minutes <= i32::MAX,
    ensures
        -(es.len() * 137438953472) <= entries_total(es) <= es.len() * 137438953472,
    decreases es.len(),
{
    if es.len() > 0 {
        assert(forall|j: int|
            0 <= j < es.drop_last().len() ==> i32::MIN <= (#[trigger] es.drop_last()[j]).hours
                <= i32::MAX && i32::MIN <= es.drop_last()[j].minutes <= i32::MAX);
        lemma_entries_total_bound(es.drop_last());
        assert(es[es.len() - 1] == es.last());
        assert(-137438953472 <= entry_minutes(es.last()) <= 137438953472);
    }
}

proof fn lemma_buckets_total_bound(bs: Seq<BucketView>)
    requires
        forall|i: int, j: int|
            0 <= i < bs.len() && 0 <= j < bs[i].entries.len() ==> i32::MIN <= (#[trigger] bs[i].entries[j]).hours <= i32::MAX && i32::MIN <= bs[i].entries[j].minutes <= i32::MAX,
    ensures
        -(bucket_entry_count(bs) * 137438953472) <= buckets_total(bs) <= bucket_entry_count(bs)
            * 137438953472,
        bucket_entry_count(bs) >= 0,
    decreases bs.len(),
{
    if bs.len() > 0 {
        assert(forall|i: int, j: int|
            0 <= i < bs.drop_last().len() && 0 <= j < bs.drop_last()[i].entries.len()
                ==> i32::MIN <= (#[trigger] bs.drop_last()[i].entries[j]).hours <= i32::MAX
                && i32::MIN <= bs.drop_last()[i].entries[j].minutes <= i32::MAX);
        lemma_buckets_total_bound(bs.drop_last());
        assert(bs[bs.len() - 1] == bs.last());
        assert(forall|j: int|
            0 <= j < bs.last().entries.len() ==> i32::MIN <= (#[trigger] bs.last().entries[j]).hours
                <= i32::MAX && i32::MIN <= bs.last().entries[j].minutes <= i32::MAX);
        lemma_entries_total_bound(bs.last().entries);
    }
}

/// Minutes of one entry, exactly, in a width that cannot overflow.
fn entry_minutes_exec(e: &TimeEntry) -> (r: i128)
    ensures
        r == entry_minutes(e@),
{
    (e.hours_spent as i128) * 60 + (e.minutes_spent as i128)
}

/// Sum of the durations of a bucket's entries.
pub fn bucket_total_minutes(b: &TimeEntriesByList) -> (r: i128)
    ensures
        r == entries_total(b@.entries),
{
    let ghost es = b.entries@.map_values(|x: TimeEntry| x@);
    let n: usize = b.entries.len();
    assert(es.len() == n);
    let mut total: i128 = 0;
    let mut i: usize = 0;
    while i < b.entries.len()
        invariant
            0 <= i <= es.len(),
            es == b.entries@.map_values(|x: TimeEntry| x@),
            es.len() <= usize::MAX,
            total == entries_total(es.take(i as int)),
            -(i as int * 137438953472) <= total <= i as int * 137438953472,
        decreases b.entries.len() - i,
    {
        let em = entry_minutes_exec(&b.entries[i]);
        proof {
            assert(es.take(i as int + 1).drop_last() =~= es.take(i as int));
            assert(es.take(i as int + 1).last() == es[i as int]);
        }
        total = total + em;
        i = i + 1;
    }
    proof {
        assert(es.take(es.len() as int) =~= es);
    }
    total
}

/// Total invoiced minutes of a client: the sum of hours times sixty
/// plus minutes over all its entries across all its lists.
pub fn client_total_minutes(c: &Client) -> (r: i128)
    requires
        bucket_entry_count(c@.buckets) <= usize::MAX,
    ensures
        r == client_total(c@),
{
    let ghost bs = c@.buckets;
    proof {
        lemma_count_nonneg(bs);
        assert(bs.take(0) =~= Seq::<BucketView>::empty());
    }
    let mut total: i128 = 0;
    let mut i: usize = 0;
    while i < c.entries_by_list.len()
        invariant
            0 <= i <= bs.len(),
            bs == c@.buckets,
            bucket_entry_count(bs) <= usize::MAX,
            total == buckets_total(bs.take(i as int)),
            -(bucket_entry_count(bs.take(i as int)) * 137438953472) <= total <= bucket_entry_count(
                bs.take(i as int),
            ) * 137438953472,
            0 <= bucket_entry_count(bs.take(i as int)) <= bucket_entry_count(bs),
        decreases c.entries_by_list.len() - i,
    {
        let bt = bucket_total_minutes(&c.entries_by_list[i]);
        proof {
            assert(bs[i as int] == c.entries_by_list@[i as int]@);
            assert(bs.take(i as int + 1).drop_last() =~= bs.take(i as int));
            assert(bs.take(i as int + 1).last() == bs[i as int]);
            assert(forall|j: int|
                0 <= j < bs[i as int].entries.len() ==> i32::MIN <= (#[trigger] bs[i as int].entries[j]).hours <= i32::MAX && i32::MIN <= bs[i as int].entries[j].minutes <= i32::MAX) by {
                assert forall|j: int|
                    0 <= j < bs[i as int].entries.len() implies i32::MIN <= (#[trigger] bs[
                i as int].entries[j]).hours <= i32::MAX && i32::MIN <= bs[i as int].entries[j].minutes
                    <= i32::MAX by {
                    let ev = bs[i as int].entries[j];
                    assert(ev == c.entries_by_list@[i as int].entries@.map_values(
                        |x: TimeEntry| x@,
                    )[j]);
                }
            }
            lemma_entries_total_bound(bs[i as int].entries);
            lemma_count_take_mono(bs, i as int + 1);
        }
        total = total + bt;
        i = i + 1;
    }
    proof {
        assert(bs.take(bs.len() as int) =~= bs);
    }
    total
}

proof fn lemma_count_take_mono(bs: Seq<BucketView>, j: int)
    requires
        0 <= j <= bs.len(),
    ensures
        0 <= bucket_entry_count(bs.take(j)) <= bucket_entry_count(bs),
    decreases bs.len() - j,
{
    lemma_count_nonneg(bs.take(j));
    if j == bs.len() {
        assert(bs.take(j) =~= bs);
    } else {
        assert(bs.take(j + 1).drop_last() =~= bs.take(j));
        lemma_count_take_mono(bs, j + 1);
    }
}

proof fn lemma_count_nonneg(bs: Seq<BucketView>)
    ensures
        bucket_entry_count(bs) >= 0,
    decreases bs.len(),
{
    if bs.len() > 0 {
        lemma_count_nonneg(bs.drop_last());
    }
}

/// Hours part of a duration under Rust's truncating division by 60.
pub open spec fn hours_part(t: int) -> int {
    if t >= 0 {
        t / 60
    } else {
        -((-t) / 60)
    }
}

/// Minutes remainder of a duration under Rust's truncating remainder.
pub open spec fn minutes_part(t: int) -> int {
    if t >= 0 {
        t % 60
    } else {
        -((-t) % 60)
    }
}

/// The rendered duration: hours, a separator, minutes.
pub open spec fn spec_duration_text(t: int) -> Seq<char> {
    spec_dec_int(hours_part(t)) + " hours, "@ + spec_dec_int(minutes_part(t)) + " minutes"@
}

/// Appends `dec` of a signed value given as sign and magnitude.
fn push_signed(s: &mut String, negative: bool, mag: u128)
    ensures
        final(s)@ == old(s)@ + spec_dec_int(if negative { -(mag as int) } else { mag as int }),
{
    proof {
        reveal_strlit("-");
    }
    if negative && mag > 0 {
        s.append("-");
    }
    push_dec_u128(s, mag);
    proof {
        if negative && mag > 0 {
            assert(old(s)@ + "-"@ + spec_dec_nat(mag as nat) =~= old(s)@ + spec_dec_int(
                -(mag as int),
            ));
        }
    }
}

/// Appends the rendered duration of `t` minutes.
fn push_duration(s: &mut String, t: i128)
    ensures
        final(s)@ == old(s)@ + spec_duration_text(t as int),
{
    let negative = t < 0;
    let mag: u128 = if t >= 0 {
        t as u128
    } else {
        ((-(t + 1)) as u128) + 1
    };
    let hu = mag / 60;
    let mu = mag % 60;
    proof {
        if negative {
            assert(hours_part(t as int) == -(hu as int));
            assert(minutes_part(t as int) == -(mu as int));
        } else {
            assert(hours_part(t as int) == hu as int);
            assert(minutes_part(t as int) == mu as int);
        }
    }
    push_signed(s, negative, hu);
    s.append(" hours, ");
    push_signed(s, negative, mu);
    s.append(" minutes");
    proof {
        assert(s@ =~= old(s)@ + spec_duration_text(t as int));
    }
}

/// One rendered task line: the task name, the entry's own hours and
/// minutes, and the description.
pub open spec fn spec_entry_line(e: EntryView) -> Seq<char> {
    "- "@ + e.task_name + " ("@ + spec_dec_int(e.hours) + " hours, "@ + spec_dec_int(e.minutes)
        + " minutes) - "@ + e.description + "\n"@
}

fn push_entry_line(s: &mut String, e: &TimeEntry)
    ensures
        final(s)@ == old(s)@ + spec_entry_line(e@),
{
    s.append("- ");
    s.append(e.task_name.as_str());
    s.append(" (");
    let negative_h = e.hours_spent < 0;
    let mag_h: u128 = if e.hours_spent >= 0 {
        e.hours_spent as u128
    } else {
        ((-(e.hours_spent as i64)) as u128)
    };
    push_signed(s, negative_h, mag_h);
    s.append(" hours, ");
    let negative_m = e.minutes_spent < 0;
    let mag_m: u128 = if e.minutes_spent >= 0 {
        e.minutes_spent as u128
    } else {
        ((-(e.minutes_spent as i64)) as u128)
    };
    push_signed(s, negative_m, mag_m);
    s.append(" minutes) - ");
    s.append(e.description.as_str());
    s.append("\n");
    proof {
        assert(s@ =~= old(s)@ + spec_entry_line(e@));
    }
}

/// The rendered lines of the entries dated `d`, in entry order.
pub open spec fn spec_date_lines(es: Seq<EntryView>, d: Date) -> Seq<char>
    decreases es.len(),
{
    if es.len() == 0 {
        Seq::empty()
    } else {
        spec_date_lines(es.drop_last(), d) + if es.last().date == d {
            spec_entry_line(es.last())
        } else {
            Seq::empty()
        }
    }
}

/// The distinct dates among the entries whose day of month is `day`,
/// in order of first occurrence.
pub open spec fn spec_dates_with_day(es: Seq<EntryView>, day: int) -> Seq<Date>
    decreases es.len(),
{
    if es.len() == 0 {
        Seq::empty()
    } else {
        let p = spec_dates_with_day(es.drop_last(), day);
        if es.last().date.day == day && !p.contains(es.last().date) {
            p.push(es.last().date)
        } else {
            p
        }
    }
}

/// The rendered groups of the given dates: each date's heading line
/// followed by its entries' lines.
pub open spec fn spec_day_group(es: Seq<EntryView>, dates: Seq<Date>) -> Seq<char>
    decreases dates.len(),
{
    if dates.len() == 0 {
        Seq::empty()
    } else {
        spec_day_group(es, dates.drop_last()) + spec_date_heading(dates.last()) + "\n"@
            + spec_date_lines(es, dates.last())
    }
}

/// The rendered day groups from day-of-month `day` through 31, in
/// ascending day order.
pub open spec fn spec_days_text(es: Seq<EntryView>, day: int) -> Seq<char>
    decreases 32 - day,
{
    if day < 1 || day > 31 {
        Seq::empty()
    } else {
        spec_day_group(es, spec_dates_with_day(es, day)) + spec_days_text(es, day + 1)
    }
}

/// One rendered list section: the list's header with its total, the
/// day groups sorted by day of month, and a closing blank line.
pub open spec fn spec_bucket_text(b: BucketView) -> Seq<char> {
    b.list.name + " ("@ + spec_duration_text(entries_total(b.entries)) + ")\n"@ + spec_days_text(
        b.entries,
        1,
    ) + "\n"@
}

/// The rendered sections of the buckets, in bucket order.
pub open spec fn spec_buckets_text(bs: Seq<BucketView>) -> Seq<char>
    decreases bs.len(),
{
    if bs.len() == 0 {
        Seq::empty()
    } else {
        spec_buckets_text(bs.drop_last()) + spec_bucket_text(bs.last())
    }
}

/// The whole invoice text of one client: name, total time, blank line,
/// then one section per bucket.
pub open spec fn spec_invoice_text(c: ClientView) -> Seq<char> {
    c.name + "\nTotal Time: "@ + spec_duration_text(client_total(c)) + "\n\n"@ + spec_buckets_text(
        c.buckets,
    )
}

/// Does some held date equal `d`?
fn dates_contain(v: &Vec<Date>, d: Date) -> (r: bool)
    ensures
        r == v@.contains(d),
{
    let mut i: usize = 0;
    while i < v.len()
        invariant
            0 <= i <= v@.len(),
            forall|j: int| 0 <= j < i ==> v@[j] != d,
        decreases v.len() - i,
    {
        if v[i] == d {
            assert(v@[i as int] == d);
            return true;
        }
        i = i + 1;
    }
    proof {
        if v@.contains(d) {
            let w = choose|j: int| 0 <= j < v@.len() && v@[j] == d;
            assert(v@[w] != d);
        }
    }
    false
}

/// The distinct dates among the entries with day of month `day`, in
/// first-occurrence order.
fn collect_dates_with_day(entries: &Vec<TimeEntry>, day: u32) -> (r: Vec<Date>)
    requires
        forall|k: int|
            0 <= k < entries@.len() ==> (#[trigger] entries@[k])@.date.valid(),
    ensures
        r@ == spec_dates_with_day(entries@.map_values(|x: TimeEntry| x@), day as int),
        forall|j: int| 0 <= j < r@.len() ==> (#[trigger] r@[j]).valid(),
{
    let ghost es = entries@.map_values(|x: TimeEntry| x@);
    let mut dates: Vec<Date> = Vec::new();
    let mut k: usize = 0;
    while k < entries.len()
        invariant
            0 <= k <= es.len(),
            es == entries@.map_values(|x: TimeEntry| x@),
            forall|j: int| 0 <= j < entries@.len() ==> (#[trigger] entries@[j])@.date.valid(),
            dates@ == spec_dates_with_day(es.take(k as int), day as int),
            forall|j: int| 0 <= j < dates@.len() ==> (#[trigger] dates@[j]).valid(),
        decreases entries.len() - k,
    {
        let d = entries[k].date;
        proof {
            assert(es.take(k as int + 1).drop_last() =~= es.take(k as int));
            assert(es.take(k as int + 1).last() == es[k as int]);
            assert(es[k as int].date == d);
        }
        if d.day == day && !dates_contain(&dates, d) {
            dates.push(d);
        }
        k = k + 1;
    }
    proof {
        assert(es.take(es.len() as int) =~= es);
    }
    dates
}

/// Appends one rendered list section.
fn push_bucket_text(s: &mut String, b: &TimeEntriesByList)
    requires
        forall|j: int|
            0 <= j < b@.entries.len() ==> (#[trigger] b@.entries[j]).date.valid(),
    ensures
        final(s)@ == old(s)@ + spec_bucket_text(b@),
{
    let ghost es = b@.entries;
    proof {
        assert forall|j: int|
            0 <= j < b.entries@.len() implies (#[trigger] b.entries@[j])@.date.valid() by {
            assert(b.entries@[j]@ == es[j]);
        }
    }
    s.append(b.list.name.as_str());
    s.append(" (");
    let lt = bucket_total_minutes(b);
    push_duration(s, lt);
    s.append(")\n");
    let ghost base = s@;
    proof {
        assert(base =~= old(s)@ + b@.list.name + " ("@ + spec_duration_text(entries_total(es))
            + ")\n"@);
    }
    let mut day: u32 = 1;
    while day <= 31
        invariant
            1 <= day <= 32,
            es == b@.entries,
            es == b.entries@.map_values(|x: TimeEntry| x@),
            forall|j: int| 0 <= j < b.entries@.len() ==> (#[trigger] b.entries@[j])@.date.valid(),
            s@ + spec_days_text(es, day as int) == base + spec_days_text(es, 1),
        decreases 32 - day,
    {
        let dates = collect_dates_with_day(&b.entries, day);
        let ghost day_base = s@;
        let mut di: usize = 0;
        while di < dates.len()
            invariant
                0 <= di <= dates@.len(),
                es == b@.entries,
                es == b.entries@.map_values(|x: TimeEntry| x@),
                forall|j: int|
                    0 <= j < b.entries@.len() ==> (#[trigger] b.entries@[j])@.date.valid(),
                forall|j: int| 0 <= j < dates@.len() ==> (#[trigger] dates@[j]).valid(),
                s@ == day_base + spec_day_group(es, dates@.take(di as int)),
            decreases dates.len() - di,
        {
            let d = dates[di];
            let heading = date_heading(d);
            s.append(heading.as_str());
            s.append("\n");
            let ghost lines_base = s@;
            let mut k: usize = 0;
            while k < b.entries.len()
                invariant
                    0 <= k <= es.len(),
                    es == b.entries@.map_values(|x: TimeEntry| x@),
                    s@ == lines_base + spec_date_lines(es.take(k as int), d),
                decreases b.entries.len() - k,
            {
                proof {
                    assert(es.take(k as int + 1).drop_last() =~= es.take(k as int));
                    assert(es.take(k as int + 1).last() == es[k as int]);
                }
                if b.entries[k].date == d {
                    push_entry_line(s, &b.entries[k]);
                }
                k = k + 1;
            }
            proof {
                assert(es.take(es.len() as int) =~= es);
                assert(dates@.take(di as int + 1).drop_last() =~= dates@.take(di as int));
                assert(dates@.take(di as int + 1).last() == dates@[di as int]);
            }
            di = di + 1;
        }
        proof {
            assert(dates@.take(dates@.len() as int) =~= dates@);
        }
        day = day + 1;
    }
    proof {
        assert(s@ + spec_days_text(es, 32) =~= s@);
    }
    s.append("\n");
    proof {
        assert(s@ =~= old(s)@ + spec_bucket_text(b@));
    }
}

/// Renders the whole invoice text of one client.
pub fn render_invoice(client: &Client) -> (r: String)
    requires
        client_dates_valid(client@),
        bucket_entry_count(client@.buckets) <= usize::MAX,
    ensures
        r@ == spec_invoice_text(client@),
{
    let mut out = String::new();
    out.append(client.name.as_str());
    out.append("\nTotal Time: ");
    let total = client_total_minutes(client);
    push_duration(&mut out, total);
    out.append("\n\n");
    let ghost base = out@;
    proof {
        assert(base =~= client@.name + "\nTotal Time: "@ + spec_duration_text(client_total(client@))
            + "\n\n"@);
    }
    let ghost bs = client@.buckets;
    let mut bi: usize = 0;
    while bi < client.entries_by_list.len()
        invariant
            0 <= bi <= bs.len(),
            bs == client@.buckets,
            client_dates_valid(client@),
            out@ == base + spec_buckets_text(bs.take(bi as int)),
        decreases client.entries_by_list.len() - bi,
    {
        proof {
            assert(client.entries_by_list@[bi as int]@ == bs[bi as int]);
            assert forall|j: int|
                0 <= j < bs[bi as int].entries.len() implies (#[trigger] bs[bi as int].entries[
            j]).date.valid() by {
                assert(client@.buckets[bi as int].entries[j].date.valid());
            }
            assert(bs.take(bi as int + 1).drop_last() =~= bs.take(bi as int));
            assert(bs.take(bi as int + 1).last() == bs[bi as int]);
        }
        push_bucket_text(&mut out, &client.entries_by_list[bi]);
        bi = bi + 1;
    }
    proof {
        assert(bs.take(bs.len() as int) =~= bs);
        assert(base + spec_buckets_text(bs) =~= spec_invoice_text(client@));
    }
    out
}

/// Spec-level image of one rendered invoice file.
pub ghost struct InvoiceView {
    pub client_name: Seq<char>,
    pub text: Seq<char>,
}

/// One rendered invoice: the client it belongs to and the file text.
#[derive(Debug)]
pub struct Invoice {
    pub client_name: String,
    pub text: String,
}

impl View for Invoice {
    type V = InvoiceView;

    open spec fn view(&self) -> InvoiceView {
        InvoiceView { client_name: self.client_name@, text: self.text@ }
    }
}

/// The invoices of the billable clients, in catalog order: one per
/// client whose total time is not zero; a client with no time at all
/// produces none.
pub open spec fn spec_invoices(cs: Seq<ClientView>) -> Seq<InvoiceView>
    decreases cs.len(),
{
    if cs.len() == 0 {
        Seq::empty()
    } else {
        let p = spec_invoices(cs.drop_last());
        if client_total(cs.last()) == 0 {
            p
        } else {
            p.push(
                InvoiceView { client_name: cs.last().name, text: spec_invoice_text(cs.last()) },
            )
        }
    }
}

/// A client with zero total time leaves no trace: dropping it from the
/// catalog leaves the rendered invoices unchanged.
pub proof fn lemma_skip_rule(cs: Seq<ClientView>, i: int)
    requires
        0 <= i < cs.len(),
        client_total(cs[i]) == 0,
    ensures
        spec_invoices(cs) == spec_invoices(cs.remove(i)),
    decreases cs.len(),
{
    if i == cs.len() - 1 {
        assert(cs.remove(i) =~= cs.drop_last());
    } else {
        let d = cs.drop_last();
        assert(cs.remove(i).drop_last() =~= d.remove(i));
        assert(cs.remove(i).last() == cs.last());
        assert(d[i] == cs[i]);
        lemma_skip_rule(d, i);
    }
}

/// Run-time test of what `build_invoices` requires of one client: all
/// entry dates are real, and the entries are countable in a machine
/// word.
pub fn client_renderable(c: &Client) -> (r: bool)
    ensures
        r == (client_dates_valid(c@) && bucket_entry_count(c@.buckets) <= usize::MAX),
{
    let ghost bs = c@.buckets;
    let nb: usize = c.entries_by_list.len();
    assert(bs.len() == nb);
    proof {
        lemma_count_nonneg(bs);
        assert(bs.take(0) =~= Seq::<BucketView>::empty());
    }
    let mut count: u128 = 0;
    let mut i: usize = 0;
    while i < c.entries_by_list.len()
        invariant
            0 <= i <= bs.len(),
            bs == c@.buckets,
            bs.len() <= usize::MAX,
            count == bucket_entry_count(bs.take(i as int)),
            count <= (i as int) * 0xffff_ffff_ffff_ffff,
            forall|a: int, b: int|
                0 <= a < i && 0 <= b < bs[a].entries.len() ==> (#[trigger] bs[a].entries[
            b]).date.valid(),
        decreases c.entries_by_list.len() - i,
    {
        let bucket = &c.entries_by_list[i];
        proof {
            assert(bucket@ == bs[i as int]);
        }
        let mut j: usize = 0;
        while j < bucket.entries.len()
            invariant
                0 <= j <= bucket.entries@.len(),
                bucket@ == bs[i as int],
                0 <= i < bs.len(),
                bs == c@.buckets,
                forall|b: int|
                    0 <= b < j ==> (#[trigger] bs[i as int].entries[b]).date.valid(),
            decreases bucket.entries.len() - j,
        {
            proof {
                assert(bs[i as int].entries[j as int] == bucket.entries@[j as int]@);
            }
            if !bucket.entries[j].date.is_valid() {
                proof {
                    assert(!client_dates_valid(c@)) by {
                        assert(0 <= i < c@.buckets.len());
                        assert(0 <= (j as int) < c@.buckets[i as int].entries.len());
                        assert(!c@.buckets[i as int].entries[j as int].date.valid());
                    }
                }
                return false;
            }
            j = j + 1;
        }
        proof {
            assert(bs.take(i as int + 1).drop_last() =~= bs.take(i as int));
            assert(bs.take(i as int + 1).last() == bs[i as int]);
        }
        count = count + (bucket.entries.len() as u128);
        i = i + 1;
    }
    proof {
        assert(bs.take(bs.len() as int) =~= bs);
    }
    count <= (usize::MAX as u128)
}

/// Run-time test of what `build_invoices` requires of the catalog.
pub fn clients_renderable(clients: &Vec<Client>) -> (r: bool)
    ensures
        r == forall|i: int|
            0 <= i < clients@.len() ==> client_dates_valid((#[trigger] clients@[i])@)
                && bucket_entry_count(clients@[i]@.buckets) <= usize::MAX,
{
    let mut i: usize = 0;
    while i < clients.len()
        invariant
            0 <= i <= clients@.len(),
            forall|k: int|
                0 <= k < i ==> client_dates_valid((#[trigger] clients@[k])@)
                    && bucket_entry_count(clients@[k]@.buckets) <= usize::MAX,
        decreases clients.len() - i,
    {
        if !client_renderable(&clients[i]) {
            return false;
        }
        i = i + 1;
    }
    true
}

/// Renders one invoice per billable client, in catalog order; clients
/// with zero total time are skipped.
pub fn build_invoices(clients: Vec<Client>) -> (r: Vec<Invoice>)
    requires
        forall|i: int|
            0 <= i < clients@.len() ==> client_dates_valid((#[trigger] clients@[i])@)
                && bucket_entry_count(clients@[i]@.buckets) <= usize::MAX,
    ensures
        r@.map_values(|x: Invoice| x@) == spec_invoices(clients@.map_values(|c: Client| c@)),
{
    let ghost cs = clients@.map_values(|c: Client| c@);
    let mut out: Vec<Invoice> = Vec::new();
    let mut k: usize = 0;
    while k < clients.len()
        invariant
            0 <= k <= cs.len(),
            cs == clients@.map_values(|c: Client| c@),
            forall|i: int|
                0 <= i < clients@.len() ==> client_dates_valid((#[trigger] clients@[i])@)
                    && bucket_entry_count(clients@[i]@.buckets) <= usize::MAX,
            out@.map_values(|x: Invoice| x@) == spec_invoices(cs.take(k as int)),
        decreases clients.len() - k,
    {
        proof {
            assert(cs.take(k as int + 1).drop_last() =~= cs.take(k as int));
            assert(cs.take(k as int + 1).last() == cs[k as int]);
            assert(cs[k as int] == clients@[k as int]@);
        }
        let total = client_total_minutes(&clients[k]);
        if total != 0 {
            let text = render_invoice(&clients[k]);
            let inv = Invoice { client_name: clients[k].name.clone(), text };
            out.push(inv);
            proof {
                assert(out@.map_values(|x: Invoice| x@) =~= spec_invoices(cs.take(k as int + 1)));
            }
        }
        k = k + 1;
    }
    proof {
        assert(cs.take(cs.len() as int) =~= cs);
    }
    out
}

} // verus!
