//! A bound on the tallies of scanned files under which a summary of them cannot overflow,
//! and the summary made only when the files keep to it.
use vstd::prelude::*;

use crate::durations::{sum_of, sums_fit};
use crate::models::{DashboardSummary, HookAccum, SessionLineStats, TokenUsage};
use crate::scan::{entry_bytes, entry_events, token_field};
use crate::summary::{
    agent_entry_sum, api_errors_of, build_summary, bytes_of, durations_of, events_of, file_token_sum,
    file_tokens_fit, files_wf, hook_runs_fit, hour_sum, hours_fit, int_sum, int_sums_fit, part,
    plain_totals_fit, quantities_fit, sum_files, summary_fits, summary_matches, tool_errors_of,
    ScannedFile, SESSION_HOUR,
};

verus! {

/// The absolute value of `x`.
pub open spec fn abs(x: int) -> nat {
    if x < 0 { (-x) as nat } else { x as nat }
}

/// The sum of the counts `v`.
pub open spec fn hours_total(v: Seq<u64>) -> nat
    decreases v.len(),
{
    if v.len() == 0 { 0 } else { hours_total(v.drop_last()) + v.last() as nat }
}

/// The events per hour recorded in session entries, added up.
pub open spec fn entry_hours(es: Seq<(String, SessionLineStats)>) -> nat
    decreases es.len(),
{
    if es.len() == 0 { 0 } else { entry_hours(es.drop_last()) + hours_total(es.last().1.hourly_events@) }
}

/// The counts of a table of counts, added up.
pub open spec fn count_total(es: Seq<(String, u64)>) -> nat
    decreases es.len(),
{
    if es.len() == 0 { 0 } else { count_total(es.drop_last()) + es.last().1 as nat }
}

/// The runs of a table of hook commands, added up.
pub open spec fn hook_runs_total(es: Seq<(String, HookAccum)>) -> nat
    decreases es.len(),
{
    if es.len() == 0 { 0 } else { hook_runs_total(es.drop_last()) + es.last().1.count as nat }
}

/// The absolute total times of a table of hook commands, added up.
pub open spec fn hook_time_size(es: Seq<(String, HookAccum)>) -> nat
    decreases es.len(),
{
    if es.len() == 0 { 0 } else { hook_time_size(es.drop_last()) + abs(es.last().1.total_ms as int) }
}

/// The absolute durations, added up.
pub open spec fn durations_size(d: Seq<i64>) -> nat
    decreases d.len(),
{
    if d.len() == 0 { 0 } else { durations_size(d.drop_last()) + abs(d.last() as int) }
}

/// The absolute token counts, added up.
pub open spec fn token_size(t: TokenUsage) -> nat {
    abs(t.input_tokens as int) + abs(t.output_tokens as int) + abs(t.cache_read_input_tokens as int) + abs(
        t.cache_creation_input_tokens as int,
    )
}

/// What a file adds to the summary's counts at most: one for the file, its events,
/// bytes and errors, its sessions' events, bytes and events per hour, its tool uses,
/// hook runs and turn durations.
pub open spec fn file_weight(f: ScannedFile) -> nat {
    let s = f.stats;
    (1 + s.event_count + f.size_bytes + s.api_error_count + s.tool_error_count + entry_events(
        s.session_stats.entries@,
    ) + entry_bytes(s.session_stats.entries@) + entry_hours(s.session_stats.entries@) + count_total(
        s.tool_counts.entries@,
    ) + hook_runs_total(s.hook_stats.entries@) + s.turn_durations@.len()) as nat
}

/// What a file adds to the summary's signed sums at most: its token counts, hook times
/// and turn durations, in absolute value.
pub open spec fn file_magnitude(f: ScannedFile) -> nat {
    token_size(f.stats.token_usage) + hook_time_size(f.stats.hook_stats.entries@) + durations_size(
        f.stats.turn_durations@,
    )
}

/// The weights of the files, added up.
pub open spec fn weight_of(files: Seq<ScannedFile>) -> nat
    decreases files.len(),
{
    if files.len() == 0 { 0 } else { weight_of(files.drop_last()) + file_weight(files.last()) }
}

/// The magnitudes of the files, added up.
pub open spec fn magnitude_of(files: Seq<ScannedFile>) -> nat
    decreases files.len(),
{
    if files.len() == 0 { 0 } else { magnitude_of(files.drop_last()) + file_magnitude(files.last()) }
}

/// Whether the files keep to the bound: their tables name nothing twice, and their
/// weights and their magnitudes each add up to at most `i64::MAX`.
pub open spec fn within_budget(files: Seq<ScannedFile>) -> bool {
    &&& files_wf(files)
    &&& weight_of(files) <= i64::MAX
    &&& magnitude_of(files) <= i64::MAX
}

// ---------------------------------------------------------------------------
// One entry is at most the sum of its table

proof fn lemma_session_entry_le(es: Seq<(String, SessionLineStats)>, i: int)
    requires
        0 <= i < es.len(),
    ensures
        es[i].1.events <= entry_events(es),
        es[i].1.bytes <= entry_bytes(es),
        hours_total(es[i].1.hourly_events@) <= entry_hours(es),
    decreases es.len(),
{
    if i < es.len() - 1 {
        lemma_session_entry_le(es.drop_last(), i);
    }
}

proof fn lemma_count_entry_le(es: Seq<(String, u64)>, i: int)
    requires
        0 <= i < es.len(),
    ensures
        es[i].1 <= count_total(es),
    decreases es.len(),
{
    if i < es.len() - 1 {
        lemma_count_entry_le(es.drop_last(), i);
    }
}

proof fn lemma_hook_entry_le(es: Seq<(String, HookAccum)>, i: int)
    requires
        0 <= i < es.len(),
    ensures
        es[i].1.count <= hook_runs_total(es),
        abs(es[i].1.total_ms as int) <= hook_time_size(es),
    decreases es.len(),
{
    if i < es.len() - 1 {
        lemma_hook_entry_le(es.drop_last(), i);
    }
}

proof fn lemma_hour_le(v: Seq<u64>, h: int)
    requires
        0 <= h < v.len(),
    ensures
        v[h] <= hours_total(v),
    decreases v.len(),
{
    if h < v.len() - 1 {
        lemma_hour_le(v.drop_last(), h);
    }
}

proof fn lemma_agent_sum_le(es: Seq<(String, SessionLineStats)>, a: Seq<char>)
    ensures
        agent_entry_sum(es, a, false) <= entry_events(es),
        agent_entry_sum(es, a, true) <= entry_bytes(es),
    decreases es.len(),
{
    if es.len() > 0 {
        lemma_agent_sum_le(es.drop_last(), a);
    }
}

// ---------------------------------------------------------------------------
// The bound implies that every sum fits

proof fn lemma_part_le(f: ScannedFile, tag: u8, key: Seq<char>, h: int)
    ensures
        part(f, tag, key, h) <= file_weight(f),
{
    let sm = f.stats.session_stats;
    let tm = f.stats.tool_counts;
    let hm = f.stats.hook_stats;
    if sm.has(key) {
        let p = sm.position(key);
        lemma_session_entry_le(sm.entries@, p);
        if 0 <= h < 24 {
            lemma_hour_le(sm.entries@[p].1.hourly_events@, h);
        }
    }
    if tm.has(key) {
        lemma_count_entry_le(tm.entries@, tm.position(key));
    }
    if hm.has(key) {
        lemma_hook_entry_le(hm.entries@, hm.position(key));
    }
    lemma_agent_sum_le(sm.entries@, key);
}

proof fn lemma_sum_files_le(files: Seq<ScannedFile>, tag: u8, key: Seq<char>, h: int)
    ensures
        sum_files(files, tag, key, h) <= weight_of(files),
    decreases files.len(),
{
    if files.len() > 0 {
        lemma_sum_files_le(files.drop_last(), tag, key, h);
        lemma_part_le(files.last(), tag, key, h);
    }
}

// ---------------------------------------------------------------------------
// Events per hour

/// The events of session `k` in one file in the first `n` hours of the day.
pub open spec fn file_hours(f: ScannedFile, k: Seq<char>, n: int) -> nat
    decreases n,
{
    if n <= 0 { 0 } else { file_hours(f, k, n - 1) + part(f, SESSION_HOUR, k, n - 1) }
}

/// The events of session `k` in the first `n` hours of the day, file by file.
pub open spec fn files_hours(files: Seq<ScannedFile>, k: Seq<char>, n: int) -> nat
    decreases files.len(),
{
    if files.len() == 0 { 0 } else { files_hours(files.drop_last(), k, n) + file_hours(files.last(), k, n) }
}

proof fn lemma_files_hours_zero(files: Seq<ScannedFile>, k: Seq<char>)
    ensures
        files_hours(files, k, 0) == 0,
    decreases files.len(),
{
    if files.len() > 0 {
        lemma_files_hours_zero(files.drop_last(), k);
    }
}

proof fn lemma_files_hours_step(files: Seq<ScannedFile>, k: Seq<char>, n: int)
    requires
        n >= 1,
    ensures
        files_hours(files, k, n) == files_hours(files, k, n - 1) + sum_files(files, SESSION_HOUR, k, n - 1),
    decreases files.len(),
{
    if files.len() > 0 {
        lemma_files_hours_step(files.drop_last(), k, n);
    }
}

proof fn lemma_hour_sum_by_files(files: Seq<ScannedFile>, k: Seq<char>, n: int)
    requires
        n >= 0,
    ensures
        hour_sum(files, k, n) == files_hours(files, k, n),
    decreases n,
{
    if n == 0 {
        lemma_files_hours_zero(files, k);
    } else {
        lemma_hour_sum_by_files(files, k, n - 1);
        lemma_files_hours_step(files, k, n);
    }
}

proof fn lemma_hours_prefix(v: Seq<u64>, n: int)
    requires
        0 <= n <= v.len(),
    ensures
        hours_total(v.take(n)) <= hours_total(v),
    decreases v.len(),
{
    if n < v.len() {
        assert(v.drop_last().take(n) =~= v.take(n));
        lemma_hours_prefix(v.drop_last(), n);
    } else {
        assert(v.take(n) =~= v);
    }
}

proof fn lemma_file_hours(f: ScannedFile, k: Seq<char>, n: int)
    requires
        0 <= n <= 24,
    ensures
        file_hours(f, k, n) == if f.stats.session_stats.has(k) {
            hours_total(f.stats.session_stats.at(k).hourly_events@.take(n))
        } else {
            0
        },
    decreases n,
{
    if n > 0 {
        lemma_file_hours(f, k, n - 1);
        if f.stats.session_stats.has(k) {
            let v = f.stats.session_stats.at(k).hourly_events@;
            assert(v.take(n).drop_last() =~= v.take(n - 1));
        }
    }
}

proof fn lemma_files_hours_le(files: Seq<ScannedFile>, k: Seq<char>)
    ensures
        files_hours(files, k, 24) <= weight_of(files),
    decreases files.len(),
{
    if files.len() > 0 {
        lemma_files_hours_le(files.drop_last(), k);
        let f = files.last();
        lemma_file_hours(f, k, 24);
        let sm = f.stats.session_stats;
        if sm.has(k) {
            let p = sm.position(k);
            lemma_session_entry_le(sm.entries@, p);
            lemma_hours_prefix(sm.at(k).hourly_events@, 24);
        }
    }
}

// ---------------------------------------------------------------------------
// Signed sums

proof fn lemma_magnitude_prefix(files: Seq<ScannedFile>, n: int)
    requires
        0 <= n <= files.len(),
    ensures
        magnitude_of(files.take(n)) <= magnitude_of(files),
    decreases files.len(),
{
    if n < files.len() {
        assert(files.drop_last().take(n) =~= files.take(n));
        lemma_magnitude_prefix(files.drop_last(), n);
    } else {
        assert(files.take(n) =~= files);
    }
}

proof fn lemma_token_field_le(t: TokenUsage, w: int)
    requires
        0 <= w < 4,
    ensures
        abs(token_field(t, w) as int) <= token_size(t),
{
}

proof fn lemma_int_sum_le(files: Seq<ScannedFile>, which: int, d: Seq<char>)
    requires
        0 <= which <= 4,
    ensures
        -(magnitude_of(files) as int) <= int_sum(files, which, d) <= magnitude_of(files),
    decreases files.len(),
{
    if files.len() > 0 {
        lemma_int_sum_le(files.drop_last(), which, d);
        let f = files.last();
        if which < 4 {
            lemma_token_field_le(f.stats.token_usage, which);
        } else {
            let hm = f.stats.hook_stats;
            if hm.has(d) {
                lemma_hook_entry_le(hm.entries@, hm.position(d));
            }
        }
    }
}

proof fn lemma_token_sum_le(files: Seq<ScannedFile>, w: int)
    requires
        0 <= w < 4,
    ensures
        -(magnitude_of(files) as int) <= file_token_sum(files, w) <= magnitude_of(files),
    decreases files.len(),
{
    if files.len() > 0 {
        lemma_token_sum_le(files.drop_last(), w);
        lemma_token_field_le(files.last().stats.token_usage, w);
    }
}

proof fn lemma_durations_size_concat(a: Seq<i64>, b: Seq<i64>)
    ensures
        durations_size(a + b) == durations_size(a) + durations_size(b),
    decreases b.len(),
{
    if b.len() > 0 {
        assert((a + b).drop_last() =~= a + b.drop_last());
        lemma_durations_size_concat(a, b.drop_last());
    } else {
        assert(a + b =~= a);
    }
}

proof fn lemma_durations_prefix(d: Seq<i64>, n: int)
    requires
        0 <= n <= d.len(),
    ensures
        durations_size(d.take(n)) <= durations_size(d),
    decreases d.len(),
{
    if n < d.len() {
        assert(d.drop_last().take(n) =~= d.take(n));
        lemma_durations_prefix(d.drop_last(), n);
    } else {
        assert(d.take(n) =~= d);
    }
}

proof fn lemma_sum_of_le(d: Seq<i64>)
    ensures
        -(durations_size(d) as int) <= sum_of(d) <= durations_size(d),
    decreases d.len(),
{
    if d.len() > 0 {
        lemma_sum_of_le(d.drop_last());
    }
}

// ---------------------------------------------------------------------------
// Plain totals

proof fn lemma_plain_le(files: Seq<ScannedFile>)
    ensures
        events_of(files) <= weight_of(files),
        bytes_of(files) <= weight_of(files),
        api_errors_of(files) <= weight_of(files),
        tool_errors_of(files) <= weight_of(files),
        durations_of(files).len() <= weight_of(files),
        durations_size(durations_of(files)) <= magnitude_of(files),
    decreases files.len(),
{
    if files.len() > 0 {
        let p = files.drop_last();
        lemma_plain_le(p);
        lemma_durations_size_concat(durations_of(p), files.last().stats.turn_durations@);
    }
}

/// Files that keep to the bound can be summarized: every count, sum and running sum
/// that the summary adds up fits its integer type.
pub proof fn lemma_budget_fits(files: Seq<ScannedFile>)
    requires
        within_budget(files),
    ensures
        summary_fits(files),
{
    lemma_plain_le(files);
    assert forall|n: int| 0 <= n <= files.len() implies #[trigger] file_tokens_fit(files.take(n)) by {
        lemma_magnitude_prefix(files, n);
        assert forall|w: int| 0 <= w < 4 implies i64::MIN <= #[trigger] file_token_sum(files.take(n), w) <= i64::MAX by {
            lemma_token_sum_le(files.take(n), w);
        }
    }
    assert(plain_totals_fit(files));
    assert forall|n: int, which: int, d: Seq<char>| 0 <= n <= files.len() && 0 <= which <= 4 implies i64::MIN
        <= #[trigger] int_sum(files.take(n), which, d) <= i64::MAX by {
        lemma_magnitude_prefix(files, n);
        lemma_int_sum_le(files.take(n), which, d);
    }
    assert(int_sums_fit(files));
    assert forall|tag: u8, key: Seq<char>, h: int| #[trigger] sum_files(files, tag, key, h) <= i64::MAX by {
        lemma_sum_files_le(files, tag, key, h);
    }
    assert(quantities_fit(files));
    assert(hook_runs_fit(files));
    assert forall|k: Seq<char>| #[trigger] hour_sum(files, k, 24) <= u64::MAX by {
        lemma_hour_sum_by_files(files, k, 24);
        lemma_files_hours_le(files, k);
    }
    assert(hours_fit(files));
    let d = durations_of(files);
    assert forall|n: int| 0 <= n <= d.len() implies i64::MIN <= #[trigger] sum_of(d.take(n)) <= i64::MAX by {
        lemma_sum_of_le(d.take(n));
        lemma_durations_prefix(d, n);
    }
    assert(sums_fit(d));
}

// ---------------------------------------------------------------------------
// Checking the bound

/// `n`, or `u64::MAX` when `n` is larger.
pub open spec fn cap(n: nat) -> nat {
    if n > u64::MAX { u64::MAX as nat } else { n }
}

proof fn lemma_cap_add(a: nat, b: nat)
    ensures
        cap(cap(a) + cap(b)) == cap(a + b),
{
}

fn add_capped(x: u64, y: u64) -> (r: u64)
    ensures
        r == cap((x + y) as nat),
{
    x.saturating_add(y)
}

fn abs_of(x: i64) -> (r: u64)
    ensures
        r == abs(x as int),
{
    if x >= 0 {
        x as u64
    } else if x == i64::MIN {
        0x8000_0000_0000_0000u64
    } else {
        (-x) as u64
    }
}

fn hours_capped(v: &[u64; 24]) -> (r: u64)
    ensures
        r == cap(hours_total(v@)),
{
    let mut acc: u64 = 0;
    let mut h: usize = 0;
    assert(v@.take(0) =~= Seq::<u64>::empty());
    while h < 24
        invariant
            h <= 24,
            v@.len() == 24,
            acc == cap(hours_total(v@.take(h as int))),
        decreases 24 - h,
    {
        assert(v@.take(h + 1).drop_last() =~= v@.take(h as int));
        proof {
            lemma_cap_add(hours_total(v@.take(h as int)), v@[h as int] as nat);
        }
        acc = add_capped(acc, v[h]);
        h += 1;
    }
    assert(v@.take(24) =~= v@);
    acc
}

fn session_tallies(es: &Vec<(String, SessionLineStats)>) -> (r: (u64, u64, u64))
    ensures
        r.0 == cap(entry_events(es@)),
        r.1 == cap(entry_bytes(es@)),
        r.2 == cap(entry_hours(es@)),
{
    let mut ev: u64 = 0;
    let mut by: u64 = 0;
    let mut hr: u64 = 0;
    let mut i: usize = 0;
    assert(es@.take(0) =~= Seq::<(String, SessionLineStats)>::empty());
    while i < es.len()
        invariant
            i <= es@.len(),
            ev == cap(entry_events(es@.take(i as int))),
            by == cap(entry_bytes(es@.take(i as int))),
            hr == cap(entry_hours(es@.take(i as int))),
        decreases es@.len() - i,
    {
        let ghost p = es@.take(i as int);
        let ghost e = es@[i as int].1;
        assert(es@.take(i + 1).drop_last() =~= p);
        let h = hours_capped(&es[i].1.hourly_events);
        proof {
            lemma_cap_add(entry_events(p), e.events as nat);
            lemma_cap_add(entry_bytes(p), e.bytes as nat);
            lemma_cap_add(entry_hours(p), hours_total(e.hourly_events@));
        }
        ev = add_capped(ev, es[i].1.events);
        by = add_capped(by, es[i].1.bytes);
        hr = add_capped(hr, h);
        i += 1;
    }
    assert(es@.take(i as int) =~= es@);
    (ev, by, hr)
}

fn count_capped(es: &Vec<(String, u64)>) -> (r: u64)
    ensures
        r == cap(count_total(es@)),
{
    let mut acc: u64 = 0;
    let mut i: usize = 0;
    assert(es@.take(0) =~= Seq::<(String, u64)>::empty());
    while i < es.len()
        invariant
            i <= es@.len(),
            acc == cap(count_total(es@.take(i as int))),
        decreases es@.len() - i,
    {
        assert(es@.take(i + 1).drop_last() =~= es@.take(i as int));
        proof {
            lemma_cap_add(count_total(es@.take(i as int)), es@[i as int].1 as nat);
        }
        acc = add_capped(acc, es[i].1);
        i += 1;
    }
    assert(es@.take(i as int) =~= es@);
    acc
}

fn hook_tallies(es: &Vec<(String, HookAccum)>) -> (r: (u64, u64))
    ensures
        r.0 == cap(hook_runs_total(es@)),
        r.1 == cap(hook_time_size(es@)),
{
    let mut runs: u64 = 0;
    let mut time: u64 = 0;
    let mut i: usize = 0;
    assert(es@.take(0) =~= Seq::<(String, HookAccum)>::empty());
    while i < es.len()
        invariant
            i <= es@.len(),
            runs == cap(hook_runs_total(es@.take(i as int))),
            time == cap(hook_time_size(es@.take(i as int))),
        decreases es@.len() - i,
    {
        let ghost p = es@.take(i as int);
        let ghost e = es@[i as int].1;
        assert(es@.take(i + 1).drop_last() =~= p);
        proof {
            lemma_cap_add(hook_runs_total(p), e.count as nat);
            lemma_cap_add(hook_time_size(p), abs(e.total_ms as int));
        }
        runs = add_capped(runs, es[i].1.count);
        time = add_capped(time, abs_of(es[i].1.total_ms));
        i += 1;
    }
    assert(es@.take(i as int) =~= es@);
    (runs, time)
}

fn durations_capped(d: &Vec<i64>) -> (r: u64)
    ensures
        r == cap(durations_size(d@)),
{
    let mut acc: u64 = 0;
    let mut i: usize = 0;
    assert(d@.take(0) =~= Seq::<i64>::empty());
    while i < d.len()
        invariant
            i <= d@.len(),
            acc == cap(durations_size(d@.take(i as int))),
        decreases d@.len() - i,
    {
        assert(d@.take(i + 1).drop_last() =~= d@.take(i as int));
        proof {
            lemma_cap_add(durations_size(d@.take(i as int)), abs(d@[i as int] as int));
        }
        acc = add_capped(acc, abs_of(d[i]));
        i += 1;
    }
    assert(d@.take(i as int) =~= d@);
    acc
}

fn weight_capped(f: &ScannedFile) -> (r: u64)
    ensures
        r == cap(file_weight(*f)),
{
    let s = &f.stats;
    let (ev, by, hr) = session_tallies(&s.session_stats.entries);
    let tools = count_capped(&s.tool_counts.entries);
    let (runs, _) = hook_tallies(&s.hook_stats.entries);
    let ghost es = s.session_stats.entries@;
    let ghost t0: nat = 1nat + s.event_count as nat;
    let ghost t1: nat = t0 + f.size_bytes as nat;
    let ghost t2: nat = t1 + s.api_error_count as nat;
    let ghost t3: nat = t2 + s.tool_error_count as nat;
    let ghost t4: nat = t3 + entry_events(es);
    let ghost t5: nat = t4 + entry_bytes(es);
    let ghost t6: nat = t5 + entry_hours(es);
    let ghost t7: nat = t6 + count_total(s.tool_counts.entries@);
    let ghost t8: nat = t7 + hook_runs_total(s.hook_stats.entries@);
    proof {
        lemma_cap_add(1nat, s.event_count as nat);
        lemma_cap_add(t0, f.size_bytes as nat);
        lemma_cap_add(t1, s.api_error_count as nat);
        lemma_cap_add(t2, s.tool_error_count as nat);
        lemma_cap_add(t3, entry_events(es));
        lemma_cap_add(t4, entry_bytes(es));
        lemma_cap_add(t5, entry_hours(es));
        lemma_cap_add(t6, count_total(s.tool_counts.entries@));
        lemma_cap_add(t7, hook_runs_total(s.hook_stats.entries@));
        lemma_cap_add(t8, s.turn_durations@.len());
    }
    let mut acc = add_capped(1, s.event_count);
    acc = add_capped(acc, f.size_bytes);
    acc = add_capped(acc, s.api_error_count);
    acc = add_capped(acc, s.tool_error_count);
    acc = add_capped(acc, ev);
    acc = add_capped(acc, by);
    acc = add_capped(acc, hr);
    acc = add_capped(acc, tools);
    acc = add_capped(acc, runs);
    add_capped(acc, s.turn_durations.len() as u64)
}

fn magnitude_capped(f: &ScannedFile) -> (r: u64)
    ensures
        r == cap(file_magnitude(*f)),
{
    let t = &f.stats.token_usage;
    let (_, time) = hook_tallies(&f.stats.hook_stats.entries);
    let durs = durations_capped(&f.stats.turn_durations);
    let a = abs_of(t.input_tokens);
    let b = abs_of(t.output_tokens);
    let c = abs_of(t.cache_read_input_tokens);
    let d = abs_of(t.cache_creation_input_tokens);
    let ghost ta = abs(t.input_tokens as int);
    let ghost tb = abs(t.output_tokens as int);
    let ghost tc = abs(t.cache_read_input_tokens as int);
    let ghost td = abs(t.cache_creation_input_tokens as int);
    let ghost hs = hook_time_size(f.stats.hook_stats.entries@);
    let ghost ds = durations_size(f.stats.turn_durations@);
    proof {
        lemma_cap_add(ta, tb);
        lemma_cap_add(ta + tb, tc);
        lemma_cap_add(ta + tb + tc, td);
        lemma_cap_add(ta + tb + tc + td, hs);
        lemma_cap_add(ta + tb + tc + td + hs, ds);
    }
    let r1 = add_capped(a, b);
    let r2 = add_capped(r1, c);
    let r3 = add_capped(r2, d);
    let r4 = add_capped(r3, time);
    add_capped(r4, durs)
}

/// Whether the files keep to the bound.
pub fn within_budget_of(files: &Vec<ScannedFile>) -> (b: bool)
    ensures
        b == within_budget(files@),
{
    let mut w: u64 = 0;
    let mut m: u64 = 0;
    let mut i: usize = 0;
    assert(files@.take(0) =~= Seq::<ScannedFile>::empty());
    while i < files.len()
        invariant
            i <= files@.len(),
            w == cap(weight_of(files@.take(i as int))),
            m == cap(magnitude_of(files@.take(i as int))),
            forall|j: int| 0 <= j < i ==> {
                &&& (#[trigger] files@[j]).stats.session_stats.wf()
                &&& files@[j].stats.tool_counts.wf()
                &&& files@[j].stats.hook_stats.wf()
            },
        decreases files@.len() - i,
    {
        let f = &files[i];
        if !(f.stats.session_stats.is_wf() && f.stats.tool_counts.is_wf() && f.stats.hook_stats.is_wf()) {
            assert(!files_wf(files@)) by {
                assert(files@[i as int] == *f);
            }
            return false;
        }
        let ghost p = files@.take(i as int);
        assert(files@.take(i + 1).drop_last() =~= p);
        proof {
            lemma_cap_add(weight_of(p), file_weight(*f));
            lemma_cap_add(magnitude_of(p), file_magnitude(*f));
        }
        w = add_capped(w, weight_capped(f));
        m = add_capped(m, magnitude_capped(f));
        i += 1;
    }
    assert(files@.take(i as int) =~= files@);
    w <= 0x7fff_ffff_ffff_ffffu64 && m <= 0x7fff_ffff_ffff_ffffu64
}

/// The summary of the scanned files under `root`, stamped with the current time, as
/// `build_summary` makes it, when the files keep to the bound; `None` when they do not.
pub fn build_summary_checked(root: String, files: &Vec<ScannedFile>) -> (r: Option<DashboardSummary>)
    ensures
        r is Some <==> within_budget(files@),
        r matches Some(s) ==> summary_matches(s, root@, s.generated_at@, files@) && crate::clock::utc_millis_text(
            s.generated_at@,
        ),
{
    if within_budget_of(files) {
        proof {
            lemma_budget_fits(files@);
        }
        Some(build_summary(root, files))
    } else {
        None
    }
}

} // verus!
