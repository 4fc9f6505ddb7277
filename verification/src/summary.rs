//! Adding up the statistics of all event files into the dashboard summary.
use vstd::prelude::*;
use vstd::multiset::Multiset;
use vstd::set_lib::lemma_subset_equality;

use crate::models::{
    AgentStats, CacheEfficiency, DashboardSummary, DayAccum, DayRow, DayTokenRow, ErrorRate, FileScanStats,
    HookPerfRow, RecentEvent, RecentEventAccum, SessionAccum, SessionLineStats, SessionRow, SessionTimelineRow,
    TokenUsage, TokenUsageSummary, ToolUsageRow, Totals, TypeBuckets, TypeStats,
};
use crate::durations::{bucket_label, build_turn_duration_summary, summarizes_durations};
use crate::order::{distinct_names, lemma_lex_irreflexive, lemma_ranked_top_unique, rank_before, ranked_top, ranks, top_ranks, Rank};
use crate::models::{DurationBucket, EventFile};
use crate::scan::{
    by_recency, insert_recent_event, newest_first, opt_text, pool_after, pool_view, recency_slot,
    recent_view, sort_by_recency, RecentView, RECENT_LIMIT,
};
use crate::named::NamedMap;
use crate::parse::iso_of_millis;
use crate::text::same_text;

verus! {

/// The modification time of a file: milliseconds since the epoch and its rendering
/// in whole seconds.
pub struct FileTime {
    pub millis: i64,
    pub iso: String,
}

/// One event file with its size, modification time and scan statistics.
pub struct ScannedFile {
    pub event_file: EventFile,
    pub size_bytes: u64,
    pub mtime: Option<FileTime>,
    pub stats: FileScanStats,
}

// ---------------------------------------------------------------------------
// Plain totals

/// The events of the files.
pub open spec fn events_of(files: Seq<ScannedFile>) -> nat
    decreases files.len(),
{
    if files.len() == 0 {
        0
    } else {
        events_of(files.drop_last()) + files.last().stats.event_count as nat
    }
}

/// The bytes of the files.
pub open spec fn bytes_of(files: Seq<ScannedFile>) -> nat
    decreases files.len(),
{
    if files.len() == 0 {
        0
    } else {
        bytes_of(files.drop_last()) + files.last().size_bytes as nat
    }
}

/// Whether a file is of type `json`.
pub open spec fn is_json_file(f: ScannedFile) -> bool {
    f.event_file.file_type@ == "json"@
}

/// The totals of the files of one type (`json` when `json` holds, any other otherwise).
pub open spec fn type_totals(files: Seq<ScannedFile>, json: bool) -> (nat, nat, nat)
    decreases files.len(),
{
    if files.len() == 0 {
        (0, 0, 0)
    } else {
        let t = type_totals(files.drop_last(), json);
        let f = files.last();
        if is_json_file(f) == json {
            (t.0 + f.stats.event_count as nat, t.1 + f.size_bytes as nat, t.2 + 1)
        } else {
            t
        }
    }
}

/// The newest modification time among the files: the last file with the greatest
/// milliseconds gives its rendering.
pub open spec fn newest_of(files: Seq<ScannedFile>) -> Option<(i64, Seq<char>)>
    decreases files.len(),
{
    if files.len() == 0 {
        None
    } else {
        let before = newest_of(files.drop_last());
        match files.last().mtime {
            Some(t) => match before {
                Some(b) => if t.millis >= b.0 { Some((t.millis, t.iso@)) } else { before },
                None => Some((t.millis, t.iso@)),
            },
            None => before,
        }
    }
}

/// The sum of one token count over the files.
pub open spec fn file_token_sum(files: Seq<ScannedFile>, which: int) -> int
    decreases files.len(),
{
    if files.len() == 0 {
        0
    } else {
        file_token_sum(files.drop_last(), which) + crate::scan::token_field(files.last().stats.token_usage, which)
    }
}

/// Whether every token total of the files fits in `i64`.
pub open spec fn file_tokens_fit(files: Seq<ScannedFile>) -> bool {
    forall|w: int| 0 <= w < 4 ==> i64::MIN <= #[trigger] file_token_sum(files, w) <= i64::MAX
}

/// The token totals of the files.
pub open spec fn file_token_totals(files: Seq<ScannedFile>) -> TokenUsage {
    TokenUsage {
        input_tokens: file_token_sum(files, 0) as i64,
        output_tokens: file_token_sum(files, 1) as i64,
        cache_read_input_tokens: file_token_sum(files, 2) as i64,
        cache_creation_input_tokens: file_token_sum(files, 3) as i64,
    }
}

/// The turn durations of the files, in order.
pub open spec fn durations_of(files: Seq<ScannedFile>) -> Seq<i64>
    decreases files.len(),
{
    if files.len() == 0 {
        seq![]
    } else {
        durations_of(files.drop_last()) + files.last().stats.turn_durations@
    }
}

/// The API errors of the files.
pub open spec fn api_errors_of(files: Seq<ScannedFile>) -> nat
    decreases files.len(),
{
    if files.len() == 0 {
        0
    } else {
        api_errors_of(files.drop_last()) + files.last().stats.api_error_count as nat
    }
}

/// The tool errors of the files.
pub open spec fn tool_errors_of(files: Seq<ScannedFile>) -> nat
    decreases files.len(),
{
    if files.len() == 0 {
        0
    } else {
        tool_errors_of(files.drop_last()) + files.last().stats.tool_error_count as nat
    }
}

/// The pool after offering each recent event of each file in turn.
pub open spec fn pool_after_events(pool: Seq<RecentView>, events: Seq<RecentView>) -> Seq<RecentView>
    decreases events.len(),
{
    if events.len() == 0 {
        pool
    } else {
        pool_after(pool_after_events(pool, events.drop_last()), events.last())
    }
}

/// The recent events of the files, in order.
pub open spec fn recent_of(files: Seq<ScannedFile>) -> Seq<RecentView>
    decreases files.len(),
{
    if files.len() == 0 {
        seq![]
    } else {
        recent_of(files.drop_last()) + pool_view(files.last().stats.recent_events@)
    }
}

/// Whether the plain totals of the files fit, after every file.
pub open spec fn plain_totals_fit(files: Seq<ScannedFile>) -> bool {
    &&& events_of(files) <= u64::MAX
    &&& bytes_of(files) <= u64::MAX
    &&& api_errors_of(files) <= u64::MAX
    &&& tool_errors_of(files) <= u64::MAX
    &&& forall|n: int| 0 <= n <= files.len() ==> #[trigger] file_tokens_fit(files.take(n))
}

/// The plain totals of a prefix of the files.
pub struct PlainTotals {
    pub files: u64,
    pub events: u64,
    pub bytes: u64,
    pub newest: Option<(i64, String)>,
    pub json: TypeStats,
    pub text: TypeStats,
    pub tokens: TokenUsage,
    pub durations: Vec<i64>,
    pub api_errors: u64,
    pub tool_errors: u64,
    pub recent: Vec<RecentEventAccum>,
}

/// Whether `t` holds the plain totals of `files`.
pub open spec fn plain_matches(t: PlainTotals, files: Seq<ScannedFile>) -> bool {
    &&& t.files == files.len()
    &&& t.events == events_of(files)
    &&& t.bytes == bytes_of(files)
    &&& match newest_of(files) {
        Some((ms, shown)) => match t.newest {
            Some((tm, ts)) => tm == ms && ts@ == shown,
            None => false,
        },
        None => t.newest is None,
    }
    &&& (t.json.events as nat, t.json.bytes as nat, t.json.files as nat) == type_totals(files, true)
    &&& (t.text.events as nat, t.text.bytes as nat, t.text.files as nat) == type_totals(files, false)
    &&& t.tokens == file_token_totals(files)
    &&& t.durations@ == durations_of(files)
    &&& t.api_errors == api_errors_of(files)
    &&& t.tool_errors == tool_errors_of(files)
    &&& pool_view(t.recent@) == pool_after_events(seq![], recent_of(files))
}

proof fn lemma_totals_monotone(files: Seq<ScannedFile>, n: int)
    requires
        0 <= n <= files.len(),
    ensures
        events_of(files.take(n)) <= events_of(files),
        bytes_of(files.take(n)) <= bytes_of(files),
        api_errors_of(files.take(n)) <= api_errors_of(files),
        tool_errors_of(files.take(n)) <= tool_errors_of(files),
    decreases files.len(),
{
    if n < files.len() {
        assert(files.drop_last().take(n) =~= files.take(n));
        lemma_totals_monotone(files.drop_last(), n);
    } else {
        assert(files.take(n) =~= files);
    }
}

proof fn lemma_type_totals_bound(files: Seq<ScannedFile>, json: bool)
    ensures
        type_totals(files, json).0 <= events_of(files),
        type_totals(files, json).1 <= bytes_of(files),
        type_totals(files, json).2 <= files.len(),
    decreases files.len(),
{
    if files.len() > 0 {
        lemma_type_totals_bound(files.drop_last(), json);
    }
}

proof fn lemma_pool_after_events_append(pool: Seq<RecentView>, a: Seq<RecentView>, b: Seq<RecentView>, n: int)
    requires
        0 <= n <= b.len(),
    ensures
        pool_after_events(pool, a + b.take(n)) == pool_after_events(pool_after_events(pool, a), b.take(n)),
    decreases n,
{
    if n == 0 {
        assert(a + b.take(0) =~= a);
    } else {
        assert((a + b.take(n)).drop_last() =~= a + b.take(n - 1));
        assert(b.take(n).drop_last() =~= b.take(n - 1));
        lemma_pool_after_events_append(pool, a, b, n - 1);
    }
}

fn append_durations(v: &mut Vec<i64>, src: &Vec<i64>)
    ensures
        final(v)@ == old(v)@ + src@,
{
    let mut j: usize = 0;
    let ghost d0 = v@;
    while j < src.len()
        invariant
            j <= src@.len(),
            v@ == d0 + src@.take(j as int),
        decreases src@.len() - j,
    {
        v.push(src[j]);
        assert(d0 + src@.take(j + 1) =~= (d0 + src@.take(j as int)).push(src@[j as int]));
        j += 1;
    }
    assert(src@.take(src@.len() as int) =~= src@);
}

/// Offers copies of `events` to the pool in turn.
fn offer_all(pool: &mut Vec<RecentEventAccum>, events: &Vec<RecentEventAccum>)
    ensures
        pool_view(final(pool)@) == pool_after_events(pool_view(old(pool)@), pool_view(events@)),
{
    let ghost ev = pool_view(events@);
    let ghost p0 = pool_view(pool@);
    assert(ev.take(0) =~= Seq::<RecentView>::empty());
    let mut k: usize = 0;
    while k < events.len()
        invariant
            k <= events@.len(),
            ev == pool_view(events@),
            pool_view(pool@) == pool_after_events(p0, ev.take(k as int)),
        decreases events@.len() - k,
    {
        let e = &events[k];
        let copy = RecentEventAccum {
            sort_key_ms: e.sort_key_ms,
            event: crate::models::RecentEvent {
                timestamp: e.event.timestamp.clone(),
                session: e.event.session.clone(),
                agent: e.event.agent.clone(),
                event_type: e.event.event_type.clone(),
                preview: e.event.preview.clone(),
            },
        };
        assert(crate::scan::recent_view(copy) == ev[k as int]);
        insert_recent_event(pool, copy);
        assert(ev.take(k + 1).drop_last() =~= ev.take(k as int));
        k += 1;
    }
    assert(ev.take(ev.len() as int) =~= ev);
}

/// Adds one file to the plain totals.
fn add_plain(t: &mut PlainTotals, Ghost(all): Ghost<Seq<ScannedFile>>, i: usize, f: &ScannedFile)
    requires
        i < all.len(),
        all.len() <= u64::MAX,
        *f == all[i as int],
        plain_totals_fit(all),
        plain_matches(*old(t), all.take(i as int)),
    ensures
        plain_matches(*final(t), all.take(i + 1)),
{
    let ghost prefix = all.take(i as int);
    let ghost files = all.take(i + 1);
    assert(files.drop_last() =~= prefix);
    assert(files.last() == *f);
    proof {
        lemma_totals_monotone(all, i + 1);
        lemma_type_totals_bound(files, true);
        lemma_type_totals_bound(files, false);
        assert(file_tokens_fit(files));
        assert(file_tokens_fit(prefix));
        assert(file_token_sum(files, 0) == file_token_sum(prefix, 0) + f.stats.token_usage.input_tokens);
        assert(file_token_sum(files, 1) == file_token_sum(prefix, 1) + f.stats.token_usage.output_tokens);
        assert(file_token_sum(files, 2) == file_token_sum(prefix, 2) + f.stats.token_usage.cache_read_input_tokens);
        assert(file_token_sum(files, 3) == file_token_sum(prefix, 3)
            + f.stats.token_usage.cache_creation_input_tokens);
    }
    t.files = t.files + 1;
    t.events = t.events + f.stats.event_count;
    t.bytes = t.bytes + f.size_bytes;
    match &f.mtime {
        Some(m) => {
            let replace = match &t.newest {
                Some(cur) => m.millis >= cur.0,
                None => true,
            };
            if replace {
                t.newest = Some((m.millis, m.iso.clone()));
            }
        },
        None => {},
    }
    if same_text(f.event_file.file_type.as_str(), "json") {
        t.json = TypeStats {
            events: t.json.events + f.stats.event_count,
            bytes: t.json.bytes + f.size_bytes,
            files: t.json.files + 1,
        };
    } else {
        t.text = TypeStats {
            events: t.text.events + f.stats.event_count,
            bytes: t.text.bytes + f.size_bytes,
            files: t.text.files + 1,
        };
    }
    t.tokens.add_assign(f.stats.token_usage);
    append_durations(&mut t.durations, &f.stats.turn_durations);
    t.api_errors = t.api_errors + f.stats.api_error_count;
    t.tool_errors = t.tool_errors + f.stats.tool_error_count;
    let ghost events = pool_view(f.stats.recent_events@);
    let ghost base = recent_of(prefix);
    proof {
        lemma_pool_after_events_append(seq![], base, events, events.len() as int);
        assert(events.take(events.len() as int) =~= events);
    }
    offer_all(&mut t.recent, &f.stats.recent_events);
    assert(recent_of(files) == base + events);
}


// ---------------------------------------------------------------------------
// Quantities per name

/// The agent a session entry is counted under: its agent, or `unknown`.
pub open spec fn agent_name(e: SessionLineStats) -> Seq<char> {
    match opt_text(e.agent) {
        Some(a) => a,
        None => "unknown"@,
    }
}

/// The sum over session entries counted under agent `a` of their events (`bytes` false)
/// or bytes (`bytes` true).
pub open spec fn agent_entry_sum(entries: Seq<(String, SessionLineStats)>, a: Seq<char>, bytes: bool) -> nat
    decreases entries.len(),
{
    if entries.len() == 0 {
        0
    } else {
        let e = entries.last().1;
        agent_entry_sum(entries.drop_last(), a, bytes) + if agent_name(e) == a {
            if bytes { e.bytes as nat } else { e.events as nat }
        } else {
            0nat
        }
    }
}

/// Whether some session entry is counted under agent `a`.
pub open spec fn has_agent_entry(entries: Seq<(String, SessionLineStats)>, a: Seq<char>) -> bool {
    exists|i: int| 0 <= i < entries.len() && agent_name(#[trigger] entries[i].1) == a
}

/// Tags of the per-name quantities of a file.
pub const SESSION_EVENTS: u8 = 0;
pub const SESSION_BYTES: u8 = 1;
pub const SESSION_FILES: u8 = 2;
pub const SESSION_HOUR: u8 = 3;
pub const DAY_EVENTS: u8 = 4;
pub const DAY_BYTES: u8 = 5;
pub const DAY_FILES: u8 = 6;
pub const AGENT_EVENTS: u8 = 7;
pub const AGENT_BYTES: u8 = 8;
pub const AGENT_FILES: u8 = 9;
pub const TOOL_USES: u8 = 10;
pub const HOOK_RUNS: u8 = 11;

/// What file `f` contributes to the quantity `tag` of name `key` (and hour `h`).
pub open spec fn part(f: ScannedFile, tag: u8, key: Seq<char>, h: int) -> nat {
    let sm = f.stats.session_stats.as_map();
    let has = sm.dom().contains(key);
    if tag == SESSION_EVENTS {
        if has { sm[key].events as nat } else { 0 }
    } else if tag == SESSION_BYTES {
        if has { sm[key].bytes as nat } else { 0 }
    } else if tag == SESSION_FILES {
        if has { 1 } else { 0 }
    } else if tag == SESSION_HOUR {
        if has && 0 <= h < 24 { sm[key].hourly_events@[h] as nat } else { 0 }
    } else if tag == DAY_EVENTS {
        if f.event_file.day@ == key { f.stats.event_count as nat } else { 0 }
    } else if tag == DAY_BYTES {
        if f.event_file.day@ == key { f.size_bytes as nat } else { 0 }
    } else if tag == DAY_FILES {
        if f.event_file.day@ == key { 1 } else { 0 }
    } else if tag == AGENT_EVENTS {
        agent_entry_sum(f.stats.session_stats.entries@, key, false)
    } else if tag == AGENT_BYTES {
        agent_entry_sum(f.stats.session_stats.entries@, key, true)
    } else if tag == AGENT_FILES {
        if has_agent_entry(f.stats.session_stats.entries@, key) { 1 } else { 0 }
    } else if tag == TOOL_USES {
        if f.stats.tool_counts.as_map().dom().contains(key) { f.stats.tool_counts.as_map()[key] as nat } else { 0 }
    } else if tag == HOOK_RUNS {
        if f.stats.hook_stats.as_map().dom().contains(key) {
            f.stats.hook_stats.as_map()[key].count as nat
        } else {
            0
        }
    } else {
        0
    }
}

/// The quantity `tag` of name `key` (and hour `h`) over the files.
pub open spec fn sum_files(files: Seq<ScannedFile>, tag: u8, key: Seq<char>, h: int) -> nat
    decreases files.len(),
{
    if files.len() == 0 {
        0
    } else {
        sum_files(files.drop_last(), tag, key, h) + part(files.last(), tag, key, h)
    }
}

proof fn lemma_sum_files_monotone(files: Seq<ScannedFile>, tag: u8, key: Seq<char>, h: int, n: int)
    requires
        0 <= n <= files.len(),
    ensures
        sum_files(files.take(n), tag, key, h) <= sum_files(files, tag, key, h),
    decreases files.len(),
{
    if n < files.len() {
        assert(files.drop_last().take(n) =~= files.take(n));
        lemma_sum_files_monotone(files.drop_last(), tag, key, h, n);
    } else {
        assert(files.take(n) =~= files);
    }
}

/// Whether every file's tables have distinct names.
pub open spec fn files_wf(files: Seq<ScannedFile>) -> bool {
    forall|i: int| 0 <= i < files.len() ==> {
        &&& (#[trigger] files[i]).stats.session_stats.wf()
        &&& files[i].stats.tool_counts.wf()
        &&& files[i].stats.hook_stats.wf()
    }
}

fn agent_of_entry(e: &SessionLineStats) -> (r: String)
    ensures
        r@ == agent_name(*e),
{
    match &e.agent {
        Some(a) => a.clone(),
        None => crate::text::owned("unknown"),
    }
}

fn agent_sum_of(entries: &Vec<(String, SessionLineStats)>, a: &str, bytes: bool) -> (r: u64)
    requires
        agent_entry_sum(entries@, a@, bytes) <= u64::MAX,
    ensures
        r == agent_entry_sum(entries@, a@, bytes),
{
    let mut total: u64 = 0;
    let mut i: usize = 0;
    while i < entries.len()
        invariant
            i <= entries@.len(),
            total == agent_entry_sum(entries@.take(i as int), a@, bytes),
            agent_entry_sum(entries@, a@, bytes) <= u64::MAX,
        decreases entries@.len() - i,
    {
        assert(entries@.take(i + 1).drop_last() =~= entries@.take(i as int));
        proof {
            lemma_agent_sum_monotone(entries@, a@, bytes, i + 1);
        }
        let name = agent_of_entry(&entries[i].1);
        if same_text(name.as_str(), a) {
            if bytes {
                total = total + entries[i].1.bytes;
            } else {
                total = total + entries[i].1.events;
            }
        }
        i += 1;
    }
    assert(entries@.take(entries@.len() as int) =~= entries@);
    total
}

proof fn lemma_agent_sum_monotone(entries: Seq<(String, SessionLineStats)>, a: Seq<char>, bytes: bool, n: int)
    requires
        0 <= n <= entries.len(),
    ensures
        agent_entry_sum(entries.take(n), a, bytes) <= agent_entry_sum(entries, a, bytes),
    decreases entries.len(),
{
    if n < entries.len() {
        assert(entries.drop_last().take(n) =~= entries.take(n));
        lemma_agent_sum_monotone(entries.drop_last(), a, bytes, n);
    } else {
        assert(entries.take(n) =~= entries);
    }
}

fn has_agent_entry_of(entries: &Vec<(String, SessionLineStats)>, a: &str) -> (r: bool)
    ensures
        r == has_agent_entry(entries@, a@),
{
    let mut i: usize = 0;
    while i < entries.len()
        invariant
            i <= entries@.len(),
            forall|j: int| 0 <= j < i ==> agent_name(#[trigger] entries@[j].1) != a@,
        decreases entries@.len() - i,
    {
        let name = agent_of_entry(&entries[i].1);
        if same_text(name.as_str(), a) {
            return true;
        }
        i += 1;
    }
    false
}

/// What file `f` contributes to quantity `tag` of `key` (and hour `h`).
fn part_of(f: &ScannedFile, tag: u8, key: &str, h: usize) -> (r: u64)
    requires
        f.stats.session_stats.wf(),
        f.stats.tool_counts.wf(),
        f.stats.hook_stats.wf(),
        part(*f, tag, key@, h as int) <= u64::MAX,
    ensures
        r == part(*f, tag, key@, h as int),
{
    if tag == SESSION_EVENTS || tag == SESSION_BYTES || tag == SESSION_FILES || tag == SESSION_HOUR {
        match f.stats.session_stats.get(key) {
            Some(e) => {
                if tag == SESSION_EVENTS {
                    e.events
                } else if tag == SESSION_BYTES {
                    e.bytes
                } else if tag == SESSION_FILES {
                    1
                } else if h < 24 {
                    e.hourly_events[h]
                } else {
                    0
                }
            },
            None => 0,
        }
    } else if tag == DAY_EVENTS || tag == DAY_BYTES || tag == DAY_FILES {
        if same_text(f.event_file.day.as_str(), key) {
            if tag == DAY_EVENTS {
                f.stats.event_count
            } else if tag == DAY_BYTES {
                f.size_bytes
            } else {
                1
            }
        } else {
            0
        }
    } else if tag == AGENT_EVENTS {
        agent_sum_of(&f.stats.session_stats.entries, key, false)
    } else if tag == AGENT_BYTES {
        agent_sum_of(&f.stats.session_stats.entries, key, true)
    } else if tag == AGENT_FILES {
        if has_agent_entry_of(&f.stats.session_stats.entries, key) {
            1
        } else {
            0
        }
    } else if tag == TOOL_USES {
        match f.stats.tool_counts.get(key) {
            Some(n) => *n,
            None => 0,
        }
    } else if tag == HOOK_RUNS {
        match f.stats.hook_stats.get(key) {
            Some(a) => a.count,
            None => 0,
        }
    } else {
        0
    }
}

/// The quantity `tag` of name `key` (and hour `h`) over the files.
fn total_of(files: &Vec<ScannedFile>, tag: u8, key: &str, h: usize) -> (r: u64)
    requires
        files_wf(files@),
        sum_files(files@, tag, key@, h as int) <= u64::MAX,
    ensures
        r == sum_files(files@, tag, key@, h as int),
{
    let mut total: u64 = 0;
    let mut i: usize = 0;
    while i < files.len()
        invariant
            i <= files@.len(),
            files_wf(files@),
            total == sum_files(files@.take(i as int), tag, key@, h as int),
            sum_files(files@, tag, key@, h as int) <= u64::MAX,
        decreases files@.len() - i,
    {
        assert(files@.take(i + 1).drop_last() =~= files@.take(i as int));
        assert(files@.take(i + 1).last() == files@[i as int]);
        proof {
            lemma_sum_files_monotone(files@, tag, key@, h as int, i + 1);
        }
        let p = part_of(&files[i], tag, key, h);
        total = total + p;
        i += 1;
    }
    assert(files@.take(files@.len() as int) =~= files@);
    total
}


// ---------------------------------------------------------------------------
// Names

/// The names of a table.
pub open spec fn table_names<V>(m: NamedMap<V>) -> Set<Seq<char>> {
    m.as_map().dom()
}

/// The agents that session entries are counted under.
pub open spec fn entry_agents(entries: Seq<(String, SessionLineStats)>) -> Set<Seq<char>> {
    Set::new(|a: Seq<char>| has_agent_entry(entries, a))
}

/// The sessions of the files.
pub open spec fn sessions_of(files: Seq<ScannedFile>) -> Set<Seq<char>>
    decreases files.len(),
{
    if files.len() == 0 {
        Set::empty()
    } else {
        sessions_of(files.drop_last()).union(table_names(files.last().stats.session_stats))
    }
}

/// The days of the files.
pub open spec fn days_of(files: Seq<ScannedFile>) -> Set<Seq<char>>
    decreases files.len(),
{
    if files.len() == 0 {
        Set::empty()
    } else {
        days_of(files.drop_last()).insert(files.last().event_file.day@)
    }
}

/// The agents of the files' session entries.
pub open spec fn agents_of(files: Seq<ScannedFile>) -> Set<Seq<char>>
    decreases files.len(),
{
    if files.len() == 0 {
        Set::empty()
    } else {
        agents_of(files.drop_last()).union(entry_agents(files.last().stats.session_stats.entries@))
    }
}

/// The tools of the files.
pub open spec fn tools_of(files: Seq<ScannedFile>) -> Set<Seq<char>>
    decreases files.len(),
{
    if files.len() == 0 {
        Set::empty()
    } else {
        tools_of(files.drop_last()).union(table_names(files.last().stats.tool_counts))
    }
}

/// The hook commands of the files.
pub open spec fn hooks_of(files: Seq<ScannedFile>) -> Set<Seq<char>>
    decreases files.len(),
{
    if files.len() == 0 {
        Set::empty()
    } else {
        hooks_of(files.drop_last()).union(table_names(files.last().stats.hook_stats))
    }
}

/// Adds the names of `m` to `set`.
fn add_names<V>(set: &mut NamedMap<()>, m: &NamedMap<V>)
    requires
        old(set).wf(),
    ensures
        final(set).wf(),
        table_names(*final(set)) == table_names(*old(set)).union(table_names(*m)),
{
    let ghost base = table_names(*set);
    let mut i: usize = 0;
    while i < m.entries.len()
        invariant
            i <= m.entries@.len(),
            set.wf(),
            table_names(*set) == base.union(Set::new(|k: Seq<char>| exists|j: int| 0 <= j < i && #[trigger] m.entries@[j].0@ == k)),
        decreases m.entries@.len() - i,
    {
        let ghost before = table_names(*set);
        set.slot(m.entries[i].0.as_str(), ());
        proof {
            let k_i = m.entries@[i as int].0@;
            assert(table_names(*set) =~= before.insert(k_i));
            assert(table_names(*set) =~= base.union(Set::new(|k: Seq<char>| exists|j: int| 0 <= j < i + 1 && #[trigger] m.entries@[j].0@ == k))) by {
                assert forall|k: Seq<char>| table_names(*set).contains(k) <==> base.union(Set::new(|k: Seq<char>| exists|j: int| 0 <= j < i + 1 && #[trigger] m.entries@[j].0@ == k)).contains(k) by {
                    if k == k_i {
                        assert(m.entries@[i as int].0@ == k);
                    }
                    if (exists|j: int| 0 <= j < i + 1 && #[trigger] m.entries@[j].0@ == k) && k != k_i {
                        let j = choose|j: int| 0 <= j < i + 1 && #[trigger] m.entries@[j].0@ == k;
                        assert(j < i);
                    }
                }
            }
        }
        i += 1;
    }
    assert(table_names(*m) =~= Set::new(|k: Seq<char>| exists|j: int| 0 <= j < m.entries@.len() && #[trigger] m.entries@[j].0@ == k));
}

/// Adds the agents of the session entries to `set`.
fn add_agents(set: &mut NamedMap<()>, entries: &Vec<(String, SessionLineStats)>)
    requires
        old(set).wf(),
    ensures
        final(set).wf(),
        table_names(*final(set)) == table_names(*old(set)).union(entry_agents(entries@)),
{
    let ghost base = table_names(*set);
    let mut i: usize = 0;
    while i < entries.len()
        invariant
            i <= entries@.len(),
            set.wf(),
            table_names(*set) == base.union(entry_agents(entries@.take(i as int))),
        decreases entries@.len() - i,
    {
        let ghost before = table_names(*set);
        let name = agent_of_entry(&entries[i].1);
        set.slot(name.as_str(), ());
        proof {
            let a_i = agent_name(entries@[i as int].1);
            assert forall|a: Seq<char>| #[trigger] entry_agents(entries@.take(i + 1)).contains(a) == (entry_agents(
                entries@.take(i as int),
            ).contains(a) || a == a_i) by {
                if has_agent_entry(entries@.take(i + 1), a) {
                    let j = choose|j: int| 0 <= j < i + 1 && agent_name(#[trigger] entries@.take(i + 1)[j].1) == a;
                    if j < i {
                        assert(entries@.take(i as int)[j] == entries@.take(i + 1)[j]);
                    }
                }
                if has_agent_entry(entries@.take(i as int), a) {
                    let j = choose|j: int| 0 <= j < i && agent_name(#[trigger] entries@.take(i as int)[j].1) == a;
                    assert(entries@.take(i as int)[j] == entries@.take(i + 1)[j]);
                }
                if a == a_i {
                    assert(entries@.take(i + 1)[i as int] == entries@[i as int]);
                }
            }
            assert(table_names(*set) =~= base.union(entry_agents(entries@.take(i + 1))));
        }
        i += 1;
    }
    assert(entries@.take(entries@.len() as int) =~= entries@);
}

/// The names of a kind (`0` sessions, `1` days, `2` agents, `3` tools, `4` hooks) over the files.
pub open spec fn names_of(files: Seq<ScannedFile>, kind: u8) -> Set<Seq<char>> {
    if kind == 0 {
        sessions_of(files)
    } else if kind == 1 {
        days_of(files)
    } else if kind == 2 {
        agents_of(files)
    } else if kind == 3 {
        tools_of(files)
    } else {
        hooks_of(files)
    }
}

/// The distinct names of a kind over the files, in order of first appearance.
fn collect_names(files: &Vec<ScannedFile>, kind: u8) -> (set: NamedMap<()>)
    requires
        kind < 5,
    ensures
        set.wf(),
        table_names(set) == names_of(files@, kind),
{
    let mut set: NamedMap<()> = NamedMap::new();
    assert(table_names(set) =~= Set::<Seq<char>>::empty());
    let mut i: usize = 0;
    while i < files.len()
        invariant
            i <= files@.len(),
            kind < 5,
            set.wf(),
            table_names(set) == names_of(files@.take(i as int), kind),
        decreases files@.len() - i,
    {
        let ghost prefix = files@.take(i as int);
        assert(files@.take(i + 1).drop_last() =~= prefix);
        assert(files@.take(i + 1).last() == files@[i as int]);
        let f = &files[i];
        if kind == 0 {
            add_names(&mut set, &f.stats.session_stats);
        } else if kind == 1 {
            let ghost before = table_names(set);
            set.slot(f.event_file.day.as_str(), ());
            assert(table_names(set) =~= before.insert(f.event_file.day@));
        } else if kind == 2 {
            add_agents(&mut set, &f.stats.session_stats.entries);
        } else if kind == 3 {
            add_names(&mut set, &f.stats.tool_counts);
        } else {
            add_names(&mut set, &f.stats.hook_stats);
        }
        i += 1;
    }
    assert(files@.take(files@.len() as int) =~= files@);
    set
}


// ---------------------------------------------------------------------------
// Other quantities per name

/// The entry of session `k` in file `f`.
pub open spec fn entry_in(f: ScannedFile, k: Seq<char>) -> Option<SessionLineStats> {
    let sm = f.stats.session_stats.as_map();
    if sm.dom().contains(k) { Some(sm[k]) } else { None }
}

/// The agent of session `k`: the first agent named by its entries, in file order.
pub open spec fn agent_over(files: Seq<ScannedFile>, k: Seq<char>) -> Option<Seq<char>>
    decreases files.len(),
{
    if files.len() == 0 {
        None
    } else {
        let before = agent_over(files.drop_last(), k);
        if before is None {
            match entry_in(files.last(), k) {
                Some(e) => opt_text(e.agent),
                None => None,
            }
        } else {
            before
        }
    }
}

/// The agent a session is reported under: its agent, or `unknown`.
pub open spec fn session_agent_name(files: Seq<ScannedFile>, k: Seq<char>) -> Seq<char> {
    match agent_over(files, k) {
        Some(a) => a,
        None => "unknown"@,
    }
}

/// When session `k` was last seen: the latest of its entries' last timestamps, an
/// entry without one counting as its file's modification time.
pub open spec fn last_seen_over(files: Seq<ScannedFile>, k: Seq<char>) -> Option<i64>
    decreases files.len(),
{
    if files.len() == 0 {
        None
    } else {
        let before = last_seen_over(files.drop_last(), k);
        let f = files.last();
        match entry_in(f, k) {
            Some(e) => {
                let candidate = match e.last_seen_ms {
                    Some(ms) => Some(ms),
                    None => match f.mtime {
                        Some(t) => Some(t.millis),
                        None => None,
                    },
                };
                match candidate {
                    Some(c) => match before {
                        Some(b) => Some(if b >= c { b } else { c }),
                        None => Some(c),
                    },
                    None => before,
                }
            },
            None => before,
        }
    }
}

/// The days on which session `k` has entries.
pub open spec fn days_over(files: Seq<ScannedFile>, k: Seq<char>) -> Set<Seq<char>>
    decreases files.len(),
{
    if files.len() == 0 {
        Set::empty()
    } else {
        let before = days_over(files.drop_last(), k);
        if entry_in(files.last(), k) is Some {
            before.insert(files.last().event_file.day@)
        } else {
            before
        }
    }
}

/// The sessions of the files of day `d`.
pub open spec fn sessions_on(files: Seq<ScannedFile>, d: Seq<char>) -> Set<Seq<char>>
    decreases files.len(),
{
    if files.len() == 0 {
        Set::empty()
    } else {
        let before = sessions_on(files.drop_last(), d);
        if files.last().event_file.day@ == d {
            before.union(table_names(files.last().stats.session_stats))
        } else {
            before
        }
    }
}

/// The sum over the files of day `d` of one token count (`which` below 4), or over
/// all files of the milliseconds of hook command `d` (`which` 4).
pub open spec fn int_sum(files: Seq<ScannedFile>, which: int, d: Seq<char>) -> int
    decreases files.len(),
{
    if files.len() == 0 {
        0
    } else {
        let f = files.last();
        int_sum(files.drop_last(), which, d) + if which < 4 {
            if f.event_file.day@ == d { crate::scan::token_field(f.stats.token_usage, which) as int } else { 0 }
        } else {
            let hm = f.stats.hook_stats.as_map();
            if hm.dom().contains(d) { hm[d].total_ms as int } else { 0 }
        }
    }
}

/// Whether every running per-day token sum and per-command hook time fits in `i64`.
pub open spec fn int_sums_fit(files: Seq<ScannedFile>) -> bool {
    forall|n: int, which: int, d: Seq<char>|
        0 <= n <= files.len() && 0 <= which <= 4 ==> i64::MIN <= #[trigger] int_sum(files.take(n), which, d) <= i64::MAX
}

fn int_total(files: &Vec<ScannedFile>, which: u8, d: &str) -> (r: i64)
    requires
        files_wf(files@),
        which <= 4,
        int_sums_fit(files@),
    ensures
        r == int_sum(files@, which as int, d@),
{
    let mut total: i64 = 0;
    let mut i: usize = 0;
    while i < files.len()
        invariant
            i <= files@.len(),
            which <= 4,
            files_wf(files@),
            int_sums_fit(files@),
            total == int_sum(files@.take(i as int), which as int, d@),
        decreases files@.len() - i,
    {
        assert(files@.take(i + 1).drop_last() =~= files@.take(i as int));
        assert(files@.take(i + 1).last() == files@[i as int]);
        assert(i64::MIN <= int_sum(files@.take(i + 1), which as int, d@) <= i64::MAX);
        let f = &files[i];
        if which < 4 {
            if same_text(f.event_file.day.as_str(), d) {
                let t = f.stats.token_usage;
                let add = if which == 0 {
                    t.input_tokens
                } else if which == 1 {
                    t.output_tokens
                } else if which == 2 {
                    t.cache_read_input_tokens
                } else {
                    t.cache_creation_input_tokens
                };
                total = total + add;
            }
        } else {
            assert(f.stats.hook_stats.wf());
            match f.stats.hook_stats.get(d) {
                Some(a) => {
                    total = total + a.total_ms;
                },
                None => {},
            }
        }
        i += 1;
    }
    assert(files@.take(files@.len() as int) =~= files@);
    total
}

fn agent_over_of(files: &Vec<ScannedFile>, k: &str) -> (r: Option<String>)
    requires
        files_wf(files@),
    ensures
        opt_text(r) == agent_over(files@, k@),
{
    let mut found: Option<String> = None;
    let mut i: usize = 0;
    while i < files.len()
        invariant
            i <= files@.len(),
            files_wf(files@),
            opt_text(found) == agent_over(files@.take(i as int), k@),
        decreases files@.len() - i,
    {
        assert(files@.take(i + 1).drop_last() =~= files@.take(i as int));
        assert(files@.take(i + 1).last() == files@[i as int]);
        assert(files@[i as int].stats.session_stats.wf());
        if found.is_none() {
            match files[i].stats.session_stats.get(k) {
                Some(e) => {
                    found = match &e.agent {
                        Some(a) => Some(a.clone()),
                        None => None,
                    };
                },
                None => {},
            }
        }
        i += 1;
    }
    assert(files@.take(files@.len() as int) =~= files@);
    found
}

fn last_seen_over_of(files: &Vec<ScannedFile>, k: &str) -> (r: Option<i64>)
    requires
        files_wf(files@),
    ensures
        r == last_seen_over(files@, k@),
{
    let mut seen: Option<i64> = None;
    let mut i: usize = 0;
    while i < files.len()
        invariant
            i <= files@.len(),
            files_wf(files@),
            seen == last_seen_over(files@.take(i as int), k@),
        decreases files@.len() - i,
    {
        assert(files@.take(i + 1).drop_last() =~= files@.take(i as int));
        assert(files@.take(i + 1).last() == files@[i as int]);
        assert(files@[i as int].stats.session_stats.wf());
        let f = &files[i];
        match f.stats.session_stats.get(k) {
            Some(e) => {
                let candidate = match e.last_seen_ms {
                    Some(ms) => Some(ms),
                    None => match &f.mtime {
                        Some(t) => Some(t.millis),
                        None => None,
                    },
                };
                match candidate {
                    Some(c) => {
                        seen = match seen {
                            Some(b) => Some(if b >= c { b } else { c }),
                            None => Some(c),
                        };
                    },
                    None => {},
                }
            },
            None => {},
        }
        i += 1;
    }
    assert(files@.take(files@.len() as int) =~= files@);
    seen
}

fn days_over_of(files: &Vec<ScannedFile>, k: &str) -> (r: NamedMap<()>)
    requires
        files_wf(files@),
    ensures
        r.wf(),
        table_names(r) == days_over(files@, k@),
{
    let mut set: NamedMap<()> = NamedMap::new();
    assert(table_names(set) =~= Set::<Seq<char>>::empty());
    let mut i: usize = 0;
    while i < files.len()
        invariant
            i <= files@.len(),
            files_wf(files@),
            set.wf(),
            table_names(set) == days_over(files@.take(i as int), k@),
        decreases files@.len() - i,
    {
        assert(files@.take(i + 1).drop_last() =~= files@.take(i as int));
        assert(files@.take(i + 1).last() == files@[i as int]);
        assert(files@[i as int].stats.session_stats.wf());
        if files[i].stats.session_stats.get(k).is_some() {
            let ghost before = table_names(set);
            set.slot(files[i].event_file.day.as_str(), ());
            assert(table_names(set) =~= before.insert(files@[i as int].event_file.day@));
        }
        i += 1;
    }
    assert(files@.take(files@.len() as int) =~= files@);
    set
}

fn sessions_on_of(files: &Vec<ScannedFile>, d: &str) -> (r: NamedMap<()>)
    ensures
        r.wf(),
        table_names(r) == sessions_on(files@, d@),
{
    let mut set: NamedMap<()> = NamedMap::new();
    assert(table_names(set) =~= Set::<Seq<char>>::empty());
    let mut i: usize = 0;
    while i < files.len()
        invariant
            i <= files@.len(),
            set.wf(),
            table_names(set) == sessions_on(files@.take(i as int), d@),
        decreases files@.len() - i,
    {
        assert(files@.take(i + 1).drop_last() =~= files@.take(i as int));
        assert(files@.take(i + 1).last() == files@[i as int]);
        if same_text(files[i].event_file.day.as_str(), d) {
            add_names(&mut set, &files[i].stats.session_stats);
        }
        i += 1;
    }
    assert(files@.take(files@.len() as int) =~= files@);
    set
}


// ---------------------------------------------------------------------------
// Ranked rows

/// The names with their quantity `tag`, as ranks.
pub open spec fn tagged_ranks(files: Seq<ScannedFile>, names: Seq<Seq<char>>, tag: u8) -> Seq<Rank> {
    names.map_values(|n: Seq<char>| (sum_files(files, tag, n, 0) as u64, n))
}

/// Whether every quantity of every name fits in `u64`.
pub open spec fn quantities_fit(files: Seq<ScannedFile>) -> bool {
    forall|tag: u8, key: Seq<char>, h: int| #[trigger] sum_files(files, tag, key, h) <= u64::MAX
}

fn rank_items(files: &Vec<ScannedFile>, names: &NamedMap<()>, tag: u8) -> (out: Vec<(u64, String)>)
    requires
        files_wf(files@),
        quantities_fit(files@),
        names.wf(),
    ensures
        ranks(out@) == tagged_ranks(files@, names.names(), tag),
        distinct_names(ranks(out@)),
{
    let mut out: Vec<(u64, String)> = Vec::new();
    let mut i: usize = 0;
    while i < names.entries.len()
        invariant
            i <= names.entries@.len(),
            files_wf(files@),
            quantities_fit(files@),
            out@.len() == i,
            ranks(out@) == tagged_ranks(files@, names.names(), tag).take(i as int),
        decreases names.entries@.len() - i,
    {
        let n = names.entries[i].0.clone();
        let c = total_of(files, tag, n.as_str(), 0);
        let ghost nv = n@;
        assert(nv == names.names()[i as int]);
        assert(tagged_ranks(files@, names.names(), tag)[i as int] == (c, nv));
        let pair = (c, n);
        let ghost pv = pair;
        let ghost before = out@;
        out.push(pair);
        assert(out@ == before.push(pv));
        assert(out@[i as int] == pv);
        assert(ranks(out@)[i as int] == (pv.0, pv.1@));
        assert(ranks(out@).take(i as int) =~= ranks(before));
        assert(ranks(out@) =~= tagged_ranks(files@, names.names(), tag).take(i + 1));
        i += 1;
    }
    assert(tagged_ranks(files@, names.names(), tag).take(i as int) =~= tagged_ranks(files@, names.names(), tag));
    proof {
        let r = ranks(out@);
        assert forall|a: int, b: int| 0 <= a < b < r.len() implies #[trigger] r[a].1 != #[trigger] r[b].1 by {
            assert(r[a].1 == names.entries@[a].0@);
            assert(r[b].1 == names.entries@[b].0@);
        }
    }
    out
}

proof fn lemma_sum_untagged(files: Seq<ScannedFile>, key: Seq<char>, h: int)
    ensures
        sum_files(files, 255, key, h) == 0,
    decreases files.len(),
{
    if files.len() > 0 {
        lemma_sum_untagged(files.drop_last(), key, h);
    }
}

/// `names` lists the elements of `set`, each once.
pub open spec fn lists(names: Seq<Seq<char>>, set: Set<Seq<char>>) -> bool {
    names.to_set() == set && names.no_duplicates()
}

proof fn lemma_names_list<V>(m: &NamedMap<V>)
    requires
        m.wf(),
    ensures
        lists(m.names(), table_names(*m)),
        table_names(*m).finite(),
        table_names(*m).len() == m.entries@.len(),
{
    m.lemma_size();
    let names = m.names();
    assert(names.to_set() =~= table_names(*m)) by {
        assert forall|k: Seq<char>| names.to_set().contains(k) <==> table_names(*m).contains(k) by {
            if m.has(k) {
                let j = choose|j: int| 0 <= j < m.entries@.len() && #[trigger] m.entries@[j].0@ == k;
                assert(names[j] == k);
            }
            if names.to_set().contains(k) {
                let j = choose|j: int| 0 <= j < names.len() && names[j] == k;
                assert(m.entries@[j].0@ == k);
            }
        }
    }
    assert(names.no_duplicates()) by {
        assert forall|a: int, b: int| 0 <= a < names.len() && 0 <= b < names.len() && a != b implies names[a] != names[b] by {
            if a < b {
                assert(m.entries@[a].0@ != m.entries@[b].0@);
            } else {
                assert(m.entries@[b].0@ != m.entries@[a].0@);
            }
        }
    }
}

/// Whether a day row holds the totals of its day.
pub open spec fn day_row_ok(r: DayRow, files: Seq<ScannedFile>) -> bool {
    &&& r.events == sum_files(files, DAY_EVENTS, r.day@, 0)
    &&& r.bytes == sum_files(files, DAY_BYTES, r.day@, 0)
    &&& r.files == sum_files(files, DAY_FILES, r.day@, 0)
    &&& r.sessions == sessions_on(files, r.day@).len()
}

/// Whether a day's token row holds its token totals.
pub open spec fn day_tokens_ok(t: DayTokenRow, files: Seq<ScannedFile>) -> bool {
    &&& t.input_tokens == int_sum(files, 0, t.day@)
    &&& t.output_tokens == int_sum(files, 1, t.day@)
    &&& t.cache_read_tokens == int_sum(files, 2, t.day@)
    &&& t.cache_creation_tokens == int_sum(files, 3, t.day@)
}

/// The days of the rows, as ranks with count zero.
pub open spec fn day_ranks(rows: Seq<DayRow>) -> Seq<Rank> {
    rows.map_values(|r: DayRow| (0u64, r.day@))
}

/// Whether `acc` holds the totals of day `d` over the files.
pub open spec fn day_accum_ok(acc: DayAccum, files: Seq<ScannedFile>, d: Seq<char>) -> bool {
    &&& acc.events == sum_files(files, DAY_EVENTS, d, 0)
    &&& acc.bytes == sum_files(files, DAY_BYTES, d, 0)
    &&& acc.files == sum_files(files, DAY_FILES, d, 0)
    &&& acc.sessions.wf()
    &&& table_names(acc.sessions) == sessions_on(files, d)
    &&& acc.tokens.input_tokens == int_sum(files, 0, d)
    &&& acc.tokens.output_tokens == int_sum(files, 1, d)
    &&& acc.tokens.cache_read_input_tokens == int_sum(files, 2, d)
    &&& acc.tokens.cache_creation_input_tokens == int_sum(files, 3, d)
}

/// The totals of day `d` over the files.
fn day_accum(files: &Vec<ScannedFile>, d: &str) -> (acc: DayAccum)
    requires
        files_wf(files@),
        quantities_fit(files@),
        int_sums_fit(files@),
    ensures
        day_accum_ok(acc, files@, d@),
{
    DayAccum {
        events: total_of(files, DAY_EVENTS, d, 0),
        bytes: total_of(files, DAY_BYTES, d, 0),
        files: total_of(files, DAY_FILES, d, 0),
        sessions: sessions_on_of(files, d),
        tokens: TokenUsage {
            input_tokens: int_total(files, 0, d),
            output_tokens: int_total(files, 1, d),
            cache_read_input_tokens: int_total(files, 2, d),
            cache_creation_input_tokens: int_total(files, 3, d),
        },
    }
}

/// The day rows and day token rows, newest day first.
fn day_rows(files: &Vec<ScannedFile>) -> (r: (Vec<DayRow>, Vec<DayTokenRow>))
    requires
        files_wf(files@),
        quantities_fit(files@),
        int_sums_fit(files@),
    ensures
        exists|names: Seq<Seq<char>>|
            #![trigger lists(names, days_of(files@))]
            lists(names, days_of(files@)) && ranked_top(day_ranks(r.0@), tagged_ranks(files@, names, 255), names.len(), true),
        r.0@.len() == r.1@.len(),
        forall|i: int| 0 <= i < r.0@.len() ==> day_row_ok(#[trigger] r.0@[i], files@),
        forall|i: int| 0 <= i < r.1@.len() ==> #[trigger] r.1@[i].day@ == r.0@[i].day@ && day_tokens_ok(r.1@[i], files@),
{
    let days = collect_names(files, 1);
    let items = rank_items(files, &days, 255);
    let order = top_ranks(items, days.entries.len(), true);
    let mut rows: Vec<DayRow> = Vec::new();
    let mut tokens: Vec<DayTokenRow> = Vec::new();
    let mut i: usize = 0;
    while i < order.len()
        invariant
            i <= order@.len(),
            files_wf(files@),
            quantities_fit(files@),
            int_sums_fit(files@),
            rows@.len() == i,
            tokens@.len() == i,
            forall|t: int| 0 <= t < i ==> (#[trigger] rows@[t]).day@ == order@[t].1@,
            forall|t: int| 0 <= t < i ==> day_row_ok(#[trigger] rows@[t], files@),
            forall|t: int| 0 <= t < i ==> #[trigger] tokens@[t].day@ == order@[t].1@ && day_tokens_ok(tokens@[t], files@),
        decreases order@.len() - i,
    {
        let acc = day_accum(files, order[i].1.as_str());
        proof {
            acc.sessions.lemma_size();
        }
        rows.push(DayRow {
            day: order[i].1.clone(),
            events: acc.events,
            bytes: acc.bytes,
            files: acc.files,
            sessions: acc.sessions.entries.len() as u64,
        });
        tokens.push(DayTokenRow {
            day: order[i].1.clone(),
            input_tokens: acc.tokens.input_tokens,
            output_tokens: acc.tokens.output_tokens,
            cache_read_tokens: acc.tokens.cache_read_input_tokens,
            cache_creation_tokens: acc.tokens.cache_creation_input_tokens,
        });
        i += 1;
    }
    proof {
        let names = days.names();
        lemma_names_list(&days);
        assert(day_ranks(rows@) =~= ranks(order@)) by {
            assert forall|t: int| 0 <= t < rows@.len() implies day_ranks(rows@)[t] == ranks(order@)[t] by {
                assert(tagged_ranks(files@, names, 255).contains(ranks(order@)[t]));
                let q = choose|q: int| 0 <= q < tagged_ranks(files@, names, 255).len() && tagged_ranks(files@, names, 255)[q] == ranks(order@)[t];
                lemma_sum_untagged(files@, names[q], 0);
                assert(ranks(order@)[t].0 == 0);
            }
        }
    }
    (rows, tokens)
}


/// What a session row reports of its session.
pub open spec fn session_row_ok(r: SessionRow, files: Seq<ScannedFile>) -> bool {
    &&& r.agent@ == session_agent_name(files, r.session@)
    &&& r.events == sum_files(files, SESSION_EVENTS, r.session@, 0)
    &&& r.bytes == sum_files(files, SESSION_BYTES, r.session@, 0)
    &&& r.files == sum_files(files, SESSION_FILES, r.session@, 0)
    &&& r.days == days_over(files, r.session@).len()
    &&& r.last_seen@ == match last_seen_over(files, r.session@) {
        Some(ms) => iso_of_millis(ms),
        None => "n/a"@,
    }
}

/// The events and names of session rows, as ranks.
pub open spec fn session_ranks(rows: Seq<SessionRow>) -> Seq<Rank> {
    rows.map_values(|r: SessionRow| (r.events, r.session@))
}

/// How many rows the session table keeps.
pub const TOP_SESSIONS: usize = 20;

/// Whether `acc` holds the totals of session `k` over the files.
pub open spec fn session_accum_ok(acc: SessionAccum, files: Seq<ScannedFile>, k: Seq<char>) -> bool {
    &&& acc.events == sum_files(files, SESSION_EVENTS, k, 0)
    &&& acc.bytes == sum_files(files, SESSION_BYTES, k, 0)
    &&& acc.files == sum_files(files, SESSION_FILES, k, 0)
    &&& acc.days.wf()
    &&& table_names(acc.days) == days_over(files, k)
    &&& acc.last_seen_ms == last_seen_over(files, k)
    &&& opt_text(acc.agent) == agent_over(files, k)
}

/// The totals of session `k` over the files.
fn session_accum(files: &Vec<ScannedFile>, k: &str) -> (acc: SessionAccum)
    requires
        files_wf(files@),
        quantities_fit(files@),
    ensures
        session_accum_ok(acc, files@, k@),
{
    SessionAccum {
        events: total_of(files, SESSION_EVENTS, k, 0),
        bytes: total_of(files, SESSION_BYTES, k, 0),
        files: total_of(files, SESSION_FILES, k, 0),
        days: days_over_of(files, k),
        last_seen_ms: last_seen_over_of(files, k),
        agent: agent_over_of(files, k),
    }
}

/// The busiest sessions, most events first and then by name.
fn session_rows(files: &Vec<ScannedFile>, sessions: &NamedMap<()>) -> (rows: Vec<SessionRow>)
    requires
        files_wf(files@),
        quantities_fit(files@),
        sessions.wf(),
    ensures
        ranked_top(
            session_ranks(rows@),
            tagged_ranks(files@, sessions.names(), SESSION_EVENTS),
            TOP_SESSIONS as nat,
            false,
        ),
        forall|i: int| 0 <= i < rows@.len() ==> session_row_ok(#[trigger] rows@[i], files@),
{
    let items = rank_items(files, sessions, SESSION_EVENTS);
    let order = top_ranks(items, TOP_SESSIONS, false);
    let mut rows: Vec<SessionRow> = Vec::new();
    let mut i: usize = 0;
    while i < order.len()
        invariant
            i <= order@.len(),
            files_wf(files@),
            quantities_fit(files@),
            ranked_top(ranks(order@), tagged_ranks(files@, sessions.names(), SESSION_EVENTS), TOP_SESSIONS as nat, false),
            rows@.len() == i,
            forall|t: int| 0 <= t < i ==> (#[trigger] session_ranks(rows@)[t]) == ranks(order@)[t],
            forall|t: int| 0 <= t < i ==> session_row_ok(#[trigger] rows@[t], files@),
        decreases order@.len() - i,
    {
        let k = order[i].1.as_str();
        let ghost kv = order@[i as int].1@;
        proof {
            assert(tagged_ranks(files@, sessions.names(), SESSION_EVENTS).contains(ranks(order@)[i as int]));
        }
        let acc = session_accum(files, k);
        proof {
            lemma_names_list(&acc.days);
        }
        let agent = match acc.agent {
            Some(a) => a,
            None => crate::text::owned("unknown"),
        };
        let last_seen = match acc.last_seen_ms {
            Some(ms) => crate::parse::epoch_millis_to_iso(ms),
            None => crate::text::owned("n/a"),
        };
        let row = SessionRow {
            session: order[i].1.clone(),
            agent,
            events: acc.events,
            bytes: acc.bytes,
            files: acc.files,
            days: acc.days.entries.len() as u64,
            last_seen,
        };
        proof {
            let q = choose|q: int|
                0 <= q < tagged_ranks(files@, sessions.names(), SESSION_EVENTS).len()
                    && tagged_ranks(files@, sessions.names(), SESSION_EVENTS)[q] == ranks(order@)[i as int];
            assert(ranks(order@)[i as int].0 == row.events);
        }
        let ghost prev = rows@;
        let ghost rv = row;
        assert(session_ranks(seq![rv])[0] == ranks(order@)[i as int]);
        rows.push(row);
        proof {
            assert(rows@ == prev.push(rv));
            assert forall|t: int| 0 <= t < i + 1 implies (#[trigger] session_ranks(rows@)[t]) == ranks(order@)[t] by {
                if t < i {
                    assert(rows@[t] == prev[t]);
                    assert(session_ranks(prev)[t] == ranks(order@)[t]);
                } else {
                    assert(rows@[t] == rv);
                }
            }
        }
        i += 1;
    }
    assert(session_ranks(rows@) =~= ranks(order@));
    rows
}

/// The sessions among `names` reported under agent `a`.
pub open spec fn sessions_with_agent(files: Seq<ScannedFile>, names: Seq<Seq<char>>, a: Seq<char>) -> nat
    decreases names.len(),
{
    if names.len() == 0 {
        0
    } else {
        sessions_with_agent(files, names.drop_last(), a) + if session_agent_name(files, names.last()) == a {
            1nat
        } else {
            0nat
        }
    }
}

/// What the totals of agent `a` report.
pub open spec fn agent_ok(st: AgentStats, files: Seq<ScannedFile>, sessions: Seq<Seq<char>>, a: Seq<char>) -> bool {
    &&& st.events == sum_files(files, AGENT_EVENTS, a, 0)
    &&& st.bytes == sum_files(files, AGENT_BYTES, a, 0)
    &&& st.files == sum_files(files, AGENT_FILES, a, 0)
    &&& st.sessions == sessions_with_agent(files, sessions, a)
}

proof fn lemma_sessions_with_agent_bound(files: Seq<ScannedFile>, names: Seq<Seq<char>>, a: Seq<char>)
    ensures
        sessions_with_agent(files, names, a) <= names.len(),
    decreases names.len(),
{
    if names.len() > 0 {
        lemma_sessions_with_agent_bound(files, names.drop_last(), a);
    }
}

/// The totals of each agent.
fn agent_table(files: &Vec<ScannedFile>, sessions: &NamedMap<()>) -> (t: NamedMap<AgentStats>)
    requires
        files_wf(files@),
        quantities_fit(files@),
        sessions.wf(),
    ensures
        t.wf(),
        table_names(t) == agents_of(files@),
        forall|a: Seq<char>| #[trigger] table_names(t).contains(a) ==> agent_ok(t.as_map()[a], files@, sessions.names(), a),
{
    let ghost names = sessions.names();
    let mut session_agents: Vec<String> = Vec::new();
    let mut j: usize = 0;
    while j < sessions.entries.len()
        invariant
            j <= sessions.entries@.len(),
            files_wf(files@),
            names == sessions.names(),
            session_agents@.len() == j,
            forall|t: int| 0 <= t < j ==> (#[trigger] session_agents@[t])@ == session_agent_name(files@, names[t]),
        decreases sessions.entries@.len() - j,
    {
        let a = match agent_over_of(files, sessions.entries[j].0.as_str()) {
            Some(a) => a,
            None => crate::text::owned("unknown"),
        };
        session_agents.push(a);
        j += 1;
    }
    let agents = collect_names(files, 2);
    let ns = sessions.entries.len();
    assert(names.len() == ns);
    let mut entries: Vec<(String, AgentStats)> = Vec::new();
    let mut i: usize = 0;
    while i < agents.entries.len()
        invariant
            i <= agents.entries@.len(),
            files_wf(files@),
            quantities_fit(files@),
            names == sessions.names(),
            names.len() == sessions.entries@.len(),
            names.len() <= usize::MAX,
            session_agents@.len() == names.len(),
            forall|t: int| 0 <= t < names.len() ==> (#[trigger] session_agents@[t])@ == session_agent_name(files@, names[t]),
            entries@.len() == i,
            forall|t: int| 0 <= t < i ==> (#[trigger] entries@[t]).0@ == agents.entries@[t].0@
                && agent_ok(entries@[t].1, files@, names, entries@[t].0@),
        decreases agents.entries@.len() - i,
    {
        let a = agents.entries[i].0.as_str();
        let mut count: u64 = 0;
        let mut q: usize = 0;
        while q < session_agents.len()
            invariant
                q <= session_agents@.len(),
                session_agents@.len() == names.len(),
                forall|t: int| 0 <= t < names.len() ==> (#[trigger] session_agents@[t])@ == session_agent_name(files@, names[t]),
                count == sessions_with_agent(files@, names.take(q as int), a@),
                names.len() <= usize::MAX,
            decreases session_agents@.len() - q,
        {
            assert(names.take(q + 1).drop_last() =~= names.take(q as int));
            proof {
                lemma_sessions_with_agent_bound(files@, names.take(q as int), a@);
            }
            if same_text(session_agents[q].as_str(), a) {
                count = count + 1;
            }
            q += 1;
        }
        assert(names.take(names.len() as int) =~= names);
        let st = AgentStats {
            events: total_of(files, AGENT_EVENTS, a, 0),
            bytes: total_of(files, AGENT_BYTES, a, 0),
            files: total_of(files, AGENT_FILES, a, 0),
            sessions: count,
        };
        entries.push((agents.entries[i].0.clone(), st));
        i += 1;
    }
    let t = NamedMap { entries };
    proof {
        assert forall|x: int, y: int| 0 <= x < y < t.entries@.len() implies #[trigger] t.entries@[x].0@
            != #[trigger] t.entries@[y].0@ by {
            assert(agents.entries@[x].0@ != agents.entries@[y].0@);
        }
        assert forall|k: Seq<char>| #[trigger] t.has(k) == agents.has(k) by {
            if t.has(k) {
                let x = choose|x: int| 0 <= x < t.entries@.len() && #[trigger] t.entries@[x].0@ == k;
                assert(agents.entries@[x].0@ == k);
            }
            if agents.has(k) {
                let x = choose|x: int| 0 <= x < agents.entries@.len() && #[trigger] agents.entries@[x].0@ == k;
                assert(t.entries@[x].0@ == k);
            }
        }
        assert(table_names(t) =~= table_names(agents));
        assert forall|a: Seq<char>| #[trigger] table_names(t).contains(a) implies agent_ok(t.as_map()[a], files@, names, a) by {
            let x = choose|x: int| 0 <= x < t.entries@.len() && #[trigger] t.entries@[x].0@ == a;
            t.lemma_position(x);
        }
    }
    t
}

/// The use counts and names of tool rows, as ranks.
pub open spec fn tool_ranks(rows: Seq<ToolUsageRow>) -> Seq<Rank> {
    rows.map_values(|r: ToolUsageRow| (r.count, r.tool@))
}

/// How many rows the tool table keeps.
pub const TOP_TOOLS: usize = 20;

/// The most used tools, most uses first.
fn tool_rows(files: &Vec<ScannedFile>) -> (rows: Vec<ToolUsageRow>)
    requires
        files_wf(files@),
        quantities_fit(files@),
    ensures
        exists|names: Seq<Seq<char>>|
            #![trigger lists(names, tools_of(files@))]
            lists(names, tools_of(files@)) && ranked_top(
                tool_ranks(rows@),
                tagged_ranks(files@, names, TOOL_USES),
                TOP_TOOLS as nat,
                false,
            ),
{
    let tools = collect_names(files, 3);
    let items = rank_items(files, &tools, TOOL_USES);
    let order = top_ranks(items, TOP_TOOLS, false);
    let mut rows: Vec<ToolUsageRow> = Vec::new();
    let mut i: usize = 0;
    while i < order.len()
        invariant
            i <= order@.len(),
            rows@.len() == i,
            forall|t: int| 0 <= t < i ==> (#[trigger] tool_ranks(rows@)[t]) == ranks(order@)[t],
        decreases order@.len() - i,
    {
        let row = ToolUsageRow { tool: order[i].1.clone(), count: order[i].0 };
        let ghost prev = rows@;
        let ghost rv = row;
        assert((rv.count, rv.tool@) == ranks(order@)[i as int]);
        rows.push(row);
        proof {
            assert(rows@ == prev.push(rv));
            assert forall|t: int| 0 <= t < i + 1 implies (#[trigger] tool_ranks(rows@)[t]) == ranks(order@)[t] by {
                if t < i {
                    assert(rows@[t] == prev[t]);
                    assert(tool_ranks(prev)[t] == ranks(order@)[t]);
                } else {
                    assert(rows@[t] == rv);
                }
            }
        }
        i += 1;
    }
    assert(tool_ranks(rows@) =~= ranks(order@));
    proof {
        lemma_names_list(&tools);
    }
    rows
}

/// What a hook row reports of its command.
pub open spec fn hook_row_ok(r: HookPerfRow, files: Seq<ScannedFile>) -> bool {
    &&& r.total_ms == int_sum(files, 4, r.command@)
    &&& r.avg_ms == if r.count > 0 {
        crate::scan::quot(r.total_ms as int, r.count as int)
    } else {
        0
    }
}

/// The runs and commands of hook rows, as ranks.
pub open spec fn hook_ranks(rows: Seq<HookPerfRow>) -> Seq<Rank> {
    rows.map_values(|r: HookPerfRow| (r.count, r.command@))
}

/// Whether each hook command has at most `i64::MAX` runs.
pub open spec fn hook_runs_fit(files: Seq<ScannedFile>) -> bool {
    forall|c: Seq<char>| #[trigger] sum_files(files, HOOK_RUNS, c, 0) <= i64::MAX
}

/// Every hook command, most runs first.
fn hook_rows(files: &Vec<ScannedFile>) -> (rows: Vec<HookPerfRow>)
    requires
        files_wf(files@),
        quantities_fit(files@),
        int_sums_fit(files@),
        hook_runs_fit(files@),
    ensures
        exists|names: Seq<Seq<char>>|
            #![trigger lists(names, hooks_of(files@))]
            lists(names, hooks_of(files@)) && ranked_top(
                hook_ranks(rows@),
                tagged_ranks(files@, names, HOOK_RUNS),
                names.len(),
                false,
            ),
        forall|i: int| 0 <= i < rows@.len() ==> hook_row_ok(#[trigger] rows@[i], files@),
{
    let hooks = collect_names(files, 4);
    let items = rank_items(files, &hooks, HOOK_RUNS);
    let order = top_ranks(items, hooks.entries.len(), false);
    let mut rows: Vec<HookPerfRow> = Vec::new();
    let mut i: usize = 0;
    while i < order.len()
        invariant
            i <= order@.len(),
            files_wf(files@),
            int_sums_fit(files@),
            hook_runs_fit(files@),
            ranked_top(ranks(order@), tagged_ranks(files@, hooks.names(), HOOK_RUNS), hooks.entries@.len() as nat, false),
            rows@.len() == i,
            forall|t: int| 0 <= t < i ==> (#[trigger] hook_ranks(rows@)[t]) == ranks(order@)[t],
            forall|t: int| 0 <= t < i ==> hook_row_ok(#[trigger] rows@[t], files@),
        decreases order@.len() - i,
    {
        let c = order[i].1.as_str();
        let count = order[i].0;
        proof {
            assert(tagged_ranks(files@, hooks.names(), HOOK_RUNS).contains(ranks(order@)[i as int]));
            let q = choose|q: int|
                0 <= q < tagged_ranks(files@, hooks.names(), HOOK_RUNS).len()
                    && tagged_ranks(files@, hooks.names(), HOOK_RUNS)[q] == ranks(order@)[i as int];
            assert(count as int == sum_files(files@, HOOK_RUNS, c@, 0));
        }
        let total_ms = int_total(files, 4, c);
        let avg_ms = if count > 0 {
            total_ms / (count as i64)
        } else {
            0
        };
        let row = HookPerfRow { command: order[i].1.clone(), count, avg_ms, total_ms };
        let ghost prev = rows@;
        let ghost rv = row;
        assert((rv.count, rv.command@) == ranks(order@)[i as int]);
        rows.push(row);
        proof {
            assert(rows@ == prev.push(rv));
            assert forall|t: int| 0 <= t < i + 1 implies (#[trigger] hook_ranks(rows@)[t]) == ranks(order@)[t] by {
                if t < i {
                    assert(rows@[t] == prev[t]);
                    assert(hook_ranks(prev)[t] == ranks(order@)[t]);
                } else {
                    assert(rows@[t] == rv);
                }
            }
        }
        i += 1;
    }
    assert(hook_ranks(rows@) =~= ranks(order@));
    proof {
        lemma_names_list(&hooks);
    }
    rows
}


/// The events of session `k` in the first `n` hours of the day.
pub open spec fn hour_sum(files: Seq<ScannedFile>, k: Seq<char>, n: int) -> nat
    decreases n,
{
    if n <= 0 {
        0
    } else {
        hour_sum(files, k, n - 1) + sum_files(files, SESSION_HOUR, k, n - 1)
    }
}

/// Whether every session's events over the day fit in `u64`.
pub open spec fn hours_fit(files: Seq<ScannedFile>) -> bool {
    forall|k: Seq<char>| #[trigger] hour_sum(files, k, 24) <= u64::MAX
}

/// The sessions with their events over the day, as ranks.
pub open spec fn day_total_ranks(files: Seq<ScannedFile>, names: Seq<Seq<char>>) -> Seq<Rank> {
    names.map_values(|k: Seq<char>| (hour_sum(files, k, 24) as u64, k))
}

/// The timeline rows with their events over the day, as ranks.
pub open spec fn timeline_ranks(rows: Seq<SessionTimelineRow>, files: Seq<ScannedFile>) -> Seq<Rank> {
    rows.map_values(|r: SessionTimelineRow| (hour_sum(files, r.session@, 24) as u64, r.session@))
}

/// What a timeline row reports: the session's events in each hour of the day.
pub open spec fn timeline_row_ok(r: SessionTimelineRow, files: Seq<ScannedFile>) -> bool {
    &&& r.hours@.len() == 24
    &&& forall|h: int| 0 <= h < 24 ==> #[trigger] r.hours@[h] == sum_files(files, SESSION_HOUR, r.session@, h)
}

/// How many sessions the timeline shows.
pub const TIMELINE_SESSIONS: usize = 8;

proof fn lemma_hour_sum_monotone(files: Seq<ScannedFile>, k: Seq<char>, n: int)
    requires
        0 <= n <= 24,
    ensures
        hour_sum(files, k, n) <= hour_sum(files, k, 24),
    decreases 24 - n,
{
    if n < 24 {
        lemma_hour_sum_monotone(files, k, n + 1);
    }
}

fn hours_of(files: &Vec<ScannedFile>, k: &str) -> (r: (Vec<u64>, u64))
    requires
        files_wf(files@),
        quantities_fit(files@),
        hours_fit(files@),
    ensures
        r.0@.len() == 24,
        forall|h: int| 0 <= h < 24 ==> #[trigger] r.0@[h] == sum_files(files@, SESSION_HOUR, k@, h),
        r.1 == hour_sum(files@, k@, 24),
{
    let mut hours: Vec<u64> = Vec::new();
    let mut total: u64 = 0;
    let mut h: usize = 0;
    while h < 24
        invariant
            h <= 24,
            files_wf(files@),
            quantities_fit(files@),
            hours_fit(files@),
            hours@.len() == h,
            forall|t: int| 0 <= t < h ==> #[trigger] hours@[t] == sum_files(files@, SESSION_HOUR, k@, t),
            total == hour_sum(files@, k@, h as int),
        decreases 24 - h,
    {
        let c = total_of(files, SESSION_HOUR, k, h);
        proof {
            lemma_hour_sum_monotone(files@, k@, h + 1);
        }
        hours.push(c);
        total = total + c;
        h += 1;
    }
    (hours, total)
}

/// The sessions with the most events over the day, with their events per hour.
fn timeline_rows(files: &Vec<ScannedFile>, sessions: &NamedMap<()>) -> (rows: Vec<SessionTimelineRow>)
    requires
        files_wf(files@),
        quantities_fit(files@),
        hours_fit(files@),
        sessions.wf(),
    ensures
        ranked_top(
            timeline_ranks(rows@, files@),
            day_total_ranks(files@, sessions.names()),
            TIMELINE_SESSIONS as nat,
            false,
        ),
        forall|i: int| 0 <= i < rows@.len() ==> timeline_row_ok(#[trigger] rows@[i], files@),
{
    let ghost names = sessions.names();
    let mut items: Vec<(u64, String)> = Vec::new();
    let mut j: usize = 0;
    while j < sessions.entries.len()
        invariant
            j <= sessions.entries@.len(),
            files_wf(files@),
            quantities_fit(files@),
            hours_fit(files@),
            names == sessions.names(),
            items@.len() == j,
            ranks(items@) == day_total_ranks(files@, names).take(j as int),
        decreases sessions.entries@.len() - j,
    {
        let (_, total) = hours_of(files, sessions.entries[j].0.as_str());
        let pair = (total, sessions.entries[j].0.clone());
        let ghost pv = pair;
        let ghost prev = items@;
        items.push(pair);
        assert(items@ == prev.push(pv));
        assert(ranks(items@) =~= day_total_ranks(files@, names).take(j + 1)) by {
            assert(ranks(items@)[j as int] == (pv.0, pv.1@));
            assert(ranks(items@).take(j as int) =~= ranks(prev));
        }
        j += 1;
    }
    assert(day_total_ranks(files@, names).take(j as int) =~= day_total_ranks(files@, names));
    proof {
        let r = ranks(items@);
        assert forall|a: int, b: int| 0 <= a < b < r.len() implies #[trigger] r[a].1 != #[trigger] r[b].1 by {
            assert(r[a].1 == sessions.entries@[a].0@);
            assert(r[b].1 == sessions.entries@[b].0@);
        }
    }
    let order = top_ranks(items, TIMELINE_SESSIONS, false);
    let mut rows: Vec<SessionTimelineRow> = Vec::new();
    let mut i: usize = 0;
    while i < order.len()
        invariant
            i <= order@.len(),
            files_wf(files@),
            quantities_fit(files@),
            hours_fit(files@),
            ranked_top(ranks(order@), day_total_ranks(files@, names), TIMELINE_SESSIONS as nat, false),
            rows@.len() == i,
            forall|t: int| 0 <= t < i ==> (#[trigger] timeline_ranks(rows@, files@)[t]) == ranks(order@)[t],
            forall|t: int| 0 <= t < i ==> timeline_row_ok(#[trigger] rows@[t], files@),
        decreases order@.len() - i,
    {
        let (hours, total) = hours_of(files, order[i].1.as_str());
        proof {
            assert(day_total_ranks(files@, names).contains(ranks(order@)[i as int]));
            let q = choose|q: int| 0 <= q < day_total_ranks(files@, names).len() && day_total_ranks(files@, names)[q] == ranks(order@)[i as int];
            assert(ranks(order@)[i as int].0 == total);
        }
        let row = SessionTimelineRow { session: order[i].1.clone(), hours };
        let ghost prev = rows@;
        let ghost rv = row;
        assert((hour_sum(files@, rv.session@, 24) as u64, rv.session@) == ranks(order@)[i as int]);
        rows.push(row);
        proof {
            assert(rows@ == prev.push(rv));
            assert forall|t: int| 0 <= t < i + 1 implies (#[trigger] timeline_ranks(rows@, files@)[t]) == ranks(order@)[t] by {
                if t < i {
                    assert(rows@[t] == prev[t]);
                    assert(timeline_ranks(prev, files@)[t] == ranks(order@)[t]);
                } else {
                    assert(rows@[t] == rv);
                }
            }
        }
        i += 1;
    }
    assert(timeline_ranks(rows@, files@) =~= ranks(order@));
    rows
}

/// A recent event's values without its key.
pub open spec fn shown_event(r: RecentView) -> (Seq<char>, Seq<char>, Seq<char>, Seq<char>, Seq<char>) {
    (r.1, r.2, r.3, r.4, r.5)
}

/// The values of a recent event row.
pub open spec fn event_values(e: RecentEvent) -> (Seq<char>, Seq<char>, Seq<char>, Seq<char>, Seq<char>) {
    (e.timestamp@, e.session@, e.agent@, e.event_type@, e.preview@)
}

/// The `RECENT_LIMIT` most recent events of a pool, newest first.
pub open spec fn kept_recent(pool: Seq<RecentView>) -> Seq<RecentView> {
    let sorted = by_recency(pool);
    if sorted.len() > RECENT_LIMIT { sorted.take(RECENT_LIMIT as int) } else { sorted }
}

/// Whether `rows` shows the events of `kept` in order, without their keys.
pub open spec fn shows_events(rows: Seq<RecentEvent>, kept: Seq<RecentView>) -> bool {
    &&& rows.len() == kept.len()
    &&& forall|t: int| 0 <= t < rows.len() ==> event_values(#[trigger] rows[t]) == shown_event(kept[t])
}

/// The `RECENT_LIMIT` most recent of `pool`, newest first, without their keys.
fn recent_rows(pool: Vec<RecentEventAccum>) -> (rows: Vec<RecentEvent>)
    ensures
        shows_events(rows@, kept_recent(pool_view(pool@))),
{
    let mut sorted = sort_by_recency(pool);
    if sorted.len() > RECENT_LIMIT {
        let ghost full = sorted@;
        sorted.truncate(RECENT_LIMIT);
        assert(pool_view(sorted@) =~= pool_view(full).take(RECENT_LIMIT as int));
    }
    let ghost kept = pool_view(sorted@);
    assert(kept == kept_recent(pool_view(pool@)));
    let mut rows: Vec<RecentEvent> = Vec::new();
    let mut i: usize = 0;
    while i < sorted.len()
        invariant
            i <= sorted@.len(),
            kept == pool_view(sorted@),
            rows@.len() == i,
            forall|t: int| 0 <= t < i ==> event_values(#[trigger] rows@[t]) == shown_event(kept[t]),
        decreases sorted@.len() - i,
    {
        let a = &sorted[i];
        assert(kept[i as int] == recent_view(sorted@[i as int]));
        let e = RecentEvent {
            timestamp: a.event.timestamp.clone(),
            session: a.event.session.clone(),
            agent: a.event.agent.clone(),
            event_type: a.event.event_type.clone(),
            preview: a.event.preview.clone(),
        };
        rows.push(e);
        i += 1;
    }
    rows
}

/// Whether every sum that the summary accumulates fits its integer type.
pub open spec fn summary_fits(files: Seq<ScannedFile>) -> bool {
    &&& files_wf(files)
    &&& plain_totals_fit(files)
    &&& int_sums_fit(files)
    &&& quantities_fit(files)
    &&& hook_runs_fit(files)
    &&& hours_fit(files)
    &&& crate::durations::sums_fit(durations_of(files))
    &&& durations_of(files).len() <= i64::MAX
}

fn plain_totals(files: &Vec<ScannedFile>) -> (t: PlainTotals)
    requires
        plain_totals_fit(files@),
    ensures
        plain_matches(t, files@),
{
    let mut t = PlainTotals {
        files: 0,
        events: 0,
        bytes: 0,
        newest: None,
        json: TypeStats { events: 0, bytes: 0, files: 0 },
        text: TypeStats { events: 0, bytes: 0, files: 0 },
        tokens: TokenUsage::default(),
        durations: Vec::new(),
        api_errors: 0,
        tool_errors: 0,
        recent: Vec::new(),
    };
    assert(files@.take(0) =~= Seq::<ScannedFile>::empty());
    assert(pool_view(t.recent@) =~= Seq::<RecentView>::empty());
    assert(t.durations@ =~= durations_of(files@.take(0)));
    let mut i: usize = 0;
    while i < files.len()
        invariant
            i <= files@.len(),
            plain_totals_fit(files@),
            plain_matches(t, files@.take(i as int)),
        decreases files@.len() - i,
    {
        add_plain(&mut t, Ghost(files@), i, &files[i]);
        i += 1;
    }
    assert(files@.take(files@.len() as int) =~= files@);
    t
}

// ---------------------------------------------------------------------------
// The summary

/// What the totals and type buckets of a summary report.
pub open spec fn totals_ok(s: DashboardSummary, files: Seq<ScannedFile>) -> bool {
    &&& s.totals.files == files.len()
    &&& s.totals.events == events_of(files)
    &&& s.totals.bytes == bytes_of(files)
    &&& s.totals.days == days_of(files).len()
    &&& s.totals.sessions == sessions_of(files).len()
    &&& match newest_of(files) {
        Some((_, shown)) => s.totals.newest_file_mtime matches Some(t) && t@ == shown,
        None => s.totals.newest_file_mtime is None,
    }
    &&& (s.types.json.events as nat, s.types.json.bytes as nat, s.types.json.files as nat) == type_totals(files, true)
    &&& (s.types.text.events as nat, s.types.text.bytes as nat, s.types.text.files as nat) == type_totals(files, false)
}

/// What the day table and the token usage of a summary report.
pub open spec fn days_ok(s: DashboardSummary, files: Seq<ScannedFile>) -> bool {
    &&& exists|names: Seq<Seq<char>>|
        #![trigger lists(names, days_of(files))]
        lists(names, days_of(files)) && ranked_top(day_ranks(s.days@), tagged_ranks(files, names, 255), names.len(), true)
    &&& forall|i: int| 0 <= i < s.days@.len() ==> day_row_ok(#[trigger] s.days@[i], files)
    &&& s.token_usage.daily@.len() == s.days@.len()
    &&& forall|i: int| 0 <= i < s.token_usage.daily@.len() ==> #[trigger] s.token_usage.daily@[i].day@ == s.days@[i].day@
        && day_tokens_ok(s.token_usage.daily@[i], files)
    &&& s.token_usage.total_input == file_token_totals(files).input_tokens
    &&& s.token_usage.total_output == file_token_totals(files).output_tokens
    &&& s.token_usage.total_cache_read == file_token_totals(files).cache_read_input_tokens
    &&& s.token_usage.total_cache_creation == file_token_totals(files).cache_creation_input_tokens
}

/// What the session table, the agent table and the timeline of a summary report, with
/// `names` listing the sessions.
pub open spec fn sessions_ok(s: DashboardSummary, files: Seq<ScannedFile>, names: Seq<Seq<char>>) -> bool {
    &&& lists(names, sessions_of(files))
    &&& ranked_top(session_ranks(s.top_sessions@), tagged_ranks(files, names, SESSION_EVENTS), TOP_SESSIONS as nat, false)
    &&& forall|i: int| 0 <= i < s.top_sessions@.len() ==> session_row_ok(#[trigger] s.top_sessions@[i], files)
    &&& s.agents.wf()
    &&& table_names(s.agents) == agents_of(files)
    &&& forall|a: Seq<char>| #[trigger] table_names(s.agents).contains(a) ==> agent_ok(s.agents.as_map()[a], files, names, a)
    &&& ranked_top(timeline_ranks(s.session_timeline@, files), day_total_ranks(files, names), TIMELINE_SESSIONS as nat, false)
    &&& forall|i: int| 0 <= i < s.session_timeline@.len() ==> timeline_row_ok(#[trigger] s.session_timeline@[i], files)
}

/// What the tool, hook, duration, cache, error and recent-event parts of a summary report.
pub open spec fn activity_ok(s: DashboardSummary, files: Seq<ScannedFile>) -> bool {
    &&& exists|names: Seq<Seq<char>>|
        #![trigger lists(names, tools_of(files))]
        lists(names, tools_of(files)) && ranked_top(tool_ranks(s.tool_usage@), tagged_ranks(files, names, TOOL_USES), TOP_TOOLS as nat, false)
    &&& exists|names: Seq<Seq<char>>|
        #![trigger lists(names, hooks_of(files))]
        lists(names, hooks_of(files)) && ranked_top(hook_ranks(s.hook_performance@), tagged_ranks(files, names, HOOK_RUNS), names.len(), false)
    &&& forall|i: int| 0 <= i < s.hook_performance@.len() ==> hook_row_ok(#[trigger] s.hook_performance@[i], files)
    &&& summarizes_durations(s.turn_durations, durations_of(files))
    &&& s.cache_efficiency.total_cache_read == file_token_totals(files).cache_read_input_tokens
    &&& s.cache_efficiency.total_cache_creation == file_token_totals(files).cache_creation_input_tokens
    &&& s.error_rate.api_errors == api_errors_of(files)
    &&& s.error_rate.tool_errors == tool_errors_of(files)
    &&& s.error_rate.total_events == events_of(files)
    &&& shows_events(s.recent_events@, kept_recent(pool_after_events(seq![], recent_of(files))))
}

/// Whether `s` is the summary of `files` under `root`, made at `generated_at`.
pub open spec fn summary_matches(s: DashboardSummary, root: Seq<char>, generated_at: Seq<char>, files: Seq<ScannedFile>) -> bool {
    &&& s.root@ == root
    &&& s.generated_at@ == generated_at
    &&& totals_ok(s, files)
    &&& days_ok(s, files)
    &&& exists|names: Seq<Seq<char>>| #![trigger lists(names, sessions_of(files))] lists(names, sessions_of(files)) && sessions_ok(s, files, names)
    &&& activity_ok(s, files)
}

/// The dashboard summary of the scanned event files under `root`, made at `generated_at`.
pub fn summarize(root: String, generated_at: String, files: &Vec<ScannedFile>) -> (s: DashboardSummary)
    requires
        summary_fits(files@),
    ensures
        summary_matches(s, root@, generated_at@, files@),
{
    let t = plain_totals(files);
    let sessions = collect_names(files, 0);
    let days = collect_names(files, 1);
    proof {
        lemma_names_list(&sessions);
        lemma_names_list(&days);
    }
    let (day_list, daily) = day_rows(files);
    let top_sessions = session_rows(files, &sessions);
    let agents = agent_table(files, &sessions);
    let session_timeline = timeline_rows(files, &sessions);
    let tool_usage = tool_rows(files);
    let hook_performance = hook_rows(files);
    let turn_durations = build_turn_duration_summary(t.durations.as_slice());
    let recent_events = recent_rows(t.recent);
    let newest_file_mtime = match t.newest {
        Some((_, shown)) => Some(shown),
        None => None,
    };
    let s = DashboardSummary {
        generated_at,
        root,
        totals: Totals {
            days: days.entries.len() as u64,
            sessions: sessions.entries.len() as u64,
            files: t.files,
            events: t.events,
            bytes: t.bytes,
            newest_file_mtime,
        },
        types: TypeBuckets { json: t.json, text: t.text },
        days: day_list,
        top_sessions,
        recent_events,
        agents,
        token_usage: TokenUsageSummary {
            total_input: t.tokens.input_tokens,
            total_output: t.tokens.output_tokens,
            total_cache_read: t.tokens.cache_read_input_tokens,
            total_cache_creation: t.tokens.cache_creation_input_tokens,
            daily,
        },
        tool_usage,
        turn_durations,
        session_timeline,
        cache_efficiency: CacheEfficiency {
            total_cache_read: t.tokens.cache_read_input_tokens,
            total_cache_creation: t.tokens.cache_creation_input_tokens,
        },
        error_rate: ErrorRate {
            api_errors: t.api_errors,
            tool_errors: t.tool_errors,
            total_events: t.events,
        },
        hook_performance,
    };
    assert(sessions_ok(s, files@, sessions.names()));
    s
}

/// The dashboard summary of the scanned event files under `root`, stamped with the
/// current time.
pub fn build_summary(root: String, files: &Vec<ScannedFile>) -> (s: DashboardSummary)
    requires
        summary_fits(files@),
    ensures
        summary_matches(s, root@, s.generated_at@, files@),
        crate::clock::utc_millis_text(s.generated_at@),
{
    summarize(root, crate::clock::now_iso(), files)
}

// ---------------------------------------------------------------------------
// Laws of the summary

proof fn lemma_type_totals_split(files: Seq<ScannedFile>)
    ensures
        type_totals(files, true).0 + type_totals(files, false).0 == events_of(files),
        type_totals(files, true).1 + type_totals(files, false).1 == bytes_of(files),
        type_totals(files, true).2 + type_totals(files, false).2 == files.len(),
    decreases files.len(),
{
    if files.len() > 0 {
        lemma_type_totals_split(files.drop_last());
    }
}

/// The json and text buckets of a summary split its totals: their files, events and
/// bytes add up to all files, events and bytes.
pub proof fn lemma_type_buckets_split_totals(s: DashboardSummary, root: Seq<char>, generated_at: Seq<char>, files: Seq<ScannedFile>)
    requires
        summary_matches(s, root, generated_at, files),
    ensures
        s.types.json.files + s.types.text.files == s.totals.files,
        s.types.json.events + s.types.text.events == s.totals.events,
        s.types.json.bytes + s.types.text.bytes == s.totals.bytes,
{
    lemma_type_totals_split(files);
}

/// The quantity `tag` summed over the names `names`.
pub open spec fn sum_over(files: Seq<ScannedFile>, tag: u8, names: Seq<Seq<char>>) -> nat
    decreases names.len(),
{
    if names.len() == 0 {
        0
    } else {
        sum_over(files, tag, names.drop_last()) + sum_files(files, tag, names.last(), 0)
    }
}

/// The quantity `tag` of one file summed over the names `names`.
pub open spec fn file_over(f: ScannedFile, tag: u8, names: Seq<Seq<char>>) -> nat
    decreases names.len(),
{
    if names.len() == 0 {
        0
    } else {
        file_over(f, tag, names.drop_last()) + part(f, tag, names.last(), 0)
    }
}

proof fn lemma_sum_over_step(files: Seq<ScannedFile>, tag: u8, names: Seq<Seq<char>>)
    requires
        files.len() > 0,
    ensures
        sum_over(files, tag, names) == sum_over(files.drop_last(), tag, names) + file_over(files.last(), tag, names),
    decreases names.len(),
{
    if names.len() > 0 {
        lemma_sum_over_step(files, tag, names.drop_last());
    }
}

proof fn lemma_sum_over_empty(files: Seq<ScannedFile>, tag: u8, names: Seq<Seq<char>>)
    requires
        files.len() == 0,
    ensures
        sum_over(files, tag, names) == 0,
    decreases names.len(),
{
    if names.len() > 0 {
        lemma_sum_over_empty(files, tag, names.drop_last());
    }
}

proof fn lemma_file_over_day(f: ScannedFile, tag: u8, names: Seq<Seq<char>>)
    requires
        tag == DAY_EVENTS || tag == DAY_BYTES || tag == DAY_FILES,
        names.no_duplicates(),
    ensures
        file_over(f, tag, names) == if names.contains(f.event_file.day@) { part(f, tag, f.event_file.day@, 0) } else { 0 },
    decreases names.len(),
{
    if names.len() > 0 {
        let p = names.drop_last();
        assert(p.no_duplicates());
        lemma_file_over_day(f, tag, p);
        let d = f.event_file.day@;
        if names.last() == d {
            assert(!p.contains(d));
        }
        assert(names.contains(d) <==> p.contains(d) || names.last() == d) by {
            if p.contains(d) {
                let j = choose|j: int| 0 <= j < p.len() && p[j] == d;
                assert(names[j] == d);
            }
            if names.contains(d) && names.last() != d {
                let j = choose|j: int| 0 <= j < names.len() && names[j] == d;
                assert(p[j] == d);
            }
        }
    }
}

proof fn lemma_days_cover(files: Seq<ScannedFile>, names: Seq<Seq<char>>)
    requires
        names.no_duplicates(),
        forall|d: Seq<char>| #[trigger] days_of(files).contains(d) ==> names.contains(d),
    ensures
        sum_over(files, DAY_EVENTS, names) == events_of(files),
        sum_over(files, DAY_BYTES, names) == bytes_of(files),
        sum_over(files, DAY_FILES, names) == files.len(),
    decreases files.len(),
{
    if files.len() == 0 {
        lemma_sum_over_empty(files, DAY_EVENTS, names);
        lemma_sum_over_empty(files, DAY_BYTES, names);
        lemma_sum_over_empty(files, DAY_FILES, names);
    } else {
        let p = files.drop_last();
        let f = files.last();
        assert forall|d: Seq<char>| #[trigger] days_of(p).contains(d) implies names.contains(d) by {
            assert(days_of(files).contains(d));
        }
        lemma_days_cover(p, names);
        assert(days_of(files).contains(f.event_file.day@));
        lemma_sum_over_step(files, DAY_EVENTS, names);
        lemma_sum_over_step(files, DAY_BYTES, names);
        lemma_sum_over_step(files, DAY_FILES, names);
        lemma_file_over_day(f, DAY_EVENTS, names);
        lemma_file_over_day(f, DAY_BYTES, names);
        lemma_file_over_day(f, DAY_FILES, names);
    }
}

/// Every file belongs to exactly one day: over the days of the files, the days' events,
/// bytes and files add up to all events, bytes and files.
pub proof fn lemma_days_split_totals(files: Seq<ScannedFile>, days: Seq<Seq<char>>)
    requires
        lists(days, days_of(files)),
    ensures
        sum_over(files, DAY_EVENTS, days) == events_of(files),
        sum_over(files, DAY_BYTES, days) == bytes_of(files),
        sum_over(files, DAY_FILES, days) == files.len(),
{
    assert forall|d: Seq<char>| #[trigger] days_of(files).contains(d) implies days.contains(d) by {
        assert(days.to_set().contains(d));
    }
    lemma_days_cover(files, days);
}

/// The days that the day rows name, in order.
pub open spec fn row_days(rows: Seq<DayRow>) -> Seq<Seq<char>> {
    rows.map_values(|r: DayRow| r.day@)
}

/// The events (`which == 0`), bytes (`1`) or files (`2`) of the day rows, added up.
pub open spec fn day_rows_total(rows: Seq<DayRow>, which: int) -> nat
    decreases rows.len(),
{
    if rows.len() == 0 {
        0
    } else {
        let r = rows.last();
        day_rows_total(rows.drop_last(), which) + if which == 0 {
            r.events as nat
        } else if which == 1 {
            r.bytes as nat
        } else {
            r.files as nat
        }
    }
}

proof fn lemma_rows_total_over(rows: Seq<DayRow>, files: Seq<ScannedFile>)
    requires
        forall|i: int| 0 <= i < rows.len() ==> day_row_ok(#[trigger] rows[i], files),
    ensures
        day_rows_total(rows, 0) == sum_over(files, DAY_EVENTS, row_days(rows)),
        day_rows_total(rows, 1) == sum_over(files, DAY_BYTES, row_days(rows)),
        day_rows_total(rows, 2) == sum_over(files, DAY_FILES, row_days(rows)),
    decreases rows.len(),
{
    if rows.len() > 0 {
        let p = rows.drop_last();
        assert forall|i: int| 0 <= i < p.len() implies day_row_ok(#[trigger] p[i], files) by {
            assert(p[i] == rows[i]);
        }
        lemma_rows_total_over(p, files);
        assert(row_days(rows).drop_last() =~= row_days(p));
        assert(day_row_ok(rows[rows.len() - 1], files));
    }
}

/// The day rows of a summary name each day of the files once, and their events, bytes
/// and files add up to the summary's totals.
pub proof fn lemma_day_rows_split_totals(s: DashboardSummary, root: Seq<char>, generated_at: Seq<char>, files: Seq<ScannedFile>)
    requires
        summary_matches(s, root, generated_at, files),
    ensures
        row_days(s.days@).no_duplicates(),
        row_days(s.days@).to_set() == days_of(files),
        day_rows_total(s.days@, 0) == s.totals.events,
        day_rows_total(s.days@, 1) == s.totals.bytes,
        day_rows_total(s.days@, 2) == s.totals.files,
{
    let days = choose|names: Seq<Seq<char>>|
        #![trigger lists(names, days_of(files))]
        lists(names, days_of(files)) && ranked_top(day_ranks(s.days@), tagged_ranks(files, names, 255), names.len(), true);
    let rows = s.days@;
    let rd = row_days(rows);
    let top = day_ranks(rows);
    let all = tagged_ranks(files, days, 255);
    assert(top.len() == rows.len());
    assert forall|i: int| 0 <= i < rows.len() implies #[trigger] top[i] == (0u64, rd[i]) by {}
    assert(rd.no_duplicates()) by {
        assert forall|i: int, j: int| 0 <= i < rd.len() && 0 <= j < rd.len() && i != j implies rd[i] != rd[j] by {
            if i < j {
                assert(rank_before(top[i], top[j], true));
                lemma_lex_irreflexive(rd[i]);
            } else {
                assert(rank_before(top[j], top[i], true));
                lemma_lex_irreflexive(rd[j]);
            }
        }
    }
    assert(rd.to_set().subset_of(days.to_set())) by {
        assert forall|d: Seq<char>| rd.to_set().contains(d) implies days.to_set().contains(d) by {
            let i = choose|i: int| 0 <= i < rd.len() && rd[i] == d;
            assert(all.contains(top[i]));
            let q = choose|q: int| 0 <= q < all.len() && all[q] == top[i];
            assert(all[q].1 == days[q]);
            assert(days.contains(days[q]));
        }
    }
    rd.unique_seq_to_set();
    days.unique_seq_to_set();
    lemma_subset_equality(rd.to_set(), days.to_set());
    assert forall|d: Seq<char>| #[trigger] days_of(files).contains(d) implies rd.contains(d) by {
        assert(rd.to_set().contains(d));
    }
    lemma_days_cover(files, rd);
    lemma_rows_total_over(rows, files);
}

/// The sessions among `names` counted under the agents `agents`, agent by agent.
pub open spec fn agent_sessions_over(files: Seq<ScannedFile>, names: Seq<Seq<char>>, agents: Seq<Seq<char>>) -> nat
    decreases agents.len(),
{
    if agents.len() == 0 {
        0
    } else {
        agent_sessions_over(files, names, agents.drop_last()) + sessions_with_agent(files, names, agents.last())
    }
}

/// How often `x` occurs in `s`.
pub open spec fn times_in(s: Seq<Seq<char>>, x: Seq<char>) -> nat
    decreases s.len(),
{
    if s.len() == 0 {
        0
    } else {
        times_in(s.drop_last(), x) + if s.last() == x { 1nat } else { 0nat }
    }
}

proof fn lemma_times_in_once(s: Seq<Seq<char>>, x: Seq<char>)
    requires
        s.no_duplicates(),
        s.contains(x),
    ensures
        times_in(s, x) == 1,
    decreases s.len(),
{
    let p = s.drop_last();
    assert(p.no_duplicates());
    if s.last() == x {
        assert(!p.contains(x));
        lemma_times_in_absent(p, x);
    } else {
        let j = choose|j: int| 0 <= j < s.len() && s[j] == x;
        assert(p[j] == x);
        lemma_times_in_once(p, x);
    }
}

proof fn lemma_times_in_absent(s: Seq<Seq<char>>, x: Seq<char>)
    requires
        !s.contains(x),
    ensures
        times_in(s, x) == 0,
    decreases s.len(),
{
    if s.len() > 0 {
        let p = s.drop_last();
        assert(!p.contains(x)) by {
            if p.contains(x) {
                let j = choose|j: int| 0 <= j < p.len() && p[j] == x;
                assert(s[j] == x);
            }
        }
        assert(s.last() != x) by {
            assert(s[s.len() - 1] == s.last());
        }
        lemma_times_in_absent(p, x);
    }
}

proof fn lemma_agent_sessions_step(files: Seq<ScannedFile>, names: Seq<Seq<char>>, agents: Seq<Seq<char>>)
    requires
        names.len() > 0,
    ensures
        agent_sessions_over(files, names, agents) == agent_sessions_over(files, names.drop_last(), agents)
            + times_in(agents, session_agent_name(files, names.last())),
    decreases agents.len(),
{
    if agents.len() > 0 {
        lemma_agent_sessions_step(files, names, agents.drop_last());
    }
}

proof fn lemma_agent_sessions_empty(files: Seq<ScannedFile>, names: Seq<Seq<char>>, agents: Seq<Seq<char>>)
    requires
        names.len() == 0,
    ensures
        agent_sessions_over(files, names, agents) == 0,
    decreases agents.len(),
{
    if agents.len() > 0 {
        lemma_agent_sessions_empty(files, names, agents.drop_last());
    }
}

proof fn lemma_agent_sessions_cover(files: Seq<ScannedFile>, names: Seq<Seq<char>>, agents: Seq<Seq<char>>)
    requires
        agents.no_duplicates(),
        forall|i: int| 0 <= i < names.len() ==> agents.contains(session_agent_name(files, #[trigger] names[i])),
    ensures
        agent_sessions_over(files, names, agents) == names.len(),
    decreases names.len(),
{
    if names.len() == 0 {
        lemma_agent_sessions_empty(files, names, agents);
    } else {
        let p = names.drop_last();
        assert forall|i: int| 0 <= i < p.len() implies agents.contains(session_agent_name(files, #[trigger] p[i])) by {
            assert(p[i] == names[i]);
        }
        lemma_agent_sessions_cover(files, p, agents);
        lemma_agent_sessions_step(files, names, agents);
        assert(names[names.len() - 1] == names.last());
        lemma_times_in_once(agents, session_agent_name(files, names.last()));
    }
}

proof fn lemma_agent_over_unseen(files: Seq<ScannedFile>, k: Seq<char>)
    requires
        !sessions_of(files).contains(k),
    ensures
        agent_over(files, k) is None,
    decreases files.len(),
{
    if files.len() > 0 {
        lemma_agent_over_unseen(files.drop_last(), k);
    }
}

proof fn lemma_entry_agent(f: ScannedFile, k: Seq<char>)
    requires
        table_names(f.stats.session_stats).contains(k),
    ensures
        entry_agents(f.stats.session_stats.entries@).contains(agent_name(f.stats.session_stats.as_map()[k])),
{
    let m = f.stats.session_stats;
    let i = m.position(k);
    assert(m.as_map()[k] == m.entries@[i].1);
    assert(has_agent_entry(m.entries@, agent_name(m.entries@[i].1)));
}

proof fn lemma_session_agent_listed(files: Seq<ScannedFile>, k: Seq<char>)
    requires
        sessions_of(files).contains(k),
    ensures
        agents_of(files).contains(session_agent_name(files, k)),
    decreases files.len(),
{
    let p = files.drop_last();
    let f = files.last();
    if sessions_of(p).contains(k) {
        lemma_session_agent_listed(p, k);
        if agent_over(p, k) is None {
            if entry_in(f, k) is Some {
                lemma_entry_agent(f, k);
            }
        }
    } else {
        lemma_agent_over_unseen(p, k);
        lemma_entry_agent(f, k);
    }
}

/// Every session is counted under exactly one agent: over the agents of the files, their
/// session counts add up to the number of sessions.
pub proof fn lemma_agents_split_sessions(files: Seq<ScannedFile>, sessions: Seq<Seq<char>>, agents: Seq<Seq<char>>)
    requires
        lists(sessions, sessions_of(files)),
        lists(agents, agents_of(files)),
    ensures
        agent_sessions_over(files, sessions, agents) == sessions.len(),
{
    assert forall|i: int| 0 <= i < sessions.len() implies agents.contains(session_agent_name(files, #[trigger] sessions[i])) by {
        assert(sessions.to_set().contains(sessions[i]));
        lemma_session_agent_listed(files, sessions[i]);
        assert(agents.to_set().contains(session_agent_name(files, sessions[i])));
    }
    lemma_agent_sessions_cover(files, sessions, agents);
}

/// Whether `pool` holds the newest of `events`: as many as `RECENT_LIMIT` allows, newest
/// first, each one of the events, and no event left out newer than one kept.
pub open spec fn holds_newest(pool: Seq<RecentView>, events: Seq<RecentView>) -> bool {
    &&& pool.len() == if events.len() < RECENT_LIMIT { events.len() } else { RECENT_LIMIT as nat }
    &&& newest_first(pool)
    &&& pool.to_multiset().subset_of(events.to_multiset())
    &&& forall|x: RecentView, i: int|
        0 <= i < pool.len() && #[trigger] events.to_multiset().count(x) > pool.to_multiset().count(x) ==> x.0
            <= #[trigger] pool[i].0
}

proof fn lemma_offer_all(events: Seq<RecentView>)
    ensures
        holds_newest(pool_after_events(seq![], events), events),
        pool_after_events(seq![], events).len() < RECENT_LIMIT ==> pool_after_events(seq![], events).to_multiset()
            == events.to_multiset(),
    decreases events.len(),
{
    broadcast use vstd::seq_lib::group_to_multiset_ensures;

    if events.len() == 0 {
        assert(events.to_multiset() =~= Multiset::<RecentView>::empty());
        assert(Seq::<RecentView>::empty().to_multiset() =~= Multiset::<RecentView>::empty());
    } else {
        let prev = events.drop_last();
        let e = events.last();
        lemma_offer_all(prev);
        let p = pool_after_events(seq![], prev);
        let k = pool_after(p, e);
        assert(pool_after_events(seq![], events) == k);
        assert(events =~= prev.push(e));
        assert(events.to_multiset() =~= prev.to_multiset().insert(e));
        crate::scan::lemma_pool_after_keeps_newest(p, e);
        crate::scan::lemma_by_recency_push(p, e);
        let j = recency_slot(p, e.0);
        crate::scan::lemma_slot_bounds(p, e.0);
        let sorted = p.insert(j, e);
        assert(sorted.to_multiset() =~= p.to_multiset().insert(e));
        crate::scan::lemma_by_recency(p.push(e));
        if p.len() < RECENT_LIMIT {
            assert(k == sorted);
            assert(k.to_multiset() =~= events.to_multiset());
        } else {
            let d = sorted[RECENT_LIMIT as int];
            assert(sorted =~= k.push(d));
            assert(sorted.to_multiset() =~= k.to_multiset().insert(d));
            assert forall|x: RecentView| #[trigger] k.to_multiset().count(x) <= events.to_multiset().count(x) by {
                assert(sorted.to_multiset().count(x) == k.to_multiset().count(x) + if x == d { 1nat } else { 0nat });
            }
            assert(k.to_multiset().subset_of(events.to_multiset()));
            assert forall|x: RecentView, i: int|
                0 <= i < k.len() && #[trigger] events.to_multiset().count(x) > k.to_multiset().count(x) implies x.0
                    <= #[trigger] k[i].0 by {
                assert(sorted.to_multiset().count(x) == k.to_multiset().count(x) + if x == d { 1nat } else { 0nat });
                assert(k[i] == sorted[i]);
                if x == d {
                    assert(newest_first(sorted));
                    assert(sorted[i].0 >= sorted[RECENT_LIMIT as int].0);
                } else {
                    assert(prev.to_multiset().count(x) > p.to_multiset().count(x));
                    if i < j {
                        assert(sorted[i] == p[i]);
                    } else if i == j {
                        assert(p[j].0 < e.0);
                        assert(x.0 <= p[j].0);
                    } else {
                        assert(sorted[i] == p[i - 1]);
                    }
                }
            }
        }
    }
}

/// The summary's recent events are the newest recent events of all files: as many as
/// `RECENT_LIMIT` allows, newest first, each one of them, and none left out is newer
/// than one shown.
pub proof fn lemma_recent_rows_newest(files: Seq<ScannedFile>)
    ensures
        holds_newest(kept_recent(pool_after_events(seq![], recent_of(files))), recent_of(files)),
{
    let p = pool_after_events(seq![], recent_of(files));
    lemma_offer_all(recent_of(files));
    crate::scan::lemma_by_recency_of_sorted(p);
    assert(kept_recent(p) == p);
}

/// A summary's tables have the sizes its totals call for: a day row and a token row for
/// every day, the busiest sessions up to `TOP_SESSIONS` and up to `TIMELINE_SESSIONS` in
/// the timeline.
pub proof fn lemma_table_sizes(s: DashboardSummary, root: Seq<char>, generated_at: Seq<char>, files: Seq<ScannedFile>)
    requires
        summary_matches(s, root, generated_at, files),
    ensures
        s.days@.len() == s.totals.days,
        s.token_usage.daily@.len() == s.totals.days,
        s.top_sessions@.len() == if s.totals.sessions < TOP_SESSIONS { s.totals.sessions as int } else { TOP_SESSIONS as int },
        s.session_timeline@.len() == if s.totals.sessions < TIMELINE_SESSIONS {
            s.totals.sessions as int
        } else {
            TIMELINE_SESSIONS as int
        },
{
    let days = choose|names: Seq<Seq<char>>|
        #![trigger lists(names, days_of(files))]
        lists(names, days_of(files)) && ranked_top(day_ranks(s.days@), tagged_ranks(files, names, 255), names.len(), true);
    days.unique_seq_to_set();
    assert(day_ranks(s.days@).len() == s.days@.len());
    let sessions = choose|names: Seq<Seq<char>>| #![trigger lists(names, sessions_of(files))] lists(names, sessions_of(files)) && sessions_ok(s, files, names);
    sessions.unique_seq_to_set();
    assert(session_ranks(s.top_sessions@).len() == s.top_sessions@.len());
    assert(timeline_ranks(s.session_timeline@, files).len() == s.session_timeline@.len());
}

// ---------------------------------------------------------------------------
// Two summaries of the same files

/// The values of day rows.
pub open spec fn day_rows_view(rows: Seq<DayRow>) -> Seq<(Seq<char>, u64, u64, u64, u64)> {
    rows.map_values(|r: DayRow| (r.day@, r.events, r.bytes, r.files, r.sessions))
}

/// The values of daily token rows.
pub open spec fn token_rows_view(rows: Seq<DayTokenRow>) -> Seq<(Seq<char>, i64, i64, i64, i64)> {
    rows.map_values(
        |r: DayTokenRow| (r.day@, r.input_tokens, r.output_tokens, r.cache_read_tokens, r.cache_creation_tokens),
    )
}

/// The values of session rows.
pub open spec fn session_rows_view(rows: Seq<SessionRow>) -> Seq<(Seq<char>, Seq<char>, u64, u64, u64, u64, Seq<char>)> {
    rows.map_values(|r: SessionRow| (r.session@, r.agent@, r.events, r.bytes, r.files, r.days, r.last_seen@))
}

/// The values of recent-event rows.
pub open spec fn recent_rows_view(rows: Seq<RecentEvent>) -> Seq<(Seq<char>, Seq<char>, Seq<char>, Seq<char>, Seq<char>)> {
    rows.map_values(|e: RecentEvent| event_values(e))
}

/// The values of hook rows.
pub open spec fn hook_rows_view(rows: Seq<HookPerfRow>) -> Seq<(Seq<char>, u64, i64, i64)> {
    rows.map_values(|r: HookPerfRow| (r.command@, r.count, r.avg_ms, r.total_ms))
}

/// The values of timeline rows.
pub open spec fn timeline_rows_view(rows: Seq<SessionTimelineRow>) -> Seq<(Seq<char>, Seq<u64>)> {
    rows.map_values(|r: SessionTimelineRow| (r.session@, r.hours@))
}

/// The values of duration buckets.
pub open spec fn bucket_rows_view(rows: Seq<DurationBucket>) -> Seq<(Seq<char>, u64)> {
    rows.map_values(|b: DurationBucket| (b.label@, b.count))
}

/// Whether two summaries report the same, whenever they were made: everything but
/// `generated_at` agrees, rows and their order included.
pub open spec fn same_report(a: DashboardSummary, b: DashboardSummary) -> bool {
    &&& a.root@ == b.root@
    &&& a.totals.days == b.totals.days
    &&& a.totals.sessions == b.totals.sessions
    &&& a.totals.files == b.totals.files
    &&& a.totals.events == b.totals.events
    &&& a.totals.bytes == b.totals.bytes
    &&& opt_text(a.totals.newest_file_mtime) == opt_text(b.totals.newest_file_mtime)
    &&& a.types.json == b.types.json
    &&& a.types.text == b.types.text
    &&& day_rows_view(a.days@) == day_rows_view(b.days@)
    &&& session_rows_view(a.top_sessions@) == session_rows_view(b.top_sessions@)
    &&& recent_rows_view(a.recent_events@) == recent_rows_view(b.recent_events@)
    &&& a.agents.as_map() == b.agents.as_map()
    &&& a.token_usage.total_input == b.token_usage.total_input
    &&& a.token_usage.total_output == b.token_usage.total_output
    &&& a.token_usage.total_cache_read == b.token_usage.total_cache_read
    &&& a.token_usage.total_cache_creation == b.token_usage.total_cache_creation
    &&& token_rows_view(a.token_usage.daily@) == token_rows_view(b.token_usage.daily@)
    &&& tool_ranks(a.tool_usage@) == tool_ranks(b.tool_usage@)
    &&& a.turn_durations.min_ms == b.turn_durations.min_ms
    &&& a.turn_durations.max_ms == b.turn_durations.max_ms
    &&& a.turn_durations.avg_ms == b.turn_durations.avg_ms
    &&& a.turn_durations.count == b.turn_durations.count
    &&& bucket_rows_view(a.turn_durations.buckets@) == bucket_rows_view(b.turn_durations.buckets@)
    &&& timeline_rows_view(a.session_timeline@) == timeline_rows_view(b.session_timeline@)
    &&& a.cache_efficiency == b.cache_efficiency
    &&& a.error_rate == b.error_rate
    &&& hook_rows_view(a.hook_performance@) == hook_rows_view(b.hook_performance@)
}

proof fn lemma_lists_same(n1: Seq<Seq<char>>, n2: Seq<Seq<char>>, set: Set<Seq<char>>)
    requires
        lists(n1, set),
        lists(n2, set),
    ensures
        n1.len() == n2.len(),
        forall|k: Seq<char>| n1.contains(k) <==> n2.contains(k),
{
    n1.unique_seq_to_set();
    n2.unique_seq_to_set();
    assert forall|k: Seq<char>| n1.contains(k) <==> n2.contains(k) by {
        assert(n1.to_set().contains(k) == n1.contains(k));
        assert(n2.to_set().contains(k) == n2.contains(k));
    }
}

proof fn lemma_tagged_same(files: Seq<ScannedFile>, n1: Seq<Seq<char>>, n2: Seq<Seq<char>>, tag: u8)
    requires
        n1.len() == n2.len(),
        forall|k: Seq<char>| n1.contains(k) <==> n2.contains(k),
    ensures
        tagged_ranks(files, n1, tag).len() == tagged_ranks(files, n2, tag).len(),
        forall|x: Rank| tagged_ranks(files, n1, tag).contains(x) <==> tagged_ranks(files, n2, tag).contains(x),
{
    let t1 = tagged_ranks(files, n1, tag);
    let t2 = tagged_ranks(files, n2, tag);
    assert forall|x: Rank| t1.contains(x) implies t2.contains(x) by {
        let i = choose|i: int| 0 <= i < t1.len() && t1[i] == x;
        assert(n1.contains(n1[i]));
        let j = choose|j: int| 0 <= j < n2.len() && n2[j] == n1[i];
        assert(t2[j] == x);
    }
    assert forall|x: Rank| t2.contains(x) implies t1.contains(x) by {
        let i = choose|i: int| 0 <= i < t2.len() && t2[i] == x;
        assert(n2.contains(n2[i]));
        let j = choose|j: int| 0 <= j < n1.len() && n1[j] == n2[i];
        assert(t1[j] == x);
    }
}

proof fn lemma_day_totals_same(files: Seq<ScannedFile>, n1: Seq<Seq<char>>, n2: Seq<Seq<char>>)
    requires
        n1.len() == n2.len(),
        forall|k: Seq<char>| n1.contains(k) <==> n2.contains(k),
    ensures
        day_total_ranks(files, n1).len() == day_total_ranks(files, n2).len(),
        forall|x: Rank| day_total_ranks(files, n1).contains(x) <==> day_total_ranks(files, n2).contains(x),
{
    let t1 = day_total_ranks(files, n1);
    let t2 = day_total_ranks(files, n2);
    assert forall|x: Rank| t1.contains(x) implies t2.contains(x) by {
        let i = choose|i: int| 0 <= i < t1.len() && t1[i] == x;
        assert(n1.contains(n1[i]));
        let j = choose|j: int| 0 <= j < n2.len() && n2[j] == n1[i];
        assert(t2[j] == x);
    }
    assert forall|x: Rank| t2.contains(x) implies t1.contains(x) by {
        let i = choose|i: int| 0 <= i < t2.len() && t2[i] == x;
        assert(n2.contains(n2[i]));
        let j = choose|j: int| 0 <= j < n1.len() && n1[j] == n2[i];
        assert(t1[j] == x);
    }
}

proof fn lemma_swa_remove(files: Seq<ScannedFile>, names: Seq<Seq<char>>, j: int, a: Seq<char>)
    requires
        0 <= j < names.len(),
    ensures
        sessions_with_agent(files, names, a) == sessions_with_agent(files, names.remove(j), a) + if session_agent_name(
            files,
            names[j],
        ) == a {
            1nat
        } else {
            0nat
        },
    decreases names.len(),
{
    if j == names.len() - 1 {
        assert(names.remove(j) =~= names.drop_last());
    } else {
        let p = names.drop_last();
        lemma_swa_remove(files, p, j, a);
        assert(names.remove(j).drop_last() =~= p.remove(j));
        assert(names.remove(j).last() == names.last());
        assert(p[j] == names[j]);
    }
}

proof fn lemma_swa_same(files: Seq<ScannedFile>, n1: Seq<Seq<char>>, n2: Seq<Seq<char>>, a: Seq<char>)
    requires
        n1.no_duplicates(),
        n2.no_duplicates(),
        n1.len() == n2.len(),
        forall|k: Seq<char>| n1.contains(k) <==> n2.contains(k),
    ensures
        sessions_with_agent(files, n1, a) == sessions_with_agent(files, n2, a),
    decreases n1.len(),
{
    if n1.len() > 0 {
        let x = n1.last();
        assert(n1.contains(x)) by {
            assert(n1[n1.len() - 1] == x);
        }
        let j = choose|j: int| 0 <= j < n2.len() && n2[j] == x;
        let p1 = n1.drop_last();
        let p2 = n2.remove(j);
        assert(p1.no_duplicates());
        assert(p2.no_duplicates()) by {
            assert forall|u: int, v: int| 0 <= u < p2.len() && 0 <= v < p2.len() && u != v implies p2[u] != p2[v] by {
                let uu = if u < j { u } else { u + 1 };
                let vv = if v < j { v } else { v + 1 };
                assert(p2[u] == n2[uu] && p2[v] == n2[vv]);
            }
        }
        assert forall|k: Seq<char>| p1.contains(k) <==> p2.contains(k) by {
            if p1.contains(k) {
                let i = choose|i: int| 0 <= i < p1.len() && p1[i] == k;
                assert(n1[i] == k);
                assert(k != x);
                assert(n2.contains(k));
                let m = choose|m: int| 0 <= m < n2.len() && n2[m] == k;
                assert(m != j);
                let mm = if m < j { m } else { m - 1 };
                assert(p2[mm] == k);
            }
            if p2.contains(k) {
                let i = choose|i: int| 0 <= i < p2.len() && p2[i] == k;
                let ii = if i < j { i } else { i + 1 };
                assert(n2[ii] == k);
                assert(k != x);
                assert(n1.contains(k));
                let m = choose|m: int| 0 <= m < n1.len() && n1[m] == k;
                assert(m != n1.len() - 1);
                assert(p1[m] == k);
            }
        }
        lemma_swa_same(files, p1, p2, a);
        lemma_swa_remove(files, n2, j, a);
    }
}

proof fn lemma_same_days(s1: DashboardSummary, s2: DashboardSummary, files: Seq<ScannedFile>)
    requires
        days_ok(s1, files),
        days_ok(s2, files),
    ensures
        day_rows_view(s1.days@) == day_rows_view(s2.days@),
        token_rows_view(s1.token_usage.daily@) == token_rows_view(s2.token_usage.daily@),
{
    let n1 = choose|names: Seq<Seq<char>>|
        #![trigger lists(names, days_of(files))]
        lists(names, days_of(files)) && ranked_top(day_ranks(s1.days@), tagged_ranks(files, names, 255), names.len(), true);
    let n2 = choose|names: Seq<Seq<char>>|
        #![trigger lists(names, days_of(files))]
        lists(names, days_of(files)) && ranked_top(day_ranks(s2.days@), tagged_ranks(files, names, 255), names.len(), true);
    lemma_lists_same(n1, n2, days_of(files));
    lemma_tagged_same(files, n1, n2, 255);
    lemma_ranked_top_unique(day_ranks(s1.days@), day_ranks(s2.days@), tagged_ranks(files, n1, 255), tagged_ranks(files, n2, 255), n1.len(), true);
    let r1 = s1.days@;
    let r2 = s2.days@;
    assert(r1.len() == day_ranks(r1).len());
    assert(r2.len() == day_ranks(r2).len());
    assert forall|i: int| 0 <= i < r1.len() implies #[trigger] r1[i].day@ == r2[i].day@ by {
        assert(day_ranks(r1)[i] == day_ranks(r2)[i]);
    }
    assert forall|i: int| 0 <= i < r1.len() implies day_rows_view(r1)[i] == day_rows_view(r2)[i] by {
        assert(r1[i].day@ == r2[i].day@);
        assert(day_row_ok(r1[i], files));
        assert(day_row_ok(r2[i], files));
    }
    assert(day_rows_view(r1) =~= day_rows_view(r2));
    let d1 = s1.token_usage.daily@;
    let d2 = s2.token_usage.daily@;
    assert forall|i: int| 0 <= i < d1.len() implies token_rows_view(d1)[i] == token_rows_view(d2)[i] by {
        assert(d1[i].day@ == r1[i].day@);
        assert(d2[i].day@ == r2[i].day@);
        assert(r1[i].day@ == r2[i].day@);
        assert(day_tokens_ok(d1[i], files));
        assert(day_tokens_ok(d2[i], files));
    }
    assert(token_rows_view(d1) =~= token_rows_view(d2));
}

proof fn lemma_same_sessions(s1: DashboardSummary, s2: DashboardSummary, files: Seq<ScannedFile>, n1: Seq<Seq<char>>, n2: Seq<Seq<char>>)
    requires
        sessions_ok(s1, files, n1),
        sessions_ok(s2, files, n2),
    ensures
        session_rows_view(s1.top_sessions@) == session_rows_view(s2.top_sessions@),
        timeline_rows_view(s1.session_timeline@) == timeline_rows_view(s2.session_timeline@),
        s1.agents.as_map() == s2.agents.as_map(),
{
    lemma_lists_same(n1, n2, sessions_of(files));
    lemma_tagged_same(files, n1, n2, SESSION_EVENTS);
    lemma_ranked_top_unique(
        session_ranks(s1.top_sessions@),
        session_ranks(s2.top_sessions@),
        tagged_ranks(files, n1, SESSION_EVENTS),
        tagged_ranks(files, n2, SESSION_EVENTS),
        TOP_SESSIONS as nat,
        false,
    );
    let r1 = s1.top_sessions@;
    let r2 = s2.top_sessions@;
    assert(r1.len() == session_ranks(r1).len());
    assert(r2.len() == session_ranks(r2).len());
    assert forall|i: int| 0 <= i < r1.len() implies session_rows_view(r1)[i] == session_rows_view(r2)[i] by {
        assert(session_ranks(r1)[i] == session_ranks(r2)[i]);
        assert(session_row_ok(r1[i], files));
        assert(session_row_ok(r2[i], files));
    }
    assert(session_rows_view(r1) =~= session_rows_view(r2));
    lemma_day_totals_same(files, n1, n2);
    let t1 = s1.session_timeline@;
    let t2 = s2.session_timeline@;
    lemma_ranked_top_unique(
        timeline_ranks(t1, files),
        timeline_ranks(t2, files),
        day_total_ranks(files, n1),
        day_total_ranks(files, n2),
        TIMELINE_SESSIONS as nat,
        false,
    );
    assert(t1.len() == timeline_ranks(t1, files).len());
    assert(t2.len() == timeline_ranks(t2, files).len());
    assert forall|i: int| 0 <= i < t1.len() implies timeline_rows_view(t1)[i] == timeline_rows_view(t2)[i] by {
        assert(timeline_ranks(t1, files)[i] == timeline_ranks(t2, files)[i]);
        assert(timeline_row_ok(t1[i], files));
        assert(timeline_row_ok(t2[i], files));
        assert(t1[i].hours@ =~= t2[i].hours@);
    }
    assert(timeline_rows_view(t1) =~= timeline_rows_view(t2));
    let m1 = s1.agents.as_map();
    let m2 = s2.agents.as_map();
    assert forall|a: Seq<char>| #[trigger] m1.dom().contains(a) implies m1[a] == m2[a] by {
        assert(table_names(s1.agents).contains(a));
        assert(table_names(s2.agents).contains(a));
        assert(agent_ok(m1[a], files, n1, a));
        assert(agent_ok(m2[a], files, n2, a));
        lemma_swa_same(files, n1, n2, a);
    }
    assert(m1 =~= m2);
}

proof fn lemma_same_activity(s1: DashboardSummary, s2: DashboardSummary, files: Seq<ScannedFile>)
    requires
        activity_ok(s1, files),
        activity_ok(s2, files),
    ensures
        tool_ranks(s1.tool_usage@) == tool_ranks(s2.tool_usage@),
        hook_rows_view(s1.hook_performance@) == hook_rows_view(s2.hook_performance@),
        bucket_rows_view(s1.turn_durations.buckets@) == bucket_rows_view(s2.turn_durations.buckets@),
        recent_rows_view(s1.recent_events@) == recent_rows_view(s2.recent_events@),
{
    let t1 = choose|names: Seq<Seq<char>>|
        #![trigger lists(names, tools_of(files))]
        lists(names, tools_of(files)) && ranked_top(tool_ranks(s1.tool_usage@), tagged_ranks(files, names, TOOL_USES), TOP_TOOLS as nat, false);
    let t2 = choose|names: Seq<Seq<char>>|
        #![trigger lists(names, tools_of(files))]
        lists(names, tools_of(files)) && ranked_top(tool_ranks(s2.tool_usage@), tagged_ranks(files, names, TOOL_USES), TOP_TOOLS as nat, false);
    lemma_lists_same(t1, t2, tools_of(files));
    lemma_tagged_same(files, t1, t2, TOOL_USES);
    lemma_ranked_top_unique(tool_ranks(s1.tool_usage@), tool_ranks(s2.tool_usage@), tagged_ranks(files, t1, TOOL_USES), tagged_ranks(files, t2, TOOL_USES), TOP_TOOLS as nat, false);
    let h1 = choose|names: Seq<Seq<char>>|
        #![trigger lists(names, hooks_of(files))]
        lists(names, hooks_of(files)) && ranked_top(hook_ranks(s1.hook_performance@), tagged_ranks(files, names, HOOK_RUNS), names.len(), false);
    let h2 = choose|names: Seq<Seq<char>>|
        #![trigger lists(names, hooks_of(files))]
        lists(names, hooks_of(files)) && ranked_top(hook_ranks(s2.hook_performance@), tagged_ranks(files, names, HOOK_RUNS), names.len(), false);
    lemma_lists_same(h1, h2, hooks_of(files));
    lemma_tagged_same(files, h1, h2, HOOK_RUNS);
    lemma_ranked_top_unique(hook_ranks(s1.hook_performance@), hook_ranks(s2.hook_performance@), tagged_ranks(files, h1, HOOK_RUNS), tagged_ranks(files, h2, HOOK_RUNS), h1.len(), false);
    let r1 = s1.hook_performance@;
    let r2 = s2.hook_performance@;
    assert(r1.len() == hook_ranks(r1).len());
    assert(r2.len() == hook_ranks(r2).len());
    assert forall|i: int| 0 <= i < r1.len() implies hook_rows_view(r1)[i] == hook_rows_view(r2)[i] by {
        assert(hook_ranks(r1)[i] == hook_ranks(r2)[i]);
        assert(hook_row_ok(r1[i], files));
        assert(hook_row_ok(r2[i], files));
    }
    assert(hook_rows_view(r1) =~= hook_rows_view(r2));
    let b1 = s1.turn_durations.buckets@;
    let b2 = s2.turn_durations.buckets@;
    assert forall|i: int| 0 <= i < b1.len() implies bucket_rows_view(b1)[i] == bucket_rows_view(b2)[i] by {
        assert(b1[i].label@ == bucket_label(i));
        assert(b2[i].label@ == bucket_label(i));
    }
    assert(bucket_rows_view(b1) =~= bucket_rows_view(b2));
    let e1 = s1.recent_events@;
    let e2 = s2.recent_events@;
    let kept = kept_recent(pool_after_events(seq![], recent_of(files)));
    assert forall|i: int| 0 <= i < e1.len() implies recent_rows_view(e1)[i] == recent_rows_view(e2)[i] by {
        assert(event_values(e1[i]) == shown_event(kept[i]));
        assert(event_values(e2[i]) == shown_event(kept[i]));
    }
    assert(recent_rows_view(e1) =~= recent_rows_view(e2));
}

/// A summary depends on the files alone: two summaries of the same files under the same
/// root report the same, rows and their order included, whenever they were made.
pub proof fn lemma_summary_determined(
    s1: DashboardSummary,
    s2: DashboardSummary,
    root: Seq<char>,
    g1: Seq<char>,
    g2: Seq<char>,
    files: Seq<ScannedFile>,
)
    requires
        summary_matches(s1, root, g1, files),
        summary_matches(s2, root, g2, files),
    ensures
        same_report(s1, s2),
{
    lemma_same_days(s1, s2, files);
    let n1 = choose|names: Seq<Seq<char>>| #![trigger lists(names, sessions_of(files))] lists(names, sessions_of(files)) && sessions_ok(s1, files, names);
    let n2 = choose|names: Seq<Seq<char>>| #![trigger lists(names, sessions_of(files))] lists(names, sessions_of(files)) && sessions_ok(s2, files, names);
    lemma_same_sessions(s1, s2, files, n1, n2);
    lemma_same_activity(s1, s2, files);
    assert(s1.types.json == s2.types.json);
    assert(s1.types.text == s2.types.text);
}

// ---------------------------------------------------------------------------
// Laws of the greatest mtime, the last sighting and the sessions of a day

proof fn lemma_newest_of_greatest(files: Seq<ScannedFile>)
    ensures
        newest_of(files) is Some <==> exists|i: int| 0 <= i < files.len() && (#[trigger] files[i]).mtime is Some,
        newest_of(files) matches Some((ms, shown)) ==> exists|i: int|
            0 <= i < files.len() && (#[trigger] files[i]).mtime is Some && files[i].mtime->0.millis == ms && files[i].mtime->0.iso@ == shown,
        newest_of(files) matches Some((ms, _)) ==> forall|j: int|
            0 <= j < files.len() && (#[trigger] files[j]).mtime is Some ==> files[j].mtime->0.millis <= ms,
    decreases files.len(),
{
    if files.len() > 0 {
        let p = files.drop_last();
        lemma_newest_of_greatest(p);
        assert forall|i: int| 0 <= i < p.len() implies #[trigger] p[i] == files[i] by {}
        let n = files.len() - 1;
        assert(files[n] == files.last());
        if newest_of(p) is Some {
            let i = choose|i: int| 0 <= i < p.len() && (#[trigger] p[i]).mtime is Some;
            assert(files[i] == p[i]);
        }
        if exists|i: int| 0 <= i < files.len() && (#[trigger] files[i]).mtime is Some {
            let i = choose|i: int| 0 <= i < files.len() && (#[trigger] files[i]).mtime is Some;
            if i < n {
                assert(p[i] == files[i]);
            }
        }
        match newest_of(files) {
            Some((ms, shown)) => {
                if newest_of(files) != newest_of(p) {
                    assert(files[n].mtime is Some);
                } else {
                    let i = choose|i: int|
                        0 <= i < p.len() && (#[trigger] p[i]).mtime is Some && p[i].mtime->0.millis == ms && p[i].mtime->0.iso@ == shown;
                    assert(files[i] == p[i]);
                }
                assert forall|j: int| 0 <= j < files.len() && (#[trigger] files[j]).mtime is Some implies files[j].mtime->0.millis
                    <= ms by {
                    if j < n {
                        assert(p[j] == files[j]);
                    }
                }
            },
            None => {},
        }
    }
}

/// The newest modification time that a summary reports is the greatest among the files,
/// whatever their order: there is one exactly when some file has a modification time, and
/// it is the rendering of a file whose milliseconds are at least every other file's.
pub proof fn lemma_newest_mtime_is_greatest(s: DashboardSummary, root: Seq<char>, generated_at: Seq<char>, files: Seq<ScannedFile>)
    requires
        summary_matches(s, root, generated_at, files),
    ensures
        s.totals.newest_file_mtime is Some <==> exists|i: int| 0 <= i < files.len() && (#[trigger] files[i]).mtime is Some,
        s.totals.newest_file_mtime matches Some(t) ==> exists|i: int|
            0 <= i < files.len() && (#[trigger] files[i]).mtime is Some && files[i].mtime->0.iso@ == t@ && forall|j: int|
                0 <= j < files.len() && (#[trigger] files[j]).mtime is Some ==> files[j].mtime->0.millis <= files[i].mtime->0.millis,
{
    lemma_newest_of_greatest(files);
    match newest_of(files) {
        Some((ms, shown)) => {
            let i = choose|i: int|
                0 <= i < files.len() && (#[trigger] files[i]).mtime is Some && files[i].mtime->0.millis == ms && files[i].mtime->0.iso@ == shown;
            assert(files[i].mtime->0.iso@ == shown);
        },
        None => {},
    }
}

/// When a file last saw session `k`: its entry's last timestamp, or the file's
/// modification time when the entry has none; nothing when the file has no entry of `k`.
pub open spec fn sighting(f: ScannedFile, k: Seq<char>) -> Option<i64> {
    let sm = f.stats.session_stats.as_map();
    if sm.dom().contains(k) {
        match sm[k].last_seen_ms {
            Some(ms) => Some(ms),
            None => match f.mtime {
                Some(t) => Some(t.millis),
                None => None,
            },
        }
    } else {
        None
    }
}

proof fn lemma_last_seen_latest(files: Seq<ScannedFile>, k: Seq<char>)
    ensures
        last_seen_over(files, k) is Some <==> exists|i: int| 0 <= i < files.len() && sighting(#[trigger] files[i], k) is Some,
        last_seen_over(files, k) matches Some(x) ==> exists|i: int| 0 <= i < files.len() && sighting(#[trigger] files[i], k) == Some(x),
        last_seen_over(files, k) matches Some(x) ==> forall|j: int|
            0 <= j < files.len() && sighting(#[trigger] files[j], k) is Some ==> sighting(files[j], k)->0 <= x,
    decreases files.len(),
{
    if files.len() > 0 {
        let p = files.drop_last();
        lemma_last_seen_latest(p, k);
        let n = files.len() - 1;
        assert(files[n] == files.last());
        assert(sighting(files.last(), k) == match entry_in(files.last(), k) {
            Some(e) => match e.last_seen_ms {
                Some(ms) => Some(ms),
                None => match files.last().mtime {
                    Some(t) => Some(t.millis),
                    None => None,
                },
            },
            None => None,
        });
        if last_seen_over(p, k) is Some {
            let i = choose|i: int| 0 <= i < p.len() && sighting(#[trigger] p[i], k) is Some;
            assert(files[i] == p[i]);
        }
        if exists|i: int| 0 <= i < files.len() && sighting(#[trigger] files[i], k) is Some {
            let i = choose|i: int| 0 <= i < files.len() && sighting(#[trigger] files[i], k) is Some;
            if i < n {
                assert(p[i] == files[i]);
            }
        }
        match last_seen_over(files, k) {
            Some(x) => {
                if last_seen_over(p, k) == Some(x) {
                    let i = choose|i: int| 0 <= i < p.len() && sighting(#[trigger] p[i], k) == Some(x);
                    assert(files[i] == p[i]);
                } else {
                    assert(sighting(files[n], k) == Some(x));
                }
                assert forall|j: int| 0 <= j < files.len() && sighting(#[trigger] files[j], k) is Some implies sighting(
                    files[j],
                    k,
                )->0 <= x by {
                    if j < n {
                        assert(p[j] == files[j]);
                    }
                }
            },
            None => {},
        }
    }
}

/// A session row's last sighting is the latest over every file holding the session,
/// whatever the file order: the rendering of one file's sighting that is at least every
/// other file's (`n/a` when no file gives one).
pub proof fn lemma_session_last_seen_latest(
    s: DashboardSummary,
    root: Seq<char>,
    generated_at: Seq<char>,
    files: Seq<ScannedFile>,
    r: int,
)
    requires
        summary_matches(s, root, generated_at, files),
        0 <= r < s.top_sessions@.len(),
    ensures
        ({
            let k = s.top_sessions@[r].session@;
            &&& (forall|i: int| 0 <= i < files.len() ==> sighting(#[trigger] files[i], k) is None) ==> s.top_sessions@[r].last_seen@
                == "n/a"@
            &&& (exists|i: int| 0 <= i < files.len() && sighting(#[trigger] files[i], k) is Some) ==> exists|i: int|
                0 <= i < files.len() && sighting(#[trigger] files[i], k) is Some && s.top_sessions@[r].last_seen@
                    == iso_of_millis(sighting(files[i], k)->0) && forall|j: int|
                    0 <= j < files.len() && sighting(#[trigger] files[j], k) is Some ==> sighting(files[j], k)->0
                        <= sighting(files[i], k)->0
        }),
{
    let names = choose|names: Seq<Seq<char>>| #![trigger lists(names, sessions_of(files))] lists(names, sessions_of(files)) && sessions_ok(s, files, names);
    assert(session_row_ok(s.top_sessions@[r], files));
    let k = s.top_sessions@[r].session@;
    lemma_last_seen_latest(files, k);
    match last_seen_over(files, k) {
        Some(x) => {
            let i = choose|i: int| 0 <= i < files.len() && sighting(#[trigger] files[i], k) == Some(x);
            assert(sighting(files[i], k)->0 == x);
        },
        None => {},
    }
}

/// The sessions named by any file of day `d`.
pub open spec fn day_sessions(files: Seq<ScannedFile>, d: Seq<char>) -> Set<Seq<char>> {
    Set::new(|k: Seq<char>| exists|i: int|
        0 <= i < files.len() && (#[trigger] files[i]).event_file.day@ == d && files[i].stats.session_stats.as_map().dom().contains(k))
}

proof fn lemma_sessions_on_any_file(files: Seq<ScannedFile>, d: Seq<char>)
    ensures
        sessions_on(files, d) == day_sessions(files, d),
    decreases files.len(),
{
    if files.len() > 0 {
        let p = files.drop_last();
        lemma_sessions_on_any_file(p, d);
        let n = files.len() - 1;
        assert(files[n] == files.last());
        assert forall|k: Seq<char>| sessions_on(files, d).contains(k) <==> day_sessions(files, d).contains(k) by {
            if day_sessions(p, d).contains(k) {
                let i = choose|i: int|
                    0 <= i < p.len() && (#[trigger] p[i]).event_file.day@ == d && p[i].stats.session_stats.as_map().dom().contains(k);
                assert(files[i] == p[i]);
            }
            if day_sessions(files, d).contains(k) {
                let i = choose|i: int|
                    0 <= i < files.len() && (#[trigger] files[i]).event_file.day@ == d
                        && files[i].stats.session_stats.as_map().dom().contains(k);
                if i < n {
                    assert(p[i] == files[i]);
                    assert(day_sessions(p, d).contains(k));
                }
            }
        }
        assert(sessions_on(files, d) =~= day_sessions(files, d));
    } else {
        assert(day_sessions(files, d) =~= Set::<Seq<char>>::empty());
    }
}

/// A day row counts every session that any file of its day names, each once: its
/// sessions are the number of distinct session names over all the files of that day.
pub proof fn lemma_day_row_counts_all_sessions(
    s: DashboardSummary,
    root: Seq<char>,
    generated_at: Seq<char>,
    files: Seq<ScannedFile>,
    r: int,
)
    requires
        summary_matches(s, root, generated_at, files),
        0 <= r < s.days@.len(),
    ensures
        s.days@[r].sessions == day_sessions(files, s.days@[r].day@).len(),
{
    assert(day_row_ok(s.days@[r], files));
    lemma_sessions_on_any_file(files, s.days@[r].day@);
}

} // verus!
