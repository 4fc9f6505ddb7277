//! The rows that the scan cache keeps for one event file, and the file statistics that
//! they stand for. The database itself is read and written around this module.
use vstd::prelude::*;

use crate::models::{FileScanStats, HookAccum, RecentEvent, RecentEventAccum, SessionLineStats, TokenUsage};
use crate::named::NamedMap;
use crate::scan::{opt_text, pool_view, recent_view, RecentView};
use crate::text::same_text;

verus! {

/// A row of `session_cache`.
pub struct SessionCacheRow {
    pub session_id: String,
    pub events: i64,
    pub bytes: i64,
    pub last_seen_ms: Option<i64>,
    pub agent: Option<String>,
}

/// A row of `recent_cache`.
pub struct RecentCacheRow {
    pub sort_key_ms: i64,
    pub timestamp_display: String,
    pub session_id: String,
    pub agent: String,
    pub event_type: String,
    pub preview: String,
}

/// A row of `token_cache`.
pub struct TokenCacheRow {
    pub input_tokens: i64,
    pub output_tokens: i64,
    pub cache_read_tokens: i64,
    pub cache_creation_tokens: i64,
    pub api_error_count: i64,
    pub tool_error_count: i64,
}

/// A row of `tool_cache` or `model_cache`: a name and how often it occurred.
pub struct CountCacheRow {
    pub name: String,
    pub count: i64,
}

/// A row of `hook_cache`.
pub struct HookCacheRow {
    pub command: String,
    pub count: i64,
    pub total_ms: i64,
}

/// A row of `session_hourly_cache`.
pub struct HourlyCacheRow {
    pub session_id: String,
    pub hour: i64,
    pub count: i64,
}

/// Everything the cache holds for one event file besides its path, time and size.
pub struct CachedFile {
    pub event_count: i64,
    pub sessions: Vec<SessionCacheRow>,
    pub recent: Vec<RecentCacheRow>,
    pub tokens: Option<TokenCacheRow>,
    pub tools: Vec<CountCacheRow>,
    pub durations: Vec<i64>,
    pub hooks: Vec<HookCacheRow>,
    pub models: Vec<CountCacheRow>,
    pub hourly: Vec<HourlyCacheRow>,
}

// ---------------------------------------------------------------------------
// Writing

/// The values of a session row.
pub open spec fn session_row_view(r: SessionCacheRow) -> (Seq<char>, i64, i64, Option<i64>, Option<Seq<char>>) {
    (r.session_id@, r.events, r.bytes, r.last_seen_ms, opt_text(r.agent))
}

/// The session row that stores entry `e` of a file's sessions.
pub open spec fn session_row_of(e: (String, SessionLineStats)) -> (Seq<char>, i64, i64, Option<i64>, Option<Seq<char>>) {
    (e.0@, e.1.events as i64, e.1.bytes as i64, e.1.last_seen_ms, opt_text(e.1.agent))
}

/// The values of a recent-event row.
pub open spec fn recent_row_view(r: RecentCacheRow) -> RecentView {
    (r.sort_key_ms, r.timestamp_display@, r.session_id@, r.agent@, r.event_type@, r.preview@)
}

/// The values of a count row.
pub open spec fn count_row_view(r: CountCacheRow) -> (Seq<char>, i64) {
    (r.name@, r.count)
}

/// The values of a hook row.
pub open spec fn hook_row_view(r: HookCacheRow) -> (Seq<char>, i64, i64) {
    (r.command@, r.count, r.total_ms)
}

/// The values of an hourly row.
pub open spec fn hourly_row_view(r: HourlyCacheRow) -> (Seq<char>, i64, i64) {
    (r.session_id@, r.hour, r.count)
}

/// The hourly rows of session `k` over its first `n` hours: one per hour with events.
pub open spec fn hour_rows(k: Seq<char>, hours: Seq<u64>, n: int) -> Seq<(Seq<char>, i64, i64)>
    decreases n,
{
    if n <= 0 {
        seq![]
    } else {
        let r = hour_rows(k, hours, n - 1);
        if hours[n - 1] > 0 { r.push((k, (n - 1) as i64, hours[n - 1] as i64)) } else { r }
    }
}

/// The hourly rows of the sessions of a file, session by session.
pub open spec fn hourly_rows_of(es: Seq<(String, SessionLineStats)>) -> Seq<(Seq<char>, i64, i64)>
    decreases es.len(),
{
    if es.len() == 0 {
        seq![]
    } else {
        hourly_rows_of(es.drop_last()) + hour_rows(es.last().0@, es.last().1.hourly_events@, 24)
    }
}

/// Whether `c` is what the cache stores for a file with statistics `s`: every count is
/// written as `i64`, and an hourly row only for an hour with events.
pub open spec fn stores(c: CachedFile, s: FileScanStats) -> bool {
    &&& c.event_count == s.event_count as i64
    &&& c.sessions@.len() == s.session_stats.entries@.len()
    &&& forall|i: int| 0 <= i < c.sessions@.len() ==> session_row_view(#[trigger] c.sessions@[i])
        == session_row_of(s.session_stats.entries@[i])
    &&& c.recent@.len() == s.recent_events@.len()
    &&& forall|i: int| 0 <= i < c.recent@.len() ==> recent_row_view(#[trigger] c.recent@[i])
        == pool_view(s.recent_events@)[i]
    &&& c.tokens == Some(TokenCacheRow {
        input_tokens: s.token_usage.input_tokens,
        output_tokens: s.token_usage.output_tokens,
        cache_read_tokens: s.token_usage.cache_read_input_tokens,
        cache_creation_tokens: s.token_usage.cache_creation_input_tokens,
        api_error_count: s.api_error_count as i64,
        tool_error_count: s.tool_error_count as i64,
    })
    &&& c.tools@.len() == s.tool_counts.entries@.len()
    &&& forall|i: int| 0 <= i < c.tools@.len() ==> count_row_view(#[trigger] c.tools@[i])
        == (s.tool_counts.entries@[i].0@, s.tool_counts.entries@[i].1 as i64)
    &&& c.durations@ == s.turn_durations@
    &&& c.hooks@.len() == s.hook_stats.entries@.len()
    &&& forall|i: int| 0 <= i < c.hooks@.len() ==> hook_row_view(#[trigger] c.hooks@[i])
        == (s.hook_stats.entries@[i].0@, s.hook_stats.entries@[i].1.count as i64, s.hook_stats.entries@[i].1.total_ms)
    &&& c.models@.len() == s.model_counts.entries@.len()
    &&& forall|i: int| 0 <= i < c.models@.len() ==> count_row_view(#[trigger] c.models@[i])
        == (s.model_counts.entries@[i].0@, s.model_counts.entries@[i].1 as i64)
    &&& c.hourly@.len() == hourly_rows_of(s.session_stats.entries@).len()
    &&& forall|i: int| 0 <= i < c.hourly@.len() ==> hourly_row_view(#[trigger] c.hourly@[i])
        == hourly_rows_of(s.session_stats.entries@)[i]
}

fn copy_opt(o: &Option<String>) -> (r: Option<String>)
    ensures
        opt_text(r) == opt_text(*o),
{
    match o {
        Some(t) => Some(t.clone()),
        None => None,
    }
}

fn copy_event(e: &RecentEvent) -> (r: RecentEvent)
    ensures
        r.timestamp@ == e.timestamp@,
        r.session@ == e.session@,
        r.agent@ == e.agent@,
        r.event_type@ == e.event_type@,
        r.preview@ == e.preview@,
{
    RecentEvent {
        timestamp: e.timestamp.clone(),
        session: e.session.clone(),
        agent: e.agent.clone(),
        event_type: e.event_type.clone(),
        preview: e.preview.clone(),
    }
}

/// Appends the hourly rows of session `k` to `rows`.
fn push_hour_rows(rows: &mut Vec<HourlyCacheRow>, k: &String, hours: &[u64; 24])
    ensures
        final(rows)@.len() == old(rows)@.len() + hour_rows(k@, hours@, 24).len(),
        forall|i: int| 0 <= i < old(rows)@.len() ==> #[trigger] final(rows)@[i] == old(rows)@[i],
        forall|i: int| 0 <= i < hour_rows(k@, hours@, 24).len() ==> hourly_row_view(
            #[trigger] final(rows)@[old(rows)@.len() + i],
        ) == hour_rows(k@, hours@, 24)[i],
{
    let ghost start = rows@;
    let mut h: usize = 0;
    while h < 24
        invariant
            h <= 24,
            rows@.len() == start.len() + hour_rows(k@, hours@, h as int).len(),
            forall|i: int| 0 <= i < start.len() ==> #[trigger] rows@[i] == start[i],
            forall|i: int| 0 <= i < hour_rows(k@, hours@, h as int).len() ==> hourly_row_view(
                #[trigger] rows@[start.len() + i],
            ) == hour_rows(k@, hours@, h as int)[i],
        decreases 24 - h,
    {
        if hours[h] > 0 {
            rows.push(HourlyCacheRow { session_id: k.clone(), hour: h as i64, count: hours[h] as i64 });
        }
        h += 1;
    }
}

/// The rows the cache stores for a file with statistics `stats`.
pub fn cache_rows(stats: &FileScanStats) -> (c: CachedFile)
    ensures
        stores(c, *stats),
{
    let es = &stats.session_stats.entries;
    let mut sessions: Vec<SessionCacheRow> = Vec::new();
    let mut hourly: Vec<HourlyCacheRow> = Vec::new();
    let mut i: usize = 0;
    while i < es.len()
        invariant
            i <= es@.len(),
            sessions@.len() == i,
            forall|t: int| 0 <= t < i ==> session_row_view(#[trigger] sessions@[t]) == session_row_of(es@[t]),
            hourly@.len() == hourly_rows_of(es@.take(i as int)).len(),
            forall|t: int| 0 <= t < hourly@.len() ==> hourly_row_view(#[trigger] hourly@[t])
                == hourly_rows_of(es@.take(i as int))[t],
        decreases es@.len() - i,
    {
        let e = &es[i];
        sessions.push(SessionCacheRow {
            session_id: e.0.clone(),
            events: e.1.events as i64,
            bytes: e.1.bytes as i64,
            last_seen_ms: e.1.last_seen_ms,
            agent: copy_opt(&e.1.agent),
        });
        let ghost before = hourly@;
        push_hour_rows(&mut hourly, &e.0, &e.1.hourly_events);
        proof {
            assert(es@.take(i + 1).drop_last() =~= es@.take(i as int));
            assert(es@.take(i + 1).last() == es@[i as int]);
            let next = hourly_rows_of(es@.take(i + 1));
            assert forall|t: int| 0 <= t < hourly@.len() implies hourly_row_view(#[trigger] hourly@[t]) == next[t] by {
                if t < before.len() {
                    assert(hourly@[t] == before[t]);
                } else {
                    let u = t - before.len();
                    assert(hourly@[before.len() + u] == hourly@[t]);
                }
            }
        }
        i += 1;
    }
    assert(es@.take(es@.len() as int) =~= es@);
    let mut recent: Vec<RecentCacheRow> = Vec::new();
    let mut i: usize = 0;
    while i < stats.recent_events.len()
        invariant
            i <= stats.recent_events@.len(),
            recent@.len() == i,
            forall|t: int| 0 <= t < i ==> recent_row_view(#[trigger] recent@[t]) == pool_view(stats.recent_events@)[t],
        decreases stats.recent_events@.len() - i,
    {
        let a = &stats.recent_events[i];
        let ev = copy_event(&a.event);
        recent.push(RecentCacheRow {
            sort_key_ms: a.sort_key_ms,
            timestamp_display: ev.timestamp,
            session_id: ev.session,
            agent: ev.agent,
            event_type: ev.event_type,
            preview: ev.preview,
        });
        i += 1;
    }
    let tools = count_rows(&stats.tool_counts);
    let models = count_rows(&stats.model_counts);
    let mut hooks: Vec<HookCacheRow> = Vec::new();
    let mut i: usize = 0;
    while i < stats.hook_stats.entries.len()
        invariant
            i <= stats.hook_stats.entries@.len(),
            hooks@.len() == i,
            forall|t: int| 0 <= t < i ==> hook_row_view(#[trigger] hooks@[t]) == (
                stats.hook_stats.entries@[t].0@,
                stats.hook_stats.entries@[t].1.count as i64,
                stats.hook_stats.entries@[t].1.total_ms,
            ),
        decreases stats.hook_stats.entries@.len() - i,
    {
        let e = &stats.hook_stats.entries[i];
        hooks.push(HookCacheRow { command: e.0.clone(), count: e.1.count as i64, total_ms: e.1.total_ms });
        i += 1;
    }
    let mut durations: Vec<i64> = Vec::new();
    let mut i: usize = 0;
    while i < stats.turn_durations.len()
        invariant
            i <= stats.turn_durations@.len(),
            durations@ == stats.turn_durations@.take(i as int),
        decreases stats.turn_durations@.len() - i,
    {
        durations.push(stats.turn_durations[i]);
        assert(durations@ =~= stats.turn_durations@.take(i + 1));
        i += 1;
    }
    assert(durations@ =~= stats.turn_durations@);
    CachedFile {
        event_count: stats.event_count as i64,
        sessions,
        recent,
        tokens: Some(TokenCacheRow {
            input_tokens: stats.token_usage.input_tokens,
            output_tokens: stats.token_usage.output_tokens,
            cache_read_tokens: stats.token_usage.cache_read_input_tokens,
            cache_creation_tokens: stats.token_usage.cache_creation_input_tokens,
            api_error_count: stats.api_error_count as i64,
            tool_error_count: stats.tool_error_count as i64,
        }),
        tools,
        durations,
        hooks,
        models,
        hourly,
    }
}

/// The count rows of a table of counts, one per entry.
fn count_rows(m: &NamedMap<u64>) -> (rows: Vec<CountCacheRow>)
    ensures
        rows@.len() == m.entries@.len(),
        forall|t: int| 0 <= t < rows@.len() ==> count_row_view(#[trigger] rows@[t]) == (m.entries@[t].0@, m.entries@[t].1 as i64),
{
    let mut rows: Vec<CountCacheRow> = Vec::new();
    let mut i: usize = 0;
    while i < m.entries.len()
        invariant
            i <= m.entries@.len(),
            rows@.len() == i,
            forall|t: int| 0 <= t < i ==> count_row_view(#[trigger] rows@[t]) == (m.entries@[t].0@, m.entries@[t].1 as i64),
        decreases m.entries@.len() - i,
    {
        rows.push(CountCacheRow { name: m.entries[i].0.clone(), count: m.entries[i].1 as i64 });
        i += 1;
    }
    rows
}

// ---------------------------------------------------------------------------
// Reading

/// The values of a session's statistics besides its hours.
pub open spec fn line_base(s: SessionLineStats) -> (u64, u64, Option<i64>, Option<Seq<char>>) {
    (s.events, s.bytes, s.last_seen_ms, opt_text(s.agent))
}

/// What a session row gives a session, besides its hours.
pub open spec fn row_base(r: SessionCacheRow) -> (u64, u64, Option<i64>, Option<Seq<char>>) {
    (r.events as u64, r.bytes as u64, r.last_seen_ms, opt_text(r.agent))
}

/// The sessions that session rows give, a later row for a session replacing an earlier.
pub open spec fn session_bases(rows: Seq<SessionCacheRow>) -> Map<Seq<char>, (u64, u64, Option<i64>, Option<Seq<char>>)>
    decreases rows.len(),
{
    if rows.len() == 0 {
        Map::empty()
    } else {
        session_bases(rows.drop_last()).insert(rows.last().session_id@, row_base(rows.last()))
    }
}

/// The events that hourly rows give session `k` in hour `h`: the count of the last row
/// for both, or zero.
pub open spec fn hour_count(rows: Seq<HourlyCacheRow>, k: Seq<char>, h: int) -> u64
    decreases rows.len(),
{
    if rows.len() == 0 {
        0
    } else if rows.last().session_id@ == k && rows.last().hour as usize == h {
        rows.last().count as u64
    } else {
        hour_count(rows.drop_last(), k, h)
    }
}

/// The counts that count rows give, a later row for a name replacing an earlier.
pub open spec fn count_map(rows: Seq<CountCacheRow>) -> Map<Seq<char>, u64>
    decreases rows.len(),
{
    if rows.len() == 0 {
        Map::empty()
    } else {
        count_map(rows.drop_last()).insert(rows.last().name@, rows.last().count as u64)
    }
}

/// The hook totals that hook rows give, a later row for a command replacing an earlier.
pub open spec fn hook_map(rows: Seq<HookCacheRow>) -> Map<Seq<char>, HookAccum>
    decreases rows.len(),
{
    if rows.len() == 0 {
        Map::empty()
    } else {
        hook_map(rows.drop_last()).insert(
            rows.last().command@,
            HookAccum { count: rows.last().count as u64, total_ms: rows.last().total_ms },
        )
    }
}

/// Whether `s` is the statistics that the cached rows `c` give back: counts read as
/// `u64`, no token row read as zero tokens and errors, and each session's hours taken
/// from the hourly rows.
pub open spec fn loads(s: FileScanStats, c: CachedFile) -> bool {
    &&& s.event_count == c.event_count as u64
    &&& s.session_stats.wf()
    &&& s.session_stats.as_map().dom() == session_bases(c.sessions@).dom()
    &&& forall|k: Seq<char>| #[trigger] s.session_stats.as_map().dom().contains(k) ==> {
        &&& line_base(s.session_stats.as_map()[k]) == session_bases(c.sessions@)[k]
        &&& forall|h: int| 0 <= h < 24 ==> #[trigger] s.session_stats.as_map()[k].hourly_events@[h] == hour_count(c.hourly@, k, h)
    }
    &&& s.recent_events@.len() == c.recent@.len()
    &&& forall|i: int| 0 <= i < c.recent@.len() ==> #[trigger] pool_view(s.recent_events@)[i] == recent_row_view(c.recent@[i])
    &&& match c.tokens {
        Some(t) => {
            &&& s.token_usage == (TokenUsage {
                input_tokens: t.input_tokens,
                output_tokens: t.output_tokens,
                cache_read_input_tokens: t.cache_read_tokens,
                cache_creation_input_tokens: t.cache_creation_tokens,
            })
            &&& s.api_error_count == t.api_error_count as u64
            &&& s.tool_error_count == t.tool_error_count as u64
        },
        None => {
            &&& s.token_usage == (TokenUsage {
                input_tokens: 0,
                output_tokens: 0,
                cache_read_input_tokens: 0,
                cache_creation_input_tokens: 0,
            })
            &&& s.api_error_count == 0
            &&& s.tool_error_count == 0
        },
    }
    &&& s.tool_counts.wf()
    &&& s.tool_counts.as_map() == count_map(c.tools@)
    &&& s.turn_durations@ == c.durations@
    &&& s.hook_stats.wf()
    &&& s.hook_stats.as_map() == hook_map(c.hooks@)
    &&& s.model_counts.wf()
    &&& s.model_counts.as_map() == count_map(c.models@)
}

/// The hours that hourly rows give session `k`.
fn hours_for(rows: &Vec<HourlyCacheRow>, k: &str) -> (hours: [u64; 24])
    ensures
        forall|h: int| 0 <= h < 24 ==> #[trigger] hours@[h] == hour_count(rows@, k@, h),
{
    let mut hours = [0u64; 24];
    let mut j: usize = 0;
    while j < rows.len()
        invariant
            j <= rows@.len(),
            forall|h: int| 0 <= h < 24 ==> #[trigger] hours@[h] == hour_count(rows@.take(j as int), k@, h),
        decreases rows@.len() - j,
    {
        let r = &rows[j];
        proof {
            assert(rows@.take(j + 1).drop_last() =~= rows@.take(j as int));
            assert(rows@.take(j + 1).last() == rows@[j as int]);
        }
        let slot = r.hour as usize;
        if same_text(r.session_id.as_str(), k) && slot < 24 {
            hours[slot] = r.count as u64;
        }
        j += 1;
    }
    assert(rows@.take(rows@.len() as int) =~= rows@);
    hours
}

/// The counts that count rows give.
fn count_table(rows: &Vec<CountCacheRow>) -> (m: NamedMap<u64>)
    ensures
        m.wf(),
        m.as_map() == count_map(rows@),
{
    let mut m: NamedMap<u64> = NamedMap::new();
    assert(m.as_map() =~= Map::<Seq<char>, u64>::empty());
    let mut j: usize = 0;
    while j < rows.len()
        invariant
            j <= rows@.len(),
            m.wf(),
            m.as_map() == count_map(rows@.take(j as int)),
        decreases rows@.len() - j,
    {
        proof {
            assert(rows@.take(j + 1).drop_last() =~= rows@.take(j as int));
            assert(rows@.take(j + 1).last() == rows@[j as int]);
        }
        m.insert(rows[j].name.as_str(), rows[j].count as u64);
        j += 1;
    }
    assert(rows@.take(rows@.len() as int) =~= rows@);
    m
}

/// The file statistics that the cached rows `c` give back.
pub fn stats_from_cache(c: &CachedFile) -> (s: FileScanStats)
    ensures
        loads(s, *c),
{
    let mut sessions: NamedMap<SessionLineStats> = NamedMap::new();
    assert(sessions.as_map() =~= Map::<Seq<char>, SessionLineStats>::empty());
    let mut j: usize = 0;
    while j < c.sessions.len()
        invariant
            j <= c.sessions@.len(),
            sessions.wf(),
            sessions.as_map().dom() == session_bases(c.sessions@.take(j as int)).dom(),
            forall|k: Seq<char>| #[trigger] sessions.as_map().dom().contains(k) ==> {
                &&& line_base(sessions.as_map()[k]) == session_bases(c.sessions@.take(j as int))[k]
                &&& forall|h: int| 0 <= h < 24 ==> #[trigger] sessions.as_map()[k].hourly_events@[h] == hour_count(c.hourly@, k, h)
            },
        decreases c.sessions@.len() - j,
    {
        proof {
            assert(c.sessions@.take(j + 1).drop_last() =~= c.sessions@.take(j as int));
            assert(c.sessions@.take(j + 1).last() == c.sessions@[j as int]);
        }
        let r = &c.sessions[j];
        let st = SessionLineStats {
            events: r.events as u64,
            bytes: r.bytes as u64,
            last_seen_ms: r.last_seen_ms,
            agent: copy_opt(&r.agent),
            hourly_events: hours_for(&c.hourly, r.session_id.as_str()),
        };
        sessions.insert(r.session_id.as_str(), st);
        proof {
            let next = session_bases(c.sessions@.take(j + 1));
            assert(sessions.as_map().dom() =~= next.dom());
        }
        j += 1;
    }
    assert(c.sessions@.take(c.sessions@.len() as int) =~= c.sessions@);
    let mut recent: Vec<RecentEventAccum> = Vec::new();
    let mut j: usize = 0;
    while j < c.recent.len()
        invariant
            j <= c.recent@.len(),
            recent@.len() == j,
            forall|t: int| 0 <= t < j ==> recent_view(#[trigger] recent@[t]) == recent_row_view(c.recent@[t]),
        decreases c.recent@.len() - j,
    {
        let r = &c.recent[j];
        recent.push(RecentEventAccum {
            sort_key_ms: r.sort_key_ms,
            event: RecentEvent {
                timestamp: r.timestamp_display.clone(),
                session: r.session_id.clone(),
                agent: r.agent.clone(),
                event_type: r.event_type.clone(),
                preview: r.preview.clone(),
            },
        });
        j += 1;
    }
    let (token_usage, api_error_count, tool_error_count) = match &c.tokens {
        Some(t) => (
            TokenUsage {
                input_tokens: t.input_tokens,
                output_tokens: t.output_tokens,
                cache_read_input_tokens: t.cache_read_tokens,
                cache_creation_input_tokens: t.cache_creation_tokens,
            },
            t.api_error_count as u64,
            t.tool_error_count as u64,
        ),
        None => (TokenUsage::default(), 0u64, 0u64),
    };
    assert forall|t: int| 0 <= t < c.recent@.len() implies #[trigger] pool_view(recent@)[t] == recent_row_view(c.recent@[t]) by {
        assert(pool_view(recent@)[t] == recent_view(recent@[t]));
    }
    let mut hooks: NamedMap<HookAccum> = NamedMap::new();
    assert(hooks.as_map() =~= Map::<Seq<char>, HookAccum>::empty());
    let mut j: usize = 0;
    while j < c.hooks.len()
        invariant
            j <= c.hooks@.len(),
            hooks.wf(),
            hooks.as_map() == hook_map(c.hooks@.take(j as int)),
        decreases c.hooks@.len() - j,
    {
        proof {
            assert(c.hooks@.take(j + 1).drop_last() =~= c.hooks@.take(j as int));
            assert(c.hooks@.take(j + 1).last() == c.hooks@[j as int]);
        }
        let r = &c.hooks[j];
        hooks.insert(r.command.as_str(), HookAccum { count: r.count as u64, total_ms: r.total_ms });
        j += 1;
    }
    assert(c.hooks@.take(c.hooks@.len() as int) =~= c.hooks@);
    let mut durations: Vec<i64> = Vec::new();
    let mut j: usize = 0;
    while j < c.durations.len()
        invariant
            j <= c.durations@.len(),
            durations@ == c.durations@.take(j as int),
        decreases c.durations@.len() - j,
    {
        durations.push(c.durations[j]);
        assert(durations@ =~= c.durations@.take(j + 1));
        j += 1;
    }
    assert(durations@ =~= c.durations@);
    FileScanStats {
        event_count: c.event_count as u64,
        session_stats: sessions,
        recent_events: recent,
        token_usage,
        tool_counts: count_table(&c.tools),
        turn_durations: durations,
        hook_stats: hooks,
        api_error_count,
        tool_error_count,
        model_counts: count_table(&c.models),
    }
}

// ---------------------------------------------------------------------------
// Reading back what was written

/// Whether the tables of `s` hold each name once.
pub open spec fn stats_wf(s: FileScanStats) -> bool {
    &&& s.session_stats.wf()
    &&& s.tool_counts.wf()
    &&& s.hook_stats.wf()
    &&& s.model_counts.wf()
}

/// Whether `a` and `b` hold the same statistics: the same counts, sessions with the same
/// hours, recent events, tokens, tools, durations, hooks, errors and models.
pub open spec fn same_stats(a: FileScanStats, b: FileScanStats) -> bool {
    &&& a.event_count == b.event_count
    &&& a.session_stats.as_map().dom() == b.session_stats.as_map().dom()
    &&& forall|k: Seq<char>| #[trigger] a.session_stats.as_map().dom().contains(k) ==> {
        &&& line_base(a.session_stats.as_map()[k]) == line_base(b.session_stats.as_map()[k])
        &&& a.session_stats.as_map()[k].hourly_events@ == b.session_stats.as_map()[k].hourly_events@
    }
    &&& pool_view(a.recent_events@) == pool_view(b.recent_events@)
    &&& a.token_usage == b.token_usage
    &&& a.tool_counts.as_map() == b.tool_counts.as_map()
    &&& a.turn_durations@ == b.turn_durations@
    &&& a.hook_stats.as_map() == b.hook_stats.as_map()
    &&& a.api_error_count == b.api_error_count
    &&& a.tool_error_count == b.tool_error_count
    &&& a.model_counts.as_map() == b.model_counts.as_map()
}

/// The map that entries give, a later entry for a name replacing an earlier.
pub open spec fn entry_map<V>(es: Seq<(String, V)>) -> Map<Seq<char>, V>
    decreases es.len(),
{
    if es.len() == 0 {
        Map::empty()
    } else {
        entry_map(es.drop_last()).insert(es.last().0@, es.last().1)
    }
}

/// Whether no name occurs twice among the entries.
pub open spec fn distinct_entries<V>(es: Seq<(String, V)>) -> bool {
    forall|i: int, j: int| 0 <= i < j < es.len() ==> #[trigger] es[i].0@ != #[trigger] es[j].0@
}

proof fn lemma_u64_through_i64(x: u64)
    ensures
        (x as i64) as u64 == x,
{
    assert((x as i64) as u64 == x) by (bit_vector);
}

proof fn lemma_entry_map<V>(es: Seq<(String, V)>)
    requires
        distinct_entries(es),
    ensures
        forall|i: int| 0 <= i < es.len() ==> #[trigger] entry_map(es).dom().contains(es[i].0@)
            && entry_map(es)[es[i].0@] == es[i].1,
        forall|k: Seq<char>| #[trigger] entry_map(es).dom().contains(k) ==> exists|i: int| 0 <= i < es.len() && es[i].0@ == k,
    decreases es.len(),
{
    if es.len() > 0 {
        let p = es.drop_last();
        lemma_entry_map(p);
        assert forall|i: int| 0 <= i < es.len() implies #[trigger] entry_map(es).dom().contains(es[i].0@)
            && entry_map(es)[es[i].0@] == es[i].1 by {
            if i < es.len() - 1 {
                assert(p.len() == es.len() - 1);
                assert(0 <= i < p.len());
                assert(p[i] == es[i]);
                assert(entry_map(p).dom().contains(p[i].0@));
                assert(entry_map(p)[p[i].0@] == p[i].1);
                assert(es[i].0@ != es[es.len() - 1].0@);
            }
        }
        assert forall|k: Seq<char>| #[trigger] entry_map(es).dom().contains(k) implies exists|i: int| 0 <= i < es.len() && es[i].0@ == k by {
            if k != es.last().0@ {
                assert(entry_map(p).dom().contains(k));
                let i = choose|i: int| 0 <= i < p.len() && p[i].0@ == k;
                assert(p[i] == es[i]);
                assert(es[i].0@ == k);
            } else {
                assert(es[es.len() - 1].0@ == k);
            }
        }
    }
}

/// A table with distinct names is the map its entries give.
proof fn lemma_table_is_entry_map<V>(m: NamedMap<V>)
    requires
        m.wf(),
    ensures
        m.as_map() == entry_map(m.entries@),
{
    let es = m.entries@;
    lemma_entry_map(es);
    assert forall|k: Seq<char>| #[trigger] m.as_map().dom().contains(k) <==> entry_map(es).dom().contains(k) by {
        if m.has(k) {
            let i = choose|i: int| 0 <= i < es.len() && #[trigger] es[i].0@ == k;
            assert(entry_map(es).dom().contains(es[i].0@));
        }
        if entry_map(es).dom().contains(k) {
            let i = choose|i: int| 0 <= i < es.len() && es[i].0@ == k;
            assert(m.entries@[i].0@ == k);
        }
    }
    assert forall|k: Seq<char>| #[trigger] m.as_map().dom().contains(k) implies m.as_map()[k] == entry_map(es)[k] by {
        let i = choose|i: int| 0 <= i < es.len() && #[trigger] es[i].0@ == k;
        m.lemma_position(i);
    }
    assert(m.as_map() =~= entry_map(es));
}

proof fn lemma_count_rows(rows: Seq<CountCacheRow>, es: Seq<(String, u64)>)
    requires
        rows.len() == es.len(),
        forall|i: int| 0 <= i < rows.len() ==> count_row_view(#[trigger] rows[i]) == (es[i].0@, es[i].1 as i64),
    ensures
        count_map(rows) == entry_map(es),
    decreases rows.len(),
{
    if rows.len() > 0 {
        lemma_count_rows(rows.drop_last(), es.drop_last());
        assert(count_row_view(rows[rows.len() - 1]) == (es[es.len() - 1].0@, es[es.len() - 1].1 as i64));
        lemma_u64_through_i64(es.last().1);
    }
}

proof fn lemma_hook_rows(rows: Seq<HookCacheRow>, es: Seq<(String, HookAccum)>)
    requires
        rows.len() == es.len(),
        forall|i: int| 0 <= i < rows.len() ==> hook_row_view(#[trigger] rows[i]) == (es[i].0@, es[i].1.count as i64, es[i].1.total_ms),
    ensures
        hook_map(rows) == entry_map(es),
    decreases rows.len(),
{
    if rows.len() > 0 {
        lemma_hook_rows(rows.drop_last(), es.drop_last());
        assert(hook_row_view(rows[rows.len() - 1]) == (es[es.len() - 1].0@, es[es.len() - 1].1.count as i64, es[es.len() - 1].1.total_ms));
        lemma_u64_through_i64(es.last().1.count);
    }
}

proof fn lemma_session_rows(rows: Seq<SessionCacheRow>, es: Seq<(String, SessionLineStats)>)
    requires
        rows.len() == es.len(),
        forall|i: int| 0 <= i < rows.len() ==> session_row_view(#[trigger] rows[i]) == session_row_of(es[i]),
    ensures
        session_bases(rows).dom() == entry_map(es).dom(),
        forall|k: Seq<char>| #[trigger] session_bases(rows).dom().contains(k) ==> session_bases(rows)[k] == line_base(entry_map(es)[k]),
    decreases rows.len(),
{
    if rows.len() > 0 {
        lemma_session_rows(rows.drop_last(), es.drop_last());
        let r = rows[rows.len() - 1];
        let e = es[es.len() - 1];
        assert(session_row_view(r) == session_row_of(e));
        lemma_u64_through_i64(e.1.events);
        lemma_u64_through_i64(e.1.bytes);
        assert(row_base(r) == line_base(e.1));
        assert(session_bases(rows).dom() =~= entry_map(es).dom());
    }
}

/// The count of the last row of session `k` and hour `h` among row values.
pub open spec fn last_count(rows: Seq<(Seq<char>, i64, i64)>, k: Seq<char>, h: int) -> Option<i64>
    decreases rows.len(),
{
    if rows.len() == 0 {
        None
    } else if rows.last().0 == k && rows.last().1 as usize == h {
        Some(rows.last().2)
    } else {
        last_count(rows.drop_last(), k, h)
    }
}

proof fn lemma_hour_count_views(rows: Seq<HourlyCacheRow>, views: Seq<(Seq<char>, i64, i64)>, k: Seq<char>, h: int)
    requires
        rows.len() == views.len(),
        forall|i: int| 0 <= i < rows.len() ==> hourly_row_view(#[trigger] rows[i]) == views[i],
    ensures
        hour_count(rows, k, h) == match last_count(views, k, h) {
            Some(n) => n as u64,
            None => 0u64,
        },
    decreases rows.len(),
{
    if rows.len() > 0 {
        assert(hourly_row_view(rows[rows.len() - 1]) == views[views.len() - 1]);
        lemma_hour_count_views(rows.drop_last(), views.drop_last(), k, h);
    }
}

proof fn lemma_last_count_concat(a: Seq<(Seq<char>, i64, i64)>, b: Seq<(Seq<char>, i64, i64)>, k: Seq<char>, h: int)
    ensures
        last_count(a + b, k, h) == if last_count(b, k, h) is Some { last_count(b, k, h) } else { last_count(a, k, h) },
    decreases b.len(),
{
    if b.len() == 0 {
        assert(a + b =~= a);
    } else {
        assert((a + b).drop_last() =~= a + b.drop_last());
        assert((a + b).last() == b.last());
        lemma_last_count_concat(a, b.drop_last(), k, h);
    }
}

proof fn lemma_hour_rows_count(k2: Seq<char>, hours: Seq<u64>, n: int, k: Seq<char>, h: int)
    requires
        0 <= n <= 24,
        hours.len() == 24,
    ensures
        k2 != k || h < 0 || h >= n ==> last_count(hour_rows(k2, hours, n), k, h) is None,
        k2 == k && 0 <= h < n ==> last_count(hour_rows(k2, hours, n), k, h) == if hours[h] > 0 {
            Some(hours[h] as i64)
        } else {
            None::<i64>
        },
    decreases n,
{
    if n > 0 {
        lemma_hour_rows_count(k2, hours, n - 1, k, h);
        let m = n - 1;
        assert(((m as i64) as usize) == m);
        let r = hour_rows(k2, hours, m);
        let x = (k2, m as i64, hours[m] as i64);
        assert(r.push(x).drop_last() =~= r);
        assert(r.push(x).last() == x);
    }
}

proof fn lemma_hourly_rows_count(es: Seq<(String, SessionLineStats)>, k: Seq<char>, h: int)
    requires
        distinct_entries(es),
        0 <= h < 24,
    ensures
        (forall|i: int| 0 <= i < es.len() ==> #[trigger] es[i].0@ != k) ==> last_count(hourly_rows_of(es), k, h) is None,
        forall|i: int| 0 <= i < es.len() && #[trigger] es[i].0@ == k ==> last_count(hourly_rows_of(es), k, h) == if es[i].1.hourly_events@[h] > 0 {
            Some(es[i].1.hourly_events@[h] as i64)
        } else {
            None::<i64>
        },
    decreases es.len(),
{
    if es.len() > 0 {
        let p = es.drop_last();
        let last = es.last();
        lemma_hourly_rows_count(p, k, h);
        lemma_last_count_concat(hourly_rows_of(p), hour_rows(last.0@, last.1.hourly_events@, 24), k, h);
        lemma_hour_rows_count(last.0@, last.1.hourly_events@, 24, k, h);
        assert forall|i: int| 0 <= i < es.len() && #[trigger] es[i].0@ == k implies last_count(hourly_rows_of(es), k, h) == if es[i].1.hourly_events@[h] > 0 {
            Some(es[i].1.hourly_events@[h] as i64)
        } else {
            None::<i64>
        } by {
            if i < es.len() - 1 {
                assert(es[i].0@ != es[es.len() - 1].0@);
                assert(p[i] == es[i]);
            } else {
                assert forall|j: int| 0 <= j < p.len() implies #[trigger] p[j].0@ != k by {
                    assert(p[j] == es[j]);
                    assert(es[j].0@ != es[es.len() - 1].0@);
                }
            }
        }
        if forall|i: int| 0 <= i < es.len() ==> #[trigger] es[i].0@ != k {
            assert forall|j: int| 0 <= j < p.len() implies #[trigger] p[j].0@ != k by {
                assert(p[j] == es[j]);
            }
            assert(es[es.len() - 1].0@ != k);
        }
    }
}

/// Statistics stored in the cache and read back are the statistics that were stored.
pub proof fn lemma_cache_round_trip(s: FileScanStats, c: CachedFile, back: FileScanStats)
    requires
        stats_wf(s),
        stores(c, s),
        loads(back, c),
    ensures
        same_stats(back, s),
{
    lemma_u64_through_i64(s.event_count);
    lemma_u64_through_i64(s.api_error_count);
    lemma_u64_through_i64(s.tool_error_count);
    let es = s.session_stats.entries@;
    assert(distinct_entries(es));
    lemma_table_is_entry_map(s.session_stats);
    lemma_table_is_entry_map(s.tool_counts);
    lemma_table_is_entry_map(s.hook_stats);
    lemma_table_is_entry_map(s.model_counts);
    lemma_count_rows(c.tools@, s.tool_counts.entries@);
    lemma_count_rows(c.models@, s.model_counts.entries@);
    lemma_hook_rows(c.hooks@, s.hook_stats.entries@);
    lemma_session_rows(c.sessions@, es);
    lemma_entry_map(es);
    assert forall|k: Seq<char>| #[trigger] back.session_stats.as_map().dom().contains(k) implies {
        &&& line_base(back.session_stats.as_map()[k]) == line_base(s.session_stats.as_map()[k])
        &&& back.session_stats.as_map()[k].hourly_events@ == s.session_stats.as_map()[k].hourly_events@
    } by {
        let i = choose|i: int| 0 <= i < es.len() && es[i].0@ == k;
        let hs = es[i].1.hourly_events@;
        assert(s.session_stats.as_map()[k] == es[i].1);
        assert forall|h: int| 0 <= h < 24 implies #[trigger] back.session_stats.as_map()[k].hourly_events@[h] == hs[h] by {
            lemma_hour_count_views(c.hourly@, hourly_rows_of(es), k, h);
            lemma_hourly_rows_count(es, k, h);
            assert(es[i].0@ == k);
            if hs[h] > 0 {
                lemma_u64_through_i64(hs[h]);
            }
        }
        assert(back.session_stats.as_map()[k].hourly_events@ =~= hs);
    }
    assert(pool_view(back.recent_events@) =~= pool_view(s.recent_events@)) by {
        assert forall|i: int| 0 <= i < c.recent@.len() implies pool_view(back.recent_events@)[i] == pool_view(s.recent_events@)[i] by {
            assert(recent_row_view(c.recent@[i]) == pool_view(s.recent_events@)[i]);
        }
    }
}

// ---------------------------------------------------------------------------
// Stale entries

/// The texts of some strings.
pub open spec fn texts(v: Seq<String>) -> Seq<Seq<char>> {
    Seq::new(v.len(), |i: int| v[i]@)
}

/// The cached paths that are not among `valid`, in their order.
pub open spec fn stale_of(cached: Seq<Seq<char>>, valid: Seq<Seq<char>>) -> Seq<Seq<char>>
    decreases cached.len(),
{
    if cached.len() == 0 {
        seq![]
    } else {
        let r = stale_of(cached.drop_last(), valid);
        if valid.contains(cached.last()) { r } else { r.push(cached.last()) }
    }
}

fn contains_text(v: &Vec<String>, t: &String) -> (r: bool)
    ensures
        r == texts(v@).contains(t@),
{
    let mut i: usize = 0;
    while i < v.len()
        invariant
            i <= v@.len(),
            forall|j: int| 0 <= j < i ==> v@[j]@ != t@,
        decreases v@.len() - i,
    {
        if v[i] == *t {
            assert(texts(v@)[i as int] == t@);
            return true;
        }
        i += 1;
    }
    proof {
        if texts(v@).contains(t@) {
            let j = choose|j: int| 0 <= j < texts(v@).len() && texts(v@)[j] == t@;
            assert(v@[j]@ == t@);
        }
    }
    false
}

/// The cached paths whose files are no longer among the valid paths: the entries to
/// remove from the cache.
pub fn stale_paths(cached: &Vec<String>, valid: &Vec<String>) -> (out: Vec<String>)
    ensures
        texts(out@) == stale_of(texts(cached@), texts(valid@)),
{
    let mut out: Vec<String> = Vec::new();
    let mut i: usize = 0;
    while i < cached.len()
        invariant
            i <= cached@.len(),
            texts(out@) == stale_of(texts(cached@).take(i as int), texts(valid@)),
        decreases cached@.len() - i,
    {
        proof {
            assert(texts(cached@).take(i + 1).drop_last() =~= texts(cached@).take(i as int));
            assert(texts(cached@).take(i + 1).last() == cached@[i as int]@);
        }
        if !contains_text(valid, &cached[i]) {
            let ghost before = out@;
            out.push(cached[i].clone());
            assert(texts(out@) =~= texts(before).push(cached@[i as int]@));
        }
        i += 1;
    }
    assert(texts(cached@).take(cached@.len() as int) =~= texts(cached@));
    out
}

} // verus!
