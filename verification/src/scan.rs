//! Scanning the lines of event files into per-file statistics.
use vstd::prelude::*;

use vstd::utf8::encode_utf8;

use crate::json::{json_document, parse_json, JsonValue};
pub use crate::summary::build_summary;
use crate::models::{EventFile, FileScanStats, HookAccum, HookInfo, RecentEventAccum, SessionLineStats, TokenUsage};
use crate::named::NamedMap;
use crate::text::{owned, same_text};
use crate::parse::{
    event_agent, event_hook_runs, event_is_api_error, event_is_tool_error, event_model,
    event_preview, event_session, event_timestamp, event_token_usage, event_tool_uses,
    classify_file_type, event_turn_duration, event_type, hook_pair, hook_pairs, is_text_channel,
    parse_event_json, parsed_from, texts, extract_hook_infos, extract_token_usage, extract_tool_uses,
};

verus! {

/// A recent event as values: its key, timestamp text, session, agent, type and preview.
pub type RecentView = (i64, Seq<char>, Seq<char>, Seq<char>, Seq<char>, Seq<char>);

/// The values of a recent event.
pub open spec fn recent_view(a: RecentEventAccum) -> RecentView {
    (a.sort_key_ms, a.event.timestamp@, a.event.session@, a.event.agent@, a.event.event_type@,
        a.event.preview@)
}

/// The values of a pool of recent events.
pub open spec fn pool_view(pool: Seq<RecentEventAccum>) -> Seq<RecentView> {
    pool.map_values(|a: RecentEventAccum| recent_view(a))
}

/// How many recent events a pool keeps.
pub const RECENT_LIMIT: usize = 5;

/// The position at which `key` goes into `s`: before the first element with a smaller key.
pub open spec fn recency_slot(s: Seq<RecentView>, key: i64) -> int
    decreases s.len(),
{
    if s.len() == 0 {
        0
    } else if s[0].0 < key {
        0
    } else {
        1 + recency_slot(s.drop_first(), key)
    }
}

/// `s` ordered by decreasing key, equal keys in the order they came (a stable sort).
pub open spec fn by_recency(s: Seq<RecentView>) -> Seq<RecentView>
    decreases s.len(),
{
    if s.len() == 0 {
        s
    } else {
        let sorted = by_recency(s.drop_last());
        sorted.insert(recency_slot(sorted, s.last().0), s.last())
    }
}

/// The pool after adding `event`: the most recent `RECENT_LIMIT` of both.
pub open spec fn pool_after(pool: Seq<RecentView>, event: RecentView) -> Seq<RecentView> {
    let all = by_recency(pool.push(event));
    if all.len() > RECENT_LIMIT {
        all.take(RECENT_LIMIT as int)
    } else {
        all
    }
}

proof fn lemma_recency_slot(s: Seq<RecentView>, key: i64, j: int)
    requires
        0 <= j <= s.len(),
        forall|t: int| 0 <= t < j ==> #[trigger] s[t].0 >= key,
        j == s.len() || s[j].0 < key,
    ensures
        recency_slot(s, key) == j,
    decreases s.len(),
{
    if s.len() > 0 && j > 0 {
        assert forall|t: int| 0 <= t < j - 1 implies #[trigger] s.drop_first()[t].0 >= key by {
            assert(s.drop_first()[t] == s[t + 1]);
        }
        lemma_recency_slot(s.drop_first(), key, j - 1);
    }
}

/// Whether the keys of `s` do not grow from first to last.
pub open spec fn newest_first(s: Seq<RecentView>) -> bool {
    forall|i: int, j: int| 0 <= i < j < s.len() ==> #[trigger] s[i].0 >= #[trigger] s[j].0
}

pub(crate) proof fn lemma_slot_bounds(s: Seq<RecentView>, key: i64)
    ensures
        0 <= recency_slot(s, key) <= s.len(),
        forall|t: int| 0 <= t < recency_slot(s, key) ==> #[trigger] s[t].0 >= key,
        recency_slot(s, key) < s.len() ==> s[recency_slot(s, key)].0 < key,
    decreases s.len(),
{
    if s.len() > 0 && s[0].0 >= key {
        lemma_slot_bounds(s.drop_first(), key);
        assert forall|t: int| 0 <= t < recency_slot(s, key) implies #[trigger] s[t].0 >= key by {
            if t > 0 {
                assert(s[t] == s.drop_first()[t - 1]);
            }
        }
        if recency_slot(s, key) < s.len() {
            assert(s[recency_slot(s, key)] == s.drop_first()[recency_slot(s, key) - 1]);
        }
    }
}

/// Ordering by recency sorts newest first and keeps every event, as often as it occurs.
pub(crate) proof fn lemma_by_recency(s: Seq<RecentView>)
    ensures
        by_recency(s).len() == s.len(),
        newest_first(by_recency(s)),
        by_recency(s).to_multiset() == s.to_multiset(),
    decreases s.len(),
{
    broadcast use vstd::seq_lib::group_to_multiset_ensures;

    if s.len() > 0 {
        let p = s.drop_last();
        let x = s.last();
        lemma_by_recency(p);
        let sorted = by_recency(p);
        let j = recency_slot(sorted, x.0);
        lemma_slot_bounds(sorted, x.0);
        let r = sorted.insert(j, x);
        assert(r == by_recency(s));
        assert forall|a: int, b: int| 0 <= a < b < r.len() implies #[trigger] r[a].0 >= #[trigger] r[b].0 by {
            if b < j {
                assert(r[a] == sorted[a] && r[b] == sorted[b]);
            } else if b == j {
                assert(r[a] == sorted[a]);
            } else if a < j {
                assert(r[a] == sorted[a] && r[b] == sorted[b - 1]);
            } else if a == j {
                assert(r[b] == sorted[b - 1]);
                assert(sorted[j].0 >= sorted[b - 1].0);
            } else {
                assert(r[a] == sorted[a - 1] && r[b] == sorted[b - 1]);
            }
        }
        assert(s =~= p.push(x));
    }
}

/// A sequence already newest first is its own ordering by recency.
pub(crate) proof fn lemma_by_recency_of_sorted(s: Seq<RecentView>)
    requires
        newest_first(s),
    ensures
        by_recency(s) == s,
    decreases s.len(),
{
    if s.len() > 0 {
        let p = s.drop_last();
        assert(newest_first(p)) by {
            assert forall|i: int, j: int| 0 <= i < j < p.len() implies #[trigger] p[i].0 >= #[trigger] p[j].0 by {
                assert(p[i] == s[i] && p[j] == s[j]);
            }
        }
        lemma_by_recency_of_sorted(p);
        assert forall|t: int| 0 <= t < p.len() implies #[trigger] p[t].0 >= s.last().0 by {
            assert(p[t] == s[t]);
            assert(s.last() == s[s.len() - 1]);
        }
        lemma_recency_slot(p, s.last().0, p.len() as int);
        assert(p.insert(p.len() as int, s.last()) =~= s);
    }
}

/// Ordering a newest-first pool with one more event puts the event before the first
/// older one.
pub(crate) proof fn lemma_by_recency_push(pool: Seq<RecentView>, e: RecentView)
    requires
        newest_first(pool),
    ensures
        by_recency(pool.push(e)) == pool.insert(recency_slot(pool, e.0), e),
{
    lemma_by_recency_of_sorted(pool);
    assert(pool.push(e).drop_last() =~= pool);
    assert(pool.push(e).last() == e);
}

/// Adding an event to a pool keeps at most `RECENT_LIMIT` events, newest first; each kept
/// event comes from the pool or is the new one, and no event left out is newer than a
/// kept one.
pub proof fn lemma_pool_after_keeps_newest(pool: Seq<RecentView>, event: RecentView)
    ensures
        pool_after(pool, event).len() == if pool.len() + 1 > RECENT_LIMIT { RECENT_LIMIT as int } else { pool.len() + 1int },
        newest_first(pool_after(pool, event)),
        pool_after(pool, event).to_multiset().subset_of(pool.push(event).to_multiset()),
        forall|x: RecentView, i: int|
            0 <= i < pool_after(pool, event).len() && #[trigger] pool.push(event).to_multiset().count(x)
                > pool_after(pool, event).to_multiset().count(x) ==> x.0 <= #[trigger] pool_after(pool, event)[i].0,
{
    broadcast use vstd::seq_lib::group_to_multiset_ensures;

    let all = pool.push(event);
    let sorted = by_recency(all);
    lemma_by_recency(all);
    let kept = pool_after(pool, event);
    if sorted.len() > RECENT_LIMIT {
        let n = RECENT_LIMIT as int;
        let rest = sorted.skip(n);
        assert(sorted =~= kept + rest);
        vstd::seq_lib::lemma_multiset_commutative(kept, rest);
        assert forall|x: RecentView, i: int|
            0 <= i < kept.len() && #[trigger] all.to_multiset().count(x) > kept.to_multiset().count(x) implies x.0
                <= #[trigger] kept[i].0 by {
            assert(rest.to_multiset().count(x) > 0);
            assert(rest.contains(x));
            let m = choose|m: int| 0 <= m < rest.len() && rest[m] == x;
            assert(sorted[n + m] == x);
            assert(sorted[i] == kept[i]);
        }
    }
}

fn insert_by_recency(sorted: &mut Vec<RecentEventAccum>, e: RecentEventAccum)
    ensures
        pool_view(final(sorted)@) == pool_view(old(sorted)@).insert(
            recency_slot(pool_view(old(sorted)@), e.sort_key_ms),
            recent_view(e),
        ),
{
    let ghost before = sorted@;
    let mut j: usize = 0;
    while j < sorted.len() && sorted[j].sort_key_ms >= e.sort_key_ms
        invariant
            j <= sorted@.len(),
            forall|t: int| 0 <= t < j ==> #[trigger] sorted@[t].sort_key_ms >= e.sort_key_ms,
        decreases sorted@.len() - j,
    {
        j += 1;
    }
    proof {
        assert forall|t: int| 0 <= t < j implies #[trigger] pool_view(sorted@)[t].0 >= e.sort_key_ms by {
            assert(sorted@[t].sort_key_ms >= e.sort_key_ms);
        }
        lemma_recency_slot(pool_view(sorted@), e.sort_key_ms, j as int);
    }
    let ghost ev = recent_view(e);
    sorted.insert(j, e);
    assert(pool_view(sorted@) =~= pool_view(before).insert(j as int, ev));
}

/// Orders `items` by decreasing key, keeping equal keys in their order.
pub(crate) fn sort_by_recency(items: Vec<RecentEventAccum>) -> (out: Vec<RecentEventAccum>)
    ensures
        pool_view(out@) == by_recency(pool_view(items@)),
{
    let ghost all = items@;
    assert(all.len() == items.len());
    let mut rest = items;
    let mut out: Vec<RecentEventAccum> = Vec::new();
    let mut i: usize = 0;
    while rest.len() > 0
        invariant
            i + rest@.len() == all.len(),
            all.len() <= usize::MAX,
            rest@ == all.skip(i as int),
            pool_view(out@) == by_recency(pool_view(all.take(i as int))),
        decreases rest@.len(),
    {
        let e = rest.remove(0);
        assert(pool_view(all.take(i + 1)).drop_last() =~= pool_view(all.take(i as int)));
        assert(all.take(i + 1).last() == e);
        insert_by_recency(&mut out, e);
        assert(rest@ =~= all.skip(i + 1));
        i += 1;
    }
    assert(all.take(i as int) =~= all);
    out
}

/// Adds `event` to the pool and keeps the `RECENT_LIMIT` most recent, newest first.
pub fn insert_recent_event(recent_pool: &mut Vec<RecentEventAccum>, event: RecentEventAccum)
    ensures
        pool_view(final(recent_pool)@) == pool_after(pool_view(old(recent_pool)@), recent_view(event)),
{
    let ghost before = recent_pool@;
    let ghost ev = recent_view(event);
    let mut taken: Vec<RecentEventAccum> = Vec::new();
    std::mem::swap(&mut taken, recent_pool);
    taken.push(event);
    assert(pool_view(taken@) =~= pool_view(before).push(ev));
    let mut sorted = sort_by_recency(taken);
    if sorted.len() > RECENT_LIMIT {
        let ghost full = sorted@;
        sorted.truncate(RECENT_LIMIT);
        assert(pool_view(sorted@) =~= pool_view(full).take(RECENT_LIMIT as int));
    }
    *recent_pool = sorted;
}


// ---------------------------------------------------------------------------
// Lines and their sessions

/// One line of an event file: its text and the JSON document it parses to, if any.
pub struct LogLine {
    pub text: String,
    pub json: Option<JsonValue>,
}

/// The number of bytes of `s` in UTF-8.
pub open spec fn byte_len(s: Seq<char>) -> nat {
    encode_utf8(s).len()
}

/// The session a line is counted under: the event's session, or the file's for a
/// line that is not JSON.
pub open spec fn line_session(l: LogLine, ef: EventFile) -> Seq<char> {
    match l.json {
        Some(v) => event_session(v, ef.session@),
        None => ef.session@,
    }
}

/// The timestamp of a JSON line, in milliseconds.
pub open spec fn line_stamp(l: LogLine) -> Option<i64> {
    match l.json {
        Some(v) => match event_timestamp(v) {
            Some((ms, _)) => Some(ms),
            None => None,
        },
        None => None,
    }
}

/// The agent named by a JSON line, if it names one other than `unknown`.
pub open spec fn line_agent(l: LogLine) -> Option<Seq<char>> {
    match l.json {
        Some(v) => if event_agent(v) != "unknown"@ { Some(event_agent(v)) } else { None },
        None => None,
    }
}

/// Rust's `/` on integers: the quotient rounded toward zero.
pub open spec fn quot(a: int, b: int) -> int {
    if a >= 0 { a / b } else { -((-a) / b) }
}

/// Rust's `%` on integers: the remainder with the sign of `a`.
pub open spec fn rem(a: int, b: int) -> int {
    a - b * quot(a, b)
}

/// The hour of day of the instant `ms` as `(ms / 1000) % 86400 / 3600` computes it.
pub open spec fn hour_slot(ms: i64) -> int {
    quot(rem(quot(ms as int, 1000), 86400), 3600)
}

/// The sessions that the lines are counted under.
pub open spec fn session_keys(lines: Seq<LogLine>, ef: EventFile) -> Set<Seq<char>>
    decreases lines.len(),
{
    if lines.len() == 0 {
        Set::empty()
    } else {
        session_keys(lines.drop_last(), ef).insert(line_session(lines.last(), ef))
    }
}

/// The lines counted under session `k`.
pub open spec fn session_events(lines: Seq<LogLine>, ef: EventFile, k: Seq<char>) -> nat
    decreases lines.len(),
{
    if lines.len() == 0 {
        0
    } else {
        session_events(lines.drop_last(), ef, k) + if line_session(lines.last(), ef) == k {
            1nat
        } else {
            0nat
        }
    }
}

/// The bytes of the lines counted under session `k`.
pub open spec fn session_bytes(lines: Seq<LogLine>, ef: EventFile, k: Seq<char>) -> nat
    decreases lines.len(),
{
    if lines.len() == 0 {
        0
    } else {
        session_bytes(lines.drop_last(), ef, k) + if line_session(lines.last(), ef) == k {
            byte_len(lines.last().text@)
        } else {
            0nat
        }
    }
}

/// The latest timestamp among the lines of session `k`.
pub open spec fn session_last_seen(lines: Seq<LogLine>, ef: EventFile, k: Seq<char>) -> Option<i64>
    decreases lines.len(),
{
    if lines.len() == 0 {
        None
    } else {
        let before = session_last_seen(lines.drop_last(), ef, k);
        if line_session(lines.last(), ef) == k {
            match line_stamp(lines.last()) {
                Some(ms) => match before {
                    Some(prev) => Some(if prev >= ms { prev } else { ms }),
                    None => Some(ms),
                },
                None => before,
            }
        } else {
            before
        }
    }
}

/// The first agent other than `unknown` named by a line of session `k`.
pub open spec fn session_agent(lines: Seq<LogLine>, ef: EventFile, k: Seq<char>) -> Option<Seq<char>>
    decreases lines.len(),
{
    if lines.len() == 0 {
        None
    } else {
        let before = session_agent(lines.drop_last(), ef, k);
        if before is None && line_session(lines.last(), ef) == k {
            line_agent(lines.last())
        } else {
            before
        }
    }
}

/// The lines of session `k` whose timestamp falls in hour `h` of the day.
pub open spec fn session_hour_events(lines: Seq<LogLine>, ef: EventFile, k: Seq<char>, h: int) -> nat
    decreases lines.len(),
{
    if lines.len() == 0 {
        0
    } else {
        session_hour_events(lines.drop_last(), ef, k, h) + if line_session(lines.last(), ef) == k
            && line_stamp(lines.last()) is Some && hour_slot(line_stamp(lines.last())->0) == h {
            1nat
        } else {
            0nat
        }
    }
}

/// The text of an optional string.
pub open spec fn opt_text(s: Option<String>) -> Option<Seq<char>> {
    match s {
        Some(t) => Some(t@),
        None => None,
    }
}

/// Whether `e` holds what the lines give for session `k`.
pub open spec fn session_matches(e: SessionLineStats, lines: Seq<LogLine>, ef: EventFile, k: Seq<char>) -> bool {
    &&& e.events == session_events(lines, ef, k)
    &&& e.bytes == session_bytes(lines, ef, k)
    &&& e.last_seen_ms == session_last_seen(lines, ef, k)
    &&& opt_text(e.agent) == session_agent(lines, ef, k)
    &&& forall|h: int| 0 <= h < 24 ==> #[trigger] e.hourly_events@[h] == session_hour_events(lines, ef, k, h)
}

/// Whether the session table holds what the lines give.
pub open spec fn sessions_match(m: NamedMap<SessionLineStats>, lines: Seq<LogLine>, ef: EventFile) -> bool {
    &&& m.wf()
    &&& m.as_map().dom() == session_keys(lines, ef)
    &&& forall|k: Seq<char>| #[trigger] m.as_map().dom().contains(k) ==> session_matches(m.as_map()[k], lines, ef, k)
}

proof fn lemma_session_events_bound(lines: Seq<LogLine>, ef: EventFile, k: Seq<char>)
    ensures
        session_events(lines, ef, k) <= lines.len(),
    decreases lines.len(),
{
    if lines.len() > 0 {
        lemma_session_events_bound(lines.drop_last(), ef, k);
    }
}

proof fn lemma_hour_events_bound(lines: Seq<LogLine>, ef: EventFile, k: Seq<char>, h: int)
    ensures
        session_hour_events(lines, ef, k, h) <= session_events(lines, ef, k),
    decreases lines.len(),
{
    if lines.len() > 0 {
        lemma_hour_events_bound(lines.drop_last(), ef, k, h);
    }
}

proof fn lemma_unseen_session(lines: Seq<LogLine>, ef: EventFile, k: Seq<char>)
    requires
        !session_keys(lines, ef).contains(k),
    ensures
        session_events(lines, ef, k) == 0,
        session_bytes(lines, ef, k) == 0,
        session_last_seen(lines, ef, k) is None,
        session_agent(lines, ef, k) is None,
        forall|h: int| #[trigger] session_hour_events(lines, ef, k, h) == 0,
    decreases lines.len(),
{
    if lines.len() > 0 {
        lemma_unseen_session(lines.drop_last(), ef, k);
        assert forall|h: int| #[trigger] session_hour_events(lines, ef, k, h) == 0 by {
            assert(session_hour_events(lines.drop_last(), ef, k, h) == 0);
        }
    }
}

/// A session entry with nothing counted yet.
fn empty_session() -> (e: SessionLineStats)
    ensures
        e.events == 0 && e.bytes == 0 && e.last_seen_ms is None && e.agent is None,
        forall|h: int| 0 <= h < 24 ==> #[trigger] e.hourly_events@[h] == 0,
{
    SessionLineStats { events: 0, bytes: 0, last_seen_ms: None, agent: None, hourly_events: [0u64; 24] }
}


/// The hour slot of `ms`, when it is an hour of the day.
fn hour_of_day(ms: i64) -> (r: Option<usize>)
    ensures
        match r {
            Some(h) => h < 24 && h as int == hour_slot(ms),
            None => !(0 <= hour_slot(ms) < 24),
        },
{
    let secs = ms / 1000;
    let in_day = secs % 86400;
    let hour = in_day / 3600;
    assert(secs == quot(ms as int, 1000));
    assert(in_day == rem(secs as int, 86400));
    assert(hour == quot(in_day as int, 3600));
    if 0 <= hour && hour < 24 {
        Some(hour as usize)
    } else {
        None
    }
}

/// Counts line `l`, the last of `prefix.push(l)`, in the session table.
fn record_session(
    sessions: &mut NamedMap<SessionLineStats>,
    Ghost(prefix): Ghost<Seq<LogLine>>,
    Ghost(l): Ghost<LogLine>,
    ef: &EventFile,
    key: &str,
    nbytes: u64,
    stamp: Option<i64>,
    agent: Option<&str>,
)
    requires
        sessions_match(*old(sessions), prefix, *ef),
        key@ == line_session(l, *ef),
        nbytes == byte_len(l.text@),
        stamp == line_stamp(l),
        match agent {
            Some(a) => line_agent(l) == Some(a@),
            None => line_agent(l) is None,
        },
        session_events(prefix, *ef, key@) < u64::MAX,
        session_bytes(prefix.push(l), *ef, key@) <= u64::MAX,
    ensures
        sessions_match(*final(sessions), prefix.push(l), *ef),
{
    let ghost lines = prefix.push(l);
    assert(lines.drop_last() =~= prefix);
    assert(lines.last() == l);
    let ghost k = key@;
    let ghost was_present = old(sessions).has(k);
    proof {
        if !old(sessions).as_map().dom().contains(k) {
            lemma_unseen_session(prefix, *ef, k);
        }
    }
    let idx = sessions.slot(key, empty_session());
    let ghost after_slot = *sessions;
    assert(after_slot.as_map().dom().contains(k));
    proof {
        after_slot.lemma_position(idx as int);
        lemma_hour_events_bound(prefix, *ef, k, 0);
    }
    let cur = &sessions.entries[idx].1;
    assert(*cur == after_slot.as_map()[k]);
    assert(session_matches(*cur, prefix, *ef, k));
    let events = cur.events + 1;
    let bytes = cur.bytes + nbytes;
    let last_seen_ms = match stamp {
        Some(ms) => match cur.last_seen_ms {
            Some(prev) => Some(if prev >= ms { prev } else { ms }),
            None => Some(ms),
        },
        None => cur.last_seen_ms,
    };
    let new_agent = match &cur.agent {
        Some(a) => Some(a.clone()),
        None => match agent {
            Some(a) => Some(String::from_str(a)),
            None => None,
        },
    };
    let mut hourly = cur.hourly_events;
    if let Some(ms) = stamp {
        if let Some(h) = hour_of_day(ms) {
            proof {
                lemma_hour_events_bound(prefix, *ef, k, h as int);
                lemma_session_events_bound(prefix, *ef, k);
            }
            hourly[h] = hourly[h] + 1;
        }
    }
    let updated = SessionLineStats { events, bytes, last_seen_ms, agent: new_agent, hourly_events: hourly };
    proof {
        assert forall|h: int| 0 <= h < 24 implies #[trigger] updated.hourly_events@[h]
            == session_hour_events(lines, *ef, k, h) by {
            assert(session_hour_events(lines, *ef, k, h) == session_hour_events(prefix, *ef, k, h) + if line_stamp(l) is Some
                && hour_slot(line_stamp(l)->0) == h {
                1nat
            } else {
                0nat
            });
        }
        assert(session_matches(updated, lines, *ef, k));
    }
    sessions.set_value(idx, updated);
    proof {
        let m = sessions.as_map();
        assert(m.dom() =~= session_keys(lines, *ef));
        assert forall|q: Seq<char>| #[trigger] m.dom().contains(q) implies session_matches(m[q], lines, *ef, q) by {
            if q != k {
                assert(after_slot.as_map()[q] == old(sessions).as_map()[q]);
                assert(session_matches(old(sessions).as_map()[q], prefix, *ef, q));
                assert forall|h: int| 0 <= h < 24 implies #[trigger] m[q].hourly_events@[h]
                    == session_hour_events(lines, *ef, q, h) by {
                    assert(session_hour_events(lines, *ef, q, h) == session_hour_events(prefix, *ef, q, h));
                }
            }
        }
    }
}


// ---------------------------------------------------------------------------
// Named counters

/// How often `x` occurs in `s`.
pub open spec fn occurrences(s: Seq<Seq<char>>, x: Seq<char>) -> nat
    decreases s.len(),
{
    if s.len() == 0 {
        0
    } else {
        occurrences(s.drop_last(), x) + if s.last() == x {
            1nat
        } else {
            0nat
        }
    }
}

/// The distinct elements of `s`.
pub open spec fn names_in(s: Seq<Seq<char>>) -> Set<Seq<char>>
    decreases s.len(),
{
    if s.len() == 0 {
        Set::empty()
    } else {
        names_in(s.drop_last()).insert(s.last())
    }
}

/// Whether `m` counts the occurrences of each name in `s`.
pub open spec fn counts_match(m: NamedMap<u64>, s: Seq<Seq<char>>) -> bool {
    &&& m.wf()
    &&& m.as_map().dom() == names_in(s)
    &&& forall|k: Seq<char>| #[trigger] m.as_map().dom().contains(k) ==> m.as_map()[k] == occurrences(s, k)
}

proof fn lemma_occurrences_bound(s: Seq<Seq<char>>, x: Seq<char>)
    ensures
        occurrences(s, x) <= s.len(),
        !names_in(s).contains(x) ==> occurrences(s, x) == 0,
    decreases s.len(),
{
    if s.len() > 0 {
        lemma_occurrences_bound(s.drop_last(), x);
    }
}

/// Counts one more occurrence of `name`.
fn count_name(m: &mut NamedMap<u64>, Ghost(s): Ghost<Seq<Seq<char>>>, name: &str)
    requires
        counts_match(*old(m), s),
        s.len() < u64::MAX,
    ensures
        counts_match(*final(m), s.push(name@)),
{
    let ghost s2 = s.push(name@);
    assert(s2.drop_last() =~= s);
    proof {
        lemma_occurrences_bound(s, name@);
    }
    let idx = m.slot(name, 0);
    let ghost mid = *m;
    proof {
        mid.lemma_position(idx as int);
    }
    let cur = m.entries[idx].1;
    m.set_value(idx, cur + 1);
    proof {
        let mm = m.as_map();
        assert(mm.dom() =~= names_in(s2));
        assert forall|k: Seq<char>| #[trigger] mm.dom().contains(k) implies mm[k] == occurrences(s2, k) by {
            if k != name@ {
                assert(mid.as_map()[k] == old(m).as_map()[k]);
            }
        }
    }
}

// ---------------------------------------------------------------------------
// Hook runs

/// Runs of `cmd` among `runs`.
pub open spec fn hook_count(runs: Seq<(Seq<char>, i64)>, cmd: Seq<char>) -> nat
    decreases runs.len(),
{
    if runs.len() == 0 {
        0
    } else {
        hook_count(runs.drop_last(), cmd) + if runs.last().0 == cmd {
            1nat
        } else {
            0nat
        }
    }
}

/// Total milliseconds of the runs of `cmd` among `runs`.
pub open spec fn hook_total(runs: Seq<(Seq<char>, i64)>, cmd: Seq<char>) -> int
    decreases runs.len(),
{
    if runs.len() == 0 {
        0
    } else {
        hook_total(runs.drop_last(), cmd) + if runs.last().0 == cmd {
            runs.last().1 as int
        } else {
            0
        }
    }
}

/// The commands among `runs`.
pub open spec fn hook_commands(runs: Seq<(Seq<char>, i64)>) -> Set<Seq<char>>
    decreases runs.len(),
{
    if runs.len() == 0 {
        Set::empty()
    } else {
        hook_commands(runs.drop_last()).insert(runs.last().0)
    }
}

/// Whether `m` holds the runs and total time of each command among `runs`.
pub open spec fn hooks_match(m: NamedMap<HookAccum>, runs: Seq<(Seq<char>, i64)>) -> bool {
    &&& m.wf()
    &&& m.as_map().dom() == hook_commands(runs)
    &&& forall|k: Seq<char>| #[trigger] m.as_map().dom().contains(k) ==> m.as_map()[k].count == hook_count(runs, k)
        && m.as_map()[k].total_ms == hook_total(runs, k)
}

proof fn lemma_hook_count_bound(runs: Seq<(Seq<char>, i64)>, cmd: Seq<char>)
    ensures
        hook_count(runs, cmd) <= runs.len(),
        !hook_commands(runs).contains(cmd) ==> hook_count(runs, cmd) == 0 && hook_total(runs, cmd) == 0,
    decreases runs.len(),
{
    if runs.len() > 0 {
        lemma_hook_count_bound(runs.drop_last(), cmd);
    }
}

/// Counts one more run of `cmd` that took `duration_ms`.
fn count_hook(m: &mut NamedMap<HookAccum>, Ghost(runs): Ghost<Seq<(Seq<char>, i64)>>, cmd: &str, duration_ms: i64)
    requires
        hooks_match(*old(m), runs),
        runs.len() < u64::MAX,
        i64::MIN <= hook_total(runs.push((cmd@, duration_ms)), cmd@) <= i64::MAX,
    ensures
        hooks_match(*final(m), runs.push((cmd@, duration_ms))),
{
    let ghost r2 = runs.push((cmd@, duration_ms));
    assert(r2.drop_last() =~= runs);
    proof {
        lemma_hook_count_bound(runs, cmd@);
    }
    let idx = m.slot(cmd, HookAccum { count: 0, total_ms: 0 });
    let ghost mid = *m;
    proof {
        mid.lemma_position(idx as int);
    }
    let cur = m.entries[idx].1;
    proof {
        if old(m).as_map().dom().contains(cmd@) {
            assert(cur == old(m).as_map()[cmd@]);
        } else {
            assert(cur == HookAccum { count: 0, total_ms: 0 });
        }
        assert(hook_total(r2, cmd@) == hook_total(runs, cmd@) + duration_ms);
        assert(cur.total_ms == hook_total(runs, cmd@));
    }
    m.set_value(idx, HookAccum { count: cur.count + 1, total_ms: cur.total_ms + duration_ms });
    proof {
        let mm = m.as_map();
        assert(mm.dom() =~= hook_commands(r2));
        assert forall|k: Seq<char>| #[trigger] mm.dom().contains(k) implies mm[k].count == hook_count(r2, k)
            && mm[k].total_ms == hook_total(r2, k) by {
            if k != cmd@ {
                assert(mid.as_map()[k] == old(m).as_map()[k]);
            } else {
                if old(m).as_map().dom().contains(k) {
                    assert(cur == old(m).as_map()[k]);
                } else {
                    assert(cur == HookAccum { count: 0, total_ms: 0 });
                }
                assert(hook_total(r2, k) == hook_total(runs, k) + duration_ms);
            }
        }
    }
}

// ---------------------------------------------------------------------------
// What the lines of a file add up to

/// The tools used by a line.
pub open spec fn line_tools(l: LogLine) -> Seq<Seq<char>> {
    match l.json {
        Some(v) => event_tool_uses(v),
        None => seq![],
    }
}

/// The tools used by the lines, in order.
pub open spec fn tool_seq(lines: Seq<LogLine>) -> Seq<Seq<char>>
    decreases lines.len(),
{
    if lines.len() == 0 {
        seq![]
    } else {
        tool_seq(lines.drop_last()) + line_tools(lines.last())
    }
}

/// The hook runs of a line.
pub open spec fn line_hooks(l: LogLine) -> Seq<(Seq<char>, i64)> {
    match l.json {
        Some(v) => event_hook_runs(v),
        None => seq![],
    }
}

/// The hook runs of the lines, in order.
pub open spec fn hook_seq(lines: Seq<LogLine>) -> Seq<(Seq<char>, i64)>
    decreases lines.len(),
{
    if lines.len() == 0 {
        seq![]
    } else {
        hook_seq(lines.drop_last()) + line_hooks(lines.last())
    }
}

/// The models named by the lines, one per line that names one.
pub open spec fn model_seq(lines: Seq<LogLine>) -> Seq<Seq<char>>
    decreases lines.len(),
{
    if lines.len() == 0 {
        seq![]
    } else {
        let before = model_seq(lines.drop_last());
        match lines.last().json {
            Some(v) => match event_model(v) {
                Some(m) => before.push(m),
                None => before,
            },
            None => before,
        }
    }
}

/// The turn durations reported by the lines, in order.
pub open spec fn duration_seq(lines: Seq<LogLine>) -> Seq<i64>
    decreases lines.len(),
{
    if lines.len() == 0 {
        seq![]
    } else {
        let before = duration_seq(lines.drop_last());
        match lines.last().json {
            Some(v) => match event_turn_duration(v) {
                Some(d) => before.push(d),
                None => before,
            },
            None => before,
        }
    }
}

/// The lines that are API errors.
pub open spec fn api_error_lines(lines: Seq<LogLine>) -> nat
    decreases lines.len(),
{
    if lines.len() == 0 {
        0
    } else {
        api_error_lines(lines.drop_last()) + match lines.last().json {
            Some(v) => if event_is_api_error(v) { 1nat } else { 0nat },
            None => 0nat,
        }
    }
}

/// The lines that report a failed tool call.
pub open spec fn tool_error_lines(lines: Seq<LogLine>) -> nat
    decreases lines.len(),
{
    if lines.len() == 0 {
        0
    } else {
        tool_error_lines(lines.drop_last()) + match lines.last().json {
            Some(v) => if event_is_tool_error(v) { 1nat } else { 0nat },
            None => 0nat,
        }
    }
}

/// The token counts reported by a line.
pub open spec fn line_tokens(l: LogLine) -> Option<TokenUsage> {
    match l.json {
        Some(v) => event_token_usage(v),
        None => None,
    }
}

/// One of the four token counts: input, output, cache read, cache creation.
pub open spec fn token_field(t: TokenUsage, which: int) -> i64 {
    if which == 0 {
        t.input_tokens
    } else if which == 1 {
        t.output_tokens
    } else if which == 2 {
        t.cache_read_input_tokens
    } else {
        t.cache_creation_input_tokens
    }
}

/// The sum of one token count over the lines that report tokens.
pub open spec fn token_sum(lines: Seq<LogLine>, which: int) -> int
    decreases lines.len(),
{
    if lines.len() == 0 {
        0
    } else {
        token_sum(lines.drop_last(), which) + match line_tokens(lines.last()) {
            Some(t) => token_field(t, which) as int,
            None => 0,
        }
    }
}

/// The token totals of the lines, when each fits in `i64`.
pub open spec fn token_totals(lines: Seq<LogLine>) -> TokenUsage {
    TokenUsage {
        input_tokens: token_sum(lines, 0) as i64,
        output_tokens: token_sum(lines, 1) as i64,
        cache_read_input_tokens: token_sum(lines, 2) as i64,
        cache_creation_input_tokens: token_sum(lines, 3) as i64,
    }
}

/// Whether each token total of the lines fits in `i64`.
pub open spec fn tokens_fit(lines: Seq<LogLine>) -> bool {
    &&& i64::MIN <= token_sum(lines, 0) <= i64::MAX
    &&& i64::MIN <= token_sum(lines, 1) <= i64::MAX
    &&& i64::MIN <= token_sum(lines, 2) <= i64::MAX
    &&& i64::MIN <= token_sum(lines, 3) <= i64::MAX
}

/// The recent event a line offers: a JSON line with a timestamp.
pub open spec fn line_recent(l: LogLine, ef: EventFile) -> Option<RecentView> {
    match l.json {
        Some(v) => match event_timestamp(v) {
            Some((ms, shown)) => Some(
                (ms, shown, event_session(v, ef.session@), event_agent(v), event_type(v, ef.channel@),
                    event_preview(v)),
            ),
            None => None,
        },
        None => None,
    }
}

/// The pool after offering the recent events of the lines in turn.
pub open spec fn pool_after_lines(pool: Seq<RecentView>, lines: Seq<LogLine>, ef: EventFile) -> Seq<RecentView>
    decreases lines.len(),
{
    if lines.len() == 0 {
        pool
    } else {
        let before = pool_after_lines(pool, lines.drop_last(), ef);
        match line_recent(lines.last(), ef) {
            Some(r) => pool_after(before, r),
            None => before,
        }
    }
}

/// The bytes of all lines.
pub open spec fn total_bytes(lines: Seq<LogLine>) -> nat
    decreases lines.len(),
{
    if lines.len() == 0 {
        0
    } else {
        total_bytes(lines.drop_last()) + byte_len(lines.last().text@)
    }
}

/// Whether every count and sum of scanning the lines fits its integer type; the
/// sums are checked after every line and every hook run, as they are accumulated.
pub open spec fn scan_fits(lines: Seq<LogLine>) -> bool {
    &&& total_bytes(lines) <= u64::MAX
    &&& tool_seq(lines).len() < u64::MAX
    &&& hook_seq(lines).len() < u64::MAX
    &&& forall|n: int| 0 <= n <= lines.len() ==> #[trigger] tokens_fit(lines.take(n))
    &&& forall|n: int, cmd: Seq<char>|
        0 <= n <= hook_seq(lines).len() ==> i64::MIN <= #[trigger] hook_total(hook_seq(lines).take(n), cmd)
            <= i64::MAX
}


/// Whether `stats` holds what scanning `lines` of `ef` gives.
pub open spec fn scan_matches(stats: FileScanStats, lines: Seq<LogLine>, ef: EventFile) -> bool {
    &&& stats.event_count == lines.len()
    &&& sessions_match(stats.session_stats, lines, ef)
    &&& stats.token_usage == token_totals(lines)
    &&& counts_match(stats.tool_counts, tool_seq(lines))
    &&& stats.turn_durations@ == duration_seq(lines)
    &&& hooks_match(stats.hook_stats, hook_seq(lines))
    &&& stats.api_error_count == api_error_lines(lines)
    &&& stats.tool_error_count == tool_error_lines(lines)
    &&& counts_match(stats.model_counts, model_seq(lines))
    &&& stats.recent_events@.len() == 0
}

proof fn lemma_prefix_growth(lines: Seq<LogLine>, m: int)
    requires
        0 <= m <= lines.len(),
    ensures
        tool_seq(lines).take(tool_seq(lines.take(m)).len() as int) == tool_seq(lines.take(m)),
        tool_seq(lines.take(m)).len() <= tool_seq(lines).len(),
        hook_seq(lines).take(hook_seq(lines.take(m)).len() as int) == hook_seq(lines.take(m)),
        hook_seq(lines.take(m)).len() <= hook_seq(lines).len(),
        total_bytes(lines.take(m)) <= total_bytes(lines),
    decreases lines.len(),
{
    if m == lines.len() {
        assert(lines.take(m) =~= lines);
    } else {
        let d = lines.drop_last();
        assert(lines.take(m) =~= d.take(m));
        lemma_prefix_growth(d, m);
        assert(tool_seq(lines) == tool_seq(d) + line_tools(lines.last()));
        assert(tool_seq(lines).take(tool_seq(d.take(m)).len() as int) =~= tool_seq(d).take(
            tool_seq(d.take(m)).len() as int,
        ));
        assert(hook_seq(lines) == hook_seq(d) + line_hooks(lines.last()));
        assert(hook_seq(lines).take(hook_seq(d.take(m)).len() as int) =~= hook_seq(d).take(
            hook_seq(d.take(m)).len() as int,
        ));
    }
}

proof fn lemma_line_counts_bound(lines: Seq<LogLine>)
    ensures
        api_error_lines(lines) <= lines.len(),
        tool_error_lines(lines) <= lines.len(),
        model_seq(lines).len() <= lines.len(),
    decreases lines.len(),
{
    if lines.len() > 0 {
        lemma_line_counts_bound(lines.drop_last());
    }
}

/// Counts the tools `tools`, used after those of `base`.
fn count_tools(m: &mut NamedMap<u64>, Ghost(base): Ghost<Seq<Seq<char>>>, tools: &Vec<String>)
    requires
        counts_match(*old(m), base),
        base.len() + tools@.len() < u64::MAX,
    ensures
        counts_match(*final(m), base + texts(tools@)),
{
    let ghost names = texts(tools@);
    assert(base + names.take(0) =~= base);
    let mut j: usize = 0;
    while j < tools.len()
        invariant
            j <= tools@.len(),
            names == texts(tools@),
            counts_match(*m, base + names.take(j as int)),
            base.len() + tools@.len() < u64::MAX,
        decreases tools@.len() - j,
    {
        assert((base + names.take(j as int)).push(names[j as int]) =~= base + names.take(j + 1));
        count_name(m, Ghost(base + names.take(j as int)), tools[j].as_str());
        j += 1;
    }
    assert(names.take(names.len() as int) =~= names);
}

/// Counts the hook runs `runs`, made after those of `base`.
fn count_hooks(m: &mut NamedMap<HookAccum>, Ghost(base): Ghost<Seq<(Seq<char>, i64)>>, runs: &Vec<HookInfo>)
    requires
        hooks_match(*old(m), base),
        base.len() + runs@.len() < u64::MAX,
        forall|n: int, cmd: Seq<char>|
            0 <= n <= base.len() + runs@.len() ==> i64::MIN <= #[trigger] hook_total(
                (base + hook_pairs(runs@)).take(n),
                cmd,
            ) <= i64::MAX,
    ensures
        hooks_match(*final(m), base + hook_pairs(runs@)),
{
    let ghost pairs = hook_pairs(runs@);
    let ghost whole = base + pairs;
    assert(base + pairs.take(0) =~= base);
    let mut j: usize = 0;
    while j < runs.len()
        invariant
            j <= runs@.len(),
            pairs == hook_pairs(runs@),
            whole == base + pairs,
            hooks_match(*m, base + pairs.take(j as int)),
            base.len() + runs@.len() < u64::MAX,
            forall|n: int, cmd: Seq<char>|
                0 <= n <= whole.len() ==> i64::MIN <= #[trigger] hook_total(whole.take(n), cmd) <= i64::MAX,
        decreases runs@.len() - j,
    {
        let ghost before = base + pairs.take(j as int);
        let ghost run = pairs[j as int];
        assert(before.push(run) =~= base + pairs.take(j + 1));
        assert(whole.take(before.len() + 1int) =~= before.push(run));
        assert(i64::MIN <= hook_total(whole.take(before.len() + 1int), run.0) <= i64::MAX);
        count_hook(m, Ghost(before), runs[j].command.as_str(), runs[j].duration_ms);
        j += 1;
    }
    assert(pairs.take(pairs.len() as int) =~= pairs);
}

/// Adds line `i` of `all` to the statistics and the pool.
fn absorb_line(
    stats: &mut FileScanStats,
    recent_pool: &mut Vec<RecentEventAccum>,
    Ghost(all): Ghost<Seq<LogLine>>,
    Ghost(pool0): Ghost<Seq<RecentView>>,
    i: usize,
    line: &LogLine,
    ef: &EventFile,
)
    requires
        scan_fits(all),
        i < all.len(),
        all.len() <= usize::MAX,
        *line == all[i as int],
        scan_matches(*old(stats), all.take(i as int), *ef),
        pool_view(old(recent_pool)@) == pool_after_lines(pool0, all.take(i as int), *ef),
    ensures
        scan_matches(*final(stats), all.take(i + 1), *ef),
        pool_view(final(recent_pool)@) == pool_after_lines(pool0, all.take(i + 1), *ef),
{
    let ghost prefix = all.take(i as int);
    let ghost l = *line;
    let ghost lines = all.take(i + 1);
    assert(lines.drop_last() =~= prefix);
    assert(lines.last() == l);
    proof {
        lemma_prefix_growth(all, i + 1);
        lemma_line_counts_bound(lines);
        lemma_session_events_bound(prefix, *ef, line_session(l, *ef));
        assert(session_bytes(lines, *ef, line_session(l, *ef)) <= total_bytes(lines)) by {
            lemma_session_bytes_bound(lines, *ef, line_session(l, *ef));
        }
        assert(tokens_fit(all.take(i + 1)));
        assert(tokens_fit(all.take(i as int)));
        assert(prefix.push(l) =~= lines);
    }
    stats.event_count = stats.event_count + 1;
    let nbytes = line.text.as_str().as_bytes().len() as u64;
    let parsed = parse_event_json(&line.json, ef);
    match parsed {
        Some(p) => {
            let ghost v = line.json->0;
            assert(parsed_from(p, v, *ef));
            assert(p.session@ == line_session(l, *ef));
            let named_agent: Option<&str> = if same_text(p.agent.as_str(), "unknown") {
                None
            } else {
                Some(p.agent.as_str())
            };
            record_session(
                &mut stats.session_stats,
                Ghost(prefix),
                Ghost(l),
                ef,
                p.session.as_str(),
                nbytes,
                p.timestamp_ms,
                named_agent,
            );
            match p.token_usage {
                Some(tu) => {
                    stats.token_usage.add_assign(tu);
                },
                None => {},
            }
            assert(stats.token_usage == token_totals(lines));
            let ghost tools = line_tools(l);
            assert(texts(p.tool_uses@) == tools);
            assert(tool_seq(lines) == tool_seq(prefix) + tools);
            count_tools(&mut stats.tool_counts, Ghost(tool_seq(prefix)), &p.tool_uses);
            match p.turn_duration_ms {
                Some(d) => {
                    stats.turn_durations.push(d);
                },
                None => {},
            }
            let ghost hooks = line_hooks(l);
            assert(hook_pairs(p.hook_infos@) == hooks);
            assert(hook_seq(lines) == hook_seq(prefix) + hooks);
            proof {
                assert forall|n: int, cmd: Seq<char>| 0 <= n <= hook_seq(lines).len() implies i64::MIN
                    <= #[trigger] hook_total(hook_seq(lines).take(n), cmd) <= i64::MAX by {
                    assert(hook_seq(all).take(n) =~= hook_seq(lines).take(n));
                }
            }
            count_hooks(&mut stats.hook_stats, Ghost(hook_seq(prefix)), &p.hook_infos);
            if p.is_api_error {
                stats.api_error_count = stats.api_error_count + 1;
            }
            if p.is_tool_error {
                stats.tool_error_count = stats.tool_error_count + 1;
            }
            match &p.model {
                Some(m) => {
                    count_name(&mut stats.model_counts, Ghost(model_seq(prefix)), m.as_str());
                },
                None => {},
            }
            match p.to_recent_event() {
                Some(ev) => {
                    assert(line_recent(l, *ef) == Some(recent_view(ev)));
                    insert_recent_event(recent_pool, ev);
                },
                None => {},
            }
        },
        None => {
            record_session(
                &mut stats.session_stats,
                Ghost(prefix),
                Ghost(l),
                ef,
                ef.session.as_str(),
                nbytes,
                None,
                None,
            );
            assert(tool_seq(lines) =~= tool_seq(prefix));
            assert(hook_seq(lines) =~= hook_seq(prefix));
        },
    }
}

proof fn lemma_session_bytes_bound(lines: Seq<LogLine>, ef: EventFile, k: Seq<char>)
    ensures
        session_bytes(lines, ef, k) <= total_bytes(lines),
    decreases lines.len(),
{
    if lines.len() > 0 {
        lemma_session_bytes_bound(lines.drop_last(), ef, k);
    }
}


/// Statistics of no lines.
fn empty_stats() -> (stats: FileScanStats)
    ensures
        forall|ef: EventFile| scan_matches(stats, Seq::<LogLine>::empty(), ef),
{
    let stats = FileScanStats {
        event_count: 0,
        session_stats: NamedMap::new(),
        recent_events: Vec::new(),
        token_usage: TokenUsage::default(),
        tool_counts: NamedMap::new(),
        turn_durations: Vec::new(),
        hook_stats: NamedMap::new(),
        api_error_count: 0,
        tool_error_count: 0,
        model_counts: NamedMap::new(),
    };
    assert forall|ef: EventFile| scan_matches(stats, Seq::<LogLine>::empty(), ef) by {
        assert(stats.session_stats.as_map().dom() =~= session_keys(Seq::<LogLine>::empty(), ef));
        assert(stats.tool_counts.as_map().dom() =~= names_in(tool_seq(Seq::<LogLine>::empty())));
        assert(stats.hook_stats.as_map().dom() =~= hook_commands(hook_seq(Seq::<LogLine>::empty())));
        assert(stats.model_counts.as_map().dom() =~= names_in(model_seq(Seq::<LogLine>::empty())));
        assert(stats.turn_durations@ =~= duration_seq(Seq::<LogLine>::empty()));
    }
    stats
}

/// Scans read lines: counts every line under its session, adds up what the JSON lines
/// report, and offers each timestamped line to `recent_pool`.
fn scan_log_lines(
    lines: &Vec<LogLine>,
    event_file: &EventFile,
    recent_pool: &mut Vec<RecentEventAccum>,
) -> (stats: FileScanStats)
    requires
        scan_fits(lines@),
    ensures
        scan_matches(stats, lines@, *event_file),
        pool_view(final(recent_pool)@) == pool_after_lines(pool_view(old(recent_pool)@), lines@, *event_file),
{
    let ghost pool0 = pool_view(recent_pool@);
    let mut stats = empty_stats();
    assert(lines@.take(0) =~= Seq::<LogLine>::empty());
    let mut i: usize = 0;
    while i < lines.len()
        invariant
            i <= lines@.len(),
            scan_fits(lines@),
            scan_matches(stats, lines@.take(i as int), *event_file),
            pool_view(recent_pool@) == pool_after_lines(pool0, lines@.take(i as int), *event_file),
        decreases lines@.len() - i,
    {
        absorb_line(&mut stats, recent_pool, Ghost(lines@), Ghost(pool0), i, &lines[i], event_file);
        i += 1;
    }
    assert(lines@.take(lines@.len() as int) =~= lines@);
    stats
}

/// Whether every prefix of `runs` keeps each command's total time in `i64`.
pub open spec fn hook_totals_fit(runs: Seq<(Seq<char>, i64)>) -> bool {
    forall|n: int, cmd: Seq<char>|
        0 <= n <= runs.len() ==> i64::MIN <= #[trigger] hook_total(runs.take(n), cmd) <= i64::MAX
}

/// Whether `m` holds the total time of each command among `runs`.
pub open spec fn hook_times_match(m: NamedMap<i64>, runs: Seq<(Seq<char>, i64)>) -> bool {
    &&& m.wf()
    &&& m.as_map().dom() == hook_commands(runs)
    &&& forall|k: Seq<char>| #[trigger] m.as_map().dom().contains(k) ==> m.as_map()[k] == hook_total(runs, k)
}

/// Adds the hook runs `runs` after those of `base` to the running totals `m`, while each
/// command's total stays in `i64`; tells whether it did throughout.
fn add_hook_times(m: &mut NamedMap<i64>, Ghost(base): Ghost<Seq<(Seq<char>, i64)>>, runs: &Vec<HookInfo>) -> (ok: bool)
    requires
        hook_times_match(*old(m), base),
        hook_totals_fit(base),
    ensures
        ok == hook_totals_fit(base + hook_pairs(runs@)),
        ok ==> hook_times_match(*final(m), base + hook_pairs(runs@)),
{
    let ghost pairs = hook_pairs(runs@);
    let ghost whole = base + pairs;
    assert(base + pairs.take(0) =~= base);
    let mut j: usize = 0;
    while j < runs.len()
        invariant
            j <= runs@.len(),
            pairs == hook_pairs(runs@),
            whole == base + pairs,
            hook_times_match(*m, base + pairs.take(j as int)),
            hook_totals_fit(base + pairs.take(j as int)),
        decreases runs@.len() - j,
    {
        let ghost before = base + pairs.take(j as int);
        let ghost after = base + pairs.take(j + 1);
        let ghost run = pairs[j as int];
        assert(after =~= before.push(run));
        assert(after.drop_last() =~= before);
        let cmd = runs[j].command.as_str();
        let d = runs[j].duration_ms;
        assert(run == (cmd@, d));
        proof {
            lemma_hook_count_bound(before, cmd@);
        }
        let cur: i64 = match m.get(cmd) {
            Some(t) => *t,
            None => 0,
        };
        assert(cur == hook_total(before, cmd@));
        assert(hook_total(after, cmd@) == cur + d);
        match cur.checked_add(d) {
            None => {
                proof {
                    assert(whole.take(after.len() as int) =~= after);
                    assert(!(i64::MIN <= hook_total(whole.take(after.len() as int), cmd@) <= i64::MAX));
                }
                return false;
            },
            Some(t) => {
                let ghost mid = *m;
                m.insert(cmd, t);
                proof {
                    let mm = m.as_map();
                    assert(mm.dom() =~= hook_commands(after));
                    assert forall|k: Seq<char>| #[trigger] mm.dom().contains(k) implies mm[k] == hook_total(after, k) by {
                        if k != cmd@ {
                            assert(mm[k] == mid.as_map()[k]);
                        }
                    }
                    assert forall|n: int, c: Seq<char>| 0 <= n <= after.len() implies i64::MIN
                        <= #[trigger] hook_total(after.take(n), c) <= i64::MAX by {
                        if n < after.len() {
                            assert(after.take(n) =~= before.take(n));
                        } else {
                            assert(after.take(n) =~= after);
                            assert(before.take(before.len() as int) =~= before);
                            assert(i64::MIN <= hook_total(before.take(before.len() as int), c) <= i64::MAX);
                        }
                    }
                }
            },
        }
        j += 1;
    }
    assert(pairs.take(j as int) =~= pairs);
    true
}

/// The number of tools and hook runs of a line, with its token counts.
fn line_parts(line: &LogLine) -> (r: (usize, Vec<HookInfo>, Option<TokenUsage>))
    ensures
        r.0 == line_tools(*line).len(),
        hook_pairs(r.1@) == line_hooks(*line),
        r.2 == line_tokens(*line),
{
    match &line.json {
        Some(v) => {
            let tools = extract_tool_uses(v);
            (tools.len(), extract_hook_infos(v), extract_token_usage(v))
        },
        None => {
            let none: Vec<HookInfo> = Vec::new();
            assert(hook_pairs(none@) =~= line_hooks(*line));
            (0, none, None)
        },
    }
}

/// Adds `b` to `a` when the sum fits in `i64`.
fn add_token(a: i64, b: Option<TokenUsage>, which: u8) -> (r: Option<i64>)
    requires
        which < 4,
    ensures
        ({
            let x: int = match b {
                Some(t) => token_field(t, which as int) as int,
                None => 0,
            };
            match r {
                Some(v) => v == a + x,
                None => !(i64::MIN <= a + x <= i64::MAX),
            }
        }),
{
    match b {
        Some(t) => {
            let x = if which == 0 {
                t.input_tokens
            } else if which == 1 {
                t.output_tokens
            } else if which == 2 {
                t.cache_read_input_tokens
            } else {
                t.cache_creation_input_tokens
            };
            a.checked_add(x)
        },
        None => Some(a),
    }
}

/// Whether every count and sum of scanning `lines` fits its integer type.
fn lines_fit(lines: &Vec<LogLine>) -> (ok: bool)
    ensures
        ok == scan_fits(lines@),
{
    let ghost all = lines@;
    let mut bytes: u64 = 0;
    let mut tools: u64 = 0;
    let mut hooks: u64 = 0;
    let mut tok: [i64; 4] = [0, 0, 0, 0];
    let mut times: NamedMap<i64> = NamedMap::new();
    assert(all.take(0) =~= Seq::<LogLine>::empty());
    assert(hook_commands(hook_seq(all.take(0))) =~= Set::<Seq<char>>::empty());
    assert(times.as_map().dom() =~= Set::<Seq<char>>::empty());
    assert forall|n: int, cmd: Seq<char>| 0 <= n <= hook_seq(all.take(0)).len() implies i64::MIN
        <= #[trigger] hook_total(hook_seq(all.take(0)).take(n), cmd) <= i64::MAX by {
        assert(hook_seq(all.take(0)).take(n).len() == 0);
    }
    let mut i: usize = 0;
    while i < lines.len()
        invariant
            i <= all.len(),
            all == lines@,
            bytes == total_bytes(all.take(i as int)),
            tools == tool_seq(all.take(i as int)).len(),
            hooks == hook_seq(all.take(i as int)).len(),
            tools < u64::MAX,
            hooks < u64::MAX,
            forall|w: int| 0 <= w < 4 ==> tok@[w] == #[trigger] token_sum(all.take(i as int), w),
            forall|n: int| 0 <= n <= i ==> #[trigger] tokens_fit(all.take(n)),
            hook_times_match(times, hook_seq(all.take(i as int))),
            hook_totals_fit(hook_seq(all.take(i as int))),
        decreases all.len() - i,
    {
        let ghost prefix = all.take(i as int);
        let ghost next = all.take(i + 1);
        let ghost l = all[i as int];
        assert(next.drop_last() =~= prefix);
        assert(next.last() == l);
        proof {
            lemma_prefix_growth(all, i + 1);
        }
        let line = &lines[i];
        let (ntools, runs, tu) = line_parts(line);
        let nb = line.text.as_str().as_bytes().len() as u64;
        match bytes.checked_add(nb) {
            Some(b) => {
                bytes = b;
            },
            None => {
                return false;
            },
        }
        let nt = ntools as u64;
        if tools >= u64::MAX - nt {
            return false;
        }
        tools = tools + nt;
        let nh = runs.len() as u64;
        if hooks >= u64::MAX - nh {
            return false;
        }
        hooks = hooks + nh;
        let t0 = add_token(tok[0], tu, 0);
        let t1 = add_token(tok[1], tu, 1);
        let t2 = add_token(tok[2], tu, 2);
        let t3 = add_token(tok[3], tu, 3);
        proof {
            assert forall|w: int| 0 <= w < 4 implies #[trigger] token_sum(next, w) == token_sum(prefix, w) + match tu {
                Some(t) => token_field(t, w) as int,
                None => 0,
            } by {}
        }
        match (t0, t1, t2, t3) {
            (Some(a), Some(b), Some(c), Some(d)) => {
                tok = [a, b, c, d];
                assert(tokens_fit(next));
            },
            _ => {
                assert(!tokens_fit(next));
                return false;
            },
        }
        assert(hook_seq(next) == hook_seq(prefix) + hook_pairs(runs@));
        if !add_hook_times(&mut times, Ghost(hook_seq(prefix)), &runs) {
            proof {
                let hs = hook_seq(next);
                assert(!hook_totals_fit(hs));
                let (n, cmd) = choose|n: int, cmd: Seq<char>| 0 <= n <= hs.len() && !(i64::MIN <= #[trigger] hook_total(hs.take(n), cmd) <= i64::MAX);
                assert(hook_seq(all).take(n) =~= hs.take(n));
            }
            return false;
        }
        i += 1;
    }
    assert(all.take(all.len() as int) =~= all);
    true
}

/// A line of an event file with the JSON document it parses to.
pub fn log_line(text: String) -> (l: LogLine)
    ensures
        l.text == text,
        l.json == json_document(text@),
{
    let json = parse_json(text.as_str());
    LogLine { text, json }
}

/// The lines of an event file, each with the JSON document it parses to.
pub open spec fn log_lines_of(texts: Seq<String>) -> Seq<LogLine> {
    Seq::new(texts.len(), |i: int| LogLine { text: texts[i], json: json_document(texts[i]@) })
}

fn log_lines(texts: &Vec<String>) -> (lines: Vec<LogLine>)
    ensures
        lines@ == log_lines_of(texts@),
{
    let mut lines: Vec<LogLine> = Vec::new();
    let mut i: usize = 0;
    while i < texts.len()
        invariant
            i <= texts@.len(),
            lines@ == log_lines_of(texts@).take(i as int),
        decreases texts@.len() - i,
    {
        lines.push(log_line(texts[i].clone()));
        assert(lines@ =~= log_lines_of(texts@).take(i + 1));
        i += 1;
    }
    assert(log_lines_of(texts@).take(i as int) =~= log_lines_of(texts@));
    lines
}

/// Scans the lines of an event file: parses each as JSON, counts every line under its
/// session, adds up what the JSON lines report, and offers each timestamped line to
/// `recent_pool`. Lines that are not JSON count only under the file's session.
pub fn scan_event_lines(
    lines: &Vec<String>,
    event_file: &EventFile,
    recent_pool: &mut Vec<RecentEventAccum>,
) -> (stats: FileScanStats)
    requires
        scan_fits(log_lines_of(lines@)),
    ensures
        scan_matches(stats, log_lines_of(lines@), *event_file),
        pool_view(final(recent_pool)@) == pool_after_lines(pool_view(old(recent_pool)@), log_lines_of(lines@), *event_file),
{
    let read = log_lines(lines);
    scan_log_lines(&read, event_file, recent_pool)
}

/// Scans the lines of an event file as `scan_event_lines` does, when every count and sum
/// of the scan fits its integer type; when one does not, gives `None` and leaves
/// `recent_pool` as it was.
pub fn scan_event_lines_checked(
    lines: &Vec<String>,
    event_file: &EventFile,
    recent_pool: &mut Vec<RecentEventAccum>,
) -> (r: Option<FileScanStats>)
    ensures
        r is Some <==> scan_fits(log_lines_of(lines@)),
        match r {
            Some(stats) => scan_matches(stats, log_lines_of(lines@), *event_file) && pool_view(final(recent_pool)@)
                == pool_after_lines(pool_view(old(recent_pool)@), log_lines_of(lines@), *event_file),
            None => final(recent_pool)@ == old(recent_pool)@,
        },
{
    let read = log_lines(lines);
    if lines_fit(&read) {
        Some(scan_log_lines(&read, event_file, recent_pool))
    } else {
        None
    }
}

// ---------------------------------------------------------------------------
// Event files

/// An event file that lies directly in a session directory: its channel is empty and
/// its type is `json`.
pub fn session_event_file(day: &str, session: &str, path: &str) -> (ef: EventFile)
    ensures
        ef.day@ == day@,
        ef.session@ == session@,
        ef.channel@ == Seq::<char>::empty(),
        ef.file_type@ == "json"@,
        ef.path@ == path@,
{
    EventFile {
        day: owned(day),
        session: owned(session),
        channel: String::new(),
        file_type: owned("json"),
        path: owned(path),
    }
}

/// An event file that lies in a channel directory of a session: its type is that of
/// the channel.
pub fn channel_event_file(day: &str, session: &str, channel: &str, path: &str) -> (ef: EventFile)
    ensures
        ef.day@ == day@,
        ef.session@ == session@,
        ef.channel@ == channel@,
        ef.file_type@ == (if is_text_channel(channel@) { "text"@ } else { "json"@ }),
        ef.path@ == path@,
{
    EventFile {
        day: owned(day),
        session: owned(session),
        channel: owned(channel),
        file_type: classify_file_type(channel),
        path: owned(path),
    }
}

// ---------------------------------------------------------------------------
// Every line belongs to one session

/// The events recorded in session entries.
pub open spec fn entry_events(es: Seq<(String, SessionLineStats)>) -> nat
    decreases es.len(),
{
    if es.len() == 0 { 0 } else { entry_events(es.drop_last()) + es.last().1.events as nat }
}

/// The bytes recorded in session entries.
pub open spec fn entry_bytes(es: Seq<(String, SessionLineStats)>) -> nat
    decreases es.len(),
{
    if es.len() == 0 { 0 } else { entry_bytes(es.drop_last()) + es.last().1.bytes as nat }
}

/// The lines counted under the sessions `names`, and their bytes.
pub open spec fn lines_over(lines: Seq<LogLine>, ef: EventFile, names: Seq<Seq<char>>) -> (nat, nat)
    decreases names.len(),
{
    if names.len() == 0 {
        (0, 0)
    } else {
        let r = lines_over(lines, ef, names.drop_last());
        (r.0 + session_events(lines, ef, names.last()), r.1 + session_bytes(lines, ef, names.last()))
    }
}

proof fn lemma_lines_over_step(lines: Seq<LogLine>, ef: EventFile, names: Seq<Seq<char>>)
    requires
        lines.len() > 0,
        names.no_duplicates(),
    ensures
        lines_over(lines, ef, names) == if names.contains(line_session(lines.last(), ef)) {
            (
                lines_over(lines.drop_last(), ef, names).0 + 1,
                lines_over(lines.drop_last(), ef, names).1 + byte_len(lines.last().text@),
            )
        } else {
            lines_over(lines.drop_last(), ef, names)
        },
    decreases names.len(),
{
    if names.len() > 0 {
        let p = names.drop_last();
        assert(p.no_duplicates());
        lemma_lines_over_step(lines, ef, p);
        let k0 = line_session(lines.last(), ef);
        if names.last() == k0 {
            assert(!p.contains(k0));
        }
        assert(names.contains(k0) <==> p.contains(k0) || names.last() == k0) by {
            if p.contains(k0) {
                let j = choose|j: int| 0 <= j < p.len() && p[j] == k0;
                assert(names[j] == k0);
            }
            if names.contains(k0) && names.last() != k0 {
                let j = choose|j: int| 0 <= j < names.len() && names[j] == k0;
                assert(p[j] == k0);
            }
        }
    }
}

proof fn lemma_lines_over_all(lines: Seq<LogLine>, ef: EventFile, names: Seq<Seq<char>>)
    requires
        names.no_duplicates(),
        forall|k: Seq<char>| #[trigger] session_keys(lines, ef).contains(k) ==> names.contains(k),
    ensures
        lines_over(lines, ef, names) == (lines.len(), total_bytes(lines)),
    decreases lines.len(),
{
    if lines.len() == 0 {
        lemma_lines_over_zero(lines, ef, names);
    } else {
        let p = lines.drop_last();
        assert forall|k: Seq<char>| #[trigger] session_keys(p, ef).contains(k) implies names.contains(k) by {
            assert(session_keys(lines, ef).contains(k));
        }
        lemma_lines_over_all(p, ef, names);
        lemma_lines_over_step(lines, ef, names);
        assert(session_keys(lines, ef).contains(line_session(lines.last(), ef)));
    }
}

proof fn lemma_lines_over_zero(lines: Seq<LogLine>, ef: EventFile, names: Seq<Seq<char>>)
    requires
        lines.len() == 0,
    ensures
        lines_over(lines, ef, names) == (0nat, 0nat),
    decreases names.len(),
{
    if names.len() > 0 {
        lemma_lines_over_zero(lines, ef, names.drop_last());
    }
}

proof fn lemma_entries_over(m: NamedMap<SessionLineStats>, lines: Seq<LogLine>, ef: EventFile, n: int)
    requires
        sessions_match(m, lines, ef),
        0 <= n <= m.entries@.len(),
    ensures
        lines_over(lines, ef, m.names().take(n)) == (entry_events(m.entries@.take(n)), entry_bytes(m.entries@.take(n))),
    decreases n,
{
    if n > 0 {
        lemma_entries_over(m, lines, ef, n - 1);
        assert(m.names().take(n).drop_last() =~= m.names().take(n - 1));
        assert(m.entries@.take(n).drop_last() =~= m.entries@.take(n - 1));
        m.lemma_position(n - 1);
        let k = m.entries@[n - 1].0@;
        assert(m.as_map().dom().contains(k));
        assert(m.as_map()[k] == m.entries@[n - 1].1);
    }
}

/// Every line of a file is counted under exactly one session: the sessions' events add
/// up to the file's events, and their bytes to the bytes of all its lines.
pub proof fn lemma_sessions_cover_lines(stats: FileScanStats, lines: Seq<LogLine>, ef: EventFile)
    requires
        scan_matches(stats, lines, ef),
    ensures
        entry_events(stats.session_stats.entries@) == stats.event_count,
        entry_bytes(stats.session_stats.entries@) == total_bytes(lines),
{
    let m = stats.session_stats;
    let names = m.names();
    assert(names.no_duplicates()) by {
        assert forall|i: int, j: int| 0 <= i < names.len() && 0 <= j < names.len() && i != j implies names[i] != names[j] by {
            if i < j {
                assert(m.entries@[i].0@ != m.entries@[j].0@);
            } else {
                assert(m.entries@[j].0@ != m.entries@[i].0@);
            }
        }
    }
    assert forall|k: Seq<char>| #[trigger] session_keys(lines, ef).contains(k) implies names.contains(k) by {
        assert(m.as_map().dom().contains(k));
        let i = choose|i: int| 0 <= i < m.entries@.len() && #[trigger] m.entries@[i].0@ == k;
        assert(names[i] == k);
    }
    lemma_lines_over_all(lines, ef, names);
    lemma_entries_over(m, lines, ef, m.entries@.len() as int);
    assert(names.take(names.len() as int) =~= names);
    assert(m.entries@.take(m.entries@.len() as int) =~= m.entries@);
}

} // verus!
