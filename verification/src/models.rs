//! The records that the scanner fills and the dashboard summary that it reports.
use vstd::prelude::*;

use crate::named::NamedMap;

verus! {

/// Totals of one agent.
pub struct AgentStats {
    pub events: u64,
    pub bytes: u64,
    pub sessions: u64,
    pub files: u64,
}

/// Token counts reported by the model API.
#[derive(Clone, Copy)]
pub struct TokenUsage {
    pub input_tokens: i64,
    pub output_tokens: i64,
    pub cache_read_input_tokens: i64,
    pub cache_creation_input_tokens: i64,
}

/// One hook run reported in a stop-hook summary.
pub struct HookInfo {
    pub command: String,
    pub duration_ms: i64,
}

/// Runs and total time of one hook command.
#[derive(Clone, Copy)]
pub struct HookAccum {
    pub count: u64,
    pub total_ms: i64,
}

/// The whole dashboard payload.
pub struct DashboardSummary {
    pub generated_at: String,
    pub root: String,
    pub totals: Totals,
    pub types: TypeBuckets,
    pub days: Vec<DayRow>,
    pub top_sessions: Vec<SessionRow>,
    pub recent_events: Vec<RecentEvent>,
    pub agents: NamedMap<AgentStats>,
    pub token_usage: TokenUsageSummary,
    pub tool_usage: Vec<ToolUsageRow>,
    pub turn_durations: TurnDurationSummary,
    pub session_timeline: Vec<SessionTimelineRow>,
    pub cache_efficiency: CacheEfficiency,
    pub error_rate: ErrorRate,
    pub hook_performance: Vec<HookPerfRow>,
}

/// Totals over all event files.
pub struct Totals {
    pub days: u64,
    pub sessions: u64,
    pub files: u64,
    pub events: u64,
    pub bytes: u64,
    pub newest_file_mtime: Option<String>,
}

/// Totals per file type.
pub struct TypeBuckets {
    pub json: TypeStats,
    pub text: TypeStats,
}

/// Totals of one file type.
#[derive(Clone, Copy)]
pub struct TypeStats {
    pub events: u64,
    pub bytes: u64,
    pub files: u64,
}

/// Totals of one day.
pub struct DayRow {
    pub day: String,
    pub events: u64,
    pub bytes: u64,
    pub files: u64,
    pub sessions: u64,
}

/// Totals of one session.
pub struct SessionRow {
    pub session: String,
    pub agent: String,
    pub events: u64,
    pub bytes: u64,
    pub files: u64,
    pub days: u64,
    pub last_seen: String,
}

/// One recent event as shown on the dashboard.
pub struct RecentEvent {
    pub timestamp: String,
    pub session: String,
    pub agent: String,
    pub event_type: String,
    pub preview: String,
}

/// A recent event with the milliseconds it is ordered by.
pub struct RecentEventAccum {
    pub sort_key_ms: i64,
    pub event: RecentEvent,
}

/// What scanning one event file gives.
pub struct FileScanStats {
    pub event_count: u64,
    pub session_stats: NamedMap<SessionLineStats>,
    pub recent_events: Vec<RecentEventAccum>,
    pub token_usage: TokenUsage,
    pub tool_counts: NamedMap<u64>,
    pub turn_durations: Vec<i64>,
    pub hook_stats: NamedMap<HookAccum>,
    pub api_error_count: u64,
    pub tool_error_count: u64,
    pub model_counts: NamedMap<u64>,
}

/// What one event file holds of one session.
pub struct SessionLineStats {
    pub events: u64,
    pub bytes: u64,
    pub last_seen_ms: Option<i64>,
    pub agent: Option<String>,
    pub hourly_events: [u64; 24],
}

/// The fields read from one event line.
pub struct ParsedEventLine {
    pub session: String,
    pub agent: String,
    pub event_type: String,
    pub preview: String,
    pub timestamp_ms: Option<i64>,
    pub timestamp_display: Option<String>,
    pub token_usage: Option<TokenUsage>,
    pub model: Option<String>,
    pub tool_uses: Vec<String>,
    pub turn_duration_ms: Option<i64>,
    pub hook_infos: Vec<HookInfo>,
    pub is_api_error: bool,
    pub is_tool_error: bool,
}

/// The totals of one session over all event files.
pub struct SessionAccum {
    pub events: u64,
    pub bytes: u64,
    pub files: u64,
    pub days: NamedMap<()>,
    pub last_seen_ms: Option<i64>,
    pub agent: Option<String>,
}

/// The totals of one day over its event files.
pub struct DayAccum {
    pub events: u64,
    pub bytes: u64,
    pub files: u64,
    pub sessions: NamedMap<()>,
    pub tokens: TokenUsage,
}

/// One event file found under the log root.
pub struct EventFile {
    pub day: String,
    pub session: String,
    pub channel: String,
    pub file_type: String,
    pub path: String,
}

/// Token totals, overall and per day.
pub struct TokenUsageSummary {
    pub total_input: i64,
    pub total_output: i64,
    pub total_cache_read: i64,
    pub total_cache_creation: i64,
    pub daily: Vec<DayTokenRow>,
}

/// Token totals of one day.
pub struct DayTokenRow {
    pub day: String,
    pub input_tokens: i64,
    pub output_tokens: i64,
    pub cache_read_tokens: i64,
    pub cache_creation_tokens: i64,
}

/// How often one tool was used.
pub struct ToolUsageRow {
    pub tool: String,
    pub count: u64,
}

/// Turn durations: fixed buckets and extremes.
pub struct TurnDurationSummary {
    pub buckets: Vec<DurationBucket>,
    pub min_ms: i64,
    pub max_ms: i64,
    pub avg_ms: i64,
    pub count: u64,
}

/// The number of turns whose duration falls in one bucket.
pub struct DurationBucket {
    pub label: String,
    pub count: u64,
}

/// Events per hour of day of one session.
pub struct SessionTimelineRow {
    pub session: String,
    pub hours: Vec<u64>,
}

/// Prompt-cache token totals.
pub struct CacheEfficiency {
    pub total_cache_read: i64,
    pub total_cache_creation: i64,
}

/// Error counts and the events they are counted against.
pub struct ErrorRate {
    pub api_errors: u64,
    pub tool_errors: u64,
    pub total_events: u64,
}

/// Runs, total and mean time of one hook command.
pub struct HookPerfRow {
    pub command: String,
    pub count: u64,
    pub avg_ms: i64,
    pub total_ms: i64,
}

impl Default for Totals {
    fn default() -> (t: Self)
        ensures
            t.days == 0 && t.sessions == 0 && t.files == 0 && t.events == 0 && t.bytes == 0,
            t.newest_file_mtime is None,
    {
        Totals { days: 0, sessions: 0, files: 0, events: 0, bytes: 0, newest_file_mtime: None }
    }
}

impl Default for TypeStats {
    fn default() -> (t: Self)
        ensures
            t.events == 0 && t.bytes == 0 && t.files == 0,
    {
        TypeStats { events: 0, bytes: 0, files: 0 }
    }
}

impl Default for TypeBuckets {
    fn default() -> (t: Self)
        ensures
            t.json == (TypeStats { events: 0, bytes: 0, files: 0 }),
            t.text == (TypeStats { events: 0, bytes: 0, files: 0 }),
    {
        TypeBuckets { json: TypeStats::default(), text: TypeStats::default() }
    }
}

impl Default for TokenUsage {
    fn default() -> (t: Self)
        ensures
            t == (TokenUsage {
                input_tokens: 0,
                output_tokens: 0,
                cache_read_input_tokens: 0,
                cache_creation_input_tokens: 0,
            }),
    {
        TokenUsage {
            input_tokens: 0,
            output_tokens: 0,
            cache_read_input_tokens: 0,
            cache_creation_input_tokens: 0,
        }
    }
}

impl Default for TokenUsageSummary {
    fn default() -> (t: Self)
        ensures
            t.total_input == 0 && t.total_output == 0 && t.total_cache_read == 0
                && t.total_cache_creation == 0,
            t.daily@.len() == 0,
    {
        TokenUsageSummary {
            total_input: 0,
            total_output: 0,
            total_cache_read: 0,
            total_cache_creation: 0,
            daily: Vec::new(),
        }
    }
}

impl Default for TurnDurationSummary {
    fn default() -> (t: Self)
        ensures
            t.buckets@.len() == 0 && t.min_ms == 0 && t.max_ms == 0 && t.avg_ms == 0 && t.count == 0,
    {
        TurnDurationSummary { buckets: Vec::new(), min_ms: 0, max_ms: 0, avg_ms: 0, count: 0 }
    }
}

impl Default for CacheEfficiency {
    fn default() -> (t: Self)
        ensures
            t.total_cache_read == 0 && t.total_cache_creation == 0,
    {
        CacheEfficiency { total_cache_read: 0, total_cache_creation: 0 }
    }
}

impl Default for ErrorRate {
    fn default() -> (t: Self)
        ensures
            t.api_errors == 0 && t.tool_errors == 0 && t.total_events == 0,
    {
        ErrorRate { api_errors: 0, tool_errors: 0, total_events: 0 }
    }
}

impl TokenUsage {
    /// Whether adding `other` field by field stays within `i64`.
    pub open spec fn can_add(self, other: TokenUsage) -> bool {
        &&& i64::MIN <= self.input_tokens + other.input_tokens <= i64::MAX
        &&& i64::MIN <= self.output_tokens + other.output_tokens <= i64::MAX
        &&& i64::MIN <= self.cache_read_input_tokens + other.cache_read_input_tokens <= i64::MAX
        &&& i64::MIN <= self.cache_creation_input_tokens + other.cache_creation_input_tokens <= i64::MAX
    }

    /// The field-by-field sum.
    pub open spec fn plus(self, other: TokenUsage) -> TokenUsage {
        TokenUsage {
            input_tokens: (self.input_tokens + other.input_tokens) as i64,
            output_tokens: (self.output_tokens + other.output_tokens) as i64,
            cache_read_input_tokens: (self.cache_read_input_tokens + other.cache_read_input_tokens) as i64,
            cache_creation_input_tokens: (self.cache_creation_input_tokens
                + other.cache_creation_input_tokens) as i64,
        }
    }

    /// Adds `other` field by field.
    pub fn add_assign(&mut self, other: TokenUsage)
        requires
            old(self).can_add(other),
        ensures
            *final(self) == old(self).plus(other),
    {
        self.input_tokens = self.input_tokens + other.input_tokens;
        self.output_tokens = self.output_tokens + other.output_tokens;
        self.cache_read_input_tokens = self.cache_read_input_tokens + other.cache_read_input_tokens;
        self.cache_creation_input_tokens = self.cache_creation_input_tokens
            + other.cache_creation_input_tokens;
    }
}

impl ParsedEventLine {
    /// The recent-event record of this line; `None` unless it carries a timestamp
    /// and its rendering.
    pub fn to_recent_event(&self) -> (r: Option<RecentEventAccum>)
        ensures
            match r {
                Some(acc) => {
                    &&& self.timestamp_ms == Some(acc.sort_key_ms)
                    &&& self.timestamp_display is Some
                    &&& acc.event.timestamp@ == self.timestamp_display->0@
                    &&& acc.event.session@ == self.session@
                    &&& acc.event.agent@ == self.agent@
                    &&& acc.event.event_type@ == self.event_type@
                    &&& acc.event.preview@ == self.preview@
                },
                None => self.timestamp_ms is None || self.timestamp_display is None,
            },
    {
        let sort_key_ms = match self.timestamp_ms {
            Some(ms) => ms,
            None => return None,
        };
        let timestamp = match &self.timestamp_display {
            Some(shown) => shown.clone(),
            None => return None,
        };
        Some(RecentEventAccum {
            sort_key_ms,
            event: RecentEvent {
                timestamp,
                session: self.session.clone(),
                agent: self.agent.clone(),
                event_type: self.event_type.clone(),
                preview: self.preview.clone(),
            },
        })
    }
}

} // verus!
