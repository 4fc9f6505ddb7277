//! Reading the fields of one event line, and the small classifiers of the log layout.
use vstd::prelude::*;
use vstd::string::*;

pub use crate::clock::now_iso;
use crate::clock::{millis_rendering, read_rfc3339, render_millis, rfc3339_reading};
use crate::json::{json_document, parse_json, JsonValue};
use crate::models::{EventFile, HookInfo, ParsedEventLine, TokenUsage};
use crate::text::{
    char_is_whitespace, chars_of, decimal_i64, is_white_space, owned, parse_decimal_i64,
    same_text, string_of_range,
};

verus! {

// ---------------------------------------------------------------------------
// Layout classifiers

/// An ASCII digit byte.
pub open spec fn is_digit_byte(b: u8) -> bool {
    48 <= b <= 57
}

/// A directory name of the form `dddd-dd-dd` (ten bytes, digits but for two dashes).
pub open spec fn day_shaped(bytes: Seq<u8>) -> bool {
    &&& bytes.len() == 10
    &&& bytes[4] == 45u8
    &&& bytes[7] == 45u8
    &&& forall|i: int| 0 <= i < 10 && i != 4 && i != 7 ==> is_digit_byte(#[trigger] bytes[i])
}

/// Whether a directory name looks like a day shard, `dddd-dd-dd`.
pub fn looks_like_day(value: &str) -> (r: bool)
    ensures
        r == day_shaped(value.spec_bytes()),
{
    if value.len() != 10 {
        return false;
    }
    let bytes = value.as_bytes();
    if bytes[4] != 45u8 || bytes[7] != 45u8 {
        return false;
    }
    let mut i: usize = 0;
    while i < 10
        invariant
            i <= 10,
            bytes@ == value.spec_bytes(),
            bytes@.len() == 10,
            forall|j: int| 0 <= j < i && j != 4 && j != 7 ==> is_digit_byte(#[trigger] bytes@[j]),
        decreases 10 - i,
    {
        if i != 4 && i != 7 && !(48u8 <= bytes[i] && bytes[i] <= 57u8) {
            return false;
        }
        i += 1;
    }
    true
}

/// Whether `c` is the letter `lower` or its ASCII capital `upper`.
pub open spec fn same_letter(c: char, lower: char, upper: char) -> bool {
    c == lower || c == upper
}

/// Whether `s` spells `text` in any mix of ASCII cases.
pub open spec fn is_text_channel(s: Seq<char>) -> bool {
    &&& s.len() == 4
    &&& same_letter(s[0], 't', 'T')
    &&& same_letter(s[1], 'e', 'E')
    &&& same_letter(s[2], 'x', 'X')
    &&& same_letter(s[3], 't', 'T')
}

/// The file type of a channel directory: `text` for a channel named `text` in any
/// ASCII case, `json` otherwise.
pub fn classify_file_type(channel_name: &str) -> (r: String)
    ensures
        r@ == (if is_text_channel(channel_name@) { "text"@ } else { "json"@ }),
{
    let cs = chars_of(channel_name);
    if cs.len() == 4 && (cs[0] == 't' || cs[0] == 'T') && (cs[1] == 'e' || cs[1] == 'E')
        && (cs[2] == 'x' || cs[2] == 'X') && (cs[3] == 't' || cs[3] == 'T') {
        owned("text")
    } else {
        owned("json")
    }
}

// ---------------------------------------------------------------------------
// Timestamps

/// `raw * 1000`, clamped to the range of `i64`.
pub open spec fn saturated_thousandfold(raw: i64) -> i64 {
    let v = raw * 1000;
    if v > i64::MAX {
        i64::MAX
    } else if v < i64::MIN {
        i64::MIN
    } else {
        v as i64
    }
}

/// A Unix timestamp in milliseconds: values above `100_000_000_000` already are,
/// smaller ones are seconds and are scaled by a thousand.
pub open spec fn millis_of(raw: i64) -> i64 {
    if raw > 100_000_000_000 {
        raw
    } else {
        saturated_thousandfold(raw)
    }
}

/// Reads a Unix timestamp in seconds or milliseconds as milliseconds.
pub fn normalize_epoch_millis(raw: i64) -> (r: i64)
    ensures
        r == millis_of(raw),
{
    if raw > 100_000_000_000 {
        raw
    } else {
        match raw.checked_mul(1000) {
            Some(v) => v,
            None => {
                if raw < 0 {
                    i64::MIN
                } else {
                    i64::MAX
                }
            },
        }
    }
}

/// The rendering of the instant `ms`, or `n/a` outside chrono's range.
pub open spec fn iso_of_millis(ms: i64) -> Seq<char> {
    match millis_rendering(ms) {
        Some(s) => s,
        None => "n/a"@,
    }
}

/// Renders the instant `ms` milliseconds after the Unix epoch in UTC, or `n/a`.
pub fn epoch_millis_to_iso(ms: i64) -> (r: String)
    ensures
        r@ == iso_of_millis(ms),
{
    match render_millis(ms) {
        Some(shown) => shown,
        None => owned("n/a"),
    }
}

/// What a timestamp value reads as: an RFC 3339 string, a string of decimal digits,
/// or an integer, the last two in seconds or milliseconds.
pub open spec fn timestamp_reading(v: JsonValue) -> Option<(i64, Seq<char>)> {
    let from_text = match v.text() {
        Some(ts) => match rfc3339_reading(ts) {
            Some(p) => Some(p),
            None => match decimal_i64(ts) {
                Some(n) => Some((millis_of(n), iso_of_millis(millis_of(n)))),
                None => None,
            },
        },
        None => None,
    };
    match from_text {
        Some(p) => Some(p),
        None => match v.integer() {
            Some(n) => Some((millis_of(n), iso_of_millis(millis_of(n)))),
            None => None,
        },
    }
}

/// Reads a timestamp value as milliseconds and a display rendering.
pub fn parse_timestamp_value(value: &JsonValue) -> (r: Option<(i64, String)>)
    ensures
        match r {
            Some((ms, shown)) => timestamp_reading(*value) == Some((ms, shown@)),
            None => timestamp_reading(*value) is None,
        },
{
    if let Some(ts) = value.as_str() {
        if let Some(p) = read_rfc3339(ts) {
            return Some(p);
        }
        if let Some(num) = parse_decimal_i64(ts) {
            let ms = normalize_epoch_millis(num);
            return Some((ms, epoch_millis_to_iso(ms)));
        }
    }
    if let Some(num) = value.as_i64() {
        let ms = normalize_epoch_millis(num);
        return Some((ms, epoch_millis_to_iso(ms)));
    }
    None
}

/// The timestamp of a member that reads as one.
pub open spec fn member_timestamp(v: JsonValue, key: Seq<char>) -> Option<(i64, Seq<char>)> {
    match v.field(key) {
        Some(raw) => timestamp_reading(raw),
        None => None,
    }
}

/// An event's timestamp: `timestamp` when it reads as one, else `ingest_ts`.
pub open spec fn event_timestamp(v: JsonValue) -> Option<(i64, Seq<char>)> {
    match member_timestamp(v, "timestamp"@) {
        Some(p) => Some(p),
        None => member_timestamp(v, "ingest_ts"@),
    }
}

fn member_timestamp_of(value: &JsonValue, key: &str) -> (r: Option<(i64, String)>)
    ensures
        match r {
            Some((ms, shown)) => member_timestamp(*value, key@) == Some((ms, shown@)),
            None => member_timestamp(*value, key@) is None,
        },
{
    match value.get(key) {
        Some(raw) => parse_timestamp_value(raw),
        None => None,
    }
}

/// Reads an event's timestamp from `timestamp`, else from `ingest_ts`.
pub fn extract_event_timestamp(value: &JsonValue) -> (r: Option<(i64, String)>)
    ensures
        match r {
            Some((ms, shown)) => event_timestamp(*value) == Some((ms, shown@)),
            None => event_timestamp(*value) is None,
        },
{
    if let Some(p) = member_timestamp_of(value, "timestamp") {
        return Some(p);
    }
    member_timestamp_of(value, "ingest_ts")
}

// ---------------------------------------------------------------------------
// Named fields

/// The text of the member `key`, when it is a string.
pub open spec fn field_text(v: JsonValue, key: Seq<char>) -> Option<Seq<char>> {
    match v.field(key) {
        Some(f) => f.text(),
        None => None,
    }
}

/// The text of the member `key`, when it is a non-empty string.
pub open spec fn field_nonempty_text(v: JsonValue, key: Seq<char>) -> Option<Seq<char>> {
    match field_text(v, key) {
        Some(s) => if s.len() > 0 { Some(s) } else { None },
        None => None,
    }
}

fn text_of_field<'a>(value: &'a JsonValue, key: &str) -> (r: Option<&'a str>)
    ensures
        match r {
            Some(s) => field_text(*value, key@) == Some(s@),
            None => field_text(*value, key@) is None,
        },
{
    match value.get(key) {
        Some(f) => f.as_str(),
        None => None,
    }
}

/// An event's session: `session` unless empty or `unknown`, else a non-empty
/// `sessionId`, else the session of the file.
pub open spec fn event_session(v: JsonValue, fallback: Seq<char>) -> Seq<char> {
    match field_text(v, "session"@) {
        Some(s) if s.len() > 0 && s != "unknown"@ => s,
        _ => match field_nonempty_text(v, "sessionId"@) {
            Some(s) => s,
            None => fallback,
        },
    }
}

/// Reads an event's session.
pub fn extract_event_session(value: &JsonValue, fallback_session: &str) -> (r: String)
    ensures
        r@ == event_session(*value, fallback_session@),
{
    if let Some(s) = text_of_field(value, "session") {
        if !s.is_empty() && !same_text(s, "unknown") {
            return owned(s);
        }
    }
    if let Some(s) = text_of_field(value, "sessionId") {
        if !s.is_empty() {
            return owned(s);
        }
    }
    owned(fallback_session)
}

/// An event's type: a non-empty `type`, else the channel of the file.
pub open spec fn event_type(v: JsonValue, fallback: Seq<char>) -> Seq<char> {
    match field_nonempty_text(v, "type"@) {
        Some(s) => s,
        None => fallback,
    }
}

/// Reads an event's type.
pub fn extract_event_type(value: &JsonValue, fallback_channel: &str) -> (r: String)
    ensures
        r@ == event_type(*value, fallback_channel@),
{
    if let Some(s) = text_of_field(value, "type") {
        if !s.is_empty() {
            return owned(s);
        }
    }
    owned(fallback_channel)
}

/// An event's agent: a non-empty `agent`, else `unknown`.
pub open spec fn event_agent(v: JsonValue) -> Seq<char> {
    match field_nonempty_text(v, "agent"@) {
        Some(s) => s,
        None => "unknown"@,
    }
}

/// Reads an event's agent.
pub fn extract_event_agent(value: &JsonValue) -> (r: String)
    ensures
        r@ == event_agent(*value),
{
    if let Some(s) = text_of_field(value, "agent") {
        if !s.is_empty() {
            return owned(s);
        }
    }
    owned("unknown")
}


// ---------------------------------------------------------------------------
// Preview text

/// The words of `s`: its maximal runs of non-whitespace characters, in order.
pub open spec fn words(s: Seq<char>) -> Seq<Seq<char>>
    decreases s.len(),
{
    if s.len() == 0 {
        seq![]
    } else {
        let w = words(s.drop_last());
        let c = s.last();
        if is_white_space(c) {
            w
        } else if s.len() >= 2 && !is_white_space(s[s.len() - 2]) {
            w.update(w.len() - 1, w.last().push(c))
        } else {
            w.push(seq![c])
        }
    }
}

/// The words joined by single spaces.
pub open spec fn join_words(ws: Seq<Seq<char>>) -> Seq<char>
    decreases ws.len(),
{
    if ws.len() == 0 {
        seq![]
    } else if ws.len() == 1 {
        ws[0]
    } else {
        join_words(ws.drop_last()) + seq![' '] + ws.last()
    }
}

/// `s` with every run of whitespace turned into one space and none at either end.
pub open spec fn collapsed(s: Seq<char>) -> Seq<char> {
    join_words(words(s))
}

/// The preview of `s` in at most `max_chars` characters: the collapsed text, cut to
/// `max_chars - 3` characters followed by `...` when longer, or `(event)` when blank.
pub open spec fn preview_of(s: Seq<char>, max_chars: nat) -> Seq<char> {
    let c = collapsed(s);
    if c.len() == 0 {
        "(event)"@
    } else if c.len() <= max_chars {
        c
    } else {
        c.take(if max_chars >= 3 { max_chars - 3 } else { 0 }) + "..."@
    }
}

proof fn lemma_words_nonempty(s: Seq<char>)
    requires
        s.len() > 0,
        !is_white_space(s.last()),
    ensures
        words(s).len() > 0,
    decreases s.len(),
{
    if s.len() >= 2 && !is_white_space(s[s.len() - 2]) {
        assert(s.drop_last().last() == s[s.len() - 2]);
        lemma_words_nonempty(s.drop_last());
    }
}

proof fn lemma_join_extend(ws: Seq<Seq<char>>, c: char)
    requires
        ws.len() > 0,
    ensures
        join_words(ws.update(ws.len() - 1, ws.last().push(c))) == join_words(ws).push(c),
{
    let ws2 = ws.update(ws.len() - 1, ws.last().push(c));
    if ws.len() == 1 {
        assert(ws2[0] == ws[0].push(c));
    } else {
        assert(ws2.drop_last() =~= ws.drop_last());
        assert(join_words(ws2) == join_words(ws2.drop_last()) + seq![' '] + ws2.last());
        assert(join_words(ws2) =~= join_words(ws).push(c));
    }
}

proof fn lemma_join_push(ws: Seq<Seq<char>>, c: char)
    ensures
        join_words(ws.push(seq![c])) == if ws.len() == 0 {
            seq![c]
        } else {
            join_words(ws) + seq![' ', c]
        },
{
    let ws2 = ws.push(seq![c]);
    assert(ws2.drop_last() =~= ws);
    if ws.len() > 0 {
        assert(join_words(ws2) =~= join_words(ws) + seq![' ', c]);
    }
}

/// The characters of `value` with whitespace runs collapsed.
fn collapse_whitespace(cs: &Vec<char>) -> (out: Vec<char>)
    ensures
        out@ == collapsed(cs@),
{
    let mut out: Vec<char> = Vec::new();
    let mut prev_white = true;
    let mut i: usize = 0;
    while i < cs.len()
        invariant
            i <= cs@.len(),
            out@ == join_words(words(cs@.take(i as int))),
            prev_white == (i == 0 || is_white_space(cs@[i - 1])),
            (words(cs@.take(i as int)).len() == 0) == (out@.len() == 0),
        decreases cs@.len() - i,
    {
        let c = cs[i];
        let white = char_is_whitespace(c);
        let ghost before = cs@.take(i as int);
        let ghost after = cs@.take(i + 1);
        assert(after.drop_last() =~= before);
        assert(after.last() == c);
        if white {
            assert(words(after) == words(before));
        } else if !prev_white {
            assert(after[after.len() - 2] == cs@[i - 1]);
            proof {
                lemma_words_nonempty(before);
                lemma_join_extend(words(before), c);
            }
            out.push(c);
        } else {
            proof {
                lemma_join_push(words(before), c);
            }
            if out.len() > 0 {
                out.push(' ');
            }
            out.push(c);
        }
        prev_white = white;
        i += 1;
    }
    assert(cs@.take(cs@.len() as int) =~= cs@);
    out
}

/// The preview of `value` in at most `max_chars` characters (see `preview_of`).
pub fn compact_preview(value: &str, max_chars: usize) -> (r: String)
    ensures
        r@ == preview_of(value@, max_chars as nat),
{
    let cs = chars_of(value);
    let compact = collapse_whitespace(&cs);
    if compact.len() == 0 {
        return owned("(event)");
    }
    if compact.len() <= max_chars {
        return string_of_range(&compact, 0, compact.len());
    }
    let keep = if max_chars >= 3 { max_chars - 3 } else { 0 };
    let mut short = string_of_range(&compact, 0, keep);
    short.append("...");
    short
}

/// Whether every word is non-empty and holds no whitespace.
pub open spec fn clean_words(ws: Seq<Seq<char>>) -> bool {
    &&& forall|i: int| 0 <= i < ws.len() ==> (#[trigger] ws[i]).len() > 0
    &&& forall|i: int, j: int| 0 <= i < ws.len() && 0 <= j < ws[i].len() ==> !is_white_space(#[trigger] ws[i][j])
}

/// Whether the only whitespace in `t` is single spaces between two characters that are
/// not whitespace.
pub open spec fn single_spaced(t: Seq<char>) -> bool {
    forall|i: int| 0 <= i < t.len() && is_white_space(#[trigger] t[i]) ==> t[i] == ' ' && 0 < i < t.len() - 1
        && !is_white_space(t[i - 1]) && !is_white_space(t[i + 1])
}

proof fn lemma_words_clean(s: Seq<char>)
    ensures
        clean_words(words(s)),
    decreases s.len(),
{
    if s.len() > 0 {
        lemma_words_clean(s.drop_last());
        let w = words(s.drop_last());
        let c = s.last();
        if !is_white_space(c) && s.len() >= 2 && !is_white_space(s[s.len() - 2]) {
            assert(s.drop_last().last() == s[s.len() - 2]);
            lemma_words_nonempty(s.drop_last());
            let ws = w.update(w.len() - 1, w.last().push(c));
            assert forall|i: int| 0 <= i < ws.len() implies (#[trigger] ws[i]).len() > 0 by {
                if i < w.len() - 1 {
                    assert(ws[i] == w[i]);
                }
            }
            assert forall|i: int, j: int| 0 <= i < ws.len() && 0 <= j < ws[i].len() implies !is_white_space(#[trigger] ws[i][j]) by {
                if i < w.len() - 1 {
                    assert(ws[i] == w[i]);
                } else if j < w.last().len() {
                    assert(ws[i][j] == w[i][j]);
                }
            }
        } else if !is_white_space(c) {
            let ws = w.push(seq![c]);
            assert forall|i: int| 0 <= i < ws.len() implies (#[trigger] ws[i]).len() > 0 by {
                if i < w.len() {
                    assert(ws[i] == w[i]);
                }
            }
            assert forall|i: int, j: int| 0 <= i < ws.len() && 0 <= j < ws[i].len() implies !is_white_space(#[trigger] ws[i][j]) by {
                if i < w.len() {
                    assert(ws[i] == w[i]);
                }
            }
        }
    }
}

proof fn lemma_join_single_spaced(ws: Seq<Seq<char>>)
    requires
        clean_words(ws),
    ensures
        single_spaced(join_words(ws)),
        ws.len() > 0 ==> join_words(ws).len() > 0 && !is_white_space(join_words(ws)[0])
            && !is_white_space(join_words(ws).last()),
    decreases ws.len(),
{
    if ws.len() == 1 {
        assert(ws[0].len() > 0);
        assert(!is_white_space(ws[0][0]));
        assert(!is_white_space(ws[0][ws[0].len() - 1]));
    } else if ws.len() > 1 {
        let p = ws.drop_last();
        assert forall|i: int| 0 <= i < p.len() implies (#[trigger] p[i]).len() > 0 by {
            assert(p[i] == ws[i]);
        }
        assert forall|i: int, j: int| 0 <= i < p.len() && 0 <= j < p[i].len() implies !is_white_space(#[trigger] p[i][j]) by {
            assert(p[i] == ws[i]);
        }
        lemma_join_single_spaced(p);
        let a = join_words(p);
        let b = ws.last();
        assert(b == ws[ws.len() - 1]);
        assert(b.len() > 0);
        assert(!is_white_space(b[0]));
        assert(!is_white_space(b[b.len() - 1]));
        let t = join_words(ws);
        assert(t == a + seq![' '] + b);
        assert forall|i: int| 0 <= i < t.len() && is_white_space(#[trigger] t[i]) implies t[i] == ' ' && 0 < i
            < t.len() - 1 && !is_white_space(t[i - 1]) && !is_white_space(t[i + 1]) by {
            if i < a.len() {
                assert(t[i] == a[i]);
                assert(t[i + 1] == a[i + 1] || i + 1 == a.len());
                if i > 0 {
                    assert(t[i - 1] == a[i - 1]);
                }
            } else if i == a.len() {
                assert(t[i - 1] == a.last());
                assert(t[i + 1] == b[0]);
            } else {
                let j = i - a.len() - 1;
                assert(t[i] == b[j]);
                assert(false);
            }
        }
        assert(t[0] == a[0]);
        assert(t.last() == b.last());
    }
}

/// A collapsed text holds no whitespace but single characters between words: it neither
/// starts nor ends with whitespace and has no two whitespace characters in a row.
pub proof fn lemma_collapsed_single_spaced(s: Seq<char>)
    ensures
        single_spaced(collapsed(s)),
{
    lemma_words_clean(s);
    lemma_join_single_spaced(words(s));
}

/// Whether every whitespace character of `t` is a space that follows a character that
/// is not whitespace.
pub open spec fn spaced_text(t: Seq<char>) -> bool {
    forall|i: int| 0 <= i < t.len() && is_white_space(#[trigger] t[i]) ==> t[i] == ' ' && 0 < i
        && !is_white_space(t[i - 1])
}

proof fn lemma_collapsed_of_spaced(t: Seq<char>)
    requires
        spaced_text(t),
    ensures
        collapsed(t) == if t.len() > 0 && is_white_space(t.last()) { t.drop_last() } else { t },
    decreases t.len(),
{
    if t.len() > 0 {
        let p = t.drop_last();
        let c = t.last();
        assert(spaced_text(p)) by {
            assert forall|i: int| 0 <= i < p.len() && is_white_space(#[trigger] p[i]) implies p[i] == ' ' && 0 < i
                && !is_white_space(p[i - 1]) by {
                assert(p[i] == t[i]);
                assert(is_white_space(t[i]));
                assert(p[i - 1] == t[i - 1]);
            }
        }
        lemma_collapsed_of_spaced(p);
        assert(is_white_space(t[t.len() - 1]) == is_white_space(c));
        if is_white_space(c) {
            assert(t.len() >= 2 && !is_white_space(t[t.len() - 2]));
            assert(p.last() == t[t.len() - 2]);
        } else if t.len() >= 2 && !is_white_space(t[t.len() - 2]) {
            assert(p.last() == t[t.len() - 2]);
            lemma_words_nonempty(p);
            lemma_join_extend(words(p), c);
            assert(p.push(c) =~= t);
        } else if t.len() == 1 {
            assert(words(p) =~= Seq::<Seq<char>>::empty());
            lemma_join_push(words(p), c);
            assert(seq![c] =~= t);
        } else {
            let q = p.drop_last();
            assert(is_white_space(t[t.len() - 2]));
            assert(p.last() == t[t.len() - 2]);
            assert(t[t.len() - 2] == ' ');
            assert(!is_white_space(t[t.len() - 3]));
            assert(q.last() == t[t.len() - 3]);
            lemma_words_nonempty(q);
            assert(words(p) == words(q));
            lemma_join_push(words(p), c);
            assert(q + seq![' ', c] =~= t);
        }
    }
}

/// Collapsing whitespace twice gives what collapsing once gives.
pub proof fn lemma_collapse_idempotent(s: Seq<char>)
    ensures
        collapsed(collapsed(s)) == collapsed(s),
{
    let c = collapsed(s);
    lemma_collapsed_single_spaced(s);
    lemma_collapsed_of_spaced(c);
    if c.len() > 0 {
        assert(!is_white_space(c[c.len() - 1]));
    }
}

/// Previewing a preview changes nothing, for limits of at least seven characters (the
/// length of `(event)`).
pub proof fn lemma_preview_idempotent(s: Seq<char>, max_chars: nat)
    requires
        max_chars >= 7,
    ensures
        preview_of(preview_of(s, max_chars), max_chars) == preview_of(s, max_chars),
{
    reveal_strlit("(event)");
    reveal_strlit("...");
    let c = collapsed(s);
    lemma_collapsed_single_spaced(s);
    let r = preview_of(s, max_chars);
    if c.len() == 0 {
        let e = "(event)"@;
        assert(spaced_text(e));
        lemma_collapsed_of_spaced(e);
    } else if c.len() <= max_chars {
        lemma_collapse_idempotent(s);
    } else {
        let k = (max_chars - 3) as int;
        let dots = "..."@;
        assert(r == c.take(k) + dots);
        assert(spaced_text(r)) by {
            assert forall|i: int| 0 <= i < r.len() && is_white_space(#[trigger] r[i]) implies r[i] == ' ' && 0 < i
                && !is_white_space(r[i - 1]) by {
                if i < k {
                    assert(r[i] == c[i]);
                    assert(r[i - 1] == c[i - 1]);
                } else {
                    assert(r[i] == '.');
                }
            }
        }
        lemma_collapsed_of_spaced(r);
        assert(r.last() == '.');
    }
}

/// A preview of a text that is not blank has at most `max_chars` characters, or three
/// when `max_chars` is smaller; a blank text previews as `(event)`.
pub proof fn lemma_preview_length(s: Seq<char>, max_chars: nat)
    ensures
        collapsed(s).len() == 0 ==> preview_of(s, max_chars) == "(event)"@,
        collapsed(s).len() > 0 ==> preview_of(s, max_chars).len() <= if max_chars >= 3 { max_chars } else { 3 },
{
    reveal_strlit("...");
}

/// The first array item with a string `text`, else a string `content`.
pub open spec fn first_item_text(items: Seq<JsonValue>) -> Option<Seq<char>>
    decreases items.len(),
{
    if items.len() == 0 {
        None
    } else {
        match field_text(items[0], "text"@) {
            Some(t) => Some(t),
            None => match field_text(items[0], "content"@) {
                Some(t) => Some(t),
                None => first_item_text(items.drop_first()),
            },
        }
    }
}

/// The `content` member of the `message` member.
pub open spec fn message_content(v: JsonValue) -> Option<JsonValue> {
    match v.field("message"@) {
        Some(m) => m.field("content"@),
        None => None,
    }
}

/// The text an event is previewed by: `display`, a string `message`, a string
/// `message.content`, the first text of an array `message.content`, or `text`.
pub open spec fn preview_source(v: JsonValue) -> Option<Seq<char>> {
    match field_text(v, "display"@) {
        Some(t) => Some(t),
        None => match field_text(v, "message"@) {
            Some(t) => Some(t),
            None => match message_content(v) {
                Some(c) => match c.text() {
                    Some(t) => Some(t),
                    None => match c.items() {
                        Some(items) => match first_item_text(items) {
                            Some(t) => Some(t),
                            None => field_text(v, "text"@),
                        },
                        None => field_text(v, "text"@),
                    },
                },
                None => field_text(v, "text"@),
            },
        },
    }
}

/// An event's preview: its preview text (or `(event)`) in at most 110 characters.
pub open spec fn event_preview(v: JsonValue) -> Seq<char> {
    match preview_source(v) {
        Some(t) => preview_of(t, 110),
        None => preview_of("(event)"@, 110),
    }
}

fn message_content_of(value: &JsonValue) -> (r: Option<&JsonValue>)
    ensures
        match r {
            Some(c) => message_content(*value) == Some(*c),
            None => message_content(*value) is None,
        },
{
    match value.get("message") {
        Some(m) => m.get("content"),
        None => None,
    }
}

fn first_text_in<'a>(items: &'a Vec<JsonValue>) -> (r: Option<&'a str>)
    ensures
        match r {
            Some(t) => first_item_text(items@) == Some(t@),
            None => first_item_text(items@) is None,
        },
{
    let mut i: usize = 0;
    assert(items@.skip(0) =~= items@);
    while i < items.len()
        invariant
            i <= items@.len(),
            first_item_text(items@) == first_item_text(items@.skip(i as int)),
        decreases items@.len() - i,
    {
        assert(items@.skip(i as int)[0] == items@[i as int]);
        if let Some(t) = text_of_field(&items[i], "text") {
            return Some(t);
        }
        if let Some(t) = text_of_field(&items[i], "content") {
            return Some(t);
        }
        assert(items@.skip(i as int).drop_first() =~= items@.skip(i + 1));
        i += 1;
    }
    assert(items@.skip(i as int).len() == 0);
    None
}

fn preview_source_of<'a>(value: &'a JsonValue) -> (r: Option<&'a str>)
    ensures
        match r {
            Some(t) => preview_source(*value) == Some(t@),
            None => preview_source(*value) is None,
        },
{
    if let Some(t) = text_of_field(value, "display") {
        return Some(t);
    }
    if let Some(t) = text_of_field(value, "message") {
        return Some(t);
    }
    if let Some(c) = message_content_of(value) {
        if let Some(t) = c.as_str() {
            return Some(t);
        }
        if let Some(items) = c.as_array() {
            if let Some(t) = first_text_in(items) {
                return Some(t);
            }
        }
    }
    text_of_field(value, "text")
}

/// Reads an event's preview.
pub fn extract_event_preview(value: &JsonValue) -> (r: String)
    ensures
        r@ == event_preview(*value),
{
    match preview_source_of(value) {
        Some(t) => compact_preview(t, 110),
        None => compact_preview("(event)", 110),
    }
}


// ---------------------------------------------------------------------------
// Usage, tools, hooks and errors

/// The integer member `key`, or zero.
pub open spec fn int_or_zero(v: JsonValue, key: Seq<char>) -> i64 {
    match v.field(key) {
        Some(f) => match f.integer() {
            Some(n) => n,
            None => 0,
        },
        None => 0,
    }
}

/// The token counts of an event: present when `message.usage` is, each count read
/// as an integer or taken as zero.
pub open spec fn event_token_usage(v: JsonValue) -> Option<TokenUsage> {
    match v.field("message"@) {
        Some(m) => match m.field("usage"@) {
            Some(u) => Some(
                TokenUsage {
                    input_tokens: int_or_zero(u, "input_tokens"@),
                    output_tokens: int_or_zero(u, "output_tokens"@),
                    cache_read_input_tokens: int_or_zero(u, "cache_read_input_tokens"@),
                    cache_creation_input_tokens: int_or_zero(u, "cache_creation_input_tokens"@),
                },
            ),
            None => None,
        },
        None => None,
    }
}

fn int_or_zero_of(value: &JsonValue, key: &str) -> (r: i64)
    ensures
        r == int_or_zero(*value, key@),
{
    match value.get(key) {
        Some(f) => match f.as_i64() {
            Some(n) => n,
            None => 0,
        },
        None => 0,
    }
}

/// Reads an event's token counts.
pub fn extract_token_usage(value: &JsonValue) -> (r: Option<TokenUsage>)
    ensures
        r == event_token_usage(*value),
{
    let message = match value.get("message") {
        Some(m) => m,
        None => return None,
    };
    let usage = match message.get("usage") {
        Some(u) => u,
        None => return None,
    };
    Some(
        TokenUsage {
            input_tokens: int_or_zero_of(usage, "input_tokens"),
            output_tokens: int_or_zero_of(usage, "output_tokens"),
            cache_read_input_tokens: int_or_zero_of(usage, "cache_read_input_tokens"),
            cache_creation_input_tokens: int_or_zero_of(usage, "cache_creation_input_tokens"),
        },
    )
}

/// An event's model: a non-empty string `message.model`.
pub open spec fn event_model(v: JsonValue) -> Option<Seq<char>> {
    match v.field("message"@) {
        Some(m) => field_nonempty_text(m, "model"@),
        None => None,
    }
}

/// Reads an event's model.
pub fn extract_model(value: &JsonValue) -> (r: Option<String>)
    ensures
        match r {
            Some(m) => event_model(*value) == Some(m@),
            None => event_model(*value) is None,
        },
{
    let message = match value.get("message") {
        Some(m) => m,
        None => return None,
    };
    match text_of_field(message, "model") {
        Some(s) => if s.is_empty() {
            None
        } else {
            Some(owned(s))
        },
        None => None,
    }
}

/// The items of an array `message.content`.
pub open spec fn content_items(v: JsonValue) -> Option<Seq<JsonValue>> {
    match message_content(v) {
        Some(c) => c.items(),
        None => None,
    }
}

/// Whether an item's `type` is the string `kind`.
pub open spec fn has_type(item: JsonValue, kind: Seq<char>) -> bool {
    field_text(item, "type"@) == Some(kind)
}

/// The tool names of the `tool_use` items, in order.
pub open spec fn tool_names(items: Seq<JsonValue>) -> Seq<Seq<char>>
    decreases items.len(),
{
    if items.len() == 0 {
        seq![]
    } else {
        let rest = tool_names(items.drop_last());
        let item = items.last();
        if has_type(item, "tool_use"@) {
            match field_text(item, "name"@) {
                Some(n) => rest.push(n),
                None => rest,
            }
        } else {
            rest
        }
    }
}

/// The tools an event uses: the names of the `tool_use` items of `message.content`.
pub open spec fn event_tool_uses(v: JsonValue) -> Seq<Seq<char>> {
    match content_items(v) {
        Some(items) => tool_names(items),
        None => seq![],
    }
}

fn content_items_of(value: &JsonValue) -> (r: Option<&Vec<JsonValue>>)
    ensures
        match r {
            Some(items) => content_items(*value) == Some(items@),
            None => content_items(*value) is None,
        },
{
    match message_content_of(value) {
        Some(c) => c.as_array(),
        None => None,
    }
}

fn has_type_of(item: &JsonValue, kind: &str) -> (r: bool)
    ensures
        r == has_type(*item, kind@),
{
    match text_of_field(item, "type") {
        Some(t) => same_text(t, kind),
        None => false,
    }
}

/// Reads the names of the tools an event uses.
pub fn extract_tool_uses(value: &JsonValue) -> (r: Vec<String>)
    ensures
        texts(r@) == event_tool_uses(*value),
{
    let mut out: Vec<String> = Vec::new();
    let items = match content_items_of(value) {
        Some(items) => items,
        None => {
            assert(texts(out@) =~= Seq::<Seq<char>>::empty());
            return out;
        },
    };
    let mut i: usize = 0;
    while i < items.len()
        invariant
            i <= items@.len(),
            texts(out@) == tool_names(items@.take(i as int)),
        decreases items@.len() - i,
    {
        let ghost before = items@.take(i as int);
        assert(items@.take(i + 1).drop_last() =~= before);
        assert(items@.take(i + 1).last() == items@[i as int]);
        if has_type_of(&items[i], "tool_use") {
            if let Some(n) = text_of_field(&items[i], "name") {
                out.push(owned(n));
                assert(texts(out@) =~= tool_names(before).push(n@));
            }
        }
        i += 1;
    }
    assert(items@.take(items@.len() as int) =~= items@);
    out
}

/// A turn's duration: `durationMs` of an event whose `subtype` is `turn_duration`.
pub open spec fn event_turn_duration(v: JsonValue) -> Option<i64> {
    if field_text(v, "subtype"@) == Some("turn_duration"@) {
        match v.field("durationMs"@) {
            Some(d) => d.integer(),
            None => None,
        }
    } else {
        None
    }
}

fn subtype_is(value: &JsonValue, kind: &str) -> (r: bool)
    ensures
        r == (field_text(*value, "subtype"@) == Some(kind@)),
{
    match text_of_field(value, "subtype") {
        Some(t) => same_text(t, kind),
        None => false,
    }
}

/// Reads a turn's duration.
pub fn extract_turn_duration(value: &JsonValue) -> (r: Option<i64>)
    ensures
        r == event_turn_duration(*value),
{
    if !subtype_is(value, "turn_duration") {
        return None;
    }
    match value.get("durationMs") {
        Some(d) => d.as_i64(),
        None => None,
    }
}

/// The hook runs listed in `items`: each item with a string `command`, with its
/// integer `durationMs` or zero.
pub open spec fn hook_runs(items: Seq<JsonValue>) -> Seq<(Seq<char>, i64)>
    decreases items.len(),
{
    if items.len() == 0 {
        seq![]
    } else {
        let rest = hook_runs(items.drop_last());
        let item = items.last();
        match field_text(item, "command"@) {
            Some(c) => rest.push((c, int_or_zero(item, "durationMs"@))),
            None => rest,
        }
    }
}

/// The hook runs of an event whose `subtype` is `stop_hook_summary`.
pub open spec fn event_hook_runs(v: JsonValue) -> Seq<(Seq<char>, i64)> {
    if field_text(v, "subtype"@) == Some("stop_hook_summary"@) {
        match v.field("hookInfos"@) {
            Some(h) => match h.items() {
                Some(items) => hook_runs(items),
                None => seq![],
            },
            None => seq![],
        }
    } else {
        seq![]
    }
}

/// A hook run as a pair.
pub open spec fn hook_pair(h: HookInfo) -> (Seq<char>, i64) {
    (h.command@, h.duration_ms)
}

/// Hook runs as pairs.
pub open spec fn hook_pairs(hs: Seq<HookInfo>) -> Seq<(Seq<char>, i64)> {
    hs.map_values(|h: HookInfo| hook_pair(h))
}

/// The texts of strings.
pub open spec fn texts(ss: Seq<String>) -> Seq<Seq<char>> {
    ss.map_values(|s: String| s@)
}

/// Reads the hook runs of a stop-hook summary.
pub fn extract_hook_infos(value: &JsonValue) -> (r: Vec<HookInfo>)
    ensures
        hook_pairs(r@) == event_hook_runs(*value),
{
    let mut out: Vec<HookInfo> = Vec::new();
    assert(hook_pairs(out@) =~= Seq::<(Seq<char>, i64)>::empty());
    if !subtype_is(value, "stop_hook_summary") {
        return out;
    }
    let items = match value.get("hookInfos") {
        Some(h) => match h.as_array() {
            Some(items) => items,
            None => return out,
        },
        None => return out,
    };
    let mut i: usize = 0;
    while i < items.len()
        invariant
            i <= items@.len(),
            hook_pairs(out@) == hook_runs(items@.take(i as int)),
        decreases items@.len() - i,
    {
        let ghost before = items@.take(i as int);
        assert(items@.take(i + 1).drop_last() =~= before);
        assert(items@.take(i + 1).last() == items@[i as int]);
        if let Some(c) = text_of_field(&items[i], "command") {
            let duration_ms = int_or_zero_of(&items[i], "durationMs");
            out.push(HookInfo { command: owned(c), duration_ms });
            assert(hook_pairs(out@) =~= hook_runs(before).push(
                (c@, duration_ms),
            ));
        }
        i += 1;
    }
    assert(items@.take(items@.len() as int) =~= items@);
    out
}

/// Whether an event is an API error: `isApiErrorMessage` is `true`.
pub open spec fn event_is_api_error(v: JsonValue) -> bool {
    match v.field("isApiErrorMessage"@) {
        Some(f) => f.flag() == Some(true),
        None => false,
    }
}

/// Reads whether an event is an API error.
pub fn extract_is_api_error(value: &JsonValue) -> (r: bool)
    ensures
        r == event_is_api_error(*value),
{
    match value.get("isApiErrorMessage") {
        Some(f) => match f.as_bool() {
            Some(b) => b,
            None => false,
        },
        None => false,
    }
}

/// An item reporting a failed tool call: `type` is `tool_result`, `is_error` is `true`.
pub open spec fn is_failed_tool_result(item: JsonValue) -> bool {
    &&& has_type(item, "tool_result"@)
    &&& match item.field("is_error"@) {
        Some(f) => f.flag() == Some(true),
        None => false,
    }
}

/// Whether an event reports a failed tool call among the items of `message.content`.
pub open spec fn event_is_tool_error(v: JsonValue) -> bool {
    match content_items(v) {
        Some(items) => exists|i: int| 0 <= i < items.len() && is_failed_tool_result(#[trigger] items[i]),
        None => false,
    }
}

fn is_failed_tool_result_of(item: &JsonValue) -> (r: bool)
    ensures
        r == is_failed_tool_result(*item),
{
    if !has_type_of(item, "tool_result") {
        return false;
    }
    match item.get("is_error") {
        Some(f) => match f.as_bool() {
            Some(b) => b,
            None => false,
        },
        None => false,
    }
}

/// Reads whether an event reports a failed tool call.
pub fn extract_is_tool_error(value: &JsonValue) -> (r: bool)
    ensures
        r == event_is_tool_error(*value),
{
    let items = match content_items_of(value) {
        Some(items) => items,
        None => return false,
    };
    let mut i: usize = 0;
    while i < items.len()
        invariant
            i <= items@.len(),
            content_items(*value) == Some(items@),
            forall|j: int| 0 <= j < i ==> !is_failed_tool_result(#[trigger] items@[j]),
        decreases items@.len() - i,
    {
        if is_failed_tool_result_of(&items[i]) {
            assert(is_failed_tool_result(items@[i as int]));
            let ghost seq_items = content_items(*value)->0;
            assert(seq_items == items@);
            assert(exists|j: int| 0 <= j < seq_items.len() && is_failed_tool_result(#[trigger] seq_items[j]));
            return true;
        }
        i += 1;
    }
    false
}

// ---------------------------------------------------------------------------
// Whole lines

/// Whether `p` holds what the event `v` of a line of `event_file` reads as.
pub open spec fn parsed_from(p: ParsedEventLine, v: JsonValue, event_file: EventFile) -> bool {
    &&& p.session@ == event_session(v, event_file.session@)
    &&& p.agent@ == event_agent(v)
    &&& p.event_type@ == event_type(v, event_file.channel@)
    &&& p.preview@ == event_preview(v)
    &&& match event_timestamp(v) {
        Some((ms, shown)) => p.timestamp_ms == Some(ms) && p.timestamp_display is Some
            && p.timestamp_display->0@ == shown,
        None => p.timestamp_ms is None && p.timestamp_display is None,
    }
    &&& p.token_usage == event_token_usage(v)
    &&& match event_model(v) {
        Some(m) => p.model is Some && p.model->0@ == m,
        None => p.model is None,
    }
    &&& texts(p.tool_uses@) == event_tool_uses(v)
    &&& p.turn_duration_ms == event_turn_duration(v)
    &&& hook_pairs(p.hook_infos@) == event_hook_runs(v)
    &&& p.is_api_error == event_is_api_error(v)
    &&& p.is_tool_error == event_is_tool_error(v)
}

/// Reads every field of an event line of `event_file`, given as the JSON document it
/// parses to, `None` when it is not JSON; then there is nothing to read.
pub fn parse_event_json(line: &Option<JsonValue>, event_file: &EventFile) -> (r: Option<
    ParsedEventLine,
>)
    ensures
        match line {
            Some(v) => r is Some && parsed_from(r->0, *v, *event_file),
            None => r is None,
        },
{
    let value = match line {
        Some(v) => v,
        None => return None,
    };
    let (timestamp_ms, timestamp_display) = match extract_event_timestamp(value) {
        Some((ms, shown)) => (Some(ms), Some(shown)),
        None => (None, None),
    };
    Some(
        ParsedEventLine {
            session: extract_event_session(value, event_file.session.as_str()),
            agent: extract_event_agent(value),
            event_type: extract_event_type(value, event_file.channel.as_str()),
            preview: extract_event_preview(value),
            timestamp_ms,
            timestamp_display,
            token_usage: extract_token_usage(value),
            model: extract_model(value),
            tool_uses: extract_tool_uses(value),
            turn_duration_ms: extract_turn_duration(value),
            hook_infos: extract_hook_infos(value),
            is_api_error: extract_is_api_error(value),
            is_tool_error: extract_is_tool_error(value),
        },
    )
}

/// Parses an event line of `event_file` as JSON and reads every field of it; `None` when
/// the line is not JSON.
pub fn parse_event_line(line: &str, event_file: &EventFile) -> (r: Option<ParsedEventLine>)
    ensures
        match json_document(line@) {
            Some(v) => r is Some && parsed_from(r->0, v, *event_file),
            None => r is None,
        },
{
    let value = parse_json(line);
    parse_event_json(&value, event_file)
}

// ---------------------------------------------------------------------------
// Laws of reading events

/// An event's own `timestamp` wins: when it reads as a timestamp, the event's timestamp is
/// that reading whatever `ingest_ts` holds, so two events whose `timestamp` members read
/// alike have the same timestamp; `ingest_ts` is read only when `timestamp` does not read.
pub proof fn lemma_timestamp_before_ingest(v: JsonValue, w: JsonValue)
    ensures
        member_timestamp(v, "timestamp"@) matches Some(p) ==> event_timestamp(v) == Some(p),
        member_timestamp(v, "timestamp"@) is None ==> event_timestamp(v) == member_timestamp(v, "ingest_ts"@),
        member_timestamp(v, "timestamp"@) is Some && member_timestamp(v, "timestamp"@) == member_timestamp(
            w,
            "timestamp"@,
        ) ==> event_timestamp(v) == event_timestamp(w),
{
}

/// An event is a tool error exactly when some item of its `message.content`, at any
/// position, is a `tool_result` with `is_error` true: one failing item anywhere makes it
/// one, whatever the other items are.
pub proof fn lemma_tool_error_any_item(v: JsonValue, k: int)
    ensures
        event_is_tool_error(v) <==> (content_items(v) matches Some(items) && exists|i: int|
            0 <= i < items.len() && is_failed_tool_result(#[trigger] items[i])),
        content_items(v) matches Some(items) && 0 <= k < items.len() && is_failed_tool_result(items[k])
            ==> event_is_tool_error(v),
        content_items(v) matches Some(items) && (forall|i: int| 0 <= i < items.len() ==> !is_failed_tool_result(
            #[trigger] items[i],
        )) ==> !event_is_tool_error(v),
{
}

} // verus!
