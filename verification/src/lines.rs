//! The lines of an event file: gzip decoding, line splitting and UTF-8 decoding.
use vstd::prelude::*;
use vstd::utf8::{decode_utf8, valid_utf8};

use crate::text::chars_of;

verus! {

/// What `flate2::read::GzDecoder` yields, read to its end, from the bytes of a gzip file:
/// the decompressed bytes of its first member, or `None` when reading fails.
pub uninterp spec fn gzip_member_decoded(raw: Seq<u8>) -> Option<Seq<u8>>;

/// Reads `flate2::read::GzDecoder::new(raw)` to its end with `Read::read_to_end`; the
/// contract names the outcome after the compressed bytes and says nothing more of it.
#[verifier::external_body]
fn gunzip(raw: &Vec<u8>) -> (r: Option<Vec<u8>>)
    ensures
        match r {
            Some(out) => gzip_member_decoded(raw@) == Some(out@),
            None => gzip_member_decoded(raw@) is None,
        },
{
    let mut out: Vec<u8> = Vec::new();
    match std::io::Read::read_to_end(&mut flate2::read::GzDecoder::new(raw.as_slice()), &mut out) {
        Ok(_) => Some(out),
        Err(_) => None,
    }
}

/// `String::from_utf8`: the text the bytes encode, when they are valid UTF-8.
#[verifier::external_body]
fn text_of_bytes(bytes: Vec<u8>) -> (r: Option<String>)
    ensures
        match r {
            Some(s) => valid_utf8(bytes@) && s@ == decode_utf8(bytes@),
            None => !valid_utf8(bytes@),
        },
{
    String::from_utf8(bytes).ok()
}

/// The pieces of `b` between newline bytes: one more than there are newlines.
pub open spec fn newline_pieces(b: Seq<u8>) -> Seq<Seq<u8>>
    decreases b.len(),
{
    if b.len() == 0 {
        seq![Seq::<u8>::empty()]
    } else {
        let s = newline_pieces(b.drop_last());
        if b.last() == 10u8 {
            s.push(Seq::<u8>::empty())
        } else {
            s.update(s.len() - 1, s.last().push(b.last()))
        }
    }
}

/// A line that ended in a newline, without a carriage return before it.
pub open spec fn without_cr(line: Seq<u8>) -> Seq<u8> {
    if line.len() > 0 && line.last() == 13u8 { line.drop_last() } else { line }
}

/// The lines of `b` as `BufRead::lines` reads them: a line ends at a newline, which is
/// dropped with a carriage return just before it; the text after the last newline is
/// a line when it is not empty.
pub open spec fn line_bytes(b: Seq<u8>) -> Seq<Seq<u8>> {
    let s = newline_pieces(b);
    let ended = s.drop_last().map_values(|p: Seq<u8>| without_cr(p));
    if s.last().len() == 0 { ended } else { ended.push(s.last()) }
}

/// Whether `lines` are the lines of `b`, each decoded from UTF-8.
pub open spec fn decodes_lines(lines: Seq<String>, b: Seq<u8>) -> bool {
    &&& lines.len() == line_bytes(b).len()
    &&& forall|i: int| 0 <= i < lines.len() ==> valid_utf8(#[trigger] line_bytes(b)[i]) && lines[i]@ == decode_utf8(line_bytes(b)[i])
}

/// Whether every line of `b` is valid UTF-8.
pub open spec fn lines_valid(b: Seq<u8>) -> bool {
    forall|i: int| 0 <= i < line_bytes(b).len() ==> valid_utf8(#[trigger] line_bytes(b)[i])
}

proof fn lemma_pieces_nonempty(b: Seq<u8>)
    ensures
        newline_pieces(b).len() >= 1,
    decreases b.len(),
{
    if b.len() > 0 {
        lemma_pieces_nonempty(b.drop_last());
    }
}

/// The pieces that a newline has closed in a prefix stay as they are in the whole.
proof fn lemma_pieces_extend(b: Seq<u8>, n: int)
    requires
        0 <= n <= b.len(),
    ensures
        newline_pieces(b).len() >= newline_pieces(b.take(n)).len(),
        forall|j: int| 0 <= j < newline_pieces(b.take(n)).len() - 1 ==> #[trigger] newline_pieces(b)[j] == newline_pieces(b.take(n))[j],
    decreases b.len() - n,
{
    if n == b.len() {
        assert(b.take(n) =~= b);
    } else {
        let c = b.drop_last();
        assert(c.take(n) =~= b.take(n));
        lemma_pieces_extend(c, n);
        lemma_pieces_nonempty(c);
    }
}

/// The lines of `bytes` as `BufRead::lines` reads them, each decoded from UTF-8; `None`
/// when a line is not valid UTF-8.
pub fn split_lines(bytes: &Vec<u8>) -> (r: Option<Vec<String>>)
    ensures
        match r {
            Some(lines) => decodes_lines(lines@, bytes@),
            None => !lines_valid(bytes@),
        },
{
    let mut done: Vec<String> = Vec::new();
    let mut cur: Vec<u8> = Vec::new();
    let mut i: usize = 0;
    proof {
        assert(bytes@.take(0) =~= Seq::<u8>::empty());
    }
    while i < bytes.len()
        invariant
            i <= bytes@.len(),
            newline_pieces(bytes@.take(i as int)).len() == done@.len() + 1,
            cur@ == newline_pieces(bytes@.take(i as int)).last(),
            forall|t: int| 0 <= t < done@.len() ==> valid_utf8(without_cr(#[trigger] newline_pieces(bytes@.take(i as int))[t]))
                && done@[t]@ == decode_utf8(without_cr(newline_pieces(bytes@.take(i as int))[t])),
        decreases bytes@.len() - i,
    {
        let ghost before = bytes@.take(i as int);
        let ghost after = bytes@.take(i + 1);
        assert(after.drop_last() =~= before);
        assert(after.last() == bytes@[i as int]);
        let byte = bytes[i];
        if byte == 10u8 {
            let n = cur.len();
            if n > 0 && cur[n - 1] == 13u8 {
                cur.pop();
            }
            assert(cur@ == without_cr(newline_pieces(before).last()));
            let piece = cur;
            cur = Vec::new();
            match text_of_bytes(piece) {
                Some(text) => {
                    done.push(text);
                },
                None => {
                    proof {
                        let k = done@.len() as int;
                        let full = bytes@;
                        lemma_pieces_extend(full, i + 1);
                        assert(newline_pieces(after)[k] == newline_pieces(before).last());
                        assert(newline_pieces(full)[k] == newline_pieces(after)[k]);
                        assert(line_bytes(full)[k] == without_cr(newline_pieces(full)[k]));
                        assert(!valid_utf8(line_bytes(full)[k]));
                    }
                    return None;
                },
            }
        } else {
            cur.push(byte);
        }
        i += 1;
    }
    assert(bytes@.take(i as int) =~= bytes@);
    if cur.len() > 0 {
        let ghost last = cur@;
        match text_of_bytes(cur) {
            Some(text) => {
                done.push(text);
            },
            None => {
                proof {
                    let k = done@.len() as int;
                    assert(line_bytes(bytes@)[k] == last);
                }
                return None;
            },
        }
    }
    Some(done)
}

/// The last component of a path: the text after its last `/`.
pub open spec fn last_component(p: Seq<char>) -> Seq<char>
    decreases p.len(),
{
    if p.len() == 0 {
        p
    } else if p.last() == '/' {
        Seq::<char>::empty()
    } else {
        last_component(p.drop_last()).push(p.last())
    }
}

/// Whether a path names a file with the extension `gz`, as `Path::extension` reads a path
/// that does not end in a separator: its last component ends in `.gz` and has more before it.
pub open spec fn gz_path(p: Seq<char>) -> bool {
    let name = last_component(p);
    name.len() > 3 && name.subrange(name.len() - 3, name.len() as int) == seq!['.', 'g', 'z']
}

proof fn lemma_last_component(p: Seq<char>, k: int)
    requires
        0 <= k <= p.len(),
        k == 0 || p[k - 1] == '/',
        forall|j: int| k <= j < p.len() ==> p[j] != '/',
    ensures
        last_component(p) == p.subrange(k, p.len() as int),
    decreases p.len(),
{
    if p.len() == k {
        if k > 0 {
            assert(last_component(p) =~= Seq::<char>::empty());
        }
        assert(p.subrange(k, k) =~= Seq::<char>::empty());
    } else {
        lemma_last_component(p.drop_last(), k);
        assert(p.subrange(k, p.len() as int) =~= p.drop_last().subrange(k, p.len() - 1).push(p.last()));
    }
}

/// Whether the path names a gzip file by its extension.
pub fn has_gz_extension(path: &str) -> (r: bool)
    ensures
        r == gz_path(path@),
{
    let cs = chars_of(path);
    let n = cs.len();
    let mut start = n;
    while start > 0 && cs[start - 1] != '/'
        invariant
            start <= n == cs@.len(),
            forall|j: int| start <= j < n ==> cs@[j] != '/',
        decreases start,
    {
        start -= 1;
    }
    proof {
        lemma_last_component(cs@, start as int);
    }
    let ghost name = cs@.subrange(start as int, n as int);
    if n - start > 3 && cs[n - 3] == '.' && cs[n - 2] == 'g' && cs[n - 1] == 'z' {
        assert(name.subrange(name.len() - 3, name.len() as int) =~= seq!['.', 'g', 'z']);
        true
    } else {
        proof {
            if name.len() > 3 {
                let tail = name.subrange(name.len() - 3, name.len() as int);
                assert(tail[0] == cs@[n - 3]);
                assert(tail[1] == cs@[n - 2]);
                assert(tail[2] == cs@[n - 1]);
                if tail == seq!['.', 'g', 'z'] {
                    assert(tail[0] == '.');
                }
            }
        }
        false
    }
}

/// Why the lines of an event file could not be read.
#[derive(Debug, Clone, Copy, PartialEq, Eq, Structural)]
pub enum LineError {
    /// The gzip stream could not be decoded.
    Gzip,
    /// A line is not valid UTF-8.
    Utf8,
}

/// What reading the lines of `b` gives: the decoded lines, or `Utf8` when one is not valid.
pub open spec fn lines_outcome(r: Result<Vec<String>, LineError>, b: Seq<u8>) -> bool {
    match r {
        Ok(lines) => decodes_lines(lines@, b),
        Err(e) => e == LineError::Utf8 && !lines_valid(b),
    }
}

/// The lines of an event file read from `raw`, the file's bytes: a file whose name ends
/// in `.gz` is first decoded as gzip.
pub fn event_file_lines(path: &str, raw: &Vec<u8>) -> (r: Result<Vec<String>, LineError>)
    ensures
        gz_path(path@) ==> match gzip_member_decoded(raw@) {
            Some(b) => lines_outcome(r, b),
            None => r == Err::<Vec<String>, LineError>(LineError::Gzip),
        },
        !gz_path(path@) ==> lines_outcome(r, raw@),
{
    if has_gz_extension(path) {
        match gunzip(raw) {
            Some(bytes) => match split_lines(&bytes) {
                Some(lines) => Ok(lines),
                None => Err(LineError::Utf8),
            },
            None => Err(LineError::Gzip),
        }
    } else {
        match split_lines(raw) {
            Some(lines) => Ok(lines),
            None => Err(LineError::Utf8),
        }
    }
}

} // verus!
