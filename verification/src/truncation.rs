//! Heuristic detection of truncated tool-call arguments.
//!
//! Under output-token pressure the upstream can cut a tool call's
//! argument JSON mid-stream. The detector classifies the raw argument
//! text by a fixed rule order — empty input, unparseable-and-looks-cut
//! JSON, missing required fields, suspicious content strings — and
//! produces a human-readable diagnostic for a soft retry, never a hard
//! error.

use vstd::prelude::*;

verus! {

use vstd::string::StringExecFns;
use vstd::string::StringSliceAdditionalSpecFns;
use vstd::string::StrSliceExecFns;
use vstd::utf8::encode_utf8;

use crate::json::{jview, jview_fields, lemma_jview_fields_len, str_eq, JsonValue, JsonView};
use crate::text::{decimal_of, push_decimal, str_len, string_push};

/// The detector's verdict.
#[derive(Debug, Clone, Copy, PartialEq, Eq, Structural)]
pub enum TruncationType {
    /// Not truncated.
    NotTruncated,
    /// The input was empty or all whitespace.
    EmptyInput,
    /// The input does not parse and looks cut off mid-JSON.
    InvalidJson,
    /// The input parses but required fields are absent.
    MissingFields,
    /// A content string looks cut off.
    IncompleteString,
}

/// The detector's full report.
#[derive(Debug)]
pub struct TruncationInfo {
    pub is_truncated: bool,
    pub truncation_type: TruncationType,
    /// Best-effort field previews: one entry per field name, in the
    /// order the names first appeared.
    pub parsed_fields: Vec<(String, String)>,
    pub error_message: String,
}

// --- Whitespace and trimming ------------------------------------------

/// The Unicode `White_Space` characters, the set `str::trim` removes.
pub open spec fn is_ws(c: char) -> bool {
    c == ' ' || c == '\t' || c == '\n' || c == '\r' || c == '\x0b' || c == '\x0c'
        || c == '\u{0085}' || c == '\u{00a0}' || c == '\u{1680}' || ('\u{2000}' <= c && c
        <= '\u{200a}') || c == '\u{2028}' || c == '\u{2029}' || c == '\u{202f}' || c
        == '\u{205f}' || c == '\u{3000}'
}

/// The number of leading whitespace characters.
pub open spec fn trim_start(s: Seq<char>) -> int
    decreases s,
{
    if s.len() == 0 {
        0
    } else if is_ws(s[0]) {
        1 + trim_start(s.drop_first())
    } else {
        0
    }
}

/// The length of the string with trailing whitespace removed.
pub open spec fn trim_end(s: Seq<char>) -> int
    decreases s,
{
    if s.len() == 0 {
        0
    } else if is_ws(s.last()) {
        trim_end(s.drop_last())
    } else {
        s.len() as int
    }
}

/// `s` without leading and trailing whitespace.
pub open spec fn spec_trim(s: Seq<char>) -> Seq<char> {
    if trim_start(s) >= trim_end(s) {
        Seq::empty()
    } else {
        s.subrange(trim_start(s), trim_end(s))
    }
}

proof fn lemma_trim_start_bound(s: Seq<char>)
    ensures
        0 <= trim_start(s) <= s.len(),
        forall|m: int| 0 <= m < trim_start(s) ==> is_ws(s[m]),
        trim_start(s) < s.len() ==> !is_ws(s[trim_start(s)]),
    decreases s,
{
    if s.len() > 0 && is_ws(s[0]) {
        lemma_trim_start_bound(s.drop_first());
        assert forall|m: int| 0 <= m < trim_start(s) implies is_ws(s[m]) by {
            if m > 0 {
                assert(s[m] == s.drop_first()[m - 1]);
            }
        }
    }
}

proof fn lemma_trim_end_bound(s: Seq<char>)
    ensures
        0 <= trim_end(s) <= s.len(),
        forall|m: int| trim_end(s) <= m < s.len() ==> is_ws(s[m]),
        trim_end(s) > 0 ==> !is_ws(s[trim_end(s) - 1]),
    decreases s,
{
    if s.len() > 0 && is_ws(s.last()) {
        lemma_trim_end_bound(s.drop_last());
        assert(forall|m: int|
            trim_end(s) <= m < s.len() - 1 ==> s[m] == s.drop_last()[m] && is_ws(s[m]));
    }
}

fn is_ws_exec(c: char) -> (r: bool)
    ensures
        r == is_ws(c),
{
    c == ' ' || c == '\t' || c == '\n' || c == '\r' || c == '\x0b' || c == '\x0c'
        || c == '\u{0085}' || c == '\u{00a0}' || c == '\u{1680}' || ('\u{2000}' <= c && c
        <= '\u{200a}') || c == '\u{2028}' || c == '\u{2029}' || c == '\u{202f}' || c
        == '\u{205f}' || c == '\u{3000}'
}

/// The trimmed range `[start, end)` of `s`'s characters.
fn trim_range(s: &str, n: usize) -> (r: (usize, usize))
    requires
        n == s@.len(),
    ensures
        r.0 <= r.1 <= n,
        r.0 == trim_start(s@),
        r.1 == if trim_end(s@) > trim_start(s@) {
            trim_end(s@)
        } else {
            trim_start(s@)
        },
        spec_trim(s@) == s@.subrange(r.0 as int, r.1 as int),
{
    proof {
        lemma_trim_start_bound(s@);
        lemma_trim_end_bound(s@);
    }
    let mut a: usize = 0;
    while a < n && is_ws_exec(s.get_char(a))
        invariant
            n == s@.len(),
            a <= n,
            forall|m: int| 0 <= m < a ==> is_ws(s@[m]),
            a <= trim_start(s@),
        decreases n - a,
    {
        proof {
            lemma_trim_start_bound(s@);
            assert(a + 1 <= trim_start(s@)) by {
                if trim_start(s@) == a {
                    assert(!is_ws(s@[a as int]));
                }
            }
        }
        a = a + 1;
    }
    proof {
        lemma_trim_start_bound(s@);
        assert(a == trim_start(s@)) by {
            if a < trim_start(s@) {
                assert(is_ws(s@[a as int]));
            }
        }
    }
    let mut b: usize = n;
    while b > a && is_ws_exec(s.get_char(b - 1))
        invariant
            n == s@.len(),
            a <= b <= n,
            a == trim_start(s@),
            forall|m: int| b <= m < n ==> is_ws(s@[m]),
            trim_end(s@) <= b || trim_end(s@) <= trim_start(s@),
        decreases b,
    {
        proof {
            lemma_trim_end_bound(s@);
            if trim_end(s@) == b {
                assert(!is_ws(s@[b - 1]));
            }
        }
        b = b - 1;
    }
    proof {
        lemma_trim_end_bound(s@);
        if b > a {
            assert(b == trim_end(s@)) by {
                if b > trim_end(s@) {
                    assert(is_ws(s@[b - 1]));
                }
            }
            assert(spec_trim(s@) == s@.subrange(a as int, b as int));
        } else {
            assert(b == a);
            assert(trim_end(s@) <= trim_start(s@)) by {
                if trim_end(s@) > a {
                    assert(is_ws(s@[trim_end(s@) - 1]));
                }
            }
            assert(spec_trim(s@) =~= s@.subrange(a as int, b as int));
        }
    }
    (a, b)
}

// --- The truncated-JSON heuristic --------------------------------------

/// How many characters of `s` equal `c`.
pub open spec fn count_char(s: Seq<char>, c: char) -> int
    decreases s,
{
    if s.len() == 0 {
        0
    } else {
        count_char(s.drop_last(), c) + if s.last() == c {
            1int
        } else {
            0int
        }
    }
}

/// Whether a left-to-right scan of `s`, starting inside or outside a
/// string literal, ends inside one. A backslash escapes the next
/// character.
pub open spec fn ends_in_string(s: Seq<char>, i: int, in_str: bool, esc: bool) -> bool
    decreases s.len() - i,
{
    if i < 0 || i >= s.len() {
        in_str
    } else if esc {
        ends_in_string(s, i + 1, in_str, false)
    } else if s[i] == '\\' {
        ends_in_string(s, i + 1, in_str, true)
    } else if s[i] == '"' {
        ends_in_string(s, i + 1, !in_str, false)
    } else {
        ends_in_string(s, i + 1, in_str, false)
    }
}

/// The heuristic for text that does not parse: it looks like truncated
/// JSON when it starts with `{` and has unbalanced braces or brackets,
/// or ends in a character no valid JSON ends with, or has an unterminated
/// string literal.
pub open spec fn spec_looks_like_truncated_json(raw: Seq<char>) -> bool {
    let t = spec_trim(raw);
    if t.len() == 0 || t[0] != '{' {
        false
    } else if count_char(t, '{') > count_char(t, '}') || count_char(t, '[') > count_char(
        t,
        ']',
    ) {
        true
    } else if t.last() != '}' && t.last() != ']' && (t.last() == '"' || t.last() == ':'
        || t.last() == ',') {
        true
    } else {
        ends_in_string(t, 0, false, false)
    }
}

fn count_char_range(s: &str, a: usize, b: usize, c: char) -> (r: usize)
    requires
        a <= b <= s@.len(),
    ensures
        r == count_char(s@.subrange(a as int, b as int), c),
{
    let ghost t = s@.subrange(a as int, b as int);
    let mut i: usize = a;
    let mut acc: usize = 0;
    while i < b
        invariant
            a <= i <= b <= s@.len(),
            t == s@.subrange(a as int, b as int),
            acc <= i - a,
            acc == count_char(t.take(i - a), c),
        decreases b - i,
    {
        proof {
            assert(t.take(i - a + 1).drop_last() =~= t.take(i - a));
            assert(t.take(i - a + 1).last() == s@[i as int]);
        }
        if s.get_char(i) == c {
            acc = acc + 1;
        }
        i = i + 1;
    }
    proof {
        assert(t.take(b - a) =~= t);
    }
    acc
}

fn ends_in_string_range(s: &str, a: usize, b: usize) -> (r: bool)
    requires
        a <= b <= s@.len(),
    ensures
        r == ends_in_string(s@.subrange(a as int, b as int), 0, false, false),
{
    let ghost t = s@.subrange(a as int, b as int);
    let mut i: usize = a;
    let mut in_str = false;
    let mut esc = false;
    while i < b
        invariant
            a <= i <= b <= s@.len(),
            t == s@.subrange(a as int, b as int),
            ends_in_string(t, 0, false, false) == ends_in_string(t, i - a, in_str, esc),
        decreases b - i,
    {
        proof {
            assert(t[i - a] == s@[i as int]);
        }
        let c = s.get_char(i);
        if esc {
            esc = false;
        } else if c == '\\' {
            esc = true;
        } else if c == '"' {
            in_str = !in_str;
        }
        i = i + 1;
    }
    in_str
}

/// Whether unparseable argument text looks like JSON that was cut off
/// mid-stream.
pub fn looks_like_truncated_json(raw: &str) -> (r: bool)
    ensures
        r == spec_looks_like_truncated_json(raw@),
{
    let n = raw.unicode_len();
    let (a, b) = trim_range(raw, n);
    let ghost t = spec_trim(raw@);
    if a >= b {
        return false;
    }
    if raw.get_char(a) != '{' {
        proof {
            assert(t[0] == raw@[a as int]);
        }
        return false;
    }
    proof {
        assert(t[0] == raw@[a as int]);
    }
    let open_braces = count_char_range(raw, a, b, '{');
    let close_braces = count_char_range(raw, a, b, '}');
    let open_brackets = count_char_range(raw, a, b, '[');
    let close_brackets = count_char_range(raw, a, b, ']');
    if open_braces > close_braces || open_brackets > close_brackets {
        return true;
    }
    let last = raw.get_char(b - 1);
    proof {
        assert(t.last() == raw@[b - 1]);
    }
    if last != '}' && last != ']' && (last == '"' || last == ':' || last == ',') {
        return true;
    }
    ends_in_string_range(raw, a, b)
}

// --- Best-effort field extraction from malformed JSON ------------------
//
// When the text does not parse, the detector still reports what it can:
// the leading `{` is stripped, the remainder is split on top-level commas
// (outside strings, braces and brackets), each piece is split on its
// first colon, and the value side is previewed at 50 characters.

/// Splits the characters from `i` on at top-level commas: `cur` is the
/// piece being read, `acc` the pieces already read.
pub open spec fn split_rec(
    s: Seq<char>,
    i: int,
    depth: int,
    in_str: bool,
    esc: bool,
    cur: Seq<char>,
    acc: Seq<Seq<char>>,
) -> Seq<Seq<char>>
    decreases s.len() - i,
{
    if i < 0 || i >= s.len() {
        acc.push(cur)
    } else {
        let c = s[i];
        if esc {
            split_rec(s, i + 1, depth, in_str, false, cur.push(c), acc)
        } else if c == '\\' {
            split_rec(s, i + 1, depth, in_str, true, cur.push(c), acc)
        } else if c == '"' {
            split_rec(s, i + 1, depth, !in_str, false, cur.push(c), acc)
        } else if !in_str && (c == '{' || c == '[') {
            split_rec(s, i + 1, depth + 1, in_str, false, cur.push(c), acc)
        } else if !in_str && (c == '}' || c == ']') {
            split_rec(s, i + 1, depth - 1, in_str, false, cur.push(c), acc)
        } else if !in_str && c == ',' && depth == 0 {
            split_rec(s, i + 1, 0, false, false, Seq::empty(), acc.push(cur))
        } else {
            split_rec(s, i + 1, depth, in_str, false, cur.push(c), acc)
        }
    }
}

/// The top-level comma-separated pieces of `s`.
pub open spec fn spec_split_top_level(s: Seq<char>) -> Seq<Seq<char>> {
    split_rec(s, 0, 0, false, false, Seq::empty(), Seq::empty())
}

/// The index of the first colon at or after `i`, or -1.
pub open spec fn first_colon(p: Seq<char>, i: int) -> int
    decreases p.len() - i,
{
    if i < 0 || i >= p.len() {
        -1
    } else if p[i] == ':' {
        i
    } else {
        first_colon(p, i + 1)
    }
}

/// The number of leading quote characters.
pub open spec fn quotes_start(s: Seq<char>) -> int
    decreases s,
{
    if s.len() == 0 {
        0
    } else if s[0] == '"' {
        1 + quotes_start(s.drop_first())
    } else {
        0
    }
}

/// The length of the string with trailing quotes removed.
pub open spec fn quotes_end(s: Seq<char>) -> int
    decreases s,
{
    if s.len() == 0 {
        0
    } else if s.last() == '"' {
        quotes_end(s.drop_last())
    } else {
        s.len() as int
    }
}

/// `s` without surrounding double quotes.
pub open spec fn spec_strip_quotes(s: Seq<char>) -> Seq<char> {
    if quotes_start(s) >= quotes_end(s) {
        Seq::empty()
    } else {
        s.subrange(quotes_start(s), quotes_end(s))
    }
}

/// A value preview: the value itself, or its first 50 characters and an
/// ellipsis when it is longer than 50 characters.
pub open spec fn spec_preview(value: Seq<char>) -> Seq<char> {
    if value.len() > 50 {
        value.take(50) + "..."@
    } else {
        value
    }
}

/// The key/preview pair of one comma-separated piece, split at its first
/// colon; a piece without a colon yields nothing.
pub open spec fn spec_field_of(p: Seq<char>) -> Option<(Seq<char>, Seq<char>)> {
    let ci = first_colon(p, 0);
    if ci < 0 {
        None
    } else {
        let key = spec_strip_quotes(spec_trim(p.take(ci)));
        let value = spec_trim(p.skip(ci + 1));
        Some((key, spec_preview(value)))
    }
}

/// The key/preview pairs of all pieces, in order.
/// Whether some pair carries `key`.
pub open spec fn has_field_key(acc: Seq<(Seq<char>, Seq<char>)>, key: Seq<char>) -> bool {
    exists|i: int| 0 <= i < acc.len() && acc[i].0 == key
}

/// The index of the pair carrying `key` (meaningful when keys are unique
/// and `has_field_key` holds).
pub open spec fn field_key_index(acc: Seq<(Seq<char>, Seq<char>)>, key: Seq<char>) -> int {
    choose|i: int| 0 <= i < acc.len() && acc[i].0 == key
}

/// Inserts a pair, or overwrites the pair already carrying its key: the
/// mapping keeps one preview per name, the last occurrence winning, at
/// the position where the name first appeared.
pub open spec fn upsert_field(
    acc: Seq<(Seq<char>, Seq<char>)>,
    kv: (Seq<char>, Seq<char>),
) -> Seq<(Seq<char>, Seq<char>)> {
    if has_field_key(acc, kv.0) {
        acc.update(field_key_index(acc, kv.0), kv)
    } else {
        acc.push(kv)
    }
}

/// The name-to-preview mapping of all pieces.
pub open spec fn spec_fields_of(pieces: Seq<Seq<char>>) -> Seq<(Seq<char>, Seq<char>)>
    decreases pieces,
{
    if pieces.len() == 0 {
        Seq::empty()
    } else {
        let acc = spec_fields_of(pieces.drop_last());
        match spec_field_of(pieces.last()) {
            Some(kv) => upsert_field(acc, kv),
            None => acc,
        }
    }
}

/// What `extract_partial_fields` reports for raw text: the text is
/// trimmed, a leading `{` is stripped, and the name-to-preview mapping of
/// the top-level pieces is collected, the last occurrence of a name
/// winning.
pub open spec fn spec_extract_partial_fields(raw: Seq<char>) -> Seq<(Seq<char>, Seq<char>)> {
    let t = spec_trim(raw);
    let src = if t.len() > 0 && t[0] == '{' {
        t.drop_first()
    } else {
        raw
    };
    spec_fields_of(spec_split_top_level(src))
}

proof fn lemma_quotes_start_bound(s: Seq<char>)
    ensures
        0 <= quotes_start(s) <= s.len(),
    decreases s,
{
    if s.len() > 0 && s[0] == '"' {
        lemma_quotes_start_bound(s.drop_first());
    }
}

proof fn lemma_quotes_end_bound(s: Seq<char>)
    ensures
        0 <= quotes_end(s) <= s.len(),
    decreases s,
{
    if s.len() > 0 && s.last() == '"' {
        lemma_quotes_end_bound(s.drop_last());
    }
}

/// Appends the characters `s@[a..b]` to `out`.
fn push_range(out: &mut String, s: &str, a: usize, b: usize)
    requires
        a <= b <= s@.len(),
    ensures
        final(out)@ == old(out)@ + s@.subrange(a as int, b as int),
{
    let mut i = a;
    while i < b
        invariant
            a <= i <= b <= s@.len(),
            out@ == old(out)@ + s@.subrange(a as int, i as int),
        decreases b - i,
    {
        let c = s.get_char(i);
        string_push(out, c);
        proof {
            assert(s@.subrange(a as int, i + 1) =~= s@.subrange(a as int, i as int).push(c));
            assert(old(out)@ + s@.subrange(a as int, i as int).push(c) =~= (old(out)@
                + s@.subrange(a as int, i as int)).push(c));
        }
        i = i + 1;
    }
    proof {
        if a == b {
            assert(s@.subrange(a as int, b as int) =~= Seq::<char>::empty());
            assert(out@ =~= old(out)@ + s@.subrange(a as int, b as int));
        }
    }
}

/// The trimmed sub-piece of `s@[lo..hi]` as absolute indices.
fn trim_in(s: &str, lo: usize, hi: usize) -> (r: (usize, usize))
    requires
        lo <= hi <= s@.len(),
    ensures
        lo <= r.0 <= r.1 <= hi,
        spec_trim(s@.subrange(lo as int, hi as int)) == s@.subrange(r.0 as int, r.1 as int),
{
    let ghost t = s@.subrange(lo as int, hi as int);
    proof {
        lemma_trim_start_bound(t);
        lemma_trim_end_bound(t);
    }
    let mut a = lo;
    while a < hi && is_ws_exec(s.get_char(a))
        invariant
            lo <= a <= hi <= s@.len(),
            t == s@.subrange(lo as int, hi as int),
            forall|m: int| 0 <= m < a - lo ==> is_ws(t[m]),
            a - lo <= trim_start(t),
        decreases hi - a,
    {
        proof {
            lemma_trim_start_bound(t);
            if trim_start(t) == a - lo {
                assert(!is_ws(t[a - lo]));
                assert(t[a - lo] == s@[a as int]);
            }
        }
        a = a + 1;
    }
    proof {
        lemma_trim_start_bound(t);
        assert(a - lo == trim_start(t)) by {
            if a - lo < trim_start(t) {
                assert(is_ws(t[a - lo]));
                assert(t[a - lo] == s@[a as int]);
            }
        }
    }
    let mut b = hi;
    while b > a && is_ws_exec(s.get_char(b - 1))
        invariant
            lo <= a <= b <= hi <= s@.len(),
            t == s@.subrange(lo as int, hi as int),
            a - lo == trim_start(t),
            forall|m: int| b - lo <= m < t.len() ==> is_ws(t[m]),
            trim_end(t) <= b - lo || trim_end(t) <= trim_start(t),
        decreases b,
    {
        proof {
            lemma_trim_end_bound(t);
            if trim_end(t) == b - lo {
                assert(!is_ws(t[b - lo - 1]));
                assert(t[b - lo - 1] == s@[b - 1]);
            }
        }
        b = b - 1;
    }
    proof {
        lemma_trim_end_bound(t);
        if b > a {
            assert(b - lo == trim_end(t)) by {
                if b - lo > trim_end(t) {
                    assert(is_ws(t[b - lo - 1]));
                    assert(t[b - lo - 1] == s@[b - 1]);
                }
            }
            assert(spec_trim(t) =~= s@.subrange(a as int, b as int));
        } else {
            assert(trim_end(t) <= trim_start(t)) by {
                if trim_end(t) > a - lo {
                    assert(is_ws(t[trim_end(t) - 1]));
                }
            }
            assert(spec_trim(t) =~= s@.subrange(a as int, b as int));
        }
    }
    (a, b)
}

/// The quote-stripped sub-piece of `s@[lo..hi]` as absolute indices.
fn strip_quotes_in(s: &str, lo: usize, hi: usize) -> (r: (usize, usize))
    requires
        lo <= hi <= s@.len(),
    ensures
        lo <= r.0 <= r.1 <= hi,
        spec_strip_quotes(s@.subrange(lo as int, hi as int)) == s@.subrange(
            r.0 as int,
            r.1 as int,
        ),
{
    let ghost t = s@.subrange(lo as int, hi as int);
    proof {
        lemma_quotes_start_bound(t);
        lemma_quotes_end_bound(t);
        lemma_quotes_start_run(t);
        lemma_quotes_end_run(t);
    }
    let mut a = lo;
    while a < hi && s.get_char(a) == '"'
        invariant
            lo <= a <= hi <= s@.len(),
            t == s@.subrange(lo as int, hi as int),
            forall|m: int| 0 <= m < a - lo ==> t[m] == '"',
            a - lo <= quotes_start(t),
        decreases hi - a,
    {
        proof {
            lemma_quotes_start_run(t);
            if quotes_start(t) == a - lo {
                assert(t[a - lo] != '"');
                assert(t[a - lo] == s@[a as int]);
            }
        }
        a = a + 1;
    }
    proof {
        lemma_quotes_start_run(t);
        assert(a - lo == quotes_start(t)) by {
            if a - lo < quotes_start(t) {
                assert(t[a - lo] == '"');
                assert(t[a - lo] == s@[a as int]);
            }
        }
    }
    let mut b = hi;
    while b > a && s.get_char(b - 1) == '"'
        invariant
            lo <= a <= b <= hi <= s@.len(),
            t == s@.subrange(lo as int, hi as int),
            a - lo == quotes_start(t),
            forall|m: int| b - lo <= m < t.len() ==> t[m] == '"',
            quotes_end(t) <= b - lo || quotes_end(t) <= quotes_start(t),
        decreases b,
    {
        proof {
            lemma_quotes_end_run(t);
            if quotes_end(t) == b - lo {
                assert(t[b - lo - 1] != '"');
                assert(t[b - lo - 1] == s@[b - 1]);
            }
        }
        b = b - 1;
    }
    proof {
        lemma_quotes_end_run(t);
        if b > a {
            assert(b - lo == quotes_end(t)) by {
                if b - lo > quotes_end(t) {
                    assert(t[b - lo - 1] == '"');
                    assert(t[b - lo - 1] == s@[b - 1]);
                }
            }
            assert(spec_strip_quotes(t) =~= s@.subrange(a as int, b as int));
        } else {
            assert(quotes_end(t) <= quotes_start(t)) by {
                if quotes_end(t) > a - lo {
                    assert(t[quotes_end(t) - 1] == '"');
                }
            }
            assert(spec_strip_quotes(t) =~= s@.subrange(a as int, b as int));
        }
    }
    (a, b)
}

proof fn lemma_quotes_start_run(s: Seq<char>)
    ensures
        0 <= quotes_start(s) <= s.len(),
        forall|m: int| 0 <= m < quotes_start(s) ==> s[m] == '"',
        quotes_start(s) < s.len() ==> s[quotes_start(s)] != '"',
    decreases s,
{
    if s.len() > 0 && s[0] == '"' {
        lemma_quotes_start_run(s.drop_first());
        assert forall|m: int| 0 <= m < quotes_start(s) implies s[m] == '"' by {
            if m > 0 {
                assert(s[m] == s.drop_first()[m - 1]);
            }
        }
    }
}

proof fn lemma_quotes_end_run(s: Seq<char>)
    ensures
        0 <= quotes_end(s) <= s.len(),
        forall|m: int| quotes_end(s) <= m < s.len() ==> s[m] == '"',
        quotes_end(s) > 0 ==> s[quotes_end(s) - 1] != '"',
    decreases s,
{
    if s.len() > 0 && s.last() == '"' {
        lemma_quotes_end_run(s.drop_last());
        assert(forall|m: int|
            quotes_end(s) <= m < s.len() - 1 ==> s[m] == s.drop_last()[m] && s[m] == '"');
    }
}

/// The views of a string sequence.
pub open spec fn string_views(ss: Seq<String>) -> Seq<Seq<char>>
    decreases ss,
{
    if ss.len() == 0 {
        Seq::empty()
    } else {
        string_views(ss.drop_last()).push(ss.last()@)
    }
}

proof fn lemma_string_views(ss: Seq<String>)
    ensures
        string_views(ss).len() == ss.len(),
        forall|m: int| 0 <= m < ss.len() ==> string_views(ss)[m] == ss[m]@,
    decreases ss,
{
    if ss.len() > 0 {
        lemma_string_views(ss.drop_last());
        assert forall|m: int| 0 <= m < ss.len() implies string_views(ss)[m] == ss[m]@ by {
            if m < ss.len() - 1 {
                assert(ss.drop_last()[m] == ss[m]);
            }
        }
    }
}

proof fn lemma_string_views_push(ss: Seq<String>, e: String)
    ensures
        string_views(ss.push(e)) == string_views(ss).push(e@),
{
    assert(ss.push(e).drop_last() =~= ss);
    assert(ss.push(e).last() == e);
}

/// The views of a string-pair sequence.
pub open spec fn pair_views(ss: Seq<(String, String)>) -> Seq<(Seq<char>, Seq<char>)>
    decreases ss,
{
    if ss.len() == 0 {
        Seq::empty()
    } else {
        pair_views(ss.drop_last()).push((ss.last().0@, ss.last().1@))
    }
}

proof fn lemma_pair_views_push(ss: Seq<(String, String)>, e: (String, String))
    ensures
        pair_views(ss.push(e)) == pair_views(ss).push((e.0@, e.1@)),
{
    assert(ss.push(e).drop_last() =~= ss);
    assert(ss.push(e).last() == e);
}

proof fn lemma_pair_views(ss: Seq<(String, String)>)
    ensures
        pair_views(ss).len() == ss.len(),
        forall|m: int| 0 <= m < ss.len() ==> pair_views(ss)[m] == (ss[m].0@, ss[m].1@),
    decreases ss,
{
    if ss.len() > 0 {
        lemma_pair_views(ss.drop_last());
        assert forall|m: int|
            0 <= m < ss.len() implies pair_views(ss)[m] == (ss[m].0@, ss[m].1@) by {
            if m < ss.len() - 1 {
                assert(ss.drop_last()[m] == ss[m]);
            }
        }
    }
}

proof fn lemma_pair_views_update(ss: Seq<(String, String)>, i: int, e: (String, String))
    requires
        0 <= i < ss.len(),
    ensures
        pair_views(ss.update(i, e)) == pair_views(ss).update(i, (e.0@, e.1@)),
{
    lemma_pair_views(ss);
    lemma_pair_views(ss.update(i, e));
    assert(pair_views(ss.update(i, e)) =~= pair_views(ss).update(i, (e.0@, e.1@)));
}

/// The index of the pair already carrying `key`, if any.
fn find_field(out: &Vec<(String, String)>, key: &str) -> (r: Option<usize>)
    requires
        forall|a: int, b: int| 0 <= a < b < out@.len() ==> out@[a].0@ != out@[b].0@,
    ensures
        match r {
            Some(j) => j < out@.len() && out@[j as int].0@ == key@ && has_field_key(
                pair_views(out@),
                key@,
            ) && field_key_index(pair_views(out@), key@) == j,
            None => !has_field_key(pair_views(out@), key@),
        },
{
    proof {
        lemma_pair_views(out@);
    }
    let n = out.len();
    let mut i: usize = 0;
    while i < n
        invariant
            n == out@.len(),
            pair_views(out@).len() == n,
            forall|m: int| 0 <= m < n ==> pair_views(out@)[m] == (out@[m].0@, out@[m].1@),
            forall|a: int, b: int| 0 <= a < b < n ==> out@[a].0@ != out@[b].0@,
            i <= n,
            forall|m: int| 0 <= m < i ==> out@[m].0@ != key@,
        decreases n - i,
    {
        if str_eq(out[i].0.as_str(), key) {
            proof {
                assert(pair_views(out@)[i as int].0 == key@);
                assert(has_field_key(pair_views(out@), key@));
                let j = field_key_index(pair_views(out@), key@);
                assert(0 <= j < n && pair_views(out@)[j].0 == key@);
                assert(out@[j].0@ == key@);
                assert(j == i);
            }
            return Some(i);
        }
        i = i + 1;
    }
    proof {
        if has_field_key(pair_views(out@), key@) {
            let j = field_key_index(pair_views(out@), key@);
            assert(0 <= j < n && pair_views(out@)[j].0 == key@);
            assert(out@[j].0@ == key@);
        }
    }
    None
}

/// Best-effort extraction of field names and value previews from
/// malformed JSON text.
pub fn extract_partial_fields(raw: &str) -> (r: Vec<(String, String)>)
    ensures
        pair_views(r@) == spec_extract_partial_fields(raw@),
{
    let n = raw.unicode_len();
    let (ta, tb) = trim_range(raw, n);
    let ghost t = spec_trim(raw@);
    let mut lo: usize = 0;
    let mut hi: usize = n;
    if tb > ta && raw.get_char(ta) == '{' {
        proof {
            assert(t[0] == raw@[ta as int]);
        }
        lo = ta + 1;
        hi = tb;
    } else {
        proof {
            if t.len() > 0 {
                assert(t[0] == raw@[ta as int]);
            }
        }
    }
    let ghost src = if t.len() > 0 && t[0] == '{' {
        t.drop_first()
    } else {
        raw@
    };
    proof {
        assert(src =~= raw@.subrange(lo as int, hi as int));
    }
    let mut pieces: Vec<String> = Vec::new();
    let mut cur = String::new();
    let mut depth: i128 = 0;
    let mut in_str = false;
    let mut esc = false;
    let mut i = lo;
    while i < hi
        invariant
            lo <= i <= hi <= raw@.len(),
            src == raw@.subrange(lo as int, hi as int),
            -(i as int) <= depth <= i as int,
            spec_split_top_level(src) == split_rec(
                src,
                i - lo,
                depth as int,
                in_str,
                esc,
                cur@,
                string_views(pieces@),
            ),
        decreases hi - i,
    {
        proof {
            assert(src[i - lo] == raw@[i as int]);
        }
        let c = raw.get_char(i);
        if esc {
            string_push(&mut cur, c);
            esc = false;
        } else if c == '\\' {
            string_push(&mut cur, c);
            esc = true;
        } else if c == '"' {
            string_push(&mut cur, c);
            in_str = !in_str;
        } else if !in_str && (c == '{' || c == '[') {
            string_push(&mut cur, c);
            depth = depth + 1;
        } else if !in_str && (c == '}' || c == ']') {
            string_push(&mut cur, c);
            depth = depth - 1;
        } else if !in_str && c == ',' && depth == 0 {
            let ghost old_pieces = pieces@;
            let finished = cur;
            pieces.push(finished);
            cur = String::new();
            proof {
                lemma_string_views_push(old_pieces, finished);
            }
        } else {
            string_push(&mut cur, c);
        }
        i = i + 1;
    }
    let ghost old_pieces = pieces@;
    let finished = cur;
    pieces.push(finished);
    proof {
        lemma_string_views_push(old_pieces, finished);
        assert(string_views(pieces@) == spec_split_top_level(src));
        lemma_string_views(pieces@);
    }
    let ghost all = string_views(pieces@);
    let np = pieces.len();
    let mut out: Vec<(String, String)> = Vec::new();
    let mut k: usize = 0;
    while k < np
        invariant
            np == pieces@.len(),
            all == string_views(pieces@),
            all.len() == np,
            forall|m: int| 0 <= m < np ==> all[m] == pieces@[m]@,
            k <= np,
            pair_views(out@) == spec_fields_of(all.take(k as int)),
            forall|a: int, b: int| 0 <= a < b < out@.len() ==> out@[a].0@ != out@[b].0@,
        decreases np - k,
    {
        proof {
            assert(all.take(k + 1).drop_last() =~= all.take(k as int));
            assert(all.take(k + 1).last() == all[k as int]);
        }
        let p = &pieces[k];
        let plen = p.as_str().unicode_len();
        let mut j: usize = 0;
        while j < plen && p.as_str().get_char(j) != ':'
            invariant
                plen == p@.len(),
                j <= plen,
                first_colon(p@, 0) == first_colon(p@, j as int),
            decreases plen - j,
        {
            j = j + 1;
        }
        if j == plen {
            proof {
                assert(first_colon(p@, 0) == -1);
                assert(spec_field_of(all[k as int]) is None);
                assert(spec_fields_of(all.take(k + 1)) =~= spec_fields_of(all.take(k as int)));
            }
        } else {
            proof {
                assert(p@[j as int] == ':');
                assert(first_colon(p@, 0) == j);
            }
            let (ka, kb) = trim_in(p.as_str(), 0, j);
            proof {
                assert(p@.subrange(0, j as int) =~= p@.take(j as int));
            }
            let (qa, qb) = strip_quotes_in(p.as_str(), ka, kb);
            let mut key = String::new();
            push_range(&mut key, p.as_str(), qa, qb);
            let (va, vb) = trim_in(p.as_str(), j + 1, plen);
            proof {
                assert(p@.subrange(j + 1, plen as int) =~= p@.skip(j + 1));
            }
            let mut vt = String::new();
            push_range(&mut vt, p.as_str(), va, vb);
            let vchars = vt.as_str().unicode_len();
            let preview: String = if vchars > 50 {
                let head = vt.as_str().substring_char(0, 50);
                let mut pv = head.to_owned();
                pv.append("...");
                pv
            } else {
                vt
            };
            let entry = (key, preview);
            proof {
                assert(spec_field_of(all[k as int]) == Some((entry.0@, entry.1@)));
            }
            let ghost old_out = out@;
            let ghost prefix = spec_fields_of(all.take(k as int));
            match find_field(&out, entry.0.as_str()) {
                Some(idx) => {
                    out[idx] = entry;
                    proof {
                        lemma_pair_views_update(old_out, idx as int, entry);
                        assert(pair_views(out@) =~= upsert_field(
                            prefix,
                            (entry.0@, entry.1@),
                        ));
                        assert(pair_views(out@) =~= spec_fields_of(all.take(k + 1)));
                        assert(out@[idx as int].0@ == old_out[idx as int].0@);
                        assert(forall|a: int, b: int|
                            0 <= a < b < out@.len() ==> out@[a].0@ != out@[b].0@);
                    }
                },
                None => {
                    out.push(entry);
                    proof {
                        lemma_pair_views_push(old_out, entry);
                        lemma_pair_views(old_out);
                        assert(pair_views(out@) =~= upsert_field(
                            prefix,
                            (entry.0@, entry.1@),
                        ));
                        assert(pair_views(out@) =~= spec_fields_of(all.take(k + 1)));
                        assert forall|a: int, b: int|
                            0 <= a < b < out@.len() implies out@[a].0@ != out@[b].0@ by {
                            if b == out@.len() - 1 {
                                assert(out@[b].0@ == entry.0@);
                                assert(!has_field_key(pair_views(old_out), entry.0@));
                                assert(pair_views(old_out)[a].0 == old_out[a].0@);
                            }
                        }
                    }
                },
            }
        }
        k = k + 1;
    }
    proof {
        assert(all.take(np as int) =~= all);
    }
    out
}

// --- Per-tool required fields and write tools --------------------------

/// The statically known required fields of a tool, by name; an unknown
/// name requires nothing.
pub open spec fn spec_required_fields(name: Seq<char>) -> Seq<Seq<char>> {
    if name == "Write"@ {
        seq!["file_path"@, "content"@]
    } else if name == "write_to_file"@ || name == "fsWrite"@ || name == "create_file"@ {
        seq!["path"@, "content"@]
    } else if name == "edit_file"@ {
        seq!["path"@]
    } else if name == "apply_diff"@ {
        seq!["path"@, "diff"@]
    } else if name == "str_replace_editor"@ {
        seq!["path"@, "old_str"@, "new_str"@]
    } else if name == "Bash"@ || name == "execute"@ || name == "run_command"@ {
        seq!["command"@]
    } else {
        Seq::empty()
    }
}

/// The required fields of the named tool; empty when none are known.
pub fn required_fields(tool_name: &str) -> (r: Vec<&'static str>)
    ensures
        string_slice_views(r@) == spec_required_fields(tool_name@),
{
    let mut out: Vec<&'static str> = Vec::new();
    if str_eq(tool_name, "Write") {
        out.push("file_path");
        out.push("content");
    } else if str_eq(tool_name, "write_to_file") || str_eq(tool_name, "fsWrite") || str_eq(
        tool_name,
        "create_file",
    ) {
        out.push("path");
        out.push("content");
    } else if str_eq(tool_name, "edit_file") {
        out.push("path");
    } else if str_eq(tool_name, "apply_diff") {
        out.push("path");
        out.push("diff");
    } else if str_eq(tool_name, "str_replace_editor") {
        out.push("path");
        out.push("old_str");
        out.push("new_str");
    } else if str_eq(tool_name, "Bash") || str_eq(tool_name, "execute") || str_eq(
        tool_name,
        "run_command",
    ) {
        out.push("command");
    }
    proof {
        lemma_string_slice_views(out@);
        assert(string_slice_views(out@) =~= spec_required_fields(tool_name@));
    }
    out
}

proof fn lemma_string_slice_views(ss: Seq<&'static str>)
    ensures
        string_slice_views(ss).len() == ss.len(),
        forall|m: int| 0 <= m < ss.len() ==> string_slice_views(ss)[m] == ss[m]@,
    decreases ss,
{
    if ss.len() > 0 {
        lemma_string_slice_views(ss.drop_last());
        assert forall|m: int| 0 <= m < ss.len() implies string_slice_views(ss)[m] == ss[m]@ by {
            if m < ss.len() - 1 {
                assert(ss.drop_last()[m] == ss[m]);
            }
        }
    }
}

/// The views of a sequence of string slices.
pub open spec fn string_slice_views(ss: Seq<&'static str>) -> Seq<Seq<char>>
    decreases ss,
{
    if ss.len() == 0 {
        Seq::empty()
    } else {
        string_slice_views(ss.drop_last()).push(ss.last()@)
    }
}

/// The write-and-edit tool names whose `content` field gets the extra
/// truncation checks.
pub open spec fn spec_is_write_tool(name: Seq<char>) -> bool {
    name == "Write"@ || name == "write_to_file"@ || name == "fsWrite"@ || name == "create_file"@
        || name == "edit_file"@ || name == "apply_diff"@ || name == "str_replace_editor"@ || name
        == "insert"@
}

/// Whether the named tool writes or edits files.
pub fn is_write_tool(name: &str) -> (r: bool)
    ensures
        r == spec_is_write_tool(name@),
{
    str_eq(name, "Write") || str_eq(name, "write_to_file") || str_eq(name, "fsWrite") || str_eq(
        name,
        "create_file",
    ) || str_eq(name, "edit_file") || str_eq(name, "apply_diff") || str_eq(
        name,
        "str_replace_editor",
    ) || str_eq(name, "insert")
}

// --- Previews of parsed fields -----------------------------------------

/// The one-line display of a parsed value: strings previewed at 50
/// characters, null as a marker, anything else as a presence marker.
pub open spec fn spec_display_of(v: JsonView) -> Seq<char> {
    match v {
        JsonView::String(s) => spec_preview(s),
        JsonView::Null => "<null>"@,
        _ => "<present>"@,
    }
}

/// The name/display pairs of a parsed object's fields, in order.
pub open spec fn spec_parsed_previews(fields: Seq<(Seq<char>, JsonView)>) -> Seq<
    (Seq<char>, Seq<char>),
>
    decreases fields,
{
    if fields.len() == 0 {
        Seq::empty()
    } else {
        spec_parsed_previews(fields.drop_last()).push(
            (fields.last().0, spec_display_of(fields.last().1)),
        )
    }
}

/// A preview string for one parsed value.
fn display_of(v: &JsonValue) -> (r: String)
    ensures
        r@ == spec_display_of(jview(*v)),
{
    match v {
        JsonValue::String(s) => {
            let chars = s.as_str().unicode_len();
            if chars > 50 {
                let head = s.as_str().substring_char(0, 50);
                let mut pv = head.to_owned();
                pv.append("...");
                pv
            } else {
                s.clone()
            }
        },
        JsonValue::Null => {
            let mut m = String::new();
            m.append("<null>");
            m
        },
        _ => {
            proof {
                crate::json::lemma_jview_variants(*v);
                match *v {
                    JsonValue::Null => {},
                    JsonValue::Bool(_) => {},
                    JsonValue::Number(_) => {},
                    JsonValue::String(_) => {},
                    JsonValue::Array(_) => {},
                    JsonValue::Object(_) => {},
                }
            }
            let mut m = String::new();
            m.append("<present>");
            m
        },
    }
}

/// Name/display pairs for every field of a parsed object.
fn parsed_previews(fields: &Vec<(String, JsonValue)>) -> (r: Vec<(String, String)>)
    ensures
        pair_views(r@) == spec_parsed_previews(jview_fields(fields@)),
{
    let ghost vf = jview_fields(fields@);
    proof {
        lemma_jview_fields_len(fields@);
    }
    let n = fields.len();
    let mut out: Vec<(String, String)> = Vec::new();
    let mut i: usize = 0;
    while i < n
        invariant
            n == fields@.len(),
            vf == jview_fields(fields@),
            vf.len() == n,
            forall|m: int| 0 <= m < n ==> vf[m] == (fields@[m].0@, jview(fields@[m].1)),
            i <= n,
            pair_views(out@) == spec_parsed_previews(vf.take(i as int)),
        decreases n - i,
    {
        proof {
            assert(vf.take(i + 1).drop_last() =~= vf.take(i as int));
            assert(vf.take(i + 1).last() == vf[i as int]);
        }
        let display = display_of(&fields[i].1);
        let entry = (fields[i].0.clone(), display);
        let ghost old_out = out@;
        out.push(entry);
        proof {
            lemma_pair_views_push(old_out, entry);
        }
        i = i + 1;
    }
    proof {
        assert(vf.take(n as int) =~= vf);
    }
    out
}

// --- Content-string truncation -----------------------------------------

/// The number of non-overlapping triple-backtick fences at or after `i`.
pub open spec fn fence_count(s: Seq<char>, i: int) -> int
    decreases s.len() - i,
{
    if i < 0 || i + 3 > s.len() {
        0
    } else if s[i] == '`' && s[i + 1] == '`' && s[i + 2] == '`' {
        1 + fence_count(s, i + 3)
    } else {
        fence_count(s, i + 1)
    }
}

/// The write-tool content heuristic: a `content` string that is tiny
/// next to a large raw payload, or holds an unclosed code fence, looks
/// truncated. The result is the diagnostic, if either check fires.
pub open spec fn spec_content_truncation(
    fields: Seq<(Seq<char>, JsonView)>,
    raw_bytes: int,
) -> Option<Seq<char>> {
    match crate::json::jv_get(fields, "content"@) {
        Some(JsonView::String(content)) => if raw_bytes > 1000 && encode_utf8(content).len()
            < 100 {
            Some("content field appears suspiciously short compared to raw input size"@)
        } else if fence_count(content, 0) % 2 == 1 {
            Some("content contains unclosed code fence (```) suggesting truncation"@)
        } else {
            None
        },
        _ => None,
    }
}

fn count_fences(s: &str) -> (r: usize)
    ensures
        r == fence_count(s@, 0),
{
    let n = s.unicode_len();
    if n < 3 {
        return 0;
    }
    let mut i: usize = 0;
    let mut acc: usize = 0;
    while i <= n - 3
        invariant
            3 <= n == s@.len(),
            i <= n,
            acc <= i,
            fence_count(s@, 0) == acc + fence_count(s@, i as int),
        decreases n - i,
    {
        if s.get_char(i) == '`' && s.get_char(i + 1) == '`' && s.get_char(i + 2) == '`' {
            acc = acc + 1;
            i = i + 3;
        } else {
            i = i + 1;
        }
    }
    acc
}

// --- The detector -------------------------------------------------------

/// The mathematical shape of a detector report.
pub struct TruncationReport {
    pub is_truncated: bool,
    pub truncation_type: TruncationType,
    pub parsed_fields: Seq<(Seq<char>, Seq<char>)>,
    pub error_message: Seq<char>,
}

pub open spec fn report_none() -> TruncationReport {
    TruncationReport {
        is_truncated: false,
        truncation_type: TruncationType::NotTruncated,
        parsed_fields: Seq::empty(),
        error_message: Seq::empty(),
    }
}

/// The missing required fields of the named tool, given the parsed
/// object's fields.
pub open spec fn spec_missing_of(
    req: Seq<Seq<char>>,
    fields: Seq<(Seq<char>, JsonView)>,
) -> Seq<Seq<char>>
    decreases req,
{
    if req.len() == 0 {
        Seq::empty()
    } else {
        spec_missing_of(req.drop_last(), fields) + if crate::json::jv_get(
            fields,
            req.last(),
        ) is None {
            seq![req.last()]
        } else {
            Seq::empty()
        }
    }
}

/// The parts joined by a comma and a space.
pub open spec fn join_comma(parts: Seq<Seq<char>>) -> Seq<char>
    decreases parts,
{
    if parts.len() == 0 {
        Seq::empty()
    } else if parts.len() == 1 {
        parts[0]
    } else {
        join_comma(parts.drop_last()) + ", "@ + parts.last()
    }
}

pub open spec fn spec_empty_input_message() -> Seq<char> {
    "Tool input was completely empty - API response may have been truncated"@
}

pub open spec fn spec_invalid_json_message(byte_len: int) -> Seq<char> {
    "Tool input JSON was truncated mid-transmission ("@ + decimal_of(byte_len) + " bytes received)"@
}

pub open spec fn spec_missing_fields_message(name: Seq<char>, missing: Seq<Seq<char>>) -> Seq<
    char,
> {
    "Tool '"@ + name + "' missing required fields: "@ + join_comma(missing)
}

/// What `detect_truncation` reports. Exactly one rule fires, in this
/// order: empty input; unparseable text that looks cut off; missing
/// required fields; a suspicious content string on a write tool; else
/// not truncated.
pub open spec fn spec_detect(
    name: Seq<char>,
    raw: Seq<char>,
    parsed: Option<JsonView>,
) -> TruncationReport {
    if spec_trim(raw).len() == 0 {
        TruncationReport {
            is_truncated: true,
            truncation_type: TruncationType::EmptyInput,
            parsed_fields: Seq::empty(),
            error_message: spec_empty_input_message(),
        }
    } else {
        let parsed_obj = match parsed {
            Some(JsonView::Object(f)) => if f.len() > 0 {
                Some(f)
            } else {
                None
            },
            _ => None,
        };
        if parsed_obj is None {
            if spec_looks_like_truncated_json(raw) {
                TruncationReport {
                    is_truncated: true,
                    truncation_type: TruncationType::InvalidJson,
                    parsed_fields: spec_extract_partial_fields(raw),
                    error_message: spec_invalid_json_message(encode_utf8(raw).len() as int),
                }
            } else {
                report_none()
            }
        } else {
            let f = parsed_obj->0;
            let missing = spec_missing_of(spec_required_fields(name), f);
            if missing.len() > 0 {
                TruncationReport {
                    is_truncated: true,
                    truncation_type: TruncationType::MissingFields,
                    parsed_fields: spec_parsed_previews(f),
                    error_message: spec_missing_fields_message(name, missing),
                }
            } else if spec_is_write_tool(name) {
                match spec_content_truncation(f, encode_utf8(raw).len() as int) {
                    Some(msg) => TruncationReport {
                        is_truncated: true,
                        truncation_type: TruncationType::IncompleteString,
                        parsed_fields: spec_parsed_previews(f),
                        error_message: msg,
                    },
                    None => report_none(),
                }
            } else {
                report_none()
            }
        }
    }
}

pub open spec fn option_jview(p: Option<&JsonValue>) -> Option<JsonView> {
    match p {
        Some(v) => Some(jview(*v)),
        None => None,
    }
}

/// Classifies a tool call's raw argument text as complete or truncated,
/// with a reason, best-effort field previews, and a diagnostic message.
/// `parsed_input` is the caller's best-effort parse of the same text;
/// `tool_use_id` only identifies the call for the caller's records.
pub fn detect_truncation(
    tool_name: &str,
    tool_use_id: &str,
    raw_input: &str,
    parsed_input: Option<&JsonValue>,
) -> (r: TruncationInfo)
    ensures
        ({
            let report = spec_detect(tool_name@, raw_input@, option_jview(parsed_input));
            &&& r.is_truncated == report.is_truncated
            &&& r.truncation_type == report.truncation_type
            &&& pair_views(r.parsed_fields@) == report.parsed_fields
            &&& r.error_message@ == report.error_message
        }),
{
    let n = raw_input.unicode_len();
    let (ta, tb) = trim_range(raw_input, n);
    if ta >= tb {
        let mut msg = String::new();
        msg.append("Tool input was completely empty - API response may have been truncated");
        return TruncationInfo {
            is_truncated: true,
            truncation_type: TruncationType::EmptyInput,
            parsed_fields: Vec::new(),
            error_message: msg,
        };
    }
    let parsed_obj: Option<&Vec<(String, JsonValue)>> = match parsed_input {
        Some(v) => {
            proof {
                crate::json::lemma_jview_variants(*v);
            }
            match v {
                JsonValue::Object(f) => {
                    proof {
                        lemma_jview_fields_len(f@);
                    }
                    if f.len() > 0 {
                        Some(f)
                    } else {
                        None
                    }
                },
                _ => None,
            }
        },
        None => None,
    };
    match parsed_obj {
        None => {
            if looks_like_truncated_json(raw_input) {
                let fields = extract_partial_fields(raw_input);
                let bytes = str_len(raw_input);
                let mut msg = String::new();
                msg.append("Tool input JSON was truncated mid-transmission (");
                push_decimal(&mut msg, bytes as u64);
                msg.append(" bytes received)");
                TruncationInfo {
                    is_truncated: true,
                    truncation_type: TruncationType::InvalidJson,
                    parsed_fields: fields,
                    error_message: msg,
                }
            } else {
                TruncationInfo {
                    is_truncated: false,
                    truncation_type: TruncationType::NotTruncated,
                    parsed_fields: Vec::new(),
                    error_message: String::new(),
                }
            }
        },
        Some(f) => {
            let ghost vf = jview_fields(f@);
            let required = required_fields(tool_name);
            let ghost req = spec_required_fields(tool_name@);
            proof {
                lemma_string_slice_views(required@);
            }
            let nr = required.len();
            let mut missing: Vec<&'static str> = Vec::new();
            let mut mi: usize = 0;
            while mi < nr
                invariant
                    nr == required@.len(),
                    req.len() == nr,
                    string_slice_views(required@) == req,
                    forall|m: int| 0 <= m < nr ==> string_slice_views(required@)[m]
                        == required@[m]@,
                    vf == jview_fields(f@),
                    mi <= nr,
                    string_slice_views(missing@) == spec_missing_of(req.take(mi as int), vf),
                decreases nr - mi,
            {
                proof {
                    assert(req.take(mi + 1).drop_last() =~= req.take(mi as int));
                    assert(req.take(mi + 1).last() == req[mi as int]);
                }
                let field = required[mi];
                if obj_lookup(f, field).is_none() {
                    let ghost old_missing = missing@;
                    missing.push(field);
                    proof {
                        assert(old_missing.push(field).drop_last() =~= old_missing);
                        assert(string_slice_views(missing@) =~= spec_missing_of(
                            req.take(mi + 1),
                            vf,
                        ));
                    }
                } else {
                    proof {
                        assert(string_slice_views(missing@) =~= spec_missing_of(
                            req.take(mi + 1),
                            vf,
                        ));
                    }
                }
                mi = mi + 1;
            }
            proof {
                assert(req.take(nr as int) =~= req);
                lemma_string_slice_views(missing@);
            }
            if missing.len() > 0 {
                let previews = parsed_previews(f);
                let mut msg = String::new();
                msg.append("Tool '");
                msg.append(tool_name);
                msg.append("' missing required fields: ");
                let nm = missing.len();
                let mut k: usize = 0;
                let ghost prefix = msg@;
                let ghost mv = string_slice_views(missing@);
                while k < nm
                    invariant
                        nm == missing@.len(),
                        mv.len() == nm,
                        mv == string_slice_views(missing@),
                        nm > 0,
                        forall|m: int| 0 <= m < nm ==> mv[m] == missing@[m]@,
                        k <= nm,
                        k == 0 ==> msg@ == prefix,
                        k > 0 ==> msg@ == prefix + join_comma(mv.take(k as int)),
                    decreases nm - k,
                {
                    proof {
                        assert(mv.take(k + 1).drop_last() =~= mv.take(k as int));
                        assert(mv.take(k + 1).last() == mv[k as int]);
                    }
                    if k > 0 {
                        msg.append(", ");
                    }
                    msg.append(missing[k]);
                    proof {
                        if k == 0 {
                            assert(mv.take(1)[0] == mv[0]);
                            assert(msg@ =~= prefix + join_comma(mv.take(1)));
                        } else {
                            assert(msg@ =~= prefix + join_comma(mv.take(k + 1)));
                        }
                    }
                    k = k + 1;
                }
                proof {
                    assert(mv.take(nm as int) =~= mv);
                    assert(msg@ =~= spec_missing_fields_message(
                        tool_name@,
                        spec_missing_of(req, vf),
                    ));
                }
                return TruncationInfo {
                    is_truncated: true,
                    truncation_type: TruncationType::MissingFields,
                    parsed_fields: previews,
                    error_message: msg,
                };
            }
            if is_write_tool(tool_name) {
                match obj_lookup(f, "content") {
                    Some(cv) => {
                        proof {
                            crate::json::lemma_jview_variants(*cv);
                        }
                        match cv {
                            JsonValue::String(content) => {
                                let raw_bytes = str_len(raw_input);
                                let content_bytes = str_len(content.as_str());
                                if raw_bytes > 1000 && content_bytes < 100 {
                                    let previews = parsed_previews(f);
                                    let mut msg = String::new();
                                    msg.append(
                                        "content field appears suspiciously short compared to raw input size",
                                    );
                                    return TruncationInfo {
                                        is_truncated: true,
                                        truncation_type: TruncationType::IncompleteString,
                                        parsed_fields: previews,
                                        error_message: msg,
                                    };
                                }
                                let fences = count_fences(content.as_str());
                                if fences % 2 == 1 {
                                    let previews = parsed_previews(f);
                                    let mut msg = String::new();
                                    msg.append(
                                        "content contains unclosed code fence (```) suggesting truncation",
                                    );
                                    return TruncationInfo {
                                        is_truncated: true,
                                        truncation_type: TruncationType::IncompleteString,
                                        parsed_fields: previews,
                                        error_message: msg,
                                    };
                                }
                            },
                            _ => {},
                        }
                    },
                    None => {},
                }
            }
            TruncationInfo {
                is_truncated: false,
                truncation_type: TruncationType::NotTruncated,
                parsed_fields: Vec::new(),
                error_message: String::new(),
            }
        },
    }
}

/// The first field of `fields` named `key`, if any, by reference.
fn obj_lookup<'a>(fields: &'a Vec<(String, JsonValue)>, key: &str) -> (r: Option<&'a JsonValue>)
    ensures
        match r {
            Some(x) => crate::json::jv_get(jview_fields(fields@), key@) == Some(jview(*x)),
            None => crate::json::jv_get(jview_fields(fields@), key@) is None,
        },
{
    let n = fields.len();
    let ghost vf = jview_fields(fields@);
    proof {
        lemma_jview_fields_len(fields@);
        assert(vf.skip(0) =~= vf);
    }
    let mut i: usize = 0;
    while i < n
        invariant
            n == fields@.len(),
            vf == jview_fields(fields@),
            vf.len() == n,
            forall|m: int| 0 <= m < n ==> vf[m] == (fields@[m].0@, jview(fields@[m].1)),
            i <= n,
            crate::json::jv_get(vf, key@) == crate::json::jv_get(vf.skip(i as int), key@),
        decreases n - i,
    {
        proof {
            assert(vf.skip(i as int)[0] == vf[i as int]);
            assert(vf.skip(i as int).drop_first() =~= vf.skip(i + 1));
        }
        if str_eq(fields[i].0.as_str(), key) {
            return Some(&fields[i].1);
        }
        i = i + 1;
    }
    proof {
        assert(vf.skip(n as int) =~= Seq::<(Seq<char>, JsonView)>::empty());
    }
    None
}

} // verus!
