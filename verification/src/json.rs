//! A self-contained model of JSON values.
//!
//! Tool schemas are arbitrary structured JSON. The shaper reads and
//! rebuilds them, so the library carries its own value type rather than an
//! opaque foreign one: numbers keep their literal text (never reparsed or
//! rounded), and objects keep their fields in order. The mathematical
//! mirror [`JsonView`] states every contract; [`jview`] connects the two.

use vstd::prelude::*;

verus! {

use vstd::string::StringSliceAdditionalSpecFns;
use vstd::utf8::encode_utf8;

/// A JSON value as held and produced by the shaper.
#[derive(Debug)]
pub enum JsonValue {
    Null,
    Bool(bool),
    /// A number, kept as its literal text.
    Number(String),
    String(String),
    Array(Vec<JsonValue>),
    /// An object as an ordered field list.
    Object(Vec<(String, JsonValue)>),
}

/// The mathematical shape of a JSON value: strings are character
/// sequences, containers are sequences.
pub enum JsonView {
    Null,
    Bool(bool),
    Number(Seq<char>),
    String(Seq<char>),
    Array(Seq<JsonView>),
    Object(Seq<(Seq<char>, JsonView)>),
}

/// The mathematical shape of `v`.
pub open spec fn jview(v: JsonValue) -> JsonView
    decreases v,
{
    match v {
        JsonValue::Null => JsonView::Null,
        JsonValue::Bool(b) => JsonView::Bool(b),
        JsonValue::Number(s) => JsonView::Number(s@),
        JsonValue::String(s) => JsonView::String(s@),
        JsonValue::Array(elems) => JsonView::Array(jview_seq(elems@)),
        JsonValue::Object(fields) => JsonView::Object(jview_fields(fields@)),
    }
}

pub open spec fn jview_seq(s: Seq<JsonValue>) -> Seq<JsonView>
    decreases s,
{
    if s.len() == 0 {
        Seq::empty()
    } else {
        jview_seq(s.drop_last()).push(jview(s.last()))
    }
}

pub open spec fn jview_fields(s: Seq<(String, JsonValue)>) -> Seq<(Seq<char>, JsonView)>
    decreases s,
{
    if s.len() == 0 {
        Seq::empty()
    } else {
        jview_fields(s.drop_last()).push((s.last().0@, jview(s.last().1)))
    }
}

/// The views of a value sequence, pointwise.
pub proof fn lemma_jview_seq_len(s: Seq<JsonValue>)
    ensures
        jview_seq(s).len() == s.len(),
        forall|i: int| 0 <= i < s.len() ==> jview_seq(s)[i] == jview(s[i]),
    decreases s,
{
    if s.len() > 0 {
        lemma_jview_seq_len(s.drop_last());
        assert forall|i: int| 0 <= i < s.len() implies jview_seq(s)[i] == jview(s[i]) by {
            if i < s.len() - 1 {
                assert(s.drop_last()[i] == s[i]);
            }
        }
    }
}

pub proof fn lemma_jview_fields_len(s: Seq<(String, JsonValue)>)
    ensures
        jview_fields(s).len() == s.len(),
        forall|i: int|
            0 <= i < s.len() ==> jview_fields(s)[i] == (s[i].0@, jview(s[i].1)),
    decreases s,
{
    if s.len() > 0 {
        lemma_jview_fields_len(s.drop_last());
        assert forall|i: int|
            0 <= i < s.len() implies jview_fields(s)[i] == (s[i].0@, jview(s[i].1)) by {
            if i < s.len() - 1 {
                assert(s.drop_last()[i] == s[i]);
            }
        }
    }
}

pub proof fn lemma_jview_fields_push(s: Seq<(String, JsonValue)>, e: (String, JsonValue))
    ensures
        jview_fields(s.push(e)) == jview_fields(s).push((e.0@, jview(e.1))),
{
    assert(s.push(e).drop_last() =~= s);
    assert(s.push(e).last() == e);
}

/// A value and its mathematical shape always have the same top
/// constructor.
pub proof fn lemma_jview_variants(v: JsonValue)
    ensures
        jview(v) is Object <==> v is Object,
        jview(v) is Array <==> v is Array,
{
    match v {
        JsonValue::Null => {},
        JsonValue::Bool(_) => {},
        JsonValue::Number(_) => {},
        JsonValue::String(_) => {},
        JsonValue::Array(_) => {},
        JsonValue::Object(_) => {},
    }
}

/// The first field named `key`, if any.
pub open spec fn jv_get(fields: Seq<(Seq<char>, JsonView)>, key: Seq<char>) -> Option<JsonView>
    decreases fields,
{
    if fields.len() == 0 {
        None
    } else if fields[0].0 == key {
        Some(fields[0].1)
    } else {
        jv_get(fields.drop_first(), key)
    }
}

// --- Canonical serialized size ---------------------------------------
//
// The shaper's byte budget is measured against the canonical minified
// rendering: objects as `{"k":v,...}`, arrays as `[v,...]`, numbers as
// their literal text, and strings quoted with the usual escapes (`\"`,
// `\\`, `\b`, `\t`, `\n`, `\f`, `\r`, and `\u00XX` for the remaining
// control characters).

/// How many bytes one byte of string content occupies once escaped.
pub open spec fn escaped_byte_len(b: u8) -> int {
    if b == 0x22 || b == 0x5c {
        2
    } else if b < 0x20 {
        if b == 0x08 || b == 0x09 || b == 0x0a || b == 0x0c || b == 0x0d {
            2
        } else {
            6
        }
    } else {
        1
    }
}

pub open spec fn escaped_len(bs: Seq<u8>) -> int
    decreases bs,
{
    if bs.len() == 0 {
        0
    } else {
        escaped_len(bs.drop_last()) + escaped_byte_len(bs.last())
    }
}

/// The serialized size of a string: quotes plus escaped content.
pub open spec fn quoted_len(s: Seq<char>) -> int {
    2 + escaped_len(encode_utf8(s))
}

/// The canonical serialized size of a value, in bytes.
pub open spec fn jlen(v: JsonView) -> int
    decreases v,
{
    match v {
        JsonView::Null => 4,
        JsonView::Bool(b) => if b {
            4
        } else {
            5
        },
        JsonView::Number(s) => encode_utf8(s).len() as int,
        JsonView::String(s) => quoted_len(s),
        JsonView::Array(elems) => 2 + jlen_items(elems),
        JsonView::Object(fields) => 2 + jlen_fields(fields),
    }
}

/// The serialized size of an array's contents, commas included.
pub open spec fn jlen_items(elems: Seq<JsonView>) -> int
    decreases elems,
{
    if elems.len() == 0 {
        0
    } else if elems.len() == 1 {
        jlen(elems[0])
    } else {
        jlen_items(elems.drop_last()) + 1 + jlen(elems.last())
    }
}

/// The serialized size of an object's contents, commas included.
pub open spec fn jlen_fields(fields: Seq<(Seq<char>, JsonView)>) -> int
    decreases fields,
{
    if fields.len() == 0 {
        0
    } else if fields.len() == 1 {
        quoted_len(fields[0].0) + 1 + jlen(fields[0].1)
    } else {
        jlen_fields(fields.drop_last()) + 1 + quoted_len(fields.last().0) + 1 + jlen(
            fields.last().1,
        )
    }
}

pub proof fn lemma_escaped_len_nonneg(bs: Seq<u8>)
    ensures
        escaped_len(bs) >= bs.len(),
    decreases bs,
{
    if bs.len() > 0 {
        lemma_escaped_len_nonneg(bs.drop_last());
    }
}

pub proof fn lemma_jlen_nonneg(v: JsonView)
    ensures
        jlen(v) >= 0,
    decreases v,
{
    match v {
        JsonView::String(s) => {
            lemma_escaped_len_nonneg(encode_utf8(s));
        },
        JsonView::Array(elems) => {
            lemma_jlen_items_nonneg(elems);
        },
        JsonView::Object(fields) => {
            lemma_jlen_fields_nonneg(fields);
        },
        _ => {},
    }
}

pub proof fn lemma_jlen_items_nonneg(elems: Seq<JsonView>)
    ensures
        jlen_items(elems) >= 0,
    decreases elems,
{
    if elems.len() == 1 {
        lemma_jlen_nonneg(elems[0]);
    } else if elems.len() > 1 {
        lemma_jlen_items_nonneg(elems.drop_last());
        lemma_jlen_nonneg(elems.last());
        lemma_escaped_len_nonneg(Seq::<u8>::empty());
    }
}

pub proof fn lemma_jlen_fields_nonneg(fields: Seq<(Seq<char>, JsonView)>)
    ensures
        jlen_fields(fields) >= 0,
    decreases fields,
{
    if fields.len() == 1 {
        lemma_jlen_nonneg(fields[0].1);
        lemma_escaped_len_nonneg(encode_utf8(fields[0].0));
    } else if fields.len() > 1 {
        lemma_jlen_fields_nonneg(fields.drop_last());
        lemma_jlen_nonneg(fields.last().1);
        lemma_escaped_len_nonneg(encode_utf8(fields.last().0));
    }
}

// --- Clamped size computation -----------------------------------------
//
// Sizes are compared against a small fixed budget, so the computation
// clamps at `u64::MAX`: a value that saturates is simply very far over
// any budget. The specification records the clamp exactly.

/// `n` clamped into `u64`.
pub open spec fn clamp64(n: int) -> u64 {
    if n > u64::MAX {
        u64::MAX
    } else if n < 0 {
        0
    } else {
        n as u64
    }
}

/// Saturating addition.
pub fn sat_add64(a: u64, b: u64) -> (r: u64)
    ensures
        r == clamp64(a + b),
{
    if a > u64::MAX - b {
        u64::MAX
    } else {
        a + b
    }
}

/// Clamping commutes with addition of clamped non-negative terms.
pub proof fn lemma_clamp_add(a: int, b: int)
    requires
        a >= 0,
        b >= 0,
    ensures
        clamp64(clamp64(a) + clamp64(b)) == clamp64(a + b),
{
}

/// Bytes that serialize into themselves: printable ASCII except the quote
/// and the backslash.
pub open spec fn plain_byte(b: u8) -> bool {
    0x20 <= b && b != 0x22 && b != 0x5c
}

/// A string of plain bytes escapes to itself, so its escaped size is its
/// byte length.
pub proof fn lemma_escaped_plain(bs: Seq<u8>)
    requires
        forall|i: int| 0 <= i < bs.len() ==> plain_byte(bs[i]),
    ensures
        escaped_len(bs) == bs.len(),
    decreases bs,
{
    if bs.len() > 0 {
        assert(forall|i: int| 0 <= i < bs.drop_last().len() ==> bs.drop_last()[i] == bs[i]);
        lemma_escaped_plain(bs.drop_last());
        assert(plain_byte(bs.last()));
    }
}

/// A sequence of plain ASCII characters, whose UTF-8 bytes are the
/// characters themselves.
pub proof fn lemma_quoted_ascii(s: Seq<char>)
    requires
        forall|i: int| 0 <= i < s.len() ==> ' ' <= s[i] <= '~' && s[i] != '"' && s[i] != '\\',
    ensures
        quoted_len(s) == 2 + s.len(),
{
    assert(vstd::utf8::is_ascii_chars(s)) by {
        assert(forall|i: int| 0 <= i < s.len() ==> (s[i] as nat) < 128);
    }
    vstd::utf8::is_ascii_chars_encode_utf8(s);
    let bs = encode_utf8(s);
    assert(forall|i: int| 0 <= i < bs.len() ==> bs[i] == s[i] as u8);
    assert(forall|i: int| 0 <= i < bs.len() ==> plain_byte(bs[i]));
    lemma_escaped_plain(bs);
}

fn escaped_byte_len64(b: u8) -> (r: u64)
    ensures
        r == escaped_byte_len(b),
{
    if b == 0x22 || b == 0x5c {
        2
    } else if b < 0x20 {
        if b == 0x08 || b == 0x09 || b == 0x0a || b == 0x0c || b == 0x0d {
            2
        } else {
            6
        }
    } else {
        1
    }
}

/// The escaped size of `s`'s bytes, clamped.
pub fn escaped_len64(s: &str) -> (r: u64)
    ensures
        r == clamp64(escaped_len(s.spec_bytes())),
{
    let bs = s.as_bytes();
    let n = bs.len();
    let mut acc: u64 = 0;
    let mut i: usize = 0;
    while i < n
        invariant
            n == bs@.len(),
            bs@ == s.spec_bytes(),
            i <= n,
            acc == clamp64(escaped_len(bs@.take(i as int))),
        decreases n - i,
    {
        proof {
            assert(bs@.take(i + 1).drop_last() =~= bs@.take(i as int));
            assert(bs@.take(i + 1).last() == bs@[i as int]);
            lemma_escaped_len_nonneg(bs@.take(i as int));
            lemma_clamp_add(escaped_len(bs@.take(i as int)), escaped_byte_len(bs@[i as int]));
        }
        acc = sat_add64(acc, escaped_byte_len64(bs[i]));
        i = i + 1;
    }
    proof {
        assert(bs@.take(n as int) =~= bs@);
    }
    acc
}

/// The canonical serialized size of `v`, clamped.
#[verifier::loop_isolation(false)]
pub fn json_len64(v: &JsonValue) -> (r: u64)
    ensures
        r == clamp64(jlen(jview(*v))),
    decreases *v,
{
    match v {
        JsonValue::Null => 4,
        JsonValue::Bool(b) => if *b {
            4
        } else {
            5
        },
        JsonValue::Number(s) => {
            let len = crate::text::str_len(s.as_str());
            len as u64
        },
        JsonValue::String(s) => {
            proof {
                lemma_escaped_len_nonneg(encode_utf8(s@));
                lemma_clamp_add(2, escaped_len(encode_utf8(s@)));
            }
            sat_add64(2, escaped_len64(s.as_str()))
        },
        JsonValue::Array(elems) => {
            let n = elems.len();
            let mut acc: u64 = 0;
            let mut i: usize = 0;
            proof {
                lemma_jview_seq_len(elems@);
            }
            while i < n
                invariant
                    n == elems@.len(),
                    jview_seq(elems@).len() == n,
                    forall|m: int| 0 <= m < n ==> jview_seq(elems@)[m] == jview(elems@[m]),
                    i <= n,
                    acc == clamp64(jlen_items(jview_seq(elems@).take(i as int))),
                decreases n - i,
            {
                let ghost s = jview_seq(elems@);
                proof {
                    assert(s.take(i + 1).drop_last() =~= s.take(i as int));
                    assert(s.take(i + 1).last() == s[i as int]);
                    lemma_jlen_items_nonneg(s.take(i as int));
                    lemma_jlen_nonneg(s[i as int]);
                }
                proof {
                    assert(decreases_to!(*v => (*v)->Array_0));
                    assert((*v)->Array_0 == *elems);
                    assert(decreases_to!(*elems => elems@));
                    assert(decreases_to!(elems@ => elems@[i as int]));
                }
                let item = json_len64(&elems[i]);
                if i == 0 {
                    proof {
                        lemma_clamp_add(0, jlen(s[0]));
                    }
                    acc = item;
                } else {
                    proof {
                        lemma_clamp_add(jlen_items(s.take(i as int)), 1 + jlen(s[i as int]));
                        lemma_clamp_add(1, jlen(s[i as int]));
                        lemma_clamp_add(jlen_items(s.take(i as int)) + 1, jlen(s[i as int]));
                        lemma_clamp_add(jlen_items(s.take(i as int)), 1);
                    }
                    acc = sat_add64(sat_add64(acc, 1), item);
                }
                i = i + 1;
            }
            proof {
                assert(jview_seq(elems@).take(n as int) =~= jview_seq(elems@));
                lemma_jlen_items_nonneg(jview_seq(elems@));
                lemma_clamp_add(2, jlen_items(jview_seq(elems@)));
            }
            sat_add64(2, acc)
        },
        JsonValue::Object(fields) => {
            let n = fields.len();
            let mut acc: u64 = 0;
            let mut i: usize = 0;
            proof {
                lemma_jview_fields_len(fields@);
            }
            while i < n
                invariant
                    n == fields@.len(),
                    jview_fields(fields@).len() == n,
                    forall|m: int|
                        0 <= m < n ==> jview_fields(fields@)[m] == (
                            fields@[m].0@,
                            jview(fields@[m].1),
                        ),
                    i <= n,
                    acc == clamp64(jlen_fields(jview_fields(fields@).take(i as int))),
                decreases n - i,
            {
                let ghost s = jview_fields(fields@);
                proof {
                    assert(s.take(i + 1).drop_last() =~= s.take(i as int));
                    assert(s.take(i + 1).last() == s[i as int]);
                    lemma_jlen_fields_nonneg(s.take(i as int));
                    lemma_jlen_nonneg(s[i as int].1);
                    lemma_escaped_len_nonneg(encode_utf8(s[i as int].0));
                }
                let key_len = sat_add64(2, escaped_len64(fields[i].0.as_str()));
                proof {
                    assert(decreases_to!(*v => (*v)->Object_0));
                    assert((*v)->Object_0 == *fields);
                    assert(decreases_to!(*fields => fields@));
                    assert(decreases_to!(fields@ => fields@[i as int]));
                    assert(decreases_to!(fields@[i as int] => fields@[i as int].1));
                }
                let val_len = json_len64(&fields[i].1);
                let entry = sat_add64(sat_add64(key_len, 1), val_len);
                proof {
                    let ql = quoted_len(s[i as int].0);
                    let vl = jlen(s[i as int].1);
                    lemma_clamp_add(2, escaped_len(encode_utf8(s[i as int].0)));
                    lemma_clamp_add(ql, 1);
                    lemma_clamp_add(ql + 1, vl);
                }
                if i == 0 {
                    acc = entry;
                } else {
                    proof {
                        let ql = quoted_len(s[i as int].0);
                        let vl = jlen(s[i as int].1);
                        let prev = jlen_fields(s.take(i as int));
                        lemma_clamp_add(prev, 1);
                        lemma_clamp_add(prev + 1, ql + 1 + vl);
                    }
                    acc = sat_add64(sat_add64(acc, 1), entry);
                }
                i = i + 1;
            }
            proof {
                assert(jview_fields(fields@).take(n as int) =~= jview_fields(fields@));
                lemma_jlen_fields_nonneg(jview_fields(fields@));
                lemma_clamp_add(2, jlen_fields(jview_fields(fields@)));
            }
            sat_add64(2, acc)
        },
    }
}

/// String equality by content.
pub fn str_eq(a: &str, b: &str) -> (r: bool)
    ensures
        r == (a@ == b@),
{
    let ab = a.as_bytes();
    let bb = b.as_bytes();
    let n = ab.len();
    if n != bb.len() {
        proof {
            if a@ == b@ {
                assert(a.spec_bytes() == b.spec_bytes());
            }
        }
        return false;
    }
    let mut i: usize = 0;
    while i < n
        invariant
            n == ab@.len() == bb@.len(),
            ab@ == a.spec_bytes(),
            bb@ == b.spec_bytes(),
            i <= n,
            forall|m: int| 0 <= m < i ==> ab@[m] == bb@[m],
        decreases n - i,
    {
        if ab[i] != bb[i] {
            proof {
                if a@ == b@ {
                    assert(a.spec_bytes() == b.spec_bytes());
                }
            }
            return false;
        }
        i = i + 1;
    }
    proof {
        assert(a.spec_bytes() =~= b.spec_bytes());
        vstd::utf8::encode_utf8_decode_utf8(a@);
        vstd::utf8::encode_utf8_decode_utf8(b@);
    }
    true
}

/// A deep copy whose mathematical shape is unchanged.
#[verifier::loop_isolation(false)]
pub fn clone_json(v: &JsonValue) -> (r: JsonValue)
    ensures
        jview(r) == jview(*v),
    decreases *v,
{
    match v {
        JsonValue::Null => JsonValue::Null,
        JsonValue::Bool(b) => JsonValue::Bool(*b),
        JsonValue::Number(s) => JsonValue::Number(s.clone()),
        JsonValue::String(s) => JsonValue::String(s.clone()),
        JsonValue::Array(elems) => {
            let n = elems.len();
            let mut out: Vec<JsonValue> = Vec::new();
            let mut i: usize = 0;
            proof {
                lemma_jview_seq_len(elems@);
            }
            while i < n
                invariant
                    n == elems@.len(),
                    jview_seq(elems@).len() == n,
                    forall|m: int| 0 <= m < n ==> jview_seq(elems@)[m] == jview(elems@[m]),
                    i <= n,
                    jview_seq(out@) == jview_seq(elems@).take(i as int),
                decreases n - i,
            {
                proof {
                    assert(decreases_to!(*v => (*v)->Array_0));
                    assert((*v)->Array_0 == *elems);
                    assert(decreases_to!(*elems => elems@));
                    assert(decreases_to!(elems@ => elems@[i as int]));
                }
                let c = clone_json(&elems[i]);
                proof {
                    let s = jview_seq(elems@);
                    assert(s.take(i + 1).drop_last() =~= s.take(i as int));
                    assert(s.take(i + 1).last() == s[i as int]);
                    assert(out@.push(c).drop_last() =~= out@);
                }
                out.push(c);
                proof {
                    assert(jview_seq(out@) =~= jview_seq(elems@).take(i + 1));
                }
                i = i + 1;
            }
            proof {
                assert(jview_seq(elems@).take(n as int) =~= jview_seq(elems@));
            }
            JsonValue::Array(out)
        },
        JsonValue::Object(fields) => {
            let n = fields.len();
            let mut out: Vec<(String, JsonValue)> = Vec::new();
            let mut i: usize = 0;
            proof {
                lemma_jview_fields_len(fields@);
            }
            while i < n
                invariant
                    n == fields@.len(),
                    jview_fields(fields@).len() == n,
                    forall|m: int|
                        0 <= m < n ==> jview_fields(fields@)[m] == (
                            fields@[m].0@,
                            jview(fields@[m].1),
                        ),
                    i <= n,
                    jview_fields(out@) == jview_fields(fields@).take(i as int),
                decreases n - i,
            {
                proof {
                    assert(decreases_to!(*v => (*v)->Object_0));
                    assert((*v)->Object_0 == *fields);
                    assert(decreases_to!(*fields => fields@));
                    assert(decreases_to!(fields@ => fields@[i as int]));
                    assert(decreases_to!(fields@[i as int] => fields@[i as int].1));
                }
                let key = fields[i].0.clone();
                let val = clone_json(&fields[i].1);
                proof {
                    let s = jview_fields(fields@);
                    assert(s.take(i + 1).drop_last() =~= s.take(i as int));
                    assert(s.take(i + 1).last() == s[i as int]);
                    assert(out@.push((key, val)).drop_last() =~= out@);
                }
                out.push((key, val));
                proof {
                    assert(jview_fields(out@) =~= jview_fields(fields@).take(i + 1));
                }
                i = i + 1;
            }
            proof {
                assert(jview_fields(fields@).take(n as int) =~= jview_fields(fields@));
            }
            JsonValue::Object(out)
        },
    }
}

} // verus!
