//! Adaptive tool-payload shaping.
//!
//! The upstream rejects oversized tool-definition payloads, so before a
//! request goes out the tool list is shrunk in two steps: schemas are
//! stripped to their structural keys, and, if that is not enough,
//! descriptions are truncated proportionally. A separate, per-tool
//! transform relocates very long descriptions into an auxiliary
//! documentation block.

use vstd::prelude::*;

verus! {

use vstd::string::StringSliceAdditionalSpecFns;
use vstd::string::StrSliceExecFns;
use vstd::utf8::encode_utf8;

use crate::json::{
    clamp64,
    clone_json,
    escaped_len,
    jlen,
    json_len64,
    jv_get,
    jview,
    jview_fields,
    jview_seq,
    lemma_jview_fields_len,
    quoted_len,
    sat_add64,
    str_eq,
    JsonValue,
    JsonView,
};

/// A tool definition as offered to the upstream model: a name, a
/// description, and an arbitrary JSON argument schema.
#[derive(Debug)]
pub struct Tool {
    pub name: String,
    pub description: String,
    pub input_schema: JsonValue,
}

/// The mathematical shape of a tool.
pub struct ToolView {
    pub name: Seq<char>,
    pub description: Seq<char>,
    pub input_schema: JsonView,
}

pub open spec fn tview(t: Tool) -> ToolView {
    ToolView { name: t.name@, description: t.description@, input_schema: jview(t.input_schema) }
}

pub open spec fn tview_seq(ts: Seq<Tool>) -> Seq<ToolView> {
    ts.map(|i: int, t: Tool| tview(t))
}

// --- Canonical serialized size of a tool list --------------------------
//
// A tool serializes as `{"name":N,"description":D,"input_schema":{"json":S}}`
// and a tool list as the array of those objects, minified.

/// The canonical serialized size of one tool, in bytes.
pub open spec fn tool_len(t: ToolView) -> int {
    2 + quoted_len("name"@) + 1 + quoted_len(t.name) + 1 + quoted_len("description"@) + 1
        + quoted_len(t.description) + 1 + quoted_len("input_schema"@) + 1 + 2 + quoted_len(
        "json"@,
    ) + 1 + jlen(t.input_schema)
}

/// The serialized size of the array contents, commas included.
pub open spec fn tools_items_len(ts: Seq<ToolView>) -> int
    decreases ts,
{
    if ts.len() == 0 {
        0
    } else if ts.len() == 1 {
        tool_len(ts[0])
    } else {
        tools_items_len(ts.drop_last()) + 1 + tool_len(ts.last())
    }
}

/// The canonical serialized size of the whole tool list, in bytes.
pub open spec fn tools_size(ts: Seq<ToolView>) -> int {
    2 + tools_items_len(ts)
}

pub proof fn lemma_tool_len_nonneg(t: ToolView)
    ensures
        tool_len(t) >= 0,
{
    crate::json::lemma_escaped_len_nonneg(encode_utf8("name"@));
    crate::json::lemma_escaped_len_nonneg(encode_utf8("description"@));
    crate::json::lemma_escaped_len_nonneg(encode_utf8("input_schema"@));
    crate::json::lemma_escaped_len_nonneg(encode_utf8("json"@));
    crate::json::lemma_escaped_len_nonneg(encode_utf8(t.name));
    crate::json::lemma_escaped_len_nonneg(encode_utf8(t.description));
    crate::json::lemma_jlen_nonneg(t.input_schema);
}

pub proof fn lemma_tools_items_len_nonneg(ts: Seq<ToolView>)
    ensures
        tools_items_len(ts) >= 0,
    decreases ts,
{
    if ts.len() == 1 {
        lemma_tool_len_nonneg(ts[0]);
    } else if ts.len() > 1 {
        lemma_tools_items_len_nonneg(ts.drop_last());
        lemma_tool_len_nonneg(ts.last());
    }
}

/// The escaped size of a string slice's bytes plus its quotes, clamped.
fn quoted_len64(s: &str) -> (r: u64)
    ensures
        r == clamp64(quoted_len(s@)),
{
    proof {
        crate::json::lemma_escaped_len_nonneg(encode_utf8(s@));
        crate::json::lemma_clamp_add(2, escaped_len(encode_utf8(s@)));
    }
    sat_add64(2, crate::json::escaped_len64(s))
}

/// The four fixed keys of a serialized tool contribute 49 bytes beyond
/// the name, the description and the schema.
pub proof fn lemma_tool_len_expand(t: ToolView)
    ensures
        tool_len(t) == 49 + quoted_len(t.name) + quoted_len(t.description) + jlen(t.input_schema),
{
    reveal_strlit("name");
    reveal_strlit("description");
    reveal_strlit("input_schema");
    reveal_strlit("json");
    crate::json::lemma_quoted_ascii("name"@);
    crate::json::lemma_quoted_ascii("description"@);
    crate::json::lemma_quoted_ascii("input_schema"@);
    crate::json::lemma_quoted_ascii("json"@);
}

/// The canonical serialized size of one tool, clamped.
fn tool_len64(t: &Tool) -> (r: u64)
    ensures
        r == clamp64(tool_len(tview(*t))),
{
    let ghost tv = tview(*t);
    proof {
        lemma_tool_len_expand(tv);
        crate::json::lemma_escaped_len_nonneg(encode_utf8(tv.name));
        crate::json::lemma_escaped_len_nonneg(encode_utf8(tv.description));
        crate::json::lemma_jlen_nonneg(tv.input_schema);
        crate::json::lemma_clamp_add(49, quoted_len(tv.name));
        crate::json::lemma_clamp_add(49 + quoted_len(tv.name), quoted_len(tv.description));
        crate::json::lemma_clamp_add(
            49 + quoted_len(tv.name) + quoted_len(tv.description),
            jlen(tv.input_schema),
        );
    }
    let mut acc: u64 = sat_add64(49, quoted_len64(t.name.as_str()));
    acc = sat_add64(acc, quoted_len64(t.description.as_str()));
    acc = sat_add64(acc, json_len64(&t.input_schema));
    acc
}

/// The canonical serialized size of the whole list, clamped.
pub fn calculate_tools_size(tools: &Vec<Tool>) -> (r: u64)
    ensures
        r == clamp64(tools_size(tview_seq(tools@))),
{
    let n = tools.len();
    let ghost ts = tview_seq(tools@);
    proof {
        assert(ts.len() == n);
    }
    let mut acc: u64 = 0;
    let mut i: usize = 0;
    while i < n
        invariant
            n == tools@.len(),
            ts == tview_seq(tools@),
            ts.len() == n,
            i <= n,
            acc == clamp64(tools_items_len(ts.take(i as int))),
        decreases n - i,
    {
        proof {
            assert(ts.take(i + 1).drop_last() =~= ts.take(i as int));
            assert(ts.take(i + 1).last() == ts[i as int]);
            assert(ts[i as int] == tview(tools@[i as int]));
            lemma_tools_items_len_nonneg(ts.take(i as int));
            lemma_tool_len_nonneg(ts[i as int]);
        }
        let item = tool_len64(&tools[i]);
        if i == 0 {
            acc = item;
        } else {
            proof {
                let prev = tools_items_len(ts.take(i as int));
                crate::json::lemma_clamp_add(prev, 1);
                crate::json::lemma_clamp_add(prev + 1, tool_len(ts[i as int]));
            }
            acc = sat_add64(sat_add64(acc, 1), item);
        }
        i = i + 1;
    }
    proof {
        assert(ts.take(n as int) =~= ts);
        lemma_tools_items_len_nonneg(ts);
        crate::json::lemma_clamp_add(2, tools_items_len(ts));
    }
    sat_add64(2, acc)
}

// --- Schema simplification --------------------------------------------
//
// Step A of the shaper: a schema object keeps only the keys `type`,
// `enum` and `required` (copied verbatim), a recursively simplified
// `properties` map, recursively simplified `items` and
// `additionalProperties`, and element-wise simplified `anyOf` / `oneOf` /
// `allOf` arrays, in that canonical order. Everything else is dropped.
// Non-objects pass through unchanged.

/// The singleton field list copying `key` verbatim, if present.
pub open spec fn copy_field(
    fields: Seq<(Seq<char>, JsonView)>,
    key: Seq<char>,
) -> Seq<(Seq<char>, JsonView)> {
    match jv_get(fields, key) {
        Some(x) => seq![(key, x)],
        None => Seq::empty(),
    }
}

/// A field value reached through `jv_get` lies strictly below the field
/// list, and so do the contents of an object or array stored there.
pub proof fn lemma_jv_get_decreases(fields: Seq<(Seq<char>, JsonView)>, key: Seq<char>)
    ensures
        jv_get(fields, key) is Some ==> decreases_to!(fields => jv_get(fields, key)->0),
        jv_get(fields, key) is Some && jv_get(fields, key)->0 is Object ==> decreases_to!(
            fields => jv_get(fields, key)->0->Object_0),
        jv_get(fields, key) is Some && jv_get(fields, key)->0 is Array ==> decreases_to!(
            fields => jv_get(fields, key)->0->Array_0),
    decreases fields,
{
    if fields.len() == 0 {
    } else if fields[0].0 == key {
        let x = fields[0].1;
        assert(decreases_to!(fields => fields[0]));
        assert(decreases_to!(fields[0] => fields[0].1));
        if x is Object {
            assert(decreases_to!(x => x->Object_0));
        }
        if x is Array {
            assert(decreases_to!(x => x->Array_0));
        }
    } else {
        lemma_jv_get_decreases(fields.drop_first(), key);
        assert(decreases_to!(fields => fields.drop_first()));
    }
}

/// The simplified field list of a schema object.
pub open spec fn simplify_obj(fields: Seq<(Seq<char>, JsonView)>) -> Seq<(Seq<char>, JsonView)>
    decreases fields,
{
    proof {
        lemma_jv_get_decreases(fields, "properties"@);
        lemma_jv_get_decreases(fields, "items"@);
        lemma_jv_get_decreases(fields, "additionalProperties"@);
        lemma_jv_get_decreases(fields, "anyOf"@);
        lemma_jv_get_decreases(fields, "oneOf"@);
        lemma_jv_get_decreases(fields, "allOf"@);
    }
    copy_field(fields, "type"@) + copy_field(fields, "enum"@) + copy_field(fields, "required"@)
        + (match jv_get(fields, "properties"@) {
        Some(JsonView::Object(pf)) => seq![("properties"@, JsonView::Object(simplify_entries(pf)))],
        _ => Seq::empty(),
    }) + (match jv_get(fields, "items"@) {
        Some(x) => seq![("items"@, spec_simplify(x))],
        None => Seq::empty(),
    }) + (match jv_get(fields, "additionalProperties"@) {
        Some(x) => seq![("additionalProperties"@, spec_simplify(x))],
        None => Seq::empty(),
    }) + (match jv_get(fields, "anyOf"@) {
        Some(JsonView::Array(a)) => seq![("anyOf"@, JsonView::Array(simplify_each(a)))],
        _ => Seq::empty(),
    }) + (match jv_get(fields, "oneOf"@) {
        Some(JsonView::Array(a)) => seq![("oneOf"@, JsonView::Array(simplify_each(a)))],
        _ => Seq::empty(),
    }) + (match jv_get(fields, "allOf"@) {
        Some(JsonView::Array(a)) => seq![("allOf"@, JsonView::Array(simplify_each(a)))],
        _ => Seq::empty(),
    })
}

/// Simplification of one schema value.
pub open spec fn spec_simplify(v: JsonView) -> JsonView
    decreases v,
{
    match v {
        JsonView::Object(fields) => JsonView::Object(simplify_obj(fields)),
        other => other,
    }
}

/// Per-entry simplification of a `properties` map.
pub open spec fn simplify_entries(pf: Seq<(Seq<char>, JsonView)>) -> Seq<(Seq<char>, JsonView)>
    decreases pf,
{
    if pf.len() == 0 {
        Seq::empty()
    } else {
        simplify_entries(pf.drop_last()).push((pf.last().0, spec_simplify(pf.last().1)))
    }
}

/// Element-wise simplification of a combinator array.
pub open spec fn simplify_each(a: Seq<JsonView>) -> Seq<JsonView>
    decreases a,
{
    if a.len() == 0 {
        Seq::empty()
    } else {
        simplify_each(a.drop_last()).push(spec_simplify(a.last()))
    }
}

/// The first field of `fields` named `key`, if any, by reference.
fn obj_get<'a>(fields: &'a Vec<(String, JsonValue)>, key: &str) -> (r: Option<&'a JsonValue>)
    ensures
        match r {
            Some(x) => jv_get(jview_fields(fields@), key@) == Some(jview(*x)) && exists|j: int|
                0 <= j < fields@.len() && fields@[j].1 == *x,
            None => jv_get(jview_fields(fields@), key@) is None,
        },
{
    let n = fields.len();
    let ghost vf = jview_fields(fields@);
    proof {
        lemma_jview_fields_len(fields@);
        assert(vf.skip(0) =~= vf);
    }
    let mut i: usize = 0;
    while i < n
        invariant
            n == fields@.len(),
            vf == jview_fields(fields@),
            vf.len() == n,
            forall|m: int| 0 <= m < n ==> vf[m] == (fields@[m].0@, jview(fields@[m].1)),
            i <= n,
            jv_get(vf, key@) == jv_get(vf.skip(i as int), key@),
        decreases n - i,
    {
        proof {
            assert(vf.skip(i as int)[0] == vf[i as int]);
            assert(vf.skip(i as int).drop_first() =~= vf.skip(i + 1));
        }
        if str_eq(fields[i].0.as_str(), key) {
            return Some(&fields[i].1);
        }
        i = i + 1;
    }
    proof {
        assert(vf.skip(n as int) =~= Seq::<(Seq<char>, JsonView)>::empty());
    }
    None
}

/// Element-wise simplification of a combinator array.
#[verifier::loop_isolation(false)]
fn simplify_vec(a: &Vec<JsonValue>) -> (r: Vec<JsonValue>)
    ensures
        jview_seq(r@) == simplify_each(jview_seq(a@)),
    decreases *a,
{
    let ghost va = jview_seq(a@);
    proof {
        crate::json::lemma_jview_seq_len(a@);
    }
    let n = a.len();
    let mut out: Vec<JsonValue> = Vec::new();
    let mut i: usize = 0;
    while i < n
        invariant
            i <= n,
            jview_seq(out@) == simplify_each(va.take(i as int)),
        decreases n - i,
    {
        proof {
            assert(decreases_to!(*a => a@));
            assert(decreases_to!(a@ => a@[i as int]));
        }
        let s = simplify_input_schema(&a[i]);
        proof {
            assert(va.take(i + 1).drop_last() =~= va.take(i as int));
            assert(va.take(i + 1).last() == va[i as int]);
            assert(out@.push(s).drop_last() =~= out@);
        }
        out.push(s);
        proof {
            assert(jview_seq(out@) =~= simplify_each(va.take(i + 1)));
        }
        i = i + 1;
    }
    proof {
        assert(va.take(n as int) =~= va);
    }
    out
}

/// Per-entry simplification of a `properties` map.
#[verifier::loop_isolation(false)]
fn simplify_field_vec(pf: &Vec<(String, JsonValue)>) -> (r: Vec<(String, JsonValue)>)
    ensures
        jview_fields(r@) == simplify_entries(jview_fields(pf@)),
    decreases *pf,
{
    let ghost vpf = jview_fields(pf@);
    proof {
        lemma_jview_fields_len(pf@);
    }
    let n = pf.len();
    let mut out: Vec<(String, JsonValue)> = Vec::new();
    let mut i: usize = 0;
    while i < n
        invariant
            i <= n,
            jview_fields(out@) == simplify_entries(vpf.take(i as int)),
        decreases n - i,
    {
        proof {
            assert(decreases_to!(*pf => pf@));
            assert(decreases_to!(pf@ => pf@[i as int]));
            assert(decreases_to!(pf@[i as int] => pf@[i as int].1));
        }
        let key = pf[i].0.clone();
        let val = simplify_input_schema(&pf[i].1);
        proof {
            assert(vpf.take(i + 1).drop_last() =~= vpf.take(i as int));
            assert(vpf.take(i + 1).last() == vpf[i as int]);
            assert(out@.push((key, val)).drop_last() =~= out@);
        }
        out.push((key, val));
        proof {
            assert(jview_fields(out@) =~= simplify_entries(vpf.take(i + 1)));
        }
        i = i + 1;
    }
    proof {
        assert(vpf.take(n as int) =~= vpf);
    }
    out
}

/// The `properties` segment of a simplified object.
pub open spec fn props_segment(vf: Seq<(Seq<char>, JsonView)>) -> Seq<(Seq<char>, JsonView)> {
    match jv_get(vf, "properties"@) {
        Some(JsonView::Object(pf)) => seq![("properties"@, JsonView::Object(simplify_entries(pf)))],
        _ => Seq::empty(),
    }
}

/// The recursively simplified single-value segment for `key`.
pub open spec fn child_segment(
    vf: Seq<(Seq<char>, JsonView)>,
    key: Seq<char>,
) -> Seq<(Seq<char>, JsonView)> {
    match jv_get(vf, key) {
        Some(x) => seq![(key, spec_simplify(x))],
        None => Seq::empty(),
    }
}

/// The element-wise simplified combinator segment for `key`.
pub open spec fn combo_segment(
    vf: Seq<(Seq<char>, JsonView)>,
    key: Seq<char>,
) -> Seq<(Seq<char>, JsonView)> {
    match jv_get(vf, key) {
        Some(JsonView::Array(a)) => seq![(key, JsonView::Array(simplify_each(a)))],
        _ => Seq::empty(),
    }
}

/// Appends the verbatim copy of `key`'s field, if present.
fn push_copied(
    out: &mut Vec<(String, JsonValue)>,
    fields: &Vec<(String, JsonValue)>,
    key: &str,
)
    ensures
        jview_fields(final(out)@) == jview_fields(old(out)@) + copy_field(
            jview_fields(fields@),
            key@,
        ),
{
    let ghost vf = jview_fields(fields@);
    match obj_get(fields, key) {
        Some(x) => {
            let c = clone_json(x);
            let k = String::from_str(key);
            let ghost prev = out@;
            out.push((k, c));
            proof {
                crate::json::lemma_jview_fields_push(prev, (k, c));
                assert(jview_fields(out@) =~= jview_fields(prev) + copy_field(vf, key@));
            }
        },
        None => {
            proof {
                assert(jview_fields(out@) =~= jview_fields(out@) + copy_field(vf, key@));
            }
        },
    }
}

/// Appends the recursively simplified `properties` map, if present and an
/// object.
fn push_properties(out: &mut Vec<(String, JsonValue)>, fields: &Vec<(String, JsonValue)>)
    ensures
        jview_fields(final(out)@) == jview_fields(old(out)@) + props_segment(
            jview_fields(fields@),
        ),
    decreases *fields,
{
    let ghost vf = jview_fields(fields@);
    match obj_get(fields, "properties") {
        Some(x) => {
            proof {
                crate::json::lemma_jview_variants(*x);
            }
            match x {
                JsonValue::Object(pf) => {
                    proof {
                        let j = choose|j: int| 0 <= j < fields@.len() && fields@[j].1 == *x;
                        assert(decreases_to!(*fields => fields@));
                        assert(decreases_to!(fields@ => fields@[j]));
                        assert(decreases_to!(fields@[j] => fields@[j].1));
                        assert(decreases_to!(*x => (*x)->Object_0));
                        assert((*x)->Object_0 == *pf);
                    }
                    let props = simplify_field_vec(pf);
                    let entry = (String::from_str("properties"), JsonValue::Object(props));
                    let ghost prev = out@;
                    out.push(entry);
                    proof {
                        crate::json::lemma_jview_fields_push(prev, entry);
                        assert(jview_fields(out@) =~= jview_fields(prev) + props_segment(vf));
                    }
                },
                _ => {
                    proof {
                        assert(jview_fields(out@) =~= jview_fields(out@) + props_segment(vf));
                    }
                },
            }
        },
        None => {
            proof {
                assert(jview_fields(out@) =~= jview_fields(out@) + props_segment(vf));
            }
        },
    }
}

/// Appends the recursively simplified value of `key`, if present.
fn push_child(
    out: &mut Vec<(String, JsonValue)>,
    fields: &Vec<(String, JsonValue)>,
    key: &str,
)
    ensures
        jview_fields(final(out)@) == jview_fields(old(out)@) + child_segment(
            jview_fields(fields@),
            key@,
        ),
    decreases *fields,
{
    let ghost vf = jview_fields(fields@);
    match obj_get(fields, key) {
        Some(x) => {
            proof {
                let j = choose|j: int| 0 <= j < fields@.len() && fields@[j].1 == *x;
                assert(decreases_to!(*fields => fields@));
                assert(decreases_to!(fields@ => fields@[j]));
                assert(decreases_to!(fields@[j] => fields@[j].1));
            }
            let s = simplify_input_schema(x);
            let entry = (String::from_str(key), s);
            let ghost prev = out@;
            out.push(entry);
            proof {
                crate::json::lemma_jview_fields_push(prev, entry);
                assert(jview_fields(out@) =~= jview_fields(prev) + child_segment(vf, key@));
            }
        },
        None => {
            proof {
                assert(jview_fields(out@) =~= jview_fields(out@) + child_segment(vf, key@));
            }
        },
    }
}

/// Appends the element-wise simplified combinator array for `key`, if
/// present and an array.
fn push_combo(
    out: &mut Vec<(String, JsonValue)>,
    fields: &Vec<(String, JsonValue)>,
    key: &str,
)
    ensures
        jview_fields(final(out)@) == jview_fields(old(out)@) + combo_segment(
            jview_fields(fields@),
            key@,
        ),
    decreases *fields,
{
    let ghost vf = jview_fields(fields@);
    match obj_get(fields, key) {
        Some(x) => {
            proof {
                crate::json::lemma_jview_variants(*x);
            }
            match x {
                JsonValue::Array(arr) => {
                    proof {
                        let j = choose|j: int| 0 <= j < fields@.len() && fields@[j].1 == *x;
                        assert(decreases_to!(*fields => fields@));
                        assert(decreases_to!(fields@ => fields@[j]));
                        assert(decreases_to!(fields@[j] => fields@[j].1));
                        assert(decreases_to!(*x => (*x)->Array_0));
                        assert((*x)->Array_0 == *arr);
                    }
                    let s = simplify_vec(arr);
                    let entry = (String::from_str(key), JsonValue::Array(s));
                    let ghost prev = out@;
                    out.push(entry);
                    proof {
                        crate::json::lemma_jview_fields_push(prev, entry);
                        assert(jview_fields(out@) =~= jview_fields(prev) + combo_segment(vf, key@));
                    }
                },
                _ => {
                    proof {
                        assert(jview_fields(out@) =~= jview_fields(out@) + combo_segment(vf, key@));
                    }
                },
            }
        },
        None => {
            proof {
                assert(jview_fields(out@) =~= jview_fields(out@) + combo_segment(vf, key@));
            }
        },
    }
}

/// Rebuilds a schema keeping only its structural keys, recursively.
/// Non-object values pass through unchanged.
#[verifier::rlimit(30)]
pub fn simplify_input_schema(v: &JsonValue) -> (r: JsonValue)
    ensures
        jview(r) == spec_simplify(jview(*v)),
    decreases *v,
{
    match v {
        JsonValue::Object(fields) => {
            let ghost vf = jview_fields(fields@);
            proof {
                assert(decreases_to!(*v => (*v)->Object_0));
                assert((*v)->Object_0 == *fields);
            }
            let mut out: Vec<(String, JsonValue)> = Vec::new();
            push_copied(&mut out, fields, "type");
            push_copied(&mut out, fields, "enum");
            push_copied(&mut out, fields, "required");
            push_properties(&mut out, fields);
            push_child(&mut out, fields, "items");
            push_child(&mut out, fields, "additionalProperties");
            push_combo(&mut out, fields, "anyOf");
            push_combo(&mut out, fields, "oneOf");
            push_combo(&mut out, fields, "allOf");
            proof {
                assert(jview_fields(out@) =~= simplify_obj(vf));
            }
            JsonValue::Object(out)
        },
        JsonValue::Null => JsonValue::Null,
        JsonValue::Bool(b) => JsonValue::Bool(*b),
        JsonValue::Number(s) => JsonValue::Number(s.clone()),
        JsonValue::String(s) => JsonValue::String(s.clone()),
        JsonValue::Array(elems) => {
            let c = clone_json_vec(elems);
            JsonValue::Array(c)
        },
    }
}

// --- Description truncation -------------------------------------------

/// The first character boundary at or after `i` (the length if none).
pub open spec fn ceil_char_boundary(bs: Seq<u8>, i: int) -> int
    decreases bs.len() - i,
{
    if i < 0 {
        0
    } else if i >= bs.len() {
        bs.len() as int
    } else if vstd::utf8::is_char_boundary(bs, i) {
        i
    } else {
        ceil_char_boundary(bs, i + 1)
    }
}

/// A description truncated to roughly `target_length` bytes, but never
/// below 50: a description that already fits is returned unchanged;
/// otherwise it is cut at a character boundary, reserving three bytes for
/// a trailing ellipsis.
pub open spec fn spec_compress_description(d: Seq<char>, target_length: int) -> Seq<char> {
    let target = if target_length >= 50 {
        target_length
    } else {
        50
    };
    let bs = encode_utf8(d);
    if bs.len() <= target {
        d
    } else {
        let cut = ceil_char_boundary(bs, target - 3);
        vstd::utf8::decode_utf8(bs.take(cut)) + "..."@
    }
}

/// A run of non-boundaries from `i` up to a boundary `j` pins the ceiling
/// down.
proof fn lemma_ceil_char_boundary(bs: Seq<u8>, i: int, j: int)
    requires
        0 <= i <= j <= bs.len(),
        forall|m: int| i <= m < j ==> !vstd::utf8::is_char_boundary(bs, m),
        j == bs.len() || vstd::utf8::is_char_boundary(bs, j),
    ensures
        ceil_char_boundary(bs, i) == j,
    decreases j - i,
{
    if i < j {
        lemma_ceil_char_boundary(bs, i + 1, j);
    }
}

/// Truncates `description` to at most `max(target_length, 50)` bytes at a
/// character boundary, appending `...` when something was cut.
pub fn compress_description(description: &str, target_length: usize) -> (r: String)
    ensures
        r@ == spec_compress_description(description@, target_length as int),
{
    let ghost bs = description.spec_bytes();
    proof {
        vstd::utf8::encode_utf8_valid_utf8(description@);
        vstd::utf8::is_char_boundary_start_end_of_seq(bs);
    }
    let target = if target_length >= 50 {
        target_length
    } else {
        50
    };
    let n = crate::text::str_len(description);
    if n <= target {
        return description.to_owned();
    }
    let trunc = target - 3;
    let mut j = trunc;
    while !description.is_char_boundary(j)
        invariant
            bs == description.spec_bytes(),
            trunc <= j <= bs.len(),
            n == bs.len(),
            trunc < n,
            vstd::utf8::valid_utf8(bs),
            vstd::utf8::is_char_boundary(bs, n as int),
            forall|m: int| trunc <= m < j ==> !vstd::utf8::is_char_boundary(bs, m),
        decreases n - j,
    {
        j = j + 1;
    }
    proof {
        lemma_ceil_char_boundary(bs, trunc as int, j as int);
    }
    let (head, _) = description.split_at(j);
    proof {
        assert(head.spec_bytes() =~= bs.take(j as int));
        vstd::utf8::encode_utf8_decode_utf8(head@);
    }
    let mut out = head.to_owned();
    out.append("...");
    out
}

// --- The compression pipeline ------------------------------------------

/// The byte budget for a serialized tool list: 20 KiB.
pub open spec fn spec_compression_target() -> int {
    20480
}

pub open spec fn simplify_tool(t: ToolView) -> ToolView {
    ToolView { name: t.name, description: t.description, input_schema: spec_simplify(t.input_schema) }
}

pub open spec fn simplify_tools(ts: Seq<ToolView>) -> Seq<ToolView> {
    ts.map(|i: int, t: ToolView| simplify_tool(t))
}

/// The total byte length of all descriptions.
pub open spec fn total_desc_len(ts: Seq<ToolView>) -> int
    decreases ts,
{
    if ts.len() == 0 {
        0
    } else {
        total_desc_len(ts.drop_last()) + encode_utf8(ts.last().description).len()
    }
}

pub proof fn lemma_total_desc_len_nonneg(ts: Seq<ToolView>)
    ensures
        total_desc_len(ts) >= 0,
    decreases ts,
{
    if ts.len() > 0 {
        lemma_total_desc_len_nonneg(ts.drop_last());
    }
}

/// A tool with its description truncated to the fraction
/// `keep_num / keep_den` of its byte length (floored, with the 50-byte
/// floor of `spec_compress_description`).
pub open spec fn shrink_tool(t: ToolView, keep_num: u64, keep_den: u64) -> ToolView {
    ToolView {
        name: t.name,
        description: spec_compress_description(
            t.description,
            (encode_utf8(t.description).len() as int) * (keep_num as int) / (keep_den as int),
        ),
        input_schema: t.input_schema,
    }
}

pub open spec fn shrink_tools(ts: Seq<ToolView>, keep_num: u64, keep_den: u64) -> Seq<ToolView> {
    ts.map(|i: int, t: ToolView| shrink_tool(t, keep_num, keep_den))
}

/// What `compress_tools_if_needed` does, step by step.
///
/// An empty or already-small list passes through untouched with no size
/// report. Otherwise schemas are simplified; if the list now fits, it is
/// returned with `(original, new)` sizes. Otherwise every description is
/// truncated to the proportional share that removes the excess, floored
/// at 50 bytes, and the final size is measured after both steps. All
/// sizes are clamped at `u64::MAX`.
pub open spec fn spec_compress(ts: Seq<ToolView>) -> (Seq<ToolView>, Option<(u64, u64)>) {
    let size0 = clamp64(tools_size(ts));
    if ts.len() == 0 || size0 <= spec_compression_target() {
        (ts, None::<(u64, u64)>)
    } else {
        let ts1 = simplify_tools(ts);
        let size1 = clamp64(tools_size(ts1));
        if size1 <= spec_compression_target() {
            (ts1, Some((size0, size1)))
        } else {
            let excess = (size1 - spec_compression_target()) as u64;
            let total = clamp64(total_desc_len(ts1));
            if total == 0 {
                (ts1, Some((size0, size1)))
            } else {
                let keep_num: u64 = if excess >= total {
                    0
                } else {
                    (total - excess) as u64
                };
                let ts2 = shrink_tools(ts1, keep_num, total);
                (ts2, Some((size0, clamp64(tools_size(ts2)))))
            }
        }
    }
}

/// Shrinks an oversized tool list under the 20 KiB budget: schemas are
/// stripped to their structural keys, then descriptions are truncated
/// proportionally. Returns the shaped list and, when anything was done,
/// the serialized sizes before and after.
pub fn compress_tools_if_needed(tools: Vec<Tool>) -> (r: (Vec<Tool>, Option<(u64, u64)>))
    ensures
        tview_seq(r.0@) == spec_compress(tview_seq(tools@)).0,
        r.1 == spec_compress(tview_seq(tools@)).1,
{
    let ghost ts = tview_seq(tools@);
    if tools.len() == 0 {
        return (tools, None);
    }
    let size0 = calculate_tools_size(&tools);
    if size0 <= 20480 {
        return (tools, None);
    }
    let n = tools.len();
    let mut simplified: Vec<Tool> = Vec::new();
    let mut i: usize = 0;
    while i < n
        invariant
            n == tools@.len(),
            ts == tview_seq(tools@),
            i <= n,
            simplified@.len() == i,
            forall|m: int|
                0 <= m < i ==> tview(#[trigger] simplified@[m]) == simplify_tool(ts[m]),
        decreases n - i,
    {
        let t = &tools[i];
        let shaped = Tool {
            name: t.name.clone(),
            description: t.description.clone(),
            input_schema: simplify_input_schema(&t.input_schema),
        };
        proof {
            assert(tview(shaped) == simplify_tool(ts[i as int]));
        }
        simplified.push(shaped);
        i = i + 1;
    }
    proof {
        assert(tview_seq(simplified@) =~= simplify_tools(ts));
    }
    let ghost ts1 = simplify_tools(ts);
    let size1 = calculate_tools_size(&simplified);
    if size1 <= 20480 {
        return (simplified, Some((size0, size1)));
    }
    let excess = size1 - 20480;
    let mut total: u64 = 0;
    let mut i2: usize = 0;
    while i2 < n
        invariant
            n == simplified@.len(),
            ts1 == tview_seq(simplified@),
            i2 <= n,
            total == clamp64(total_desc_len(ts1.take(i2 as int))),
        decreases n - i2,
    {
        proof {
            assert(ts1.take(i2 + 1).drop_last() =~= ts1.take(i2 as int));
            assert(ts1.take(i2 + 1).last() == ts1[i2 as int]);
            assert(ts1[i2 as int] == tview(simplified@[i2 as int]));
            lemma_total_desc_len_nonneg(ts1.take(i2 as int));
            crate::json::lemma_clamp_add(
                total_desc_len(ts1.take(i2 as int)),
                encode_utf8(ts1[i2 as int].description).len() as int,
            );
        }
        let dlen = crate::text::str_len(simplified[i2].description.as_str());
        total = sat_add64(total, dlen as u64);
        i2 = i2 + 1;
    }
    proof {
        assert(ts1.take(n as int) =~= ts1);
    }
    if total == 0 {
        return (simplified, Some((size0, size1)));
    }
    let keep_num: u64 = if excess >= total {
        0
    } else {
        total - excess
    };
    let mut shrunk: Vec<Tool> = Vec::new();
    let mut i3: usize = 0;
    while i3 < n
        invariant
            n == simplified@.len(),
            ts1 == tview_seq(simplified@),
            1 <= total,
            keep_num <= total,
            i3 <= n,
            shrunk@.len() == i3,
            forall|m: int|
                0 <= m < i3 ==> tview(#[trigger] shrunk@[m]) == shrink_tool(
                    ts1[m],
                    keep_num,
                    total,
                ),
        decreases n - i3,
    {
        let t = &simplified[i3];
        let dlen = crate::text::str_len(t.description.as_str());
        proof {
            vstd::arithmetic::mul::lemma_mul_upper_bound(
                dlen as int,
                u64::MAX as int,
                keep_num as int,
                u64::MAX as int,
            );
        }
        let target_wide: u128 = (dlen as u128) * (keep_num as u128) / (total as u128);
        let target: usize = target_wide as usize;
        proof {
            let dl = encode_utf8(ts1[i3 as int].description).len() as int;
            assert(dl == dlen);
            vstd::arithmetic::div_mod::lemma_div_pos_is_pos(dl * keep_num, total as int);
            assert(dl * keep_num <= dl * total) by (nonlinear_arith)
                requires
                    keep_num <= total,
                    dl >= 0,
            ;
            assert(dl * total / total as int == dl) by {
                vstd::arithmetic::div_mod::lemma_div_multiples_vanish(dl, total as int);
                assert(dl * total == total * dl) by (nonlinear_arith);
            }
            assert(dl * keep_num / total as int <= dl) by {
                vstd::arithmetic::div_mod::lemma_div_is_ordered(
                    dl * keep_num,
                    dl * total,
                    total as int,
                );
            }
        }
        let desc = compress_description(t.description.as_str(), target);
        let shaped = Tool {
            name: t.name.clone(),
            description: desc,
            input_schema: clone_json(&t.input_schema),
        };
        proof {
            assert(tview(shaped) == shrink_tool(ts1[i3 as int], keep_num, total));
        }
        shrunk.push(shaped);
        i3 = i3 + 1;
    }
    proof {
        assert(tview_seq(shrunk@) =~= shrink_tools(ts1, keep_num, total));
    }
    let size2 = calculate_tools_size(&shrunk);
    (shrunk, Some((size0, size2)))
}

// --- Long-description elevation ----------------------------------------

/// The per-tool threshold beyond which a description is relocated into
/// the documentation block: 10,000 characters.
pub open spec fn spec_elevation_threshold() -> int {
    10000
}

/// Whether `t`'s description is long enough to be elevated.
pub open spec fn elevated(t: ToolView) -> bool {
    t.description.len() > spec_elevation_threshold()
}

/// The short fixed-format description that replaces an elevated one.
pub open spec fn pointer_desc(name: Seq<char>) -> Seq<char> {
    "[Full documentation in system prompt under '## Tool: "@ + name + "']"@
}

pub open spec fn elevate_tool(t: ToolView) -> ToolView {
    if elevated(t) {
        ToolView { name: t.name, description: pointer_desc(t.name), input_schema: t.input_schema }
    } else {
        t
    }
}

pub open spec fn elevate_tools(ts: Seq<ToolView>) -> Seq<ToolView> {
    ts.map(|i: int, t: ToolView| elevate_tool(t))
}

/// The documentation entry for one elevated tool.
pub open spec fn doc_entry(t: ToolView) -> Seq<char> {
    "## Tool: "@ + t.name + "\n\n"@ + t.description
}

/// The documentation entries of every elevated tool, in order.
pub open spec fn doc_parts(ts: Seq<ToolView>) -> Seq<Seq<char>>
    decreases ts,
{
    if ts.len() == 0 {
        Seq::empty()
    } else if elevated(ts.last()) {
        doc_parts(ts.drop_last()).push(doc_entry(ts.last()))
    } else {
        doc_parts(ts.drop_last())
    }
}

/// The entries joined by the documentation separator.
pub open spec fn join_parts(parts: Seq<Seq<char>>) -> Seq<char>
    decreases parts,
{
    if parts.len() == 0 {
        Seq::empty()
    } else if parts.len() == 1 {
        parts[0]
    } else {
        join_parts(parts.drop_last()) + "\n\n---\n\n"@ + parts.last()
    }
}

/// The full documentation block: empty when no tool was elevated,
/// otherwise a fixed heading, the joined entries, and a trailing newline.
pub open spec fn spec_documentation(ts: Seq<ToolView>) -> Seq<char> {
    let parts = doc_parts(ts);
    if parts.len() == 0 {
        Seq::empty()
    } else {
        "\n\n---\n# Tool Documentation\nThe following tools have detailed documentation that couldn't fit in the tool definition.\n\n"@
            + join_parts(parts) + "\n"@
    }
}

/// Replaces every description longer than 10,000 characters with a short
/// pointer, and collects the originals into a documentation block for the
/// caller to append to the system prompt. Returns the processed tools,
/// the documentation text, and how many tools were elevated.
pub fn elevate_long_descriptions(tools: Vec<Tool>) -> (r: (Vec<Tool>, String, usize))
    ensures
        tview_seq(r.0@) == elevate_tools(tview_seq(tools@)),
        r.1@ == spec_documentation(tview_seq(tools@)),
        r.2 == doc_parts(tview_seq(tools@)).len(),
{
    let ghost ts = tview_seq(tools@);
    let n = tools.len();
    let mut out: Vec<Tool> = Vec::new();
    let mut joined = String::new();
    let mut count: usize = 0;
    let mut i: usize = 0;
    while i < n
        invariant
            n == tools@.len(),
            ts == tview_seq(tools@),
            i <= n,
            out@.len() == i,
            forall|m: int| 0 <= m < i ==> tview(#[trigger] out@[m]) == elevate_tool(ts[m]),
            count == doc_parts(ts.take(i as int)).len(),
            count <= i,
            joined@ == join_parts(doc_parts(ts.take(i as int))),
        decreases n - i,
    {
        proof {
            assert(ts.take(i + 1).drop_last() =~= ts.take(i as int));
            assert(ts.take(i + 1).last() == ts[i as int]);
            assert(ts[i as int] == tview(tools@[i as int]));
        }
        let t = &tools[i];
        let dlen = t.description.as_str().unicode_len();
        if dlen <= 10000 {
            let kept = Tool {
                name: t.name.clone(),
                description: t.description.clone(),
                input_schema: clone_json(&t.input_schema),
            };
            proof {
                assert(tview(kept) == elevate_tool(ts[i as int]));
            }
            out.push(kept);
        } else {
            let mut pointer = String::new();
            pointer.append("[Full documentation in system prompt under '## Tool: ");
            pointer.append(t.name.as_str());
            pointer.append("']");
            let shaped = Tool {
                name: t.name.clone(),
                description: pointer,
                input_schema: clone_json(&t.input_schema),
            };
            proof {
                assert(tview(shaped).description =~= pointer_desc(ts[i as int].name));
                assert(tview(shaped) == elevate_tool(ts[i as int]));
            }
            out.push(shaped);
            if count > 0 {
                joined.append("\n\n---\n\n");
            }
            joined.append("## Tool: ");
            joined.append(t.name.as_str());
            joined.append("\n\n");
            joined.append(t.description.as_str());
            proof {
                let parts = doc_parts(ts.take(i as int));
                let entry = doc_entry(ts[i as int]);
                assert(doc_parts(ts.take(i + 1)) == parts.push(entry));
                assert(parts.push(entry).drop_last() =~= parts);
                if count == 0 {
                    assert(joined@ =~= entry);
                    assert(joined@ =~= join_parts(parts.push(entry)));
                } else {
                    assert(joined@ =~= join_parts(parts) + "\n\n---\n\n"@ + entry);
                    assert(joined@ =~= join_parts(parts.push(entry)));
                }
            }
            count = count + 1;
        }
        i = i + 1;
    }
    proof {
        assert(ts.take(n as int) =~= ts);
    }
    if count == 0 {
        proof {
            assert(tview_seq(out@) =~= elevate_tools(ts));
        }
        return (out, String::new(), 0);
    }
    let mut documentation = String::new();
    documentation.append(
        "\n\n---\n# Tool Documentation\nThe following tools have detailed documentation that couldn't fit in the tool definition.\n\n",
    );
    documentation.append(joined.as_str());
    documentation.append("\n");
    proof {
        assert(tview_seq(out@) =~= elevate_tools(ts));
        assert(documentation@ =~= spec_documentation(ts));
    }
    (out, documentation, count)
}

// --- Shaper laws --------------------------------------------------------

/// A tool list already at or under the byte budget passes through the
/// shaper untouched, with no size report.
pub proof fn lemma_compress_below_target(ts: Seq<ToolView>)
    requires
        clamp64(tools_size(ts)) <= spec_compression_target(),
    ensures
        spec_compress(ts) == (ts, None::<(u64, u64)>),
{
}

/// Valid UTF-8 has a character boundary within three bytes of any
/// position: a scalar occupies at most four bytes.
proof fn lemma_boundary_within(bs: Seq<u8>, i: int)
    requires
        vstd::utf8::valid_utf8(bs),
        0 <= i <= bs.len(),
    ensures
        exists|j: int|
            i <= j <= i + 3 && j <= bs.len() && #[trigger] vstd::utf8::is_char_boundary(bs, j),
    decreases bs.len(),
{
    if i == 0 {
        assert(vstd::utf8::is_char_boundary(bs, 0));
    } else {
        let w = vstd::utf8::length_of_first_scalar(bs);
        assert(1 <= w <= 4);
        assert(w <= bs.len());
        let tail = vstd::utf8::pop_first_scalar(bs);
        if i >= w {
            lemma_boundary_within(tail, i - w);
            let j0 = choose|j: int|
                i - w <= j <= i - w + 3 && j <= tail.len() && #[trigger] vstd::utf8::is_char_boundary(
                    tail,
                    j,
                );
            assert(vstd::utf8::is_char_boundary(bs, j0 + w));
        } else {
            assert(vstd::utf8::is_char_boundary(bs, w)) by {
                assert(vstd::utf8::is_char_boundary(tail, 0));
            }
        }
    }
}

/// The ceiling boundary lands at or before any boundary at or after `i`.
proof fn lemma_ceil_at_most(bs: Seq<u8>, i: int, j: int)
    requires
        0 <= i <= j <= bs.len(),
        vstd::utf8::is_char_boundary(bs, j),
    ensures
        ceil_char_boundary(bs, i) <= j,
    decreases j - i,
{
    if i < bs.len() && !vstd::utf8::is_char_boundary(bs, i) {
        lemma_ceil_at_most(bs, i + 1, j);
    }
}

/// The ceiling boundary of a valid sequence is a boundary between `i`
/// and the length.
proof fn lemma_ceil_props(bs: Seq<u8>, i: int)
    requires
        vstd::utf8::valid_utf8(bs),
        0 <= i <= bs.len(),
    ensures
        i <= ceil_char_boundary(bs, i) <= bs.len(),
        vstd::utf8::is_char_boundary(bs, ceil_char_boundary(bs, i)),
    decreases bs.len() - i,
{
    vstd::utf8::is_char_boundary_start_end_of_seq(bs);
    if i < bs.len() && !vstd::utf8::is_char_boundary(bs, i) {
        lemma_ceil_props(bs, i + 1);
    }
}

/// Encoding distributes over concatenation.
proof fn lemma_encode_concat(a: Seq<char>, b: Seq<char>)
    ensures
        encode_utf8(a + b) == encode_utf8(a) + encode_utf8(b),
    decreases a.len(),
{
    if a.len() == 0 {
        assert(a + b =~= b);
        assert(encode_utf8(a) + encode_utf8(b) =~= encode_utf8(b));
    } else {
        assert((a + b).drop_first() =~= a.drop_first() + b);
        assert((a + b)[0] == a[0]);
        lemma_encode_concat(a.drop_first(), b);
        assert(vstd::utf8::encode_scalar(a[0] as u32) + (encode_utf8(a.drop_first()) + encode_utf8(
            b,
        )) =~= (vstd::utf8::encode_scalar(a[0] as u32) + encode_utf8(a.drop_first()))
            + encode_utf8(b));
    }
}

/// With a target at or below the 50-byte floor, a truncated description
/// cannot exceed 53 bytes: at most 47 wanted bytes, at most 3 bytes to
/// finish the straddling character, and 3 for the ellipsis.
pub proof fn lemma_description_floor(d: Seq<char>, target: int)
    requires
        target <= 50,
    ensures
        encode_utf8(spec_compress_description(d, target)).len() <= 53,
{
    let bs = encode_utf8(d);
    vstd::utf8::encode_utf8_valid_utf8(d);
    if bs.len() <= 50 {
        assert(spec_compress_description(d, target) == d);
    } else {
        let cut = ceil_char_boundary(bs, 47);
        lemma_ceil_props(bs, 47);
        lemma_boundary_within(bs, 47);
        let j = choose|j: int|
            47 <= j <= 50 && j <= bs.len() && #[trigger] vstd::utf8::is_char_boundary(bs, j);
        lemma_ceil_at_most(bs, 47, j);
        vstd::utf8::valid_utf8_split(bs, cut);
        vstd::utf8::decode_utf8_encode_utf8(bs.subrange(0, cut));
        assert(bs.take(cut) == bs.subrange(0, cut));
        lemma_encode_concat(vstd::utf8::decode_utf8(bs.take(cut)), "..."@);
        reveal_strlit("...");
        assert(vstd::utf8::is_ascii_chars("..."@));
        vstd::utf8::is_ascii_chars_encode_utf8("..."@);
        assert(encode_utf8("..."@).len() == 3);
    }
}

/// Compression convergence at the floor: when the excess is at least the
/// total description mass, the proportional share of every tool is zero,
/// and every description in the result is shrunk to the 50-byte floor
/// (53 bytes with the boundary slack and the ellipsis).
pub proof fn lemma_compression_floor(ts: Seq<ToolView>)
    requires
        ts.len() > 0,
        clamp64(tools_size(ts)) > spec_compression_target(),
        clamp64(tools_size(simplify_tools(ts))) > spec_compression_target(),
        clamp64(total_desc_len(simplify_tools(ts))) >= 1,
        clamp64(tools_size(simplify_tools(ts))) - spec_compression_target() >= clamp64(
            total_desc_len(simplify_tools(ts)),
        ),
    ensures
        spec_compress(ts).0.len() == ts.len(),
        forall|i: int|
            0 <= i < ts.len() ==> encode_utf8(
                #[trigger] spec_compress(ts).0[i].description,
            ).len() <= 53,
{
    let ts1 = simplify_tools(ts);
    let total = clamp64(total_desc_len(ts1));
    let out = shrink_tools(ts1, 0, total);
    assert(spec_compress(ts).0 == out);
    assert forall|i: int|
        0 <= i < ts.len() implies encode_utf8(#[trigger] spec_compress(ts).0[i].description).len()
        <= 53 by {
        let d = ts1[i].description;
        assert(out[i] == shrink_tool(ts1[i], 0, total));
        assert((encode_utf8(d).len() as int) * (0int) == 0) by (nonlinear_arith);
        assert(0int / (total as int) == 0);
        lemma_description_floor(d, 0);
    }
}

/// Characters that serialize into one byte each: printable ASCII except
/// the quote and the backslash.
pub open spec fn plain_chars(d: Seq<char>) -> bool {
    forall|i: int| 0 <= i < d.len() ==> ' ' <= #[trigger] d[i] <= '~' && d[i] != '"' && d[i] != '\\'
}

/// How far the serialized size of the simplified list overshoots the
/// budget.
pub open spec fn spec_excess(ts1: Seq<ToolView>) -> int {
    tools_size(ts1) - spec_compression_target()
}

/// The numerator of the keep ratio: the description mass that may stay.
pub open spec fn spec_keep_num(ts1: Seq<ToolView>) -> int {
    total_desc_len(ts1) - spec_excess(ts1)
}

/// The proportional byte target of one tool's description.
pub open spec fn spec_shrink_target(tv: ToolView, ts1: Seq<ToolView>) -> int {
    (encode_utf8(tv.description).len() as int) * spec_keep_num(ts1) / total_desc_len(ts1)
}

/// Sum of the floors never exceeds the floor of the sum:
/// `a/t + b/t <= (a+b)/t`.
proof fn lemma_div_sum(a: int, b: int, t: int)
    requires
        a >= 0,
        b >= 0,
        t >= 1,
    ensures
        a / t + b / t <= (a + b) / t,
{
    vstd::arithmetic::div_mod::lemma_remainder(a, t);
    vstd::arithmetic::div_mod::lemma_remainder(b, t);
    assert((a / t + b / t) * t <= a + b) by (nonlinear_arith)
        requires
            a - a / t * t >= 0,
            b - b / t * t >= 0,
    ;
    vstd::arithmetic::div_mod::lemma_div_is_ordered((a / t + b / t) * t, a + b, t);
    vstd::arithmetic::div_mod::lemma_div_multiples_vanish(a / t + b / t, t);
    assert(t * (a / t + b / t) == (a / t + b / t) * t) by (nonlinear_arith);
}

/// The proportional targets of all tools, summed.
pub open spec fn sum_targets(ts: Seq<ToolView>, ts1: Seq<ToolView>) -> int
    decreases ts,
{
    if ts.len() == 0 {
        0
    } else {
        sum_targets(ts.drop_last(), ts1) + spec_shrink_target(ts.last(), ts1)
    }
}

/// For a plain description whose proportional target clears the 50-byte
/// floor, truncation lands exactly on the target.
proof fn lemma_shrink_tool_plain(tv: ToolView, keep_num: u64, keep_den: u64)
    requires
        keep_den >= 1,
        keep_num <= keep_den,
        plain_chars(tv.description),
        (encode_utf8(tv.description).len() as int) * keep_num / (keep_den as int) >= 50,
    ensures
        quoted_len(shrink_tool(tv, keep_num, keep_den).description) == 2 + (encode_utf8(
            tv.description,
        ).len() as int) * keep_num / (keep_den as int),
        tool_len(shrink_tool(tv, keep_num, keep_den)) == tool_len(tv) - encode_utf8(
            tv.description,
        ).len() + (encode_utf8(tv.description).len() as int) * keep_num / (keep_den as int),
{
    let d = tv.description;
    let bs = encode_utf8(d);
    let bl = bs.len() as int;
    let target = bl * keep_num / (keep_den as int);
    assert(target <= bl) by {
        vstd::arithmetic::mul::lemma_mul_inequality(keep_num as int, keep_den as int, bl);
        assert(bl * keep_num == keep_num * bl) by (nonlinear_arith);
        assert(bl * keep_den == keep_den * bl) by (nonlinear_arith);
        vstd::arithmetic::div_mod::lemma_div_is_ordered(bl * keep_num, bl * keep_den, keep_den as int);
        vstd::arithmetic::div_mod::lemma_div_multiples_vanish(bl, keep_den as int);
    }
    assert(vstd::utf8::is_ascii_chars(d)) by {
        assert(forall|i: int| 0 <= i < d.len() ==> (#[trigger] d[i] as nat) < 128);
    }
    vstd::utf8::is_ascii_chars_encode_utf8(d);
    crate::json::lemma_quoted_ascii(d);
    let out = shrink_tool(tv, keep_num, keep_den).description;
    if bl <= target {
        assert(out == d);
        assert(bl == target);
        crate::json::lemma_quoted_ascii(out);
    } else {
        vstd::utf8::encode_utf8_valid_utf8(d);
        let cut = target - 3;
        assert(bs[cut] == d[cut] as u8);
        assert(!vstd::utf8::is_continuation_byte(bs[cut])) by {
            assert(' ' <= d[cut] <= '~');
        }
        vstd::utf8::is_char_boundary_iff_not_is_continuation_byte(bs, cut);
        assert(ceil_char_boundary(bs, cut) == cut);
        // the truncated prefix decodes to the character prefix
        let head = d.take(cut);
        assert(vstd::utf8::is_ascii_chars(head)) by {
            assert(forall|i: int| 0 <= i < head.len() ==> (#[trigger] head[i] as nat) < 128);
        }
        vstd::utf8::is_ascii_chars_encode_utf8(head);
        assert(encode_utf8(head) =~= bs.take(cut));
        vstd::utf8::encode_utf8_decode_utf8(head);
        assert(vstd::utf8::decode_utf8(bs.take(cut)) == head);
        assert(out == head + "..."@);
        reveal_strlit("...");
        assert(plain_chars(out)) by {
            assert("..."@.len() == 3);
            assert(forall|i: int|
                0 <= i < 3 ==> #[trigger] "..."@[i] == '.');
            assert(forall|i: int|
                0 <= i < out.len() ==> ' ' <= #[trigger] out[i] <= '~' && out[i] != '"' && out[i]
                    != '\\');
        }
        crate::json::lemma_quoted_ascii(out);
        assert(out.len() == cut + 3);
    }
}

/// Every description mapped to its proportional target: the serialized
/// item size drops by the description mass and regains only the targets.
proof fn lemma_shrink_items_len(ts1: Seq<ToolView>, full: Seq<ToolView>, keep_num: u64, total: u64)
    requires
        total >= 1,
        keep_num <= total,
        spec_keep_num(full) == keep_num,
        total_desc_len(full) == total,
        forall|i: int| 0 <= i < ts1.len() ==> plain_chars(#[trigger] ts1[i].description),
        forall|i: int| 0 <= i < ts1.len() ==> spec_shrink_target(#[trigger] ts1[i], full) >= 50,
    ensures
        tools_items_len(shrink_tools(ts1, keep_num, total)) == tools_items_len(ts1)
            - total_desc_len(ts1) + sum_targets(ts1, full),
    decreases ts1,
{
    let out = shrink_tools(ts1, keep_num, total);
    assert(out.len() == ts1.len());
    if ts1.len() == 0 {
    } else {
        assert(out.drop_last() =~= shrink_tools(ts1.drop_last(), keep_num, total));
        assert(forall|i: int|
            0 <= i < ts1.len() - 1 ==> ts1.drop_last()[i] == ts1[i]);
        lemma_shrink_items_len(ts1.drop_last(), full, keep_num, total);
        lemma_shrink_tool_plain(ts1.last(), keep_num, total);
        assert(out.last() == shrink_tool(ts1.last(), keep_num, total));
        lemma_tool_len_expand(ts1.last());
        lemma_tool_len_expand(out.last());
        if ts1.len() == 1 {
            assert(out[0] == shrink_tool(ts1[0], keep_num, total));
        }
    }
}

/// The summed targets never exceed the kept mass.
proof fn lemma_sum_targets_le(ts1: Seq<ToolView>, full: Seq<ToolView>, keep_num: u64, total: u64)
    requires
        total >= 1,
        spec_keep_num(full) == keep_num,
        total_desc_len(full) == total,
    ensures
        sum_targets(ts1, full) <= total_desc_len(ts1) * keep_num / (total as int),
        sum_targets(ts1, full) >= 0,
    decreases ts1,
{
    if ts1.len() == 0 {
    } else {
        lemma_sum_targets_le(ts1.drop_last(), full, keep_num, total);
        lemma_total_desc_len_nonneg(ts1.drop_last());
        let a = total_desc_len(ts1.drop_last()) * keep_num;
        let bl = encode_utf8(ts1.last().description).len() as int;
        let b = bl * keep_num;
        assert(a >= 0) by {
            vstd::arithmetic::mul::lemma_mul_nonnegative(
                total_desc_len(ts1.drop_last()),
                keep_num as int,
            );
        }
        assert(b >= 0) by {
            vstd::arithmetic::mul::lemma_mul_nonnegative(bl, keep_num as int);
        }
        assert(total_desc_len(ts1.drop_last()) * keep_num / (total as int) + bl * keep_num / (
        total as int) <= (a + b) / (total as int)) by {
            lemma_div_sum(a, b, total as int);
        }
        assert(a + b == total_desc_len(ts1) * keep_num) by (nonlinear_arith)
            requires
                a == total_desc_len(ts1.drop_last()) * keep_num,
                b == bl * keep_num,
                total_desc_len(ts1) == total_desc_len(ts1.drop_last()) + bl,
        ;
        assert(sum_targets(ts1, full) >= 0) by {
            vstd::arithmetic::div_mod::lemma_div_pos_is_pos(b, total as int);
        }
    }
}

/// Compression convergence in the proportional regime: when the excess is
/// below the total description mass, every description serializes one
/// byte per character, and no tool's proportional share falls below the
/// 50-byte floor, the shrunk list lands at or under the budget.
pub proof fn lemma_compression_proportional(ts: Seq<ToolView>)
    requires
        ts.len() > 0,
        clamp64(tools_size(ts)) > spec_compression_target(),
        spec_compression_target() < tools_size(simplify_tools(ts)) <= u64::MAX,
        1 <= total_desc_len(simplify_tools(ts)) <= u64::MAX,
        spec_excess(simplify_tools(ts)) < total_desc_len(simplify_tools(ts)),
        forall|i: int|
            0 <= i < ts.len() ==> plain_chars(
                #[trigger] simplify_tools(ts)[i].description,
            ),
        forall|i: int|
            0 <= i < ts.len() ==> spec_shrink_target(
                #[trigger] simplify_tools(ts)[i],
                simplify_tools(ts),
            ) >= 50,
    ensures
        tools_size(spec_compress(ts).0) <= spec_compression_target(),
{
    let ts1 = simplify_tools(ts);
    let total_int = total_desc_len(ts1);
    let excess_int = spec_excess(ts1);
    let total: u64 = total_int as u64;
    let keep_num: u64 = (total_int - excess_int) as u64;
    assert(clamp64(tools_size(ts1)) == tools_size(ts1));
    assert(clamp64(total_desc_len(ts1)) == total);
    assert(excess_int >= 1);
    assert(keep_num <= total);
    assert(spec_keep_num(ts1) == keep_num);
    let out = shrink_tools(ts1, keep_num, total);
    assert(spec_compress(ts).0 == out);
    lemma_shrink_items_len(ts1, ts1, keep_num, total);
    lemma_sum_targets_le(ts1, ts1, keep_num, total);
    assert(total_int * keep_num / (total as int) == keep_num) by {
        vstd::arithmetic::div_mod::lemma_div_multiples_vanish(keep_num as int, total as int);
        assert(total_int * keep_num == keep_num * total_int) by (nonlinear_arith);
    }
    assert(tools_items_len(out) <= tools_items_len(ts1) - excess_int);
}

/// A deep copy of a value vector, shape-preserving.
fn clone_json_vec(elems: &Vec<JsonValue>) -> (r: Vec<JsonValue>)
    ensures
        jview_seq(r@) == jview_seq(elems@),
{
    let n = elems.len();
    let mut out: Vec<JsonValue> = Vec::new();
    let mut i: usize = 0;
    proof {
        crate::json::lemma_jview_seq_len(elems@);
        assert(jview_seq(out@) =~= jview_seq(elems@).take(0));
    }
    while i < n
        invariant
            n == elems@.len(),
            jview_seq(elems@).len() == n,
            forall|m: int| 0 <= m < n ==> jview_seq(elems@)[m] == jview(elems@[m]),
            i <= n,
            jview_seq(out@) == jview_seq(elems@).take(i as int),
        decreases n - i,
    {
        let c = clone_json(&elems[i]);
        proof {
            let s = jview_seq(elems@);
            assert(s.take(i + 1).drop_last() =~= s.take(i as int));
            assert(s.take(i + 1).last() == s[i as int]);
            assert(out@.push(c).drop_last() =~= out@);
        }
        out.push(c);
        proof {
            assert(jview_seq(out@) =~= jview_seq(elems@).take(i + 1));
        }
        i = i + 1;
    }
    proof {
        assert(jview_seq(elems@).take(n as int) =~= jview_seq(elems@));
    }
    out
}

} // verus!
