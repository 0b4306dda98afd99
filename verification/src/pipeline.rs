//! Reading and surgically editing the pipeline JSONC files.
//!
//! The node files are read with a reader that tolerates comments and trailing
//! commas; strict JSON readers do not. Rather than reformatting a hand-tuned
//! file (which destroys diffs), comments and trailing commas are blanked with
//! spaces so every byte offset stays valid, and edits are applied at those
//! offsets: changing one number changes one line.

use vstd::prelude::*;
use vstd::utf8::*;
use crate::diff::{grouped_ops, hunks_of, render_unified};
use crate::json::{
    json_member, json_model, json_text, json_to_text, json_view, parse_json_model, strict_json_accepts, take_member, Json,
    JsonView,
};
use crate::jsonc::{
    blank_bytes, blanked, blanked_text, is_space_byte, next_non_space, space_byte,
    COMMA, NEWLINE, QUOTE, SPACE, TAB,
};
use crate::scan::{
    lemma_document_ok, lookup, path_view, same_path, scan_document, scan_document_exec, spans_ok,
    ScanError, SpanRec, SpanTable, Spans, Tables,
};
use crate::text::string_from_utf8;

pub use crate::jsonc::blank_jsonc;

verus! {

/// Why reading or patching a pipeline document failed.
#[derive(Debug, Clone)]
pub enum PipelineError {
    /// The scanner stopped at a malformed spot.
    Scan(ScanError),
    /// The strict JSON reader refused the (blanked) document, or a value
    /// could not be written as JSON.
    Json,
    /// The bytes are not UTF-8.
    Utf8,
    /// An edit names a node the document does not have.
    UnknownNode(String),
    /// An edit's byte range no longer fits the text the later edits left.
    Overlap,
}

/// `PipelineError` over mathematical values.
pub enum PipelineFault {
    Scan(ScanError),
    Json,
    Utf8,
    UnknownNode(Seq<char>),
    Overlap,
}

impl View for PipelineError {
    type V = PipelineFault;

    open spec fn view(&self) -> PipelineFault {
        match self {
            PipelineError::Scan(x) => PipelineFault::Scan(*x),
            PipelineError::Json => PipelineFault::Json,
            PipelineError::Utf8 => PipelineFault::Utf8,
            PipelineError::UnknownNode(n) => PipelineFault::UnknownNode(n@),
            PipelineError::Overlap => PipelineFault::Overlap,
        }
    }
}

impl PipelineError {
    /// The message shown to the user.
    pub fn message(&self) -> (m: String)
        ensures
            self matches PipelineError::UnknownNode(n) ==> m@ == "未知节点: "@ + n@,
            self matches PipelineError::Scan(ScanError::UnclosedString) ==> m@ == "未闭合的字符串"@,
            self matches PipelineError::Scan(ScanError::UnexpectedEnd) ==> m@ == "文档意外结束"@,
            self matches PipelineError::Scan(ScanError::ExpectedObjectEnd) ==> m@ == "期望 ',' 或 '}'"@,
            self matches PipelineError::Scan(ScanError::ExpectedArrayEnd) ==> m@ == "期望 ',' 或 ']'"@,
            self matches PipelineError::Scan(ScanError::BadUtf8) ==> m@ == "无效的 UTF-8"@,
            self matches PipelineError::Scan(ScanError::BadJson) ==> m@ == "JSON 解析失败"@,
            self matches PipelineError::Json ==> m@ == "JSON 解析失败"@,
            self matches PipelineError::Utf8 ==> m@ == "无效的 UTF-8"@,
            self matches PipelineError::Overlap ==> m@ == "编辑区间重叠"@,
    {
        match self {
            PipelineError::Scan(ScanError::UnclosedString) => "未闭合的字符串".to_string(),
            PipelineError::Scan(ScanError::UnexpectedEnd) => "文档意外结束".to_string(),
            PipelineError::Scan(ScanError::ExpectedObjectEnd) => "期望 ',' 或 '}'".to_string(),
            PipelineError::Scan(ScanError::ExpectedArrayEnd) => "期望 ',' 或 ']'".to_string(),
            PipelineError::Scan(ScanError::BadUtf8) => "无效的 UTF-8".to_string(),
            PipelineError::Scan(ScanError::BadJson) => "JSON 解析失败".to_string(),
            PipelineError::Json => "JSON 解析失败".to_string(),
            PipelineError::Utf8 => "无效的 UTF-8".to_string(),
            PipelineError::UnknownNode(n) => "未知节点: ".to_string().concat(n.as_str()),
            PipelineError::Overlap => "编辑区间重叠".to_string(),
        }
    }
}

/// One change to a node's field: the field gets `value`.
///
/// The value is kept as serde_json writes it, and, for an array, as the
/// items serde_json writes one by one.
#[derive(Debug, Clone)]
pub struct Edit {
    pub node: String,
    pub field: String,
    /// The value written as compact JSON (`None` when it cannot be written).
    pub value_json: Option<String>,
    /// For an array value, each item written as compact JSON.
    pub value_items: Option<Vec<String>>,
}

/// `Edit` over mathematical values.
pub struct EditView {
    pub node: Seq<char>,
    pub field: Seq<char>,
    pub json: Option<Seq<char>>,
    pub items: Option<Seq<Seq<char>>>,
}

impl View for Edit {
    type V = EditView;

    open spec fn view(&self) -> EditView {
        EditView {
            node: self.node@,
            field: self.field@,
            json: match self.value_json {
                Some(j) => Some(j@),
                None => None,
            },
            items: match self.value_items {
                Some(v) => Some(v@.map_values(|s: String| s@)),
                None => None,
            },
        }
    }
}

impl Edit {
    /// The edit that gives the node's field `value`, written as serde_json
    /// writes it, and for an array each item too.
    pub fn new(node: String, field: String, value: Json) -> (e: Edit)
        ensures
            e.node@ == node@,
            e.field@ == field@,
            e@.json == Some(json_text(value@)),
            e@.items == match value@ {
                JsonView::Array(items) => Some(items.map_values(|i: JsonView| json_text(i))),
                _ => None::<Seq<Seq<char>>>,
            },
    {
        let value_items = match &value {
            Json::Array(items) => {
                let ghost iv = value@->Array_0;
                let mut rendered: Vec<String> = Vec::new();
                let mut i: usize = 0;
                while i < items.len()
                    invariant
                        i <= items@.len(),
                        value == Json::Array(*items),
                        iv == value@->Array_0,
                        iv.len() == items@.len(),
                        rendered@.map_values(|s: String| s@) == iv.subrange(0, i as int).map_values(
                            |j: JsonView| json_text(j),
                        ),
                    decreases items@.len() - i,
                {
                    let ghost before = rendered@.map_values(|s: String| s@);
                    let t = json_to_text(&items[i]);
                    rendered.push(t);
                    proof {
                        assert(iv[i as int] == json_view(items@[i as int]));
                        assert(t@ == json_text(iv[i as int]));
                        assert(rendered@.map_values(|s: String| s@) =~= before.push(t@));
                        assert(iv.subrange(0, i + 1) =~= iv.subrange(0, i as int).push(iv[i as int]));
                        assert(rendered@.map_values(|s: String| s@) =~= iv.subrange(0, i + 1).map_values(
                            |j: JsonView| json_text(j),
                        ));
                    }
                    i = i + 1;
                }
                proof {
                    assert(iv.subrange(0, items@.len() as int) =~= iv);
                }
                Some(rendered)
            },
            _ => None,
        };
        let json = json_to_text(&value);
        Edit { node, field, value_json: Some(json), value_items }
    }
}

/// A planned replacement of the bytes `start..end` by `bytes`.
pub type Replacement = (int, int, Seq<u8>);

/// Start of the line that holds `offset`.
pub open spec fn line_start(t: Seq<u8>, k: int) -> int
    decreases k,
{
    if k <= 0 {
        0
    } else if t[k - 1] == NEWLINE {
        k
    } else {
        line_start(t, k - 1)
    }
}

/// End of the run of spaces and tabs from `k`, stopping at `limit`.
pub open spec fn blank_run_end(t: Seq<u8>, k: int, limit: int) -> int
    decreases limit - k,
{
    if k >= limit || !(t[k] == SPACE || t[k] == TAB) {
        k
    } else {
        blank_run_end(t, k + 1, limit)
    }
}

/// The spaces and tabs that open the line holding `offset`, up to `offset`.
pub open spec fn indent_of(t: Seq<u8>, offset: int) -> Seq<u8> {
    let s = line_start(t, offset);
    t.subrange(s, blank_run_end(t, s, offset))
}

pub open spec fn four_spaces() -> Seq<u8> {
    seq![SPACE, SPACE, SPACE, SPACE]
}

/// One item line of a multi-line list.
pub open spec fn list_line(item: Seq<char>, indent: Seq<u8>) -> Seq<u8> {
    indent + four_spaces() + encode_utf8(item) + seq![COMMA, NEWLINE]
}

pub open spec fn list_lines(items: Seq<Seq<char>>, indent: Seq<u8>) -> Seq<u8>
    decreases items.len(),
{
    if items.len() == 0 {
        Seq::empty()
    } else {
        list_lines(items.drop_last(), indent) + list_line(items.last(), indent)
    }
}

/// A list laid out one item per line, closed at `indent`.
pub open spec fn multiline(items: Seq<Seq<char>>, indent: Seq<u8>) -> Seq<u8> {
    seq![0x5bu8, NEWLINE] + list_lines(items, indent) + indent + seq![0x5du8]
}

/// New text for an existing value: a list keeps a multi-line layout when it
/// had one, anything else is written compactly.
pub open spec fn render_value(e: EditView, was_multiline: bool, indent: Seq<u8>) -> Result<
    Seq<u8>,
    PipelineFault,
> {
    if e.items is Some && was_multiline {
        Ok(multiline(e.items->0, indent))
    } else {
        match e.json {
            Some(j) => Ok(encode_utf8(j)),
            None => Err(PipelineFault::Json),
        }
    }
}

pub open spec fn is_field_of(p: Seq<Seq<char>>, node: Seq<char>) -> bool {
    p.len() == 2 && p[0] == node
}

/// Largest value end among the node's fields.
pub open spec fn max_value_end(k: Seq<SpanRec>, v: Seq<SpanRec>, node: Seq<char>) -> Option<int>
    decreases k.len(),
{
    if k.len() == 0 {
        None
    } else {
        let r = max_value_end(k.drop_last(), v, node);
        if is_field_of(k.last().0, node) && lookup(v, k.last().0) is Some {
            let found = lookup(v, k.last().0)->0;
            let ve = found.1;
            match r {
                Some(m) => Some(if m >= ve { m } else { ve }),
                None => Some(ve),
            }
        } else {
            r
        }
    }
}

/// Smallest key start among the node's fields.
pub open spec fn min_key_start(k: Seq<SpanRec>, node: Seq<char>) -> Option<int>
    decreases k.len(),
{
    if k.len() == 0 {
        None
    } else {
        let r = min_key_start(k.drop_last(), node);
        if is_field_of(k.last().0, node) {
            let ks = k.last().1;
            match r {
                Some(m) => Some(if m <= ks { m } else { ks }),
                None => Some(ks),
            }
        } else {
            r
        }
    }
}

pub open spec fn quoted_field(field: Seq<char>, json: Seq<char>) -> Seq<u8> {
    seq![QUOTE] + encode_utf8(field) + seq![QUOTE, 0x3au8, SPACE] + encode_utf8(json)
}

/// Text for a field the node does not have yet, matching the file's style:
/// on its own line after the node's last value, indented like the node's
/// first key, with a separating comma unless one already follows.
pub open spec fn render_insert(t: Seq<u8>, tb: Tables, e: EditView) -> Result<Seq<u8>, PipelineFault> {
    match e.json {
        None => Err(PipelineFault::Json),
        Some(j) => match max_value_end(tb.0, tb.1, e.node) {
            None => Ok(quoted_field(e.field, j)),
            Some(end) => {
                let anchor = match min_key_start(tb.0, e.node) {
                    Some(m) => m,
                    None => end,
                };
                let probe = next_non_space(t, end);
                let prefix: Seq<u8> = if probe < t.len() && t[probe] == COMMA {
                    Seq::empty()
                } else {
                    seq![COMMA]
                };
                Ok(prefix + seq![NEWLINE] + indent_of(t, anchor) + quoted_field(e.field, j))
            },
        },
    }
}

/// Where and what to write for one edit.
pub open spec fn plan_edit(t: Seq<u8>, tb: Tables, e: EditView) -> Result<Replacement, PipelineFault> {
    let fp = seq![e.node, e.field];
    match lookup(tb.1, fp) {
        Some((s, en)) => {
            let anchor = match lookup(tb.0, fp) {
                Some((ks, _)) => ks,
                None => s,
            };
            match render_value(e, t.subrange(s, en).contains(NEWLINE), indent_of(t, anchor)) {
                Ok(r) => Ok((s, en, r)),
                Err(x) => Err(x),
            }
        },
        None => match lookup(tb.1, seq![e.node]) {
            None => Err(PipelineFault::UnknownNode(e.node)),
            Some((_, ne)) => match render_insert(t, tb, e) {
                Ok(r) => Ok((ne - 1, ne - 1, r)),
                Err(x) => Err(x),
            },
        },
    }
}

/// Plans for all edits, in order; the first edit that cannot be planned stops.
pub open spec fn plan_edits(t: Seq<u8>, tb: Tables, edits: Seq<EditView>) -> Result<
    Seq<Replacement>,
    PipelineFault,
>
    decreases edits.len(),
{
    if edits.len() == 0 {
        Ok(Seq::empty())
    } else {
        match plan_edits(t, tb, edits.drop_last()) {
            Err(x) => Err(x),
            Ok(rs) => match plan_edit(t, tb, edits.last()) {
                Err(x) => Err(x),
                Ok(r) => Ok(rs.push(r)),
            },
        }
    }
}

/// Index of the replacement that starts first among the first `j` ones
/// (the earliest listed among equal starts).
pub open spec fn first_start_index(rs: Seq<Replacement>, j: int) -> int
    decreases j,
{
    if j <= 1 {
        0
    } else {
        let m = first_start_index(rs, j - 1);
        if rs[j - 1].0 < rs[m].0 {
            j - 1
        } else {
            m
        }
    }
}

pub proof fn lemma_first_start_index(rs: Seq<Replacement>, j: int)
    requires
        1 <= j <= rs.len(),
    ensures
        0 <= first_start_index(rs, j) < j,
    decreases j,
{
    if j > 1 {
        lemma_first_start_index(rs, j - 1);
    }
}

/// The replacements ordered by start offset; equal starts keep the order
/// in which they were listed.
pub open spec fn order_by_start(rs: Seq<Replacement>) -> Seq<Replacement>
    decreases rs.len(),
{
    if rs.len() == 0 {
        Seq::empty()
    } else {
        proof {
            lemma_first_start_index(rs, rs.len() as int);
        }
        let m = first_start_index(rs, rs.len() as int);
        seq![rs[m]] + order_by_start(rs.remove(m))
    }
}

/// The document bytes from `pos` on, with each replacement's range (in the
/// document's offsets, taken in order) swapped for its bytes; `None` when a
/// range starts before the previous one ends or lies outside the bytes.
pub open spec fn assemble(b: Seq<u8>, rs: Seq<Replacement>, pos: int) -> Option<Seq<u8>>
    decreases rs.len(),
{
    if rs.len() == 0 {
        if 0 <= pos <= b.len() {
            Some(b.subrange(pos, b.len() as int))
        } else {
            None
        }
    } else {
        let r = rs[0];
        if 0 <= pos <= r.0 <= r.1 <= b.len() {
            match assemble(b, rs.drop_first(), r.1) {
                Some(rest) => Some(b.subrange(pos, r.0) + r.2 + rest),
                None => None,
            }
        } else {
            None
        }
    }
}

/// Every replacement applied to the document bytes at its own offsets,
/// whatever order the edits came in; `None` when two ranges overlap.
pub open spec fn apply_replacements(b: Seq<u8>, rs: Seq<Replacement>) -> Option<Seq<u8>> {
    assemble(b, order_by_start(rs), 0)
}

/// Bytes of a text.
pub open spec fn bytes_of(text: Seq<char>) -> Seq<u8> {
    encode_utf8(text)
}

/// The tables of a text, scanned on its blanked bytes.
pub open spec fn doc_tables(text: Seq<char>) -> Result<(int, Tables), ScanError> {
    scan_document(blanked(bytes_of(text)))
}

/// The patched text, or why there is none.
pub open spec fn patched_text(text: Seq<char>, edits: Seq<EditView>) -> Result<Seq<char>, PipelineFault> {
    match doc_tables(text) {
        Err(x) => Err(PipelineFault::Scan(x)),
        Ok((_, tb)) => match plan_edits(bytes_of(text), tb, edits) {
            Err(x) => Err(x),
            Ok(rs) => match apply_replacements(bytes_of(text), rs) {
                None => Err(PipelineFault::Overlap),
                Some(out) => if !valid_utf8(out) {
                    Err(PipelineFault::Utf8)
                } else if !strict_json_accepts(blanked_text(decode_utf8(out))) {
                    Err(PipelineFault::Json)
                } else {
                    Ok(decode_utf8(out))
                },
            },
        },
    }
}

/// Names of the top-level keys, in the order of the key records.
pub open spec fn top_level_names(k: Seq<SpanRec>) -> Seq<Seq<char>>
    decreases k.len(),
{
    if k.len() == 0 {
        Seq::empty()
    } else if k.last().0.len() == 1 {
        top_level_names(k.drop_last()).push(k.last().0[0])
    } else {
        top_level_names(k.drop_last())
    }
}

/// Parse a JSONC text: blank it, then read it strictly.
pub fn load(text: &str) -> (r: Result<Json, PipelineError>)
    ensures
        match r {
            Ok(v) => json_model(blanked_text(text@)) == Some(v@),
            Err(e) => json_model(blanked_text(text@)) is None && e@ == PipelineFault::Json,
        },
{
    let blanked = blank_jsonc(text);
    match parse_json_model(blanked.as_str()) {
        Some(v) => Ok(v),
        None => Err(PipelineError::Json),
    }
}

fn append(out: &mut Vec<u8>, b: &[u8])
    ensures
        final(out)@ == old(out)@ + b@,
{
    let mut i: usize = 0;
    while i < b.len()
        invariant
            i <= b@.len(),
            out@ == old(out)@ + b@.subrange(0, i as int),
        decreases b@.len() - i,
    {
        out.push(b[i]);
        i = i + 1;
        proof {
            assert(b@.subrange(0, i as int) =~= b@.subrange(0, i - 1).push(b@[i - 1]));
        }
    }
    proof {
        assert(b@.subrange(0, b@.len() as int) =~= b@);
    }
}

fn line_indent(t: &[u8], offset: usize) -> (r: Vec<u8>)
    requires
        offset <= t@.len(),
    ensures
        r@ == indent_of(t@, offset as int),
{
    let mut s = offset;
    while s > 0 && t[s - 1] != NEWLINE
        invariant
            s <= offset <= t@.len(),
            line_start(t@, s as int) == line_start(t@, offset as int),
        decreases s,
    {
        s = s - 1;
    }
    let mut e = s;
    while e < offset && (t[e] == SPACE || t[e] == TAB)
        invariant
            s <= e <= offset <= t@.len(),
            blank_run_end(t@, e as int, offset as int) == blank_run_end(t@, s as int, offset as int),
        decreases offset - e,
    {
        e = e + 1;
    }
    let mut r: Vec<u8> = Vec::new();
    append(&mut r, &t[s..e]);
    r
}

fn render_multiline(items: &Vec<String>, indent: &Vec<u8>) -> (r: Vec<u8>)
    ensures
        r@ == multiline(items@.map_values(|s: String| s@), indent@),
{
    let ghost iv = items@.map_values(|s: String| s@);
    let mut out: Vec<u8> = Vec::new();
    out.push(0x5b);
    out.push(NEWLINE);
    let mut i: usize = 0;
    while i < items.len()
        invariant
            i <= items@.len(),
            iv == items@.map_values(|s: String| s@),
            out@ == seq![0x5bu8, NEWLINE] + list_lines(iv.subrange(0, i as int), indent@),
        decreases items@.len() - i,
    {
        append(&mut out, indent.as_slice());
        append(&mut out, &[SPACE, SPACE, SPACE, SPACE]);
        append(&mut out, items[i].as_str().as_bytes());
        out.push(COMMA);
        out.push(NEWLINE);
        proof {
            assert(iv.subrange(0, i + 1).drop_last() =~= iv.subrange(0, i as int));
            assert(iv.subrange(0, i + 1).last() == items@[i as int]@);
            assert(out@ =~= seq![0x5bu8, NEWLINE] + list_lines(iv.subrange(0, i + 1), indent@));
        }
        i = i + 1;
    }
    append(&mut out, indent.as_slice());
    out.push(0x5d);
    proof {
        assert(iv.subrange(0, items@.len() as int) =~= iv);
        assert(out@ =~= multiline(iv, indent@));
    }
    out
}

fn is_field_exec(p: &Vec<String>, node: &String) -> (r: bool)
    ensures
        r == is_field_of(path_view(p@), node@),
{
    p.len() == 2 && p[0] == *node
}

/// Largest value end and smallest key start among the node's fields.
fn field_extent(spans: &Spans, node: &String) -> (r: (Option<usize>, Option<usize>))
    ensures
        match r.0 {
            Some(m) => max_value_end(spans@.0, spans@.1, node@) == Some(m as int),
            None => max_value_end(spans@.0, spans@.1, node@) is None,
        },
        match r.1 {
            Some(m) => min_key_start(spans@.0, node@) == Some(m as int),
            None => min_key_start(spans@.0, node@) is None,
        },
{
    let keys = &spans.keys.entries;
    let ghost kv = spans@.0;
    let mut last_end: Option<usize> = None;
    let mut first_start: Option<usize> = None;
    let mut i: usize = 0;
    while i < keys.len()
        invariant
            i <= keys@.len(),
            kv == spans@.0,
            kv == keys@.map_values(|e: crate::scan::SpanEntry| e@),
            match last_end {
                Some(m) => max_value_end(kv.subrange(0, i as int), spans@.1, node@) == Some(m as int),
                None => max_value_end(kv.subrange(0, i as int), spans@.1, node@) is None,
            },
            match first_start {
                Some(m) => min_key_start(kv.subrange(0, i as int), node@) == Some(m as int),
                None => min_key_start(kv.subrange(0, i as int), node@) is None,
            },
        decreases keys@.len() - i,
    {
        let entry = &keys[i];
        proof {
            assert(kv.subrange(0, i + 1).drop_last() =~= kv.subrange(0, i as int));
            assert(kv.subrange(0, i + 1).last() == entry@);
        }
        if is_field_exec(&entry.path, node) {
            match spans.values.get(&entry.path) {
                Some((_, ve)) => {
                    last_end = match last_end {
                        Some(m) => Some(if m >= ve { m } else { ve }),
                        None => Some(ve),
                    };
                },
                None => {},
            }
            first_start = match first_start {
                Some(m) => Some(if m <= entry.start { m } else { entry.start }),
                None => Some(entry.start),
            };
        }
        i = i + 1;
    }
    proof {
        assert(kv.subrange(0, keys@.len() as int) =~= kv);
    }
    (last_end, first_start)
}

fn skip_space_exec(t: &[u8], k0: usize) -> (e: usize)
    requires
        k0 <= t@.len(),
    ensures
        e == next_non_space(t@, k0 as int),
{
    let mut k = k0;
    while k < t.len() && space_byte(t[k])
        invariant
            k0 <= k <= t@.len(),
            next_non_space(t@, k as int) == next_non_space(t@, k0 as int),
        decreases t@.len() - k,
    {
        k = k + 1;
    }
    k
}

fn quoted_field_exec(out: &mut Vec<u8>, field: &String, json: &String)
    ensures
        final(out)@ == old(out)@ + quoted_field(field@, json@),
{
    out.push(QUOTE);
    append(out, field.as_str().as_bytes());
    out.push(QUOTE);
    out.push(0x3a);
    out.push(SPACE);
    append(out, json.as_str().as_bytes());
    proof {
        assert(final(out)@ =~= old(out)@ + quoted_field(field@, json@));
    }
}

fn insert_text(t: &[u8], spans: &Spans, edit: &Edit) -> (r: Result<Vec<u8>, PipelineError>)
    requires
        spans_ok(spans@, t@.len() as int, t@.len() as int),
    ensures
        match r {
            Ok(b) => render_insert(t@, spans@, edit@) == Ok::<Seq<u8>, PipelineFault>(b@),
            Err(x) => render_insert(t@, spans@, edit@) == Err::<Seq<u8>, PipelineFault>(x@),
        },
{
    let json = match &edit.value_json {
        Some(j) => j,
        None => {
            return Err(PipelineError::Json);
        },
    };
    let (last_end, first_start) = field_extent(spans, &edit.node);
    let mut out: Vec<u8> = Vec::new();
    match last_end {
        None => {
            quoted_field_exec(&mut out, &edit.field, json);
        },
        Some(end) => {
            proof {
                lemma_max_value_end_bound(spans@.0, spans@.1, edit.node@, t@.len() as int);
                lemma_min_key_start_bound(spans@.0, edit.node@, t@.len() as int);
            }
            let anchor = match first_start {
                Some(m) => m,
                None => end,
            };
            let probe = skip_space_exec(t, end);
            if !(probe < t.len() && t[probe] == COMMA) {
                out.push(COMMA);
            }
            out.push(NEWLINE);
            let indent = line_indent(t, anchor);
            append(&mut out, indent.as_slice());
            quoted_field_exec(&mut out, &edit.field, json);
        },
    }
    proof {
        assert(out@ =~= render_insert(t@, spans@, edit@)->Ok_0);
    }
    Ok(out)
}

pub proof fn lemma_lookup_member(t: Seq<SpanRec>, path: Seq<Seq<char>>)
    ensures
        lookup(t, path) matches Some((s, e)) ==> t.contains((path, s, e)),
    decreases t.len(),
{
    if t.len() > 0 && t.last().0 != path {
        lemma_lookup_member(t.drop_last(), path);
        if let Some((s, e)) = lookup(t.drop_last(), path) {
            let k = choose|k: int| 0 <= k < t.drop_last().len() && t.drop_last()[k] == (path, s, e);
            assert(t[k] == (path, s, e));
        }
    } else if t.len() > 0 {
        assert(t[t.len() - 1] == t.last());
    }
}

proof fn lemma_max_value_end_bound(k: Seq<SpanRec>, v: Seq<SpanRec>, node: Seq<char>, n: int)
    requires
        forall|a: int| 0 <= a < v.len() ==> 0 <= (#[trigger] v[a]).1 <= v[a].2 <= n,
    ensures
        max_value_end(k, v, node) matches Some(m) ==> 0 <= m <= n,
    decreases k.len(),
{
    if k.len() > 0 {
        lemma_max_value_end_bound(k.drop_last(), v, node, n);
        lemma_lookup_member(v, k.last().0);
        if let Some((s, e)) = lookup(v, k.last().0) {
            let a = choose|a: int| 0 <= a < v.len() && v[a] == (k.last().0, s, e);
        }
    }
}

proof fn lemma_min_key_start_bound(k: Seq<SpanRec>, node: Seq<char>, n: int)
    requires
        forall|a: int| 0 <= a < k.len() ==> 0 <= (#[trigger] k[a]).1 <= n,
    ensures
        min_key_start(k, node) matches Some(m) ==> 0 <= m <= n,
    decreases k.len(),
{
    if k.len() > 0 {
        assert(k[k.len() - 1] == k.last());
        assert forall|a: int| 0 <= a < k.drop_last().len() implies 0 <= (#[trigger] k.drop_last()[a]).1
            <= n by {
            assert(k.drop_last()[a] == k[a]);
        }
        lemma_min_key_start_bound(k.drop_last(), node, n);
    }
}

/// The key record at `a` is a field of the node and has a recorded value.
pub open spec fn has_value(k: Seq<SpanRec>, v: Seq<SpanRec>, node: Seq<char>, a: int) -> bool {
    0 <= a < k.len() && is_field_of(k[a].0, node) && lookup(v, k[a].0) is Some
}

/// Where the value of the field recorded at `a` ends.
pub open spec fn value_end_of(k: Seq<SpanRec>, v: Seq<SpanRec>, a: int) -> int {
    match lookup(v, k[a].0) {
        Some(p) => p.1,
        None => 0,
    }
}

/// `m` is the greatest value end among the node's fields, and one of them
/// ends there.
pub open spec fn greatest_field_end(k: Seq<SpanRec>, v: Seq<SpanRec>, node: Seq<char>, m: int) -> bool {
    &&& exists|a: int| #[trigger] has_value(k, v, node, a) && value_end_of(k, v, a) == m
    &&& forall|a: int| #[trigger] has_value(k, v, node, a) ==> value_end_of(k, v, a) <= m
}

/// The key record at `a` is a field of the node.
pub open spec fn has_key(k: Seq<SpanRec>, node: Seq<char>, a: int) -> bool {
    0 <= a < k.len() && is_field_of(k[a].0, node)
}

/// `s` is the smallest key start among the node's fields, and one of them
/// starts there.
pub open spec fn least_key_start(k: Seq<SpanRec>, node: Seq<char>, s: int) -> bool {
    &&& exists|a: int| #[trigger] has_key(k, node, a) && k[a].1 == s
    &&& forall|a: int| #[trigger] has_key(k, node, a) ==> s <= k[a].1
}

/// `max_value_end` is the greatest value end among the node's fields, and
/// `None` exactly when no field has a value.
pub proof fn lemma_max_value_end_is_greatest(k: Seq<SpanRec>, v: Seq<SpanRec>, node: Seq<char>)
    ensures
        match max_value_end(k, v, node) {
            Some(m) => greatest_field_end(k, v, node, m),
            None => forall|a: int| !#[trigger] has_value(k, v, node, a),
        },
    decreases k.len(),
{
    if k.len() > 0 {
        let k2 = k.drop_last();
        let l = k.len() - 1;
        lemma_max_value_end_is_greatest(k2, v, node);
        assert forall|a: int| 0 <= a < l implies #[trigger] has_value(k, v, node, a) == has_value(k2, v, node, a)
            && value_end_of(k, v, a) == value_end_of(k2, v, a) by {
            assert(k[a] == k2[a]);
        }
        assert(k[l] == k.last());
        if has_value(k, v, node, l) {
            let ve = value_end_of(k, v, l);
            match max_value_end(k2, v, node) {
                Some(m2) => {
                    let a2 = choose|a: int| #[trigger] has_value(k2, v, node, a) && value_end_of(k2, v, a) == m2;
                    assert(has_value(k, v, node, a2));
                    let m = if m2 >= ve { m2 } else { ve };
                    assert(max_value_end(k, v, node) == Some(m));
                    assert forall|a: int| #[trigger] has_value(k, v, node, a) implies value_end_of(k, v, a) <= m by {
                        if a < l {
                            assert(has_value(k2, v, node, a));
                        }
                    }
                    if m2 >= ve {
                        assert(has_value(k, v, node, a2) && value_end_of(k, v, a2) == m);
                    } else {
                        assert(has_value(k, v, node, l) && value_end_of(k, v, l) == m);
                    }
                },
                None => {
                    assert(max_value_end(k, v, node) == Some(ve));
                    assert forall|a: int| #[trigger] has_value(k, v, node, a) implies value_end_of(k, v, a) <= ve by {
                        if a < l {
                            assert(!has_value(k2, v, node, a));
                        }
                    }
                    assert(has_value(k, v, node, l) && value_end_of(k, v, l) == ve);
                },
            }
        } else {
            assert(max_value_end(k, v, node) == max_value_end(k2, v, node));
            match max_value_end(k2, v, node) {
                Some(m2) => {
                    let a2 = choose|a: int| #[trigger] has_value(k2, v, node, a) && value_end_of(k2, v, a) == m2;
                    assert(has_value(k, v, node, a2) && value_end_of(k, v, a2) == m2);
                    assert forall|a: int| #[trigger] has_value(k, v, node, a) implies value_end_of(k, v, a) <= m2 by {
                        assert(a < l);
                        assert(has_value(k2, v, node, a));
                    }
                },
                None => {
                    assert forall|a: int| !#[trigger] has_value(k, v, node, a) by {
                        if 0 <= a < l {
                            assert(!has_value(k2, v, node, a));
                        }
                    }
                },
            }
        }
    }
}

/// `min_key_start` is the smallest key start among the node's fields, and
/// `None` exactly when the node has no field.
pub proof fn lemma_min_key_start_is_least(k: Seq<SpanRec>, node: Seq<char>)
    ensures
        match min_key_start(k, node) {
            Some(s) => least_key_start(k, node, s),
            None => forall|a: int| !#[trigger] has_key(k, node, a),
        },
    decreases k.len(),
{
    if k.len() > 0 {
        let k2 = k.drop_last();
        let l = k.len() - 1;
        lemma_min_key_start_is_least(k2, node);
        assert forall|a: int| 0 <= a < l implies #[trigger] has_key(k, node, a) == has_key(k2, node, a) && k[a]
            == k2[a] by {
            assert(k[a] == k2[a]);
        }
        assert(k[l] == k.last());
        if has_key(k, node, l) {
            let ks = k[l].1;
            match min_key_start(k2, node) {
                Some(m2) => {
                    let a2 = choose|a: int| #[trigger] has_key(k2, node, a) && k2[a].1 == m2;
                    assert(has_key(k, node, a2));
                    let m = if m2 <= ks { m2 } else { ks };
                    assert(min_key_start(k, node) == Some(m));
                    assert forall|a: int| #[trigger] has_key(k, node, a) implies m <= k[a].1 by {
                        if a < l {
                            assert(has_key(k2, node, a));
                        }
                    }
                    if m2 <= ks {
                        assert(has_key(k, node, a2) && k[a2].1 == m);
                    } else {
                        assert(has_key(k, node, l) && k[l].1 == m);
                    }
                },
                None => {
                    assert(min_key_start(k, node) == Some(ks));
                    assert forall|a: int| #[trigger] has_key(k, node, a) implies ks <= k[a].1 by {
                        if a < l {
                            assert(!has_key(k2, node, a));
                        }
                    }
                    assert(has_key(k, node, l) && k[l].1 == ks);
                },
            }
        } else {
            assert(min_key_start(k, node) == min_key_start(k2, node));
            match min_key_start(k2, node) {
                Some(m2) => {
                    let a2 = choose|a: int| #[trigger] has_key(k2, node, a) && k2[a].1 == m2;
                    assert(has_key(k, node, a2) && k[a2].1 == m2);
                    assert forall|a: int| #[trigger] has_key(k, node, a) implies m2 <= k[a].1 by {
                        assert(a < l);
                        assert(has_key(k2, node, a));
                    }
                },
                None => {
                    assert forall|a: int| !#[trigger] has_key(k, node, a) by {
                        if 0 <= a < l {
                            assert(!has_key(k2, node, a));
                        }
                    }
                },
            }
        }
    }
}

/// A field the node lacks goes on a line of its own after the greatest
/// value end among the node's fields, indented like the node's first key;
/// a separating comma comes first unless the first non-blank byte after
/// that value is already a comma. A node without field values gets the
/// field alone.
pub proof fn lemma_insert_after_last_value(t: Seq<u8>, tb: Tables, e: EditView)
    ensures
        e.json matches Some(j) ==> {
            &&& (forall|a: int| !#[trigger] has_value(tb.0, tb.1, e.node, a)) ==> render_insert(t, tb, e) == Ok::<
                Seq<u8>,
                PipelineFault,
            >(quoted_field(e.field, j))
            &&& forall|m: int, s: int|
                greatest_field_end(tb.0, tb.1, e.node, m) && least_key_start(tb.0, e.node, s)
                    ==> #[trigger] render_insert_at(t, e, m, s) == render_insert(t, tb, e)
        },
{
    lemma_max_value_end_is_greatest(tb.0, tb.1, e.node);
    lemma_min_key_start_is_least(tb.0, e.node);
    if let Some(j) = e.json {
        assert forall|m: int, s: int|
            greatest_field_end(tb.0, tb.1, e.node, m) && least_key_start(tb.0, e.node, s) implies #[trigger] render_insert_at(
            t,
            e,
            m,
            s,
        ) == render_insert(t, tb, e) by {
            let a = choose|a: int| #[trigger] has_value(tb.0, tb.1, e.node, a) && value_end_of(tb.0, tb.1, a) == m;
            let b = choose|b: int| #[trigger] has_key(tb.0, e.node, b) && tb.0[b].1 == s;
            assert(has_key(tb.0, e.node, a));
            let m0 = max_value_end(tb.0, tb.1, e.node)->0;
            let s0 = min_key_start(tb.0, e.node)->0;
            let a0 = choose|a: int| #[trigger] has_value(tb.0, tb.1, e.node, a) && value_end_of(tb.0, tb.1, a) == m0;
            let b0 = choose|b: int| #[trigger] has_key(tb.0, e.node, b) && tb.0[b].1 == s0;
            assert(m == m0);
            assert(s == s0);
        }
    }
}

/// The text inserted for a field the node lacks, given the greatest value
/// end `m` among its fields and the smallest key start `s`.
pub open spec fn render_insert_at(t: Seq<u8>, e: EditView, m: int, s: int) -> Result<Seq<u8>, PipelineFault> {
    match e.json {
        None => Err(PipelineFault::Json),
        Some(j) => {
            let probe = next_non_space(t, m);
            let sep: Seq<u8> = if probe < t.len() && t[probe] == COMMA {
                Seq::empty()
            } else {
                seq![COMMA]
            };
            Ok(sep + seq![NEWLINE] + indent_of(t, s) + quoted_field(e.field, j))
        },
    }
}

fn contains_newline(b: &[u8]) -> (r: bool)
    ensures
        r == b@.contains(NEWLINE),
{
    let mut i: usize = 0;
    while i < b.len()
        invariant
            i <= b@.len(),
            forall|k: int| 0 <= k < i ==> b@[k] != NEWLINE,
        decreases b@.len() - i,
    {
        if b[i] == NEWLINE {
            proof {
                assert(b@[i as int] == NEWLINE);
            }
            return true;
        }
        i = i + 1;
    }
    false
}

/// A planned replacement.
struct Planned {
    start: usize,
    end: usize,
    bytes: Vec<u8>,
}

impl View for Planned {
    type V = Replacement;

    closed spec fn view(&self) -> Replacement {
        (self.start as int, self.end as int, self.bytes@)
    }
}

fn plan_edit_exec(t: &[u8], spans: &Spans, edit: &Edit) -> (r: Result<Planned, PipelineError>)
    requires
        spans_ok(spans@, t@.len() as int, t@.len() as int),
    ensures
        match r {
            Ok(p) => plan_edit(t@, spans@, edit@) == Ok::<Replacement, PipelineFault>(p@),
            Err(x) => plan_edit(t@, spans@, edit@) == Err::<Replacement, PipelineFault>(x@),
        },
{
    let mut field_path: Vec<String> = Vec::new();
    field_path.push(edit.node.clone());
    field_path.push(edit.field.clone());
    proof {
        assert(path_view(field_path@) =~= seq![edit.node@, edit.field@]);
    }
    match spans.values.get(&field_path) {
        Some((s, en)) => {
            proof {
                lemma_lookup_member(spans@.1, path_view(field_path@));
                let a = choose|a: int|
                    0 <= a < spans@.1.len() && spans@.1[a] == (path_view(field_path@), s as int, en as int);
                lemma_lookup_member(spans@.0, path_view(field_path@));
                if let Some((ks, ke)) = lookup(spans@.0, path_view(field_path@)) {
                    let b = choose|b: int|
                        0 <= b < spans@.0.len() && spans@.0[b] == (path_view(field_path@), ks, ke);
                }
            }
            let anchor = match spans.keys.get(&field_path) {
                Some((ks, _)) => ks,
                None => s,
            };
            let indent = line_indent(t, anchor);
            let was_multiline = contains_newline(&t[s..en]);
            let bytes = match (&edit.value_items, was_multiline) {
                (Some(items), true) => render_multiline(items, &indent),
                _ => match &edit.value_json {
                    Some(j) => {
                        let mut b: Vec<u8> = Vec::new();
                        append(&mut b, j.as_str().as_bytes());
                        b
                    },
                    None => {
                        return Err(PipelineError::Json);
                    },
                },
            };
            Ok(Planned { start: s, end: en, bytes })
        },
        None => {
            let mut node_path: Vec<String> = Vec::new();
            node_path.push(edit.node.clone());
            proof {
                assert(path_view(node_path@) =~= seq![edit.node@]);
            }
            match spans.values.get(&node_path) {
                None => Err(PipelineError::UnknownNode(edit.node.clone())),
                Some((ns, ne)) => {
                    proof {
                        lemma_lookup_member(spans@.1, path_view(node_path@));
                        let a = choose|a: int|
                            0 <= a < spans@.1.len() && spans@.1[a] == (
                                path_view(node_path@),
                                ns as int,
                                ne as int,
                            );
                    }
                    let bytes = insert_text(t, spans, edit)?;
                    Ok(Planned { start: ne - 1, end: ne - 1, bytes })
                },
            }
        },
    }
}

fn order_plans(plans: Vec<Planned>) -> (r: Vec<Planned>)
    ensures
        r@.map_values(|p: Planned| p@) == order_by_start(plans@.map_values(|p: Planned| p@)),
{
    let ghost all = plans@.map_values(|p: Planned| p@);
    let mut rest = plans;
    let mut out: Vec<Planned> = Vec::new();
    while rest.len() > 0
        invariant
            out@.map_values(|p: Planned| p@) + order_by_start(rest@.map_values(|p: Planned| p@)) == order_by_start(all),
        decreases rest@.len(),
    {
        let ghost rv = rest@.map_values(|p: Planned| p@);
        let mut best: usize = 0;
        let mut j: usize = 1;
        while j < rest.len()
            invariant
                1 <= j <= rest@.len(),
                rv == rest@.map_values(|p: Planned| p@),
                best == first_start_index(rv, j as int),
                best < j,
            decreases rest@.len() - j,
        {
            if rest[j].start < rest[best].start {
                best = j;
            }
            j = j + 1;
        }
        proof {
            lemma_first_start_index(rv, rv.len() as int);
        }
        let ghost ov = out@.map_values(|p: Planned| p@);
        let p = rest.remove(best);
        proof {
            assert(rest@.map_values(|p: Planned| p@) =~= rv.remove(best as int));
            assert(order_by_start(rv) == seq![rv[best as int]] + order_by_start(rv.remove(best as int)));
            assert(p@ == rv[best as int]);
        }
        out.push(p);
        proof {
            assert(out@.map_values(|p: Planned| p@) =~= ov.push(rv[best as int]));
            assert(ov.push(rv[best as int]) + order_by_start(rv.remove(best as int)) =~= ov + (seq![
                rv[best as int],
            ] + order_by_start(rv.remove(best as int))));
        }
    }
    proof {
        assert(order_by_start(rest@.map_values(|p: Planned| p@)) =~= Seq::<Replacement>::empty());
        assert(out@.map_values(|p: Planned| p@) + Seq::<Replacement>::empty() =~= out@.map_values(|p: Planned| p@));
    }
    out
}

/// The prefix `o` in front of an optional rest.
pub open spec fn prefixed(o: Seq<u8>, x: Option<Seq<u8>>) -> Option<Seq<u8>> {
    match x {
        Some(rest) => Some(o + rest),
        None => None,
    }
}

fn apply_exec(b: &[u8], plans: &Vec<Planned>) -> (r: Option<Vec<u8>>)
    ensures
        match r {
            Some(o) => assemble(b@, plans@.map_values(|p: Planned| p@), 0) == Some(o@),
            None => assemble(b@, plans@.map_values(|p: Planned| p@), 0) is None,
        },
{
    let ghost all = plans@.map_values(|p: Planned| p@);
    let mut out: Vec<u8> = Vec::new();
    let mut pos: usize = 0;
    let mut k: usize = 0;
    proof {
        assert(all.subrange(0, all.len() as int) =~= all);
        assert(out@ + Seq::<u8>::empty() =~= out@);
    }
    while k < plans.len()
        invariant
            k <= plans@.len(),
            pos <= b@.len(),
            all == plans@.map_values(|p: Planned| p@),
            assemble(b@, all, 0) == prefixed(out@, assemble(b@, all.subrange(k as int, all.len() as int), pos as int)),
        decreases plans@.len() - k,
    {
        let p = &plans[k];
        let ghost tail = all.subrange(k as int, all.len() as int);
        proof {
            assert(tail[0] == p@);
            assert(tail.drop_first() =~= all.subrange(k + 1, all.len() as int));
        }
        if !(pos <= p.start && p.start <= p.end && p.end <= b.len()) {
            return None;
        }
        let ghost before = out@;
        append(&mut out, &b[pos..p.start]);
        append(&mut out, p.bytes.as_slice());
        proof {
            assert(out@ == before + b@.subrange(pos as int, p.start as int) + p.bytes@);
            match assemble(b@, all.subrange(k + 1, all.len() as int), p.end as int) {
                Some(rest) => {
                    assert(out@ + rest =~= before + (b@.subrange(pos as int, p.start as int) + p.bytes@ + rest));
                },
                None => {},
            }
        }
        pos = p.end;
        k = k + 1;
    }
    proof {
        assert(all.subrange(k as int, all.len() as int) =~= Seq::<Replacement>::empty());
    }
    append(&mut out, &b[pos..b.len()]);
    Some(out)
}

/// A pipeline document: its text and, when it came from a file, that file.
pub struct PipelineDoc {
    path: Option<String>,
    text: String,
}

impl PipelineDoc {
    pub fn from_text(text: String) -> (d: PipelineDoc)
        ensures
            d.text_view() == text@,
            d.path_view() is None,
    {
        PipelineDoc { path: None, text }
    }

    /// A document read from the file at `path`.
    pub fn from_file(path: String, text: String) -> (d: PipelineDoc)
        ensures
            d.text_view() == text@,
            d.path_view() == Some(path@),
    {
        PipelineDoc { path: Some(path), text }
    }

    pub closed spec fn text_view(&self) -> Seq<char> {
        self.text@
    }

    pub closed spec fn path_view(&self) -> Option<Seq<char>> {
        match self.path {
            Some(p) => Some(p@),
            None => None,
        }
    }

    pub fn text(&self) -> (t: &str)
        ensures
            t@ == self.text_view(),
    {
        self.text.as_str()
    }

    /// The file this document came from.
    pub fn path(&self) -> (p: Option<String>)
        ensures
            match p {
                Some(s) => self.path_view() == Some(s@),
                None => self.path_view() is None,
            },
    {
        match &self.path {
            Some(p) => Some(p.clone()),
            None => None,
        }
    }

    /// The whole document, read as JSON once comments and trailing commas
    /// are blanked.
    pub fn data(&self) -> (r: Result<Json, PipelineError>)
        ensures
            match r {
                Ok(v) => json_model(blanked_text(self.text_view())) == Some(v@),
                Err(e) => json_model(blanked_text(self.text_view())) is None && e@ == PipelineFault::Json,
            },
    {
        load(self.text.as_str())
    }

    /// The node's definition, or JSON null when there is none.
    pub fn node(&self, name: &str) -> (r: Result<Json, PipelineError>)
        ensures
            match r {
                Ok(v) => json_model(blanked_text(self.text_view())) matches Some(d) && v@ == json_member(
                    d,
                    name@,
                ),
                Err(e) => json_model(blanked_text(self.text_view())) is None && e@ == PipelineFault::Json,
            },
    {
        let data = self.data()?;
        Ok(take_member(data, name))
    }

    fn scan(&self) -> (r: Result<Spans, PipelineError>)
        ensures
            match r {
                Ok(sp) => doc_tables(self.text_view()) matches Ok((_, tb)) && sp@ == tb && spans_ok(
                    tb,
                    bytes_of(self.text_view()).len() as int,
                    bytes_of(self.text_view()).len() as int,
                ),
                Err(x) => doc_tables(self.text_view()) matches Err(y) && x@ == PipelineFault::Scan(y),
            },
    {
        let t = self.text.as_str().as_bytes();
        let b = blank_bytes(t);
        proof {
            lemma_document_ok(b@);
        }
        match scan_document_exec(b.as_slice()) {
            Ok((sp, _)) => {
                proof {
                    let (e, tb) = scan_document(b@)->Ok_0;
                    assert(spans_ok(tb, e, b@.len() as int));
                }
                Ok(sp)
            },
            Err(x) => Err(PipelineError::Scan(x)),
        }
    }

    /// Names of the top-level nodes, in document order.
    pub fn node_names(&self) -> (r: Result<Vec<String>, PipelineError>)
        ensures
            match r {
                Ok(names) => doc_tables(self.text_view()) matches Ok((_, tb)) && names@.map_values(
                    |s: String| s@,
                ) == top_level_names(tb.0),
                Err(x) => doc_tables(self.text_view()) matches Err(y) && x@ == PipelineFault::Scan(y),
            },
    {
        let spans = self.scan()?;
        let keys = &spans.keys.entries;
        let ghost kv = spans@.0;
        let mut names: Vec<String> = Vec::new();
        let mut i: usize = 0;
        while i < keys.len()
            invariant
                i <= keys@.len(),
                kv == keys@.map_values(|e: crate::scan::SpanEntry| e@),
                names@.map_values(|s: String| s@) == top_level_names(kv.subrange(0, i as int)),
            decreases keys@.len() - i,
        {
            let entry = &keys[i];
            proof {
                assert(kv.subrange(0, i + 1).drop_last() =~= kv.subrange(0, i as int));
                assert(kv.subrange(0, i + 1).last() == entry@);
            }
            if entry.path.len() == 1 {
                names.push(entry.path[0].clone());
                proof {
                    assert(names@.map_values(|s: String| s@) =~= top_level_names(
                        kv.subrange(0, i as int),
                    ).push(entry@.0[0]));
                }
            }
            i = i + 1;
        }
        proof {
            assert(kv.subrange(0, keys@.len() as int) =~= kv);
        }
        Ok(names)
    }

    /// Apply edits at byte offsets, leaving every other byte untouched. Each
    /// edit lands on its own field's bytes of the current text, whatever
    /// order the edits come in; edits whose byte ranges overlap (two edits
    /// of one field) are refused with `Overlap`, and a result that no longer
    /// parses is refused too.
    pub fn patched(&self, edits: &[Edit]) -> (r: Result<String, PipelineError>)
        ensures
            match r {
                Ok(s) => patched_text(self.text_view(), edits@.map_values(|e: Edit| e@)) == Ok::<
                    Seq<char>,
                    PipelineFault,
                >(s@),
                Err(x) => patched_text(self.text_view(), edits@.map_values(|e: Edit| e@)) == Err::<
                    Seq<char>,
                    PipelineFault,
                >(x@),
            },
    {
        let spans = self.scan()?;
        let t = self.text.as_str().as_bytes();
        let ghost ev = edits@.map_values(|e: Edit| e@);
        let mut plans: Vec<Planned> = Vec::new();
        let mut i: usize = 0;
        proof {
            assert(ev.subrange(0, 0) =~= Seq::<EditView>::empty());
            assert(plans@.map_values(|p: Planned| p@) =~= Seq::<Replacement>::empty());
        }
        while i < edits.len()
            invariant
                i <= edits@.len(),
                t@ == bytes_of(self.text_view()),
                ev == edits@.map_values(|e: Edit| e@),
                doc_tables(self.text_view()) matches Ok((_, tb)) && spans@ == tb,
                spans_ok(spans@, t@.len() as int, t@.len() as int),
                plan_edits(t@, spans@, ev.subrange(0, i as int)) == Ok::<Seq<Replacement>, PipelineFault>(
                    plans@.map_values(|p: Planned| p@),
                ),
            decreases edits@.len() - i,
        {
            proof {
                assert(ev.subrange(0, i + 1).drop_last() =~= ev.subrange(0, i as int));
                assert(ev.subrange(0, i + 1).last() == edits@[i as int]@);
            }
            let p = plan_edit_exec(t, &spans, &edits[i]);
            match p {
                Ok(p) => {
                    plans.push(p);
                    proof {
                        assert(plans@.map_values(|p: Planned| p@) =~= plan_edits(
                            t@,
                            spans@,
                            ev.subrange(0, i as int),
                        )->Ok_0.push(plans@.last()@));
                    }
                },
                Err(x) => {
                    proof {
                        assert(ev.subrange(0, i + 1) =~= ev.subrange(0, i as int).push(ev[i as int]));
                        lemma_plan_edits_error_stays(t@, spans@, ev, i as int + 1);
                    }
                    return Err(x);
                },
            }
            i = i + 1;
        }
        proof {
            assert(ev.subrange(0, edits@.len() as int) =~= ev);
        }
        let ordered = order_plans(plans);
        let out = match apply_exec(t, &ordered) {
            Some(o) => o,
            None => {
                return Err(PipelineError::Overlap);
            },
        };
        let s = match string_from_utf8(out) {
            Some(s) => s,
            None => {
                return Err(PipelineError::Utf8);
            },
        };
        proof {
            encode_utf8_decode_utf8(s@);
        }
        // refuse to emit anything that no longer parses
        load(s.as_str())?;
        Ok(s)
    }

    /// Patch the text in memory; the caller persists it to the file, if any.
    pub fn write(&mut self, edits: &[Edit]) -> (r: Result<String, PipelineError>)
        ensures
            match r {
                Ok(s) => patched_text(old(self).text_view(), edits@.map_values(|e: Edit| e@)) == Ok::<
                    Seq<char>,
                    PipelineFault,
                >(s@) && final(self).text_view() == s@,
                Err(x) => patched_text(old(self).text_view(), edits@.map_values(|e: Edit| e@))
                    == Err::<Seq<char>, PipelineFault>(x@) && final(self).text_view() == old(
                    self,
                ).text_view(),
            },
            final(self).path_view() == old(self).path_view(),
    {
        let patched = self.patched(edits)?;
        self.text = patched.clone();
        Ok(patched)
    }

    /// Unified diff of what the edits would change.
    pub fn diff(&self, edits: &[Edit]) -> (r: Result<String, PipelineError>)
        ensures
            match r {
                Ok(d) => patched_text(self.text_view(), edits@.map_values(|e: Edit| e@)) matches Ok(p)
                    && d@ == crate::diff::unified_text(
                    crate::diff::hunks_spec(crate::diff::similar_grouped_ops(self.text_view(), p, 3)),
                    "a/main.json"@,
                    "b/main.json"@,
                ),
                Err(x) => patched_text(self.text_view(), edits@.map_values(|e: Edit| e@)) == Err::<
                    Seq<char>,
                    PipelineFault,
                >(x@),
            },
    {
        let patched = self.patched(edits)?;
        Ok(unified_diff(self.text.as_str(), patched.as_str(), "a/main.json", "b/main.json"))
    }
}

/// A planned edit stays within the document; an insertion lands inside it.
pub proof fn lemma_plan_in_bounds(text: Seq<char>, e: EditView)
    ensures
        doc_tables(text) matches Ok((_, tb)) ==> (plan_edit(bytes_of(text), tb, e) matches Ok(r) ==> 0
            <= r.0 <= r.1 <= bytes_of(text).len()),
{
    let b = bytes_of(text);
    crate::jsonc::lemma_blank_keeps_offsets(b);
    lemma_document_ok(blanked(b));
    if let Ok((_, tb)) = doc_tables(text) {
        let fp = seq![e.node, e.field];
        lemma_lookup_member(tb.1, fp);
        lemma_lookup_member(tb.1, seq![e.node]);
        if let Some((s, en)) = lookup(tb.1, fp) {
            let a = choose|a: int| 0 <= a < tb.1.len() && tb.1[a] == (fp, s, en);
        } else if let Some((ns, ne)) = lookup(tb.1, seq![e.node]) {
            let a = choose|a: int| 0 <= a < tb.1.len() && tb.1[a] == (seq![e.node], ns, ne);
        }
    }
}

/// A single edit touches nothing but its own byte range: the patched bytes
/// are the bytes before it, the new text, and the bytes after it.
pub proof fn lemma_single_edit_is_splice(text: Seq<char>, e: EditView)
    ensures
        doc_tables(text) matches Ok((_, tb)) ==> (plan_edit(bytes_of(text), tb, e) matches Ok(r) ==> {
            let b = bytes_of(text);
            let spliced = b.subrange(0, r.0) + r.2 + b.subrange(r.1, b.len() as int);
            &&& apply_replacements(b, seq![r]) == Some(spliced)
            &&& (patched_text(text, seq![e]) matches Ok(out) ==> encode_utf8(out) == spliced)
        }),
{
    lemma_plan_in_bounds(text, e);
    if let Ok((_, tb)) = doc_tables(text) {
        let b = bytes_of(text);
        if let Ok(r) = plan_edit(b, tb, e) {
            let one = seq![e];
            assert(one.drop_last() =~= Seq::<EditView>::empty());
            assert(one.last() == e);
            assert(plan_edits(b, tb, one.drop_last()) == Ok::<Seq<Replacement>, PipelineFault>(
                Seq::empty(),
            ));
            assert(plan_edits(b, tb, one) == Ok::<Seq<Replacement>, PipelineFault>(seq![r])) by {
                assert(Seq::<Replacement>::empty().push(r) =~= seq![r]);
            }
            let spliced = b.subrange(0, r.0) + r.2 + b.subrange(r.1, b.len() as int);
            let none = Seq::<Replacement>::empty();
            assert(seq![r].remove(0) =~= none);
            assert(first_start_index(seq![r], 1) == 0);
            assert(order_by_start(none) == none);
            assert(order_by_start(seq![r]) == seq![r] + none);
            assert(seq![r] + none =~= seq![r]);
            assert(seq![r].drop_first() =~= none);
            assert(assemble(b, none, r.1) == Some(b.subrange(r.1, b.len() as int)));
            assert(assemble(b, seq![r], 0) == Some(spliced));
            if let Ok(out) = patched_text(text, one) {
                decode_utf8_encode_utf8(spliced);
            }
        }
    }
}

/// The bytes hold no line break.
pub open spec fn no_line_break(b: Seq<u8>) -> bool {
    !b.contains(NEWLINE)
}

/// Position of the first line break at or after `k`, or the length.
pub open spec fn line_break_from(t: Seq<u8>, k: int) -> int
    decreases t.len() - k,
{
    if k < 0 || k >= t.len() {
        t.len() as int
    } else if t[k] == NEWLINE {
        k
    } else {
        line_break_from(t, k + 1)
    }
}

proof fn lemma_line_start_bounds(t: Seq<u8>, k: int)
    requires
        0 <= k <= t.len(),
    ensures
        0 <= line_start(t, k) <= k,
        line_start(t, k) == 0 || t[line_start(t, k) - 1] == NEWLINE,
        no_line_break(t.subrange(line_start(t, k), k)),
    decreases k,
{
    if k > 0 && t[k - 1] != NEWLINE {
        lemma_line_start_bounds(t, k - 1);
        let ls = line_start(t, k);
        assert(t.subrange(ls, k) =~= t.subrange(ls, k - 1).push(t[k - 1]));
    } else {
        assert(t.subrange(line_start(t, k), k) =~= Seq::<u8>::empty());
    }
}

proof fn lemma_line_break_from_bounds(t: Seq<u8>, k: int)
    requires
        0 <= k <= t.len(),
    ensures
        k <= line_break_from(t, k) <= t.len(),
        line_break_from(t, k) == t.len() || t[line_break_from(t, k)] == NEWLINE,
        no_line_break(t.subrange(k, line_break_from(t, k))),
    decreases t.len() - k,
{
    if k < t.len() && t[k] != NEWLINE {
        lemma_line_break_from_bounds(t, k + 1);
        let le = line_break_from(t, k);
        assert(t.subrange(k, le) =~= seq![t[k]] + t.subrange(k + 1, le));
    } else {
        assert(t.subrange(k, line_break_from(t, k)) =~= Seq::<u8>::empty());
    }
}

proof fn lemma_no_line_break_concat(a: Seq<u8>, b: Seq<u8>)
    ensures
        no_line_break(a + b) <==> no_line_break(a) && no_line_break(b),
{
    if a.contains(NEWLINE) {
        let i = choose|i: int| 0 <= i < a.len() && a[i] == NEWLINE;
        assert((a + b)[i] == NEWLINE);
    }
    if b.contains(NEWLINE) {
        let i = choose|i: int| 0 <= i < b.len() && b[i] == NEWLINE;
        assert((a + b)[a.len() + i] == NEWLINE);
    }
    if (a + b).contains(NEWLINE) {
        let i = choose|i: int| 0 <= i < (a + b).len() && (a + b)[i] == NEWLINE;
        if i < a.len() {
            assert(a[i] == NEWLINE);
        } else {
            assert(b[i - a.len()] == NEWLINE);
        }
    }
}

/// Changing a value that sits on one line to a value written on one line
/// changes exactly that line: the patched bytes are the lines before it,
/// the one rewritten line (still free of line breaks), and the lines after
/// it, byte for byte.
pub proof fn lemma_scalar_edit_changes_one_line(text: Seq<char>, e: EditView)
    ensures
        doc_tables(text) matches Ok((_, tb)) ==> (lookup(tb.1, seq![e.node, e.field]) matches Some(
            (s, en),
        ) ==> (e.json matches Some(j) ==> (no_line_break(bytes_of(text).subrange(s, en))
            && no_line_break(encode_utf8(j)) ==> {
            let b = bytes_of(text);
            let ls = line_start(b, s);
            let le = line_break_from(b, en);
            let line = b.subrange(ls, s) + encode_utf8(j) + b.subrange(en, le);
            &&& 0 <= ls <= s <= en <= le <= b.len()
            &&& (ls == 0 || b[ls - 1] == NEWLINE)
            &&& (le == b.len() || b[le] == NEWLINE)
            &&& no_line_break(b.subrange(ls, le))
            &&& no_line_break(line)
            &&& (patched_text(text, seq![e]) matches Ok(out) ==> encode_utf8(out) == b.subrange(0, ls)
                + line + b.subrange(le, b.len() as int))
        }))),
{
    if let Ok((_, tb)) = doc_tables(text) {
        if let Some((s, en)) = lookup(tb.1, seq![e.node, e.field]) {
            if let Some(j) = e.json {
                let b = bytes_of(text);
                if no_line_break(b.subrange(s, en)) && no_line_break(encode_utf8(j)) {
                    assert(plan_edit(b, tb, e) == Ok::<Replacement, PipelineFault>((s, en, encode_utf8(j))));
                    lemma_plan_in_bounds(text, e);
                    lemma_single_edit_is_splice(text, e);
                    lemma_line_start_bounds(b, s);
                    lemma_line_break_from_bounds(b, en);
                    let ls = line_start(b, s);
                    let le = line_break_from(b, en);
                    let jb = encode_utf8(j);
                    assert(b.subrange(ls, le) =~= b.subrange(ls, s) + b.subrange(s, en) + b.subrange(en, le));
                    lemma_no_line_break_concat(b.subrange(ls, s), b.subrange(s, en));
                    lemma_no_line_break_concat(b.subrange(ls, s) + b.subrange(s, en), b.subrange(en, le));
                    lemma_no_line_break_concat(b.subrange(ls, s), jb);
                    lemma_no_line_break_concat(b.subrange(ls, s) + jb, b.subrange(en, le));
                    let line = b.subrange(ls, s) + jb + b.subrange(en, le);
                    assert(b.subrange(0, s) + jb + b.subrange(en, b.len() as int) =~= b.subrange(0, ls) + line
                        + b.subrange(le, b.len() as int));
                }
            }
        }
    }
}

/// What `patched` hands back always reads as JSON once blanked: a text that
/// no longer parses is refused, never returned.
pub proof fn lemma_patched_parses(text: Seq<char>, edits: Seq<EditView>)
    ensures
        patched_text(text, edits) matches Ok(out) ==> strict_json_accepts(blanked_text(out)),
{
}

/// An edit of a node the document lacks is an error, not a silent write.
pub proof fn lemma_unknown_node_refused(text: Seq<char>, e: EditView)
    ensures
        doc_tables(text) matches Ok((_, tb)) ==> (lookup(tb.1, seq![e.node]) is None && lookup(
            tb.1,
            seq![e.node, e.field],
        ) is None ==> patched_text(text, seq![e]) == Err::<Seq<char>, PipelineFault>(
            PipelineFault::UnknownNode(e.node),
        )),
{
    let one = seq![e];
    assert(one.drop_last() =~= Seq::<EditView>::empty());
    assert(one.last() == e);
    if let Ok((_, tb)) = doc_tables(text) {
        let b = bytes_of(text);
        assert(plan_edits(b, tb, one.drop_last()) == Ok::<Seq<Replacement>, PipelineFault>(
            Seq::empty(),
        ));
    }
}

/// The top-level key records, whose names `node_names` lists, begin at
/// increasing byte offsets: the names come in document order.
pub proof fn lemma_node_names_in_document_order(text: Seq<char>)
    ensures
        doc_tables(text) matches Ok((_, tb)) ==> crate::scan::sorted_starts(tb.0),
{
    lemma_document_ok(blanked(bytes_of(text)));
}

/// Once planning an edit fails, planning the longer list fails the same way.
proof fn lemma_plan_edits_error_stays(t: Seq<u8>, tb: Tables, ev: Seq<EditView>, i: int)
    requires
        0 <= i <= ev.len(),
        plan_edits(t, tb, ev.subrange(0, i)) is Err,
    ensures
        plan_edits(t, tb, ev) == plan_edits(t, tb, ev.subrange(0, i)),
    decreases ev.len() - i,
{
    if i < ev.len() {
        assert(ev.subrange(0, i + 1).drop_last() =~= ev.subrange(0, i));
        lemma_plan_edits_error_stays(t, tb, ev, i + 1);
    } else {
        assert(ev.subrange(0, i) =~= ev);
    }
}

/// Unified diff of `before` against `after`, with three lines of context.
pub fn unified_diff(before: &str, after: &str, left: &str, right: &str) -> (d: String)
    ensures
        d@ == crate::diff::unified_text(
            crate::diff::hunks_spec(crate::diff::similar_grouped_ops(before@, after@, 3)),
            left@,
            right@,
        ),
{
    let groups = grouped_ops(before, after, 3);
    let hunks = hunks_of(&groups);
    proof {
        let gs = groups@.map_values(|g: Vec<crate::diff::OpChanges>| g@.map_values(|o: crate::diff::OpChanges| o@));
        let hv = hunks@.map_values(|h: crate::diff::Hunk| h@);
        assert(hv.len() == hunks@.len());
        assert(hv == crate::diff::hunks_spec(gs));
        assert(gs.len() == groups@.len());
        assert forall|k: int| 0 <= k < hunks@.len() implies (#[trigger] hunks@[k]).old_start < usize::MAX
            && hunks@[k].new_start < usize::MAX by {
            assert(hv[k] == hunks@[k]@);
            assert(hv[k] == crate::diff::hunk_spec(gs[k]));
            assert(gs[k] == groups@[k]@.map_values(|o: crate::diff::OpChanges| o@));
            assert(groups@[k]@.len() > 0);
            assert(groups@[k]@[0].old_start < usize::MAX);
            assert(gs[k][0] == groups@[k]@[0]@);
        }
    }
    render_unified(&hunks, left, right)
}

} // verus!
