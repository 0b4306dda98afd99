//! Which parts of a node definition a one-frame recognition trial uses.

use vstd::prelude::*;
use crate::text::str_eq;
use crate::events::EventKind;
use crate::pipeline::{PipelineError, PipelineFault};
use crate::json::{
    entries_view, get, as_text, json_clone, json_get, json_member, json_model, json_str, json_view, parse_json_model, Json,
    JsonView,
};

verus! {

/// Recognition parameters that ride alongside `recognition` in the flat
/// (v1) pipeline layout, in the order they are collected.
pub open spec fn recognition_key_list() -> Seq<Seq<char>> {
    seq![
        "template"@,
        "threshold"@,
        "roi"@,
        "roi_offset"@,
        "order_by"@,
        "index"@,
        "method"@,
        "green_mask"@,
        "expected"@,
        "count"@,
        "lower"@,
        "upper"@,
        "detector"@,
        "ratio"@,
        "only_rec"@,
        "model"@,
        "labels"@,
        "replace"@,
        "color_filter"@,
        "custom_recognition"@,
        "custom_recognition_param"@,
    ]
}

/// Number of recognition parameter keys.
pub const RECOGNITION_KEY_COUNT: usize = 21;

/// The `i`-th recognition parameter key.
pub fn recognition_key(i: usize) -> (k: &'static str)
    requires
        i < RECOGNITION_KEY_COUNT,
    ensures
        k@ == recognition_key_list()[i as int],
{
    match i {
        0 => "template",
        1 => "threshold",
        2 => "roi",
        3 => "roi_offset",
        4 => "order_by",
        5 => "index",
        6 => "method",
        7 => "green_mask",
        8 => "expected",
        9 => "count",
        10 => "lower",
        11 => "upper",
        12 => "detector",
        13 => "ratio",
        14 => "only_rec",
        15 => "model",
        16 => "labels",
        17 => "replace",
        18 => "color_filter",
        19 => "custom_recognition",
        _ => "custom_recognition_param",
    }
}

/// The first `n` recognition keys that `present` holds, in list order.
pub open spec fn present_keys(present: Seq<Seq<char>>, n: int) -> Seq<Seq<char>>
    decreases n,
{
    if n <= 0 {
        Seq::empty()
    } else if present.contains(recognition_key_list()[n - 1]) {
        present_keys(present, n - 1).push(recognition_key_list()[n - 1])
    } else {
        present_keys(present, n - 1)
    }
}

fn holds_key(present: &Vec<String>, key: &str) -> (r: bool)
    ensures
        r == present@.map_values(|s: String| s@).contains(key@),
{
    let ghost pv = present@.map_values(|s: String| s@);
    let mut i: usize = 0;
    while i < present.len()
        invariant
            i <= present@.len(),
            pv == present@.map_values(|s: String| s@),
            forall|k: int| 0 <= k < i ==> pv[k] != key@,
        decreases present@.len() - i,
    {
        if str_eq(present[i].as_str(), key) {
            proof {
                assert(pv[i as int] == key@);
            }
            return true;
        }
        i = i + 1;
    }
    false
}

/// Of a flat node's keys (`present`), the recognition parameters it carries,
/// in the order of the recognition key list.
pub fn flat_param_keys(present: &Vec<String>) -> (r: Vec<String>)
    ensures
        r@.map_values(|s: String| s@) == present_keys(present@.map_values(|s: String| s@), RECOGNITION_KEY_COUNT as int),
{
    let ghost pv = present@.map_values(|s: String| s@);
    let mut out: Vec<String> = Vec::new();
    let mut i: usize = 0;
    while i < RECOGNITION_KEY_COUNT
        invariant
            i <= RECOGNITION_KEY_COUNT,
            pv == present@.map_values(|s: String| s@),
            out@.map_values(|s: String| s@) == present_keys(pv, i as int),
        decreases RECOGNITION_KEY_COUNT - i,
    {
        let key = recognition_key(i);
        if holds_key(present, key) {
            out.push(key.to_string());
            proof {
                assert(out@.map_values(|s: String| s@) =~= present_keys(pv, i as int).push(key@));
            }
        }
        i = i + 1;
    }
    out
}

/// The member names of an object value (none for any other value).
pub open spec fn keys_of(v: JsonView) -> Seq<Seq<char>> {
    match v {
        JsonView::Object(es) => es.map_values(|e: (Seq<char>, JsonView)| e.0),
        _ => Seq::empty(),
    }
}

/// The recognition type and parameters of a node definition. In the flat
/// (v1) layout `recognition` is the type's name and the parameters are the
/// node's own members named in the recognition key list, in that list's
/// order; in the nested (v2) layout `recognition` is an object with the
/// type under `type` and the parameters under `param` (none when `param`
/// is no object). `None` for a node without a usable recognition.
pub open spec fn recognition_spec(node: JsonView) -> Option<(Seq<char>, Seq<(Seq<char>, JsonView)>)> {
    match json_get(node, "recognition"@) {
        Some(JsonView::Str(kind)) => Some(
            (
                kind,
                present_keys(keys_of(node), RECOGNITION_KEY_COUNT as int).map_values(
                    |k: Seq<char>| (k, json_member(node, k)),
                ),
            ),
        ),
        Some(JsonView::Object(o)) => match json_str(json_get(JsonView::Object(o), "type"@)) {
            Some(kind) => Some(
                (
                    kind,
                    match json_get(JsonView::Object(o), "param"@) {
                        Some(JsonView::Object(ps)) => ps,
                        _ => Seq::empty(),
                    },
                ),
            ),
            None => None,
        },
        _ => None,
    }
}

/// A recognition and its parameters, over mathematical values.
pub open spec fn recognition_view(r: Option<(String, Vec<(String, Json)>)>) -> Option<
    (Seq<char>, Seq<(Seq<char>, JsonView)>),
> {
    match r {
        Some((k, ps)) => Some((k@, entries_view(ps@))),
        None => None,
    }
}

fn member_names(v: &Json) -> (r: Vec<String>)
    ensures
        r@.map_values(|s: String| s@) == keys_of(v@),
{
    let mut out: Vec<String> = Vec::new();
    match v {
        Json::Object(es) => {
            let ghost evs = v@->Object_0;
            let mut i: usize = 0;
            while i < es.len()
                invariant
                    i <= es@.len(),
                    evs.len() == es@.len(),
                    forall|k: int| 0 <= k < es@.len() ==> #[trigger] evs[k] == (es@[k].0@, json_view(es@[k].1)),
                    out@.map_values(|s: String| s@) == evs.subrange(0, i as int).map_values(
                        |e: (Seq<char>, JsonView)| e.0,
                    ),
                decreases es@.len() - i,
            {
                let ghost before = out@.map_values(|s: String| s@);
                let name = es[i].0.clone();
                out.push(name);
                proof {
                    assert(evs[i as int].0 == es@[i as int].0@);
                    assert(out@.map_values(|s: String| s@) =~= before.push(name@));
                    assert(evs.subrange(0, i + 1) =~= evs.subrange(0, i as int).push(evs[i as int]));
                    assert(out@.map_values(|s: String| s@) =~= evs.subrange(0, i + 1).map_values(
                        |e: (Seq<char>, JsonView)| e.0,
                    ));
                }
                i = i + 1;
            }
            proof {
                assert(evs.subrange(0, evs.len() as int) =~= evs);
            }
            out
        },
        _ => {
            proof {
                assert(out@.map_values(|s: String| s@) =~= Seq::<Seq<char>>::empty());
            }
            out
        },
    }
}

fn clone_entries(es: &Vec<(String, Json)>) -> (r: Vec<(String, Json)>)
    ensures
        entries_view(r@) == entries_view(es@),
{
    let mut out: Vec<(String, Json)> = Vec::new();
    let mut i: usize = 0;
    while i < es.len()
        invariant
            i <= es@.len(),
            entries_view(out@) == entries_view(es@.subrange(0, i as int)),
        decreases es@.len() - i,
    {
        let v = json_clone(&es[i].1);
        let name = es[i].0.clone();
        let ghost before = out@;
        out.push((name, v));
        proof {
            assert(out@ =~= before.push((name, v)));
            assert(es@.subrange(0, i + 1) =~= es@.subrange(0, i as int).push(es@[i as int]));
            assert(entries_view(before.push((name, v))) =~= entries_view(before).push((name@, json_view(v))));
            assert(entries_view(es@.subrange(0, i as int).push(es@[i as int])) =~= entries_view(
                es@.subrange(0, i as int),
            ).push((es@[i as int].0@, json_view(es@[i as int].1))));
            assert(entries_view(out@) =~= entries_view(es@.subrange(0, i + 1)));
        }
        i = i + 1;
    }
    proof {
        assert(es@.subrange(0, es@.len() as int) =~= es@);
    }
    out
}

/// Split a node definition into (recognition type, parameters), accepting
/// both the flat (v1) layout and the nested (v2) one with its parameters
/// under `param`. `None` for a node without a usable recognition.
pub fn recognition_of(node: &Json) -> (r: Option<(String, Vec<(String, Json)>)>)
    ensures
        recognition_view(r) == recognition_spec(node@),
{
    match get(node, "recognition") {
        Some(Json::Str(kind)) => {
            let names = member_names(node);
            let keys = flat_param_keys(&names);
            let ghost kv = keys@.map_values(|s: String| s@);
            let mut params: Vec<(String, Json)> = Vec::new();
            let mut i: usize = 0;
            while i < keys.len()
                invariant
                    i <= keys@.len(),
                    kv == keys@.map_values(|s: String| s@),
                    entries_view(params@) == kv.subrange(0, i as int).map_values(
                        |k: Seq<char>| (k, json_member(node@, k)),
                    ),
                decreases keys@.len() - i,
            {
                let value = match get(node, keys[i].as_str()) {
                    Some(m) => json_clone(m),
                    None => Json::Null,
                };
                let name = keys[i].clone();
                let ghost before = params@;
                params.push((name, value));
                proof {
                    assert(json_view(value) == json_member(node@, kv[i as int]));
                    assert(params@ =~= before.push((name, value)));
                    assert(entries_view(before.push((name, value))) =~= entries_view(before).push((name@, json_view(value))));
                    assert(kv.subrange(0, i + 1) =~= kv.subrange(0, i as int).push(kv[i as int]));
                    assert(entries_view(params@) =~= kv.subrange(0, i + 1).map_values(
                        |k: Seq<char>| (k, json_member(node@, k)),
                    ));
                }
                i = i + 1;
            }
            proof {
                assert(kv.subrange(0, kv.len() as int) =~= kv);
            }
            Some((kind.clone(), params))
        },
        Some(Json::Object(_)) => {
            let rec = get(node, "recognition").unwrap();
            match as_text(get(rec, "type")) {
                Some(kind) => {
                    let params = match get(rec, "param") {
                        Some(Json::Object(ps)) => {
                            let c = clone_entries(ps);
                            proof {
                                assert(entries_view(ps@) =~= json_get(rec@, "param"@)->0->Object_0);
                            }
                            c
                        },
                        _ => {
                            let none: Vec<(String, Json)> = Vec::new();
                            proof {
                                assert(entries_view(none@) =~= Seq::<(Seq<char>, JsonView)>::empty());
                            }
                            none
                        },
                    };
                    Some((kind.to_string(), params))
                },
                None => None,
            }
        },
        _ => None,
    }
}

/// The recognition a node gives, its definition read from JSON text; a
/// text that does not parse is a JSON error.
pub fn node_recognition(raw: &str) -> (r: Result<Option<(String, Vec<(String, Json)>)>, PipelineError>)
    ensures
        match json_model(raw@) {
            Some(n) => r matches Ok(x) && recognition_view(x) == recognition_spec(n),
            None => r matches Err(e) && e@ == PipelineFault::Json,
        },
{
    match parse_json_model(raw) {
        Some(node) => Ok(recognition_of(&node)),
        None => Err(PipelineError::Json),
    }
}

/// Why a trial could not report a recognition.
#[derive(PartialEq, Eq, Structural, Clone, Copy, Debug)]
pub enum TrialError {
    /// The resource has no node of that name.
    NoSuchNode,
    /// The node has no usable recognition.
    NoRecognition,
    /// The framework ran the recognition but reported nothing back.
    NotReported,
}

impl TrialError {
    /// The message shown to the user.
    pub fn message(&self) -> (m: String)
        ensures
            *self == TrialError::NoSuchNode ==> m@ == "节点不存在"@,
            *self == TrialError::NoRecognition ==> m@ == "节点没有识别配置"@,
            *self == TrialError::NotReported ==> m@ == "框架未回报识别结果"@,
    {
        match self {
            TrialError::NoSuchNode => "节点不存在".to_string(),
            TrialError::NoRecognition => "节点没有识别配置".to_string(),
            TrialError::NotReported => "框架未回报识别结果".to_string(),
        }
    }
}

/// What a trial does with a node's definition (`None` when the resource has
/// no such node): run its recognition with these parameters, or report why
/// it cannot.
pub enum TrialPlan {
    Run(String, Vec<(String, Json)>),
    Refused(TrialError),
}

/// Plan a trial from the node's definition text: a missing node and a node
/// without a usable recognition are reported, a definition that is no JSON
/// is an error.
pub fn trial_plan(raw: Option<&str>) -> (r: Result<TrialPlan, PipelineError>)
    ensures
        match raw {
            None => r matches Ok(TrialPlan::Refused(e)) && e == TrialError::NoSuchNode,
            Some(t) => match json_model(t@) {
                None => r matches Err(e) && e@ == PipelineFault::Json,
                Some(n) => match recognition_spec(n) {
                    None => r matches Ok(TrialPlan::Refused(e)) && e == TrialError::NoRecognition,
                    Some(x) => r matches Ok(TrialPlan::Run(kind, params)) && x == (kind@, entries_view(params@)),
                },
            },
        },
{
    match raw {
        None => Ok(TrialPlan::Refused(TrialError::NoSuchNode)),
        Some(t) => match node_recognition(t) {
            Err(e) => Err(e),
            Ok(None) => Ok(TrialPlan::Refused(TrialError::NoRecognition)),
            Ok(Some((kind, params))) => Ok(TrialPlan::Run(kind, params)),
        },
    }
}

/// Index of the first recognition among the events a trial drained.
pub fn first_recognition(kinds: &Vec<EventKind>) -> (r: Option<usize>)
    ensures
        match r {
            Some(i) => i < kinds@.len() && kinds@[i as int] == EventKind::Recognition && forall|j: int|
                0 <= j < i ==> kinds@[j] != EventKind::Recognition,
            None => forall|j: int| 0 <= j < kinds@.len() ==> kinds@[j] != EventKind::Recognition,
        },
{
    let mut i: usize = 0;
    while i < kinds.len()
        invariant
            i <= kinds@.len(),
            forall|j: int| 0 <= j < i ==> kinds@[j] != EventKind::Recognition,
        decreases kinds@.len() - i,
    {
        if kinds[i] == EventKind::Recognition {
            return Some(i);
        }
        i = i + 1;
    }
    None
}

/// The shape of a parameter: an array of so many items, a string, another
/// value, or missing.
#[derive(PartialEq, Eq, Structural, Clone, Copy, Debug)]
pub enum ParamShape {
    Array(usize),
    Text,
    Other,
    Missing,
}

/// How many thresholds an override must list: one per template; with no
/// template list, as many as the present threshold list (at least one).
pub open spec fn threshold_count_spec(template: ParamShape, threshold: ParamShape) -> int {
    match template {
        ParamShape::Array(n) => n as int,
        ParamShape::Text => 1,
        _ => match threshold {
            ParamShape::Array(n) => if n >= 1 { n as int } else { 1 },
            _ => 1,
        },
    }
}

/// One override threshold per template: with a template list of `n`
/// items the override lists `n` thresholds, whatever threshold the node
/// has; with a single template, one; and never fewer than one unless the
/// template list is empty.
pub proof fn lemma_one_threshold_per_template(template: ParamShape, threshold: ParamShape)
    ensures
        template matches ParamShape::Array(n) ==> threshold_count_spec(template, threshold) == n,
        template is Text ==> threshold_count_spec(template, threshold) == 1,
        !(template matches ParamShape::Array(0)) ==> threshold_count_spec(template, threshold) >= 1,
        threshold matches ParamShape::Array(m) ==> ((template is Other || template is Missing) && m >= 1
            ==> threshold_count_spec(template, threshold) == m),
{
}

/// A list threshold must be as long as the template list.
pub fn threshold_count(template: ParamShape, threshold: ParamShape) -> (n: usize)
    ensures
        n == threshold_count_spec(template, threshold),
        template matches ParamShape::Array(k) ==> n == k,
{
    match template {
        ParamShape::Array(n) => n,
        ParamShape::Text => 1,
        _ => match threshold {
            ParamShape::Array(n) => if n >= 1 { n } else { 1 },
            _ => 1,
        },
    }
}

} // verus!
