//! Turning framework notifications into timeline events, and the bounded
//! queue that carries them from the framework's threads to the UI.

use vstd::prelude::*;
use std::collections::VecDeque;
use crate::text::{chars_of, decimal, decimal_string, has_prefix, starts_with};
use crate::json::{as_text, get, json_get, json_model, json_str, json_view, opt_view, parse_json_model, Json, JsonView};

verus! {

/// What a node notification is about.
#[derive(PartialEq, Eq, Structural, Clone, Copy, Debug)]
pub enum EventKind {
    Recognition,
    Action,
}

impl EventKind {
    /// The name the UI shows.
    pub fn name(&self) -> (s: &'static str)
        ensures
            *self == EventKind::Recognition ==> s@ == "recognition"@,
            *self == EventKind::Action ==> s@ == "action"@,
    {
        match self {
            EventKind::Recognition => "recognition",
            EventKind::Action => "action",
        }
    }
}

/// Kind and outcome of a notification that becomes an event.
#[derive(PartialEq, Eq, Structural, Clone, Copy, Debug)]
pub struct Classified {
    pub kind: EventKind,
    /// The node finished successfully (a hit, for a recognition).
    pub succeeded: bool,
    /// Something went wrong: only a failed action is an error; a recognition
    /// that did not match is a miss.
    pub error: bool,
}

/// Index of the last `.` in `s`, or -1.
pub open spec fn last_dot(s: Seq<char>) -> int
    decreases s.len(),
{
    if s.len() == 0 {
        -1
    } else if s.last() == '.' {
        s.len() - 1
    } else {
        last_dot(s.drop_last())
    }
}

/// The part after the last `.` (`msg.rsplit('.').next()`).
pub open spec fn last_segment(s: Seq<char>) -> Seq<char> {
    s.subrange(last_dot(s) + 1, s.len() as int)
}

/// How a notification is surfaced: `None` for the `Starting` stage and for
/// anything that is not a node recognition or action.
pub open spec fn classify_spec(msg: Seq<char>) -> Option<Classified> {
    let state = last_segment(msg);
    if state == "Starting"@ {
        None
    } else {
        let kind = if has_prefix(msg, "Node.Recognition."@) {
            Some(EventKind::Recognition)
        } else if has_prefix(msg, "Node.Action."@) {
            Some(EventKind::Action)
        } else {
            None
        };
        match kind {
            None => None,
            Some(k) => {
                let ok = state == "Succeeded"@;
                Some(Classified { kind: k, succeeded: ok, error: !ok && k == EventKind::Action })
            },
        }
    }
}

fn seq_eq(a: &Vec<char>, b: &Vec<char>) -> (r: bool)
    ensures
        r == (a@ == b@),
{
    if a.len() != b.len() {
        return false;
    }
    let mut i: usize = 0;
    while i < a.len()
        invariant
            a@.len() == b@.len(),
            i <= a@.len(),
            forall|k: int| 0 <= k < i ==> a@[k] == b@[k],
        decreases a@.len() - i,
    {
        if a[i] != b[i] {
            return false;
        }
        i = i + 1;
    }
    proof {
        assert(a@ =~= b@);
    }
    true
}

/// Classify a framework notification by its message.
pub fn classify(msg: &str) -> (r: Option<Classified>)
    ensures
        r == classify_spec(msg@),
{
    let cs = chars_of(msg);
    let mut d = cs.len();
    proof {
        assert(cs@.subrange(0, cs@.len() as int) =~= cs@);
    }
    while d > 0 && cs[d - 1] != '.'
        invariant
            d <= cs@.len(),
            cs@ == msg@,
            last_dot(cs@.subrange(0, d as int)) == last_dot(cs@),
        decreases d,
    {
        proof {
            assert(cs@.subrange(0, d - 1) =~= cs@.subrange(0, d as int).drop_last());
        }
        d = d - 1;
    }
    proof {
        if d > 0 {
            assert(cs@.subrange(0, d as int).last() == '.');
        }
    }
    let mut state: Vec<char> = Vec::new();
    let mut k = d;
    while k < cs.len()
        invariant
            d <= k <= cs@.len(),
            state@ == cs@.subrange(d as int, k as int),
        decreases cs@.len() - k,
    {
        state.push(cs[k]);
        k = k + 1;
        proof {
            assert(state@ =~= cs@.subrange(d as int, k as int));
        }
    }
    assert(state@ == last_segment(msg@));
    if seq_eq(&state, &chars_of("Starting")) {
        return None;
    }
    let kind = if starts_with(&cs, &chars_of("Node.Recognition.")) {
        EventKind::Recognition
    } else if starts_with(&cs, &chars_of("Node.Action.")) {
        EventKind::Action
    } else {
        return None;
    };
    let ok = seq_eq(&state, &chars_of("Succeeded"));
    Some(Classified { kind, succeeded: ok, error: !ok && kind == EventKind::Action })
}

/// The screen box of a recognition, given the box member of its details
/// read as integers: `None` when there is no array, when it does not hold
/// exactly four integers, or when the width or height (each narrowed to
/// `i32`) is not positive.
pub open spec fn parse_box_spec(items: Option<Seq<Option<i64>>>) -> Option<Seq<i32>> {
    match items {
        None => None,
        Some(v) => if v.len() == 4 && v[0] is Some && v[1] is Some && v[2] is Some && v[3] is Some
            && (v[2]->0 as i32) > 0 && (v[3]->0 as i32) > 0 {
            Some(seq![v[0]->0 as i32, v[1]->0 as i32, v[2]->0 as i32, v[3]->0 as i32])
        } else {
            None
        },
    }
}

/// The integers of a `box` member, as a sequence.
pub open spec fn items_view(items: Option<Vec<Option<i64>>>) -> Option<Seq<Option<i64>>> {
    match items {
        Some(v) => Some(v@),
        None => None,
    }
}

/// A box, as a sequence of its four numbers.
pub open spec fn rect_view(r: Option<[i32; 4]>) -> Option<Seq<i32>> {
    match r {
        Some(b) => Some(b@),
        None => None,
    }
}

/// A recognition's box from the integers of its `box` member.
pub fn parse_box(items: Option<Vec<Option<i64>>>) -> (r: Option<[i32; 4]>)
    ensures
        rect_view(r) == parse_box_spec(items_view(items)),
{
    let v = match items {
        None => {
            return None;
        },
        Some(v) => v,
    };
    if v.len() != 4 {
        return None;
    }
    match (v[0], v[1], v[2], v[3]) {
        (Some(x), Some(y), Some(w), Some(h)) => {
            let x = x as i32;
            let y = y as i32;
            let w = w as i32;
            let h = h as i32;
            if w > 0 && h > 0 {
                let b = [x, y, w, h];
                proof {
                    assert(b@ =~= seq![x, y, w, h]);
                }
                Some(b)
            } else {
                None
            }
        },
        _ => None,
    }
}

/// How a `focus` member reads: a string, an object whose members each may
/// offer a text (the member itself as a string, or its `content` string), or
/// anything else.
pub enum FocusShape {
    Text(String),
    Members(Vec<Option<String>>),
    Other,
}

/// The text the first member that offers one gives.
pub open spec fn first_text(m: Seq<Option<String>>) -> Seq<char>
    decreases m.len(),
{
    if m.len() == 0 {
        Seq::empty()
    } else if m[0] is Some {
        (m[0]->0)@
    } else {
        first_text(m.drop_first())
    }
}

/// The focus text of a node: the string, the first member text, or empty.
pub open spec fn focus_spec(focus: FocusShape) -> Seq<char> {
    match focus {
        FocusShape::Text(t) => t@,
        FocusShape::Members(ms) => first_text(ms@),
        FocusShape::Other => Seq::empty(),
    }
}

/// The focus text a `focus` member gives.
pub fn focus_text(focus: &FocusShape) -> (s: String)
    ensures
        s@ == focus_spec(*focus),
{
    match focus {
        FocusShape::Text(t) => t.clone(),
        FocusShape::Members(m) => {
            let mut i: usize = 0;
            proof {
                assert(m@.subrange(0, m@.len() as int) =~= m@);
            }
            while i < m.len()
                invariant
                    *focus == FocusShape::Members(*m),
                    i <= m@.len(),
                    first_text(m@.subrange(i as int, m@.len() as int)) == first_text(m@),
                decreases m@.len() - i,
            {
                proof {
                    assert(m@.subrange(i as int, m@.len() as int).drop_first() =~= m@.subrange(
                        i + 1,
                        m@.len() as int,
                    ));
                }
                if let Some(t) = &m[i] {
                    let r = t.clone();
                    proof {
                        let rest = m@.subrange(i as int, m@.len() as int);
                        assert(rest[0] == m@[i as int]);
                        assert(m@[i as int] == Some(*t));
                        assert(first_text(rest) == t@);
                    }
                    return r;
                }
                i = i + 1;
            }
            String::new()
        },
        FocusShape::Other => String::new(),
    }
}

/// What a recognition's `detail` member offers for counting: the lengths
/// of its `all` and `filtered` members, where they are arrays.
pub struct DetailCounts {
    pub all: Option<usize>,
    pub filtered: Option<usize>,
}

/// The `reco_details` member of a notification.
pub struct RecoDetails {
    /// The integers of the `box` member, where it is an array.
    pub box_items: Option<Vec<Option<i64>>>,
    /// The `detail` member, where there is one.
    pub detail: Option<DetailCounts>,
}

/// The members of a notification payload that an event is built from:
/// `reco_id` where it is an integer, `name` where it is a string, the shape
/// of `focus`, and `reco_details` where there is one.
pub struct Payload {
    pub reco_id: Option<i64>,
    pub name: Option<String>,
    pub focus: FocusShape,
    pub reco_details: Option<RecoDetails>,
}

/// A node event apart from its clock readings and its score.
pub struct EventCore {
    pub kind: EventKind,
    /// Recognition id, for looking the frame up later (0 when absent).
    pub reco_id: i64,
    pub node: String,
    pub focus: String,
    pub hit: bool,
    pub error: bool,
    pub box_rect: Option<[i32; 4]>,
    /// Number of candidates the recognition considered.
    pub candidates: usize,
    /// Number of candidates that passed its filter.
    pub filtered: usize,
    /// A recognition detail is present, so the score is read from it.
    pub scored: bool,
}

/// A count read from a detail member: its length, or 0.
pub open spec fn count_or_zero(n: Option<usize>) -> usize {
    match n {
        Some(k) => k,
        None => 0,
    }
}

/// A recognition's details over mathematical values: the box integers and
/// the (all, filtered) counts of its detail.
pub struct RecoView {
    pub box_items: Option<Seq<Option<i64>>>,
    pub detail: Option<(Option<usize>, Option<usize>)>,
}

/// A payload over mathematical values; the focus as the text it gives.
pub struct PayloadView {
    pub reco_id: Option<i64>,
    pub name: Option<Seq<char>>,
    pub focus: Seq<char>,
    pub reco_details: Option<RecoView>,
}

impl View for Payload {
    type V = PayloadView;

    open spec fn view(&self) -> PayloadView {
        PayloadView {
            reco_id: self.reco_id,
            name: match self.name {
                Some(n) => Some(n@),
                None => None,
            },
            focus: focus_spec(self.focus),
            reco_details: match self.reco_details {
                Some(r) => Some(
                    RecoView {
                        box_items: items_view(r.box_items),
                        detail: match r.detail {
                            Some(d) => Some((d.all, d.filtered)),
                            None => None,
                        },
                    },
                ),
                None => None,
            },
        }
    }
}

/// `e` is the event built from a notification classified as `c` with
/// payload `p`. Box, counts and score come from the recognition details,
/// and only for a recognition.
pub open spec fn builds_event(c: Classified, p: PayloadView, e: EventCore) -> bool {
    let reco = if c.kind == EventKind::Recognition {
        p.reco_details
    } else {
        None
    };
    let detail = match reco {
        Some(r) => r.detail,
        None => None,
    };
    &&& e.kind == c.kind
    &&& e.hit == c.succeeded
    &&& e.error == c.error
    &&& e.reco_id == (match p.reco_id {
        Some(n) => n,
        None => 0,
    })
    &&& e.node@ == (match p.name {
        Some(n) => n,
        None => Seq::<char>::empty(),
    })
    &&& e.focus@ == p.focus
    &&& rect_view(e.box_rect) == (match reco {
        Some(r) => parse_box_spec(r.box_items),
        None => None,
    })
    &&& e.candidates == (match detail {
        Some(d) => count_or_zero(d.0),
        None => 0,
    })
    &&& e.filtered == (match detail {
        Some(d) => count_or_zero(d.1),
        None => 0,
    })
    &&& e.scored == detail is Some
}

/// The event a notification becomes: `None` for messages that are not
/// surfaced and for details that did not parse (`payload` is `None`).
pub fn event_core(msg: &str, payload: Option<Payload>) -> (r: Option<EventCore>)
    ensures
        r is Some <==> (classify_spec(msg@) is Some && payload is Some),
        r matches Some(e) ==> builds_event(classify_spec(msg@)->0, payload->0@, e),
{
    let c = match classify(msg) {
        Some(c) => c,
        None => {
            return None;
        },
    };
    let p = match payload {
        Some(p) => p,
        None => {
            return None;
        },
    };
    let ghost pp = p;
    let Payload { reco_id, name, focus, reco_details } = p;
    let reco_id = match reco_id {
        Some(n) => n,
        None => 0,
    };
    let node = match name {
        Some(n) => n,
        None => String::new(),
    };
    let focus = focus_text(&focus);
    let mut e = EventCore {
        kind: c.kind,
        reco_id,
        node,
        focus,
        hit: c.succeeded,
        error: c.error,
        box_rect: None,
        candidates: 0,
        filtered: 0,
        scored: false,
    };
    if c.kind == EventKind::Recognition {
        match reco_details {
            Some(r) => {
                let RecoDetails { box_items, detail } = r;
                e.box_rect = parse_box(box_items);
                match detail {
                    Some(d) => {
                        e.candidates = match d.all {
                            Some(n) => n,
                            None => 0,
                        };
                        e.filtered = match d.filtered {
                            Some(n) => n,
                            None => 0,
                        };
                        e.scored = true;
                    },
                    None => {},
                }
            },
            None => {},
        }
    }
    proof {
        assert(builds_event(c, pp@, e));
    }
    Some(e)
}

/// The integer a value holds (`Value::as_i64`).
pub open spec fn json_int(v: Option<JsonView>) -> Option<i64> {
    match v {
        Some(JsonView::Int(n)) => Some(n),
        _ => None,
    }
}

/// The length of an array value.
pub open spec fn json_array_len(v: Option<JsonView>) -> Option<usize> {
    match v {
        Some(JsonView::Array(items)) => Some(items.len() as usize),
        _ => None,
    }
}

/// The text a focus member offers: the member itself as a string, or its
/// `content` string.
pub open spec fn member_text(m: JsonView) -> Option<Seq<char>> {
    match m {
        JsonView::Str(t) => Some(t),
        _ => json_str(json_get(m, "content"@)),
    }
}

/// The text the first member that offers one gives, or empty.
pub open spec fn first_member_text(es: Seq<(Seq<char>, JsonView)>) -> Seq<char>
    decreases es.len(),
{
    if es.len() == 0 {
        Seq::empty()
    } else {
        match member_text(es[0].1) {
            Some(t) => t,
            None => first_member_text(es.drop_first()),
        }
    }
}

/// The focus text of a `focus` member: a string, the first member text of
/// an object, or empty.
pub open spec fn focus_of_json(f: Option<JsonView>) -> Seq<char> {
    match f {
        Some(JsonView::Str(t)) => t,
        Some(JsonView::Object(es)) => first_member_text(es),
        _ => Seq::empty(),
    }
}

proof fn lemma_first_member_text_at(es: Seq<(Seq<char>, JsonView)>, k: int)
    requires
        0 <= k < es.len(),
        member_text(es[k].1) is Some,
        forall|j: int| 0 <= j < k ==> member_text(#[trigger] es[j].1) is None,
    ensures
        first_member_text(es) == member_text(es[k].1)->0,
    decreases k,
{
    if k > 0 {
        let rest = es.drop_first();
        assert(member_text(es[0].1) is None);
        assert forall|j: int| 0 <= j < k - 1 implies member_text(#[trigger] rest[j].1) is None by {
            assert(rest[j] == es[j + 1]);
        }
        assert(rest[k - 1] == es[k]);
        lemma_first_member_text_at(rest, k - 1);
    }
}

proof fn lemma_first_member_text_none(es: Seq<(Seq<char>, JsonView)>)
    requires
        forall|j: int| 0 <= j < es.len() ==> member_text(#[trigger] es[j].1) is None,
    ensures
        first_member_text(es) == Seq::<char>::empty(),
    decreases es.len(),
{
    if es.len() > 0 {
        let rest = es.drop_first();
        assert(member_text(es[0].1) is None);
        assert forall|j: int| 0 <= j < rest.len() implies member_text(#[trigger] rest[j].1) is None by {
            assert(rest[j] == es[j + 1]);
        }
        lemma_first_member_text_none(rest);
    }
}

/// The focus of an object form is the text of its first member that offers
/// one (the member as a string, or its `content` string), in member order;
/// empty when no member offers a text.
pub proof fn lemma_focus_is_first_offered_text(es: Seq<(Seq<char>, JsonView)>)
    ensures
        forall|k: int|
            0 <= k < es.len() && member_text(es[k].1) is Some && (forall|j: int|
                0 <= j < k ==> member_text(#[trigger] es[j].1) is None) ==> focus_of_json(
                Some(JsonView::Object(es)),
            ) == member_text(#[trigger] es[k].1)->0,
        (forall|j: int| 0 <= j < es.len() ==> member_text(#[trigger] es[j].1) is None) ==> focus_of_json(
            Some(JsonView::Object(es)),
        ) == Seq::<char>::empty(),
{
    assert forall|k: int|
        0 <= k < es.len() && member_text(es[k].1) is Some && (forall|j: int|
            0 <= j < k ==> member_text(#[trigger] es[j].1) is None) implies focus_of_json(
        Some(JsonView::Object(es)),
    ) == member_text(#[trigger] es[k].1)->0 by {
        lemma_first_member_text_at(es, k);
    }
    if forall|j: int| 0 <= j < es.len() ==> member_text(#[trigger] es[j].1) is None {
        lemma_first_member_text_none(es);
    }
}

/// The integers of a `box` member, where it is an array.
pub open spec fn box_of_json(b: Option<JsonView>) -> Option<Seq<Option<i64>>> {
    match b {
        Some(JsonView::Array(items)) => Some(items.map_values(|x: JsonView| json_int(Some(x)))),
        _ => None,
    }
}

/// What a notification's details give an event: `reco_id`, `name`,
/// `focus`, and from `reco_details` its `box` and the lengths of its
/// detail's `all` and `filtered`.
pub open spec fn payload_spec(v: JsonView) -> PayloadView {
    PayloadView {
        reco_id: json_int(json_get(v, "reco_id"@)),
        name: json_str(json_get(v, "name"@)),
        focus: focus_of_json(json_get(v, "focus"@)),
        reco_details: match json_get(v, "reco_details"@) {
            Some(r) => Some(
                RecoView {
                    box_items: box_of_json(json_get(r, "box"@)),
                    detail: match json_get(r, "detail"@) {
                        Some(d) => Some(
                            (json_array_len(json_get(d, "all"@)), json_array_len(json_get(d, "filtered"@))),
                        ),
                        None => None,
                    },
                },
            ),
            None => None,
        },
    }
}

fn int_of(v: Option<&Json>) -> (r: Option<i64>)
    ensures
        r == json_int(opt_view(v)),
{
    match v {
        Some(Json::Int(n)) => Some(*n),
        _ => None,
    }
}

fn array_len(v: Option<&Json>) -> (r: Option<usize>)
    ensures
        r == json_array_len(opt_view(v)),
{
    match v {
        Some(Json::Array(items)) => Some(items.len()),
        _ => None,
    }
}

fn member_text_of(m: &Json) -> (r: Option<String>)
    ensures
        match r {
            Some(t) => member_text(m@) == Some(t@),
            None => member_text(m@) is None,
        },
{
    match m {
        Json::Str(t) => Some(t.clone()),
        _ => match as_text(get(m, "content")) {
            Some(t) => Some(t.to_string()),
            None => None,
        },
    }
}

fn focus_of(f: Option<&Json>) -> (s: String)
    ensures
        s@ == focus_of_json(opt_view(f)),
{
    match f {
        Some(Json::Str(t)) => t.clone(),
        Some(Json::Object(es)) => {
            let ghost evs = f->0@->Object_0;
            let mut i: usize = 0;
            proof {
                assert(evs.subrange(0, evs.len() as int) =~= evs);
            }
            while i < es.len()
                invariant
                    i <= es@.len(),
                    evs.len() == es@.len(),
                    forall|k: int| 0 <= k < es@.len() ==> #[trigger] evs[k] == (es@[k].0@, json_view(es@[k].1)),
                    first_member_text(evs.subrange(i as int, evs.len() as int)) == first_member_text(evs),
                    focus_of_json(opt_view(f)) == first_member_text(evs),
                decreases es@.len() - i,
            {
                let ghost rest = evs.subrange(i as int, evs.len() as int);
                proof {
                    assert(rest[0] == evs[i as int]);
                    assert(rest.drop_first() =~= evs.subrange(i + 1, evs.len() as int));
                    assert(evs[i as int] == (es@[i as int].0@, json_view(es@[i as int].1)));
                }
                match member_text_of(&es[i].1) {
                    Some(t) => {
                        return t;
                    },
                    None => {},
                }
                i = i + 1;
            }
            String::new()
        },
        _ => String::new(),
    }
}

fn box_of(b: Option<&Json>) -> (r: Option<Vec<Option<i64>>>)
    ensures
        items_view(r) == box_of_json(opt_view(b)),
{
    match b {
        Some(Json::Array(items)) => {
            let ghost iv = b->0@->Array_0;
            let mut out: Vec<Option<i64>> = Vec::new();
            let mut i: usize = 0;
            while i < items.len()
                invariant
                    i <= items@.len(),
                    iv.len() == items@.len(),
                    forall|k: int| 0 <= k < items@.len() ==> #[trigger] iv[k] == json_view(items@[k]),
                    out@ == iv.subrange(0, i as int).map_values(|x: JsonView| json_int(Some(x))),
                decreases items@.len() - i,
            {
                let n = int_of(Some(&items[i]));
                out.push(n);
                proof {
                    assert(iv[i as int] == json_view(items@[i as int]));
                    assert(out@ =~= iv.subrange(0, i + 1).map_values(|x: JsonView| json_int(Some(x))));
                }
                i = i + 1;
            }
            proof {
                assert(iv.subrange(0, iv.len() as int) =~= iv);
            }
            Some(out)
        },
        _ => None,
    }
}

/// The members of a notification's details that an event is built from.
pub fn payload_of(v: &Json) -> (p: Payload)
    ensures
        p@ == payload_spec(v@),
{
    let reco_id = int_of(get(v, "reco_id"));
    let name = match as_text(get(v, "name")) {
        Some(t) => Some(t.to_string()),
        None => None,
    };
    let focus = FocusShape::Text(focus_of(get(v, "focus")));
    let reco_details = match get(v, "reco_details") {
        Some(r) => {
            let detail = match get(r, "detail") {
                Some(d) => Some(DetailCounts { all: array_len(get(d, "all")), filtered: array_len(get(d, "filtered")) }),
                None => None,
            };
            Some(RecoDetails { box_items: box_of(get(r, "box")), detail })
        },
        None => None,
    };
    let p = Payload { reco_id, name, focus, reco_details };
    proof {
        assert(p@.reco_details == payload_spec(v@).reco_details);
    }
    p
}

/// The event a framework notification becomes, reading its details text
/// as JSON: `None` for messages that are not surfaced and for details that
/// do not parse.
pub fn node_event(msg: &str, details: &str) -> (r: Option<EventCore>)
    ensures
        r is Some <==> (classify_spec(msg@) is Some && json_model(details@) is Some),
        r matches Some(e) ==> builds_event(classify_spec(msg@)->0, payload_spec(json_model(details@)->0), e),
{
    let payload = match parse_json_model(details) {
        Some(v) => Some(payload_of(&v)),
        None => None,
    };
    event_core(msg, payload)
}

/// An integer written in decimal, with a `-` in front of a negative one.
pub open spec fn int_text(n: int) -> Seq<char> {
    if n < 0 {
        seq!['-'] + decimal((-n) as nat)
    } else {
        decimal(n as nat)
    }
}

fn i32_text(n: i32) -> (s: String)
    ensures
        s@ == int_text(n as int),
{
    if n < 0 {
        let m: u32 = (0i64 - n as i64) as u32;
        proof {
            reveal_strlit("-");
        }
        "-".to_string().concat(decimal_string(m as usize).as_str())
    } else {
        decimal_string(n as usize)
    }
}

/// A box as the summary shows it (`{:?}` of the option): `None`, or
/// `Some([x, y, w, h])`.
pub open spec fn box_text(r: Option<[i32; 4]>) -> Seq<char> {
    match r {
        None => "None"@,
        Some(b) => "Some(["@ + int_text(b@[0] as int) + ", "@ + int_text(b@[1] as int) + ", "@ + int_text(
            b@[2] as int,
        ) + ", "@ + int_text(b@[3] as int) + "])"@,
    }
}

fn render_box(r: Option<[i32; 4]>) -> (s: String)
    ensures
        s@ == box_text(r),
{
    match r {
        None => "None".to_string(),
        Some(b) => "Some([".to_string().concat(i32_text(b[0]).as_str()).concat(", ").concat(
            i32_text(b[1]).as_str(),
        ).concat(", ").concat(i32_text(b[2]).as_str()).concat(", ").concat(i32_text(b[3]).as_str()).concat(
            "])",
        ),
    }
}

/// The one-line summary of an event: `action <label>` for an action;
/// otherwise the label, its state (failed, hit or missed), the score
/// (`score` is its text with three decimals), the box, and the candidate
/// counts.
pub open spec fn summary_spec(
    kind: EventKind,
    label: Seq<char>,
    error: bool,
    hit: bool,
    score: Seq<char>,
    box_rect: Option<[i32; 4]>,
    candidates: usize,
    filtered: usize,
) -> Seq<char> {
    if kind == EventKind::Action {
        "action "@ + label
    } else {
        let state = if error {
            "失败"@
        } else if hit {
            "命中"@
        } else {
            "未中"@
        };
        label + " "@ + state + " 分数="@ + score + " 框="@ + box_text(box_rect) + " 候选="@ + decimal(
            candidates as nat,
        ) + "/"@ + decimal(filtered as nat)
    }
}

/// The one-line summary the timeline shows for an event.
pub fn event_summary(
    kind: EventKind,
    label: &str,
    error: bool,
    hit: bool,
    score: &str,
    box_rect: Option<[i32; 4]>,
    candidates: usize,
    filtered: usize,
) -> (s: String)
    ensures
        s@ == summary_spec(kind, label@, error, hit, score@, box_rect, candidates, filtered),
{
    if kind == EventKind::Action {
        return "action ".to_string().concat(label);
    }
    let state = if error {
        "失败"
    } else if hit {
        "命中"
    } else {
        "未中"
    };
    label.to_string().concat(" ").concat(state).concat(" 分数=").concat(score).concat(" 框=").concat(
        render_box(box_rect).as_str(),
    ).concat(" 候选=").concat(decimal_string(candidates).as_str()).concat("/").concat(
        decimal_string(filtered).as_str(),
    )
}

/// What an event is labelled with: its focus text, or the node's name when
/// the focus is empty.
pub fn label_of<'a>(node: &'a str, focus: &'a str) -> (s: &'a str)
    ensures
        s@ == if focus@.len() == 0 {
            node@
        } else {
            focus@
        },
{
    if focus.is_empty() {
        node
    } else {
        focus
    }
}

/// Only a failed action is an error: a recognition that did not match is a
/// miss, and a successful node is never an error.
pub proof fn lemma_misses_are_not_errors(msg: Seq<char>)
    ensures
        classify_spec(msg) matches Some(c) ==> (c.error <==> (c.kind == EventKind::Action
            && !c.succeeded)),
{
}

/// The `Starting` stage of any node never becomes an event.
pub proof fn lemma_starting_is_skipped(msg: Seq<char>)
    ensures
        last_segment(msg) == "Starting"@ ==> classify_spec(msg) is None,
{
}

/// Events kept unread before the oldest are dropped.
pub const QUEUE_CAP: usize = 2000;

/// Collector between framework callbacks and the UI/CLI: events in arrival
/// order, at most `QUEUE_CAP` of them, with counts of what was dropped and
/// of notifications that were not events.
pub struct EventBus<T> {
    queue: VecDeque<T>,
    ignored: usize,
    dropped: usize,
}

impl<T> EventBus<T> {
    pub closed spec fn queued(&self) -> Seq<T> {
        self.queue@
    }

    pub closed spec fn ignored_count(&self) -> nat {
        self.ignored as nat
    }

    pub closed spec fn dropped_count(&self) -> nat {
        self.dropped as nat
    }

    /// The queue never holds more than `QUEUE_CAP` events.
    pub open spec fn well_formed(&self) -> bool {
        self.queued().len() <= QUEUE_CAP
    }

    pub fn new() -> (b: EventBus<T>)
        ensures
            b.well_formed(),
            b.queued() == Seq::<T>::empty(),
            b.ignored_count() == 0,
            b.dropped_count() == 0,
    {
        EventBus { queue: VecDeque::new(), ignored: 0, dropped: 0 }
    }

    /// Clears history (the caller marks the new start time).
    pub fn restart(&mut self)
        ensures
            final(self).well_formed(),
            final(self).queued() == Seq::<T>::empty(),
            final(self).ignored_count() == 0,
            final(self).dropped_count() == 0,
    {
        self.queue.clear();
        self.dropped = 0;
        self.ignored = 0;
    }

    /// Take in one notification: an event joins the queue, the oldest events
    /// leaving when it is full; anything else only counts as ignored.
    pub fn record(&mut self, event: Option<T>)
        requires
            old(self).well_formed(),
            event is None ==> old(self).ignored_count() < usize::MAX,
            event is Some ==> old(self).dropped_count() < usize::MAX,
        ensures
            final(self).well_formed(),
            match event {
                Some(e) => {
                    let grown = old(self).queued().push(e);
                    let over: int = if grown.len() > QUEUE_CAP { grown.len() - QUEUE_CAP } else { 0 };
                    &&& final(self).queued() == grown.subrange(over, grown.len() as int)
                    &&& final(self).dropped_count() == old(self).dropped_count() + over
                    &&& final(self).ignored_count() == old(self).ignored_count()
                },
                None => {
                    &&& final(self).queued() == old(self).queued()
                    &&& final(self).dropped_count() == old(self).dropped_count()
                    &&& final(self).ignored_count() == old(self).ignored_count() + 1
                },
            },
    {
        match event {
            Some(e) => {
                self.queue.push_back(e);
                if self.queue.len() > QUEUE_CAP {
                    self.queue.pop_front();
                    self.dropped = self.dropped + 1;
                }
            },
            None => {
                self.ignored = self.ignored + 1;
            },
        }
    }

    /// Nothing is lost silently: recording an event into a well-formed queue
    /// grows the queued events plus the dropped count by exactly one.
    pub proof fn lemma_record_accounts(queued: Seq<T>, e: T, dropped: nat)
        requires
            queued.len() <= QUEUE_CAP,
        ensures
            ({
                let grown = queued.push(e);
                let over: int = if grown.len() > QUEUE_CAP { grown.len() - QUEUE_CAP } else { 0 };
                &&& grown.subrange(over, grown.len() as int).len() + dropped + over == queued.len()
                    + dropped + 1
                &&& grown.subrange(over, grown.len() as int).len() <= QUEUE_CAP
                &&& over <= 1
            }),
    {
    }

    /// Removes and returns everything collected since the last drain.
    pub fn drain(&mut self) -> (v: Vec<T>)
        ensures
            v@ == old(self).queued(),
            final(self).queued() == Seq::<T>::empty(),
            final(self).ignored_count() == old(self).ignored_count(),
            final(self).dropped_count() == old(self).dropped_count(),
            final(self).well_formed(),
    {
        let mut out: Vec<T> = Vec::new();
        let ghost all = self.queue@;
        while self.queue.len() > 0
            invariant
                all == old(self).queue@,
                out@ + self.queue@ == all,
                self.ignored == old(self).ignored,
                self.dropped == old(self).dropped,
            decreases self.queue@.len(),
        {
            let ghost rest = self.queue@;
            match self.queue.pop_front() {
                Some(e) => {
                    out.push(e);
                    assert(out@ + self.queue@ =~= all);
                },
                None => {},
            }
        }
        assert(out@ =~= all);
        out
    }

    /// Events lost to the queue cap. Non-zero means the reader is too slow.
    pub fn dropped(&self) -> (n: usize)
        ensures
            n == self.dropped_count(),
    {
        self.dropped
    }

    /// Notifications seen and deliberately not turned into events.
    pub fn ignored(&self) -> (n: usize)
        ensures
            n == self.ignored_count(),
    {
        self.ignored
    }

    /// Events waiting to be drained.
    pub fn len(&self) -> (n: usize)
        ensures
            n == self.queued().len(),
    {
        self.queue.len()
    }
}

} // verus!
