use maacoc_engine::events::{
    classify, event_core, focus_text, label_of, node_event, parse_box, payload_of, DetailCounts, EventBus, EventKind,
    FocusShape, Payload, RecoDetails,
};
use maacoc_engine::pipeline::load;
use serde_json::Value;

// Shape taken from a real Node.Recognition.Succeeded payload on the device.
const HIT: &str = r#"{
    "task_id":200000001,"reco_id":400000001,"name":"FindSoldier","focus":"FindSoldier!",
    "reco_details":{"algorithm":"TemplateMatch","box":[92,594,90,118],
        "detail":{"all":[{"box":[53,619,86,90],"score":0.34},{"box":[92,594,90,118],"score":0.996}],
                  "filtered":[{"box":[92,594,90,118],"score":0.996}],
                  "best":{"box":[92,594,90,118],"score":0.996}},
        "name":"FindSoldier","reco_id":400000001}}"#;

const MISS: &str = r#"{"task_id":2,"reco_id":3,"name":"FindNext","focus":null,
    "reco_details":{"algorithm":"TemplateMatch","box":null,
        "detail":{"all":[{"box":[1037,466,197,92],"score":0.668}],"filtered":[],"best":null}}}"#;

/// What the shell builds from one notification: the library's event and
/// the score the shell reads beside it.
#[derive(Debug)]
struct Event {
    kind: EventKind,
    reco_id: i64,
    node: String,
    focus: String,
    hit: bool,
    error: bool,
    box_rect: Option<[i32; 4]>,
    score: f64,
    candidates: usize,
    filtered: usize,
}

impl Event {
    fn label(&self) -> &str {
        label_of(&self.node, &self.focus)
    }
}

fn best_score(detail: &Value) -> f64 {
    if let Some(score) = detail.get("best").and_then(|b| b.get("score")).and_then(Value::as_f64) {
        return score;
    }
    let mut best = 0.0_f64;
    if let Some(items) = detail.get("all").and_then(Value::as_array) {
        for item in items {
            if let Some(score) = item.get("score").and_then(Value::as_f64) {
                best = best.max(score);
            }
        }
    }
    best
}

fn parse_event(msg: &str, details: &str, _at: f64, _wall: f64) -> Option<Event> {
    let core = node_event(msg, details)?;
    let score = if core.scored {
        let payload: Value = serde_json::from_str(details).unwrap();
        best_score(&payload["reco_details"]["detail"])
    } else {
        0.0
    };
    Some(Event {
        kind: core.kind,
        reco_id: core.reco_id,
        node: core.node,
        focus: core.focus,
        hit: core.hit,
        error: core.error,
        box_rect: core.box_rect,
        score,
        candidates: core.candidates,
        filtered: core.filtered,
    })
}

fn summary_prefix(event: &Event) -> String {
    if event.kind == EventKind::Action {
        return format!("action {}", event.label());
    }
    event.label().to_string()
}

#[test]
fn carries_the_reco_id_for_frame_lookup() {
    let event = parse_event("Node.Recognition.Succeeded", HIT, 0.0, 0.0).unwrap();
    assert_eq!(event.reco_id, 400000001);
}

#[test]
fn extracts_scores_and_counts_from_a_hit() {
    let event = parse_event("Node.Recognition.Succeeded", HIT, 1.5, 100.0).unwrap();
    assert_eq!(event.kind.name(), "recognition");
    assert_eq!(event.node, "FindSoldier");
    assert_eq!(event.focus, "FindSoldier!");
    assert!(event.hit);
    assert_eq!(event.box_rect, Some([92, 594, 90, 118]));
    assert!((event.score - 0.996).abs() < 1e-6);
    assert_eq!((event.candidates, event.filtered), (2, 1));
    assert_eq!(event.label(), "FindSoldier!");
}

#[test]
fn a_run_without_a_box_is_a_miss_not_an_error() {
    let event = parse_event("Node.Recognition.Failed", MISS, 0.1, 0.0).unwrap();
    assert!(!event.hit);
    assert!(!event.error, "未命中不是异常");
    assert_eq!(event.candidates, 1);
    assert_eq!(event.filtered, 0);
    assert!((event.score - 0.668).abs() < 1e-6);
    assert_eq!(event.label(), "FindNext");
}

#[test]
fn direct_hit_nodes_are_hits_even_without_a_box() {
    let details = r#"{"task_id":1,"reco_id":2,"name":"Main","focus":null}"#;
    let event = parse_event("Node.Recognition.Succeeded", details, 0.0, 0.0).unwrap();
    assert!(event.hit, "DirectHit 节点没有框，但确实是命中");
    assert!(!event.error);
}

#[test]
fn a_failed_action_is_an_error() {
    let details = r#"{"task_id":1,"action_id":2,"name":"SetScreen","focus":null}"#;
    let event = parse_event("Node.Action.Failed", details, 0.0, 0.0).unwrap();
    assert!(event.error);
}

#[test]
fn starting_and_unrelated_messages_are_skipped() {
    assert!(parse_event("Node.Recognition.Starting", HIT, 0.0, 0.0).is_none());
    assert!(parse_event("Controller.Action.Succeeded", "{}", 0.0, 0.0).is_none());
    assert!(parse_event("Node.Recognition.Succeeded", "not json", 0.0, 0.0).is_none());
}

#[test]
fn action_events_carry_focus_from_object_form() {
    let details = r#"{"task_id":1,"action_id":2,"name":"Deploy","focus":{"Node.Action.Starting":"放兵"}}"#;
    let event = parse_event("Node.Action.Succeeded", details, 3.0, 0.0).unwrap();
    assert_eq!(event.kind.name(), "action");
    assert_eq!(event.focus, "放兵");
    assert_eq!(summary_prefix(&event), "action 放兵");
}

fn notify(bus: &mut EventBus<Event>, msg: &str, details: &str) {
    bus.record(parse_event(msg, details, 0.0, 0.0));
}

#[test]
fn bus_collects_in_order_and_drains_once() {
    let mut bus = EventBus::new();
    bus.restart();
    notify(&mut bus, "Node.Recognition.Succeeded", HIT);
    notify(&mut bus, "Node.Recognition.Starting", HIT);
    let first = bus.drain();
    assert_eq!(first.len(), 1);
    assert_eq!(first[0].node, "FindSoldier");
    assert!(bus.drain().is_empty(), "drain must not replay events");
    assert_eq!(bus.ignored(), 1);
    assert_eq!(bus.dropped(), 0, "nothing was lost, only not understood");
}

#[test]
fn an_unread_queue_fills_up_and_reports_what_it_lost() {
    let mut bus = EventBus::new();
    bus.restart();
    for _ in 0..2500 {
        notify(&mut bus, "Node.Recognition.Succeeded", HIT);
    }
    assert_eq!(bus.dropped(), 500);
    assert_eq!(bus.drain().len(), 2000);
}

#[test]
fn classification_of_stages_and_kinds() {
    let hit = classify("Node.Recognition.Succeeded").unwrap();
    assert_eq!(hit.kind, EventKind::Recognition);
    assert!(hit.succeeded && !hit.error);
    let failed = classify("Node.Action.Failed").unwrap();
    assert!(!failed.succeeded && failed.error);
    assert!(classify("Node.Action.Starting").is_none());
    assert!(classify("Tasker.Task.Succeeded").is_none());
    assert!(classify("Node.Recognition").is_none());
}

#[test]
fn boxes_need_four_integers_and_a_positive_size() {
    assert_eq!(parse_box(Some(vec![Some(1), Some(2), Some(3), Some(4)])), Some([1, 2, 3, 4]));
    assert_eq!(parse_box(Some(vec![Some(1), Some(2), Some(0), Some(4)])), None);
    assert_eq!(parse_box(Some(vec![Some(1), None, Some(3), Some(4)])), None);
    assert_eq!(parse_box(Some(vec![Some(1), Some(2), Some(3)])), None);
    assert_eq!(parse_box(None), None);
    assert_eq!(parse_box(Some(vec![Some(1), Some(2), Some(4294967297), Some(4)])), Some([1, 2, 1, 4]));
}

#[test]
fn focus_prefers_strings_then_content() {
    assert_eq!(focus_text(&FocusShape::Text("x".to_string())), "x");
    assert_eq!(focus_text(&FocusShape::Members(vec![None, Some("y".to_string()), Some("z".to_string())])), "y");
    assert_eq!(focus_text(&FocusShape::Members(vec![None])), "");
    assert_eq!(focus_text(&FocusShape::Other), "");
}

fn plain_payload(name: &str) -> Payload {
    Payload { reco_id: None, name: Some(name.to_string()), focus: FocusShape::Other, reco_details: None }
}

#[test]
fn actions_never_carry_recognition_details() {
    let mut payload = plain_payload("Deploy");
    payload.reco_details = Some(RecoDetails {
        box_items: Some(vec![Some(1), Some(2), Some(3), Some(4)]),
        detail: Some(DetailCounts { all: Some(5), filtered: Some(2) }),
    });
    let event = event_core("Node.Action.Succeeded", Some(payload)).unwrap();
    assert_eq!(event.box_rect, None);
    assert_eq!((event.candidates, event.filtered), (0, 0));
    assert!(!event.scored);
    assert_eq!(event.reco_id, 0);
}

#[test]
fn recognition_counts_read_arrays_and_default_to_zero() {
    let mut payload = plain_payload("FindSoldier");
    payload.reco_id = Some(7);
    payload.reco_details = Some(RecoDetails {
        box_items: None,
        detail: Some(DetailCounts { all: Some(3), filtered: None }),
    });
    let event = event_core("Node.Recognition.Failed", Some(payload)).unwrap();
    assert_eq!(event.reco_id, 7);
    assert_eq!((event.candidates, event.filtered), (3, 0));
    assert!(event.scored);
    assert!(!event.hit && !event.error);
    assert!(event_core("Node.Recognition.Failed", None).is_none());
    assert!(event_core("Node.Recognition.Starting", Some(plain_payload("x"))).is_none());
}

#[test]
fn labels_prefer_the_focus_text() {
    assert_eq!(label_of("Node", ""), "Node");
    assert_eq!(label_of("Node", "focus"), "focus");
}

#[test]
fn payloads_read_the_details_members() {
    let payload = payload_of(&load(MISS).unwrap());
    assert_eq!(payload.reco_id, Some(3));
    assert_eq!(payload.name.as_deref(), Some("FindNext"));
    let reco = payload.reco_details.unwrap();
    assert_eq!(reco.box_items, None);
    let detail = reco.detail.unwrap();
    assert_eq!((detail.all, detail.filtered), (Some(1), Some(0)));
    let boxed = payload_of(&load(r#"{"reco_details":{"box":[1,"x",2.5,4]},"focus":{"a":1,"b":{"content":"c"}}}"#).unwrap());
    assert_eq!(boxed.reco_details.unwrap().box_items, Some(vec![Some(1), None, None, Some(4)]));
    assert_eq!(focus_text(&boxed.focus), "c");
    assert!(node_event("Node.Recognition.Succeeded", "{").is_none());
}

#[test]
fn summaries_read_like_the_timeline() {
    let hit = maacoc_engine::events::event_summary(
        EventKind::Recognition,
        "FindSoldier!",
        false,
        true,
        &format!("{:.3}", 0.996_f64),
        Some([92, 594, 90, 118]),
        2,
        1,
    );
    assert_eq!(hit, format!("FindSoldier! 命中 分数={:.3} 框={:?} 候选={}/{}", 0.996_f64, Some([92, 594, 90, 118]), 2, 1));
    let miss = maacoc_engine::events::event_summary(EventKind::Recognition, "FindNext", false, false, "0.668", None, 1, 0);
    assert_eq!(miss, "FindNext 未中 分数=0.668 框=None 候选=1/0");
    let neg = maacoc_engine::events::event_summary(EventKind::Recognition, "N", true, false, "0.000", Some([-5, 0, i32::MAX, i32::MIN]), 0, 0);
    assert_eq!(neg, format!("N 失败 分数=0.000 框={:?} 候选=0/0", Some([-5, 0, i32::MAX, i32::MIN])));
    let action = maacoc_engine::events::event_summary(EventKind::Action, "放兵", false, true, "0.000", None, 0, 0);
    assert_eq!(action, "action 放兵");
}
