use maacoc_engine::json::{get, Json};
use maacoc_engine::pipeline::load;
use maacoc_engine::pipeline::PipelineError;
use maacoc_engine::events::EventKind;
use maacoc_engine::trial::{
    first_recognition, flat_param_keys, node_recognition, recognition_key, recognition_of, threshold_count, trial_plan,
    ParamShape, TrialError, TrialPlan, RECOGNITION_KEY_COUNT,
};

fn keys(list: &[&str]) -> Vec<String> {
    list.iter().map(|s| s.to_string()).collect()
}

#[test]
fn flat_params_keep_only_recognition_keys() {
    let node = keys(&["recognition", "template", "threshold", "roi", "green_mask", "action", "next", "focus"]);
    let params = flat_param_keys(&node);
    assert_eq!(params.len(), 4, "只收识别参数，不收 action/next/focus");
    assert!(params.contains(&"template".to_string()));
    assert!(!params.contains(&"next".to_string()));
    assert_eq!(params, keys(&["template", "threshold", "roi", "green_mask"]));
}

#[test]
fn recognition_key_list_is_complete() {
    assert_eq!(RECOGNITION_KEY_COUNT, 21);
    assert_eq!(recognition_key(0), "template");
    assert_eq!(recognition_key(20), "custom_recognition_param");
}

#[test]
fn threshold_count_follows_the_templates() {
    assert_eq!(threshold_count(ParamShape::Array(3), ParamShape::Array(3)), 3);
    assert_eq!(threshold_count(ParamShape::Text, ParamShape::Other), 1);
    assert_eq!(threshold_count(ParamShape::Missing, ParamShape::Array(2)), 2);
    assert_eq!(threshold_count(ParamShape::Missing, ParamShape::Array(0)), 1);
    assert_eq!(threshold_count(ParamShape::Other, ParamShape::Missing), 1);
}

fn names(params: &[(String, Json)]) -> Vec<String> {
    params.iter().map(|(k, _)| k.clone()).collect()
}

#[test]
fn flat_v1_params_are_collected() {
    let (kind, params) = node_recognition(
        r#"{
            "recognition": "TemplateMatch", "template": ["Soldier"],
            "threshold": 0.95, "roi": [46, 584, 1191, 135], "green_mask": true,
            "action": "Click", "next": "DeploySoldier", "focus": "FindSoldier!"
        }"#,
    )
    .unwrap()
    .unwrap();
    assert_eq!(kind, "TemplateMatch");
    assert_eq!(params.len(), 4, "只收识别参数，不收 action/next/focus");
    assert!(names(&params).contains(&"template".to_string()));
    assert!(!names(&params).contains(&"next".to_string()));
    assert_eq!(names(&params), keys(&["template", "threshold", "roi", "green_mask"]));
    assert_eq!(params[1].1, load("0.95").unwrap());
}

#[test]
fn nested_v2_params_are_accepted() {
    let (kind, params) =
        node_recognition(r#"{ "recognition": { "type": "OCR", "param": { "expected": ["回营"], "roi": [1,2,3,4] } } }"#)
            .unwrap()
            .unwrap();
    assert_eq!(kind, "OCR");
    let expected = params.iter().find(|(k, _)| k == "expected").map(|(_, v)| v).unwrap();
    assert_eq!(expected, &load(r#"["回营"]"#).unwrap());
}

#[test]
fn nodes_without_recognition_are_reported() {
    assert!(node_recognition(r#"{ "action": "Click" }"#).unwrap().is_none());
}

#[test]
fn nested_recognition_needs_a_type_name() {
    assert!(node_recognition(r#"{"recognition": {"param": {"a": 1}}}"#).unwrap().is_none());
    let (kind, params) = node_recognition(r#"{"recognition": {"type": "OCR", "param": 5}}"#).unwrap().unwrap();
    assert_eq!(kind, "OCR");
    assert!(params.is_empty());
    assert!(node_recognition(r#"{"recognition": 3}"#).unwrap().is_none());
    assert!(matches!(node_recognition("{not json"), Err(PipelineError::Json)));
    let node = load(r#"{"recognition": "X", "roi": [1]}"#).unwrap();
    let (_, params) = recognition_of(&node).unwrap();
    assert_eq!(&params[0].1, get(&node, "roi").unwrap());
}

#[test]
fn trial_plans_report_missing_nodes_and_recognitions() {
    assert!(matches!(trial_plan(None), Ok(TrialPlan::Refused(TrialError::NoSuchNode))));
    assert!(matches!(trial_plan(Some("{\"action\": \"Click\"}")), Ok(TrialPlan::Refused(TrialError::NoRecognition))));
    assert!(matches!(trial_plan(Some("{")), Err(PipelineError::Json)));
    match trial_plan(Some("{\"recognition\": \"OCR\", \"roi\": [1, 2, 3, 4]}")) {
        Ok(TrialPlan::Run(kind, params)) => {
            assert_eq!(kind, "OCR");
            assert_eq!(names(&params), keys(&["roi"]));
        }
        _ => panic!("a node with a recognition runs"),
    }
    assert_eq!(TrialError::NoSuchNode.message(), "节点不存在");
    assert_eq!(TrialError::NoRecognition.message(), "节点没有识别配置");
    assert_eq!(TrialError::NotReported.message(), "框架未回报识别结果");
}

#[test]
fn the_first_recognition_event_is_the_trial_result() {
    assert_eq!(first_recognition(&vec![EventKind::Action, EventKind::Recognition, EventKind::Recognition]), Some(1));
    assert_eq!(first_recognition(&vec![EventKind::Action]), None);
    assert_eq!(first_recognition(&vec![]), None);
}
