use hca::agent::HDQAgent;
use hca::bundle::bundle;
use hca::hypervector::Hypervector;

#[test]
fn agent_starts_blank() {
    let a: HDQAgent<f64> = HDQAgent::new(&["move", "jump", "move"]);
    assert_eq!(a.actions.len(), 2);
    assert_eq!(a.actions.get("jump").unwrap().data, Hypervector::from_string("jump", None).data);
    assert_eq!(a.q_brain.concept_id, "q_brain");
    assert_eq!(a.q_brain.data, Hypervector::from_string("blank_slate", None).data);
    assert!(a.experience_buffer.is_empty());
}

#[test]
fn choose_action_picks_closest() {
    let a: HDQAgent<f64> = HDQAgent::new(&["move", "jump", "duck"]);
    let state = Hypervector::from_string("obstacle", None);
    let name = a.choose_action(&state);
    let intent = a.q_brain.bind(&state);
    let best = ["move", "jump", "duck"]
        .iter()
        .map(|n| a.actions.get(n).unwrap().hamming_distance(&intent))
        .min()
        .unwrap();
    assert_eq!(a.actions.get(&name).unwrap().hamming_distance(&intent), best);
}

#[test]
fn choose_action_without_actions_is_empty() {
    let a: HDQAgent<f64> = HDQAgent::new(&[]);
    assert_eq!(a.choose_action(&Hypervector::from_string("s", None)), "");
}

#[test]
fn learn_rewarded_updates_policy() {
    let mut a: HDQAgent<f64> = HDQAgent::new(&["move", "jump"]);
    let state = Hypervector::from_string("obstacle", None);
    let before = a.q_brain.clone();
    a.learn(&state, "jump", 1.0, true);
    let exp = state.bind(a.actions.get("jump").unwrap());
    assert_eq!(a.q_brain.data, bundle(&[before, exp]).data);
    assert_eq!(a.experience_buffer.len(), 1);
    assert_eq!(a.experience_buffer[0].1, "jump");
    assert_eq!(a.experience_buffer[0].0.source_text, "obstacle");
    assert_eq!(a.choose_action(&state), "jump");
}

#[test]
fn learn_unrewarded_keeps_policy() {
    let mut a: HDQAgent<f64> = HDQAgent::new(&["move"]);
    let before = a.q_brain.data.clone();
    a.learn(&Hypervector::from_string("s", None), "move", -1.0, false);
    a.learn(&Hypervector::from_string("s", None), "unknown", 1.0, true);
    assert_eq!(a.q_brain.data, before);
    assert_eq!(a.experience_buffer.len(), 2);
}

#[test]
fn experience_buffer_is_bounded() {
    let mut a: HDQAgent<u32> = HDQAgent::new(&["move"]);
    let s = Hypervector { data: vec![1, 2], concept_id: "s".into(), source_text: String::new() };
    for i in 0..1005u32 {
        a.learn(&s, "none", i, false);
    }
    assert_eq!(a.experience_buffer.len(), 1000);
    assert_eq!(a.experience_buffer[0].2, 5);
    assert_eq!(a.experience_buffer[999].2, 1004);
}
