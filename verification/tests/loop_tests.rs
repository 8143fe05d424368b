use hyperbase_mqtt::publisher::{effective_count, effective_delay, DrainEvent, DrainState, DrainVerdict};
use hyperbase_mqtt::subscriber::{subscriber_step, SubAction, SubEvent};

fn b(s: &str) -> Vec<u8> {
    s.as_bytes().to_vec()
}

const U1: &str = "123e4567-e89b-12d3-a456-426614174000";
const U2: &str = "00000000-0000-7000-8000-000000000001";

fn payload_doc(collection_id: &str) -> Vec<u8> {
    format!(
        "{{\"project_id\":\"{U1}\",\"token_id\":\"{U1}\",\
         \"collection_id\":\"{collection_id}\"}}"
    )
    .into_bytes()
}

#[test]
fn count_of_one_or_less_means_one_publish() {
    assert_eq!(effective_count(&None), 1);
    assert_eq!(effective_count(&Some(0)), 1);
    assert_eq!(effective_count(&Some(1)), 1);
}

#[test]
fn larger_counts_stand_as_given() {
    assert_eq!(effective_count(&Some(2)), 2);
    assert_eq!(effective_count(&Some(1000)), 1000);
}

#[test]
fn delay_defaults_to_zero_seconds() {
    assert_eq!(effective_delay(&None), 0);
    assert_eq!(effective_delay(&Some(0)), 0);
    assert_eq!(effective_delay(&Some(7)), 7);
}

#[test]
fn drain_loop_finishes_exactly_at_the_third_publish() {
    let mut state = DrainState::new(3);
    assert_eq!(state.on_event(DrainEvent::Incoming), DrainVerdict::Continue);
    assert_eq!(state.on_event(DrainEvent::OutgoingPublish), DrainVerdict::Continue);
    assert_eq!(state.published, 1);
    assert_eq!(state.on_event(DrainEvent::OutgoingOther), DrainVerdict::Continue);
    assert_eq!(state.on_event(DrainEvent::OutgoingPublish), DrainVerdict::Continue);
    assert_eq!(state.published, 2);
    assert_eq!(state.on_event(DrainEvent::Incoming), DrainVerdict::Continue);
    assert_eq!(state.on_event(DrainEvent::OutgoingPublish), DrainVerdict::Complete);
    assert_eq!(state.published, 3);
}

#[test]
fn drain_loop_with_target_one_finishes_at_first_publish() {
    let mut state = DrainState::new(1);
    assert_eq!(state.on_event(DrainEvent::Incoming), DrainVerdict::Continue);
    assert_eq!(state.on_event(DrainEvent::OutgoingPublish), DrainVerdict::Complete);
}

#[test]
fn drain_loop_stops_when_the_publish_task_fails() {
    let mut state = DrainState::new(5);
    assert_eq!(state.on_event(DrainEvent::OutgoingPublish), DrainVerdict::Continue);
    assert_eq!(state.on_event(DrainEvent::PublishFailed), DrainVerdict::Failed);
    assert!(state.failed);
    assert_eq!(state.published, 1);
}

#[test]
fn non_json_body_is_reported_and_loop_continues() {
    let a = subscriber_step(SubEvent::Publish(b("certainly not json")), None);
    assert_eq!(a, SubAction::ReportParseFailure);
    // the loop keeps going: a later good packet is still printed
    let a = subscriber_step(SubEvent::Publish(payload_doc(U1)), None);
    assert!(matches!(a, SubAction::PrintPayload(_)));
}

#[test]
fn json_body_that_is_no_payload_is_reported() {
    let a = subscriber_step(SubEvent::Publish(b("{\"x\":1}")), None);
    assert_eq!(a, SubAction::ReportParseFailure);
}

#[test]
fn filter_prints_only_matching_collection() {
    let filter = b(U1);
    let a = subscriber_step(SubEvent::Publish(payload_doc(U1)), Some(&filter));
    match a {
        SubAction::PrintPayload(p) => assert_eq!(p.collection_id, b(U1)),
        other => panic!("unexpected action {other:?}"),
    }
    let a = subscriber_step(SubEvent::Publish(payload_doc(U2)), Some(&filter));
    assert_eq!(a, SubAction::Skip);
}

#[test]
fn other_packets_are_logged_and_poll_errors_stop() {
    assert_eq!(subscriber_step(SubEvent::OtherPacket, None), SubAction::LogPacket);
    let a = subscriber_step(SubEvent::PollError(b("connection reset")), None);
    assert_eq!(a, SubAction::Stop(b("connection reset")));
}
