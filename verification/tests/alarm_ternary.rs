use plato_ternary_bridge::alarm_ternary::{AlarmPriority, TernaryAlarm};
use plato_ternary_bridge::room_state::TernaryRoomState;

#[test]
fn no_alarm_all_zero() {
    let state = TernaryRoomState::new(vec![0, 0, 0, 0]);
    let alarm = TernaryAlarm::evaluate(state);
    assert!(!alarm.is_alarm());
    assert_eq!(alarm.priority(), AlarmPriority::NoAlarm);
    assert_eq!(alarm.alarm_count(), 0);
}

#[test]
fn single_sensor_alarm_positive() {
    let state = TernaryRoomState::new(vec![0, 1, 0, 0]);
    let alarm = TernaryAlarm::evaluate(state);
    assert!(alarm.is_alarm());
    assert_eq!(alarm.priority(), AlarmPriority::Low);
    assert_eq!(alarm.alarm_count(), 1);
    assert_eq!(alarm.severity_at(1), Some(1));
}

#[test]
fn single_sensor_alarm_negative() {
    let state = TernaryRoomState::new(vec![0, 0, -1, 0]);
    let alarm = TernaryAlarm::evaluate(state);
    assert!(alarm.is_alarm());
    assert_eq!(alarm.alarm_count(), 1);
    assert_eq!(alarm.severity_at(2), Some(-1));
}

#[test]
fn multi_sensor_alarm() {
    let state = TernaryRoomState::new(vec![-1, 0, 1, -1]);
    let alarm = TernaryAlarm::evaluate(state);
    assert_eq!(alarm.alarm_count(), 3);
    assert_eq!(alarm.priority(), AlarmPriority::Medium);
    assert_eq!(alarm.alarm_vector(), vec![-1, 1, -1]);
}

#[test]
fn high_priority_alarm() {
    let state = TernaryRoomState::new(vec![-1, 1, -1, 1, -1]);
    let alarm = TernaryAlarm::evaluate(state);
    assert_eq!(alarm.alarm_count(), 5);
    assert_eq!(alarm.priority(), AlarmPriority::High);
}

#[test]
fn display_ok() {
    let state = TernaryRoomState::new(vec![0, 0]);
    let alarm = TernaryAlarm::evaluate(state);
    assert_eq!(alarm.to_string(), "OK");
}

#[test]
fn display_alarm() {
    let state = TernaryRoomState::new(vec![1, 0, -1]);
    let alarm = TernaryAlarm::evaluate(state);
    let s = alarm.to_string();
    assert!(s.contains("ALARM"));
    assert!(s.contains("Low"));
}

#[test]
fn display_alarm_exact_text() {
    let alarm = TernaryAlarm::evaluate(TernaryRoomState::new(vec![1, 0, -1]));
    assert_eq!(alarm.to_string(), "ALARM Low [0:+1,2:-1] [1, -1]");
    let alarm = TernaryAlarm::evaluate(TernaryRoomState::new(vec![
        0, 0, 0, 0, 0, 0, 0, 0, 0, 0, 0, -1, 1, 0, 1, -1,
    ]));
    assert_eq!(alarm.to_string(), "ALARM Medium [11:-1,12:+1,14:+1,15:-1] [-1, 1, 1, -1]");
}

#[test]
fn severity_of_quiet_or_missing_sensor_is_none() {
    let alarm = TernaryAlarm::evaluate(TernaryRoomState::new(vec![0, 1, 0]));
    assert_eq!(alarm.severity_at(0), None);
    assert_eq!(alarm.severity_at(2), None);
    assert_eq!(alarm.severity_at(7), None);
    assert_eq!(alarm.severity_at(1), Some(1));
}

#[test]
fn alarmed_indices_in_sensor_order() {
    let alarm = TernaryAlarm::evaluate(TernaryRoomState::new(vec![1, 0, -1, 0, 1, 1]));
    assert_eq!(alarm.alarmed_indices(), &[0, 2, 4, 5]);
    assert_eq!(alarm.alarm_vector(), vec![1, -1, 1, 1]);
    assert_eq!(alarm.priority(), AlarmPriority::Medium);
    assert_eq!(alarm.state().trits(), &[1, 0, -1, 0, 1, 1]);
}

#[test]
fn priority_boundaries() {
    let p = |v: Vec<i8>| TernaryAlarm::evaluate(TernaryRoomState::new(v)).priority();
    assert_eq!(p(vec![1, 1]), AlarmPriority::Low);
    assert_eq!(p(vec![1, 1, -1, -1]), AlarmPriority::Medium);
    assert_eq!(p(vec![]), AlarmPriority::NoAlarm);
    assert!(AlarmPriority::NoAlarm < AlarmPriority::Low);
    assert!(AlarmPriority::Medium < AlarmPriority::High);
}

#[test]
fn cloned_alarm_keeps_state() {
    let alarm = TernaryAlarm::evaluate(TernaryRoomState::new(vec![0, -1]));
    let copy = alarm.clone();
    assert_eq!(copy.alarm_count(), 1);
    assert_eq!(copy.state(), alarm.state());
}
