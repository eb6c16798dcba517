use sensor_alert::decimal::Reading;
use sensor_alert::extract::ExtractError;
use sensor_alert::mail::make_email;
use sensor_alert::monitor::{outcome_of_fetch, subject, AlertState, ClearPolicy, Failure, Outcome};

fn reading(s: &str) -> Outcome {
    Outcome::Reading(Reading::parse(s).unwrap())
}

fn threshold() -> Reading {
    Reading::parse("25.0").unwrap()
}

fn subject_text(o: &Outcome) -> String {
    String::from_utf8(subject(o)).unwrap()
}

#[test]
fn starts_quiet() {
    assert!(!AlertState::new().alerting);
}

#[test]
fn toggle_three_cycles_send_two_notifications() {
    let t = threshold();
    let mut state = AlertState::new();
    let mut sent = 0;
    let n1 = state.step(reading("30"), &t);
    assert!(state.alerting);
    sent += n1.is_some() as i32;
    let n2 = state.step(reading("40"), &t);
    assert!(!state.alerting);
    assert!(n2.is_none());
    sent += n2.is_some() as i32;
    let n3 = state.step(Outcome::Failure(Failure::Extract(ExtractError::PatternNotFound)), &t);
    assert!(state.alerting);
    sent += n3.is_some() as i32;
    assert_eq!(sent, 2);
}

#[test]
fn reading_equal_to_threshold_does_not_alert() {
    let t = threshold();
    let mut state = AlertState::new();
    assert!(state.step(reading("25.0"), &t).is_none());
    assert!(!state.alerting);
    assert!(state.step(reading("25"), &t).is_none());
    assert!(!state.alerting);
}

#[test]
fn reading_one_unit_above_threshold_alerts() {
    let t = threshold();
    let mut state = AlertState::new();
    let n = state.step(reading("26.0"), &t).unwrap();
    assert!(state.alerting);
    assert_eq!(subject_text(&n), "Temperature = 26!");
}

#[test]
fn end_to_end_sequence() {
    let t = threshold();
    let mut state = AlertState::new();
    let mut flags = Vec::new();
    let mut notified = Vec::new();
    for (cycle, value) in ["20.0", "30.0", "20.0", "30.0"].iter().enumerate() {
        let page = format!("<div class=\"value\" id=\"s215\">{}&nbsp;°C</div>", value);
        let outcome = outcome_of_fetch(Ok(page));
        if let Some(n) = state.step(outcome, &t) {
            assert_eq!(subject_text(&n), "Temperature = 30!");
            notified.push(cycle + 1);
        }
        flags.push(state.alerting);
    }
    assert_eq!(flags, vec![false, true, false, true]);
    assert_eq!(notified, vec![2, 4]);
}

#[test]
fn fetch_failure_alerts_with_description() {
    let t = threshold();
    let mut state = AlertState::new();
    let outcome = outcome_of_fetch(Err("connection refused".to_string()));
    let n = state.step(outcome, &t).expect("a notification");
    assert!(state.alerting);
    assert_eq!(subject_text(&n), "connection refused");
}

#[test]
fn failure_while_alerting_clears_silently() {
    let t = threshold();
    let mut state = AlertState { alerting: true };
    let n = state.step(outcome_of_fetch(Err("timeout".to_string())), &t);
    assert!(n.is_none());
    assert!(!state.alerting);
}

#[test]
fn extract_failures_become_outcomes() {
    match outcome_of_fetch(Ok("<p>nothing</p>".to_string())) {
        Outcome::Failure(Failure::Extract(e)) => assert_eq!(e, ExtractError::PatternNotFound),
        other => panic!("unexpected {:?}", other),
    }
    let o = outcome_of_fetch(Ok("id=\"s215\">n/a".to_string()));
    assert_eq!(subject_text(&o), "Cannot parse temperature");
    let o = outcome_of_fetch(Ok("id=\"s215\">-".to_string()));
    assert_eq!(subject_text(&o), "Cannot parse temperature");
    let o = outcome_of_fetch(Ok("id=\"s215\">1-2".to_string()));
    assert_eq!(subject_text(&o), "Temperature = 1!");
    let o = outcome_of_fetch(Ok("id=\"s215\">-4.25".to_string()));
    assert_eq!(subject_text(&o), "Temperature = -4.25!");
}

#[test]
fn email_lists_each_recipient() {
    let recipients = vec!["a@example.com".to_string(), "b@example.com".to_string()];
    let e = make_email("alerts@example.com", &recipients, b"Temperature = 30.0!".to_vec());
    assert_eq!(e.sender, "alerts@example.com");
    assert_eq!(e.to, recipients);
    assert_eq!(e.subject, b"Temperature = 30.0!".to_vec());
}

#[test]
fn email_without_recipients() {
    let e = make_email("alerts@example.com", &Vec::new(), b"x".to_vec());
    assert!(e.to.is_empty());
}

#[test]
fn level_policy_holds_alert_until_reading_drops() {
    let t = threshold();
    let mut state = AlertState::new();
    let mut flags = Vec::new();
    let mut sent = 0;
    for value in ["30.0", "31.0", "20.0", "30.0"] {
        if state.step_with(ClearPolicy::Level, reading(value), &t).is_some() {
            sent += 1;
        }
        flags.push(state.alerting);
    }
    assert_eq!(flags, vec![true, true, false, true]);
    assert_eq!(sent, 2);
}

#[test]
fn toggle_policy_matches_step() {
    let t = threshold();
    let mut a = AlertState::new();
    let mut b = AlertState::new();
    for value in ["30.0", "31.0", "20.0", "30.0", "30.0"] {
        let na = a.step(reading(value), &t).is_some();
        let nb = b.step_with(ClearPolicy::Toggle, reading(value), &t).is_some();
        assert_eq!(na, nb);
        assert_eq!(a, b);
    }
}
