use depends_on_rs::config::{HumanDuration, WaitFor};
use depends_on_rs::ready::{
    exit_step, readiness, ExitObservation, LogEvent, LogWatch, PortEvent, PortWait, ReadyError, Step, Strategy,
};

#[test]
fn readiness_prefers_port_then_exit_then_log() {
    let w = WaitFor {
        port: Some(8080),
        exit_code: Some(0),
        log_pattern: Some("x".to_string()),
        timeout: None,
    };
    let r = readiness(&w);
    assert!(matches!(r.strategy, Strategy::Port(8080)));
    assert_eq!(r.timeout, HumanDuration { secs: 30, nanos: 0 });
    let w = WaitFor {
        log_pattern: Some("ready".to_string()),
        timeout: Some(HumanDuration { secs: 2, nanos: 0 }),
        ..Default::default()
    };
    let r = readiness(&w);
    assert!(matches!(r.strategy, Strategy::LogPattern(ref p) if p == "ready"));
    assert_eq!(r.timeout, HumanDuration { secs: 2, nanos: 0 });
    assert!(matches!(readiness(&WaitFor::default()).strategy, Strategy::Immediate));
}

#[test]
fn port_wait_backs_off() {
    let mut w = PortWait::new();
    let name = "server".to_string();
    let mut pauses = Vec::new();
    for _ in 0..6 {
        match w.step(&name, 18081, PortEvent::Refused) {
            Step::Pause(ms) => pauses.push(ms),
            other => panic!("unexpected {other:?}"),
        }
    }
    assert_eq!(pauses, vec![50, 100, 200, 400, 500, 500]);
    assert!(matches!(w.step(&name, 18081, PortEvent::Connected), Step::Ready));
    match w.step(&name, 18081, PortEvent::DeadlinePassed) {
        Step::Failed(e) => assert_eq!(e.message(), "target \"server\": timed out waiting for port 18081"),
        other => panic!("unexpected {other:?}"),
    }
}

#[test]
fn exit_step_decisions() {
    let name = "prep".to_string();
    assert!(matches!(exit_step(&name, 0, ExitObservation::Exited(Some(0))), Step::Ready));
    assert!(matches!(exit_step(&name, 0, ExitObservation::Running), Step::Pause(20)));
    match exit_step(&name, 0, ExitObservation::Exited(Some(3))) {
        Step::Failed(e) => assert_eq!(e.message(), "target \"prep\": exited with code 3, expected 0"),
        other => panic!("unexpected {other:?}"),
    }
    match exit_step(&name, -1, ExitObservation::Exited(None)) {
        Step::Failed(e) => assert_eq!(e.message(), "target \"prep\": exited without a code"),
        other => panic!("unexpected {other:?}"),
    }
    match exit_step(&name, 0, ExitObservation::TimedOut) {
        Step::Failed(e) => assert_eq!(e.message(), "target \"prep\": timed out waiting for exit"),
        other => panic!("unexpected {other:?}"),
    }
}

#[test]
fn log_watch_matches_pattern() {
    let watch = LogWatch::new(&"ready n.w$".to_string()).expect("valid pattern");
    assert!(watch.matches("ready now"));
    assert!(!watch.matches("booting"));
    let name = "server".to_string();
    assert!(matches!(watch.step(&name, LogEvent::Line("booting".to_string())), Step::Pause(0)));
    assert!(matches!(watch.step(&name, LogEvent::Line("it is ready now".to_string())), Step::Ready));
    match watch.step(&name, LogEvent::Closed) {
        Step::Failed(e) => assert_eq!(
            e.message(),
            "target \"server\": log stream closed before readiness pattern matched"
        ),
        other => panic!("unexpected {other:?}"),
    }
    match watch.step(&name, LogEvent::TimedOut) {
        Step::Failed(e) => assert_eq!(e.message(), "target \"server\": timed out waiting for log pattern \"ready n.w$\""),
        other => panic!("unexpected {other:?}"),
    }
}

#[test]
fn log_watch_rejects_invalid_pattern() {
    match LogWatch::new(&"ready(".to_string()) {
        Err(e @ ReadyError::InvalidPattern { .. }) => assert_eq!(e.message(), "invalid log pattern \"ready(\""),
        _ => panic!("pattern should be rejected"),
    }
}

#[test]
fn human_duration_parse_and_text() {
    assert_eq!(HumanDuration::parse("10s"), Ok(HumanDuration { secs: 10, nanos: 0 }));
    assert_eq!(HumanDuration::parse("1.5s"), Ok(HumanDuration { secs: 1, nanos: 500_000_000 }));
    assert_eq!(HumanDuration::parse("2h 37min"), Ok(HumanDuration { secs: 9420, nanos: 0 }));
    assert_eq!(HumanDuration::parse("0"), Ok(HumanDuration { secs: 0, nanos: 0 }));
    assert!(HumanDuration::parse("").is_err());
    assert!(HumanDuration::parse("ten seconds").is_err());
    let d = HumanDuration { secs: 9420, nanos: 32_000_000 };
    assert_eq!(d.to_text(), "2h 37m 32ms");
    assert_eq!(HumanDuration::parse(&d.to_text()), Ok(d));
    assert_eq!(HumanDuration::from_secs(0).to_text(), "0s");
}

#[test]
fn human_duration_refuses_sum_near_overflow() {
    assert!(HumanDuration::parse("18446744073709551615s 1000ms").is_err());
    assert!(HumanDuration::parse("18446744073709551614s 5s").is_err());
    assert_eq!(HumanDuration::parse("100000000s"), Ok(HumanDuration { secs: 100_000_000, nanos: 0 }));
    assert_eq!(HumanDuration::parse("1000000000000000s"), Ok(HumanDuration { secs: 1_000_000_000_000_000, nanos: 0 }));
    assert_eq!(HumanDuration::parse("1000000000000ns"), Ok(HumanDuration { secs: 1000, nanos: 0 }));
    assert_eq!(
        HumanDuration::parse("10000000000000y"),
        Err("duration is too large".to_string())
    );
}

#[test]
fn human_duration_text_reads_back() {
    let durations = [
        HumanDuration { secs: 3599, nanos: 999_999_999 },
        HumanDuration { secs: 0, nanos: 1 },
        HumanDuration { secs: 31_557_600 * 3 + 86_400 + 7, nanos: 500_000_000 },
        HumanDuration { secs: 1_000_000_000_000, nanos: 0 },
    ];
    for d in durations {
        assert_eq!(HumanDuration::parse(&d.to_text()), Ok(d));
    }
    assert_eq!(HumanDuration { secs: 3599, nanos: 999_999_999 }.to_text(), "59m 59s 999ms 999us 999ns");
}

#[test]
fn human_duration_parse_error_text() {
    assert_eq!(HumanDuration::parse("ten seconds"), Err("expected number at 0".to_string()));
    assert_eq!(HumanDuration::parse("10"), Err("time unit needed, for example 10sec or 10ms".to_string()));
    assert_eq!(
        HumanDuration::parse("18446744073709551615s 1000ms"),
        Err("duration is too large".to_string())
    );
}
