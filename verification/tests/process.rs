use depends_on_rs::config::{Config, Target};
use depends_on_rs::envsubst::Environment;
use depends_on_rs::error::ProcessError;
use depends_on_rs::name_map::NameMap;
use depends_on_rs::process::{
    launch, output_sink, output_spec, pipe_links, stdin_source, stop_signal, LineBuffer, OutputSink,
    StdinSource, StopAction, StopEvent, StopPlan, StopSignal, StreamKind,
};

fn with_fds(pairs: &[(&str, &str)]) -> Target {
    let mut fds = NameMap::new();
    for (k, v) in pairs {
        fds.insert(k.to_string(), v.to_string());
    }
    Target {
        cmd: vec!["true".to_string()],
        fds,
        ..Default::default()
    }
}

#[test]
fn stdin_source_forms() {
    assert!(matches!(stdin_source(&with_fds(&[])), Ok(StdinSource::Inherit)));
    assert!(matches!(stdin_source(&with_fds(&[("stdin", "inherit")])), Ok(StdinSource::Inherit)));
    assert!(matches!(stdin_source(&with_fds(&[("stdin", "null")])), Ok(StdinSource::Null)));
    assert!(matches!(stdin_source(&with_fds(&[("stdin", "file:in.txt")])), Ok(StdinSource::File(ref p)) if p == "in.txt"));
    assert!(matches!(stdin_source(&with_fds(&[("stdin", "pipe:a.stdout")])), Ok(StdinSource::Pipe)));
    let err = stdin_source(&with_fds(&[("stdin", "tcp:1")])).unwrap_err();
    assert_eq!(err.message(), "unsupported stdin fd spec \"tcp:1\"");
}

#[test]
fn output_spec_prefers_fds_then_legacy() {
    let t = with_fds(&[("stdout", "null")]);
    assert_eq!(output_spec(&t, "stdout", &Some("x.log".to_string())), Some("null".to_string()));
    assert_eq!(output_spec(&t, "stderr", &Some("e.log".to_string())), Some("file:e.log".to_string()));
    assert_eq!(output_spec(&t, "stderr", &None), None);
}

#[test]
fn output_sink_forms() {
    assert!(matches!(output_sink(None, OutputSink::InheritStdout), Ok(OutputSink::InheritStdout)));
    let inherit = "inherit".to_string();
    assert!(matches!(output_sink(Some(&inherit), OutputSink::InheritStderr), Ok(OutputSink::InheritStderr)));
    let null = "null".to_string();
    assert!(matches!(output_sink(Some(&null), OutputSink::InheritStdout), Ok(OutputSink::Null)));
    let file = "file:file:logs/out".to_string();
    assert!(matches!(output_sink(Some(&file), OutputSink::InheritStdout), Ok(OutputSink::File(ref p)) if p == "logs/out"));
    let bad = "tcp:9".to_string();
    let err = output_sink(Some(&bad), OutputSink::InheritStdout).unwrap_err();
    assert_eq!(err.message(), "unsupported output sink \"tcp:9\"");
}

#[test]
fn pipe_links_in_order() {
    let mut config = Config::new();
    config.insert("producer".to_string(), with_fds(&[]));
    config.insert("consumer".to_string(), with_fds(&[("stdin", "pipe:producer.stderr")]));
    config.insert("other".to_string(), with_fds(&[("stdin", "null")]));
    let order = vec!["producer".to_string(), "consumer".to_string(), "other".to_string()];
    let links = pipe_links(&config, &order).expect("valid");
    assert_eq!(links.len(), 1);
    assert_eq!(links[0].consumer, "consumer");
    assert_eq!(links[0].source, "producer");
    assert_eq!(links[0].stream, StreamKind::Stderr);
}

#[test]
fn pipe_links_errors() {
    let mut config = Config::new();
    config.insert("a".to_string(), with_fds(&[("stdin", "pipe:nodot")]));
    config.insert("b".to_string(), with_fds(&[("stdin", "pipe:a.stdin")]));
    let err = pipe_links(&config, &["a".to_string(), "b".to_string()]).unwrap_err();
    assert_eq!(err.message(), "invalid pipe source \"pipe:nodot\"");
    let err = pipe_links(&config, &["b".to_string()]).unwrap_err();
    assert!(matches!(err, ProcessError::UnsupportedPipeStream { ref stream } if stream == "stdin"));
    assert_eq!(err.message(), "unsupported pipe source stream \"stdin\"");
}

#[test]
fn stop_signal_names() {
    assert_eq!(stop_signal(None), StopSignal::Terminate);
    assert_eq!(stop_signal(Some("SIGINT")), StopSignal::Interrupt);
    assert_eq!(stop_signal(Some("SIGKILL")), StopSignal::Kill);
    assert_eq!(stop_signal(Some("SIGHUP")), StopSignal::Terminate);
}

#[test]
fn launch_expands_arguments_again() {
    let mut env = Environment::new();
    env.set("N".to_string(), "3".to_string());
    let mut vars = NameMap::new();
    vars.insert("COUNT".to_string(), "${N}".to_string());
    let t = Target {
        cmd: vec!["${PROG}".to_string(), "-n".to_string(), "${N}".to_string()],
        cwd: Some("dir${N}".to_string()),
        env: vars,
        ..Default::default()
    };
    let l = launch(&"t".to_string(), &t, &env).expect("has cmd");
    assert_eq!(l.program, "${PROG}");
    assert_eq!(l.args, vec!["-n".to_string(), "3".to_string()]);
    assert_eq!(l.cwd, Some("dir3".to_string()));
    assert_eq!(l.env.get("COUNT"), Some(&"3".to_string()));
    let empty = Target::default();
    let err = launch(&"t".to_string(), &empty, &env).unwrap_err();
    assert_eq!(err.message(), "target \"t\": empty cmd");
}

#[test]
fn line_buffer_splits_lines() {
    let mut buf = LineBuffer::new();
    assert!(buf.push(b"boo").is_empty());
    let lines = buf.push(b"ting\nready now\nrest");
    assert_eq!(lines, vec![b"booting".to_vec(), b"ready now".to_vec()]);
    let lines = buf.push(b"\n\n");
    assert_eq!(lines, vec![b"rest".to_vec(), Vec::new()]);
    let mut buf2 = LineBuffer::new();
    buf2.push(b"tail");
    assert_eq!(buf2.finish(), Some(b"tail".to_vec()));
    assert_eq!(LineBuffer::new().finish(), None);
}

#[test]
fn stop_plan_signals_once_then_polls_and_escalates() {
    let configured = vec![Some("SIGINT".to_string()), None, Some("SIGKILL".to_string())];
    let mut plan = StopPlan::new();
    match plan.step(&configured, StopEvent::Begin) {
        StopAction::Signal(signals) => {
            assert_eq!(signals, vec![StopSignal::Interrupt, StopSignal::Terminate, StopSignal::Kill]);
        }
        _ => panic!("the first stop sends signals"),
    }
    assert!(matches!(plan.step(&configured, StopEvent::Waited { elapsed_ms: 0 }), StopAction::Poll));
    assert!(matches!(plan.step(&configured, StopEvent::Polled { all_exited: false }), StopAction::Pause(50)));
    assert!(matches!(plan.step(&configured, StopEvent::Waited { elapsed_ms: 2999 }), StopAction::Poll));
    assert!(matches!(plan.step(&configured, StopEvent::Waited { elapsed_ms: 3000 }), StopAction::KillAll));
    assert!(matches!(plan.step(&configured, StopEvent::Polled { all_exited: true }), StopAction::Done));
    assert!(matches!(plan.step(&configured, StopEvent::Begin), StopAction::Done));
}
