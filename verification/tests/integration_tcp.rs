use socketup::check::{check_exit_code, Aggregate, AggregateFailure, Mode, ProbeResult, Step};
use socketup::config::{validate, CheckKind, RawCheck, RawConfig, RawDefaults};
use socketup::run::lookup_check;

/// Feeds the probe results of a check's targets, in order, through the
/// aggregation, as the probe runner does; returns the outcome and how many
/// results were used.
fn run(mode: Mode, results: Vec<ProbeResult>) -> (Result<(), AggregateFailure>, usize) {
    let mut state = Aggregate::new(mode);
    let mut used = 0;
    for r in &results {
        used += 1;
        match state.observe(r) {
            Step::Continue(next) => state = next,
            Step::Done(res) => return (res, used),
        }
    }
    (state.finish(), used)
}

fn raw(checks: Vec<(&str, Option<Mode>, Vec<String>)>) -> RawConfig {
    RawConfig::new(
        RawDefaults::default(),
        checks
            .into_iter()
            .map(|(n, mode, targets)| {
                (n.to_string(), RawCheck::Tcp { timeout_ms: None, mode, targets })
            })
            .collect(),
    )
    .expect("names in order")
}

fn exit_code_for(cfg: &socketup::config::Config, name: &str, results: Vec<ProbeResult>) -> u8 {
    match lookup_check(cfg, name) {
        Err((code, _)) => code,
        Ok(check) => match &check.kind {
            CheckKind::Tcp { mode, .. } => check_exit_code(&run(*mode, results).0),
        },
    }
}

#[test]
fn tcp_check_exit_codes_cover_success_failure_and_missing_check() {
    let port = 40000u16;
    let cfg = validate(raw(vec![
        ("admin", None, vec![format!("127.0.0.1:{}", port)]),
        ("closed", None, vec![format!("127.0.0.1:{}", port + 1)]),
    ]))
    .expect("valid");

    assert_eq!(exit_code_for(&cfg, "admin", vec![ProbeResult::Connected]), 0);
    assert_eq!(exit_code_for(&cfg, "admin", vec![ProbeResult::ConnectRefused]), 1);
    assert_eq!(exit_code_for(&cfg, "missing", vec![]), 6);
    match lookup_check(&cfg, "missing") {
        Err((_, msg)) => assert_eq!(msg, "unknown check 'missing'"),
        Ok(_) => panic!("missing check found"),
    }
}

#[test]
fn mode_any_succeeds_when_one_target_is_up() {
    let targets = vec!["127.0.0.1:40000".to_string(), "127.0.0.1:40001".to_string()];
    let cfg = validate(raw(vec![
        ("all-check", Some(Mode::All), targets.clone()),
        ("any-check", Some(Mode::Any), targets),
    ]))
    .expect("valid");
    let results = || vec![ProbeResult::Connected, ProbeResult::ConnectRefused];
    assert_eq!(exit_code_for(&cfg, "all-check", results()), 1);
    assert_eq!(exit_code_for(&cfg, "any-check", results()), 0);
}

#[test]
fn all_mode_stops_at_the_first_timeout() {
    let rs = vec![
        ProbeResult::ConnectRefused,
        ProbeResult::Timeout,
        ProbeResult::Connected,
    ];
    assert_eq!(run(Mode::All, rs), (Err(AggregateFailure::Timeout), 2));
    assert_eq!(
        run(Mode::All, vec![ProbeResult::Connected, ProbeResult::OtherErr("x".to_string())]),
        (Err(AggregateFailure::Failed), 2)
    );
    assert_eq!(run(Mode::All, vec![ProbeResult::Connected, ProbeResult::Connected]), (Ok(()), 2));
    assert_eq!(run(Mode::All, vec![]), (Ok(()), 0));
}

#[test]
fn any_mode_stops_at_the_first_success() {
    let rs = vec![ProbeResult::Timeout, ProbeResult::Connected, ProbeResult::ConnectRefused];
    assert_eq!(run(Mode::Any, rs), (Ok(()), 2));
    assert_eq!(
        run(Mode::Any, vec![ProbeResult::Timeout, ProbeResult::ConnectRefused]),
        (Err(AggregateFailure::Failed), 2)
    );
    assert_eq!(
        run(Mode::Any, vec![ProbeResult::Timeout, ProbeResult::Timeout]),
        (Err(AggregateFailure::Timeout), 2)
    );
    assert_eq!(run(Mode::Any, vec![]), (Err(AggregateFailure::Failed), 0));
}

#[test]
fn outcomes_map_to_exit_codes() {
    assert_eq!(check_exit_code(&Ok(())), 0);
    assert_eq!(check_exit_code(&Err(AggregateFailure::Failed)), 1);
    assert_eq!(check_exit_code(&Err(AggregateFailure::Timeout)), 7);
}
