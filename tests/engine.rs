use serviced::command::{ExecError, ParsedExec};
use serviced::manager::{ExitOutcome, Manager, StopError};
use serviced::ready::{get_pid, parse_pid, PidError, PID_VARIABLE};
use serviced::sort::{sort_services, SortError};
use serviced::types::{Command, Exec, IoOption, PartialConfig, Service, Status};

fn service(id: &str, deps: &[&str]) -> Service {
    let mut s = Service::new(id.to_string(), format!("service {id}"), Exec(format!("/bin/{id}")));
    s.dependencies = deps.iter().map(|d| d.to_string()).collect();
    s
}

fn ids(services: &[Service]) -> Vec<String> {
    services.iter().map(|s| s.id.clone()).collect()
}

fn manager(services: Vec<Service>) -> Manager {
    let entries = services.into_iter().map(|s| (s.id.clone(), s)).collect();
    Manager::new(entries).expect("valid graph")
}

fn parse(line: &str) -> Result<ParsedExec, ExecError> {
    Exec(line.to_string()).parse()
}

/// Starts service `i` as the supervisor would, with `pid` as its child.
fn start_one(m: &mut Manager, i: usize, pid: i32) {
    m.begin_start(i);
    assert!(m.dependencies_running(i));
    m.record_spawn(i, pid);
}

#[test]
fn linear_chain_sorts_and_starts() {
    let input = vec![service("c", &["b"]), service("a", &[]), service("b", &["a"])];
    let sorted = sort_services(&input).unwrap();
    assert_eq!(ids(&sorted), vec!["a", "b", "c"]);

    let mut m = manager(input);
    assert_eq!(m.startable(), vec![0, 1, 2]);
    for (i, pid) in [(0usize, 10i32), (1, 11), (2, 12)] {
        start_one(&mut m, i, pid);
        assert_eq!(m.status_of(i), Status::Starting);
        assert!(m.apply_ready(pid));
        assert_eq!(m.status_of(i), Status::Running);
    }
}

#[test]
fn diamond_sorts_alphabetically_and_waits_for_both() {
    let input = vec![
        service("d", &["b", "c"]),
        service("c", &["a"]),
        service("b", &["a"]),
        service("a", &[]),
    ];
    assert_eq!(ids(&sort_services(&input).unwrap()), vec!["a", "b", "c", "d"]);

    let mut m = manager(input);
    start_one(&mut m, 0, 1);
    m.apply_ready(1);
    start_one(&mut m, 1, 2);
    start_one(&mut m, 2, 3);
    m.begin_start(3);
    assert!(!m.dependencies_running(3));
    m.apply_ready(2);
    assert!(!m.dependencies_running(3));
    m.apply_ready(3);
    assert!(m.dependencies_running(3));
}

#[test]
fn cycle_is_detected() {
    let input = vec![service("a", &["b"]), service("b", &["a"])];
    assert!(matches!(sort_services(&input), Err(SortError::CycleDetected)));
    let entries = input.into_iter().map(|s| (s.id.clone(), s)).collect();
    assert!(matches!(Manager::new(entries), Err(SortError::CycleDetected)));
}

#[test]
fn self_dependency_is_a_cycle() {
    let input = vec![service("a", &["a"])];
    assert!(matches!(sort_services(&input), Err(SortError::CycleDetected)));
}

#[test]
fn unknown_dependency_is_reported() {
    let input = vec![service("a", &[]), service("b", &["a", "ghost"])];
    match sort_services(&input) {
        Err(SortError::UnknownDependency { service, dependency }) => {
            assert_eq!(service, "b");
            assert_eq!(dependency, "ghost");
        }
        other => panic!("unexpected {other:?}"),
    }
}

#[test]
fn duplicate_dependencies_are_ignored() {
    let input = vec![service("b", &["a", "a"]), service("a", &[])];
    assert_eq!(ids(&sort_services(&input).unwrap()), vec!["a", "b"]);
}

#[test]
fn sort_ignores_input_order() {
    let one = vec![service("x", &[]), service("m", &["x"]), service("b", &[]), service("k", &["b"])];
    let two = vec![service("k", &["b"]), service("b", &[]), service("m", &["x"]), service("x", &[])];
    let first = ids(&sort_services(&one).unwrap());
    assert_eq!(first, ids(&sort_services(&two).unwrap()));
    assert_eq!(first, vec!["b", "x", "k", "m"]);
}

#[test]
fn sort_places_freed_services_after_earlier_ones() {
    // "z" is freed by "a", before "b" is taken, so it comes before "c".
    let input = vec![service("a", &[]), service("b", &[]), service("z", &["a"]), service("c", &["b"])];
    assert_eq!(ids(&sort_services(&input).unwrap()), vec!["a", "b", "z", "c"]);
}

#[test]
fn sort_of_nothing_is_empty() {
    assert!(sort_services(&[]).unwrap().is_empty());
}

#[test]
fn sorted_services_keep_their_fields() {
    let mut a = service("a", &[]);
    a.enabled = false;
    a.io = vec![IoOption::Out];
    let sorted = sort_services(&[service("b", &["a"]), a]).unwrap();
    assert!(!sorted[0].enabled);
    assert_eq!(sorted[0].io, vec![IoOption::Out]);
    assert_eq!(sorted[1].dependencies, vec!["a".to_string()]);
    assert_eq!(sorted[0].exec_line.0, "/bin/a");
}

#[test]
fn disabled_service_is_not_started() {
    let mut c = service("c", &[]);
    c.enabled = false;
    let m = manager(vec![service("a", &[]), service("b", &["a"]), c]);
    let started: Vec<String> = m.startable().iter().map(|&i| m.services[i].id.clone()).collect();
    assert_eq!(started, vec!["a", "b"]);
    let c = m.find("c").unwrap();
    assert_eq!(m.status_of(c), Status::Stopped);
}

#[test]
fn late_ready_keeps_service_starting_until_signal() {
    let mut m = manager(vec![service("a", &[]), service("b", &["a"])]);
    start_one(&mut m, 0, 500);
    m.begin_start(1);
    assert_eq!(m.status_of(0), Status::Starting);
    assert!(!m.dependencies_running(1));
    assert!(m.apply_ready(500));
    assert_eq!(m.status_of(0), Status::Running);
    assert!(m.dependencies_running(1));
}

#[test]
fn unknown_origin_ready_is_ignored() {
    let mut m = manager(vec![service("a", &[])]);
    start_one(&mut m, 0, 42);
    assert!(!m.apply_ready(4242));
    assert_eq!(m.status_of(0), Status::Starting);
    assert_eq!(m.services[0].pid, Some(42));
}

#[test]
fn second_ready_is_a_no_op() {
    let mut m = manager(vec![service("a", &[])]);
    start_one(&mut m, 0, 7);
    assert!(m.apply_ready(7));
    assert!(!m.apply_ready(7));
    assert_eq!(m.status_of(0), Status::Running);
}

#[test]
fn ready_before_spawn_is_ignored() {
    let mut m = manager(vec![service("a", &[])]);
    m.begin_start(0);
    assert!(!m.apply_ready(0));
    assert_eq!(m.status_of(0), Status::Starting);
}

#[test]
fn stop_then_exit_reaches_stopped() {
    let mut m = manager(vec![service("a", &[])]);
    start_one(&mut m, 0, 9);
    m.apply_ready(9);
    assert_eq!(m.begin_stop("a"), Ok(9));
    assert_eq!(m.status_of(0), Status::Stopping);
    assert_eq!(m.child_exited(0), ExitOutcome::Stopped);
    assert_eq!(m.status_of(0), Status::Stopped);
    assert_eq!(m.services[0].pid, None);
}

#[test]
fn stop_errors() {
    let mut m = manager(vec![service("a", &[])]);
    assert_eq!(m.begin_stop("nope"), Err(StopError::UnknownService));
    assert_eq!(m.begin_stop("a"), Err(StopError::NotRunning));
    start_one(&mut m, 0, 3);
    assert_eq!(m.begin_stop("a"), Err(StopError::NotRunning));
    assert_eq!(m.status_of(0), Status::Starting);
}

#[test]
fn unexpected_exit_is_fatal() {
    let mut m = manager(vec![service("a", &[])]);
    start_one(&mut m, 0, 3);
    assert_eq!(m.child_exited(0), ExitOutcome::Fatal);
    m.apply_ready(3);
    assert_eq!(m.child_exited(0), ExitOutcome::Fatal);
    assert_eq!(m.status_of(0), Status::Running);
}

#[test]
fn manager_uses_keys_as_ids() {
    let entries = vec![
        ("web".to_string(), service("ignored", &["db"])),
        ("db".to_string(), service("other", &[])),
    ];
    let m = Manager::new(entries).unwrap();
    assert_eq!(ids(&m.services), vec!["db", "web"]);
    assert_eq!(m.find("web"), Some(1));
    assert_eq!(m.find("ignored"), None);
}

#[test]
fn exec_line_is_split() {
    let p = parse("FOO=1 BAR=baz /bin/svc --flag x=y").unwrap();
    assert_eq!(
        p.env,
        vec![("FOO".to_string(), "1".to_string()), ("BAR".to_string(), "baz".to_string())]
    );
    assert_eq!(p.program, "/bin/svc");
    assert_eq!(p.args, vec!["--flag".to_string(), "x=y".to_string()]);
}

#[test]
fn exec_value_keeps_later_equals() {
    let p = parse("  A=b=c\t prog  ").unwrap();
    assert_eq!(p.env, vec![("A".to_string(), "b=c".to_string())]);
    assert_eq!(p.program, "prog");
    assert!(p.args.is_empty());
}

#[test]
fn exec_round_trip() {
    let env = vec![("K".to_string(), "v=w".to_string()), ("EMPTY".to_string(), String::new())];
    let program = "/usr/bin/tool".to_string();
    let args = vec!["-x".to_string(), "a=b".to_string()];
    let mut words: Vec<String> = env.iter().map(|(k, v)| format!("{k}={v}")).collect();
    words.push(program.clone());
    words.extend(args.iter().cloned());
    let p = parse(&words.join(" ")).unwrap();
    assert_eq!(p.env, env);
    assert_eq!(p.program, program);
    assert_eq!(p.args, args);
}

#[test]
fn exec_errors() {
    assert_eq!(parse("").err(), Some(ExecError::Empty));
    assert_eq!(parse(" \t\n").err(), Some(ExecError::Empty));
    assert_eq!(parse("A=1 B=2").err(), Some(ExecError::MissingProgram));
}

#[test]
fn pid_variable_is_read() {
    assert_eq!(PID_VARIABLE, "SERVICED_PID");
    assert_eq!(parse_pid(Some("1234")), Ok(1234));
    assert_eq!(parse_pid(Some("+7")), Ok(7));
    assert_eq!(parse_pid(Some("2147483647")), Ok(2147483647));
    assert_eq!(parse_pid(None), Err(PidError::Missing));
    assert_eq!(parse_pid(Some("0")), Err(PidError::Invalid));
    assert_eq!(parse_pid(Some("-5")), Err(PidError::Invalid));
    assert_eq!(parse_pid(Some("2147483648")), Err(PidError::Invalid));
    assert_eq!(parse_pid(Some(" 12")), Err(PidError::Invalid));
    assert_eq!(parse_pid(Some("abc")), Err(PidError::Invalid));
    assert_eq!(parse_pid(Some("")), Err(PidError::Invalid));
}

#[test]
fn pid_is_made_a_process_id() {
    assert_eq!(get_pid(Some("31")).unwrap().as_raw_pid(), 31);
    assert_eq!(get_pid(Some("0")).err(), Some(PidError::Invalid));
    assert_eq!(get_pid(None).err(), Some(PidError::Missing));
}

#[test]
fn io_options_are_read() {
    assert_eq!(IoOption::parse("out"), Some(IoOption::Out));
    assert_eq!(IoOption::parse("in"), Some(IoOption::In));
    assert_eq!(IoOption::parse("err"), Some(IoOption::Error));
    assert_eq!(IoOption::parse("Out"), None);
    assert_eq!(IoOption::parse(""), None);
}

#[test]
fn service_defaults_and_identity() {
    let s = Service::new("id".to_string(), "Name".to_string(), Exec("x".to_string()));
    assert!(s.enabled);
    assert_eq!(s.status, Status::Stopped);
    assert_eq!(Status::default(), Status::Stopped);
    assert!(s.pid.is_none());
    assert!(s.has_id("id"));
    assert!(!s.has_id("Name"));
    assert_eq!(s.display_name(), "Name");
    let mut t = s.duplicate();
    t.name = "other".to_string();
    assert!(s.same_id(&t));
    assert!(!s.same_id(&service("x", &[])));
}

#[test]
fn ipc_commands_and_config() {
    assert_ne!(Command::PowerOff, Command::Reboot);
    assert_eq!(Command::ServiceReady(5), Command::ServiceReady(5));
    let config = PartialConfig { services: vec![("a".to_string(), service("a", &[]))] };
    assert_eq!(config.services.len(), 1);
}
