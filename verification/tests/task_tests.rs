use vibeserial::task::{
    contains_subslice, parse_script, FailurePolicy, RunStep, TaskAction, TaskEngine, TaskError,
    TaskIo, TaskReport, TaskSpec, Trigger,
};

#[derive(Default)]
struct MockIo {
    sent: Vec<Vec<u8>>,
    latest_rx: Vec<u8>,
}

impl TaskIo for MockIo {
    fn send(&mut self, data: &[u8]) -> Result<(), String> {
        self.sent.push(data.to_vec());
        Ok(())
    }

    fn latest_receive(&self) -> &[u8] {
        &self.latest_rx
    }
}

struct FailingIo;

impl TaskIo for FailingIo {
    fn send(&mut self, _data: &[u8]) -> Result<(), String> {
        Err("port gone".to_string())
    }

    fn latest_receive(&self) -> &[u8] {
        &[]
    }
}

fn run_to_end<T: TaskIo>(io: &mut T, spec: &TaskSpec) -> (TaskReport, Vec<u64>) {
    let mut run = TaskEngine::start(spec);
    let mut sleeps = Vec::new();
    loop {
        match run.step(io, spec) {
            RunStep::Continue => {}
            RunStep::Sleep(ms) => sleeps.push(ms),
            RunStep::Done => break,
        }
    }
    (run.finish(0), sleeps)
}

#[test]
fn parse_script_should_work() {
    let script = "\n# comment\nSEND 01 02\nASSERT CONTAINS 02\nSLEEP 1\n";
    let actions = parse_script(script).unwrap();
    assert_eq!(actions.len(), 3);
}

#[test]
fn run_task_should_pass() {
    let mut io = MockIo {
        sent: Vec::new(),
        latest_rx: vec![0x10, 0x20, 0x30],
    };

    let spec = TaskSpec {
        task_id: "t1".to_string(),
        name: "demo".to_string(),
        trigger: Trigger::Manual,
        failure_policy: FailurePolicy::StopOnFail,
        repeat: 1,
        actions: vec![
            TaskAction::SendHex(vec![0xAA]),
            TaskAction::AssertContains(vec![0x20]),
        ],
    };

    let (report, _) = run_to_end(&mut io, &spec);
    assert!(report.success);
    assert_eq!(io.sent, vec![vec![0xAA]]);
}

#[test]
fn run_task_should_stop_on_fail() {
    let mut io = MockIo {
        sent: Vec::new(),
        latest_rx: vec![0x01],
    };

    let spec = TaskSpec {
        task_id: "t2".to_string(),
        name: "demo".to_string(),
        trigger: Trigger::Manual,
        failure_policy: FailurePolicy::StopOnFail,
        repeat: 1,
        actions: vec![
            TaskAction::AssertContains(vec![0xFF]),
            TaskAction::SendHex(vec![0x10]),
        ],
    };

    let (report, _) = run_to_end(&mut io, &spec);
    assert!(!report.success);
    assert!(io.sent.is_empty());
}

#[test]
fn parse_script_reads_each_action() {
    let actions = parse_script("send 0a FF\r\n  assert contains 0B \nSleep 250").unwrap();
    assert!(matches!(&actions[0], TaskAction::SendHex(b) if b == &vec![0x0A, 0xFF]));
    assert!(matches!(&actions[1], TaskAction::AssertContains(b) if b == &vec![0x0B]));
    assert!(matches!(actions[2], TaskAction::SleepMs(250)));
}

#[test]
fn parse_script_errors() {
    let err = parse_script("JUMP 1").unwrap_err();
    assert!(matches!(&err, TaskError::InvalidScriptLine(l) if l == "JUMP 1"));
    assert_eq!(err.message(), "invalid script line: JUMP 1");

    let err = parse_script("SEND").unwrap_err();
    assert!(matches!(&err, TaskError::InvalidScriptLine(l) if l == "missing hex bytes"));

    let err = parse_script("SEND 01 GG").unwrap_err();
    assert!(matches!(&err, TaskError::InvalidScriptLine(l) if l == "invalid hex token: GG"));

    let err = parse_script("ASSERT HAS 01").unwrap_err();
    assert!(matches!(&err, TaskError::InvalidScriptLine(l) if l == "ASSERT HAS 01"));

    let err = parse_script("  SLEEP 1 2  ").unwrap_err();
    assert!(matches!(&err, TaskError::InvalidScriptLine(l) if l == "SLEEP 1 2"));

    let err = parse_script("SLEEP -1").unwrap_err();
    assert!(matches!(&err, TaskError::InvalidScriptLine(l) if l == "SLEEP -1"));

    let err = parse_script("SEND 100").unwrap_err();
    assert!(matches!(&err, TaskError::InvalidScriptLine(l) if l == "invalid hex token: 100"));
}

#[test]
fn parse_script_accepts_plus_sign_like_std() {
    let actions = parse_script("SEND +A\nSLEEP +5").unwrap();
    assert!(matches!(&actions[0], TaskAction::SendHex(b) if b == &vec![0x0A]));
    assert!(matches!(actions[1], TaskAction::SleepMs(5)));
}

#[test]
fn contains_subslice_cases() {
    assert!(contains_subslice(&[1, 2, 3], &[]));
    assert!(contains_subslice(&[1, 2, 3], &[2, 3]));
    assert!(!contains_subslice(&[1, 2, 3], &[3, 2]));
    assert!(!contains_subslice(&[1], &[1, 1]));
}

#[test]
fn report_logs_follow_the_run() {
    let mut io = MockIo { sent: Vec::new(), latest_rx: vec![0x20] };
    let spec = TaskSpec {
        task_id: "t3".to_string(),
        name: "logs".to_string(),
        trigger: Trigger::IntervalMs(5),
        failure_policy: FailurePolicy::ContinueOnFail,
        repeat: 2,
        actions: vec![
            TaskAction::SendHex(vec![0xAA, 0xBB]),
            TaskAction::AssertContains(vec![0x0A, 0xFF]),
            TaskAction::SleepMs(3),
        ],
    };
    let mut run = TaskEngine::start(&spec);
    let mut sleeps = Vec::new();
    loop {
        match run.step(&mut io, &spec) {
            RunStep::Continue => {}
            RunStep::Sleep(ms) => sleeps.push(ms),
            RunStep::Done => break,
        }
    }
    let report = run.finish(42);
    assert_eq!(report.task_id, "t3");
    assert!(!report.success);
    assert_eq!(report.failed_at, Some(1));
    assert_eq!(report.executed_actions, 6);
    assert_eq!(sleeps, vec![3, 5, 3, 5]);
    assert_eq!(
        report.logs,
        vec![
            "loop 0 start",
            "send 2 bytes",
            "assertion failed: needle=[0A, FF] not found",
            "sleep 3ms",
            "loop 1 start",
            "send 2 bytes",
            "assertion failed: needle=[0A, FF] not found",
            "sleep 3ms",
            "elapsed=42ms",
        ]
    );
}

#[test]
fn stop_on_fail_logs_policy() {
    let mut io = FailingIo;
    let spec = TaskSpec {
        actions: vec![TaskAction::SendHex(vec![1]), TaskAction::SleepMs(1)],
        repeat: 3,
        ..TaskSpec::default()
    };
    let (report, sleeps) = run_to_end(&mut io, &spec);
    assert!(sleeps.is_empty());
    assert_eq!(report.executed_actions, 1);
    assert_eq!(report.failed_at, Some(0));
    assert_eq!(
        report.logs,
        vec!["loop 0 start", "send failed: port gone", "task stopped by policy", "elapsed=0ms"]
    );
}

#[test]
fn zero_repeat_runs_once() {
    let mut io = MockIo::default();
    let spec = TaskSpec {
        repeat: 0,
        actions: vec![TaskAction::AssertContains(vec![])],
        ..TaskSpec::default()
    };
    let (report, _) = run_to_end(&mut io, &spec);
    assert!(report.success);
    assert_eq!(report.executed_actions, 1);
    assert_eq!(report.logs[1], "assert pass: contains 0 bytes");
}

#[test]
fn default_task_spec() {
    let spec = TaskSpec::default();
    assert_eq!(spec.task_id, "task-default");
    assert_eq!(spec.name, "default task");
    assert_eq!(spec.trigger, Trigger::Manual);
    assert_eq!(spec.failure_policy, FailurePolicy::StopOnFail);
    assert_eq!(spec.repeat, 1);
    assert!(spec.actions.is_empty());
}

#[test]
fn continue_on_fail_sends_every_payload_in_order_each_loop() {
    let mut io = MockIo {
        sent: Vec::new(),
        latest_rx: vec![0x01],
    };
    let spec = TaskSpec {
        task_id: "t2".to_string(),
        name: "order".to_string(),
        trigger: Trigger::Manual,
        failure_policy: FailurePolicy::ContinueOnFail,
        repeat: 2,
        actions: vec![
            TaskAction::SendHex(vec![0x01, 0x02]),
            TaskAction::AssertContains(vec![0x99]),
            TaskAction::SleepMs(0),
            TaskAction::SendHex(vec![0x03]),
        ],
    };
    let (report, _) = run_to_end(&mut io, &spec);
    assert_eq!(
        io.sent,
        vec![vec![0x01, 0x02], vec![0x03], vec![0x01, 0x02], vec![0x03]]
    );
    assert_eq!(report.executed_actions, 8);
    assert!(!report.success);
    assert_eq!(report.failed_at, Some(1));
}

#[test]
fn assertion_reads_latest_receive() {
    let mut io = MockIo {
        sent: Vec::new(),
        latest_rx: vec![0x0A, 0x0B, 0x0C],
    };
    let spec = TaskSpec {
        actions: vec![
            TaskAction::AssertContains(vec![0x0B, 0x0C]),
            TaskAction::AssertContains(vec![0x0C, 0x0B]),
        ],
        failure_policy: FailurePolicy::ContinueOnFail,
        ..TaskSpec::default()
    };
    let (report, _) = run_to_end(&mut io, &spec);
    assert!(!report.success);
    assert_eq!(report.failed_at, Some(1));
    assert!(io.sent.is_empty());
}

#[test]
fn joined_scripts_parse_to_joined_actions() {
    let a = "SEND 01\n# note";
    let b = "  \nSLEEP 5\r";
    let joined = format!("{a}\n{b}");
    let mut expected = parse_script(a).unwrap();
    expected.extend(parse_script(b).unwrap());
    assert_eq!(parse_script(&joined).unwrap(), expected);
    assert_eq!(
        expected,
        vec![TaskAction::SendHex(vec![0x01]), TaskAction::SleepMs(5)]
    );
}

#[test]
fn first_error_of_joined_scripts_decides() {
    let joined = "SEND 01\nBOGUS\nSEND zz";
    assert_eq!(
        parse_script(joined),
        Err(TaskError::InvalidScriptLine("BOGUS".to_string()))
    );
}

#[test]
fn blank_and_comment_scripts_parse_to_nothing() {
    assert_eq!(parse_script("   ").unwrap(), Vec::<TaskAction>::new());
    assert_eq!(parse_script("  # just a note\r").unwrap(), Vec::<TaskAction>::new());
}
