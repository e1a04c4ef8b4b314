use qs::config::Key;
use qs::key::{checker_decision, CheckStep};

fn settled(step: CheckStep) -> Result<(), String> {
    match step {
        CheckStep::Done(v) => v,
        CheckStep::RunChecker(_) => panic!("expected a settled decision"),
    }
}

#[test]
fn open_key_accepts_everything() {
    let key = Key::Open;
    assert_eq!(settled(key.check("")), Ok(()));
    assert_eq!(settled(key.check("anything")), Ok(()));
    assert!(!key.should_show_input());
}

#[test]
fn exact_key_matches_byte_for_byte() {
    let key = Key::Exact("secret".to_string());
    assert_eq!(settled(key.check("secret")), Ok(()));
    assert_eq!(settled(key.check("Secret")), Err(String::new()));
    assert_eq!(settled(key.check("")), Err(String::new()));
    assert!(key.should_show_input());
}

#[test]
fn checker_key_defers_to_the_command() {
    let key = Key::Checker("./check-answer".to_string());
    match key.check("42") {
        CheckStep::RunChecker(cmd) => assert_eq!(cmd, "./check-answer"),
        CheckStep::Done(_) => panic!("a checker key cannot decide by itself"),
    }
    assert!(key.should_show_input());
}

// A command that echoes its argument and exits 0 only if the argument equals
// "42", modelled as a function from the argument to (exit status is zero,
// standard output).
fn echo_42(arg: &str) -> (bool, String) {
    (arg == "42", format!("{}\n", arg))
}

#[test]
fn checker_scenario_echo_42() {
    let key = Key::Checker("./echo-42".to_string());
    let run = |answer: &str| -> Result<(), String> {
        match key.check(answer) {
            CheckStep::Done(v) => v,
            CheckStep::RunChecker(_cmd) => {
                let (exit_zero, stdout) = echo_42(answer);
                checker_decision(exit_zero, stdout)
            }
        }
    };
    assert_eq!(run("42"), Ok(()));
    assert_eq!(run("7"), Err("7\n".to_string()));
}

#[test]
fn checker_decision_follows_the_exit_status() {
    assert_eq!(checker_decision(true, "ignored".to_string()), Ok(()));
    assert_eq!(
        checker_decision(false, "try again".to_string()),
        Err("try again".to_string())
    );
}
