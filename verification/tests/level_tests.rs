use qs::config::{Attachments, Colors, Config, Key, Levels, Next as ConfigNext, Strings};
use qs::level::{LevelInspectError, LevelManager, Next};

fn config_level(legend: &str, next: Option<(&str, &str)>) -> qs::config::Level {
    qs::config::Level {
        id: String::new(),
        legend: legend.to_string(),
        next: next.map(|(caption, to)| ConfigNext {
            caption: caption.to_string(),
            to: to.to_string(),
        }),
        key: Key::Open,
    }
}

fn config_from(entries: Vec<(&str, qs::config::Level)>, start: &str) -> Config {
    let mut levels = Levels::new();
    for (id, level) in entries {
        levels.insert(id.to_string(), level);
    }
    Config {
        strings: Strings {
            name: "quest".to_string(),
            wrong_answer: qs::config::wrong_answer(),
            back: qs::config::back(),
            not_found: qs::config::not_found(),
        },
        levels,
        attachments: Attachments::new(),
        start: start.to_string(),
        colors: Colors::default(),
    }
}

#[test]
fn two_level_chain_builds_and_resolves() {
    let c = config_from(
        vec![
            ("A", config_level("start", Some(("onwards", "B")))),
            ("B", config_level("end", None)),
        ],
        "A",
    );
    let manager = LevelManager::from_config(&c).expect("a simple chain is valid");
    let a = manager.get("A").expect("A resolves");
    assert_eq!(a.id, "A");
    assert_eq!(a.legend, "start");
    let b = manager.get("B").expect("B resolves");
    assert_eq!(b.id, "B");
    assert_eq!(b.legend, "end");
    assert!(matches!(b.next, Next::Terminal));
    // A's edge leads to the very level that lookup of "B" finds.
    match &a.next {
        Next::Button { caption, to } => {
            assert_eq!(caption, "onwards");
            assert_eq!(to, "B");
            let target = manager.get(to).expect("the edge target resolves");
            assert_eq!(target.id, b.id);
            assert_eq!(target.legend, b.legend);
            assert!(matches!(target.next, Next::Terminal));
        }
        Next::Terminal => panic!("A must carry an edge"),
    }
    // An identifier never configured resolves to nothing.
    assert!(manager.get("C").is_none());
}

#[test]
fn chain_forest_builds_every_level() {
    let c = config_from(
        vec![
            ("A", config_level("a", Some(("to b", "B")))),
            ("B", config_level("b", Some(("to c", "C")))),
            ("C", config_level("c", None)),
            ("D", config_level("d", Some(("shortcut", "C")))),
            ("E", config_level("e", None)),
        ],
        "A",
    );
    let manager = LevelManager::from_config(&c).expect("a forest of chains is valid");
    for id in ["A", "B", "C", "D", "E"] {
        let level = manager.get(id).expect("every configured identifier resolves");
        assert_eq!(level.id, id);
    }
}

#[test]
fn self_loop_is_rejected() {
    let c = config_from(vec![("A", config_level("a", Some(("again", "A"))))], "A");
    let r = LevelManager::from_config(&c);
    assert!(matches!(r, Err(LevelInspectError::LoopDetected)));
}

#[test]
fn two_level_cycle_is_rejected() {
    let c = config_from(
        vec![
            ("A", config_level("a", Some(("to b", "B")))),
            ("B", config_level("b", Some(("back", "A")))),
        ],
        "A",
    );
    let r = LevelManager::from_config(&c);
    assert!(matches!(r, Err(LevelInspectError::LoopDetected)));
}

#[test]
fn dangling_edge_is_rejected_with_its_target() {
    let c = config_from(
        vec![
            ("A", config_level("a", Some(("into the void", "Z")))),
            ("B", config_level("b", None)),
        ],
        "A",
    );
    match LevelManager::from_config(&c) {
        Err(LevelInspectError::NotFound(id)) => assert_eq!(id, "Z"),
        _ => panic!("a dangling edge must be rejected as not found"),
    }
}

#[test]
fn lookup_of_absent_identifier_is_no_error() {
    let c = config_from(vec![("A", config_level("a", None))], "A");
    let manager = LevelManager::from_config(&c).expect("a single level is valid");
    assert!(manager.get("missing").is_none());
}

#[test]
fn building_twice_yields_the_same_graph() {
    let c = config_from(
        vec![
            ("A", config_level("a", Some(("go", "B")))),
            ("B", config_level("b", Some(("go", "C")))),
            ("C", config_level("c", None)),
        ],
        "A",
    );
    let first = LevelManager::from_config(&c).expect("valid");
    let second = LevelManager::from_config(&c).expect("valid");
    for id in ["A", "B", "C", "D"] {
        match (first.get(id), second.get(id)) {
            (None, None) => {}
            (Some(x), Some(y)) => {
                assert_eq!(x.id, y.id);
                assert_eq!(x.legend, y.legend);
                match (&x.next, &y.next) {
                    (Next::Terminal, Next::Terminal) => {}
                    (
                        Next::Button { caption: xc, to: xt },
                        Next::Button { caption: yc, to: yt },
                    ) => {
                        assert_eq!(xc, yc);
                        assert_eq!(xt, yt);
                    }
                    _ => panic!("the two builds disagree on an edge"),
                }
            }
            _ => panic!("the two builds disagree on a reachable identifier"),
        }
    }
}

#[test]
fn keys_are_carried_onto_built_levels() {
    let mut secret = config_level("locked", None);
    secret.key = Key::Exact("hunter2".to_string());
    let mut checked = config_level("checked", None);
    checked.key = Key::Checker("./verify".to_string());
    let c = config_from(vec![("S", secret), ("C", checked)], "S");
    let manager = LevelManager::from_config(&c).expect("valid");
    assert!(matches!(&manager.get("S").unwrap().key, Key::Exact(s) if s == "hunter2"));
    assert!(matches!(&manager.get("C").unwrap().key, Key::Checker(p) if p == "./verify"));
}

#[test]
fn error_messages_describe_the_defect() {
    assert_eq!(LevelInspectError::LoopDetected.message(), "loop detected");
    assert_eq!(
        LevelInspectError::NotFound("Z".to_string()).message(),
        "level not found: `Z`"
    );
}

#[test]
fn empty_configuration_builds_an_empty_graph() {
    let c = config_from(vec![], "start");
    let manager = LevelManager::from_config(&c).expect("an empty mapping is valid");
    assert!(manager.get("start").is_none());
    assert!(manager.get("").is_none());
}
