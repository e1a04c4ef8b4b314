use qs::config::{Attachment, Attachments, Colors, Key, Level, Levels, Next};
use qs::config::{
    back, color_background, color_primary, color_secondary, not_found, start_level,
    wrong_answer,
};

fn level(legend: &str, next: Option<(&str, &str)>, key: Key) -> Level {
    Level {
        id: String::new(),
        legend: legend.to_string(),
        next: next.map(|(caption, to)| Next {
            caption: caption.to_string(),
            to: to.to_string(),
        }),
        key,
    }
}

#[test]
fn default_strings() {
    assert_eq!(wrong_answer(), "Wrong answer");
    assert_eq!(back(), "Go back");
    assert_eq!(start_level(), "start");
    assert_eq!(not_found(), "404 Level not found");
}

#[test]
fn default_colors() {
    assert_eq!(color_primary(), "#ffffff");
    assert_eq!(color_secondary(), "#00ffff");
    assert_eq!(color_background(), "#ffffff");
    let colors = Colors::default();
    assert_eq!(colors.primary, "#ffffff");
    assert_eq!(colors.secondary, "#00ffff");
    assert_eq!(colors.background, "#ffffff");
}

#[test]
fn levels_insert_and_get() {
    let mut levels = Levels::new();
    assert_eq!(levels.len(), 0);
    levels.insert("a".to_string(), level("first", None, Key::Open));
    levels.insert("b".to_string(), level("second", Some(("go", "a")), Key::Open));
    assert_eq!(levels.len(), 2);
    let a = levels.get("a").expect("a is configured");
    assert_eq!(a.id, "a");
    assert_eq!(a.legend, "first");
    assert!(a.next.is_none());
    let b = levels.get("b").expect("b is configured");
    assert_eq!(b.id, "b");
    let next = b.next.as_ref().expect("b has a next edge");
    assert_eq!(next.caption, "go");
    assert_eq!(next.to, "a");
    assert!(levels.get("c").is_none());
}

#[test]
fn levels_insert_replaces_and_assigns_id() {
    let mut levels = Levels::new();
    // The record body claims another id; the mapping key must win.
    let mut bogus = level("first", None, Key::Open);
    bogus.id = "impostor".to_string();
    levels.insert("a".to_string(), bogus);
    let a = levels.get("a").expect("a is configured");
    assert_eq!(a.id, "a");
    assert!(levels.get("impostor").is_none());
    // Inserting under the same key replaces the level.
    levels.insert("a".to_string(), level("rewritten", None, Key::Open));
    assert_eq!(levels.len(), 1);
    let a = levels.get("a").expect("a is still configured");
    assert_eq!(a.legend, "rewritten");
}

#[test]
fn attachments_insert_and_get() {
    let mut attachments = Attachments::new();
    attachments.insert("map.png".to_string(), "/data/map.png".to_string());
    attachments.insert("notes.txt".to_string(), "/data/notes.txt".to_string());
    assert_eq!(attachments.get("map.png"), Some(&"/data/map.png".to_string()));
    assert_eq!(attachments.get("notes.txt"), Some(&"/data/notes.txt".to_string()));
    assert_eq!(attachments.get("other.txt"), None);
    // Same public name again: the path is replaced.
    attachments.insert("map.png".to_string(), "/elsewhere/map.png".to_string());
    assert_eq!(attachments.get("map.png"), Some(&"/elsewhere/map.png".to_string()));
}

#[test]
fn attachments_default_is_empty() {
    let attachments = Attachments::default();
    assert_eq!(attachments.get("anything"), None);
}

#[test]
fn attachment_file_name() {
    assert_eq!(
        Attachments::file_name("/data/quest/map.png"),
        Some("map.png".to_string())
    );
    assert_eq!(Attachments::file_name("plain.txt"), Some("plain.txt".to_string()));
    assert_eq!(Attachments::file_name("/data/quest/"), None);
    assert_eq!(Attachments::file_name(""), None);
}

#[test]
fn attachment_struct_carries_name_and_path() {
    let a = Attachment {
        name: "map.png".to_string(),
        path: "/data/map.png".to_string(),
    };
    assert_eq!(a.name, "map.png");
    assert_eq!(a.path, "/data/map.png");
}
