use pandia::menu::{recent_files_menu, MenuEntry, RecentFile};

fn item(e: &MenuEntry) -> Option<(&str, &str, bool)> {
    match e {
        MenuEntry::Item { id, label, enabled } => Some((id.as_str(), label.as_str(), *enabled)),
        MenuEntry::Separator => None,
    }
}

#[test]
fn empty_recent_list_shows_a_disabled_placeholder() {
    let m = recent_files_menu(&[]);
    assert_eq!(m.len(), 1);
    assert_eq!(item(&m[0]), Some(("no_recent", "No Recent Files", false)));
}

#[test]
fn recent_files_then_separator_then_clear() {
    let recents = vec![
        RecentFile { path: "/tmp/a.json".to_string(), name: "a.json".to_string() },
        RecentFile { path: "/data/b.ndjson".to_string(), name: "b.ndjson".to_string() },
    ];
    let m = recent_files_menu(&recents);
    assert_eq!(m.len(), 4);
    assert_eq!(item(&m[0]), Some(("recent::/tmp/a.json", "a.json", true)));
    assert_eq!(item(&m[1]), Some(("recent::/data/b.ndjson", "b.ndjson", true)));
    assert_eq!(item(&m[2]), None);
    assert_eq!(item(&m[3]), Some(("clear_recent_files", "Clear Recent Files", true)));
}
