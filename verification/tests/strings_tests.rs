use metarepo::models::{ActionKind, Params, RepositoryItem};
use metarepo::strings::{strip_str, StringExtension};

#[test]
fn strip_removes_quotes_and_trims() {
    assert_eq!(strip_str(" \"pkg-a\" \n"), "pkg-a");
    assert_eq!(strip_str("plain"), "plain");
    assert_eq!(strip_str("  spaced out  "), "spaced out");
    assert_eq!(strip_str("\"\""), "");
    assert_eq!(strip_str(""), "");
    assert_eq!(strip_str("a\"b\"c"), "abc");
}

#[test]
fn strip_on_string_values() {
    let s = String::from("\t\"left-pad\"");
    assert_eq!(s.strip(), "left-pad");
}

#[test]
fn repository_item_holds_fields() {
    let it = RepositoryItem::new(
        String::from("A"),
        String::from("pkg-a"),
        vec![String::from("pkg-b")],
    );
    assert_eq!(it.project, "A");
    assert_eq!(it.module, "pkg-a");
    assert_eq!(it.dependencies, vec![String::from("pkg-b")]);
}

#[test]
fn params_select_action() {
    let p = Params::new(String::from("link"), String::from("A"), String::from("."));
    assert_eq!(p.action_kind(), Some(ActionKind::Link));
    let p = Params::new(String::from("unlink"), String::from("A"), String::from("."));
    assert_eq!(p.action_kind(), Some(ActionKind::Unlink));
    let p = Params::new(String::from("copy"), String::from("A"), String::from("."));
    assert_eq!(p.action_kind(), Some(ActionKind::Copy));
    let p = Params::new(String::from("update"), String::from("A"), String::from("."));
    assert_eq!(p.action_kind(), Some(ActionKind::Update));
    let p = Params::new(String::from("install"), String::from("A"), String::from("."));
    assert_eq!(p.action_kind(), None);
}
