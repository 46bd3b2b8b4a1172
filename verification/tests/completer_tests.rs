use unholy_force::completer::{token_kind, Completer, CompleterAction, CompleterKey, TokenKind};

fn completer_with(words: &[&str]) -> Completer {
    let mut c = Completer::new();
    for w in words {
        c.add_word(w);
    }
    c
}

fn paste(c: &mut Completer) -> String {
    match c.handle_key(CompleterKey::Tab) {
        CompleterAction::Paste(text) => text,
        other => panic!("expected a paste, got {:?}", other),
    }
}

#[test]
fn completions_are_sorted_continuations() {
    let mut c = completer_with(&["strength", "stamina", "speed", "agility", "stamina"]);
    c.move_cursor(2);
    c.set_prefix("st".to_string());
    assert!(c.refresh_completions());
    assert_eq!(c.completions(), &vec!["amina".to_string(), "rength".to_string()]);
    assert!(c.shows_popup());
}

#[test]
fn no_prefix_no_completions() {
    let mut c = completer_with(&["strength"]);
    assert!(!c.refresh_completions());
    assert!(c.completions().is_empty());
    assert!(!c.shows_popup());
}

#[test]
fn unknown_prefix_has_no_completions() {
    let mut c = completer_with(&["strength"]);
    c.set_prefix("x".to_string());
    assert!(!c.refresh_completions());
    assert!(!c.shows_popup());
}

#[test]
fn arrows_cycle_and_tab_pastes() {
    let mut c = completer_with(&["aa", "ab", "ac"]);
    c.set_prefix("a".to_string());
    assert!(c.refresh_completions());
    assert_eq!(paste(&mut c), "a");
    assert!(matches!(c.handle_key(CompleterKey::ArrowDown), CompleterAction::Select));
    assert_eq!(c.variant_id(), 1);
    assert_eq!(paste(&mut c), "b");
    c.handle_key(CompleterKey::ArrowDown);
    c.handle_key(CompleterKey::ArrowDown);
    assert_eq!(c.variant_id(), 0);
    c.handle_key(CompleterKey::ArrowUp);
    assert_eq!(c.variant_id(), 2);
    assert_eq!(paste(&mut c), "c");
    c.handle_key(CompleterKey::ArrowDown);
    c.handle_key(CompleterKey::ArrowUp);
    assert_eq!(c.variant_id(), 2);
}

#[test]
fn escape_dismisses_until_the_cursor_moves() {
    let mut c = completer_with(&["hero", "hello"]);
    c.note_focus(Some(9));
    c.note_focus(None);
    assert_eq!(c.text_edit_id(), Some(9));
    assert!(!c.move_cursor(3));
    c.set_prefix("he".to_string());
    assert!(c.refresh_completions());
    match c.handle_key(CompleterKey::Escape) {
        CompleterAction::Focus(id) => assert_eq!(id, Some(9)),
        other => panic!("expected focus, got {:?}", other),
    }
    assert!(!c.refresh_completions());
    assert!(c.move_cursor(3));
    assert!(!c.move_cursor(4));
    assert_eq!(c.prefix(), "");
    c.set_prefix("hel".to_string());
    assert!(c.refresh_completions());
    assert_eq!(c.completions(), &vec!["lo".to_string()]);
}

#[test]
fn moving_the_cursor_resets_the_selection() {
    let mut c = completer_with(&["aa", "ab"]);
    c.set_prefix("a".to_string());
    c.refresh_completions();
    c.handle_key(CompleterKey::ArrowDown);
    assert_eq!(c.variant_id(), 1);
    c.move_cursor(1);
    assert_eq!(c.variant_id(), 0);
}

#[test]
fn cleared_words_give_no_completions() {
    let mut c = completer_with(&["aa"]);
    c.clear_words();
    c.set_prefix("a".to_string());
    assert!(!c.refresh_completions());
}

#[test]
fn token_kinds() {
    assert_eq!(token_kind("[tag]"), TokenKind::Bracketed);
    assert_eq!(token_kind("{param}"), TokenKind::Braced);
    assert_eq!(token_kind("plain"), TokenKind::Plain);
    assert_eq!(token_kind(""), TokenKind::Plain);
}

#[test]
fn default_completer_is_empty() {
    let c = Completer::default();
    assert!(c.completions().is_empty());
    assert_eq!(c.variant_id(), 0);
    assert_eq!(c.text_edit_id(), None);
}
