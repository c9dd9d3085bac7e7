use rpg_rs::compile;
use rpg_rs::lang::start;
use rpg_rs::runtime::{InputEvent, Session, StateStore, interpolate};

fn session_for(source: &str) -> Session {
    let code = compile(String::from(source)).unwrap();
    Session::new(code)
}

#[test]
fn start_compiles_and_opens_a_session() {
    let mut s = start(String::from("\"one\" \"two\"")).unwrap();
    assert_eq!(s.advance().unwrap(), "one");
    s.feed(InputEvent::Submit);
    assert_eq!(s.advance().unwrap(), "two");
    match start(String::from("\"oops")) {
        Ok(_) => panic!("an unterminated literal must not compile"),
        Err(e) => assert_eq!(e.exit_code(), 40),
    }
}

fn type_line(session: &mut Session, line: &str) {
    for c in line.chars() {
        session.feed(InputEvent::Character(c));
    }
    session.feed(InputEvent::Submit);
}

#[test]
fn end_to_end_greeting() {
    let mut s = session_for("?0 \"name?\" \"Hi $0!\"");
    let prompt = s.advance().unwrap();
    assert_eq!(prompt, "name?");
    assert!(s.awaits_line());
    type_line(&mut s, "Ada");
    assert!(s.is_ready());
    let greeting = s.advance().unwrap();
    assert_eq!(greeting, "Hi Ada!");
    assert!(s.awaits_ack());
    s.feed(InputEvent::Character(' '));
    assert!(s.advance().is_none());
    assert!(s.is_done());
}

#[test]
fn literal_dollar_renders_unchanged() {
    let mut s = session_for("\"Cost: $ USD\"");
    assert_eq!(s.advance().unwrap(), "Cost: $ USD");
}

#[test]
fn adjacent_references_and_literal_dollar() {
    let mut s = session_for("?0 \"q\" \"$0$0 $\"");
    s.advance().unwrap();
    type_line(&mut s, "ab");
    assert_eq!(s.advance().unwrap(), "abab $");
}

#[test]
fn later_answer_overwrites_slot() {
    let mut s = session_for("?1 \"a?\" ?1 \"b?\" \"v=$1\"");
    s.advance().unwrap();
    type_line(&mut s, "x");
    s.advance().unwrap();
    type_line(&mut s, "y");
    assert_eq!(s.advance().unwrap(), "v=y");
}

#[test]
fn backspace_edits_the_answer() {
    let mut s = session_for("?0 \"q\" \"Hi $0\"");
    s.advance().unwrap();
    s.feed(InputEvent::Backspace);
    s.feed(InputEvent::Character('A'));
    s.feed(InputEvent::Character('B'));
    s.feed(InputEvent::Backspace);
    s.feed(InputEvent::Character('C'));
    s.feed(InputEvent::Submit);
    assert_eq!(s.advance().unwrap(), "Hi AC");
}

#[test]
fn empty_answer_is_allowed() {
    let mut s = session_for("?0 \"q\" \"[$0]\"");
    s.advance().unwrap();
    s.feed(InputEvent::Submit);
    assert_eq!(s.advance().unwrap(), "[]");
}

#[test]
fn empty_program_halts_immediately() {
    let mut s = session_for("");
    assert!(s.advance().is_none());
    assert!(s.is_done());
}

#[test]
fn move_up_clamps_at_first_option() {
    let mut s = session_for("\"Pick\" { \"a\" => { \"A\" } \"b\" => { \"B\" } }");
    assert_eq!(s.advance().unwrap(), "Pick");
    assert!(s.awaits_choice());
    assert_eq!(s.choice_cursor(), 0);
    s.feed(InputEvent::Up);
    s.feed(InputEvent::Up);
    s.feed(InputEvent::Up);
    assert_eq!(s.choice_cursor(), 0);
}

#[test]
fn move_down_clamps_at_last_option() {
    let mut s = session_for("\"Pick\" { \"a\" => { \"A\" } \"b\" => { \"B\" } }");
    s.advance().unwrap();
    s.feed(InputEvent::Down);
    assert_eq!(s.choice_cursor(), 1);
    s.feed(InputEvent::Down);
    s.feed(InputEvent::Down);
    assert_eq!(s.choice_cursor(), 1);
}

#[test]
fn character_keys_do_not_move_the_cursor() {
    let mut s = session_for("\"Pick\" { \"a\" => { \"A\" } \"b\" => { \"B\" } }");
    s.advance().unwrap();
    s.feed(InputEvent::Character('x'));
    s.feed(InputEvent::Backspace);
    assert_eq!(s.choice_cursor(), 0);
}

#[test]
fn labels_are_reported_in_order() {
    let mut s = session_for("\"Pick\" { \"first\" => { \"A\" } \"second\" => { \"B\" } }");
    s.advance().unwrap();
    let labels = s.choice_labels();
    assert_eq!(labels, vec![String::from("first"), String::from("second")]);
}

#[test]
fn chosen_option_body_runs_then_falls_through() {
    let mut s = session_for(
        "\"Pick\" { \"a\" => { \"A\" } \"b\" => { \"B\" } } \"After\"",
    );
    s.advance().unwrap();
    s.feed(InputEvent::Down);
    s.feed(InputEvent::Submit);
    assert_eq!(s.advance().unwrap(), "B");
    s.feed(InputEvent::Submit);
    assert_eq!(s.advance().unwrap(), "After");
    s.feed(InputEvent::Submit);
    assert!(s.advance().is_none());
}

#[test]
fn option_scoped_answer_interpolates_inside_option() {
    let mut s = session_for(
        "\"Pick\" { \"yes\" => { ?0 \"name?\" \"Hi $0\" } \"no\" => { \"Bye\" } }",
    );
    assert_eq!(s.advance().unwrap(), "Pick");
    s.feed(InputEvent::Submit);
    assert_eq!(s.advance().unwrap(), "name?");
    type_line(&mut s, "Eve");
    assert_eq!(s.advance().unwrap(), "Hi Eve");
}

#[test]
fn store_returns_last_value() {
    let mut store = StateStore::new();
    assert!(store.get(3).is_none());
    store.insert(3, String::from("first"));
    store.insert(7, String::from("other"));
    store.insert(3, String::from("second"));
    assert_eq!(store.get(3).unwrap(), "second");
    assert_eq!(store.get(7).unwrap(), "other");
    assert!(store.get(4).is_none());
}

#[test]
fn interpolate_substitutes_stored_text() {
    let mut store = StateStore::new();
    store.insert(2, String::from("world"));
    let out = interpolate(&String::from("hello $2, bill: $ 5"), &store);
    assert_eq!(out, "hello world, bill: $ 5");
}

#[test]
fn dollar_before_reference_keeps_the_dollar() {
    let mut s = session_for("?3 \"q\" \"$$3\"");
    s.advance().unwrap();
    type_line(&mut s, "ab");
    assert_eq!(s.advance().unwrap(), "$ab");
}
