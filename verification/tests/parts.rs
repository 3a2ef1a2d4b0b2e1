use yogurt::dispatcher::{finish, map_named_arguments, split_invocations, unwrap_tokens};
use yogurt::{
    tokenize, Argument, Bindings, Error, ExecContext, ExecState, IntArgument,
    InvalidCommandReason, Token, Validator, WordArgument,
};

fn word(s: &str) -> Token {
    Token::Positional(String::from(s))
}

fn named(k: &str, v: &str) -> Token {
    Token::Named(String::from(k), String::from(v))
}

#[test]
fn tokenize_words() {
    assert_eq!(tokenize("ping 3"), Ok(vec![word("ping"), word("3")]));
    assert_eq!(tokenize("  ping\t\t3\r\n"), Ok(vec![word("ping"), word("3")]));
    assert_eq!(tokenize(""), Ok(vec![]));
    assert_eq!(tokenize("   "), Ok(vec![]));
}

#[test]
fn tokenize_named() {
    assert_eq!(tokenize("set key:value"), Ok(vec![word("set"), named("key", "value")]));
    assert_eq!(tokenize("url:http://x"), Ok(vec![named("url", "http://x")]));
    assert_eq!(tokenize("a:b:c"), Ok(vec![named("a", "b:c")]));
}

#[test]
fn tokenize_boundaries() {
    assert_eq!(tokenize("a; b"), Ok(vec![word("a"), Token::Boundary, word("b")]));
    assert_eq!(tokenize("a;b"), Ok(vec![word("a"), Token::Boundary, word("b")]));
    assert_eq!(tokenize(";"), Ok(vec![Token::Boundary]));
    assert_eq!(
        tokenize("k:v;; x"),
        Ok(vec![named("k", "v"), Token::Boundary, Token::Boundary, word("x")])
    );
}

#[test]
fn tokenize_rejects_malformed_named() {
    assert_eq!(tokenize("key:"), Err(Error::Syntax));
    assert_eq!(tokenize(":value"), Err(Error::Syntax));
    assert_eq!(tokenize(":"), Err(Error::Syntax));
    assert_eq!(tokenize("ok a: b"), Err(Error::Syntax));
    assert_eq!(tokenize("a:;"), Err(Error::Syntax));
}

#[test]
fn tokenize_keeps_other_characters() {
    assert_eq!(tokenize("héllo wörld"), Ok(vec![word("héllo"), word("wörld")]));
    assert_eq!(tokenize("ключ:значение"), Ok(vec![named("ключ", "значение")]));
}

#[test]
fn split_skips_empty_invocations() {
    let tokens = vec![Token::Boundary, word("a"), named("k", "v"), Token::Boundary, Token::Boundary, word("b")];
    assert_eq!(split_invocations(&tokens), vec![vec![word("a"), named("k", "v")], vec![word("b")]]);
    assert_eq!(split_invocations(&vec![]), Vec::<Vec<Token>>::new());
    assert_eq!(split_invocations(&vec![Token::Boundary]), Vec::<Vec<Token>>::new());
    assert_eq!(split_invocations(&vec![word("a"), Token::Boundary]), vec![vec![word("a")]]);
}

#[test]
fn unwrap_keeps_positionals_in_order() {
    let tokens = vec![word("a"), named("k", "v"), word("b"), Token::Boundary];
    assert_eq!(unwrap_tokens(&tokens), vec![String::from("a"), String::from("b")]);
}

#[test]
fn named_arguments_last_wins() {
    let tokens = vec![named("k", "1"), word("a"), named("j", "2"), named("k", "3")];
    let map = map_named_arguments(&tokens);
    assert_eq!(map.lookup("k"), Some(String::from("3")));
    assert_eq!(map.lookup("j"), Some(String::from("2")));
    assert_eq!(map.lookup("a"), None);
    assert_eq!(map.depth(), 3);
}

#[test]
fn bindings_insert_get_rewind() {
    let mut b = Bindings::new();
    assert_eq!(b.lookup("x"), None);
    b.insert(String::from("x"), String::from("1"));
    b.insert(String::from("y"), String::from("2"));
    b.insert(String::from("x"), String::from("3"));
    assert_eq!(b.get(&String::from("x")), Some(&String::from("3")));
    assert_eq!(b.lookup("y"), Some(String::from("2")));
    assert_eq!(b.depth(), 3);
    b.rewind(2);
    assert_eq!(b.lookup("x"), Some(String::from("1")));
    b.rewind(0);
    assert_eq!(b.lookup("x"), None);
    assert_eq!(b.depth(), 0);
}

#[test]
fn context_binds_and_overwrites() {
    let mut c = ExecContext::new(7u8);
    assert_eq!(c.user_context, 7);
    assert_eq!(c.argument("n"), None);
    c.insert_argument(String::from("n"), String::from("1"));
    c.insert_argument(String::from("n"), String::from("2"));
    assert_eq!(c.argument("n"), Some(String::from("2")));
    assert_eq!(c.depth(), 2);
    c.rewind(1);
    assert_eq!(c.argument("n"), Some(String::from("1")));
    assert_eq!(c.user_context, 7);
}

#[test]
fn int_argument_accepts_integer_literals() {
    let v = IntArgument;
    for ok in ["0", "3", "-42", "+7", "00012", "123456789012345678901234567890"] {
        assert!(v.validate(ok), "{}", ok);
    }
    for bad in ["", "-", "+", "1a", "a1", "1.5", "--1", "1-", " 1", "١"] {
        assert!(!v.validate(bad), "{}", bad);
    }
}

#[test]
fn word_argument_accepts_everything() {
    assert!(WordArgument.validate(""));
    assert!(WordArgument.validate("anything"));
}

#[test]
fn argument_matches_through_validator() {
    let a = Argument::new(IntArgument, String::from("n"), false);
    assert_eq!(a.name, "n");
    assert!(!a.required);
    assert!(a.matches("12"));
    assert!(!a.matches("x"));
}

#[test]
fn finish_maps_states() {
    assert_eq!(finish(ExecState::Working), Err(Error::InvalidCommand(InvalidCommandReason::UnknownCommand)));
    assert_eq!(finish(ExecState::Done(Ok(()))), Ok(()));
    assert_eq!(
        finish(ExecState::Done(Err(Error::Action(String::from("boom"))))),
        Err(Error::Action(String::from("boom")))
    );
}

#[test]
fn error_messages() {
    assert_eq!(Error::Syntax.message(), "syntax error");
    assert_eq!(Error::InvalidCommand(InvalidCommandReason::UnknownCommand).message(), "unknown command");
    assert_eq!(Error::IncompleteBuilder.message(), "incomplete builder");
    assert_eq!(Error::Action(String::from("boom")).message(), "boom");
}

#[test]
fn rewind_past_the_end_changes_nothing() {
    let mut b = Bindings::new();
    b.insert(String::from("x"), String::from("1"));
    b.rewind(5);
    assert_eq!(b.depth(), 1);
    assert_eq!(b.lookup("x"), Some(String::from("1")));
}
