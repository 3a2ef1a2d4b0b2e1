use std::cell::RefCell;
use std::rc::Rc;
use yogurt::{
    Action, Bindings, Command, ContextFactory, Dispatcher, Error, ExecContext, ExecState,
    IntArgument, InvalidCommandReason, WordArgument,
};

type Log = Rc<RefCell<Vec<String>>>;

/// An action that records its label and the bindings it was asked to read.
struct Probe {
    label: &'static str,
    reads: Vec<&'static str>,
    fails: bool,
    log: Log,
}

impl Action<u32> for Probe {
    fn run(&self, context: &mut ExecContext<u32>) -> Result<(), Error> {
        let mut line = String::from(self.label);
        for name in &self.reads {
            let value = context.argument(name).unwrap_or_else(|| String::from("<none>"));
            line.push_str(&format!(" {}={}", name, value));
        }
        context.user_context += 1;
        self.log.borrow_mut().push(line);
        if self.fails {
            Err(Error::Action(String::from(self.label)))
        } else {
            Ok(())
        }
    }
}

struct Fresh;

impl ContextFactory<u32> for Fresh {
    fn create(&self) -> u32 {
        0
    }
}

fn probe(label: &'static str, reads: &[&'static str], log: &Log) -> Probe {
    Probe { label, reads: reads.to_vec(), fails: false, log: log.clone() }
}

fn failing(label: &'static str, log: &Log) -> Probe {
    Probe { label, reads: vec![], fails: true, log: log.clone() }
}

fn unknown() -> Error {
    Error::InvalidCommand(InvalidCommandReason::UnknownCommand)
}

type Words = Dispatcher<u32, WordArgument, Probe, Fresh>;
type Ints = Dispatcher<u32, IntArgument, Probe, Fresh>;

fn ping_dispatcher(log: &Log) -> Ints {
    Ints::builder()
        .prefix("/")
        .context(Fresh)
        .child(
            Command::literal("ping")
                .child(
                    Command::argument("number", IntArgument, true)
                        .exec(probe("ping", &["number"], log))
                        .build(),
                )
                .build(),
        )
        .build()
        .unwrap()
}

#[test]
fn literal_then_argument_runs_with_binding() {
    let log = Log::default();
    let d = ping_dispatcher(&log);
    assert_eq!(d.run_command("/ping 3"), Ok(()));
    assert_eq!(*log.borrow(), vec![String::from("ping number=3")]);
}

#[test]
fn matching_path_runs_action_exactly_once() {
    let log = Log::default();
    let d = ping_dispatcher(&log);
    d.run_command("/ping -42").unwrap();
    assert_eq!(log.borrow().len(), 1);
    assert_eq!(log.borrow()[0], "ping number=-42");
}

#[test]
fn rejected_argument_is_unknown_command() {
    let log = Log::default();
    let d = ping_dispatcher(&log);
    assert_eq!(d.run_command("/ping three"), Err(unknown()));
    assert!(log.borrow().is_empty());
}

#[test]
fn node_without_action_is_dead_end() {
    let log = Log::default();
    let d = ping_dispatcher(&log);
    assert_eq!(d.run_command("/ping"), Err(unknown()));
    assert!(log.borrow().is_empty());
}

#[test]
fn leftover_tokens_are_unknown_command() {
    let log = Log::default();
    let d = ping_dispatcher(&log);
    assert_eq!(d.run_command("/ping 3 4"), Err(unknown()));
    assert_eq!(d.run_command("/pong 3"), Err(unknown()));
    assert!(log.borrow().is_empty());
}

#[test]
fn literal_outranks_argument_declared_first() {
    let log = Log::default();
    let d = Words::builder()
        .context(Fresh)
        .child(Command::argument("any", WordArgument, true).exec(probe("argument", &["any"], &log)).build())
        .child(Command::literal("x").exec(probe("literal", &[], &log)).build())
        .build()
        .unwrap();
    assert_eq!(d.run_command("x"), Ok(()));
    assert_eq!(d.run_command("y"), Ok(()));
    assert_eq!(*log.borrow(), vec![String::from("literal"), String::from("argument any=y")]);
}

#[test]
fn named_override_leaves_cursor_alone() {
    let log = Log::default();
    let d = Ints::builder()
        .context(Fresh)
        .child(
            Command::argument("n", IntArgument, true)
                .child(Command::literal("go").exec(probe("go", &["n"], &log)).build())
                .build(),
        )
        .build()
        .unwrap();
    assert_eq!(d.run_command("n:5 go"), Ok(()));
    assert_eq!(d.run_command("go n:6"), Ok(()));
    assert_eq!(d.run_command("7 go"), Ok(()));
    assert_eq!(
        *log.borrow(),
        vec![String::from("go n=5"), String::from("go n=6"), String::from("go n=7")]
    );
}

#[test]
fn named_override_that_is_rejected_does_not_fall_back() {
    let log = Log::default();
    let d = Ints::builder()
        .context(Fresh)
        .child(
            Command::argument("n", IntArgument, true)
                .child(Command::literal("go").exec(probe("go", &["n"], &log)).build())
                .build(),
        )
        .build()
        .unwrap();
    assert_eq!(d.run_command("n:abc 7 go"), Err(unknown()));
    assert!(log.borrow().is_empty());
}

#[test]
fn later_named_token_replaces_earlier() {
    let log = Log::default();
    let d = Ints::builder()
        .context(Fresh)
        .child(
            Command::argument("n", IntArgument, true)
                .child(Command::literal("go").exec(probe("go", &["n"], &log)).build())
                .build(),
        )
        .build()
        .unwrap();
    assert_eq!(d.run_command("n:1 n:2 go"), Ok(()));
    assert_eq!(*log.borrow(), vec![String::from("go n=2")]);
}

#[test]
fn failed_invocation_stops_the_rest() {
    let log = Log::default();
    let d = Words::builder()
        .context(Fresh)
        .child(Command::literal("a").exec(failing("a", &log)).build())
        .child(Command::literal("b").exec(probe("b", &[], &log)).build())
        .build()
        .unwrap();
    assert_eq!(d.run_command("a; b"), Err(Error::Action(String::from("a"))));
    assert_eq!(*log.borrow(), vec![String::from("a")]);
}

#[test]
fn unknown_invocation_stops_the_rest() {
    let log = Log::default();
    let d = Words::builder()
        .context(Fresh)
        .child(Command::literal("b").exec(probe("b", &[], &log)).build())
        .build()
        .unwrap();
    assert_eq!(d.run_command("zzz; b"), Err(unknown()));
    assert!(log.borrow().is_empty());
}

#[test]
fn invocations_run_in_order() {
    let log = Log::default();
    let d = Words::builder()
        .context(Fresh)
        .child(Command::literal("a").exec(probe("a", &[], &log)).build())
        .child(Command::literal("b").exec(probe("b", &[], &log)).build())
        .build()
        .unwrap();
    assert_eq!(d.run_command("b;a ;; b"), Ok(()));
    assert_eq!(*log.borrow(), vec![String::from("b"), String::from("a"), String::from("b")]);
}

#[test]
fn run_invocations_counts_successes() {
    let log = Log::default();
    let d = Words::builder()
        .context(Fresh)
        .child(Command::literal("a").exec(probe("a", &[], &log)).build())
        .child(Command::literal("f").exec(failing("f", &log)).build())
        .build()
        .unwrap();
    let plan = d.parse_command("a; a; f; a").unwrap();
    assert_eq!(plan.len(), 4);
    assert_eq!(d.run_invocations(&plan), (2, Err(Error::Action(String::from("f")))));
    assert_eq!(log.borrow().len(), 3);
    let plan = d.parse_command("a; a").unwrap();
    assert_eq!(d.run_invocations(&plan), (2, Ok(())));
}

#[test]
fn empty_input_runs_nothing() {
    let log = Log::default();
    let d = ping_dispatcher(&log);
    assert_eq!(d.run_command("/"), Ok(()));
    assert_eq!(d.run_command("/ ;"), Ok(()));
    assert_eq!(d.run_command("  /  ; ;  "), Ok(()));
    assert!(d.parse_command("/;").unwrap().is_empty());
    assert!(log.borrow().is_empty());
}

#[test]
fn empty_prefix_matches_anything() {
    let log = Log::default();
    let d = Words::builder()
        .context(Fresh)
        .child(Command::literal("a").exec(probe("a", &[], &log)).build())
        .build()
        .unwrap();
    assert_eq!(d.run_command(""), Ok(()));
    assert_eq!(d.run_command(" \t\r\n a"), Ok(()));
    assert_eq!(log.borrow().len(), 1);
}

#[test]
fn missing_prefix_is_syntax_error() {
    let log = Log::default();
    let d = ping_dispatcher(&log);
    assert_eq!(d.run_command("ping 3"), Err(Error::Syntax));
    assert_eq!(d.run_command(""), Err(Error::Syntax));
    assert!(log.borrow().is_empty());
}

#[test]
fn leading_blanks_and_long_prefix_are_stripped() {
    let log = Log::default();
    let d = Ints::builder()
        .prefix("bot!")
        .context(Fresh)
        .child(Command::literal("hi").exec(probe("hi", &[], &log)).build())
        .build()
        .unwrap();
    assert_eq!(d.run_command(" \t\n bot!hi"), Ok(()));
    assert_eq!(d.run_command("bot! hi"), Ok(()));
    assert_eq!(d.run_command("bot hi"), Err(Error::Syntax));
    assert_eq!(d.run_command("bo"), Err(Error::Syntax));
    assert_eq!(log.borrow().len(), 2);
    let plan = d.parse_command("  bot!hi there").unwrap();
    assert_eq!(plan.len(), 1);
    assert_eq!(plan[0].len(), 2);
}

#[test]
fn malformed_named_token_is_syntax_error() {
    let log = Log::default();
    let d = ping_dispatcher(&log);
    assert_eq!(d.run_command("/ping n:"), Err(Error::Syntax));
    assert_eq!(d.run_command("/ping :3"), Err(Error::Syntax));
    assert!(log.borrow().is_empty());
}

#[test]
fn malformed_later_invocation_runs_nothing() {
    let log = Log::default();
    let d = ping_dispatcher(&log);
    assert_eq!(d.run_command("/ping 3; ping :"), Err(Error::Syntax));
    assert!(log.borrow().is_empty());
}

#[test]
fn root_action_runs_on_zero_tokens() {
    let log = Log::default();
    let root: Command<WordArgument, Probe> = Command::literal("").exec(probe("root", &[], &log)).build();
    let mut context = ExecContext::new(0u32);
    let state = root.execute(0, &[], &Bindings::new(), &mut context);
    assert!(matches!(state, ExecState::Done(Ok(()))));
    assert_eq!(*log.borrow(), vec![String::from("root")]);
    assert_eq!(context.user_context, 1);
}

#[test]
fn root_without_action_on_zero_tokens_is_unknown() {
    let root: Command<WordArgument, Probe> = Command::literal("").build();
    let mut context = ExecContext::new(0u32);
    let state = root.execute(0, &[], &Bindings::new(), &mut context);
    assert!(matches!(
        state,
        ExecState::Done(Err(Error::InvalidCommand(InvalidCommandReason::UnknownCommand)))
    ));
}

#[test]
fn abandoned_branch_leaves_no_binding() {
    let log = Log::default();
    let d = Words::builder()
        .context(Fresh)
        .child(
            Command::argument("first", WordArgument, true)
                .child(Command::literal("x").exec(probe("x", &["first", "second"], &log)).build())
                .build(),
        )
        .child(
            Command::argument("second", WordArgument, true)
                .child(Command::literal("y").exec(probe("y", &["first", "second"], &log)).build())
                .build(),
        )
        .build()
        .unwrap();
    assert_eq!(d.run_command("v y"), Ok(()));
    assert_eq!(*log.borrow(), vec![String::from("y first=<none> second=v")]);
}

#[test]
fn no_match_leaves_context_untouched() {
    let log = Log::default();
    let root: Command<WordArgument, Probe> = Command::literal("")
        .child(
            Command::argument("a", WordArgument, true)
                .child(Command::literal("x").exec(probe("x", &[], &log)).build())
                .build(),
        )
        .build();
    let tokens = vec![String::from("v"), String::from("w")];
    let mut context = ExecContext::new(9u32);
    let state = root.execute(0, &tokens, &Bindings::new(), &mut context);
    assert!(matches!(state, ExecState::Working));
    assert_eq!(context.argument("a"), None);
    assert_eq!(context.depth(), 0);
    assert_eq!(context.user_context, 9);
}

#[test]
fn first_declared_argument_wins() {
    let log = Log::default();
    let d = Words::builder()
        .context(Fresh)
        .child(Command::argument("one", WordArgument, true).exec(probe("one", &["one"], &log)).build())
        .child(Command::argument("two", WordArgument, true).exec(probe("two", &["two"], &log)).build())
        .build()
        .unwrap();
    assert_eq!(d.run_command("v"), Ok(()));
    assert_eq!(*log.borrow(), vec![String::from("one one=v")]);
}

#[test]
fn dead_end_hides_later_sibling() {
    let log = Log::default();
    let d = Words::builder()
        .context(Fresh)
        .child(Command::literal("a").build())
        .child(Command::argument("w", WordArgument, true).exec(probe("w", &[], &log)).build())
        .build()
        .unwrap();
    assert_eq!(d.run_command("a"), Err(unknown()));
    assert!(log.borrow().is_empty());
}

#[test]
fn process_literal_advances_cursor() {
    let node: Command<WordArgument, Probe> = Command::literal("go").build();
    let tokens = vec![String::from("stop"), String::from("go")];
    let mut context = ExecContext::new(0u32);
    let mut offset = 1usize;
    assert!(node.process(&mut offset, &tokens, &Bindings::new(), &mut context));
    assert_eq!(offset, 2);
    let mut offset = 0usize;
    assert!(!node.process(&mut offset, &tokens, &Bindings::new(), &mut context));
    assert_eq!(offset, 0);
    let mut offset = 2usize;
    assert!(!node.process(&mut offset, &tokens, &Bindings::new(), &mut context));
    assert_eq!(offset, 2);
    assert_eq!(context.depth(), 0);
}

#[test]
fn process_argument_binds_value() {
    let node: Command<IntArgument, Probe> = Command::argument("n", IntArgument, false).build();
    let tokens = vec![String::from("12"), String::from("x")];
    let mut context = ExecContext::new(0u32);
    let mut offset = 0usize;
    assert!(node.process(&mut offset, &tokens, &Bindings::new(), &mut context));
    assert_eq!(offset, 1);
    assert_eq!(context.argument("n"), Some(String::from("12")));
    assert!(!node.process(&mut offset, &tokens, &Bindings::new(), &mut context));
    assert_eq!(offset, 1);
    let mut named = Bindings::new();
    named.insert(String::from("n"), String::from("77"));
    assert!(node.process(&mut offset, &tokens, &named, &mut context));
    assert_eq!(offset, 1);
    assert_eq!(context.argument("n"), Some(String::from("77")));
}

#[test]
fn node_kinds() {
    let l: Command<IntArgument, Probe> = Command::literal("a").build();
    let a: Command<IntArgument, Probe> = Command::argument("n", IntArgument, true).build();
    assert!(l.is_literal() && !l.is_argument());
    assert!(a.is_argument() && !a.is_literal());
}

#[test]
fn builder_without_factory_is_incomplete() {
    let r = Words::builder().prefix("/").build();
    assert!(matches!(r, Err(Error::IncompleteBuilder)));
}

#[test]
fn default_builder_is_new_builder() {
    let r = yogurt::DispatcherBuilder::<u32, WordArgument, Probe, Fresh>::default().build();
    assert!(matches!(r, Err(Error::IncompleteBuilder)));
    let d = yogurt::DispatcherBuilder::<u32, WordArgument, Probe, Fresh>::default()
        .context(Fresh)
        .build()
        .unwrap();
    assert_eq!(d.run_command(""), Ok(()));
    assert_eq!(d.run_command("x"), Err(unknown()));
}

#[test]
fn accepting_tree_recognizes_lines() {
    let d: Dispatcher<u32, IntArgument, yogurt::Accept, Fresh> = Dispatcher::builder()
        .prefix("!")
        .context(Fresh)
        .child(
            Command::literal("add")
                .child(
                    Command::argument("a", IntArgument, true)
                        .child(Command::argument("b", IntArgument, true).exec(yogurt::Accept).build())
                        .build(),
                )
                .build(),
        )
        .build()
        .unwrap();
    assert_eq!(d.run_command("!add 1 2"), Ok(()));
    assert_eq!(d.run_command("!add a:1 2"), Ok(()));
    assert_eq!(d.run_command("!add 1 2; add 3 4"), Ok(()));
    assert_eq!(d.run_command("!add 1"), Err(unknown()));
    assert_eq!(d.run_command("!add 1 2 3"), Err(unknown()));
    assert_eq!(d.run_command("!add 1 x"), Err(unknown()));
}

#[test]
fn search_ends_where_positional_tokens_end() {
    let d: Dispatcher<u32, IntArgument, yogurt::Accept, Fresh> = Dispatcher::builder()
        .context(Fresh)
        .child(
            Command::literal("add")
                .child(Command::argument("a", IntArgument, true).exec(yogurt::Accept).build())
                .build(),
        )
        .build()
        .unwrap();
    assert_eq!(d.run_command("add 1"), Ok(()));
    assert_eq!(d.run_command("add a:1"), Err(unknown()));
}
