//! The dispatcher: from a raw command line to the actions that run.

use crate::argument::Validator;
use crate::bindings::{bound, Bindings, Pair};
use crate::builder::DispatcherBuilder;
use crate::command::{ran, search, texts, Action, Command, ExecState, Outcome, Tree};
use crate::context::ExecContext;
use crate::error::{Error, InvalidCommandReason};
use crate::token::{is_blank, token_views, tokenize, tokens_of, Token, TokenView};
use vstd::prelude::*;
use vstd::string::*;

verus! {

/// Makes the caller's state for one invocation.
pub trait ContextFactory<C> {
    /// A fresh state.
    fn create(&self) -> C;
}

/// The index of the first character of `s` at or after `i` that is not
/// blank, or the length of `s`.
pub open spec fn blank_run(s: Seq<char>, i: int) -> int
    decreases s.len() - i,
{
    if 0 <= i < s.len() && is_blank(s[i]) {
        blank_run(s, i + 1)
    } else {
        i
    }
}

/// What is left of a command line once leading blanks and the prefix are
/// taken off, or `None` if the prefix is not there.
pub open spec fn strip(prefix: Seq<char>, raw: Seq<char>) -> Option<Seq<char>> {
    let body = raw.skip(blank_run(raw, 0));
    if prefix.is_prefix_of(body) {
        Some(body.skip(prefix.len() as int))
    } else {
        None
    }
}

/// The invocations in `tokens` from index `i` on, where `current` holds the
/// tokens of the invocation under way. A boundary, and the end of the
/// tokens, close the invocation under way; an empty one is dropped.
pub open spec fn split(tokens: Seq<TokenView>, i: int, current: Seq<TokenView>) -> Seq<
    Seq<TokenView>,
>
    decreases tokens.len() - i,
{
    if i < 0 || i >= tokens.len() {
        if current.len() > 0 {
            seq![current]
        } else {
            Seq::empty()
        }
    } else if tokens[i] is Boundary {
        if current.len() > 0 {
            seq![current] + split(tokens, i + 1, Seq::empty())
        } else {
            split(tokens, i + 1, Seq::empty())
        }
    } else {
        split(tokens, i + 1, current.push(tokens[i]))
    }
}

/// The non-empty invocations that a token stream holds, in order.
pub open spec fn invocations(tokens: Seq<TokenView>) -> Seq<Seq<TokenView>> {
    split(tokens, 0, Seq::empty())
}

/// The invocations of a raw command line, or `None` where the line is
/// rejected: the prefix is missing or a named token is malformed.
pub open spec fn parse(prefix: Seq<char>, raw: Seq<char>) -> Option<Seq<Seq<TokenView>>> {
    match strip(prefix, raw) {
        None => None,
        Some(body) => match tokens_of(body) {
            None => None,
            Some(tokens) => Some(invocations(tokens)),
        },
    }
}

/// The texts of the positional tokens of an invocation, in order.
pub open spec fn positionals(tokens: Seq<TokenView>) -> Seq<Seq<char>>
    decreases tokens.len(),
{
    if tokens.len() == 0 {
        Seq::empty()
    } else {
        match tokens.last() {
            TokenView::Positional(text) => positionals(tokens.drop_last()).push(text),
            _ => positionals(tokens.drop_last()),
        }
    }
}

/// The named tokens of an invocation as a trail of bindings, in order.
pub open spec fn named_trail(tokens: Seq<TokenView>) -> Seq<Pair>
    decreases tokens.len(),
{
    if tokens.len() == 0 {
        Seq::empty()
    } else {
        match tokens.last() {
            TokenView::Named(key, value) => named_trail(tokens.drop_last()).push((key, value)),
            _ => named_trail(tokens.drop_last()),
        }
    }
}

/// Where matching one invocation against `tree` ends: the search starts at
/// the root with the cursor before the first positional token, the named
/// tokens as overrides, and no bindings.
pub open spec fn route(tree: Tree, invocation: Seq<TokenView>) -> Outcome {
    search(tree, 0, positionals(invocation), bound(named_trail(invocation)), Seq::empty())
}

/// The views of a run of invocations, in order.
pub open spec fn invocation_views(invocations: Seq<Vec<Token>>) -> Seq<Seq<TokenView>> {
    Seq::new(invocations.len(), |i: int| token_views(invocations[i]@))
}

/// Calls nom's `multispace0`, the complete parser of zero or more spaces,
/// tabs, carriage returns and line feeds, and hands back the rest of the
/// input. The contract claims that the rest starts at the first character
/// that is none of these four.
#[verifier::external_body]
fn skip_blanks<'a>(input: &'a str) -> (rest: &'a str)
    ensures
        rest@ == input@.skip(blank_run(input@, 0)),
{
    match nom::character::complete::multispace0::<&str, nom::error::Error<&str>>(input) {
        Ok((rest, _)) => rest,
        Err(_) => input,
    }
}

/// Calls nom's `tag` parser for `prefix` on `input`. The contract claims
/// that it succeeds exactly when `input` starts with `prefix`, and that the
/// rest is what follows the prefix.
#[verifier::external_body]
fn strip_tag<'a>(prefix: &str, input: &'a str) -> (rest: Option<&'a str>)
    ensures
        match rest {
            Some(r) => prefix@.is_prefix_of(input@) && r@ == input@.skip(prefix@.len() as int),
            None => !prefix@.is_prefix_of(input@),
        },
{
    match nom::bytes::complete::tag::<&str, &str, nom::error::Error<&str>>(prefix)(input) {
        Ok((rest, _)) => Some(rest),
        Err(_) => None,
    }
}

fn copy_token(token: &Token) -> (copy: Token)
    ensures
        copy@ == token@,
{
    match token {
        Token::Positional(text) => Token::Positional(text.clone()),
        Token::Named(key, value) => Token::Named(key.clone(), value.clone()),
        Token::Boundary => Token::Boundary,
    }
}

/// The texts of the positional tokens, in order.
pub fn unwrap_tokens(tokens: &Vec<Token>) -> (output: Vec<String>)
    ensures
        texts(output@) == positionals(token_views(tokens@)),
{
    let ghost all = token_views(tokens@);
    let mut output: Vec<String> = Vec::new();
    let mut i: usize = 0;
    proof {
        assert(all.take(0) =~= Seq::<TokenView>::empty());
        assert(texts(output@) =~= positionals(all.take(0)));
    }
    while i < tokens.len()
        invariant
            i <= tokens@.len(),
            all == token_views(tokens@),
            texts(output@) == positionals(all.take(i as int)),
        decreases tokens@.len() - i,
    {
        let ghost before = texts(output@);
        proof {
            assert(all.take(i + 1).drop_last() =~= all.take(i as int));
            assert(all.take(i + 1).last() == tokens@[i as int]@);
        }
        if let Token::Positional(content) = &tokens[i] {
            output.push(content.clone());
            assert(texts(output@) =~= before.push(content@));
        }
        i += 1;
    }
    proof {
        assert(all.take(i as int) =~= all);
    }
    output
}

/// The named tokens as overrides; a later token of the same key replaces
/// an earlier one.
pub fn map_named_arguments(tokens: &Vec<Token>) -> (output: Bindings)
    ensures
        output.trail() == named_trail(token_views(tokens@)),
        output@ == bound(named_trail(token_views(tokens@))),
{
    let ghost all = token_views(tokens@);
    let mut output = Bindings::new();
    let mut i: usize = 0;
    proof {
        assert(all.take(0) =~= Seq::<TokenView>::empty());
    }
    while i < tokens.len()
        invariant
            i <= tokens@.len(),
            all == token_views(tokens@),
            output.trail() == named_trail(all.take(i as int)),
        decreases tokens@.len() - i,
    {
        proof {
            assert(all.take(i + 1).drop_last() =~= all.take(i as int));
            assert(all.take(i + 1).last() == tokens@[i as int]@);
        }
        if let Token::Named(key, value) = &tokens[i] {
            output.insert(key.clone(), value.clone());
        }
        i += 1;
    }
    proof {
        assert(all.take(i as int) =~= all);
    }
    output
}

/// Cuts a token stream into its non-empty invocations.
pub fn split_invocations(tokens: &Vec<Token>) -> (output: Vec<Vec<Token>>)
    ensures
        invocation_views(output@) == invocations(token_views(tokens@)),
{
    let ghost all = token_views(tokens@);
    let mut output: Vec<Vec<Token>> = Vec::new();
    let mut current: Vec<Token> = Vec::new();
    let mut i: usize = 0;
    proof {
        assert(invocation_views(output@) =~= Seq::<Seq<TokenView>>::empty());
        assert(token_views(current@) =~= Seq::<TokenView>::empty());
        assert(Seq::<Seq<TokenView>>::empty() + split(all, 0, Seq::empty()) =~= split(
            all,
            0,
            Seq::empty(),
        ));
    }
    while i < tokens.len()
        invariant
            i <= tokens@.len(),
            all == token_views(tokens@),
            invocations(all) == invocation_views(output@) + split(
                all,
                i as int,
                token_views(current@),
            ),
        decreases tokens@.len() - i,
    {
        let ghost done = invocation_views(output@);
        let ghost open = token_views(current@);
        assert(all[i as int] == tokens@[i as int]@);
        match &tokens[i] {
            Token::Boundary => {
                if current.len() > 0 {
                    output.push(current);
                    current = Vec::new();
                    proof {
                        assert(invocation_views(output@) =~= done.push(open));
                        assert(token_views(current@) =~= Seq::<TokenView>::empty());
                        let tail = split(all, i + 1, Seq::empty());
                        assert(done + (seq![open] + tail) =~= done.push(open) + tail);
                    }
                } else {
                    assert(token_views(current@) =~= Seq::<TokenView>::empty());
                }
            },
            token => {
                let copy = copy_token(token);
                current.push(copy);
                assert(token_views(current@) =~= open.push(all[i as int]));
            },
        }
        i += 1;
    }
    let ghost done = invocation_views(output@);
    let ghost open = token_views(current@);
    if current.len() > 0 {
        output.push(current);
        proof {
            assert(invocation_views(output@) =~= done.push(open));
            assert(done + seq![open] =~= done.push(open));
        }
    } else {
        assert(done + Seq::<Seq<TokenView>>::empty() =~= done);
    }
    output
}

/// Whether `result` may be what one invocation comes to: where the search
/// reaches an action, a result that the action permits on the bindings made
/// on the way; where it reaches none, the unknown-command error.
pub open spec fn served<C, V: Validator, A: Action<C>>(
    root: Command<V, A>,
    invocation: Seq<TokenView>,
    result: Result<(), Error>,
) -> bool {
    match route(root@, invocation) {
        Outcome::Run(path, trail) => exists|before: ExecContext<C>, after: ExecContext<C>|
            before.trail() == trail && #[trigger] ran(root.action_at(path), before, after, result),
        _ => result == Err::<(), Error>(Error::unknown_command()),
    }
}

/// Whether `result` may be what a run of invocations comes to when the
/// first `done` of them succeed: each of those comes to `Ok`, and either
/// they are all and the result is `Ok`, or the next one fails with `result`.
pub open spec fn pipeline<C, V: Validator, A: Action<C>>(
    root: Command<V, A>,
    invocations: Seq<Seq<TokenView>>,
    done: int,
    result: Result<(), Error>,
) -> bool {
    &&& 0 <= done <= invocations.len()
    &&& forall|i: int|
        0 <= i < done ==> #[trigger] served::<C, V, A>(root, invocations[i], Ok::<(), Error>(()))
    &&& done == invocations.len() ==> result is Ok
    &&& done < invocations.len() ==> result is Err && served::<C, V, A>(
        root,
        invocations[done],
        result,
    )
}

/// A command tree with the prefix that command lines must start with and
/// the factory of per-invocation state.
pub struct Dispatcher<C, V: Validator, A, F> {
    root: Command<V, A>,
    prefix: String,
    context_factory: F,
    state: core::marker::PhantomData<C>,
}

impl<C, V: Validator, A: Action<C>, F: ContextFactory<C>> Dispatcher<C, V, A, F> {
    /// The command tree.
    pub closed spec fn tree(&self) -> Tree {
        self.root@
    }

    /// The root of the command tree.
    pub closed spec fn root(&self) -> Command<V, A> {
        self.root
    }

    /// The prefix that every command line must start with.
    pub closed spec fn prefix(&self) -> Seq<char> {
        self.prefix@
    }

    /// The factory of per-invocation state.
    pub closed spec fn factory(&self) -> F {
        self.context_factory
    }

    /// A dispatcher made of its parts.
    pub(crate) fn assemble(root: Command<V, A>, prefix: String, context_factory: F) -> (d: Self)
        ensures
            d.root() == root,
            d.factory() == context_factory,
            d.tree() == root@,
            d.prefix() == prefix@,
    {
        Dispatcher { root, prefix, context_factory, state: core::marker::PhantomData }
    }

    /// Starts the construction of a dispatcher.
    pub fn builder() -> (b: DispatcherBuilder<C, V, A, F>)
        ensures
            b.prefix_text() == Seq::<char>::empty(),
            b.declared() == Seq::<Tree>::empty(),
            b.factory() is None,
    {
        DispatcherBuilder::new()
    }

    /// Takes leading blanks and the prefix off a command line, tokenizes the
    /// rest and cuts it into invocations.
    ///
    /// Fails with [`Error::Syntax`] exactly when the prefix is missing or a
    /// named token is malformed.
    pub fn parse_command(&self, command: &str) -> (r: Result<Vec<Vec<Token>>, Error>)
        ensures
            match parse(self.prefix(), command@) {
                Some(invs) => r matches Ok(v) && invocation_views(v@) == invs,
                None => r == Err::<Vec<Vec<Token>>, Error>(Error::Syntax),
            },
    {
        let body = skip_blanks(command);
        match strip_tag(self.prefix.as_str(), body) {
            None => Err(Error::Syntax),
            Some(rest) => match tokenize(rest) {
                Err(_) => Err(Error::Syntax),
                Ok(mut tokens) => {
                    let ghost plain = token_views(tokens@);
                    tokens.push(Token::Boundary);
                    proof {
                        assert(token_views(tokens@) =~= plain.push(TokenView::Boundary));
                        lemma_closing_boundary(plain, 0, Seq::empty());
                    }
                    Ok(split_invocations(&tokens))
                },
            },
        }
    }

    /// Matches one invocation against the tree, from the root, and runs the
    /// action it reaches on a fresh context.
    ///
    /// Fails with the unknown-command error exactly when no action is
    /// reached; otherwise the result is the action's.
    pub fn execute_command(&self, tokens: &Vec<Token>) -> (r: Result<(), Error>)
        ensures
            served::<C, V, A>(self.root(), token_views(tokens@), r),
    {
        let positional = unwrap_tokens(tokens);
        let named = map_named_arguments(tokens);
        let mut context = ExecContext::new(self.context_factory.create());
        let state = self.root.execute(0, positional.as_slice(), &named, &mut context);
        finish(state)
    }

    /// Runs the invocations in order and stops at the first that fails.
    ///
    /// Returns how many invocations ran to success before the call ended,
    /// and the result: `Ok` when that is all of them, else the failure of
    /// the invocation that follows them.
    pub fn run_invocations(&self, invocations: &Vec<Vec<Token>>) -> (r: (usize, Result<(), Error>))
        ensures
            pipeline::<C, V, A>(self.root(), invocation_views(invocations@), r.0 as int, r.1),
    {
        let ghost all = invocation_views(invocations@);
        let mut i: usize = 0;
        while i < invocations.len()
            invariant
                i <= invocations@.len(),
                all == invocation_views(invocations@),
                forall|j: int|
                    0 <= j < i ==> #[trigger] served::<C, V, A>(
                        self.root(),
                        all[j],
                        Ok::<(), Error>(()),
                    ),
            decreases invocations@.len() - i,
        {
            assert(all[i as int] == token_views(invocations@[i as int]@));
            let result = self.execute_command(&invocations[i]);
            match result {
                Err(e) => {
                    return (i, Err(e));
                },
                Ok(u) => {
                    assert(u == ());
                },
            }
            i += 1;
        }
        (i, Ok(()))
    }

    /// Dispatches a raw command line.
    ///
    /// Leading blanks and the prefix are taken off, the rest is tokenized and
    /// cut into invocations at boundaries, and the invocations run in order
    /// until one fails: the result is that failure, or `Ok` if there is
    /// none. A line that holds no invocation succeeds without running
    /// anything. A line that is rejected runs nothing.
    pub fn run_command(&self, command: &str) -> (r: Result<(), Error>)
        ensures
            match parse(self.prefix(), command@) {
                None => r == Err::<(), Error>(Error::Syntax),
                Some(invs) => exists|done: int| #[trigger] pipeline::<C, V, A>(self.root(), invs, done, r),
            },
            parse(self.prefix(), command@) == Some(Seq::<Seq<TokenView>>::empty()) ==> r is Ok,
    {
        match self.parse_command(command) {
            Err(_) => Err(Error::Syntax),
            Ok(invocations) => {
                let (done, result) = self.run_invocations(&invocations);
                assert(pipeline::<C, V, A>(
                    self.root(),
                    invocation_views(invocations@),
                    done as int,
                    result,
                ));
                result
            },
        }
    }
}

/// The result of an invocation whose matching ended in `state`: a finished
/// invocation has its own result, and one that matched nothing is unknown.
pub fn finish(state: ExecState) -> (r: Result<(), Error>)
    ensures
        r == match state {
            ExecState::Working => Err::<(), Error>(Error::unknown_command()),
            ExecState::Done(result) => result,
        },
{
    match state {
        ExecState::Working => Err(Error::InvalidCommand(InvalidCommandReason::UnknownCommand)),
        ExecState::Done(result) => result,
    }
}

/// A boundary at the end of a token stream adds no invocation: the end of
/// the stream closes the last invocation as a boundary does.
pub proof fn lemma_closing_boundary(tokens: Seq<TokenView>, i: int, current: Seq<TokenView>)
    requires
        0 <= i <= tokens.len(),
    ensures
        split(tokens.push(TokenView::Boundary), i, current) == split(tokens, i, current),
    decreases tokens.len() - i,
{
    let closed = tokens.push(TokenView::Boundary);
    if i < tokens.len() {
        assert(closed[i] == tokens[i]);
        if tokens[i] is Boundary {
            lemma_closing_boundary(tokens, i + 1, Seq::empty());
        } else {
            lemma_closing_boundary(tokens, i + 1, current.push(tokens[i]));
        }
    } else {
        assert(closed[i] is Boundary);
        assert(split(closed, i + 1, Seq::empty()) == Seq::<Seq<TokenView>>::empty());
        if current.len() > 0 {
            assert(seq![current] + Seq::<Seq<TokenView>>::empty() =~= seq![current]);
        }
    }
}

} // verus!
