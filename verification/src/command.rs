//! The command tree and the matcher that walks it.

use crate::argument::{Argument, Validator};
use crate::bindings::{Bindings, Pair};
use crate::context::ExecContext;
use crate::error::{Error, InvalidCommandReason};
use vstd::prelude::*;
use vstd::string::*;

verus! {

/// What a node of the tree matches.
pub enum NodeType<V> {
    /// A slot filled by a validated value.
    Argument(Argument<V>),
    /// A keyword matched by its exact text.
    Literal(String),
}

/// The mathematical value of a [`NodeType`].
pub enum NodeView {
    /// A keyword with its text.
    Literal(Seq<char>),
    /// A slot with its name, whether it is declared as required, and the
    /// set of values it accepts.
    Argument(Seq<char>, bool, spec_fn(Seq<char>) -> bool),
}

impl<V: Validator> View for NodeType<V> {
    type V = NodeView;

    open spec fn view(&self) -> NodeView {
        match *self {
            NodeType::Literal(text) => NodeView::Literal(text@),
            NodeType::Argument(a) => NodeView::Argument(
                a.name@,
                a.required,
                |raw: Seq<char>| a.validator.accepts(raw),
            ),
        }
    }
}

/// The mathematical value of a command tree: what each node matches, its
/// children in the order in which they are tried, and whether it bears an
/// action.
pub struct Tree {
    pub node: NodeView,
    pub children: Seq<Tree>,
    pub runnable: bool,
}

/// Where matching one invocation ends.
pub enum Outcome {
    /// No child could be entered: the caller goes on with the next sibling.
    NoMatch,
    /// The input was consumed at a node that bears no action.
    DeadEnd,
    /// The input was consumed at the node reached by the given child
    /// indices, with the given trail of bindings.
    Run(Seq<int>, Seq<Pair>),
}

/// The result of matching below one node.
#[derive(Debug)]
pub enum ExecState {
    /// Nothing below the node consumed the input.
    Working,
    /// The invocation is over, with the given result.
    Done(Result<(), Error>),
}

/// What runs when a node is reached with the input consumed.
///
/// `permits` relates the context handed to the action, the context it leaves
/// and its result. An implementation that says nothing permits every run.
pub trait Action<C> {
    /// Whether running on `before` may leave `after` and return `result`.
    open spec fn permits(
        &self,
        before: ExecContext<C>,
        after: ExecContext<C>,
        result: Result<(), Error>,
    ) -> bool {
        true
    }

    /// Runs the action on the bound context.
    fn run(&self, context: &mut ExecContext<C>) -> (result: Result<(), Error>)
        ensures
            self.permits(*old(context), *final(context), result),
    ;
}

/// The action that does nothing and succeeds. A tree whose actions are all
/// of this kind recognizes command lines without acting on them.
#[derive(Debug, Clone, Copy)]
pub struct Accept;

impl<C> Action<C> for Accept {
    open spec fn permits(
        &self,
        before: ExecContext<C>,
        after: ExecContext<C>,
        result: Result<(), Error>,
    ) -> bool {
        after == before && result is Ok
    }

    fn run(&self, context: &mut ExecContext<C>) -> (result: Result<(), Error>) {
        Ok(())
    }
}

/// Whether `action` is present and permits the given run.
pub open spec fn ran<C, A: Action<C>>(
    action: Option<A>,
    before: ExecContext<C>,
    after: ExecContext<C>,
    result: Result<(), Error>,
) -> bool {
    action matches Some(a) && a.permits(before, after, result)
}

/// The raw texts of positional tokens, in order.
pub open spec fn texts(tokens: Seq<String>) -> Seq<Seq<char>> {
    Seq::new(tokens.len(), |i: int| tokens[i]@)
}

/// Entering one node: the cursor and the trail afterwards, or `None` if the
/// node cannot be entered.
///
/// A literal consumes the token at the cursor if it equals the literal's
/// text. An argument whose name has a named override takes that value and
/// leaves the cursor alone; otherwise it consumes the token at the cursor.
/// Either way the value must be accepted, and is then bound. Whether the
/// argument is declared as required plays no part.
pub open spec fn step(
    node: NodeView,
    offset: int,
    tokens: Seq<Seq<char>>,
    named: Map<Seq<char>, Seq<char>>,
    trail: Seq<Pair>,
) -> Option<(int, Seq<Pair>)> {
    match node {
        NodeView::Literal(text) => if 0 <= offset < tokens.len() && tokens[offset] == text {
            Some((offset + 1, trail))
        } else {
            None
        },
        NodeView::Argument(name, _, accepts) => if named.contains_key(name) {
            if accepts(named[name]) {
                Some((offset, trail.push((name, named[name]))))
            } else {
                None
            }
        } else if 0 <= offset < tokens.len() && accepts(tokens[offset]) {
            Some((offset + 1, trail.push((name, tokens[offset]))))
        } else {
            None
        },
    }
}

/// Matching at `tree` with the cursor at `offset`.
///
/// Once the cursor has consumed every token the search ends here: with the
/// node's action if it has one, as a dead end if not. Otherwise the children
/// are tried in order.
pub open spec fn search(
    tree: Tree,
    offset: int,
    tokens: Seq<Seq<char>>,
    named: Map<Seq<char>, Seq<char>>,
    trail: Seq<Pair>,
) -> Outcome
    decreases tree, 1int, 0int,
{
    if offset >= tokens.len() {
        if tree.runnable {
            Outcome::Run(Seq::empty(), trail)
        } else {
            Outcome::DeadEnd
        }
    } else {
        search_children(tree, 0, offset, tokens, named, trail)
    }
}

/// Matching at the children of `tree` from index `i` on: the first child
/// that can be entered and below which the input is consumed decides.
pub open spec fn search_children(
    tree: Tree,
    i: int,
    offset: int,
    tokens: Seq<Seq<char>>,
    named: Map<Seq<char>, Seq<char>>,
    trail: Seq<Pair>,
) -> Outcome
    decreases tree, 0int, tree.children.len() - i,
{
    if i < 0 || i >= tree.children.len() {
        Outcome::NoMatch
    } else {
        match step(tree.children[i].node, offset, tokens, named, trail) {
            None => search_children(tree, i + 1, offset, tokens, named, trail),
            Some((next, bound)) => match search(tree.children[i], next, tokens, named, bound) {
                Outcome::NoMatch => search_children(tree, i + 1, offset, tokens, named, trail),
                Outcome::DeadEnd => Outcome::DeadEnd,
                Outcome::Run(path, last) => Outcome::Run(seq![i] + path, last),
            },
        }
    }
}

/// The node reached from `tree` by the given child indices.
pub open spec fn node_at(tree: Tree, path: Seq<int>) -> Tree
    decreases path.len(),
{
    if path.len() == 0 {
        tree
    } else if 0 <= path[0] < tree.children.len() {
        node_at(tree.children[path[0]], path.drop_first())
    } else {
        tree
    }
}

/// Whether each index of `path` names a child of the node reached before it.
pub open spec fn within(tree: Tree, path: Seq<int>) -> bool
    decreases path.len(),
{
    path.len() == 0 || (0 <= path[0] < tree.children.len() && within(
        tree.children[path[0]],
        path.drop_first(),
    ))
}

/// Whether no argument in `trees` stands before a literal.
pub open spec fn is_ordered(trees: Seq<Tree>) -> bool {
    forall|i: int, j: int|
        0 <= i < j < trees.len() && (#[trigger] trees[j]).node is Literal ==> (#[trigger] trees[i]).node is Literal
}

/// Whether, at every node of `tree`, no argument child stands before a
/// literal child.
pub open spec fn well_ordered(tree: Tree) -> bool
    decreases tree,
{
    is_ordered(tree.children) && forall|i: int|
        0 <= i < tree.children.len() ==> well_ordered(#[trigger] tree.children[i])
}

/// A node of the command tree. At every node the literal children stand
/// before the argument children.
pub struct Command<V: Validator, A> {
    pub(crate) children: Vec<Command<V, A>>,
    pub(crate) node: NodeType<V>,
    pub(crate) action: Option<A>,
}

impl<V: Validator, A> View for Command<V, A> {
    type V = Tree;

    closed spec fn view(&self) -> Tree
        decreases self, 1int, 0nat,
    {
        Tree {
            node: self.node@,
            children: self.subtrees(self.children@.len()),
            runnable: self.action is Some,
        }
    }
}

impl<V: Validator, A> Command<V, A> {
    /// The action of the node reached from here by the given child indices.
    pub closed spec fn action_at(&self, path: Seq<int>) -> Option<A>
        decreases path.len(),
    {
        if path.len() == 0 {
            self.action
        } else if 0 <= path[0] < self.children@.len() {
            self.children@[path[0]].action_at(path.drop_first())
        } else {
            None
        }
    }

    /// The views of the first `n` children.
    closed spec fn subtrees(&self, n: nat) -> Seq<Tree>
        decreases self, 0int, n,
    {
        if n == 0 || n > self.children@.len() {
            Seq::empty()
        } else {
            self.subtrees((n - 1) as nat).push(self.children@[n - 1].view())
        }
    }

    proof fn lemma_subtrees(&self, n: nat)
        requires
            n <= self.children@.len(),
        ensures
            self.subtrees(n).len() == n,
            forall|i: int| 0 <= i < n ==> #[trigger] self.subtrees(n)[i] == self.children@[i]@,
        decreases n,
    {
        if n > 0 {
            self.lemma_subtrees((n - 1) as nat);
            assert(self.subtrees(n) == self.subtrees((n - 1) as nat).push(
                self.children@[n - 1].view(),
            ));
        } else {
            assert(self.subtrees(n).len() == 0);
        }
    }

    /// The view of a node is made of the views of its parts.
    pub(crate) proof fn lemma_view(&self)
        ensures
            self@.node == self.node@,
            self@.runnable == (self.action is Some),
            self@.children.len() == self.children@.len(),
            forall|i: int|
                0 <= i < self.children@.len() ==> #[trigger] self@.children[i]
                    == self.children@[i]@,
    {
        self.lemma_subtrees(self.children@.len());
    }

    #[verifier::type_invariant]
    pub(crate) closed spec fn ordered(&self) -> bool {
        well_ordered(self@)
    }

    /// Every command is in matching order at every node. The call does
    /// nothing; it lets a verified caller use the fact.
    pub fn ordering(&self)
        ensures
            well_ordered(self@),
    {
        proof {
            use_type_invariant(self);
        }
    }

    /// What it takes to make a node of ordered children.
    pub(crate) proof fn lemma_parts(children: Vec<Command<V, A>>, node: NodeType<V>, action: Option<A>)
        requires
            is_ordered(Seq::new(children@.len(), |i: int| children@[i]@)),
            forall|i: int| 0 <= i < children@.len() ==> well_ordered(#[trigger] children@[i]@),
        ensures
            (Command { children, node, action }).ordered(),
    {
        let c = Command { children, node, action };
        c.lemma_view();
        assert(c@.children =~= Seq::new(children@.len(), |i: int| children@[i]@));
    }

    /// The node that a path within the tree reaches is runnable exactly when
    /// the command there has an action.
    pub proof fn lemma_action_at(&self, path: Seq<int>)
        requires
            within(self@, path),
        ensures
            self.action_at(path) is Some <==> node_at(self@, path).runnable,
        decreases path.len(),
    {
        self.lemma_view();
        if path.len() > 0 {
            self.children@[path[0]].lemma_action_at(path.drop_first());
        }
    }

    /// The action at the empty path is the node's own.
    pub(crate) proof fn lemma_action_here(&self)
        ensures
            self.action_at(Seq::empty()) == self.action,
    {
    }

    /// Whether this node is a keyword.
    pub fn is_literal(&self) -> (b: bool)
        ensures
            b == (self@.node is Literal),
    {
        matches!(self.node, NodeType::Literal(_))
    }

    /// Whether this node is an argument slot.
    pub fn is_argument(&self) -> (b: bool)
        ensures
            b == (self@.node is Argument),
    {
        matches!(self.node, NodeType::Argument(_))
    }

    /// Tries to enter this node at the cursor `offset`.
    ///
    /// On success the cursor is advanced past a consumed token and an
    /// argument's value is bound in `context`; on failure nothing changes.
    pub fn process<C>(
        &self,
        offset: &mut usize,
        tokens: &[String],
        named: &Bindings,
        context: &mut ExecContext<C>,
    ) -> (entered: bool)
        ensures
            final(context).user_context == old(context).user_context,
            match step(
                self@.node,
                *old(offset) as int,
                texts(tokens@),
                named@,
                old(context).trail(),
            ) {
                Some((next, trail)) => entered && *final(offset) == next && final(context).trail()
                    == trail,
                None => !entered && *final(offset) == *old(offset) && final(context).trail()
                    == old(context).trail(),
            },
    {
        match &self.node {
            NodeType::Literal(name) => {
                if *offset < tokens.len() && *name == tokens[*offset] {
                    *offset += 1;
                    true
                } else {
                    false
                }
            },
            NodeType::Argument(argument) => {
                match named.get(&argument.name) {
                    Some(value) => {
                        if argument.matches(value.as_str()) {
                            context.insert_argument(argument.name.clone(), value.clone());
                            true
                        } else {
                            false
                        }
                    },
                    None => {
                        if *offset < tokens.len() && argument.matches(tokens[*offset].as_str()) {
                            context.insert_argument(
                                argument.name.clone(),
                                tokens[*offset].clone(),
                            );
                            *offset += 1;
                            true
                        } else {
                            false
                        }
                    },
                }
            },
        }
    }

    /// Matches the tokens from `offset` on against this node's subtree and
    /// runs the action of the node at which the input is consumed.
    ///
    /// The node found is the one that [`search`] names. Its action receives
    /// the caller's state untouched and the bindings made on the way. When
    /// nothing matches, `context` is left as it was.
    pub fn execute<C>(
        &self,
        offset: usize,
        tokens: &[String],
        named: &Bindings,
        context: &mut ExecContext<C>,
    ) -> (state: ExecState) where A: Action<C>
        ensures
            match search(self@, offset as int, texts(tokens@), named@, old(context).trail()) {
                Outcome::NoMatch => state is Working && final(context).trail() == old(
                    context,
                ).trail() && final(context).user_context == old(context).user_context,
                Outcome::DeadEnd => state == ExecState::Done(Err(Error::unknown_command()))
                    && final(context).user_context == old(context).user_context,
                Outcome::Run(path, trail) => exists|before: ExecContext<C>, result: Result<(), Error>|
                    {
                        &&& before.user_context == old(context).user_context
                        &&& before.trail() == trail
                        &&& #[trigger] ran(self.action_at(path), before, *final(context), result)
                        &&& state == ExecState::Done(result)
                    },
            },
        decreases self,
    {
        proof {
            self.lemma_view();
        }
        if offset >= tokens.len() {
            return match &self.action {
                Some(action) => {
                    let ghost before = *context;
                    let result = action.run(context);
                    proof {
                        assert(ran(self.action_at(Seq::empty()), before, *context, result));
                    }
                    ExecState::Done(result)
                },
                None => ExecState::Done(
                    Err(Error::InvalidCommand(InvalidCommandReason::UnknownCommand)),
                ),
            };
        }
        let mark: usize = context.depth();
        let mut i: usize = 0;
        while i < self.children.len()
            invariant
                offset < tokens@.len(),
                i <= self.children@.len(),
                self@.children.len() == self.children@.len(),
                mark == old(context).trail().len(),
                context.trail() == old(context).trail(),
                context.user_context == old(context).user_context,
                search(self@, offset as int, texts(tokens@), named@, old(context).trail())
                    == search_children(
                    self@,
                    i as int,
                    offset as int,
                    texts(tokens@),
                    named@,
                    old(context).trail(),
                ),
            decreases self.children@.len() - i,
        {
            let child = &self.children[i];
            let mut next: usize = offset;
            proof {
                self.lemma_view();
                child.lemma_view();
            }
            if child.process(&mut next, tokens, named, context) {
                let ghost entered = context.trail();
                match child.execute(next, tokens, named, context) {
                    ExecState::Working => {
                        context.rewind(mark);
                        assert(context.trail() =~= old(context).trail());
                    },
                    ExecState::Done(result) => {
                        proof {
                            let found = search(
                                child@,
                                next as int,
                                texts(tokens@),
                                named@,
                                entered,
                            );
                            if let Outcome::Run(path, trail) = found {
                                assert((seq![i as int] + path).drop_first() =~= path);
                            }
                        }
                        return ExecState::Done(result);
                    },
                }
            }
            i += 1;
        }
        ExecState::Working
    }
}

} // verus!
