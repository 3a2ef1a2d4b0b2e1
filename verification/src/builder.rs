//! Assembling command trees and dispatchers.

use crate::argument::{Argument, Validator};
use crate::command::{is_ordered, well_ordered, Command, NodeType, NodeView, Tree};
use crate::command::Action;
use crate::dispatcher::{ContextFactory, Dispatcher};
use crate::error::Error;
use vstd::prelude::*;
use vstd::string::*;

verus! {

/// The literal nodes of `trees`, in order.
pub open spec fn literals(trees: Seq<Tree>) -> Seq<Tree>
    decreases trees.len(),
{
    if trees.len() == 0 {
        Seq::empty()
    } else if trees.last().node is Literal {
        literals(trees.drop_last()).push(trees.last())
    } else {
        literals(trees.drop_last())
    }
}

/// The argument nodes of `trees`, in order.
pub open spec fn arguments(trees: Seq<Tree>) -> Seq<Tree>
    decreases trees.len(),
{
    if trees.len() == 0 {
        Seq::empty()
    } else if trees.last().node is Literal {
        arguments(trees.drop_last())
    } else {
        arguments(trees.drop_last()).push(trees.last())
    }
}

/// The order in which children are tried: every literal before every
/// argument, each group in the order of declaration.
pub open spec fn literals_first(trees: Seq<Tree>) -> Seq<Tree> {
    literals(trees) + arguments(trees)
}

/// The views of a run of commands, in order.
pub open spec fn trees_of<V: Validator, A>(commands: Seq<Command<V, A>>) -> Seq<Tree> {
    Seq::new(commands.len(), |i: int| commands[i]@)
}

/// A command under construction: its children are kept as declared until
/// `build` puts them in matching order.
pub struct CommandBuilder<V: Validator, A> {
    children: Vec<Command<V, A>>,
    node: NodeType<V>,
    action: Option<A>,
}

impl<V: Validator, A> CommandBuilder<V, A> {
    /// What the node under construction matches.
    pub closed spec fn node(&self) -> NodeView {
        self.node@
    }

    /// The children declared so far, in order of declaration.
    pub closed spec fn declared(&self) -> Seq<Tree> {
        trees_of(self.children@)
    }

    /// The action given so far.
    pub closed spec fn action(&self) -> Option<A> {
        self.action
    }

    /// Starts a keyword node.
    pub fn literal(name: &str) -> (b: Self)
        ensures
            b.node() == NodeView::Literal(name@),
            b.declared() == Seq::<Tree>::empty(),
            b.action() is None,
    {
        let b = CommandBuilder {
            children: Vec::new(),
            node: NodeType::Literal(name.to_owned()),
            action: None,
        };
        assert(b.declared() =~= Seq::<Tree>::empty());
        b
    }

    /// Starts an argument node named `name` whose values `parser` accepts.
    pub fn argument(parser: V, name: &str, required: bool) -> (b: Self)
        ensures
            b.node() matches NodeView::Argument(n, must, accepts) && n == name@ && must == required
                && forall|
                raw: Seq<char>,
            | #[trigger] accepts(raw) == parser.accepts(raw),
            b.declared() == Seq::<Tree>::empty(),
            b.action() is None,
    {
        let b = CommandBuilder {
            children: Vec::new(),
            action: None,
            node: NodeType::Argument(Argument::new(parser, name.to_owned(), required)),
        };
        assert(b.declared() =~= Seq::<Tree>::empty());
        b
    }

    /// Sets the action that runs when the node is reached with the input
    /// consumed.
    pub fn exec(self, action: A) -> (b: Self)
        ensures
            b.node() == self.node(),
            b.declared() == self.declared(),
            b.action() == Some(action),
    {
        CommandBuilder { children: self.children, node: self.node, action: Some(action) }
    }

    /// Declares one more child.
    pub fn child(self, child: Command<V, A>) -> (b: Self)
        ensures
            b.node() == self.node(),
            b.declared() == self.declared().push(child@),
            b.action() == self.action(),
    {
        let mut children = self.children;
        children.push(child);
        let b = CommandBuilder { children, node: self.node, action: self.action };
        assert(b.declared() =~= self.declared().push(child@));
        b
    }

    /// Finishes the node: its children are the declared ones, literals
    /// first, each group in the order of declaration.
    pub fn build(self) -> (c: Command<V, A>)
        ensures
            c@.node == self.node(),
            c@.children == literals_first(self.declared()),
            c@.runnable == (self.action() is Some),
            c.action_at(Seq::empty()) == self.action(),
            well_ordered(c@),
    {
        let children = order_children(self.children);
        let ghost kids = trees_of(children@);
        proof {
            Command::<V, A>::lemma_parts(children, self.node, self.action);
        }
        let c = Command { children, node: self.node, action: self.action };
        proof {
            c.lemma_view();
            assert(c@.children =~= kids);
            c.lemma_action_here();
        }
        c
    }
}

/// Puts commands in matching order: literals first, then arguments, each
/// group as it came.
fn order_children<V: Validator, A>(children: Vec<Command<V, A>>) -> (ordered: Vec<Command<V, A>>)
    ensures
        trees_of(ordered@) == literals_first(trees_of(children@)),
        is_ordered(trees_of(ordered@)),
        forall|i: int| 0 <= i < ordered@.len() ==> well_ordered(#[trigger] ordered@[i]@),
{
    let ghost all = trees_of(children@);
    let mut literal_nodes: Vec<Command<V, A>> = Vec::new();
    let mut argument_nodes: Vec<Command<V, A>> = Vec::new();
    let mut rest = children;
    let mut taken: usize = 0;
    let total: usize = rest.len();
    proof {
        assert(all.skip(0) =~= all);
        assert(all.take(0) =~= Seq::<Tree>::empty());
        assert(trees_of(literal_nodes@) =~= literals(all.take(0)));
        assert(trees_of(argument_nodes@) =~= arguments(all.take(0)));
    }
    while rest.len() > 0
        invariant
            taken + rest@.len() == all.len(),
            all.len() == total,
            trees_of(rest@) == all.skip(taken as int),
            trees_of(literal_nodes@) == literals(all.take(taken as int)),
            trees_of(argument_nodes@) == arguments(all.take(taken as int)),
            forall|i: int|
                0 <= i < literal_nodes@.len() ==> well_ordered(#[trigger] literal_nodes@[i]@),
            forall|i: int|
                0 <= i < argument_nodes@.len() ==> well_ordered(#[trigger] argument_nodes@[i]@),
        decreases rest@.len(),
    {
        let ghost lits = trees_of(literal_nodes@);
        let ghost args = trees_of(argument_nodes@);
        let ghost before = trees_of(rest@);
        let ghost waiting = rest@;
        let node = rest.remove(0);
        node.ordering();
        proof {
            assert(node@ == before[0]);
            assert(node@ == all[taken as int]);
            assert forall|k: int| 0 <= k < rest@.len() implies trees_of(rest@)[k] == all.skip(
                taken + 1,
            )[k] by {
                assert(rest@[k] == waiting[k + 1]);
                assert(before[k + 1] == all.skip(taken as int)[k + 1]);
            }
            assert(trees_of(rest@) =~= all.skip(taken + 1));
            assert(all.take(taken + 1).drop_last() =~= all.take(taken as int));
            assert(all.take(taken + 1).last() == node@);
        }
        if node.is_literal() {
            literal_nodes.push(node);
            assert(trees_of(literal_nodes@) =~= lits.push(node@));
        } else {
            argument_nodes.push(node);
            assert(trees_of(argument_nodes@) =~= args.push(node@));
        }
        taken += 1;
    }
    proof {
        assert(all.take(taken as int) =~= all);
    }
    let ghost lits = trees_of(literal_nodes@);
    let ghost args = trees_of(argument_nodes@);
    literal_nodes.append(&mut argument_nodes);
    proof {
        assert(trees_of(literal_nodes@) =~= lits + args);
        lemma_literals_first_ordered(all);
    }
    literal_nodes
}

/// Every node among the literals is a literal, and none among the arguments.
pub proof fn lemma_partition_kinds(trees: Seq<Tree>)
    ensures
        forall|i: int| 0 <= i < literals(trees).len() ==> (#[trigger] literals(trees)[i]).node is Literal,
        forall|i: int|
            0 <= i < arguments(trees).len() ==> !((#[trigger] arguments(trees)[i]).node is Literal),
    decreases trees.len(),
{
    if trees.len() > 0 {
        lemma_partition_kinds(trees.drop_last());
    }
}

/// Literals-first order has no argument before a literal.
pub proof fn lemma_literals_first_ordered(trees: Seq<Tree>)
    ensures
        is_ordered(literals_first(trees)),
{
    let lits = literals(trees);
    let args = arguments(trees);
    let out = literals_first(trees);
    lemma_partition_kinds(trees);
    assert forall|i: int, j: int|
        0 <= i < j < out.len() && (#[trigger] out[j]).node is Literal implies (#[trigger] out[i]).node is Literal by {
        if j >= lits.len() {
            assert(out[j] == args[j - lits.len()]);
        }
        assert(out[i] == lits[i]);
    }
}


/// A dispatcher under construction.
pub struct DispatcherBuilder<C, V: Validator, A, F> {
    root: CommandBuilder<V, A>,
    prefix: String,
    context_factory: Option<F>,
    state: core::marker::PhantomData<C>,
}

impl<C, V: Validator, A: Action<C>, F: ContextFactory<C>> DispatcherBuilder<C, V, A, F> {
    /// The prefix given so far.
    pub closed spec fn prefix_text(&self) -> Seq<char> {
        self.prefix@
    }

    /// The children of the root declared so far, in order of declaration.
    pub closed spec fn declared(&self) -> Seq<Tree> {
        self.root.declared()
    }

    /// The context factory given so far.
    pub closed spec fn factory(&self) -> Option<F> {
        self.context_factory
    }

    /// A builder with an empty prefix, no children and no factory.
    pub fn new() -> (b: Self)
        ensures
            b.prefix_text() == Seq::<char>::empty(),
            b.declared() == Seq::<Tree>::empty(),
            b.factory() is None,
    {
        DispatcherBuilder {
            root: CommandBuilder::literal(""),
            prefix: String::new(),
            context_factory: None,
            state: core::marker::PhantomData,
        }
    }

    /// Sets the prefix that command lines must start with.
    pub fn prefix(self, prefix: &str) -> (b: Self)
        ensures
            b.prefix_text() == prefix@,
            b.declared() == self.declared(),
            b.factory() == self.factory(),
    {
        DispatcherBuilder {
            root: self.root,
            prefix: prefix.to_owned(),
            context_factory: self.context_factory,
            state: core::marker::PhantomData,
        }
    }

    /// Sets the factory of per-invocation state.
    pub fn context(self, factory: F) -> (b: Self)
        ensures
            b.prefix_text() == self.prefix_text(),
            b.declared() == self.declared(),
            b.factory() == Some(factory),
    {
        DispatcherBuilder {
            root: self.root,
            prefix: self.prefix,
            context_factory: Some(factory),
            state: core::marker::PhantomData,
        }
    }

    /// Declares one more child of the root.
    pub fn child(self, child: Command<V, A>) -> (b: Self)
        ensures
            b.prefix_text() == self.prefix_text(),
            b.declared() == self.declared().push(child@),
            b.factory() == self.factory(),
    {
        DispatcherBuilder {
            root: self.root.child(child),
            prefix: self.prefix,
            context_factory: self.context_factory,
            state: core::marker::PhantomData,
        }
    }

    /// Finishes the dispatcher. Fails with [`Error::IncompleteBuilder`]
    /// exactly when no context factory was given.
    pub fn build(self) -> (r: Result<Dispatcher<C, V, A, F>, Error>)
        ensures
            match r {
                Ok(d) => {
                    &&& self.factory() == Some(d.factory())
                    &&& d.prefix() == self.prefix_text()
                    &&& d.tree().node == NodeView::Literal(Seq::empty())
                    &&& d.tree().children == literals_first(self.declared())
                    &&& !d.tree().runnable
                    &&& well_ordered(d.tree())
                },
                Err(e) => self.factory() is None && e == Error::IncompleteBuilder,
            },
    {
        match self.context_factory {
            None => Err(Error::IncompleteBuilder),
            Some(factory) => {
                let root = CommandBuilder {
                    children: self.root.children,
                    node: NodeType::Literal(String::new()),
                    action: None,
                };
                Ok(Dispatcher::assemble(root.build(), self.prefix, factory))
            },
        }
    }
}

impl<C, V: Validator, A: Action<C>, F: ContextFactory<C>> Default for DispatcherBuilder<C, V, A, F> {
    fn default() -> (b: Self)
        ensures
            b.prefix_text() == Seq::<char>::empty(),
            b.declared() == Seq::<Tree>::empty(),
            b.factory() is None,
    {
        DispatcherBuilder::new()
    }
}

impl<V: Validator, A> Command<V, A> {
    /// Starts a keyword node.
    pub fn literal(name: &str) -> (b: CommandBuilder<V, A>)
        ensures
            b.node() == NodeView::Literal(name@),
            b.declared() == Seq::<Tree>::empty(),
            b.action() is None,
    {
        CommandBuilder::literal(name)
    }

    /// Starts an argument node named `name` whose values `parser` accepts.
    pub fn argument(name: &str, parser: V, required: bool) -> (b: CommandBuilder<V, A>)
        ensures
            b.node() matches NodeView::Argument(n, must, accepts) && n == name@ && must == required
                && forall|
                raw: Seq<char>,
            | #[trigger] accepts(raw) == parser.accepts(raw),
            b.declared() == Seq::<Tree>::empty(),
            b.action() is None,
    {
        CommandBuilder::argument(parser, name, required)
    }
}

} // verus!
