//! Laws of the matcher, stated over the tree model and proved.

use crate::bindings::{bound, Pair};
use crate::command::{
    is_ordered, node_at, search, search_children, step, within, NodeView, Outcome, Tree,
};
use crate::dispatcher::{
    blank_run, invocations, named_trail, parse, positionals, route, split, strip,
};
use crate::token::{
    in_word, is_blank, is_boundary, is_key_separator, separator_index, tokens_from, tokens_of,
    word_end, word_token, TokenView,
};
use vstd::prelude::*;

verus! {

/// Walking down `path` from `tree` with the cursor at `offset`: the trail at
/// the end, if every node on the path can be entered in turn, the cursor
/// has tokens left before each of them, and none left after the last.
pub open spec fn follow(
    tree: Tree,
    path: Seq<int>,
    offset: int,
    tokens: Seq<Seq<char>>,
    named: Map<Seq<char>, Seq<char>>,
    trail: Seq<Pair>,
) -> Option<Seq<Pair>>
    decreases path.len(),
{
    if path.len() == 0 {
        if offset >= tokens.len() {
            Some(trail)
        } else {
            None
        }
    } else if offset >= tokens.len() || path[0] < 0 || path[0] >= tree.children.len() {
        None
    } else {
        match step(tree.children[path[0]].node, offset, tokens, named, trail) {
            None => None,
            Some((next, extended)) => follow(
                tree.children[path[0]],
                path.drop_first(),
                next,
                tokens,
                named,
                extended,
            ),
        }
    }
}

/// Walking into child `i` and on along `rest` is walking along `i` followed
/// by `rest`.
proof fn lemma_follow_child(
    tree: Tree,
    i: int,
    rest: Seq<int>,
    offset: int,
    tokens: Seq<Seq<char>>,
    named: Map<Seq<char>, Seq<char>>,
    trail: Seq<Pair>,
)
    requires
        0 <= i < tree.children.len(),
        offset < tokens.len(),
    ensures
        node_at(tree, seq![i] + rest) == node_at(tree.children[i], rest),
        follow(tree, seq![i] + rest, offset, tokens, named, trail) == match step(
            tree.children[i].node,
            offset,
            tokens,
            named,
            trail,
        ) {
            None => None,
            Some((next, extended)) => follow(tree.children[i], rest, next, tokens, named, extended),
        },
{
    let path = seq![i] + rest;
    assert(path[0] == i);
    assert(path.drop_first() =~= rest);
}

/// The bindings made by walking down `path`: for each argument on the
/// path, in order, its name with the raw value that it matched.
pub open spec fn bindings_along(
    tree: Tree,
    path: Seq<int>,
    offset: int,
    tokens: Seq<Seq<char>>,
    named: Map<Seq<char>, Seq<char>>,
) -> Seq<Pair>
    decreases path.len(),
{
    if path.len() == 0 || path[0] < 0 || path[0] >= tree.children.len() {
        Seq::empty()
    } else {
        match step(tree.children[path[0]].node, offset, tokens, named, Seq::empty()) {
            None => Seq::empty(),
            Some((next, made)) => made + bindings_along(
                tree.children[path[0]],
                path.drop_first(),
                next,
                tokens,
                named,
            ),
        }
    }
}

/// A walk leaves the trail it started with, extended by the bindings made
/// along the path.
pub proof fn lemma_walk_binds(
    tree: Tree,
    path: Seq<int>,
    offset: int,
    tokens: Seq<Seq<char>>,
    named: Map<Seq<char>, Seq<char>>,
    trail: Seq<Pair>,
)
    requires
        follow(tree, path, offset, tokens, named, trail) is Some,
    ensures
        follow(tree, path, offset, tokens, named, trail) == Some(
            trail + bindings_along(tree, path, offset, tokens, named),
        ),
    decreases path.len(),
{
    if path.len() == 0 {
        assert(trail + Seq::<Pair>::empty() =~= trail);
    } else {
        let child = tree.children[path[0]];
        let (next, extended) = step(child.node, offset, tokens, named, trail).unwrap();
        let (fresh, made) = step(child.node, offset, tokens, named, Seq::empty()).unwrap();
        assert(fresh == next);
        assert(extended =~= trail + made);
        lemma_walk_binds(child, path.drop_first(), next, tokens, named, extended);
        let rest = bindings_along(child, path.drop_first(), next, tokens, named);
        assert((trail + made) + rest =~= trail + (made + rest));
    }
}

/// A path that can be walked lies within the tree.
pub proof fn lemma_walk_within(
    tree: Tree,
    path: Seq<int>,
    offset: int,
    tokens: Seq<Seq<char>>,
    named: Map<Seq<char>, Seq<char>>,
    trail: Seq<Pair>,
)
    requires
        follow(tree, path, offset, tokens, named, trail) is Some,
    ensures
        within(tree, path),
    decreases path.len(),
{
    if path.len() > 0 {
        let (next, extended) = step(
            tree.children[path[0]].node,
            offset,
            tokens,
            named,
            trail,
        ).unwrap();
        lemma_walk_within(
            tree.children[path[0]],
            path.drop_first(),
            next,
            tokens,
            named,
            extended,
        );
    }
}

/// What the search finds is a walk: an outcome `Run` names a path that can
/// be walked to a node with an action, `DeadEnd` means that some path can be
/// walked to a node without one, and `NoMatch` that no path can be walked.
pub proof fn lemma_search_walks(
    tree: Tree,
    offset: int,
    tokens: Seq<Seq<char>>,
    named: Map<Seq<char>, Seq<char>>,
    trail: Seq<Pair>,
)
    ensures
        match search(tree, offset, tokens, named, trail) {
            Outcome::Run(path, last) => follow(tree, path, offset, tokens, named, trail) == Some(
                last,
            ) && node_at(tree, path).runnable,
            Outcome::DeadEnd => exists|path: Seq<int>|
                (#[trigger] follow(tree, path, offset, tokens, named, trail)) is Some && !node_at(
                    tree,
                    path,
                ).runnable,
            Outcome::NoMatch => forall|path: Seq<int>|
                (#[trigger] follow(tree, path, offset, tokens, named, trail)) is None,
        },
    decreases tree, 1int, 0int,
{
    if offset >= tokens.len() {
        let here = Seq::<int>::empty();
        if !tree.runnable {
            assert(follow(tree, here, offset, tokens, named, trail) is Some);
            assert(!node_at(tree, here).runnable);
        }
    } else {
        lemma_children_walk(tree, 0, offset, tokens, named, trail);
    }
}

/// The same for the children of `tree` from index `i` on, over the paths
/// that start at one of them.
proof fn lemma_children_walk(
    tree: Tree,
    i: int,
    offset: int,
    tokens: Seq<Seq<char>>,
    named: Map<Seq<char>, Seq<char>>,
    trail: Seq<Pair>,
)
    requires
        0 <= i,
        offset < tokens.len(),
    ensures
        match search_children(tree, i, offset, tokens, named, trail) {
            Outcome::Run(path, last) => follow(tree, path, offset, tokens, named, trail) == Some(
                last,
            ) && node_at(tree, path).runnable,
            Outcome::DeadEnd => exists|path: Seq<int>|
                (#[trigger] follow(tree, path, offset, tokens, named, trail)) is Some && !node_at(
                    tree,
                    path,
                ).runnable,
            Outcome::NoMatch => forall|path: Seq<int>|
                path.len() == 0 || path[0] >= i ==> (#[trigger] follow(
                    tree,
                    path,
                    offset,
                    tokens,
                    named,
                    trail,
                )) is None,
        },
    decreases tree, 0int, tree.children.len() - i,
{
    if i < tree.children.len() {
        let child = tree.children[i];
        match step(child.node, offset, tokens, named, trail) {
            None => {
                lemma_children_walk(tree, i + 1, offset, tokens, named, trail);
            },
            Some((next, extended)) => {
                lemma_search_walks(child, next, tokens, named, extended);
                match search(child, next, tokens, named, extended) {
                    Outcome::NoMatch => {
                        lemma_children_walk(tree, i + 1, offset, tokens, named, trail);
                        if search_children(tree, i, offset, tokens, named, trail) is NoMatch {
                            assert forall|path: Seq<int>|
                                path.len() == 0 || path[0] >= i implies (#[trigger] follow(
                                tree,
                                path,
                                offset,
                                tokens,
                                named,
                                trail,
                            )) is None by {
                                if path.len() > 0 && path[0] == i {
                                    assert(follow(
                                        child,
                                        path.drop_first(),
                                        next,
                                        tokens,
                                        named,
                                        extended,
                                    ) is None);
                                }
                            }
                        }
                    },
                    Outcome::DeadEnd => {
                        let rest = choose|rest: Seq<int>|
                            (#[trigger] follow(child, rest, next, tokens, named, extended))
                                is Some && !node_at(child, rest).runnable;
                        lemma_follow_child(tree, i, rest, offset, tokens, named, trail);
                        assert(follow(tree, seq![i] + rest, offset, tokens, named, trail) is Some);
                    },
                    Outcome::Run(rest, last) => {
                        lemma_follow_child(tree, i, rest, offset, tokens, named, trail);
                    },
                }
            },
        }
    }
}

/// When exactly one path through the tree can be walked so that the tokens
/// are consumed, and the node it ends at has an action, the search finds
/// that node, with the trail that the walk leaves: the starting trail
/// extended, in order, by the name and matched raw value of each argument
/// on the path.
pub proof fn lemma_unique_path_is_found(
    tree: Tree,
    path: Seq<int>,
    tokens: Seq<Seq<char>>,
    named: Map<Seq<char>, Seq<char>>,
    trail: Seq<Pair>,
)
    requires
        follow(tree, path, 0, tokens, named, trail) is Some,
        node_at(tree, path).runnable,
        forall|other: Seq<int>|
            (#[trigger] follow(tree, other, 0, tokens, named, trail)) is Some ==> other == path,
    ensures
        search(tree, 0, tokens, named, trail) == Outcome::Run(
            path,
            trail + bindings_along(tree, path, 0, tokens, named),
        ),
{
    lemma_search_walks(tree, 0, tokens, named, trail);
    lemma_walk_binds(tree, path, 0, tokens, named, trail);
}

/// Entering an argument binds its name to the value that was matched: after
/// the step the bindings map the name to that value.
pub proof fn lemma_step_binds(
    name: Seq<char>,
    required: bool,
    accepts: spec_fn(Seq<char>) -> bool,
    offset: int,
    tokens: Seq<Seq<char>>,
    named: Map<Seq<char>, Seq<char>>,
    trail: Seq<Pair>,
)
    requires
        step(NodeView::Argument(name, required, accepts), offset, tokens, named, trail) is Some,
    ensures
        ({
            let after = step(NodeView::Argument(name, required, accepts), offset, tokens, named, trail).unwrap().1;
            let value = if named.contains_key(name) {
                named[name]
            } else {
                tokens[offset]
            };
            &&& accepts(value)
            &&& after == trail.push((name, value))
            &&& bound(after).contains_key(name)
            &&& bound(after)[name] == value
        }),
{
    let after = step(NodeView::Argument(name, required, accepts), offset, tokens, named, trail).unwrap().1;
    assert(after.drop_last() =~= trail);
}

/// A named override settles its argument without touching the cursor: the
/// positional token at the cursor is left for the nodes below.
pub proof fn lemma_named_override_keeps_cursor(
    name: Seq<char>,
    required: bool,
    accepts: spec_fn(Seq<char>) -> bool,
    offset: int,
    tokens: Seq<Seq<char>>,
    named: Map<Seq<char>, Seq<char>>,
    trail: Seq<Pair>,
)
    requires
        named.contains_key(name),
    ensures
        step(NodeView::Argument(name, required, accepts), offset, tokens, named, trail) == if accepts(
            named[name],
        ) {
            Some((offset, trail.push((name, named[name]))))
        } else {
            None::<(int, Seq<Pair>)>
        },
{
}

/// Where the children are in matching order and one of them is the literal
/// that the only token spells, the search ends at a literal child of that
/// text, never at an argument child that would accept the same token.
pub proof fn lemma_literal_outranks_argument(
    tree: Tree,
    k: int,
    tokens: Seq<Seq<char>>,
    named: Map<Seq<char>, Seq<char>>,
    trail: Seq<Pair>,
)
    requires
        is_ordered(tree.children),
        tokens.len() == 1,
        0 <= k < tree.children.len(),
        tree.children[k].node == NodeView::Literal(tokens[0]),
    ensures
        match search(tree, 0, tokens, named, trail) {
            Outcome::Run(path, last) => {
                &&& path.len() == 1
                &&& 0 <= path[0] <= k
                &&& tree.children[path[0]].node == NodeView::Literal(tokens[0])
                &&& last == trail
            },
            Outcome::DeadEnd => true,
            Outcome::NoMatch => false,
        },
{
    lemma_literals_scanned(tree, 0, k, tokens, named, trail);
}

proof fn lemma_literals_scanned(
    tree: Tree,
    i: int,
    k: int,
    tokens: Seq<Seq<char>>,
    named: Map<Seq<char>, Seq<char>>,
    trail: Seq<Pair>,
)
    requires
        is_ordered(tree.children),
        tokens.len() == 1,
        0 <= i <= k < tree.children.len(),
        tree.children[k].node == NodeView::Literal(tokens[0]),
    ensures
        match search_children(tree, i, 0, tokens, named, trail) {
            Outcome::Run(path, last) => {
                &&& path.len() == 1
                &&& i <= path[0] <= k
                &&& tree.children[path[0]].node == NodeView::Literal(tokens[0])
                &&& last == trail
            },
            Outcome::DeadEnd => true,
            Outcome::NoMatch => false,
        },
    decreases k - i,
{
    let child = tree.children[i];
    assert(tree.children[k].node is Literal);
    assert(child.node is Literal);
    match step(child.node, 0, tokens, named, trail) {
        None => {
            assert(i < k);
            lemma_literals_scanned(tree, i + 1, k, tokens, named, trail);
        },
        Some((next, extended)) => {
            assert(next == 1 && extended == trail);
            assert(child.node == NodeView::Literal(tokens[0]));
            lemma_action_on_consumed_input(child, next, tokens, named, extended);
            let path = seq![i] + Seq::<int>::empty();
            assert(path.len() == 1 && path[0] == i);
            assert(search_children(tree, i, 0, tokens, named, trail) == if child.runnable {
                Outcome::Run(path, trail)
            } else {
                Outcome::DeadEnd
            });
        },
    }
}

/// With no tokens left, a node with an action is where the search ends,
/// whatever its children: the action runs on the trail as it stands.
pub proof fn lemma_action_on_consumed_input(
    tree: Tree,
    offset: int,
    tokens: Seq<Seq<char>>,
    named: Map<Seq<char>, Seq<char>>,
    trail: Seq<Pair>,
)
    requires
        offset >= tokens.len(),
    ensures
        search(tree, offset, tokens, named, trail) == if tree.runnable {
            Outcome::Run(Seq::empty(), trail)
        } else {
            Outcome::DeadEnd
        },
{
}

/// A token stream that holds nothing but boundaries holds no invocation.
pub proof fn lemma_boundaries_hold_no_invocation(tokens: Seq<TokenView>, i: int)
    requires
        0 <= i,
        forall|j: int| 0 <= j < tokens.len() ==> (#[trigger] tokens[j]) is Boundary,
    ensures
        split(tokens, i, Seq::empty()) == Seq::<Seq<TokenView>>::empty(),
        i == 0 ==> invocations(tokens) == Seq::<Seq<TokenView>>::empty(),
    decreases tokens.len() - i,
{
    if i < tokens.len() {
        lemma_boundaries_hold_no_invocation(tokens, i + 1);
    }
}

/// A word that can stand for a keyword or a positional value: not empty,
/// and free of blanks, boundaries and key separators.
pub open spec fn is_plain_word(w: Seq<char>) -> bool {
    w.len() > 0 && forall|i: int|
        0 <= i < w.len() ==> in_word(#[trigger] w[i]) && !is_key_separator(w[i])
}

/// A run of word characters that ends at `e` is the word that starts at `i`.
pub proof fn lemma_word_scan(s: Seq<char>, i: int, e: int)
    requires
        0 <= i <= e <= s.len(),
        forall|j: int| i <= j < e ==> in_word(#[trigger] s[j]),
        e == s.len() || !in_word(s[e]),
    ensures
        word_end(s, i) == e,
    decreases e - i,
{
    if i < e {
        lemma_word_scan(s, i + 1, e);
    }
}

proof fn lemma_no_separator(w: Seq<char>, i: int)
    requires
        0 <= i <= w.len(),
        forall|j: int| 0 <= j < w.len() ==> !is_key_separator(#[trigger] w[j]),
    ensures
        separator_index(w, i) == w.len(),
    decreases w.len() - i,
{
    if i < w.len() {
        lemma_no_separator(w, i + 1);
    }
}

/// Two plain words with a blank between them are two positional tokens.
pub proof fn lemma_two_words(a: Seq<char>, b: Seq<char>)
    requires
        is_plain_word(a),
        is_plain_word(b),
    ensures
        tokens_of(a + seq![' '] + b) == Some(
            seq![TokenView::Positional(a), TokenView::Positional(b)],
        ),
{
    let s = a + seq![' '] + b;
    let m = a.len() as int;
    let n = s.len() as int;
    assert forall|j: int| 0 <= j < m implies in_word(#[trigger] s[j]) by {
        assert(s[j] == a[j]);
    }
    assert(s[m] == ' ');
    assert forall|j: int| m + 1 <= j < n implies in_word(#[trigger] s[j]) by {
        assert(s[j] == b[j - m - 1]);
    }
    lemma_word_scan(s, 0, m);
    lemma_word_scan(s, m + 1, n);
    assert(s.subrange(0, m) =~= a);
    assert(s.subrange(m + 1, n) =~= b);
    lemma_no_separator(a, 0);
    lemma_no_separator(b, 0);
    assert(word_token(a) == Some(TokenView::Positional(a)));
    assert(word_token(b) == Some(TokenView::Positional(b)));
    assert(tokens_from(s, n) == Some(Seq::<TokenView>::empty()));
    let last = seq![TokenView::Positional(b)];
    assert(last + Seq::<TokenView>::empty() =~= last);
    assert(in_word(s[m + 1]));
    assert(tokens_from(s, m + 1) == Some(last));
    assert(is_blank(s[m]));
    assert(tokens_from(s, m) == Some(last));
    assert(in_word(s[0]));
    assert(seq![TokenView::Positional(a)] + last =~= seq![
        TokenView::Positional(a),
        TokenView::Positional(b),
    ]);
}

/// A command line made of the prefix, a keyword, a blank and a value is one
/// invocation of two positional tokens, and a tree whose first child is that
/// keyword, followed by an argument that accepts the value and bears an
/// action, runs that action with the argument's name bound to the value.
pub proof fn lemma_round_trip(
    prefix: Seq<char>,
    keyword: Seq<char>,
    value: Seq<char>,
    tree: Tree,
    name: Seq<char>,
    required: bool,
    accepts: spec_fn(Seq<char>) -> bool,
)
    requires
        prefix.len() > 0 ==> !is_blank(prefix[0]),
        is_plain_word(keyword),
        is_plain_word(value),
        tree.children.len() > 0,
        tree.children[0].node == NodeView::Literal(keyword),
        tree.children[0].children.len() > 0,
        tree.children[0].children[0].node == NodeView::Argument(name, required, accepts),
        tree.children[0].children[0].runnable,
        accepts(value),
    ensures
        parse(prefix, prefix + (keyword + seq![' '] + value)) == Some(
            seq![seq![TokenView::Positional(keyword), TokenView::Positional(value)]],
        ),
        route(tree, seq![TokenView::Positional(keyword), TokenView::Positional(value)])
            == Outcome::Run(seq![0, 0], seq![(name, value)]),
        bound(seq![(name, value)]) == Map::<Seq<char>, Seq<char>>::empty().insert(name, value),
{
    let body = keyword + seq![' '] + value;
    let raw = prefix + body;
    let first = TokenView::Positional(keyword);
    let second = TokenView::Positional(value);
    let tokens = seq![first, second];
    // The line starts with the prefix, not with a blank.
    assert(raw.len() > 0);
    assert(!is_blank(raw[0])) by {
        if prefix.len() > 0 {
            assert(raw[0] == prefix[0]);
        } else {
            assert(raw[0] == keyword[0]);
            assert(in_word(keyword[0]));
        }
    }
    assert(blank_run(raw, 0) == 0);
    assert(raw.skip(0) =~= raw);
    assert(prefix.is_prefix_of(raw)) by {
        assert(raw.subrange(0, prefix.len() as int) =~= prefix);
    }
    assert(raw.skip(prefix.len() as int) =~= body);
    assert(strip(prefix, raw) == Some(body));
    lemma_two_words(keyword, value);
    // Two tokens without a boundary are one invocation.
    let none = Seq::<TokenView>::empty();
    assert(none.push(first).push(second) =~= tokens);
    assert(split(tokens, 2, tokens) == seq![tokens]);
    assert(split(tokens, 1, none.push(first)) == seq![tokens]);
    assert(split(tokens, 0, none) == seq![tokens]);
    // The positional texts are the two words; nothing is named.
    assert(tokens.drop_last() =~= seq![first]);
    assert(seq![first].drop_last() =~= none);
    assert(positionals(none) =~= Seq::<Seq<char>>::empty());
    assert(positionals(seq![first]) =~= seq![keyword]);
    assert(positionals(tokens) =~= seq![keyword, value]);
    assert(named_trail(none) =~= Seq::<Pair>::empty());
    assert(named_trail(seq![first]) =~= Seq::<Pair>::empty());
    assert(named_trail(tokens) =~= Seq::<Pair>::empty());
    let texts = seq![keyword, value];
    let named = bound(Seq::<Pair>::empty());
    let start = Seq::<Pair>::empty();
    let literal = tree.children[0];
    let argument = literal.children[0];
    let last = start.push((name, value));
    assert(last =~= seq![(name, value)]);
    assert(step(literal.node, 0, texts, named, start) == Some((1int, start)));
    assert(step(argument.node, 1, texts, named, start) == Some((2int, last)));
    lemma_action_on_consumed_input(argument, 2, texts, named, last);
    assert(search_children(literal, 0, 1, texts, named, start) == Outcome::Run(
        seq![0int] + Seq::<int>::empty(),
        last,
    ));
    assert(seq![0int] + Seq::<int>::empty() =~= seq![0int]);
    assert(search(literal, 1, texts, named, start) == Outcome::Run(seq![0int], last));
    assert(seq![0int] + seq![0int] =~= seq![0int, 0int]);
    assert(search_children(tree, 0, 0, texts, named, start) == Outcome::Run(
        seq![0int, 0int],
        last,
    ));
    assert(last.drop_last() =~= start);
}

/// A line of blanks and boundaries tokenizes to boundaries only.
pub proof fn lemma_blank_line_tokens(s: Seq<char>, i: int)
    requires
        0 <= i,
        forall|j: int| 0 <= j < s.len() ==> is_blank(#[trigger] s[j]) || is_boundary(s[j]),
    ensures
        tokens_from(s, i) matches Some(tokens) && forall|j: int|
            0 <= j < tokens.len() ==> (#[trigger] tokens[j]) is Boundary,
    decreases s.len() - i,
{
    if i < s.len() {
        lemma_blank_line_tokens(s, i + 1);
    }
}

/// A command line that holds, after the prefix, nothing but blanks and
/// boundaries holds no invocation.
pub proof fn lemma_empty_line_holds_no_invocation(prefix: Seq<char>, raw: Seq<char>)
    requires
        strip(prefix, raw) matches Some(body) && forall|j: int|
            0 <= j < body.len() ==> is_blank(#[trigger] body[j]) || is_boundary(body[j]),
    ensures
        parse(prefix, raw) == Some(Seq::<Seq<TokenView>>::empty()),
{
    let body = strip(prefix, raw).unwrap();
    lemma_blank_line_tokens(body, 0);
    lemma_boundaries_hold_no_invocation(tokens_of(body).unwrap(), 0);
}

} // verus!
