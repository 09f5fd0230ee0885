//! Laws of the parser.

use crate::func::{Function, Scope};
use crate::parsing::{
    after_comment, comment_reads, is_result, is_tried, lemma_comment_reads, no_header_token,
    parse_items, parse_reads, parse_step, run_length, step_reads, with_space, Outcome, ParseError,
    ParseResult, ParseStep, Parsed, Parser, ParserState,
};
use crate::stream::{
    after_reads, body_items, depth_after_reads, head, lemma_after_reads, runs_out, Items,
};
use crate::stream_laws::{
    balance, closes_at, law_body_goes_on, law_body_stops, never_closes,
};
use crate::syntax::{bare_header, HeaderSpec, NodeSpec, SyntaxTree, TokenSpec};
use crate::text::is_identifier;
use crate::token_laws::{is_header_token, law_headers_are_open};
use crate::tokens::{token_items, tokenize};
use vstd::prelude::*;

verus! {

/// The number of steps that the parser can take at a token without reading it.
pub open spec fn rank(state: ParserState) -> int {
    if state is FirstNewline || state is WroteNewline {
        1
    } else {
        0
    }
}

/// A step that goes on reads on, or comes closer to doing so.
proof fn lemma_parse_step<P: Function>(
    scope: Scope<P>,
    state: ParserState,
    nodes: Seq<NodeSpec<P::Output>>,
    items: Items,
    outcomes: Seq<Outcome<P::Output>>,
)
    requires
        head(items) is Some,
    ensures
        match parse_step(scope, state, nodes, items, outcomes) {
            ParseStep::Next { state: s, nodes: n, items: i, outcomes: o } => {
                &&& i.len() < items.len() || (i == items && rank(s) < rank(state))
                &&& exists|reads: nat| i == #[trigger] after_reads(items, reads)
            },
            ParseStep::Done(_) => true,
        },
{
    assert(after_reads(items, 0) =~= items);
    if items[0]->0 is Hashtag {
        lemma_comment_reads(items);
        assert(after_comment(items) == after_reads(items, comment_reads(items)));
    } else if state is Function && items[0]->0 is Word {
        lemma_after_reads(items, 2, 1);
        if outcomes.len() > 0 {
            lemma_after_reads(items, 3, outcomes[0].reads);
        }
    }
}

/// Whether the token is plain text: it neither belongs to a function nor starts
/// a comment.
pub open spec fn is_text(item: Option<TokenSpec>) -> bool {
    match item {
        Some(TokenSpec::LeftBracket) => false,
        Some(TokenSpec::RightBracket) => false,
        Some(TokenSpec::Colon) => false,
        Some(TokenSpec::Equals) => false,
        Some(TokenSpec::Hashtag) => false,
        None => false,
        _ => true,
    }
}

/// The node that a token of plain text is written as, if it is more than
/// whitespace.
pub open spec fn text_node<F>(item: Option<TokenSpec>) -> Seq<NodeSpec<F>> {
    match item {
        Some(TokenSpec::Word(word)) => seq![NodeSpec::Word(word)],
        Some(TokenSpec::DoubleUnderscore) => seq![NodeSpec::ToggleItalics],
        Some(TokenSpec::DoubleStar) => seq![NodeSpec::ToggleBold],
        Some(TokenSpec::Dollar) => seq![NodeSpec::ToggleMath],
        _ => Seq::empty(),
    }
}

/// The nodes that tokens of plain text are written as, but for whitespace.
pub open spec fn text_nodes<F>(items: Items) -> Seq<NodeSpec<F>>
    decreases items.len(),
{
    if items.len() == 0 {
        Seq::empty()
    } else {
        text_node(items[0]) + text_nodes(items.drop_first())
    }
}

/// The nodes that are more than whitespace.
pub open spec fn solid<F>(nodes: Seq<NodeSpec<F>>) -> Seq<NodeSpec<F>>
    decreases nodes.len(),
{
    if nodes.len() == 0 {
        Seq::empty()
    } else if nodes.last() is Space || nodes.last() is Newline {
        solid(nodes.drop_last())
    } else {
        solid(nodes.drop_last()).push(nodes.last())
    }
}

proof fn lemma_solid_push<F>(nodes: Seq<NodeSpec<F>>, node: NodeSpec<F>)
    ensures
        solid(nodes.push(node)) == if node is Space || node is Newline {
            solid(nodes)
        } else {
            solid(nodes).push(node)
        },
{
    assert(nodes.push(node).drop_last() =~= nodes);
}

/// Plain text always parses, and nothing of it is lost: the words and toggles of
/// the tree are those of the tokens, in their order.
pub proof fn law_text_parses<P: Function>(
    scope: Scope<P>,
    state: ParserState,
    nodes: Seq<NodeSpec<P::Output>>,
    items: Items,
    outcomes: Seq<Outcome<P::Output>>,
)
    requires
        !(state is Function),
        forall|i: int| 0 <= i < items.len() ==> is_text(#[trigger] items[i]),
    ensures
        parse_items(scope, state, nodes, items, outcomes) is Tree,
        solid(parse_items(scope, state, nodes, items, outcomes)->Tree_0) == solid(nodes)
            + text_nodes(items),
    decreases items.len(), rank(state),
{
    if items.len() == 0 {
        assert(solid(nodes) + text_nodes::<P::Output>(items) =~= solid(nodes));
    } else {
        assert(is_text(items[0]));
        lemma_parse_step(scope, state, nodes, items, outcomes);
        match parse_step(scope, state, nodes, items, outcomes) {
            ParseStep::Next { state: s, nodes: n, items: i, outcomes: o } => {
                let reads = choose|reads: nat| i == #[trigger] after_reads(items, reads);
                assert forall|k: int| 0 <= k < i.len() implies is_text(#[trigger] i[k]) by {
                    assert(i[k] == items[k + reads]);
                }
                law_text_parses(scope, s, n, i, o);
                lemma_solid_push(nodes, NodeSpec::Space);
                lemma_solid_push(nodes, NodeSpec::Newline);
                if text_node::<P::Output>(items[0]).len() > 0 {
                    lemma_solid_push(nodes, text_node::<P::Output>(items[0])[0]);
                }
                if i == items {
                } else {
                    assert(i =~= items.drop_first());
                    assert(solid(n) =~= solid(nodes) + text_node::<P::Output>(items[0]));
                    assert(solid(nodes) + text_node::<P::Output>(items[0]) + text_nodes::<
                        P::Output,
                    >(i) =~= solid(nodes) + (text_node::<P::Output>(items[0]) + text_nodes::<
                        P::Output,
                    >(i)));
                }
            },
            ParseStep::Done(_) => {},
        }
    }
}

/// A right bracket that closes nothing is an error, whatever stands behind it.
pub proof fn law_unexpected_bracket<P: Function>(
    scope: Scope<P>,
    state: ParserState,
    nodes: Seq<NodeSpec<P::Output>>,
    items: Items,
    outcomes: Seq<Outcome<P::Output>>,
    at: int,
)
    requires
        !(state is Function),
        0 <= at < items.len(),
        forall|i: int| 0 <= i < at ==> is_text(#[trigger] items[i]),
        items[at] == Some(TokenSpec::RightBracket),
    ensures
        parse_items(scope, state, nodes, items, outcomes) == Parsed::<P::Output>::Error(
            "unexpected closing bracket"@,
        ),
    decreases items.len(), rank(state),
{
    if at > 0 {
        assert(is_text(items[0]));
    }
    lemma_parse_step(scope, state, nodes, items, outcomes);
    match parse_step(scope, state, nodes, items, outcomes) {
        ParseStep::Next { state: s, nodes: n, items: i, outcomes: o } => {
            if i == items {
                law_unexpected_bracket(scope, s, n, i, o, at);
            } else {
                assert(at > 0);
                assert(i =~= items.skip(1));
                law_unexpected_bracket(scope, s, n, i, o, at - 1);
            }
        },
        ParseStep::Done(_) => {},
    }
}

/// The comment that stands in front ends behind its tokens.
proof fn lemma_comment_length(items: Items, length: nat)
    requires
        length <= items.len(),
        forall|i: int|
            0 <= i < length ==> #[trigger] items[i] is Some && !(items[i]->0 is Newline),
        length < items.len() ==> items[length as int] is None || items[length as int]
            == Some(TokenSpec::Newline),
    ensures
        run_length(items, |token: TokenSpec| !(token is Newline)) == length,
    decreases length,
{
    if length > 0 {
        let rest = items.drop_first();
        assert(items[0] is Some);
        assert forall|i: int| 0 <= i < length - 1 implies #[trigger] rest[i] is Some && !(
        rest[i]->0 is Newline) by {
            assert(rest[i] == items[i + 1]);
        }
        lemma_comment_length(rest, (length - 1) as nat);
    }
}

/// Comments are skipped: in the text, behind newlines and in a function header
/// parsing goes on behind the newline that ends a comment as if neither were there.
pub proof fn law_comment_skipped<P: Function>(
    scope: Scope<P>,
    state: ParserState,
    nodes: Seq<NodeSpec<P::Output>>,
    comment: Seq<TokenSpec>,
    rest: Items,
    outcomes: Seq<Outcome<P::Output>>,
)
    requires
        forall|i: int| 0 <= i < comment.len() ==> !(#[trigger] comment[i] is Newline),
    ensures
        parse_items(
            scope,
            state,
            nodes,
            seq![Some(TokenSpec::Hashtag)] + token_items(comment) + seq![
                Some(TokenSpec::Newline),
            ] + rest,
            outcomes,
        ) == parse_items(scope, state, nodes, rest, outcomes),
{
    let items = seq![Some(TokenSpec::Hashtag)] + token_items(comment) + seq![
        Some(TokenSpec::Newline),
    ] + rest;
    let length = comment.len() + 1;
    assert forall|i: int| 0 <= i < length implies #[trigger] items[i] is Some && !(
    items[i]->0 is Newline) by {
        if i > 0 {
            assert(items[i] == Some(comment[i - 1]));
        }
    }
    lemma_comment_length(items, length);
    assert(after_comment(items) =~= rest);
}

/// A comment that no newline ends goes on to where the tokens end, in a function
/// body as in a text, and takes nothing of what stands behind.
pub proof fn law_last_comment<P: Function>(
    scope: Scope<P>,
    state: ParserState,
    nodes: Seq<NodeSpec<P::Output>>,
    comment: Seq<TokenSpec>,
    rest: Items,
    outcomes: Seq<Outcome<P::Output>>,
)
    requires
        forall|i: int| 0 <= i < comment.len() ==> !(#[trigger] comment[i] is Newline),
        head(rest) is None,
    ensures
        parse_items(
            scope,
            state,
            nodes,
            seq![Some(TokenSpec::Hashtag)] + token_items(comment) + rest,
            outcomes,
        ) == Parsed::Tree(nodes),
        parse_reads(
            scope,
            state,
            nodes,
            seq![Some(TokenSpec::Hashtag)] + token_items(comment) + rest,
            outcomes,
        ) == comment.len() + 2,
{
    let items = seq![Some(TokenSpec::Hashtag)] + token_items(comment) + rest;
    let length = comment.len() + 1;
    assert forall|i: int| 0 <= i < length implies #[trigger] items[i] is Some && !(
    items[i]->0 is Newline) by {
        if i > 0 {
            assert(items[i] == Some(comment[i - 1]));
        }
    }
    lemma_comment_length(items, length);
    assert(after_reads(items, length) =~= rest);
    reveal_with_fuel(parse_items, 2);
    reveal_with_fuel(parse_reads, 2);
}

/// Whether no two spaces stand side by side.
pub open spec fn space_nodes_apart<F>(nodes: Seq<NodeSpec<F>>) -> bool {
    forall|i: int, j: int|
        0 <= i < j < nodes.len() && j == i + 1 && #[trigger] nodes[i] is Space ==> !(
        #[trigger] nodes[j] is Space)
}

/// A tree has no two spaces side by side.
pub proof fn law_space_nodes_apart<P: Function>(
    scope: Scope<P>,
    state: ParserState,
    nodes: Seq<NodeSpec<P::Output>>,
    items: Items,
    outcomes: Seq<Outcome<P::Output>>,
)
    requires
        space_nodes_apart(nodes),
    ensures
        parse_items(scope, state, nodes, items, outcomes) is Tree ==> space_nodes_apart(
            parse_items(scope, state, nodes, items, outcomes)->Tree_0,
        ),
    decreases items.len(), rank(state),
{
    if head(items) is Some {
        lemma_parse_step(scope, state, nodes, items, outcomes);
        match parse_step(scope, state, nodes, items, outcomes) {
            ParseStep::Next { state: s, nodes: n, items: i, outcomes: o } => {
                law_space_nodes_apart(scope, s, n, i, o);
            },
            ParseStep::Done(_) => {},
        }
    }
}

/// Whether only spaces stand behind the last paragraph break, and there is one.
pub open spec fn is_broken<F>(nodes: Seq<NodeSpec<F>>) -> bool
    decreases nodes.len(),
{
    nodes.len() > 0 && (nodes.last() is Newline || (nodes.last() is Space && is_broken(
        nodes.drop_last(),
    )))
}

/// Whether something other than whitespace stands between any two paragraph
/// breaks.
pub open spec fn breaks_apart<F>(nodes: Seq<NodeSpec<F>>) -> bool
    decreases nodes.len(),
{
    nodes.len() == 0 || (breaks_apart(nodes.drop_last()) && !(nodes.last() is Newline && is_broken(
        nodes.drop_last(),
    )))
}

proof fn lemma_breaks_push<F>(nodes: Seq<NodeSpec<F>>, node: NodeSpec<F>)
    ensures
        is_broken(nodes.push(node)) == (node is Newline || (node is Space && is_broken(nodes))),
        breaks_apart(nodes.push(node)) == (breaks_apart(nodes) && !(node is Newline && is_broken(
            nodes,
        ))),
{
    assert(nodes.push(node).drop_last() =~= nodes);
}

/// Whether the parser may write a paragraph break only where none is open.
pub open spec fn breaks_in_order<F>(
    state: ParserState,
    nodes: Seq<NodeSpec<F>>,
    items: Items,
) -> bool {
    &&& breaks_apart(nodes)
    &&& state is FirstNewline ==> !is_broken(nodes)
    &&& state is Body && is_broken(nodes) ==> !(head(items) == Some(TokenSpec::Space) || head(items)
        == Some(TokenSpec::Newline) || head(items) == Some(TokenSpec::Hashtag))
}

proof fn lemma_breaks_apart<P: Function>(
    scope: Scope<P>,
    state: ParserState,
    nodes: Seq<NodeSpec<P::Output>>,
    items: Items,
    outcomes: Seq<Outcome<P::Output>>,
)
    requires
        breaks_in_order(state, nodes, items),
    ensures
        parse_items(scope, state, nodes, items, outcomes) is Tree ==> breaks_apart(
            parse_items(scope, state, nodes, items, outcomes)->Tree_0,
        ),
    decreases items.len(), rank(state),
{
    if head(items) is Some {
        lemma_parse_step(scope, state, nodes, items, outcomes);
        match parse_step(scope, state, nodes, items, outcomes) {
            ParseStep::Next { state: s, nodes: n, items: i, outcomes: o } => {
                lemma_breaks_push(nodes, NodeSpec::Space);
                lemma_breaks_push(nodes, NodeSpec::Newline);
                if n.len() > 0 && n.drop_last() =~= nodes {
                    assert(n =~= nodes.push(n.last()));
                    lemma_breaks_push(nodes, n.last());
                }
                lemma_breaks_apart(scope, s, n, i, o);
            },
            ParseStep::Done(_) => {},
        }
    }
}

/// However many newlines stand between two words, they are one paragraph break, with
/// comments among them or without: a tree has something other than whitespace
/// between any two paragraph breaks.
pub proof fn law_breaks_apart<P: Function>(
    scope: Scope<P>,
    items: Items,
    outcomes: Seq<Outcome<P::Output>>,
)
    ensures
        parse_items(scope, ParserState::Body, Seq::empty(), items, outcomes) is Tree
            ==> breaks_apart(
            parse_items(scope, ParserState::Body, Seq::empty(), items, outcomes)->Tree_0,
        ),
{
    lemma_breaks_apart(scope, ParserState::Body, Seq::empty(), items, outcomes);
}

/// One newline between words is a space.
pub proof fn law_line_break<P: Function>(
    scope: Scope<P>,
    nodes: Seq<NodeSpec<P::Output>>,
    rest: Items,
    outcomes: Seq<Outcome<P::Output>>,
)
    requires
        head(rest) is Some,
        !(head(rest)->0 is Newline),
        !(head(rest)->0 is Space),
        !(head(rest)->0 is Hashtag),
    ensures
        parse_items(
            scope,
            ParserState::Body,
            nodes,
            seq![Some(TokenSpec::Newline)] + rest,
            outcomes,
        ) == parse_items(scope, ParserState::Body, with_space(nodes), rest, outcomes),
{
    let items = seq![Some(TokenSpec::Newline)] + rest;
    reveal_with_fuel(parse_items, 3);
    assert(after_reads(items, 1) =~= rest);
}

/// Two newlines between words are a paragraph break, and further ones add
/// nothing.
pub proof fn law_paragraph_break<P: Function>(
    scope: Scope<P>,
    nodes: Seq<NodeSpec<P::Output>>,
    more: nat,
    rest: Items,
    outcomes: Seq<Outcome<P::Output>>,
)
    requires
        head(rest) is Some,
        !(head(rest)->0 is Newline),
        !(head(rest)->0 is Space),
        !(head(rest)->0 is Hashtag),
    ensures
        parse_items(
            scope,
            ParserState::Body,
            nodes,
            Seq::new(more + 2, |i: int| Some(TokenSpec::Newline)) + rest,
            outcomes,
        ) == parse_items(
            scope,
            ParserState::Body,
            if more == 0 {
                nodes.push(NodeSpec::Newline)
            } else {
                nodes.push(NodeSpec::Newline).push(NodeSpec::Space)
            },
            rest,
            outcomes,
        ),
{
    let newline = |i: int| Some(TokenSpec::Newline);
    let items = Seq::new(more + 2, newline) + rest;
    let written = nodes.push(NodeSpec::Newline);
    reveal_with_fuel(parse_items, 3);
    assert(after_reads(items, 1) =~= Seq::new(more + 1, newline) + rest);
    assert(after_reads(after_reads(items, 1), 1) =~= Seq::new(more, newline) + rest);
    lemma_more_newlines(scope, written, more, rest, outcomes);
}

proof fn lemma_more_newlines<P: Function>(
    scope: Scope<P>,
    nodes: Seq<NodeSpec<P::Output>>,
    more: nat,
    rest: Items,
    outcomes: Seq<Outcome<P::Output>>,
)
    requires
        head(rest) is Some,
        !(head(rest)->0 is Newline),
        !(head(rest)->0 is Space),
        !(head(rest)->0 is Hashtag),
    ensures
        parse_items(
            scope,
            ParserState::WroteNewline,
            nodes,
            Seq::new(more, |i: int| Some(TokenSpec::Newline)) + rest,
            outcomes,
        ) == parse_items(
            scope,
            ParserState::Body,
            if more == 0 {
                nodes
            } else {
                with_space(nodes)
            },
            rest,
            outcomes,
        ),
    decreases more,
{
    let newline = |i: int| Some(TokenSpec::Newline);
    let items = Seq::new(more, newline) + rest;
    if more == 0 {
        assert(items =~= rest);
    } else {
        assert(after_reads(items, 1) =~= Seq::new((more - 1) as nat, newline) + rest);
        lemma_more_newlines(scope, with_space(nodes), (more - 1) as nat, rest, outcomes);
        assert(with_space(with_space(nodes)) =~= with_space(nodes));
    }
}

/// Whether each token of a function header has a left bracket in front of it.
pub open spec fn header_items_are_opened(items: Items) -> bool {
    forall|i: int|
        0 <= i < items.len() && #[trigger] items[i] is Some && is_header_token(items[i]->0)
            ==> exists|j: int| 0 <= j < i && #[trigger] items[j] == Some(TokenSpec::LeftBracket)
}

/// Without functions, what parsing comes to depends on the tokens alone.
pub proof fn law_no_functions<P: Function>(
    a: Scope<P>,
    b: Scope<P>,
    state: ParserState,
    nodes: Seq<NodeSpec<P::Output>>,
    items: Items,
    outcomes: Seq<Outcome<P::Output>>,
    others: Seq<Outcome<P::Output>>,
)
    requires
        a@ == Map::<Seq<char>, P>::empty(),
        b@ == Map::<Seq<char>, P>::empty(),
    ensures
        parse_items(a, state, nodes, items, outcomes) == parse_items(
            b,
            state,
            nodes,
            items,
            others,
        ),
    decreases items.len(), rank(state),
{
    if head(items) is Some {
        lemma_parse_step(a, state, nodes, items, outcomes);
        match parse_step(a, state, nodes, items, outcomes) {
            ParseStep::Next { state: s, nodes: n, items: i, outcomes: o } => {
                law_no_functions(a, b, s, n, i, o, others);
            },
            ParseStep::Done(_) => {},
        }
    }
}

/// What the invoked functions made of their invocations, in their order.
pub open spec fn calls<F>(nodes: Seq<NodeSpec<F>>) -> Seq<F>
    decreases nodes.len(),
{
    if nodes.len() == 0 {
        Seq::empty()
    } else {
        match nodes.last() {
            NodeSpec::Func(_, output) => calls(nodes.drop_last()).push(output),
            _ => calls(nodes.drop_last()),
        }
    }
}

proof fn lemma_calls_push<F>(nodes: Seq<NodeSpec<F>>, node: NodeSpec<F>)
    ensures
        calls(nodes.push(node)) == match node {
            NodeSpec::Func(_, output) => calls(nodes).push(output),
            _ => calls(nodes),
        },
{
    assert(nodes.push(node).drop_last() =~= nodes);
}

/// What the functions returned.
pub open spec fn outputs<F>(outcomes: Seq<Outcome<F>>) -> Seq<F> {
    outcomes.map_values(|outcome: Outcome<F>| outcome.result->Ok_0)
}

proof fn lemma_calls<P: Function>(
    scope: Scope<P>,
    state: ParserState,
    nodes: Seq<NodeSpec<P::Output>>,
    items: Items,
    outcomes: Seq<Outcome<P::Output>>,
) -> (count: nat)
    requires
        parse_items(scope, state, nodes, items, outcomes) is Tree,
    ensures
        count <= outcomes.len(),
        forall|i: int| 0 <= i < count ==> (#[trigger] outcomes[i]).result is Ok,
        calls(parse_items(scope, state, nodes, items, outcomes)->Tree_0) == calls(nodes) + outputs(
            outcomes.take(count as int),
        ),
        scope@ == Map::<Seq<char>, P>::empty() ==> count == 0,
    decreases items.len(), rank(state),
{
    if head(items) is None {
        assert(calls(nodes) + outputs(outcomes.take(0)) =~= calls(nodes));
        0
    } else {
        lemma_parse_step(scope, state, nodes, items, outcomes);
        match parse_step(scope, state, nodes, items, outcomes) {
            ParseStep::Next { state: s, nodes: n, items: i, outcomes: o } => {
                let rest = lemma_calls(scope, s, n, i, o);
                if n.len() > 0 && n.drop_last() =~= nodes {
                    assert(n =~= nodes.push(n.last()));
                    lemma_calls_push(nodes, n.last());
                }
                if state is Function && !(items[0]->0 is Hashtag) {
                    let count = (rest + 1) as nat;
                    assert(o == outcomes.drop_first());
                    assert forall|k: int| 0 <= k < count implies (
                    #[trigger] outcomes[k]).result is Ok by {
                        if k > 0 {
                            assert(outcomes[k] == o[k - 1]);
                        }
                    }
                    assert(calls(nodes).push(outcomes[0].result->Ok_0) + outputs(
                        o.take(rest as int),
                    ) =~= calls(nodes) + outputs(outcomes.take(count as int)));
                    count
                } else {
                    assert(o == outcomes);
                    assert(calls(n) =~= calls(nodes));
                    rest
                }
            },
            ParseStep::Done(_) => {
                0
            },
        }
    }
}

/// The function invocations of a tree are what the invoked functions returned,
/// in their order.
pub proof fn law_calls_in_order<P: Function>(
    scope: Scope<P>,
    items: Items,
    outcomes: Seq<Outcome<P::Output>>,
)
    requires
        parse_items(scope, ParserState::Body, Seq::empty(), items, outcomes) is Tree,
    ensures
        exists|count: nat|
            {
                &&& count <= outcomes.len()
                &&& forall|i: int| 0 <= i < count ==> (#[trigger] outcomes[i]).result is Ok
                &&& calls(
                    parse_items(scope, ParserState::Body, Seq::empty(), items, outcomes)->Tree_0,
                ) == #[trigger] outputs(outcomes.take(count as int))
                &&& scope@ == Map::<Seq<char>, P>::empty() ==> count == 0
            },
{
    let none = Seq::<NodeSpec<P::Output>>::empty();
    let count = lemma_calls(scope, ParserState::Body, none, items, outcomes);
    assert(calls(none) + outputs(outcomes.take(count as int)) =~= outputs(
        outcomes.take(count as int),
    ));
}

/// Where no token is one of a function header, none stands in the text, whatever
/// the invoked functions do.
pub proof fn law_no_header_items<P: Function>(
    scope: Scope<P>,
    state: ParserState,
    nodes: Seq<NodeSpec<P::Output>>,
    items: Items,
)
    requires
        forall|i: int|
            0 <= i < items.len() ==> !(#[trigger] items[i] is Some && is_header_token(items[i]->0)),
    ensures
        no_header_token(scope, state, nodes, items),
{
    assert forall|outcomes: Seq<Outcome<P::Output>>| !(#[trigger] parse_items(
        scope,
        state,
        nodes,
        items,
        outcomes,
    ) is HeaderToken) by {
        lemma_no_header_items(scope, state, nodes, items, outcomes);
    }
}

proof fn lemma_no_header_items<P: Function>(
    scope: Scope<P>,
    state: ParserState,
    nodes: Seq<NodeSpec<P::Output>>,
    items: Items,
    outcomes: Seq<Outcome<P::Output>>,
)
    requires
        forall|i: int|
            0 <= i < items.len() ==> !(#[trigger] items[i] is Some && is_header_token(items[i]->0)),
    ensures
        !(parse_items(scope, state, nodes, items, outcomes) is HeaderToken),
    decreases items.len(), rank(state),
{
    if head(items) is Some {
        assert(!is_header_token(items[0]->0));
        lemma_parse_step(scope, state, nodes, items, outcomes);
        match parse_step(scope, state, nodes, items, outcomes) {
            ParseStep::Next { state: s, nodes: n, items: i, outcomes: o } => {
                let reads = choose|reads: nat| i == #[trigger] after_reads(items, reads);
                assert forall|k: int| 0 <= k < i.len() implies !(#[trigger] i[k] is Some
                    && is_header_token(i[k]->0)) by {
                    assert(i[k] == items[k + reads]);
                }
                lemma_no_header_items(scope, s, n, i, o);
            },
            ParseStep::Done(_) => {},
        }
    }
}

proof fn lemma_no_functions_no_header<P: Function>(
    scope: Scope<P>,
    state: ParserState,
    nodes: Seq<NodeSpec<P::Output>>,
    items: Items,
    outcomes: Seq<Outcome<P::Output>>,
)
    requires
        scope@ == Map::<Seq<char>, P>::empty(),
        state is Function || header_items_are_opened(items),
        forall|i: int| 0 <= i < items.len() ==> #[trigger] items[i] != Some(TokenSpec::Hashtag),
    ensures
        !(parse_items(scope, state, nodes, items, outcomes) is HeaderToken),
    decreases items.len(), rank(state),
{
    if head(items) is Some && !(state is Function) {
        lemma_parse_step(scope, state, nodes, items, outcomes);
        assert(items[0] != Some(TokenSpec::Hashtag));
        assert(!is_header_token(items[0]->0));
        match parse_step(scope, state, nodes, items, outcomes) {
            ParseStep::Next { state: s, nodes: n, items: i, outcomes: o } => {
                if i != items {
                    assert(i =~= items.skip(1));
                    if !(s is Function) {
                        assert(items[0] != Some(TokenSpec::LeftBracket));
                        assert forall|k: int|
                            0 <= k < i.len() && #[trigger] i[k] is Some && is_header_token(
                                i[k]->0,
                            ) implies exists|j: int|
                            0 <= j < k && #[trigger] i[j] == Some(TokenSpec::LeftBracket) by {
                            assert(i[k] == items[k + 1]);
                            let j = choose|j: int|
                                0 <= j < k + 1 && #[trigger] items[j] == Some(
                                    TokenSpec::LeftBracket,
                                );
                            assert(i[j - 1] == items[j]);
                        }
                    }
                    assert forall|k: int| 0 <= k < i.len() implies #[trigger] i[k] != Some(
                        TokenSpec::Hashtag,
                    ) by {
                        assert(i[k] == items[k + 1]);
                    }
                }
                lemma_no_functions_no_header(scope, s, n, i, o);
            },
            ParseStep::Done(_) => {},
        }
    }
}

/// An open bracket is one that was read.
proof fn lemma_opened(items: Items, reads: nat) -> (at: int)
    requires
        reads <= items.len(),
        depth_after_reads(items, 0, reads) > 0,
    ensures
        0 <= at < reads,
        items[at] == Some(TokenSpec::LeftBracket),
    decreases reads,
{
    if items[0] == Some(TokenSpec::LeftBracket) {
        0
    } else {
        lemma_opened(items.drop_first(), (reads - 1) as nat) + 1
    }
}

/// A parser without functions meets no token of a function header in the text
/// that it parses, where the text has no comments.
pub proof fn law_no_functions_no_header<P: Function>(
    scope: Scope<P>,
    nodes: Seq<NodeSpec<P::Output>>,
    words: Seq<Seq<char>>,
)
    requires
        scope@ == Map::<Seq<char>, P>::empty(),
        forall|i: int|
            0 <= i < tokenize(words).len() ==> !(#[trigger] tokenize(words)[i] is Hashtag),
    ensures
        no_header_token(scope, ParserState::Body, nodes, token_items(tokenize(words))),
{
    let tokens = tokenize(words);
    let items = token_items(tokens);
    law_headers_are_open(words);
    assert forall|i: int|
        0 <= i < items.len() && #[trigger] items[i] is Some && is_header_token(
            items[i]->0,
        ) implies exists|j: int| 0 <= j < i && #[trigger] items[j] == Some(
        TokenSpec::LeftBracket,
    ) by {
        assert(is_header_token(tokens[i]));
        let j = lemma_opened(items, i as nat);
        assert(items[j] == Some(TokenSpec::LeftBracket));
    }
    assert forall|i: int| 0 <= i < items.len() implies #[trigger] items[i] != Some(
        TokenSpec::Hashtag,
    ) by {
        assert(!(tokens[i] is Hashtag));
    }
    assert forall|outcomes: Seq<Outcome<P::Output>>| !(#[trigger] parse_items(
        scope,
        ParserState::Body,
        nodes,
        items,
        outcomes,
    ) is HeaderToken) by {
        lemma_no_functions_no_header(scope, ParserState::Body, nodes, items, outcomes);
    }
}

/// The tokens of a function header in front of a body, or of nothing.
pub open spec fn header_items(name: Seq<char>) -> Items {
    seq![
        Some(TokenSpec::LeftBracket),
        Some(TokenSpec::Word(name)),
        Some(TokenSpec::RightBracket),
    ]
}

/// The left bracket that opens a body.
pub open spec fn opening() -> Items {
    seq![Some(TokenSpec::LeftBracket)]
}

/// Behind the left bracket of a header, the header stands in front.
proof fn lemma_header<P: Function>(
    scope: Scope<P>,
    nodes: Seq<NodeSpec<P::Output>>,
    name: Seq<char>,
    rest: Items,
    outcomes: Seq<Outcome<P::Output>>,
)
    ensures
        ({
            let items = after_reads(header_items(name) + rest, 1);
            &&& parse_items(scope, ParserState::Body, nodes, header_items(name) + rest, outcomes)
                == parse_items(scope, ParserState::Function, nodes, items, outcomes)
            &&& head(items) == Some(TokenSpec::Word(name))
            &&& head(after_reads(items, 1)) == Some(TokenSpec::RightBracket)
            &&& after_reads(items, 2) == rest
        }),
{
    let items = after_reads(header_items(name) + rest, 1);
    assert(items[0] == Some(TokenSpec::Word(name)));
    assert(items[1] == Some(TokenSpec::RightBracket));
    assert(after_reads(items, 2) =~= rest);
}

/// An invocation of a function that the scope does not know is an error.
pub proof fn law_unknown_function<P: Function>(
    scope: Scope<P>,
    nodes: Seq<NodeSpec<P::Output>>,
    name: Seq<char>,
    rest: Items,
    outcomes: Seq<Outcome<P::Output>>,
)
    requires
        is_identifier(name),
        !scope@.dom().contains(name),
    ensures
        parse_items(scope, ParserState::Body, nodes, header_items(name) + rest, outcomes)
            == Parsed::<P::Output>::Error("unknown function: '"@ + name + "'"@),
{
    lemma_header(scope, nodes, name, rest, outcomes);
}

/// A function that is invoked without a body gets none, and the text goes on
/// behind the header.
pub proof fn law_call_without_body<P: Function>(
    scope: Scope<P>,
    nodes: Seq<NodeSpec<P::Output>>,
    name: Seq<char>,
    rest: Items,
    outcomes: Seq<Outcome<P::Output>>,
)
    requires
        is_identifier(name),
        scope@.dom().contains(name),
        head(rest) != Some(TokenSpec::LeftBracket),
        outcomes.len() > 0,
        outcomes[0].result is Ok,
        outcomes[0].reads == 0,
        scope@[name].may_return(bare_header(name), None, scope, outcomes[0].result, 0),
    ensures
        parse_items(scope, ParserState::Body, nodes, header_items(name) + rest, outcomes)
            == parse_items(
            scope,
            ParserState::Body,
            nodes.push(NodeSpec::Func(bare_header(name), outcomes[0].result->Ok_0)),
            rest,
            outcomes.drop_first(),
        ),
{
    lemma_header(scope, nodes, name, rest, outcomes);
}

/// A function that reads its body to the end is left right behind the bracket
/// that closes the body: the text goes on there.
pub proof fn law_call_with_body<P: Function>(
    scope: Scope<P>,
    nodes: Seq<NodeSpec<P::Output>>,
    name: Seq<char>,
    inside: Items,
    at: int,
    outcomes: Seq<Outcome<P::Output>>,
)
    requires
        is_identifier(name),
        scope@.dom().contains(name),
        closes_at(inside, 0, at),
        forall|i: int| 0 <= i < at ==> #[trigger] inside[i] is Some,
        outcomes.len() > 0,
        outcomes[0].result is Ok,
        outcomes[0].reads == at + 1,
        scope@[name].may_return(
            bare_header(name),
            Some(body_items(inside, 0)),
            scope,
            outcomes[0].result,
            outcomes[0].reads,
        ),
    ensures
        parse_items(
            scope,
            ParserState::Body,
            nodes,
            header_items(name) + (opening() + inside),
            outcomes,
        ) == parse_items(
            scope,
            ParserState::Body,
            nodes.push(NodeSpec::Func(bare_header(name), outcomes[0].result->Ok_0)),
            inside.skip(at + 1),
            outcomes.drop_first(),
        ),
{
    let rest = outcomes.drop_first();
    let behind = opening() + inside;
    lemma_header(scope, nodes, name, behind, outcomes);
    assert(after_reads(header_items(name) + behind, 1) =~= closed_name(name) + behind);
    lemma_not_run_out(inside, at);
    assert(seq![outcomes[0]] + rest =~= outcomes);
    law_body_call(scope, nodes, name, inside, outcomes[0], rest);
}

/// The bracket that closes a body is no end of the tokens.
proof fn lemma_not_run_out(inside: Items, at: int)
    requires
        closes_at(inside, 0, at),
        forall|i: int| 0 <= i < at ==> #[trigger] inside[i] is Some,
    ensures
        !runs_out(inside, (at + 1) as nat),
{
    law_body_stops(inside, 0, at);
    if runs_out(inside, (at + 1) as nat) {
        let i = choose|i: int| 0 <= i < at + 1 && #[trigger] inside[i] is None;
        assert(i == at);
    }
}

/// A function body that is not closed is an error, if the function reads past
/// its tokens.
pub proof fn law_unclosed_body<P: Function>(
    scope: Scope<P>,
    nodes: Seq<NodeSpec<P::Output>>,
    name: Seq<char>,
    inside: Items,
    outcomes: Seq<Outcome<P::Output>>,
)
    requires
        is_identifier(name),
        scope@.dom().contains(name),
        outcomes.len() > 0,
        outcomes[0].result is Ok,
        outcomes[0].reads > inside.len(),
        scope@[name].may_return(
            bare_header(name),
            Some(body_items(inside, 0)),
            scope,
            outcomes[0].result,
            outcomes[0].reads,
        ),
    ensures
        parse_items(
            scope,
            ParserState::Body,
            nodes,
            header_items(name) + (opening() + inside),
            outcomes,
        ) == Parsed::<P::Output>::Error("expected closing bracket"@),
{
    lemma_header(scope, nodes, name, opening() + inside, outcomes);
    assert(after_reads(opening() + inside, 1) =~= inside);
}

/// Parsing stops where the items give no token: what stands behind does not
/// matter to plain text.
proof fn lemma_text_stops<P: Function>(
    scope: Scope<P>,
    state: ParserState,
    nodes: Seq<NodeSpec<P::Output>>,
    items: Items,
    at: int,
    outcomes: Seq<Outcome<P::Output>>,
)
    requires
        !(state is Function),
        0 <= at < items.len(),
        items[at] is None,
        forall|i: int| 0 <= i < at ==> is_text(#[trigger] items[i]),
    ensures
        parse_items(scope, state, nodes, items, outcomes) == parse_items(
            scope,
            state,
            nodes,
            items.take(at),
            outcomes,
        ),
    decreases items.len(), rank(state),
{
    if at > 0 {
        assert(is_text(items[0]));
        assert(items.take(at)[0] == items[0]);
        lemma_parse_step(scope, state, nodes, items, outcomes);
        match parse_step(scope, state, nodes, items, outcomes) {
            ParseStep::Next { state: s, nodes: n, items: i, outcomes: o } => {
                if i == items {
                    lemma_text_stops(scope, s, n, i, at, o);
                } else {
                    assert(i =~= items.skip(1));
                    lemma_text_stops(scope, s, n, i, at - 1, o);
                    assert(after_reads(items.take(at), 1) =~= i.take(at - 1));
                }
            },
            ParseStep::Done(_) => {},
        }
    }
}

/// A function body of plain text parses as its tokens alone do: what stands
/// behind the bracket that closes it does not matter.
pub proof fn law_body_text_parses<P: Function>(
    scope: Scope<P>,
    nodes: Seq<NodeSpec<P::Output>>,
    text: Items,
    rest: Items,
    outcomes: Seq<Outcome<P::Output>>,
)
    requires
        forall|i: int| 0 <= i < text.len() ==> is_text(#[trigger] text[i]),
    ensures
        parse_items(
            scope,
            ParserState::Body,
            nodes,
            body_items(text + seq![Some(TokenSpec::RightBracket)] + rest, 0),
            outcomes,
        ) == parse_items(scope, ParserState::Body, nodes, text, outcomes),
{
    let inside = text + seq![Some(TokenSpec::RightBracket)] + rest;
    let at = text.len() as int;
    assert forall|i: int| 0 <= i < at implies is_text(#[trigger] inside[i]) by {
        assert(inside[i] == text[i]);
    }
    lemma_text_balance(inside, at);
    law_body_stops(inside, 0, at);
    let items = body_items(inside, 0);
    assert forall|i: int| 0 <= i < at implies is_text(#[trigger] items[i]) by {
        assert(items.take(at)[i] == inside.take(at)[i]);
        assert(is_text(inside[i]));
    }
    assert(items.take(at) =~= text);
    lemma_text_stops(scope, ParserState::Body, nodes, items, at, outcomes);
}

/// The first right bracket behind plain text is unbalanced.
proof fn lemma_text_balance(items: Items, at: int)
    requires
        0 <= at < items.len(),
        forall|i: int| 0 <= i < at ==> is_text(#[trigger] items[i]),
        items[at] == Some(TokenSpec::RightBracket),
    ensures
        forall|i: int| 0 <= i <= at ==> #[trigger] balance(items, i) == 0,
        balance(items, at + 1) == -1,
    decreases items.len(),
{
    let rest = items.drop_first();
    if at > 0 {
        assert(is_text(items[0]));
        assert forall|i: int| 0 <= i < at - 1 implies is_text(#[trigger] rest[i]) by {
            assert(rest[i] == items[i + 1]);
        }
        lemma_text_balance(rest, at - 1);
        assert forall|i: int| 0 <= i <= at implies #[trigger] balance(items, i) == 0 by {
            if i > 0 {
                assert(balance(rest, i - 1) == 0);
            }
        }
        assert(balance(rest, at) == -1);
    } else {
        assert(balance(rest, 0) == 0);
    }
}

/// A second skip of the tokens for which a condition holds skips nothing.
pub proof fn law_skip_again(items: Items, keep: spec_fn(TokenSpec) -> bool)
    ensures
        run_length(after_reads(items, run_length(items, keep)), keep) == 0,
        after_reads(
            after_reads(items, run_length(items, keep)),
            run_length(after_reads(items, run_length(items, keep)), keep),
        ) == after_reads(items, run_length(items, keep)),
    decreases items.len(),
{
    let length = run_length(items, keep);
    let left = after_reads(items, length);
    assert(after_reads(left, 0) =~= left);
    if length > 0 {
        let rest = items.drop_first();
        law_skip_again(rest, keep);
        assert(left =~= after_reads(rest, run_length(rest, keep)));
    } else {
        assert(left =~= items);
    }
}

/// A space behind a space changes nothing, and a space added keeps spaces apart.
pub proof fn law_space_again<F>(nodes: Seq<NodeSpec<F>>)
    ensures
        with_space(with_space(nodes)) == with_space(nodes),
        space_nodes_apart(nodes) ==> space_nodes_apart(with_space(nodes)),
{
}

/// Whether each function that is invoked with a body is left right behind the
/// bracket that closes the body.
pub open spec fn bodies_are_read<P: Function>(
    scope: Scope<P>,
    state: ParserState,
    nodes: Seq<NodeSpec<P::Output>>,
    items: Items,
    outcomes: Seq<Outcome<P::Output>>,
) -> bool
    decreases items.len(), rank(state),
{
    proof {
        if head(items) == Some(TokenSpec::Hashtag) {
            lemma_comment_reads(items);
        }
    }
    head(items) is Some ==> {
        &&& state is Function && items[0]->0 is Word && head(after_reads(items, 2)) == Some(
            TokenSpec::LeftBracket,
        ) && outcomes.len() > 0 ==> closes_at(after_reads(items, 3), 0, outcomes[0].reads - 1)
        &&& match parse_step(scope, state, nodes, items, outcomes) {
            ParseStep::Next { state: s, nodes: n, items: i, outcomes: o } => bodies_are_read(
                scope,
                s,
                n,
                i,
                o,
            ),
            ParseStep::Done(_) => true,
        }
    }
}

proof fn lemma_balance_adds(items: Items, m: int, n: int)
    requires
        0 <= m <= items.len(),
        0 <= n,
    ensures
        balance(items, m + n) == balance(items, m) + balance(items.skip(m), n),
    decreases m,
{
    if m == 0 {
        assert(items.skip(0) =~= items);
    } else {
        lemma_balance_adds(items.drop_first(), m - 1, n);
        assert(items.drop_first().skip(m - 1) =~= items.skip(m));
    }
}

/// The balance falls by one at most, from item to item.
proof fn lemma_closing_balance(items: Items, at: int)
    requires
        closes_at(items, 0, at),
    ensures
        balance(items, at + 1) == -1,
{
    lemma_balance_adds(items, at, 1);
    assert(balance(items, at) + 0 >= 0);
    let rest = items.skip(at);
    assert(balance(rest.drop_first(), 0) == 0);
}

/// Whether the items in front of `at` are tokens, there is none at `at`, and with
/// `open` brackets open in front the brackets up to there are balanced.
spec fn ends_at(items: Items, open: int, at: int) -> bool {
    &&& 0 <= at <= items.len()
    &&& forall|i: int| 0 <= i < at ==> #[trigger] items[i] is Some
    &&& at < items.len() ==> {
        &&& items[at] is None
        &&& forall|i: int| 0 <= i <= at ==> #[trigger] balance(items, i) + open >= 0
        &&& balance(items, at) + open == 0
    }
}

/// What the parser reads of items whose brackets are balanced in front of the first
/// that is no token, if it parses them: all in front of it, and it.
proof fn lemma_reads_to_end<P: Function>(
    scope: Scope<P>,
    state: ParserState,
    nodes: Seq<NodeSpec<P::Output>>,
    items: Items,
    outcomes: Seq<Outcome<P::Output>>,
    open: int,
    at: int,
)
    requires
        ends_at(items, open, at),
        parse_items(scope, state, nodes, items, outcomes) is Tree,
        bodies_are_read(scope, state, nodes, items, outcomes),
    ensures
        parse_reads(scope, state, nodes, items, outcomes) == at + 1,
    decreases items.len(), rank(state),
{
    if at == 0 {
        assert(head(items) is None);
    } else {
        assert(items[0] is Some);
        lemma_parse_step(scope, state, nodes, items, outcomes);
        let reads = step_reads(scope, state, items, outcomes);
        match parse_step(scope, state, nodes, items, outcomes) {
            ParseStep::Next { state: s, nodes: n, items: i, outcomes: o } => {
                lemma_step_stays(scope, state, nodes, items, outcomes, open, at);
                lemma_ends_on(items, open, at, reads);
                lemma_reads_to_end(
                    scope,
                    s,
                    n,
                    i,
                    o,
                    open + balance(items, reads as int),
                    at - reads,
                );
            },
            ParseStep::Done(_) => {},
        }
    }
}

/// What was read leaves the rest balanced.
proof fn lemma_ends_on(items: Items, open: int, at: int, reads: nat)
    requires
        ends_at(items, open, at),
        reads <= at,
    ensures
        ends_at(after_reads(items, reads), open + balance(items, reads as int), at - reads),
{
    let rest = after_reads(items, reads);
    assert forall|k: int| 0 <= k < at - reads implies #[trigger] rest[k] is Some by {
        assert(rest[k] == items[k + reads]);
    }
    if at < items.len() {
        assert(rest =~= items.skip(reads as int));
        assert(rest[at - reads] == items[at]);
        assert forall|k: int| 0 <= k <= at - reads implies #[trigger] balance(rest, k) + (open
            + balance(items, reads as int)) >= 0 by {
            lemma_balance_adds(items, reads as int, k);
            assert(balance(items, reads + k) + open >= 0);
        }
        lemma_balance_adds(items, reads as int, at - reads);
    }
}

/// A comment goes no further than to the first item that is no token.
proof fn lemma_comment_stays(items: Items, at: int)
    requires
        0 <= at <= items.len(),
        at < items.len() ==> items[at] is None,
    ensures
        run_length(items, |token: TokenSpec| !(token is Newline)) <= at,
        comment_reads(items) <= at,
    decreases items.len(),
{
    let keep = |token: TokenSpec| !(token is Newline);
    if items.len() > 0 && items[0] is Some && keep(items[0]->0) {
        let rest = items.drop_first();
        lemma_comment_stays(rest, at - 1);
        assert(after_reads(items, run_length(items, keep)) =~= after_reads(
            rest,
            run_length(rest, keep),
        ));
    } else {
        assert(after_reads(items, 0) =~= items);
    }
}

/// A step of the parser reads no further than to the first item that is no token.
proof fn lemma_step_stays<P: Function>(
    scope: Scope<P>,
    state: ParserState,
    nodes: Seq<NodeSpec<P::Output>>,
    items: Items,
    outcomes: Seq<Outcome<P::Output>>,
    open: int,
    at: int,
)
    requires
        at > 0,
        ends_at(items, open, at),
        parse_step(scope, state, nodes, items, outcomes) is Next,
        bodies_are_read(scope, state, nodes, items, outcomes),
    ensures
        step_reads(scope, state, items, outcomes) <= at,
        parse_step(scope, state, nodes, items, outcomes)->items == after_reads(
            items,
            step_reads(scope, state, items, outcomes),
        ),
{
    assert(items[0] is Some);
    assert(after_reads(items, 0) =~= items);
    if items[0]->0 is Hashtag {
        lemma_comment_stays(items, at);
    } else if state is Function {
        let behind = after_reads(items, 2);
        assert(items[1] == Some(TokenSpec::RightBracket));
        assert(at > 1);
        lemma_after_reads(items, 2, 1);
        if head(behind) == Some(TokenSpec::LeftBracket) {
            let inside = after_reads(items, 3);
            let end = outcomes[0].reads - 1;
            assert(items[2] == Some(TokenSpec::LeftBracket));
            assert(inside =~= items.skip(3));
            assert(at > 2);
            assert(closes_at(inside, 0, end));
            lemma_after_reads(items, 3, outcomes[0].reads);
            if at < items.len() {
                reveal_with_fuel(balance, 4);
                assert(items.drop_first()[0] == items[1]);
                assert(items.drop_first().drop_first()[0] == items[2]);
                assert(balance(items, 2) + open >= 0);
                assert(balance(items, 2) == -1);
                assert(balance(items, 3) == 0);
                lemma_balance_adds(items, 3, at - 3);
                if at - 3 <= end {
                    assert(balance(inside, at - 3) + 0 >= 0);
                }
            }
        }
    }
}

/// Where a function hands its body to the parser, the text goes on right behind
/// the bracket that closes the body. This is so at every depth: it is what the
/// functions that are invoked in the body must have kept to.
pub proof fn law_parsed_body<P: Function>(
    scope: Scope<P>,
    nodes: Seq<NodeSpec<P::Output>>,
    name: Seq<char>,
    inside: Items,
    at: int,
    inner: Seq<Outcome<P::Output>>,
    outcomes: Seq<Outcome<P::Output>>,
)
    requires
        is_identifier(name),
        scope@.dom().contains(name),
        closes_at(inside, 0, at),
        forall|i: int| 0 <= i < at ==> #[trigger] inside[i] is Some,
        parse_items(scope, ParserState::Body, Seq::empty(), body_items(inside, 0), inner) is Tree,
        bodies_are_read(scope, ParserState::Body, Seq::empty(), body_items(inside, 0), inner),
        outcomes.len() > 0,
        outcomes[0].result is Ok,
        outcomes[0].reads == parse_reads(
            scope,
            ParserState::Body,
            Seq::empty(),
            body_items(inside, 0),
            inner,
        ),
        scope@[name].may_return(
            bare_header(name),
            Some(body_items(inside, 0)),
            scope,
            outcomes[0].result,
            outcomes[0].reads,
        ),
    ensures
        outcomes[0].reads == at + 1,
        parse_items(
            scope,
            ParserState::Body,
            nodes,
            header_items(name) + (opening() + inside),
            outcomes,
        ) == parse_items(
            scope,
            ParserState::Body,
            nodes.push(NodeSpec::Func(bare_header(name), outcomes[0].result->Ok_0)),
            inside.skip(at + 1),
            outcomes.drop_first(),
        ),
{
    let body = body_items(inside, 0);
    lemma_body_ends(inside, at);
    lemma_reads_to_end(scope, ParserState::Body, Seq::empty(), body, inner, 0, at);
    law_call_with_body(scope, nodes, name, inside, at, outcomes);
}

/// A body ends where its bracket closes it.
proof fn lemma_body_ends(inside: Items, at: int)
    requires
        closes_at(inside, 0, at),
        forall|i: int| 0 <= i < at ==> #[trigger] inside[i] is Some,
    ensures
        ends_at(body_items(inside, 0), 0, at),
{
    let body = body_items(inside, 0);
    law_body_stops(inside, 0, at);
    assert forall|i: int| 0 <= i < at implies #[trigger] body[i] is Some by {
        assert(body.take(at)[i] == inside.take(at)[i]);
        assert(inside[i] is Some);
    }
    assert forall|i: int| 0 <= i <= at implies #[trigger] balance(body, i) == balance(
        inside,
        i,
    ) by {
        assert(body.take(i) =~= body.take(at).take(i));
        assert(inside.take(i) =~= inside.take(at).take(i));
        lemma_same_balance(body, inside, i);
    }
    assert forall|i: int| 0 <= i <= at implies #[trigger] balance(body, i) + 0 >= 0 by {
        assert(balance(inside, i) + 0 >= 0);
    }
    lemma_closing_balance(inside, at);
    lemma_balance_adds(inside, at, 1);
    assert(balance(inside.skip(at).drop_first(), 0) == 0);
    assert(balance(inside, at) == 0);
}

/// Items that begin alike have the same balance there.
proof fn lemma_same_balance(a: Items, b: Items, count: int)
    requires
        0 <= count <= a.len(),
        count <= b.len(),
        a.take(count) == b.take(count),
    ensures
        balance(a, count) == balance(b, count),
    decreases count,
{
    if count > 0 {
        assert(a[0] == a.take(count)[0] && b[0] == b.take(count)[0]);
        assert(a.drop_first().take(count - 1) =~= a.take(count).drop_first());
        assert(b.drop_first().take(count - 1) =~= b.take(count).drop_first());
        lemma_same_balance(a.drop_first(), b.drop_first(), count - 1);
    }
}

/// Plain text invokes no functions.
proof fn lemma_text_bodies<P: Function>(
    scope: Scope<P>,
    state: ParserState,
    nodes: Seq<NodeSpec<P::Output>>,
    items: Items,
    outcomes: Seq<Outcome<P::Output>>,
    at: int,
)
    requires
        !(state is Function),
        0 <= at <= items.len(),
        at < items.len() ==> items[at] is None,
        forall|i: int| 0 <= i < at ==> is_text(#[trigger] items[i]),
    ensures
        bodies_are_read(scope, state, nodes, items, outcomes),
    decreases items.len(), rank(state),
{
    if at > 0 {
        assert(is_text(items[0]));
        lemma_parse_step(scope, state, nodes, items, outcomes);
        match parse_step(scope, state, nodes, items, outcomes) {
            ParseStep::Next { state: s, nodes: n, items: i, outcomes: o } => {
                if i == items {
                    lemma_text_bodies(scope, s, n, i, o, at);
                } else {
                    assert(i =~= items.skip(1));
                    lemma_text_bodies(scope, s, n, i, o, at - 1);
                }
            },
            ParseStep::Done(_) => {},
        }
    }
}

/// Of a function body of plain text the parser reads the tokens and the bracket
/// that closes it, and nothing that stands behind.
pub proof fn law_body_text_read<P: Function>(
    scope: Scope<P>,
    nodes: Seq<NodeSpec<P::Output>>,
    text: Items,
    rest: Items,
    outcomes: Seq<Outcome<P::Output>>,
)
    requires
        forall|i: int| 0 <= i < text.len() ==> is_text(#[trigger] text[i]),
    ensures
        parse_reads(
            scope,
            ParserState::Body,
            nodes,
            body_items(text + seq![Some(TokenSpec::RightBracket)] + rest, 0),
            outcomes,
        ) == text.len() + 1,
{
    let inside = text + seq![Some(TokenSpec::RightBracket)] + rest;
    let at = text.len() as int;
    let items = body_items(inside, 0);
    assert forall|i: int| 0 <= i < at implies is_text(#[trigger] inside[i]) by {
        assert(inside[i] == text[i]);
    }
    lemma_text_balance(inside, at);
    law_body_stops(inside, 0, at);
    assert forall|i: int| 0 <= i < at implies is_text(#[trigger] items[i]) by {
        assert(items.take(at)[i] == inside.take(at)[i]);
        assert(is_text(inside[i]));
    }
    law_body_text_parses(scope, nodes, text, rest, outcomes);
    law_text_parses(scope, ParserState::Body, nodes, text, outcomes);
    lemma_text_bodies(scope, ParserState::Body, nodes, items, outcomes, at);
    assert forall|i: int| 0 <= i < at implies #[trigger] inside[i] is Some by {
        assert(is_text(inside[i]));
    }
    lemma_body_ends(inside, at);
    lemma_reads_to_end(scope, ParserState::Body, nodes, items, outcomes, 0, at);
}

/// Where a function hands a body that is not closed to the parser, the invocation
/// is an error, whatever the function makes of the body.
pub proof fn law_unclosed_parsed_body<P: Function>(
    scope: Scope<P>,
    nodes: Seq<NodeSpec<P::Output>>,
    name: Seq<char>,
    inside: Items,
    inner: Seq<Outcome<P::Output>>,
    outcomes: Seq<Outcome<P::Output>>,
)
    requires
        is_identifier(name),
        scope@.dom().contains(name),
        never_closes(inside, 0),
        forall|i: int| 0 <= i < inside.len() ==> #[trigger] inside[i] is Some,
        parse_items(scope, ParserState::Body, Seq::empty(), body_items(inside, 0), inner) is Tree,
        bodies_are_read(scope, ParserState::Body, Seq::empty(), body_items(inside, 0), inner),
        outcomes.len() > 0,
        outcomes[0].result is Ok,
        outcomes[0].reads == parse_reads(
            scope,
            ParserState::Body,
            Seq::empty(),
            body_items(inside, 0),
            inner,
        ),
        scope@[name].may_return(
            bare_header(name),
            Some(body_items(inside, 0)),
            scope,
            outcomes[0].result,
            outcomes[0].reads,
        ),
    ensures
        parse_items(
            scope,
            ParserState::Body,
            nodes,
            header_items(name) + (opening() + inside),
            outcomes,
        ) == Parsed::<P::Output>::Error("expected closing bracket"@),
{
    law_body_goes_on(inside, 0);
    lemma_reads_to_end(
        scope,
        ParserState::Body,
        Seq::empty(),
        inside,
        inner,
        0,
        inside.len() as int,
    );
    law_unclosed_body(scope, nodes, name, inside, outcomes);
}

/// Where there is no token, parsing ends: what was written is the tree.
pub proof fn law_end<P: Function>(
    scope: Scope<P>,
    state: ParserState,
    nodes: Seq<NodeSpec<P::Output>>,
    rest: Items,
    outcomes: Seq<Outcome<P::Output>>,
)
    ensures
        parse_items(scope, state, nodes, Seq::empty(), outcomes) == Parsed::Tree(nodes),
        parse_items(scope, state, nodes, seq![None] + rest, outcomes) == Parsed::Tree(nodes),
        parse_reads(scope, state, nodes, Seq::empty(), outcomes) == 1,
        parse_reads(scope, state, nodes, seq![None] + rest, outcomes) == 1,
{
}

/// Whether parsing the items goes on as parsing `others` from `state` and `nodes`,
/// `reads` reads further on.
pub open spec fn goes_on<P: Function>(
    scope: Scope<P>,
    from: (ParserState, Seq<NodeSpec<P::Output>>, Items),
    to: (ParserState, Seq<NodeSpec<P::Output>>, Items),
    reads: nat,
    outcomes: Seq<Outcome<P::Output>>,
) -> bool {
    &&& parse_items(scope, from.0, from.1, from.2, outcomes) == parse_items(
        scope,
        to.0,
        to.1,
        to.2,
        outcomes,
    )
    &&& parse_reads(scope, from.0, from.1, from.2, outcomes) == reads + parse_reads(
        scope,
        to.0,
        to.1,
        to.2,
        outcomes,
    )
}

/// A word in the text is a word of the tree, and a toggle is a toggle, whatever was
/// written in front of it and whatever stands behind it.
pub proof fn law_word_written<P: Function>(
    scope: Scope<P>,
    nodes: Seq<NodeSpec<P::Output>>,
    word: Seq<char>,
    rest: Items,
    outcomes: Seq<Outcome<P::Output>>,
)
    ensures
        goes_on(
            scope,
            (ParserState::Body, nodes, seq![Some(TokenSpec::Word(word))] + rest),
            (ParserState::Body, nodes.push(NodeSpec::Word(word)), rest),
            1,
            outcomes,
        ),
        goes_on(
            scope,
            (ParserState::Body, nodes, seq![Some(TokenSpec::DoubleUnderscore)] + rest),
            (ParserState::Body, nodes.push(NodeSpec::ToggleItalics), rest),
            1,
            outcomes,
        ),
        goes_on(
            scope,
            (ParserState::Body, nodes, seq![Some(TokenSpec::DoubleStar)] + rest),
            (ParserState::Body, nodes.push(NodeSpec::ToggleBold), rest),
            1,
            outcomes,
        ),
        goes_on(
            scope,
            (ParserState::Body, nodes, seq![Some(TokenSpec::Dollar)] + rest),
            (ParserState::Body, nodes.push(NodeSpec::ToggleMath), rest),
            1,
            outcomes,
        ),
{
    assert(after_reads(seq![Some(TokenSpec::Word(word))] + rest, 1) =~= rest);
    assert(after_reads(seq![Some(TokenSpec::DoubleUnderscore)] + rest, 1) =~= rest);
    assert(after_reads(seq![Some(TokenSpec::DoubleStar)] + rest, 1) =~= rest);
    assert(after_reads(seq![Some(TokenSpec::Dollar)] + rest, 1) =~= rest);
}

/// A space is a space of the tree, unless one was written last: then it is none. This
/// is so in the text and behind one newline or more.
pub proof fn law_space_written<P: Function>(
    scope: Scope<P>,
    state: ParserState,
    nodes: Seq<NodeSpec<P::Output>>,
    rest: Items,
    outcomes: Seq<Outcome<P::Output>>,
)
    requires
        !(state is Function),
    ensures
        nodes.len() == 0 || !(nodes.last() is Space) ==> goes_on(
            scope,
            (state, nodes, seq![Some(TokenSpec::Space)] + rest),
            (state, nodes.push(NodeSpec::Space), rest),
            1,
            outcomes,
        ),
        nodes.len() > 0 && nodes.last() is Space ==> goes_on(
            scope,
            (state, nodes, seq![Some(TokenSpec::Space)] + rest),
            (state, nodes, rest),
            1,
            outcomes,
        ),
{
    assert(after_reads(seq![Some(TokenSpec::Space)] + rest, 1) =~= rest);
}

/// A newline in the text writes nothing yet. A second one is a paragraph break, and
/// each further one is a space.
pub proof fn law_newline_read<P: Function>(
    scope: Scope<P>,
    nodes: Seq<NodeSpec<P::Output>>,
    rest: Items,
    outcomes: Seq<Outcome<P::Output>>,
)
    ensures
        goes_on(
            scope,
            (ParserState::Body, nodes, seq![Some(TokenSpec::Newline)] + rest),
            (ParserState::FirstNewline, nodes, rest),
            1,
            outcomes,
        ),
        goes_on(
            scope,
            (ParserState::FirstNewline, nodes, seq![Some(TokenSpec::Newline)] + rest),
            (ParserState::WroteNewline, nodes.push(NodeSpec::Newline), rest),
            1,
            outcomes,
        ),
        nodes.len() == 0 || !(nodes.last() is Space) ==> goes_on(
            scope,
            (ParserState::WroteNewline, nodes, seq![Some(TokenSpec::Newline)] + rest),
            (ParserState::WroteNewline, nodes.push(NodeSpec::Space), rest),
            1,
            outcomes,
        ),
        nodes.len() > 0 && nodes.last() is Space ==> goes_on(
            scope,
            (ParserState::WroteNewline, nodes, seq![Some(TokenSpec::Newline)] + rest),
            (ParserState::WroteNewline, nodes, rest),
            1,
            outcomes,
        ),
{
    assert(after_reads(seq![Some(TokenSpec::Newline)] + rest, 1) =~= rest);
}

/// The first token behind newlines that is neither whitespace nor a comment goes on
/// with the text: behind one newline with a space in front of it, unless one was
/// written last, and behind a paragraph break as it is.
pub proof fn law_newlines_left<P: Function>(
    scope: Scope<P>,
    nodes: Seq<NodeSpec<P::Output>>,
    items: Items,
    outcomes: Seq<Outcome<P::Output>>,
)
    requires
        items.len() > 0,
        items[0] is Some,
        items[0] != Some(TokenSpec::Newline),
        items[0] != Some(TokenSpec::Space),
        items[0] != Some(TokenSpec::Hashtag),
    ensures
        nodes.len() == 0 || !(nodes.last() is Space) ==> goes_on(
            scope,
            (ParserState::FirstNewline, nodes, items),
            (ParserState::Body, nodes.push(NodeSpec::Space), items),
            0,
            outcomes,
        ),
        nodes.len() > 0 && nodes.last() is Space ==> goes_on(
            scope,
            (ParserState::FirstNewline, nodes, items),
            (ParserState::Body, nodes, items),
            0,
            outcomes,
        ),
        goes_on(
            scope,
            (ParserState::WroteNewline, nodes, items),
            (ParserState::Body, nodes, items),
            0,
            outcomes,
        ),
{
}

/// One newline in front of a token that is neither whitespace nor a comment is a
/// space of the tree, unless one was written last.
pub proof fn law_newline_written<P: Function>(
    scope: Scope<P>,
    nodes: Seq<NodeSpec<P::Output>>,
    rest: Items,
    outcomes: Seq<Outcome<P::Output>>,
)
    requires
        rest.len() > 0,
        rest[0] is Some,
        rest[0] != Some(TokenSpec::Newline),
        rest[0] != Some(TokenSpec::Space),
        rest[0] != Some(TokenSpec::Hashtag),
    ensures
        nodes.len() == 0 || !(nodes.last() is Space) ==> goes_on(
            scope,
            (ParserState::Body, nodes, seq![Some(TokenSpec::Newline)] + rest),
            (ParserState::Body, nodes.push(NodeSpec::Space), rest),
            1,
            outcomes,
        ),
        nodes.len() > 0 && nodes.last() is Space ==> goes_on(
            scope,
            (ParserState::Body, nodes, seq![Some(TokenSpec::Newline)] + rest),
            (ParserState::Body, nodes, rest),
            1,
            outcomes,
        ),
{
    law_newline_read(scope, nodes, rest, outcomes);
    law_newlines_left(scope, nodes, rest, outcomes);
}

/// A left bracket in the text opens a function header, a right bracket there is an
/// error, and a colon or an equals sign of a header has no place there.
pub proof fn law_brackets_in_text<P: Function>(
    scope: Scope<P>,
    nodes: Seq<NodeSpec<P::Output>>,
    rest: Items,
    outcomes: Seq<Outcome<P::Output>>,
)
    ensures
        goes_on(
            scope,
            (ParserState::Body, nodes, seq![Some(TokenSpec::LeftBracket)] + rest),
            (ParserState::Function, nodes, rest),
            1,
            outcomes,
        ),
        parse_items(
            scope,
            ParserState::Body,
            nodes,
            seq![Some(TokenSpec::RightBracket)] + rest,
            outcomes,
        ) == Parsed::<P::Output>::Error("unexpected closing bracket"@),
        parse_items(
            scope,
            ParserState::Body,
            nodes,
            seq![Some(TokenSpec::Colon)] + rest,
            outcomes,
        ) == Parsed::<P::Output>::HeaderToken,
        parse_items(
            scope,
            ParserState::Body,
            nodes,
            seq![Some(TokenSpec::Equals)] + rest,
            outcomes,
        ) == Parsed::<P::Output>::HeaderToken,
        parse_reads(
            scope,
            ParserState::Body,
            nodes,
            seq![Some(TokenSpec::RightBracket)] + rest,
            outcomes,
        ) == 1,
        parse_reads(
            scope,
            ParserState::Body,
            nodes,
            seq![Some(TokenSpec::Colon)] + rest,
            outcomes,
        ) == 1,
        parse_reads(
            scope,
            ParserState::Body,
            nodes,
            seq![Some(TokenSpec::Equals)] + rest,
            outcomes,
        ) == 1,
{
    assert(after_reads(seq![Some(TokenSpec::LeftBracket)] + rest, 1) =~= rest);
}

/// A comment is read to the newline that ends it, and that with it, in every state.
pub proof fn law_comment_read<P: Function>(
    scope: Scope<P>,
    state: ParserState,
    nodes: Seq<NodeSpec<P::Output>>,
    comment: Items,
    rest: Items,
    outcomes: Seq<Outcome<P::Output>>,
)
    requires
        forall|i: int|
            0 <= i < comment.len() ==> #[trigger] comment[i] is Some && comment[i] != Some(
                TokenSpec::Newline,
            ),
    ensures
        goes_on(
            scope,
            (
                state,
                nodes,
                seq![Some(TokenSpec::Hashtag)] + comment + seq![Some(TokenSpec::Newline)] + rest,
            ),
            (state, nodes, rest),
            comment.len() + 2,
            outcomes,
        ),
        rest.len() == 0 || rest[0] is None ==> goes_on(
            scope,
            (state, nodes, seq![Some(TokenSpec::Hashtag)] + comment + rest),
            (state, nodes, rest),
            comment.len() + 1,
            outcomes,
        ),
{
    let length = comment.len() + 1;
    let ended = seq![Some(TokenSpec::Hashtag)] + comment + seq![Some(TokenSpec::Newline)] + rest;
    let last = seq![Some(TokenSpec::Hashtag)] + comment + rest;
    assert forall|i: int| 0 <= i < length implies #[trigger] ended[i] is Some && !(
    ended[i]->0 is Newline) by {
        if i > 0 {
            assert(ended[i] == comment[i - 1]);
        }
    }
    assert forall|i: int| 0 <= i < length implies #[trigger] last[i] is Some && !(
    last[i]->0 is Newline) by {
        if i > 0 {
            assert(last[i] == comment[i - 1]);
        }
    }
    lemma_comment_length(ended, length);
    assert(after_comment(ended) =~= rest);
    if rest.len() == 0 || rest[0] is None {
        lemma_comment_length(last, length);
        assert(after_reads(last, length) =~= rest);
        assert(after_comment(last) =~= rest);
    }
}

/// What stands behind the left bracket of a header is the name of a function. Any
/// other token there is an error, and so is a word that is no identifier, and a
/// header that is not closed behind its name.
pub proof fn law_header_errors<P: Function>(
    scope: Scope<P>,
    nodes: Seq<NodeSpec<P::Output>>,
    items: Items,
    outcomes: Seq<Outcome<P::Output>>,
)
    requires
        items.len() > 0,
        items[0] is Some,
        items[0] != Some(TokenSpec::Hashtag),
    ensures
        !(items[0]->0 is Word) ==> {
            &&& parse_items(scope, ParserState::Function, nodes, items, outcomes)
                == Parsed::<P::Output>::Error("expected identifier"@)
            &&& parse_reads(scope, ParserState::Function, nodes, items, outcomes) == 1
        },
        items[0]->0 is Word && !is_identifier(items[0]->0->Word_0) ==> {
            &&& parse_items(scope, ParserState::Function, nodes, items, outcomes)
                == Parsed::<P::Output>::Error("invalid identifier"@)
            &&& parse_reads(scope, ParserState::Function, nodes, items, outcomes) == 1
        },
        items[0]->0 is Word && is_identifier(items[0]->0->Word_0) && (items.len() < 2 || items[1]
            != Some(TokenSpec::RightBracket)) ==> {
            &&& parse_items(scope, ParserState::Function, nodes, items, outcomes)
                == Parsed::<P::Output>::Error("expected closing bracket"@)
            &&& parse_reads(scope, ParserState::Function, nodes, items, outcomes) == 2
        },
{
    if items.len() >= 2 {
        assert(after_reads(items, 1)[0] == items[1]);
    }
}

/// The name and the closing bracket of a header.
pub open spec fn closed_name(name: Seq<char>) -> Items {
    seq![Some(TokenSpec::Word(name)), Some(TokenSpec::RightBracket)]
}

proof fn lemma_closed_name(name: Seq<char>, rest: Items)
    ensures
        head(closed_name(name) + rest) == Some(TokenSpec::Word(name)),
        head(after_reads(closed_name(name) + rest, 1)) == Some(TokenSpec::RightBracket),
        after_reads(closed_name(name) + rest, 2) == rest,
{
    let items = closed_name(name) + rest;
    assert(after_reads(items, 1)[0] == items[1]);
    assert(after_reads(items, 2) =~= rest);
}

/// An invocation looks its function up by the name in its header, hands it a header
/// with that name and nothing else, and no body if no left bracket follows. What the
/// function makes of it is the node, and the text goes on behind the header; an error
/// of the function is the error.
pub proof fn law_bare_call<P: Function>(
    scope: Scope<P>,
    nodes: Seq<NodeSpec<P::Output>>,
    name: Seq<char>,
    rest: Items,
    outcome: Outcome<P::Output>,
    outcomes: Seq<Outcome<P::Output>>,
)
    requires
        is_identifier(name),
        rest.len() == 0 || rest[0] != Some(TokenSpec::LeftBracket),
    ensures
        ({
            let items = closed_name(name) + rest;
            let all = seq![outcome] + outcomes;
            let parsed = parse_items(scope, ParserState::Function, nodes, items, all);
            let reads = parse_reads(scope, ParserState::Function, nodes, items, all);
            let header = HeaderSpec { name, args: Seq::empty(), kwargs: Map::empty() };
            let may = outcome.reads == 0 && scope@[name].may_return(
                header,
                None,
                scope,
                outcome.result,
                0,
            );
            &&& !scope@.dom().contains(name) ==> parsed == Parsed::<P::Output>::Error(
                "unknown function: '"@ + name + "'"@,
            ) && reads == 3
            &&& scope@.dom().contains(name) && !may ==> parsed is Impossible
            &&& scope@.dom().contains(name) && may ==> match outcome.result {
                Err(error) => parsed == Parsed::<P::Output>::Error(error@) && reads == 3,
                Ok(output) => {
                    let written = nodes.push(NodeSpec::Func(header, output));
                    &&& parsed == parse_items(scope, ParserState::Body, written, rest, outcomes)
                    &&& reads == 2 + parse_reads(
                        scope,
                        ParserState::Body,
                        written,
                        rest,
                        outcomes,
                    )
                },
            }
        }),
{
    lemma_closed_name(name, rest);
    assert((seq![outcome] + outcomes).drop_first() =~= outcomes);
}

/// An invocation with a left bracket behind its header hands its function what stands
/// behind that bracket, as a body. What the function makes of it is the node, and the
/// text goes on behind what it read; but where the tokens ran out in a read of the
/// function, the body is not closed, which is an error.
pub proof fn law_body_call<P: Function>(
    scope: Scope<P>,
    nodes: Seq<NodeSpec<P::Output>>,
    name: Seq<char>,
    inside: Items,
    outcome: Outcome<P::Output>,
    outcomes: Seq<Outcome<P::Output>>,
)
    requires
        is_identifier(name),
    ensures
        ({
            let items = closed_name(name) + (seq![Some(TokenSpec::LeftBracket)] + inside);
            let all = seq![outcome] + outcomes;
            let parsed = parse_items(scope, ParserState::Function, nodes, items, all);
            let reads = parse_reads(scope, ParserState::Function, nodes, items, all);
            let header = HeaderSpec { name, args: Seq::empty(), kwargs: Map::empty() };
            let may = scope@[name].may_return(
                header,
                Some(body_items(inside, 0)),
                scope,
                outcome.result,
                outcome.reads,
            );
            let missed = outcome.reads > inside.len() || exists|i: int|
                0 <= i < outcome.reads && #[trigger] inside[i] is None;
            &&& !scope@.dom().contains(name) ==> parsed == Parsed::<P::Output>::Error(
                "unknown function: '"@ + name + "'"@,
            ) && reads == 3
            &&& scope@.dom().contains(name) && !may ==> parsed is Impossible
            &&& scope@.dom().contains(name) && may ==> match outcome.result {
                Err(error) => parsed == Parsed::<P::Output>::Error(error@) && reads == 3
                    + outcome.reads,
                Ok(output) => if missed {
                    parsed == Parsed::<P::Output>::Error("expected closing bracket"@) && reads == 3
                        + outcome.reads
                } else {
                    let written = nodes.push(NodeSpec::Func(header, output));
                    let rest = inside.skip(outcome.reads as int);
                    &&& parsed == parse_items(scope, ParserState::Body, written, rest, outcomes)
                    &&& reads == 3 + outcome.reads + parse_reads(
                        scope,
                        ParserState::Body,
                        written,
                        rest,
                        outcomes,
                    )
                },
            }
        }),
{
    let behind = seq![Some(TokenSpec::LeftBracket)] + inside;
    lemma_closed_name(name, behind);
    assert(after_reads(behind, 1) =~= inside);
    assert((seq![outcome] + outcomes).drop_first() =~= outcomes);
    if outcome.reads <= inside.len() {
        assert(after_reads(inside, outcome.reads) =~= inside.skip(outcome.reads as int));
    }
}

/// Nothing that was written is lost, and what is written behind it does not depend on
/// it, but for whether it ends with a space: parsing the same tokens from other nodes
/// comes to the same error, or writes the same nodes behind them, and reads as far.
pub proof fn law_nodes_alike<P: Function>(
    scope: Scope<P>,
    state: ParserState,
    a: Seq<NodeSpec<P::Output>>,
    b: Seq<NodeSpec<P::Output>>,
    items: Items,
    outcomes: Seq<Outcome<P::Output>>,
)
    requires
        (a.len() > 0 && a.last() is Space) == (b.len() > 0 && b.last() is Space),
    ensures
        match parse_items(scope, state, a, items, outcomes) {
            Parsed::Tree(x) => {
                let other = parse_items(scope, state, b, items, outcomes);
                &&& other is Tree
                &&& a.is_prefix_of(x)
                &&& b.is_prefix_of(other->Tree_0)
                &&& x.skip(a.len() as int) == other->Tree_0.skip(b.len() as int)
            },
            parsed => parse_items(scope, state, b, items, outcomes) == parsed,
        },
        parse_reads(scope, state, a, items, outcomes) == parse_reads(
            scope,
            state,
            b,
            items,
            outcomes,
        ),
    decreases items.len(), rank(state),
{
    if head(items) is None {
        assert(a.skip(a.len() as int) =~= b.skip(b.len() as int));
    } else {
        lemma_parse_step(scope, state, a, items, outcomes);
        let added = lemma_step_alike(scope, state, a, b, items, outcomes);
        match parse_step(scope, state, a, items, outcomes) {
            ParseStep::Next { state: s, nodes: n, items: i, outcomes: o } => {
                law_nodes_alike(scope, s, n, b + added, i, o);
                let x = parse_items(scope, s, n, i, o);
                let y = parse_items(scope, s, b + added, i, o);
                if x is Tree {
                    lemma_behind(a, added, x->Tree_0);
                    lemma_behind(b, added, y->Tree_0);
                }
            },
            ParseStep::Done(_) => {},
        }
    }
}

/// What stands behind the first nodes of a tree.
proof fn lemma_behind<F>(
    nodes: Seq<NodeSpec<F>>,
    added: Seq<NodeSpec<F>>,
    tree: Seq<NodeSpec<F>>,
)
    requires
        (nodes + added).is_prefix_of(tree),
    ensures
        nodes.is_prefix_of(tree),
        tree.skip(nodes.len() as int) == added + tree.skip((nodes + added).len() as int),
{
    let front = nodes + added;
    assert forall|i: int| 0 <= i < front.len() implies tree[i] == #[trigger] front[i] by {
        assert(tree.subrange(0, front.len() as int)[i] == tree[i]);
    }
    assert(nodes =~= tree.subrange(0, nodes.len() as int)) by {
        assert forall|i: int| 0 <= i < nodes.len() implies nodes[i] == tree[i] by {
            assert(front[i] == nodes[i]);
        }
    }
    assert(tree.skip(nodes.len() as int) =~= added + tree.skip(front.len() as int)) by {
        assert forall|i: int| 0 <= i < added.len() implies tree[nodes.len() + i] == added[i] by {
            assert(front[nodes.len() + i] == added[i]);
        }
    }
}

/// Nodes that end alike have the same nodes added in a step.
proof fn lemma_step_alike<P: Function>(
    scope: Scope<P>,
    state: ParserState,
    a: Seq<NodeSpec<P::Output>>,
    b: Seq<NodeSpec<P::Output>>,
    items: Items,
    outcomes: Seq<Outcome<P::Output>>,
) -> (added: Seq<NodeSpec<P::Output>>)
    requires
        head(items) is Some,
        (a.len() > 0 && a.last() is Space) == (b.len() > 0 && b.last() is Space),
    ensures
        match parse_step(scope, state, a, items, outcomes) {
            ParseStep::Next { state: s, nodes: n, items: i, outcomes: o } => {
                let m = b + added;
                &&& n == a + added
                &&& (n.len() > 0 && n.last() is Space) == (m.len() > 0 && m.last() is Space)
                &&& parse_step(scope, state, b, items, outcomes) == (ParseStep::Next {
                    state: s,
                    nodes: m,
                    items: i,
                    outcomes: o,
                })
            },
            done => parse_step(scope, state, b, items, outcomes) == done,
        },
{
    let none = Seq::<NodeSpec<P::Output>>::empty();
    assert(a + none =~= a && b + none =~= b);
    match parse_step(scope, state, a, items, outcomes) {
        ParseStep::Next { state: s, nodes: n, items: i, outcomes: o } => {
            if n == a {
                none
            } else {
                let added = seq![n.last()];
                assert(a + added =~= a.push(n.last()));
                assert(b + added =~= b.push(n.last()));
                added
            }
        },
        ParseStep::Done(_) => none,
    }
}

/// Text in front of an invocation is kept: words and toggles, in their order and none
/// left out, stand in the tree in front of what the invocation comes to.
pub proof fn law_text_in_front<P: Function>(
    scope: Scope<P>,
    state: ParserState,
    nodes: Seq<NodeSpec<P::Output>>,
    text: Items,
    rest: Items,
    outcomes: Seq<Outcome<P::Output>>,
) -> (written: Seq<NodeSpec<P::Output>>)
    requires
        !(state is Function),
        forall|i: int| 0 <= i < text.len() ==> is_text(#[trigger] text[i]),
    ensures
        nodes.is_prefix_of(written),
        solid(written) == solid(nodes) + text_nodes(text),
        goes_on(
            scope,
            (state, nodes, text + (seq![Some(TokenSpec::LeftBracket)] + rest)),
            (ParserState::Function, written, rest),
            text.len() + 1,
            outcomes,
        ),
    decreases text.len(), rank(state),
{
    let open = seq![Some(TokenSpec::LeftBracket)] + rest;
    let items = text + open;
    lemma_solid_push(nodes, NodeSpec::Space);
    lemma_solid_push(nodes, NodeSpec::Newline);
    if text.len() == 0 {
        assert(items =~= open);
        assert(solid(nodes) + text_nodes::<P::Output>(text) =~= solid(nodes));
        assert(after_reads(items, 1) =~= rest);
        law_brackets_in_text(scope, nodes, rest, outcomes);
        if state is Body {
            nodes
        } else {
            law_newlines_left(scope, nodes, items, outcomes);
            law_brackets_in_text(scope, with_space(nodes), rest, outcomes);
            if state is FirstNewline {
                with_space(nodes)
            } else {
                nodes
            }
        }
    } else {
        let tail = text.drop_first();
        let behind = tail + open;
        assert(is_text(text[0]));
        assert(items[0] == text[0]);
        assert forall|i: int| 0 <= i < tail.len() implies is_text(#[trigger] tail[i]) by {
            assert(tail[i] == text[i + 1]);
        }
        assert(after_reads(items, 1) =~= behind);
        match parse_step(scope, state, nodes, items, outcomes) {
            ParseStep::Next { state: s, nodes: n, items: i, outcomes: o } => {
                if i == items {
                    let written = law_text_in_front(scope, s, n, text, rest, outcomes);
                    assert(nodes =~= written.take(nodes.len() as int));
                    written
                } else {
                    if text_node::<P::Output>(text[0]).len() > 0 {
                        lemma_solid_push(nodes, text_node::<P::Output>(text[0])[0]);
                    }
                    let written = law_text_in_front(scope, s, n, tail, rest, outcomes);
                    assert(nodes =~= written.take(nodes.len() as int));
                    assert(solid(n) =~= solid(nodes) + text_node::<P::Output>(text[0]));
                    assert(solid(nodes) + text_node::<P::Output>(text[0]) + text_nodes::<
                        P::Output,
                    >(tail) =~= solid(nodes) + (text_node::<P::Output>(text[0]) + text_nodes::<
                        P::Output,
                    >(tail)));
                    written
                }
            },
            ParseStep::Done(_) => nodes,
        }
    }
}

/// A result is what parsing comes to if it is that tree, or an error with that
/// message, and nothing else. No result is one where a token of a header stands in
/// the text, and only there.
pub proof fn law_results<F>(
    tree: SyntaxTree<F>,
    error: ParseError,
    result: ParseResult<SyntaxTree<F>>,
    parsed: Parsed<F>,
)
    ensures
        is_result(Ok(tree), parsed) == (parsed == Parsed::Tree(tree@)),
        is_result(Err::<SyntaxTree<F>, ParseError>(error), parsed) == (parsed
            == Parsed::<F>::Error(error@)),
        is_tried(Some(result), parsed) == is_result(result, parsed),
        is_tried(None::<ParseResult<SyntaxTree<F>>>, parsed) == (parsed == Parsed::<
            F,
        >::HeaderToken),
{
}

/// What a parser parses is what its stream gives.
pub proof fn law_parser_items<'p, 'a, 's, P: Function>(parser: Parser<'p, 'a, 's, P>)
    ensures
        parser.items() == parser.stream().items(),
{
}

/// No token of a header stands in the text if none is met there, whatever the invoked
/// functions do, and only then.
pub proof fn law_no_header_token<P: Function>(
    scope: Scope<P>,
    state: ParserState,
    nodes: Seq<NodeSpec<P::Output>>,
    items: Items,
    outcomes: Seq<Outcome<P::Output>>,
)
    ensures
        no_header_token(scope, state, nodes, items) ==> parse_items(
            scope,
            state,
            nodes,
            items,
            outcomes,
        ) != Parsed::<P::Output>::HeaderToken,
        !no_header_token(scope, state, nodes, items) ==> exists|o: Seq<Outcome<P::Output>>|
            #[trigger] parse_items(scope, state, nodes, items, o) == Parsed::<
                P::Output,
            >::HeaderToken,
{
}

}
