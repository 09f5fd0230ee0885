//! Parsing of tokens into syntax trees.

use crate::func::{Function, Scope};
use crate::stream::{
    after_reads, body_items, head, left_brackets, lemma_after, lemma_after_adds, lemma_after_body,
    lemma_after_read, lemma_after_reads, lemma_left_brackets, runs_out, FuncTokens, IntoTokens,
    Items, Lookahead, StreamSpec, TokenStream,
};
use crate::syntax::{
    bare_header, FuncCall, FuncHeader, Ident, Node, NodeSpec, SyntaxTree, Token, TokenSpec,
};
use crate::text::is_identifier;
use vstd::prelude::*;
use vstd::string::*;

verus! {

/// The error type for parsing.
#[derive(Debug, PartialEq, Eq)]
pub struct ParseError {
    message: String,
}

impl View for ParseError {
    type V = Seq<char>;

    closed spec fn view(&self) -> Seq<char> {
        self.message@
    }
}

impl ParseError {
    /// Create an error with a message.
    pub fn new(message: &str) -> (error: ParseError)
        ensures
            error@ == message@,
    {
        ParseError { message: message.to_owned() }
    }

    /// What went wrong.
    pub fn message(&self) -> (message: &str)
        ensures
            message@ == self@,
    {
        self.message.as_str()
    }
}

/// The result type for parsing.
pub type ParseResult<T> = Result<T, ParseError>;

/// The state the parser is in.
#[derive(Debug, Copy, Clone, PartialEq, Eq)]
pub enum ParserState {
    /// The base state of the parser.
    Body,
    /// We saw one newline already.
    FirstNewline,
    /// We wrote a newline.
    WroteNewline,
    /// Inside a function header.
    Function,
}

/// What a function did with an invocation: what it returned, and how often it
/// read from the body.
pub struct Outcome<F> {
    pub result: ParseResult<F>,
    pub reads: nat,
}

/// What parsing comes to.
pub enum Parsed<F> {
    /// A syntax tree.
    Tree(Seq<NodeSpec<F>>),
    /// An error with a message.
    Error(Seq<char>),
    /// A token of a function header stands in the text.
    HeaderToken,
    /// The invoked functions cannot have acted as they are said to have.
    Impossible,
}

/// The step of the parser at a token.
pub enum ParseStep<F> {
    /// Parsing goes on.
    Next {
        state: ParserState,
        nodes: Seq<NodeSpec<F>>,
        items: Items,
        outcomes: Seq<Outcome<F>>,
    },
    /// Parsing ends.
    Done(Parsed<F>),
}

/// The nodes with a space behind them.
pub open spec fn with_space<F>(nodes: Seq<NodeSpec<F>>) -> Seq<NodeSpec<F>> {
    if nodes.len() > 0 && nodes.last() is Space {
        nodes
    } else {
        nodes.push(NodeSpec::Space)
    }
}

/// The number of tokens in front for which `keep` holds.
pub open spec fn run_length(items: Items, keep: spec_fn(TokenSpec) -> bool) -> nat
    decreases items.len(),
{
    if items.len() > 0 && items[0] is Some && keep(items[0]->0) {
        1 + run_length(items.drop_first(), keep)
    } else {
        0
    }
}

/// The number of tokens of a comment. The newline that ends it belongs to it; a
/// comment that no newline ends goes on to where the tokens end.
pub open spec fn comment_reads(items: Items) -> nat {
    let length = run_length(items, |token: TokenSpec| !(token is Newline));
    if head(after_reads(items, length)) is Some {
        length + 1
    } else {
        length
    }
}

/// The items behind a comment.
pub open spec fn after_comment(items: Items) -> Items {
    after_reads(items, comment_reads(items))
}

/// The step of the parser behind the left bracket of a function header.
pub open spec fn call_step<P: Function>(
    scope: Scope<P>,
    nodes: Seq<NodeSpec<P::Output>>,
    items: Items,
    outcomes: Seq<Outcome<P::Output>>,
) -> ParseStep<P::Output> {
    match items[0] {
        Some(TokenSpec::Word(name)) => {
            let header = bare_header(name);
            let behind = after_reads(items, 2);
            let has_body = head(behind) == Some(TokenSpec::LeftBracket);
            let inside = after_reads(behind, 1);
            let body = if has_body {
                Some(body_items(inside, 0))
            } else {
                None
            };
            if !is_identifier(name) {
                ParseStep::Done(Parsed::Error("invalid identifier"@))
            } else if head(after_reads(items, 1)) != Some(TokenSpec::RightBracket) {
                ParseStep::Done(Parsed::Error("expected closing bracket"@))
            } else if !scope@.dom().contains(name) {
                ParseStep::Done(Parsed::Error("unknown function: '"@ + name + "'"@))
            } else if outcomes.len() == 0 || !scope@[name].may_return(
                header,
                body,
                scope,
                outcomes[0].result,
                outcomes[0].reads,
            ) || (!has_body && outcomes[0].reads != 0) {
                ParseStep::Done(Parsed::Impossible)
            } else {
                match outcomes[0].result {
                    Err(error) => ParseStep::Done(Parsed::Error(error@)),
                    Ok(output) => if has_body && runs_out(inside, outcomes[0].reads) {
                        ParseStep::Done(Parsed::Error("expected closing bracket"@))
                    } else {
                        ParseStep::Next {
                            state: ParserState::Body,
                            nodes: nodes.push(NodeSpec::Func(header, output)),
                            items: if has_body {
                                after_reads(inside, outcomes[0].reads)
                            } else {
                                behind
                            },
                            outcomes: outcomes.drop_first(),
                        }
                    },
                }
            }
        },
        _ => ParseStep::Done(Parsed::Error("expected identifier"@)),
    }
}

/// The step of the parser in the state `state`, with the nodes `nodes` written,
/// at a token.
pub open spec fn parse_step<P: Function>(
    scope: Scope<P>,
    state: ParserState,
    nodes: Seq<NodeSpec<P::Output>>,
    items: Items,
    outcomes: Seq<Outcome<P::Output>>,
) -> ParseStep<P::Output> {
    let token = items[0]->0;
    let behind = after_reads(items, 1);
    let write = |node: NodeSpec<P::Output>|
        ParseStep::Next { state, nodes: nodes.push(node), items: behind, outcomes };
    match (state, token) {
        // Comments leave no trace
        (_, TokenSpec::Hashtag) => ParseStep::Next {
            state,
            nodes,
            items: after_comment(items),
            outcomes,
        },
        (ParserState::FirstNewline, TokenSpec::Newline) => ParseStep::Next {
            state: ParserState::WroteNewline,
            nodes: nodes.push(NodeSpec::Newline),
            items: behind,
            outcomes,
        },
        (ParserState::FirstNewline, TokenSpec::Space) => ParseStep::Next {
            state,
            nodes: with_space(nodes),
            items: behind,
            outcomes,
        },
        (ParserState::FirstNewline, _) => ParseStep::Next {
            state: ParserState::Body,
            nodes: with_space(nodes),
            items,
            outcomes,
        },
        (ParserState::WroteNewline, TokenSpec::Newline | TokenSpec::Space) => ParseStep::Next {
            state,
            nodes: with_space(nodes),
            items: behind,
            outcomes,
        },
        (ParserState::WroteNewline, _) => ParseStep::Next {
            state: ParserState::Body,
            nodes,
            items,
            outcomes,
        },
        (ParserState::Body, TokenSpec::Space) => ParseStep::Next {
            state,
            nodes: with_space(nodes),
            items: behind,
            outcomes,
        },
        (ParserState::Body, TokenSpec::Newline) => ParseStep::Next {
            state: ParserState::FirstNewline,
            nodes,
            items: behind,
            outcomes,
        },
        (ParserState::Body, TokenSpec::Word(word)) => write(NodeSpec::Word(word)),
        (ParserState::Body, TokenSpec::LeftBracket) => ParseStep::Next {
            state: ParserState::Function,
            nodes,
            items: behind,
            outcomes,
        },
        (ParserState::Body, TokenSpec::RightBracket) => ParseStep::Done(
            Parsed::Error("unexpected closing bracket"@),
        ),
        (ParserState::Body, TokenSpec::DoubleUnderscore) => write(NodeSpec::ToggleItalics),
        (ParserState::Body, TokenSpec::DoubleStar) => write(NodeSpec::ToggleBold),
        (ParserState::Body, TokenSpec::Dollar) => write(NodeSpec::ToggleMath),
        (ParserState::Body, TokenSpec::Colon | TokenSpec::Equals) => ParseStep::Done(
            Parsed::HeaderToken,
        ),
        (ParserState::Function, _) => call_step(scope, nodes, items, outcomes),
    }
}

/// A comment has a token.
pub proof fn lemma_comment_reads(items: Items)
    requires
        head(items) == Some(TokenSpec::Hashtag),
    ensures
        comment_reads(items) > 0,
{
}

/// What parsing the items comes to, where the functions that are invoked act as
/// `outcomes` says, one outcome for each invocation.
pub open spec fn parse_items<P: Function>(
    scope: Scope<P>,
    state: ParserState,
    nodes: Seq<NodeSpec<P::Output>>,
    items: Items,
    outcomes: Seq<Outcome<P::Output>>,
) -> Parsed<P::Output>
    decreases
            items.len(),
            if state is FirstNewline || state is WroteNewline {
                1int
            } else {
                0
            },
{
    if head(items) is None {
        Parsed::Tree(nodes)
    } else {
        proof {
            if items[0]->0 is Hashtag {
                lemma_comment_reads(items);
            }
        }
        match parse_step(scope, state, nodes, items, outcomes) {
            ParseStep::Done(parsed) => parsed,
            ParseStep::Next { state, nodes, items, outcomes } => parse_items(
                scope,
                state,
                nodes,
                items,
                outcomes,
            ),
        }
    }
}

/// How often a function invocation is read behind its left bracket. Where parsing
/// ends, the item that was looked at last counts as read.
pub open spec fn call_reads<P: Function>(
    scope: Scope<P>,
    items: Items,
    outcomes: Seq<Outcome<P::Output>>,
) -> nat {
    match items[0] {
        Some(TokenSpec::Word(name)) => if !is_identifier(name) {
            1
        } else if head(after_reads(items, 1)) != Some(TokenSpec::RightBracket) {
            2
        } else if !scope@.dom().contains(name) {
            3
        } else if head(after_reads(items, 2)) == Some(TokenSpec::LeftBracket) {
            3 + outcomes[0].reads
        } else if outcomes[0].result is Ok {
            2
        } else {
            3
        },
        _ => 1,
    }
}

/// How often the items are read in the step at a token. Where parsing ends, the
/// item that was looked at last counts as read.
pub open spec fn step_reads<P: Function>(
    scope: Scope<P>,
    state: ParserState,
    items: Items,
    outcomes: Seq<Outcome<P::Output>>,
) -> nat {
    let token = items[0]->0;
    if token is Hashtag {
        comment_reads(items)
    } else if state is Function {
        call_reads(scope, items, outcomes)
    } else if state is Body || token is Space || token is Newline {
        1
    } else {
        0
    }
}

/// How often the items are read until parsing ends, where the functions that are
/// invoked act as `outcomes` says. The item at which it ends counts as read.
pub open spec fn parse_reads<P: Function>(
    scope: Scope<P>,
    state: ParserState,
    nodes: Seq<NodeSpec<P::Output>>,
    items: Items,
    outcomes: Seq<Outcome<P::Output>>,
) -> nat
    decreases
            items.len(),
            if state is FirstNewline || state is WroteNewline {
                1int
            } else {
                0
            },
{
    if head(items) is None {
        1
    } else {
        proof {
            if items[0]->0 is Hashtag {
                lemma_comment_reads(items);
            }
        }
        let reads = step_reads(scope, state, items, outcomes);
        match parse_step(scope, state, nodes, items, outcomes) {
            ParseStep::Done(_) => reads,
            ParseStep::Next { state, nodes, items, outcomes } => reads + parse_reads(
                scope,
                state,
                nodes,
                items,
                outcomes,
            ),
        }
    }
}

/// Whether no token of a function header stands in the text, whatever the
/// functions that are invoked do.
pub open spec fn no_header_token<P: Function>(
    scope: Scope<P>,
    state: ParserState,
    nodes: Seq<NodeSpec<P::Output>>,
    items: Items,
) -> bool {
    forall|outcomes: Seq<Outcome<P::Output>>|
        !(#[trigger] parse_items(scope, state, nodes, items, outcomes) is HeaderToken)
}

/// Whether the result is what parsing comes to.
pub open spec fn is_result<F>(result: ParseResult<SyntaxTree<F>>, parsed: Parsed<F>) -> bool {
    match result {
        Ok(tree) => parsed == Parsed::Tree(tree@),
        Err(error) => parsed == Parsed::<F>::Error(error@),
    }
}

/// Whether the result is what parsing comes to, with none where a token of a
/// function header stands in the text.
pub open spec fn is_tried<F>(
    result: Option<ParseResult<SyntaxTree<F>>>,
    parsed: Parsed<F>,
) -> bool {
    match result {
        Some(result) => is_result(result, parsed),
        None => parsed is HeaderToken,
    }
}

/// An owned or shared scope.
enum ParserScope<'a, P> {
    Owned(Scope<P>),
    Shared(&'a Scope<P>),
}

impl<'a, P> ParserScope<'a, P> {
    /// The scope.
    spec fn scope(&self) -> Scope<P> {
        match *self {
            ParserScope::Owned(scope) => scope,
            ParserScope::Shared(scope) => *scope,
        }
    }

    /// The scope.
    fn deref(&self) -> (scope: &Scope<P>)
        ensures
            *scope == self.scope(),
    {
        match self {
            ParserScope::Owned(scope) => scope,
            ParserScope::Shared(scope) => scope,
        }
    }
}

/// Transforms token streams to syntax trees.
pub struct Parser<'p, 'a, 's, P: Function> {
    tokens: Lookahead<'a, 's>,
    scope: ParserScope<'p, P>,
    state: ParserState,
    tree: SyntaxTree<P::Output>,
}

impl<'p, 'a, 's, P: Function> Parser<'p, 'a, 's, P> {
    /// Whether the parser is in a valid state.
    pub closed spec fn wf(&self) -> bool {
        &&& self.tokens.wf()
        &&& left_brackets(self.tokens.stream().items()) <= usize::MAX
    }

    /// The stream that the tokens come from.
    pub closed spec fn stream(&self) -> StreamSpec {
        self.tokens.stream()
    }

    /// What the tokens still give.
    pub open spec fn items(&self) -> Items {
        self.stream().items()
    }

    /// What the stream has been read to, with the look ahead.
    spec fn reached(&self) -> StreamSpec {
        self.tokens.reached()
    }

    /// The functions that can be invoked.
    pub closed spec fn scope(&self) -> Scope<P> {
        self.scope.scope()
    }

    /// The state the parser is in.
    pub closed spec fn state(&self) -> ParserState {
        self.state
    }

    /// The nodes that were written.
    pub closed spec fn nodes(&self) -> Seq<NodeSpec<P::Output>> {
        self.tree@
    }

    /// Create a new parser without functions that can be invoked.
    pub fn new<T: IntoTokens<'a, 's>>(tokens: T) -> (parser: Parser<'p, 'a, 's, P>)
        requires
            tokens.wf(),
        ensures
            parser.wf(),
            parser.stream() == tokens.stream(),
            parser.scope()@ == Map::<Seq<char>, P>::empty(),
            parser.state() is Body,
            parser.nodes() == Seq::<NodeSpec<P::Output>>::empty(),
    {
        Parser::new_internal(ParserScope::Owned(Scope::new()), tokens)
    }

    /// Create a new parser with a scope containing function definitions.
    pub fn with_scope<T: IntoTokens<'a, 's>>(scope: &'p Scope<P>, tokens: T) -> (parser: Parser<
        'p,
        'a,
        's,
        P,
    >)
        requires
            tokens.wf(),
        ensures
            parser.wf(),
            parser.stream() == tokens.stream(),
            parser.scope() == *scope,
            parser.state() is Body,
            parser.nodes() == Seq::<NodeSpec<P::Output>>::empty(),
    {
        Parser::new_internal(ParserScope::Shared(scope), tokens)
    }

    /// Internal helper for construction.
    fn new_internal<T: IntoTokens<'a, 's>>(scope: ParserScope<'p, P>, tokens: T) -> (parser: Parser<
        'p,
        'a,
        's,
        P,
    >)
        requires
            tokens.wf(),
        ensures
            parser.wf(),
            parser.stream() == tokens.stream(),
            parser.scope() == scope.scope(),
            parser.state() is Body,
            parser.nodes() == Seq::<NodeSpec<P::Output>>::empty(),
    {
        Parser {
            tokens: Lookahead::new(tokens.into_tokens()),
            scope,
            state: ParserState::Body,
            tree: SyntaxTree::new(),
        }
    }

    /// Parse into a syntax tree.
    pub fn parse(self) -> (result: ParseResult<SyntaxTree<P::Output>>)
        requires
            self.wf(),
            no_header_token(self.scope(), self.state(), self.nodes(), self.items()),
        ensures
            exists|outcomes: Seq<Outcome<P::Output>>|
                is_result(
                    result,
                    #[trigger] parse_items(
                        self.scope(),
                        self.state(),
                        self.nodes(),
                        self.items(),
                        outcomes,
                    ),
                ),
    {
        match self.try_parse() {
            Some(result) => result,
            None => vstd::pervasive::unreached(),
        }
    }

    /// Parse into a syntax tree, or give up at a token of a function header that
    /// stands in the text.
    pub fn try_parse(self) -> (result: Option<ParseResult<SyntaxTree<P::Output>>>)
        requires
            self.wf(),
        ensures
            exists|outcomes: Seq<Outcome<P::Output>>|
                is_tried(
                    result,
                    #[trigger] parse_items(
                        self.scope(),
                        self.state(),
                        self.nodes(),
                        self.items(),
                        outcomes,
                    ),
                ),
    {
        let (result, _) = self.run();
        result
    }

    /// Whether parsing ends with the result, and with the stream read to `reached`,
    /// where the invoked functions act as `outcomes` says.
    spec fn ends_with(
        self,
        result: Option<ParseResult<SyntaxTree<P::Output>>>,
        reached: StreamSpec,
        outcomes: Seq<Outcome<P::Output>>,
    ) -> bool {
        &&& is_tried(
            result,
            parse_items(self.scope(), self.state(), self.nodes(), self.items(), outcomes),
        )
        &&& reached == self.stream().after(
            parse_reads(self.scope(), self.state(), self.nodes(), self.items(), outcomes),
        )
    }

    /// Whether parsing goes on from here as it does from `next`, which is `reads`
    /// reads further on, once the invoked functions have acted as `past` says.
    spec fn leads_to(
        self,
        next: Self,
        past: Seq<Outcome<P::Output>>,
        reads: nat,
    ) -> bool {
        &&& next.scope() == self.scope()
        &&& next.stream() == self.stream().after(reads)
        &&& forall|future: Seq<Outcome<P::Output>>|
            {
                &&& #[trigger] parse_items(
                    self.scope(),
                    self.state(),
                    self.nodes(),
                    self.items(),
                    past + future,
                ) == parse_items(next.scope(), next.state(), next.nodes(), next.items(), future)
                &&& parse_reads(
                    self.scope(),
                    self.state(),
                    self.nodes(),
                    self.items(),
                    past + future,
                ) == reads + parse_reads(
                    next.scope(),
                    next.state(),
                    next.nodes(),
                    next.items(),
                    future,
                )
            }
    }

    /// Parsing that leads somewhere ends as it does from there.
    proof fn lemma_ends(
        self,
        next: Self,
        past: Seq<Outcome<P::Output>>,
        reads: nat,
        result: Option<ParseResult<SyntaxTree<P::Output>>>,
        reached: StreamSpec,
        outcomes: Seq<Outcome<P::Output>>,
    )
        requires
            self.leads_to(next, past, reads),
            next.ends_with(result, reached, outcomes),
        ensures
            self.ends_with(result, reached, past + outcomes),
    {
        assert(parse_items(
            self.scope(),
            self.state(),
            self.nodes(),
            self.items(),
            past + outcomes,
        ) == parse_items(next.scope(), next.state(), next.nodes(), next.items(), outcomes));
        lemma_after_adds(
            self.stream(),
            reads,
            parse_reads(next.scope(), next.state(), next.nodes(), next.items(), outcomes),
        );
    }

    /// A step on from where parsing leads to.
    proof fn lemma_leads(
        self,
        middle: Self,
        next: Self,
        past: Seq<Outcome<P::Output>>,
        outcomes: Seq<Outcome<P::Output>>,
        reads: nat,
        more: nat,
    )
        requires
            self.leads_to(middle, past, reads),
            middle.steps_to(next, outcomes, more),
        ensures
            self.leads_to(next, past + outcomes, reads + more),
    {
        lemma_after_adds(self.stream(), reads, more);
        assert forall|future: Seq<Outcome<P::Output>>|
            {
                &&& #[trigger] parse_items(
                    self.scope(),
                    self.state(),
                    self.nodes(),
                    self.items(),
                    past + outcomes + future,
                ) == parse_items(next.scope(), next.state(), next.nodes(), next.items(), future)
                &&& parse_reads(
                    self.scope(),
                    self.state(),
                    self.nodes(),
                    self.items(),
                    past + outcomes + future,
                ) == reads + more + parse_reads(
                    next.scope(),
                    next.state(),
                    next.nodes(),
                    next.items(),
                    future,
                )
            } by {
            assert(past + outcomes + future =~= past + (outcomes + future));
            assert(parse_step(
                middle.scope(),
                middle.state(),
                middle.nodes(),
                middle.items(),
                outcomes + future,
            ) == next.as_step(future));
        }
    }

    /// The step of a parser that goes on here.
    spec fn as_step(self, outcomes: Seq<Outcome<P::Output>>) -> ParseStep<P::Output> {
        ParseStep::Next {
            state: self.state(),
            nodes: self.nodes(),
            items: self.items(),
            outcomes,
        }
    }

    /// Whether the step that is due goes on as `next`, `reads` reads further on,
    /// where the functions that are invoked in it act as `outcomes` says.
    spec fn steps_to(self, next: Self, outcomes: Seq<Outcome<P::Output>>, reads: nat) -> bool {
        &&& head(self.items()) is Some
        &&& next.scope() == self.scope()
        &&& next.stream() == self.stream().after(reads)
        &&& forall|future: Seq<Outcome<P::Output>>|
            {
                &&& #[trigger] parse_step(
                    self.scope(),
                    self.state(),
                    self.nodes(),
                    self.items(),
                    outcomes + future,
                ) == next.as_step(future)
                &&& step_reads(self.scope(), self.state(), self.items(), outcomes + future) == reads
            }
    }

    /// Parse to the end, and give back the tokens as far as they were read.
    fn run(self) -> (ran: (
        Option<ParseResult<SyntaxTree<P::Output>>>,
        Lookahead<'a, 's>,
    ))
        requires
            self.wf(),
        ensures
            ran.1.wf(),
            exists|outcomes: Seq<Outcome<P::Output>>|
                self.ends_with(ran.0, ran.1.reached(), outcomes),
    {
        let mut this = self;
        let ghost none = Seq::<Outcome<P::Output>>::empty();
        let ghost mut past: Seq<Outcome<P::Output>> = none;
        let ghost mut count: nat = 0;
        proof {
            assert forall|future: Seq<Outcome<P::Output>>| #[trigger] (past + future) == future by {
                assert(past + future =~= future);
            }
        }
        loop
            invariant
                this.wf(),
                none == Seq::<Outcome<P::Output>>::empty(),
                self.leads_to(this, past, count),
            decreases
                    this.items().len(),
                    if this.state() is FirstNewline || this.state() is WroteNewline {
                        1int
                    } else {
                        0
                    },
        {
            let ghost before = this;
            let ghost items = this.items();
            let token: Token<'s> = match this.tokens.peek() {
                Some(token) => token,
                None => {
                    let ran = (Some(Ok(this.tree)), this.tokens);
                    proof {
                        before.lemma_read_once();
                        self.lemma_ends(before, past, count, ran.0, ran.1.reached(), none);
                    }
                    return ran;
                },
            };
            proof {
                before.lemma_read_once();
            }

            // Skip over comments.
            if let Token::Hashtag = token {
                let ghost keep = |token: TokenSpec| !(token is Newline);
                let f = |token: &Token<'s>| -> (b: bool)
                    ensures
                        b == !(token@ is Newline),
                    {
                        match token {
                            Token::Newline => false,
                            _ => true,
                        }
                    };
                this.skip_while(f, Ghost(keep));
                let ghost length = run_length(items, keep);
                proof {
                    lemma_after(before.stream(), length);
                    lemma_after_reads(items, length, 1);
                    lemma_after_adds(before.stream(), length, 1);
                    assert(this.stream().after(1) == this.stream().after_read().after(0));
                    lemma_comment_reads(items);
                }
                if this.tokens.peek().is_some() {
                    this.advance();
                }
                proof {
                    assert(this.stream() == before.stream().after(comment_reads(items)));
                    assert(this.items() == after_comment(items));
                    self.lemma_step(before, this, past, count);
                    count = count + comment_reads(items);
                }
                continue;
            }

            // Handles all the states.
            match this.state {
                ParserState::FirstNewline => match token {
                    Token::Newline => {
                        this.append_consumed(Node::Newline);
                        this.switch(ParserState::WroteNewline);
                    },
                    Token::Space => this.append_space_consumed(),
                    _ => {
                        this.append_space();
                        this.switch(ParserState::Body);
                    },
                },
                ParserState::WroteNewline => match token {
                    Token::Newline | Token::Space => this.append_space_consumed(),
                    _ => this.switch(ParserState::Body),
                },
                ParserState::Body => match token {
                    // Whitespace
                    Token::Space => this.append_space_consumed(),
                    Token::Newline => this.switch_consumed(ParserState::FirstNewline),
                    // Words
                    Token::Word(word) => this.append_consumed(Node::Word(word.to_owned())),
                    // Functions
                    Token::LeftBracket => this.switch_consumed(ParserState::Function),
                    Token::RightBracket => {
                        let error = ParseError::new("unexpected closing bracket");
                        let ran = (Some(Err(error)), this.tokens);
                        proof {
                            self.lemma_ends(before, past, count, ran.0, ran.1.reached(), none);
                        }
                        return ran;
                    },
                    // Modifiers
                    Token::DoubleUnderscore => this.append_consumed(Node::ToggleItalics),
                    Token::DoubleStar => this.append_consumed(Node::ToggleBold),
                    Token::Dollar => this.append_consumed(Node::ToggleMath),
                    // Should not happen
                    Token::Colon | Token::Equals | Token::Hashtag => {
                        let ran = (None, this.tokens);
                        proof {
                            self.lemma_ends(before, past, count, ran.0, ran.1.reached(), none);
                        }
                        return ran;
                    },
                },
                ParserState::Function => {
                    let word: &'s str = match token {
                        Token::Word(word) => word,
                        _ => {
                            let ran = (
                                Some(Err(ParseError::new("expected identifier"))),
                                this.tokens,
                            );
                            proof {
                                self.lemma_ends(before, past, count, ran.0, ran.1.reached(), none);
                            }
                            return ran;
                        },
                    };
                    let ghost here = this;
                    let (result, next) = this.parse_call(word);
                    match result {
                        Ok(()) => {
                            this = next;
                            proof {
                                let (outcomes, reads) = choose|
                                    outcomes: Seq<Outcome<P::Output>>,
                                    reads: nat,
                                |
                                    here.steps_to(this, outcomes, reads);
                                assert(before.steps_to(this, outcomes, reads));
                                self.lemma_leads(before, this, past, outcomes, count, reads);
                                past = past + outcomes;
                                count = count + reads;
                            }
                            continue;
                        },
                        Err(error) => {
                            let ran = (Some(Err(error)), next.tokens);
                            proof {
                                let outcomes = choose|outcomes: Seq<Outcome<P::Output>>|
                                    here.fails_with(error@, next.reached(), outcomes);
                                assert(before.ends_with(ran.0, ran.1.reached(), outcomes));
                                self.lemma_ends(
                                    before,
                                    past,
                                    count,
                                    ran.0,
                                    ran.1.reached(),
                                    outcomes,
                                );
                            }
                            return ran;
                        },
                    }
                },
            }
            proof {
                self.lemma_step(before, this, past, count);
                count = count + step_reads(before.scope(), before.state(), items, none);
            }
        }
    }

    /// A step on, without an invocation, from where parsing leads to.
    proof fn lemma_step(
        self,
        before: Self,
        next: Self,
        past: Seq<Outcome<P::Output>>,
        count: nat,
    )
        requires
            self.leads_to(before, past, count),
            head(before.items()) is Some,
            next.scope() == before.scope(),
            before.state() is Function ==> before.items()[0]->0 is Hashtag,
            ({
                let none = Seq::<Outcome<P::Output>>::empty();
                &&& next.stream() == before.stream().after(
                    step_reads(before.scope(), before.state(), before.items(), none),
                )
                &&& parse_step(
                    before.scope(),
                    before.state(),
                    before.nodes(),
                    before.items(),
                    none,
                ) == next.as_step(none)
            }),
        ensures
            self.leads_to(
                next,
                past,
                count + step_reads(before.scope(), before.state(), before.items(), Seq::empty()),
            ),
    {
        let none = Seq::<Outcome<P::Output>>::empty();
        let items = before.items();
        let reads = step_reads(before.scope(), before.state(), items, none);
        assert forall|future: Seq<Outcome<P::Output>>|
            {
                &&& #[trigger] parse_step(
                    before.scope(),
                    before.state(),
                    before.nodes(),
                    items,
                    none + future,
                ) == next.as_step(future)
                &&& step_reads(before.scope(), before.state(), items, none + future) == reads
            } by {
            assert(none + future =~= future);
        }
        assert(before.steps_to(next, none, reads));
        self.lemma_leads(before, next, past, none, count, reads);
        assert(past + none =~= past);
    }

    /// One read is a read.
    proof fn lemma_read_once(self)
        ensures
            self.stream().after(1) == self.stream().after_read(),
            self.stream().after_read().items() == after_reads(self.items(), 1),
            self.stream().after(0) == self.stream(),
    {
        lemma_after_read(self.stream());
        assert(self.stream().after(1) == self.stream().after_read().after(0));
    }

    /// Whether a function invocation that stands here fails with the message, and
    /// with the stream read to `reached`, where the invoked functions act as
    /// `outcomes` says.
    spec fn fails_with(
        self,
        message: Seq<char>,
        reached: StreamSpec,
        outcomes: Seq<Outcome<P::Output>>,
    ) -> bool {
        &&& call_step(self.scope(), self.nodes(), self.items(), outcomes) == ParseStep::Done(
            Parsed::<P::Output>::Error(message),
        )
        &&& reached == self.stream().after(call_reads(self.scope(), self.items(), outcomes))
    }

    /// Parse a function invocation, behind its left bracket.
    fn parse_call(self, word: &'s str) -> (called: (ParseResult<()>, Parser<'p, 'a, 's, P>))
        requires
            self.wf(),
            self.state() is Function,
            head(self.items()) == Some(TokenSpec::Word(word@)),
            self.reached() == self.stream().after(1),
        ensures
            called.1.wf(),
            match called.0 {
                Ok(_) => exists|outcomes: Seq<Outcome<P::Output>>, reads: nat|
                    self.steps_to(called.1, outcomes, reads) && called.1.items().len()
                        < self.items().len(),
                Err(error) => exists|outcomes: Seq<Outcome<P::Output>>|
                    self.fails_with(error@, called.1.reached(), outcomes),
            },
    {
        let ghost none = Seq::<Outcome<P::Output>>::empty();
        let ghost items = self.items();
        let ghost stream = self.stream();
        let mut this = self;
        let name: Ident = match Ident::new(word) {
            Some(ident) => ident,
            None => {
                let called = (Err(ParseError::new("invalid identifier")), this);
                assert(self.fails_with(called.0->Err_0@, called.1.reached(), none));
                return called;
            },
        };
        this.advance();

        // Expect the header closing bracket.
        let closing = this.tokens.peek();
        this.advance();
        proof {
            reveal_with_fuel(StreamSpec::after, 4);
            lemma_after_reads(items, 1, 1);
            lemma_after_reads(items, 2, 1);
            lemma_after(stream, 2);
            lemma_after(stream, 3);
            assert(this.stream() == stream.after(2));
        }
        match closing {
            Some(Token::RightBracket) => {},
            _ => {
                let called = (Err(ParseError::new("expected closing bracket")), this);
                assert(self.fails_with(called.0->Err_0@, called.1.reached(), none));
                return called;
            },
        }

        // Store the header information of the function invocation.
        let header: FuncHeader = FuncHeader::bare(name.clone());

        // Whether this function has a body.
        let has_body: bool = match this.tokens.peek() {
            Some(Token::LeftBracket) => true,
            _ => false,
        };
        if has_body {
            this.advance();
        }
        let ghost inside = this.items();
        assert(this.reached() == stream.after(3));

        // Run the function over the tokens.
        let Parser { tokens, scope, state, tree } = this;
        let functions: &Scope<P> = scope.deref();
        match functions.get_parser(&name) {
            None => {
                let mut message: String = "unknown function: '".to_owned();
                message.append(name.as_str());
                message.append("'");
                let this = Parser { tokens, scope, state, tree };
                let called = (Err(ParseError::new(message.as_str())), this);
                assert(self.fails_with(called.0->Err_0@, called.1.reached(), none));
                called
            },
            Some(function) => {
                if has_body {
                    let mut body = FuncTokens::new(tokens);
                    let ghost opened = body;
                    let result = function.parse(&header, Some(&mut body), functions);
                    let ghost reads = choose|reads: nat|
                        {
                            &&& #[trigger] function.may_return(
                                header@,
                                Some(opened.items()),
                                *functions,
                                result,
                                reads,
                            )
                            &&& body.is_after(&opened, reads)
                        };
                    proof {
                        lemma_after_body(stream.after(3), 0, false, reads);
                        lemma_after(stream.after(3), reads);
                        lemma_after_adds(stream, 3, reads);
                    }
                    let unexpected_end: bool = body.unexpected_end();
                    let tokens = body.into_inner();
                    proof {
                        tokens.lemma_settled();
                        lemma_left_brackets(inside, reads);
                        lemma_called(Outcome { result, reads });
                    }
                    let this = Parser { tokens, scope, state, tree };
                    let called = this.finish_call(header, result, unexpected_end);
                    proof {
                        let outcomes = seq![Outcome { result, reads }];
                        if called.0 is Ok {
                            assert(self.steps_to(called.1, outcomes, 3 + reads));
                        } else {
                            assert(self.fails_with(
                                called.0->Err_0@,
                                called.1.reached(),
                                outcomes,
                            ));
                        }
                    }
                    called
                } else {
                    let result = function.parse(&header, None, functions);
                    proof {
                        lemma_called(Outcome { result, reads: 0 });
                    }
                    let this = Parser { tokens, scope, state, tree };
                    let called = this.finish_call(header, result, false);
                    proof {
                        let outcomes = seq![Outcome { result, reads: 0 }];
                        if called.0 is Ok {
                            assert(self.steps_to(called.1, outcomes, 2));
                        } else {
                            assert(self.fails_with(
                                called.0->Err_0@,
                                called.1.reached(),
                                outcomes,
                            ));
                        }
                    }
                    called
                }
            },
        }
    }

    /// Finish a function invocation: `result` is what the function returned, and
    /// `unexpected_end` says whether the tokens ran out inside its body.
    fn finish_call(
        self,
        header: FuncHeader,
        result: ParseResult<P::Output>,
        unexpected_end: bool,
    ) -> (called: (ParseResult<()>, Parser<'p, 'a, 's, P>))
        requires
            self.wf(),
        ensures
            called.1.wf(),
            called.1.tokens == self.tokens,
            match result {
                Err(error) => called.0 == Err::<(), ParseError>(error),
                Ok(output) => if unexpected_end {
                    called.0 is Err && called.0->Err_0@ == "expected closing bracket"@
                } else {
                    &&& called.0 is Ok
                    &&& called.1.state() is Body
                    &&& called.1.nodes() == self.nodes().push(NodeSpec::Func(header@, output))
                    &&& called.1.scope() == self.scope()
                },
            },
    {
        let mut this = self;
        let body: P::Output = match result {
            Ok(body) => body,
            Err(error) => {
                return (Err(error), this);
            },
        };

        // Expect the closing bracket if it had a body.
        if unexpected_end {
            return (Err(ParseError::new("expected closing bracket")), this);
        }

        // Finally this function is parsed to the end.
        this.append(Node::Func(FuncCall { header, body }));
        this.switch(ParserState::Body);
        (Ok(()), this)
    }

    /// Advance the tokens by one step.
    fn advance(&mut self)
        requires
            old(self).wf(),
        ensures
            final(self).wf(),
            final(self).stream() == old(self).stream().after_read(),
            final(self).items() == after_reads(old(self).items(), 1),
            final(self).reached() == final(self).stream(),
            final(self).tokens.settled(),
            final(self).scope == old(self).scope,
            final(self).state == old(self).state,
            final(self).tree == old(self).tree,
    {
        proof {
            lemma_after_read(self.stream());
            lemma_left_brackets(self.items(), 1);
        }
        self.tokens.next();
    }

    /// Append a node to the tree.
    fn append(&mut self, node: Node<P::Output>)
        requires
            old(self).wf(),
        ensures
            final(self).wf(),
            final(self).nodes() == old(self).nodes().push(node@),
            final(self).tokens == old(self).tokens,
            final(self).scope == old(self).scope,
            final(self).state == old(self).state,
    {
        self.tree.nodes.push(node);
        assert(self.nodes() =~= old(self).nodes().push(node@));
    }

    /// Advance and append the given node.
    fn append_consumed(&mut self, node: Node<P::Output>)
        requires
            old(self).wf(),
        ensures
            final(self).wf(),
            final(self).stream() == old(self).stream().after_read(),
            final(self).items() == after_reads(old(self).items(), 1),
            final(self).nodes() == old(self).nodes().push(node@),
            final(self).scope == old(self).scope,
            final(self).state == old(self).state,
    {
        self.advance();
        self.append(node);
    }

    /// Append a space if there is not one already.
    fn append_space(&mut self)
        requires
            old(self).wf(),
        ensures
            final(self).wf(),
            final(self).nodes() == with_space(old(self).nodes()),
            final(self).tokens == old(self).tokens,
            final(self).scope == old(self).scope,
            final(self).state == old(self).state,
    {
        match self.last() {
            Some(Node::Space) => {},
            _ => {
                self.append(Node::Space);
            },
        }
    }

    /// Advance and append a space if there is not one already.
    fn append_space_consumed(&mut self)
        requires
            old(self).wf(),
        ensures
            final(self).wf(),
            final(self).stream() == old(self).stream().after_read(),
            final(self).items() == after_reads(old(self).items(), 1),
            final(self).nodes() == with_space(old(self).nodes()),
            final(self).scope == old(self).scope,
            final(self).state == old(self).state,
    {
        self.advance();
        self.append_space();
    }

    /// Switch the state.
    fn switch(&mut self, state: ParserState)
        requires
            old(self).wf(),
        ensures
            final(self).wf(),
            final(self).state == state,
            final(self).tokens == old(self).tokens,
            final(self).scope == old(self).scope,
            final(self).tree == old(self).tree,
    {
        self.state = state;
    }

    /// Advance and switch the state.
    fn switch_consumed(&mut self, state: ParserState)
        requires
            old(self).wf(),
        ensures
            final(self).wf(),
            final(self).stream() == old(self).stream().after_read(),
            final(self).items() == after_reads(old(self).items(), 1),
            final(self).state == state,
            final(self).scope == old(self).scope,
            final(self).tree == old(self).tree,
    {
        self.advance();
        self.state = state;
    }

    /// The last appended node of the tree.
    fn last(&self) -> (node: Option<&Node<P::Output>>)
        ensures
            node is Some <==> self.nodes().len() > 0,
            node is Some ==> node->0@ == self.nodes().last(),
    {
        let len: usize = self.tree.nodes.len();
        if len == 0 {
            None
        } else {
            Some(&self.tree.nodes[len - 1])
        }
    }

    /// Skip tokens as long as the condition holds.
    fn skip_while<C: Fn(&Token<'s>) -> bool>(
        &mut self,
        f: C,
        Ghost(keep): Ghost<spec_fn(TokenSpec) -> bool>,
    )
        requires
            old(self).wf(),
            forall|token: &Token<'s>| call_requires(f, (token,)),
            forall|token: &Token<'s>, b: bool| #[trigger]
                call_ensures(f, (token,), b) ==> b == keep(token@),
        ensures
            final(self).wf(),
            final(self).stream() == old(self).stream().after(
                run_length(old(self).items(), keep),
            ),
            final(self).scope == old(self).scope,
            final(self).state == old(self).state,
            final(self).tree == old(self).tree,
    {
        let ghost items = self.items();
        let ghost stream = self.stream();
        let ghost mut count: nat = 0;
        loop
            invariant
                self.wf(),
                stream == old(self).stream(),
                items == stream.items(),
                self.stream() == stream.after(count),
                count + run_length(self.items(), keep) == run_length(items, keep),
                self.scope == old(self).scope,
                self.state == old(self).state,
                self.tree == old(self).tree,
                forall|token: &Token<'s>| call_requires(f, (token,)),
                forall|token: &Token<'s>, b: bool| #[trigger]
                    call_ensures(f, (token,), b) ==> b == keep(token@),
            decreases self.items().len(),
        {
            match self.tokens.peek() {
                Some(token) => {
                    if !f(&token) {
                        return;
                    }
                },
                None => {
                    return;
                },
            }
            let ghost before = self.items();
            self.advance();
            proof {
                assert(before.skip(1) =~= before.drop_first());
                assert(before.len() == 1 ==> before.drop_first() =~= Seq::empty());
                lemma_after_adds(stream, count, 1);
                assert(stream.after(count).after(1) == stream.after(count).after_read().after(0));
                count = count + 1;
            }
        }
    }
}

/// Parse a function body with the functions of the scope, or give up at a token of
/// a function header that stands in its text. What the parser does not read of the
/// body is left in it.
pub fn try_parse_body<'m, 'a, 's, P: Function>(
    scope: &Scope<P>,
    body: &'m mut FuncTokens<Lookahead<'a, 's>>,
) -> (result: Option<ParseResult<SyntaxTree<P::Output>>>)
    requires
        old(body).wf(),
    ensures
        final(body).wf(),
        exists|outcomes: Seq<Outcome<P::Output>>|
            {
                &&& is_tried(
                    result,
                    #[trigger] parse_items(
                        *scope,
                        ParserState::Body,
                        Seq::empty(),
                        old(body).items(),
                        outcomes,
                    ),
                )
                &&& final(body).is_after(
                    old(body),
                    parse_reads(
                        *scope,
                        ParserState::Body,
                        Seq::empty(),
                        old(body).items(),
                        outcomes,
                    ),
                )
            },
{
    let mut tokens = FuncTokens::new(Lookahead::nothing());
    std::mem::swap(&mut tokens, body);
    proof {
        tokens.lemma_is_body();
    }
    let parser = Parser::with_scope(scope, tokens);
    let (result, tokens) = parser.run();
    let ghost outcomes = choose|outcomes: Seq<Outcome<P::Output>>|
        parser.ends_with(result, tokens.reached(), outcomes);
    let ghost nodes = Seq::<NodeSpec<P::Output>>::empty();
    let ghost items = old(body).items();
    let ghost reads = parse_reads(*scope, ParserState::Body, nodes, items, outcomes);
    proof {
        let stream = parser.stream();
        lemma_after_body(*stream->Body_0, stream->Body_1, stream->Body_2, reads);
    }
    *body = tokens.into_body();
    assert(is_tried(result, parse_items(*scope, ParserState::Body, nodes, items, outcomes)));
    assert(body.is_after(old(body), reads));
    result
}

/// Parse a function body with the functions of the scope. What the parser does not
/// read of the body is left in it.
pub fn parse_body<'m, 'a, 's, P: Function>(
    scope: &Scope<P>,
    body: &'m mut FuncTokens<Lookahead<'a, 's>>,
) -> (result: ParseResult<SyntaxTree<P::Output>>)
    requires
        old(body).wf(),
        no_header_token(*scope, ParserState::Body, Seq::empty(), old(body).items()),
    ensures
        final(body).wf(),
        exists|outcomes: Seq<Outcome<P::Output>>|
            {
                &&& is_result(
                    result,
                    #[trigger] parse_items(
                        *scope,
                        ParserState::Body,
                        Seq::empty(),
                        old(body).items(),
                        outcomes,
                    ),
                )
                &&& final(body).is_after(
                    old(body),
                    parse_reads(
                        *scope,
                        ParserState::Body,
                        Seq::empty(),
                        old(body).items(),
                        outcomes,
                    ),
                )
            },
{
    match try_parse_body(scope, body) {
        Some(result) => result,
        None => vstd::pervasive::unreached(),
    }
}

/// With the outcome of an invocation in front, what follows does not matter to
/// the step.
proof fn lemma_called<F>(outcome: Outcome<F>)
    ensures
        forall|future: Seq<Outcome<F>>|
            {
                &&& (#[trigger] (seq![outcome] + future))[0] == outcome
                &&& (seq![outcome] + future).drop_first() == future
                &&& (seq![outcome] + future).len() > 0
            },
{
    assert forall|future: Seq<Outcome<F>>|
        {
            &&& (#[trigger] (seq![outcome] + future))[0] == outcome
            &&& (seq![outcome] + future).drop_first() == future
            &&& (seq![outcome] + future).len() > 0
        } by {
        assert((seq![outcome] + future).drop_first() =~= future);
    }
}

}
