//! Tokens and syntax trees.

use crate::text::{is_identifier, is_identifier_word, is_same};
use std::collections::HashMap;
use vstd::prelude::*;

verus! {

/// A logical unit of the incoming text.
#[derive(Debug, Copy, Clone, PartialEq, Eq)]
pub enum Token<'s> {
    /// One or more whitespace words that end no line.
    Space,
    /// The end of a line.
    Newline,
    /// A left bracket: `[`.
    LeftBracket,
    /// A right bracket: `]`.
    RightBracket,
    /// A colon (`:`) in a function header. Elsewhere a colon is a word.
    Colon,
    /// An equals sign (`=`) in a function header. Elsewhere it is a word.
    Equals,
    /// Two underscores, which toggle italics.
    DoubleUnderscore,
    /// Two stars, which toggle bold text.
    DoubleStar,
    /// A dollar sign, which toggles mathematical content.
    Dollar,
    /// A hashtag, which starts a comment.
    Hashtag,
    /// Everything else is a word.
    Word(&'s str),
}

/// What a token is, with the word that it holds as a sequence of characters.
pub enum TokenSpec {
    Space,
    Newline,
    LeftBracket,
    RightBracket,
    Colon,
    Equals,
    DoubleUnderscore,
    DoubleStar,
    Dollar,
    Hashtag,
    Word(Seq<char>),
}

impl<'s> View for Token<'s> {
    type V = TokenSpec;

    open spec fn view(&self) -> TokenSpec {
        match *self {
            Token::Space => TokenSpec::Space,
            Token::Newline => TokenSpec::Newline,
            Token::LeftBracket => TokenSpec::LeftBracket,
            Token::RightBracket => TokenSpec::RightBracket,
            Token::Colon => TokenSpec::Colon,
            Token::Equals => TokenSpec::Equals,
            Token::DoubleUnderscore => TokenSpec::DoubleUnderscore,
            Token::DoubleStar => TokenSpec::DoubleStar,
            Token::Dollar => TokenSpec::Dollar,
            Token::Hashtag => TokenSpec::Hashtag,
            Token::Word(word) => TokenSpec::Word(word@),
        }
    }
}

/// What an optional token is.
pub open spec fn token_view<'s>(token: Option<Token<'s>>) -> Option<TokenSpec> {
    match token {
        Some(token) => Some(token@),
        None => None,
    }
}

/// A valid identifier.
#[derive(Debug, PartialEq, Eq, Hash)]
pub struct Ident(String);

impl View for Ident {
    type V = Seq<char>;

    closed spec fn view(&self) -> Seq<char> {
        self.0@
    }
}

impl Ident {
    /// Create an identifier if the word is a valid one.
    pub fn new(word: &str) -> (ident: Option<Ident>)
        ensures
            ident is Some <==> is_identifier(word@),
            ident is Some ==> ident->0@ == word@,
    {
        if is_identifier_word(word) {
            Some(Ident(word.to_owned()))
        } else {
            None
        }
    }

    /// The identifier as text.
    pub fn as_str(&self) -> (word: &str)
        ensures
            word@ == self@,
    {
        self.0.as_str()
    }

    /// Whether two identifiers are the same text.
    pub fn is(&self, other: &Ident) -> (b: bool)
        ensures
            b == (self@ == other@),
    {
        is_same(self.as_str(), other.as_str())
    }
}

impl Clone for Ident {
    fn clone(&self) -> (ident: Ident)
        ensures
            ident@ == self@,
    {
        Ident(self.0.clone())
    }
}

/// The value of a function argument, as it is written in the source.
#[derive(Debug, PartialEq)]
pub struct Expression(pub String);

/// The header of a function invocation.
#[derive(Debug, PartialEq)]
pub struct FuncHeader {
    /// The name of the function.
    pub name: Ident,
    /// The positional arguments.
    pub args: Vec<Expression>,
    /// The named arguments.
    pub kwargs: HashMap<Ident, Expression>,
}

/// What a function header says.
#[verifier::ext_equal]
pub struct HeaderSpec {
    pub name: Seq<char>,
    pub args: Seq<Expression>,
    pub kwargs: Map<Ident, Expression>,
}

impl View for FuncHeader {
    type V = HeaderSpec;

    open spec fn view(&self) -> HeaderSpec {
        HeaderSpec { name: self.name@, args: self.args@, kwargs: self.kwargs@ }
    }
}

/// The header of a function that is invoked by its name alone.
pub open spec fn bare_header(name: Seq<char>) -> HeaderSpec {
    HeaderSpec { name, args: Seq::empty(), kwargs: Map::empty() }
}

impl FuncHeader {
    /// A header without arguments.
    pub fn bare(name: Ident) -> (header: FuncHeader)
        ensures
            header@ == bare_header(name@),
            header.name == name,
            header.args@.len() == 0,
            header.kwargs@.dom() == Set::<Ident>::empty(),
    {
        FuncHeader { name, args: Vec::new(), kwargs: HashMap::new() }
    }
}

/// A complete function invocation: its header and what its function made of
/// the body.
#[derive(Debug, PartialEq)]
pub struct FuncCall<F> {
    pub header: FuncHeader,
    pub body: F,
}

/// A node in the syntax tree.
#[derive(Debug, PartialEq)]
pub enum Node<F> {
    /// Whitespace between other nodes.
    Space,
    /// A paragraph break.
    Newline,
    /// Italics are toggled.
    ToggleItalics,
    /// Bold text is toggled.
    ToggleBold,
    /// Mathematical content is toggled.
    ToggleMath,
    /// A literal word.
    Word(String),
    /// A function invocation.
    Func(FuncCall<F>),
}

/// What a node is.
pub enum NodeSpec<F> {
    Space,
    Newline,
    ToggleItalics,
    ToggleBold,
    ToggleMath,
    Word(Seq<char>),
    Func(HeaderSpec, F),
}

impl<F> View for Node<F> {
    type V = NodeSpec<F>;

    open spec fn view(&self) -> NodeSpec<F> {
        match *self {
            Node::Space => NodeSpec::Space,
            Node::Newline => NodeSpec::Newline,
            Node::ToggleItalics => NodeSpec::ToggleItalics,
            Node::ToggleBold => NodeSpec::ToggleBold,
            Node::ToggleMath => NodeSpec::ToggleMath,
            Node::Word(word) => NodeSpec::Word(word@),
            Node::Func(call) => NodeSpec::Func(call.header@, call.body),
        }
    }
}

/// A tree representation of the source.
#[derive(Debug, PartialEq)]
pub struct SyntaxTree<F> {
    /// The children.
    pub nodes: Vec<Node<F>>,
}

impl<F> View for SyntaxTree<F> {
    type V = Seq<NodeSpec<F>>;

    open spec fn view(&self) -> Seq<NodeSpec<F>> {
        self.nodes@.map_values(|node: Node<F>| node@)
    }
}

impl<F> SyntaxTree<F> {
    /// Create an empty tree.
    pub fn new() -> (tree: SyntaxTree<F>)
        ensures
            tree@ == Seq::<NodeSpec<F>>::empty(),
    {
        SyntaxTree { nodes: Vec::new() }
    }
}

/// A token is what its variant says, and a word token is its word.
pub proof fn law_token_views<'s>(word: &'s str, token: Token<'s>)
    ensures
        Token::Space@ == TokenSpec::Space,
        Token::Newline@ == TokenSpec::Newline,
        Token::LeftBracket@ == TokenSpec::LeftBracket,
        Token::RightBracket@ == TokenSpec::RightBracket,
        Token::Colon@ == TokenSpec::Colon,
        Token::Equals@ == TokenSpec::Equals,
        Token::DoubleUnderscore@ == TokenSpec::DoubleUnderscore,
        Token::DoubleStar@ == TokenSpec::DoubleStar,
        Token::Dollar@ == TokenSpec::Dollar,
        Token::Hashtag@ == TokenSpec::Hashtag,
        Token::Word(word)@ == TokenSpec::Word(word@),
        token_view(Some(token)) == Some(token@),
        token_view(None::<Token<'s>>) is None,
{
}

/// A node is what its variant says: a word node is its word, and a function node is
/// its header and what the function made of the invocation.
pub proof fn law_node_views<F>(word: String, call: FuncCall<F>)
    ensures
        Node::<F>::Space@ == NodeSpec::<F>::Space,
        Node::<F>::Newline@ == NodeSpec::<F>::Newline,
        Node::<F>::ToggleItalics@ == NodeSpec::<F>::ToggleItalics,
        Node::<F>::ToggleBold@ == NodeSpec::<F>::ToggleBold,
        Node::<F>::ToggleMath@ == NodeSpec::<F>::ToggleMath,
        Node::<F>::Word(word)@ == NodeSpec::<F>::Word(word@),
        Node::<F>::Func(call)@ == NodeSpec::<F>::Func(
            HeaderSpec {
                name: call.header.name@,
                args: call.header.args@,
                kwargs: call.header.kwargs@,
            },
            call.body,
        ),
{
}

/// A tree is its nodes, one by one and in their order.
pub proof fn law_tree_view<F>(tree: SyntaxTree<F>)
    ensures
        tree@.len() == tree.nodes@.len(),
        forall|i: int| 0 <= i < tree@.len() ==> #[trigger] tree@[i] == tree.nodes@[i]@,
{
}

/// A header without arguments has its name and nothing else.
pub proof fn law_bare_header(name: Seq<char>)
    ensures
        bare_header(name).name == name,
        bare_header(name).args.len() == 0,
        bare_header(name).kwargs.dom() == Set::<Ident>::empty(),
{
}

}
