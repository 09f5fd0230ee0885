//! Streams of tokens.

use crate::syntax::{token_view, Token, TokenSpec};
use vstd::prelude::*;

verus! {

/// What the successive reads of a stream give. A stream whose items have all
/// been read gives `None` for ever; one of the items may be `None` too, and
/// then more tokens stand behind it.
pub type Items = Seq<Option<TokenSpec>>;

/// The items that are left after `reads` reads.
pub open spec fn after_reads(items: Items, reads: nat) -> Items {
    if reads < items.len() {
        items.skip(reads as int)
    } else {
        Seq::empty()
    }
}

/// What the next read of a stream gives.
pub open spec fn head(items: Items) -> Option<TokenSpec> {
    if items.len() > 0 {
        items[0]
    } else {
        None
    }
}

/// The number of brackets that are open behind an item.
pub open spec fn depth_after(depth: nat, item: Option<TokenSpec>) -> nat {
    match item {
        Some(TokenSpec::LeftBracket) => depth + 1,
        Some(TokenSpec::RightBracket) => if depth > 0 { (depth - 1) as nat } else { 0 },
        _ => depth,
    }
}

/// What an item is in a function body with `depth` open brackets: a right bracket
/// that closes none of them is none of the body's tokens.
pub open spec fn body_item(depth: nat, item: Option<TokenSpec>) -> Option<TokenSpec> {
    if depth == 0 && item == Some(TokenSpec::RightBracket) {
        None
    } else {
        item
    }
}

/// The items of a function body: a right bracket that closes no bracket of the
/// body ends it.
pub open spec fn body_items(items: Items, depth: nat) -> Items
    decreases items.len(),
{
    if items.len() == 0 {
        Seq::empty()
    } else {
        seq![body_item(depth, items[0])] + body_items(
            items.drop_first(),
            depth_after(depth, items[0]),
        )
    }
}

/// The number of open brackets after `reads` reads.
pub open spec fn depth_after_reads(items: Items, depth: nat, reads: nat) -> nat
    decreases reads,
{
    if reads == 0 || items.len() == 0 {
        depth
    } else {
        depth_after_reads(items.drop_first(), depth_after(depth, items[0]), (reads - 1) as nat)
    }
}

/// Whether one of the first `reads` reads gives no token.
pub open spec fn runs_out(items: Items, reads: nat) -> bool {
    reads > items.len() || exists|i: int| 0 <= i < reads && #[trigger] items[i] is None
}

/// The number of left brackets among the items.
pub open spec fn left_brackets(items: Items) -> nat
    decreases items.len(),
{
    if items.len() == 0 {
        0
    } else {
        left_brackets(items.drop_first()) + if items[0] == Some(TokenSpec::LeftBracket) {
            1nat
        } else {
            0
        }
    }
}

/// What a stream is to its readers.
pub enum StreamSpec {
    /// A stream that stands for itself, with what it still gives.
    Source(Items),
    /// A function body: the stream that holds it, the number of its brackets that
    /// are open, and whether the tokens ran out inside it.
    Body(Box<StreamSpec>, nat, bool),
}

impl StreamSpec {
    /// What the stream still gives.
    pub open spec fn items(self) -> Items
        decreases self,
    {
        match self {
            StreamSpec::Source(items) => items,
            StreamSpec::Body(holder, depth, _) => body_items(holder.items(), depth),
        }
    }

    /// What a read makes of the stream.
    pub open spec fn after_read(self) -> StreamSpec
        decreases self,
    {
        match self {
            StreamSpec::Source(items) => StreamSpec::Source(after_reads(items, 1)),
            StreamSpec::Body(holder, depth, ran_out) => StreamSpec::Body(
                Box::new(holder.after_read()),
                depth_after(depth, head(holder.items())),
                ran_out || head(holder.items()) is None,
            ),
        }
    }

    /// What `reads` reads make of the stream.
    pub open spec fn after(self, reads: nat) -> StreamSpec
        decreases reads,
    {
        if reads == 0 {
            self
        } else {
            self.after_read().after((reads - 1) as nat)
        }
    }
}

/// A source of tokens.
pub trait TokenStream<'s> {
    /// Whether the stream is in a valid state.
    spec fn wf(&self) -> bool;

    /// What the stream is to its readers.
    spec fn stream(&self) -> StreamSpec;

    /// Whether nothing was looked at that is not read yet.
    spec fn settled(&self) -> bool;

    /// Read the next item.
    fn next(&mut self) -> (token: Option<Token<'s>>)
        requires
            old(self).wf(),
        ensures
            final(self).wf(),
            final(self).settled(),
            token_view(token) == head(old(self).stream().items()),
            final(self).stream() == old(self).stream().after_read(),
    ;
}

/// A stream for a parser to read.
pub enum AnyTokens<'a, 's> {
    /// A stream of which only that it is a stream is known.
    Source(Box<dyn TokenStream<'s> + 'a>),
    /// A function body.
    Body(Box<FuncTokens<Lookahead<'a, 's>>>),
    /// No tokens.
    Nothing,
}

/// A stream that can be handed to a parser, which then holds it for `'a`.
pub trait IntoTokens<'a, 's>: TokenStream<'s> + Sized {
    /// Forget which stream it is.
    fn into_tokens(self) -> (tokens: AnyTokens<'a, 's>)
        requires
            self.wf(),
        ensures
            tokens.wf(),
            tokens.stream() == self.stream(),
            left_brackets(self.stream().items()) <= usize::MAX,
    ;
}

/// A stream whose next item can be looked at before it is read.
pub struct Lookahead<'a, 's> {
    tokens: AnyTokens<'a, 's>,
    /// The item that was looked at and not read yet.
    peeked: Option<Option<Token<'s>>>,
    /// What the stream is without that look.
    unread: Ghost<StreamSpec>,
}

/// Whether the lookahead is in a valid state.
spec fn lookahead_wf<'a, 's>(lookahead: Lookahead<'a, 's>) -> bool
    decreases lookahead,
{
    &&& any_tokens_wf(lookahead.tokens)
    &&& match lookahead.peeked {
        None => lookahead.tokens.stream() == lookahead.unread@,
        Some(token) => {
            &&& token_view(token) == head(lookahead.unread@.items())
            &&& lookahead.tokens.stream() == lookahead.unread@.after_read()
        },
    }
}

/// Whether the stream is in a valid state.
spec fn any_tokens_wf<'a, 's>(tokens: AnyTokens<'a, 's>) -> bool
    decreases tokens,
{
    match tokens {
        AnyTokens::Source(source) => source.wf() && source.stream() is Source,
        AnyTokens::Body(body) => {
            &&& lookahead_wf(body.tokens)
            &&& body.tokens.peeked is None
            &&& body.parens + left_brackets(body.tokens.unread@.items()) <= usize::MAX
        },
        AnyTokens::Nothing => true,
    }
}

impl<'a, 's> AnyTokens<'a, 's> {
    /// Whether the stream is in a valid state.
    pub open spec fn wf(&self) -> bool {
        match *self {
            AnyTokens::Source(source) => source.wf() && source.stream() is Source,
            _ => self.own_wf(),
        }
    }

    /// Whether a stream that is known is in a valid state.
    pub closed spec fn own_wf(&self) -> bool {
        any_tokens_wf(*self)
    }

    /// What the stream is to its readers.
    pub open spec fn stream(&self) -> StreamSpec {
        match *self {
            AnyTokens::Source(source) => source.stream(),
            _ => self.own_stream(),
        }
    }

    /// What a stream that is known is to its readers.
    pub closed spec fn own_stream(&self) -> StreamSpec {
        match *self {
            AnyTokens::Body(body) => StreamSpec::Body(
                Box::new(body.tokens.unread@),
                body.parens as nat,
                body.unexpected_end,
            ),
            _ => StreamSpec::Source(Seq::empty()),
        }
    }

    /// Read the next item.
    fn next(&mut self) -> (token: Option<Token<'s>>)
        requires
            old(self).wf(),
        ensures
            final(self).wf(),
            token_view(token) == head(old(self).stream().items()),
            final(self).stream() == old(self).stream().after_read(),
        decreases *old(self),
    {
        match self {
            AnyTokens::Source(source) => source.next(),
            AnyTokens::Body(body) => {
                proof {
                    lemma_body_read(body.tokens.unread@.items(), body.parens as nat);
                    lemma_after_read(body.tokens.unread@);
                }
                let token = body.tokens.read();
                body.pass(token)
            },
            AnyTokens::Nothing => {
                assert(after_reads(Seq::empty(), 1) =~= Seq::empty());
                None
            },
        }
    }
}

impl<'a, 's> Lookahead<'a, 's> {
    /// Put a stream behind a lookahead of one item.
    pub(crate) fn new(tokens: AnyTokens<'a, 's>) -> (lookahead: Lookahead<'a, 's>)
        requires
            tokens.wf(),
        ensures
            lookahead.wf(),
            lookahead.settled(),
            lookahead.stream() == tokens.stream(),
    {
        let ghost unread = tokens.stream();
        Lookahead { tokens, peeked: None, unread: Ghost(unread) }
    }

    /// A stream without tokens.
    pub(crate) fn nothing() -> (lookahead: Lookahead<'a, 's>)
        ensures
            lookahead.wf(),
            lookahead.settled(),
            lookahead.stream() == StreamSpec::Source(Seq::empty()),
    {
        Lookahead::new(AnyTokens::Nothing)
    }

    /// Without a look ahead, the stream has been read to where it is.
    pub(crate) proof fn lemma_settled(&self)
        requires
            self.wf(),
            self.settled(),
        ensures
            self.reached() == self.stream(),
    {
    }

    /// What the stream has been read to, with the look ahead.
    pub closed spec fn reached(&self) -> StreamSpec {
        self.tokens.stream()
    }

    /// Look at the next item without reading it.
    pub(crate) fn peek(&mut self) -> (token: Option<Token<'s>>)
        requires
            old(self).wf(),
        ensures
            final(self).wf(),
            final(self).stream() == old(self).stream(),
            final(self).reached() == final(self).stream().after_read(),
            token_view(token) == head(old(self).stream().items()),
    {
        match self.peeked {
            Some(token) => token,
            None => {
                let token = self.tokens.next();
                self.peeked = Some(token);
                token
            },
        }
    }

    /// Read the next item.
    fn read(&mut self) -> (token: Option<Token<'s>>)
        requires
            lookahead_wf(*old(self)),
        ensures
            lookahead_wf(*final(self)),
            final(self).peeked is None,
            token_view(token) == head(old(self).unread@.items()),
            final(self).unread@ == old(self).unread@.after_read(),
        decreases *old(self),
    {
        self.unread = Ghost(self.unread@.after_read());
        match self.peeked {
            Some(token) => {
                self.peeked = None;
                token
            },
            None => self.tokens.next(),
        }
    }

    /// The function body that the stream is, read to where it was looked at.
    pub(crate) fn into_body(self) -> (body: FuncTokens<Lookahead<'a, 's>>)
        requires
            self.wf(),
            self.reached() is Body,
        ensures
            body.wf(),
            body.stream() == self.reached(),
    {
        match self.tokens {
            AnyTokens::Body(body) => *body,
            _ => vstd::pervasive::unreached(),
        }
    }
}

impl<'a, 's> TokenStream<'s> for Lookahead<'a, 's> {
    closed spec fn wf(&self) -> bool {
        lookahead_wf(*self)
    }

    closed spec fn stream(&self) -> StreamSpec {
        self.unread@
    }

    closed spec fn settled(&self) -> bool {
        self.peeked is None
    }

    fn next(&mut self) -> (token: Option<Token<'s>>)
        ensures
            final(self).reached() == final(self).stream(),
    {
        self.read()
    }
}

/// A token stream that stops after the first unbalanced right bracket.
pub struct FuncTokens<T> {
    tokens: T,
    /// The number of brackets of the body that are open.
    parens: usize,
    /// Whether the tokens ran out inside the body.
    unexpected_end: bool,
}

impl<T> FuncTokens<T> {
    /// Take note of an item of the stream that holds the body, and hand on what
    /// it is in the body.
    fn pass<'s>(&mut self, token: Option<Token<'s>>) -> (passed: Option<Token<'s>>)
        requires
            token == Some(Token::<'s>::LeftBracket) ==> old(self).parens < usize::MAX,
        ensures
            final(self).tokens == old(self).tokens,
            final(self).parens == depth_after(old(self).parens as nat, token_view(token)),
            final(self).unexpected_end == (old(self).unexpected_end || token is None),
            token_view(passed) == body_item(old(self).parens as nat, token_view(token)),
    {
        match token {
            Some(Token::RightBracket) => {
                if self.parens == 0 {
                    None
                } else {
                    self.parens = self.parens - 1;
                    token
                }
            },
            Some(Token::LeftBracket) => {
                self.parens = self.parens + 1;
                token
            },
            None => {
                self.unexpected_end = true;
                None
            },
            token => token,
        }
    }
}

impl<'s, T: TokenStream<'s>> FuncTokens<T> {
    /// What the body still gives.
    pub open spec fn items(&self) -> Items {
        self.stream().items()
    }

    /// Whether `self` is what `reads` reads make of `before`.
    pub open spec fn is_after(&self, before: &FuncTokens<T>, reads: nat) -> bool {
        self.stream() == before.stream().after(reads)
    }

    /// To its readers, a function body is one.
    pub proof fn lemma_is_body(&self)
        ensures
            self.stream() is Body,
    {
    }

    /// Create a stream for the function body that `tokens` begins with, where the
    /// body was not looked at ahead.
    pub fn new(tokens: T) -> (body: FuncTokens<T>)
        requires
            tokens.wf(),
            tokens.settled(),
            left_brackets(tokens.stream().items()) <= usize::MAX,
        ensures
            body.wf(),
            body.stream() == StreamSpec::Body(Box::new(tokens.stream()), 0, false),
    {
        FuncTokens { tokens, parens: 0, unexpected_end: false }
    }

    /// Whether the tokens ran out inside the body.
    pub fn unexpected_end(&self) -> (b: bool)
        ensures
            self.stream() is Body,
            b == self.stream()->Body_2,
    {
        self.unexpected_end
    }

    /// The stream that holds the body, with what was not read of it.
    pub fn into_inner(self) -> (tokens: T)
        requires
            self.wf(),
        ensures
            tokens.wf(),
            tokens.settled(),
            self.stream() is Body,
            tokens.stream() == *self.stream()->Body_0,
    {
        self.tokens
    }
}

impl<'s, T: TokenStream<'s>> TokenStream<'s> for FuncTokens<T> {
    closed spec fn wf(&self) -> bool {
        &&& self.tokens.wf()
        &&& self.tokens.settled()
        &&& self.parens + left_brackets(self.tokens.stream().items()) <= usize::MAX
    }

    closed spec fn stream(&self) -> StreamSpec {
        StreamSpec::Body(Box::new(self.tokens.stream()), self.parens as nat, self.unexpected_end)
    }

    open spec fn settled(&self) -> bool {
        true
    }

    fn next(&mut self) -> (token: Option<Token<'s>>)
        ensures
            final(self).is_after(old(self), 1),
    {
        proof {
            reveal_with_fuel(StreamSpec::after, 2);
            lemma_body_read(self.tokens.stream().items(), self.parens as nat);
            lemma_after_read(self.tokens.stream());
        }
        let token = self.tokens.next();
        self.pass(token)
    }
}

impl<'a, 's> IntoTokens<'a, 's> for FuncTokens<Lookahead<'a, 's>> {
    fn into_tokens(self) -> (tokens: AnyTokens<'a, 's>) {
        proof {
            lemma_body_left_brackets(self.tokens.stream().items(), self.parens as nat);
        }
        AnyTokens::Body(Box::new(self))
    }
}

/// What a read makes of a function body, and of the number of left brackets that
/// it can still meet.
proof fn lemma_body_read(items: Items, depth: nat)
    ensures
        head(body_items(items, depth)) == body_item(depth, head(items)),
        body_items(after_reads(items, 1), depth_after(depth, head(items))) == after_reads(
            body_items(items, depth),
            1,
        ),
        depth_after(depth, head(items)) + left_brackets(after_reads(items, 1)) <= depth
            + left_brackets(items),
        head(items) == Some(TokenSpec::LeftBracket) ==> left_brackets(items) > 0,
{
    lemma_body_items_len(items, depth);
    if items.len() > 0 {
        let rest = items.drop_first();
        assert(after_reads(items, 1) =~= rest);
        assert(after_reads(body_items(items, depth), 1) =~= body_items(
            rest,
            depth_after(depth, items[0]),
        )) by {
            lemma_body_items_len(rest, depth_after(depth, items[0]));
        }
    } else {
        assert(after_reads(items, 1) =~= items);
        assert(after_reads(body_items(items, depth), 1) =~= body_items(items, depth));
    }
}

/// What a read makes of what a stream gives.
pub proof fn lemma_after_read(stream: StreamSpec)
    ensures
        stream.after_read().items() == after_reads(stream.items(), 1),
    decreases stream,
{
    match stream {
        StreamSpec::Source(_) => {},
        StreamSpec::Body(holder, depth, _) => {
            lemma_after_read(*holder);
            lemma_body_read(holder.items(), depth);
        },
    }
}

/// What reads make of what a stream gives.
pub proof fn lemma_after(stream: StreamSpec, reads: nat)
    ensures
        stream.after(reads).items() == after_reads(stream.items(), reads),
    decreases reads,
{
    if reads == 0 {
        assert(after_reads(stream.items(), 0) =~= stream.items());
    } else {
        let rest = (reads - 1) as nat;
        lemma_after_read(stream);
        lemma_after(stream.after_read(), rest);
        lemma_after_reads(stream.items(), 1, rest);
    }
}

/// Reads of a stream add up.
pub proof fn lemma_after_adds(stream: StreamSpec, m: nat, n: nat)
    ensures
        stream.after(m).after(n) == stream.after(m + n),
    decreases m,
{
    if m > 0 {
        lemma_after_adds(stream.after_read(), (m - 1) as nat, n);
    }
}

/// What reads make of a function body.
pub proof fn lemma_after_body(holder: StreamSpec, depth: nat, ran_out: bool, reads: nat)
    ensures
        StreamSpec::Body(Box::new(holder), depth, ran_out).after(reads) == StreamSpec::Body(
            Box::new(holder.after(reads)),
            depth_after_reads(holder.items(), depth, reads),
            ran_out || runs_out(holder.items(), reads),
        ),
    decreases reads,
{
    let items = holder.items();
    if reads > 0 {
        let rest = (reads - 1) as nat;
        let left = after_reads(items, 1);
        lemma_after_read(holder);
        lemma_after_body(
            holder.after_read(),
            depth_after(depth, head(items)),
            ran_out || head(items) is None,
            rest,
        );
        if items.len() > 0 {
            assert(left =~= items.drop_first());
            assert(runs_out(items, reads) == (items[0] is None || runs_out(left, rest))) by {
                if runs_out(items, reads) && reads <= items.len() && items[0] is Some {
                    let i = choose|i: int| 0 <= i < reads && #[trigger] items[i] is None;
                    assert(left[i - 1] is None);
                }
                if runs_out(left, rest) && rest <= left.len() {
                    let i = choose|i: int| 0 <= i < rest && #[trigger] left[i] is None;
                    assert(items[i + 1] is None);
                }
            }
        } else {
            assert(left =~= items);
        }
    }
}

/// Reads add up.
pub proof fn lemma_after_reads(items: Items, m: nat, n: nat)
    ensures
        after_reads(after_reads(items, m), n) == after_reads(items, m + n),
{
    assert(after_reads(after_reads(items, m), n) =~= after_reads(items, m + n));
}

/// What is left of a stream has no more left brackets than the stream.
pub proof fn lemma_left_brackets(items: Items, reads: nat)
    ensures
        left_brackets(after_reads(items, reads)) <= left_brackets(items),
    decreases items.len(),
{
    if items.len() > 0 && reads > 0 {
        lemma_left_brackets(items.drop_first(), (reads - 1) as nat);
        assert(after_reads(items, reads) =~= after_reads(items.drop_first(), (reads - 1) as nat));
    } else {
        assert(after_reads(items, reads) =~= items);
    }
}

/// A function body has no more left brackets than the stream that holds it.
pub proof fn lemma_body_left_brackets(items: Items, depth: nat)
    ensures
        left_brackets(body_items(items, depth)) <= left_brackets(items),
    decreases items.len(),
{
    if items.len() > 0 {
        let rest = items.drop_first();
        let inner = depth_after(depth, items[0]);
        lemma_body_left_brackets(rest, inner);
        assert(body_items(items, depth).drop_first() =~= body_items(rest, inner));
    }
}

/// A function body has as many items as the stream that holds it.
pub proof fn lemma_body_items_len(items: Items, depth: nat)
    ensures
        body_items(items, depth).len() == items.len(),
    decreases items.len(),
{
    if items.len() > 0 {
        lemma_body_items_len(items.drop_first(), depth_after(depth, items[0]));
    }
}

/// The open brackets after `m` reads and `n` reads are those after `m + n` reads.
pub proof fn lemma_depth_adds(items: Items, depth: nat, m: nat, n: nat)
    ensures
        depth_after_reads(items, depth, m + n) == depth_after_reads(
            after_reads(items, m),
            depth_after_reads(items, depth, m),
            n,
        ),
    decreases m,
{
    if m == 0 {
        assert(after_reads(items, 0) =~= items);
    } else if items.len() == 0 {
        assert(after_reads(items, m) =~= items);
    } else {
        lemma_depth_adds(items.drop_first(), depth_after(depth, items[0]), (m - 1) as nat, n);
        assert(after_reads(items, m) =~= after_reads(items.drop_first(), (m - 1) as nat));
    }
}

}
