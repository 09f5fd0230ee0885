//! Tokenization of source code.

use crate::stream::{
    after_reads, left_brackets, AnyTokens, IntoTokens, Items, StreamSpec, TokenStream,
};
use crate::syntax::{Token, TokenSpec};
use crate::text::{
    find_pair, first_pair, has_pair, is_char, is_chars, is_unmarked, is_white, is_whitespace,
    lemma_first_pair, pair_at, starts_with_pair,
};
use unicode_segmentation::UnicodeSegmentation;
use vstd::prelude::*;

verus! {

/// The words between the Unicode word boundaries of a text.
pub uninterp spec fn word_bounds(source: Seq<char>) -> Seq<Seq<char>>;

/// The characters of each word.
pub open spec fn word_views(words: Seq<&str>) -> Seq<Seq<char>> {
    words.map_values(|word: &str| word@)
}

/// `UnicodeSegmentation::split_word_bounds` cuts the text at its word
/// boundaries, which depend on the text alone. The words are not empty, and
/// one behind the other they are the text. An underscore is joined to letters,
/// digits, underscores and what is joined to those, never to a bracket, a dollar
/// sign, a hashtag or a line feed. Where else the boundaries stand is left unsaid:
/// the Unicode rules for them fill an annex.
#[verifier::external_body]
fn split_words<'s>(source: &'s str) -> (words: Vec<&'s str>)
    ensures
        word_views(words@) == word_bounds(source@),
        word_views(words@).flatten() == source@,
        forall|i: int| 0 <= i < words@.len() ==> (#[trigger] words@[i])@.len() > 0,
        forall|i: int|
            0 <= i < words@.len() && has_pair((#[trigger] words@[i])@) ==> is_unmarked(words@[i]@),
{
    source.split_word_bounds().collect()
}

/// What the tokenizer is in. A right bracket that ends a body takes it back to what
/// it was in in front of the function.
pub enum LexState {
    /// The base state if there is nothing special we are in.
    Body,
    /// Inside a function header. Here colons and equal signs are distinct
    /// tokens rather than text.
    Function,
    /// We expect either the end of the function or the beginning of the body.
    MaybeBody,
}

/// What one step of the tokenizer does: the tokens it gives, the number of
/// words it uses up, and what it is in and returns to afterwards.
pub struct LexStep {
    pub tokens: Seq<TokenSpec>,
    pub used: nat,
    pub state: LexState,
    pub stack: Seq<LexState>,
}

/// The number of whitespace words in front.
pub open spec fn white_run(words: Seq<Seq<char>>) -> nat
    decreases words.len(),
{
    if words.len() == 0 || !is_white(words[0]) {
        0
    } else {
        1 + white_run(words.drop_first())
    }
}

/// Whether a backslash in front of the word makes it plain text.
pub open spec fn is_escapable(word: Seq<char>) -> bool {
    ||| word == seq!['[']
    ||| word == seq![']']
    ||| word == seq!['$']
    ||| word == seq!['#']
    ||| word == seq!['\\']
    ||| word == seq![':']
    ||| word == seq!['=']
    ||| word == seq!['*']
    ||| word == seq!['_']
    ||| pair_at(word, 0)
}

/// The tokens of a word without a meaning of its own: its text, split at each
/// double underscore.
pub open spec fn text_tokens(word: Seq<char>) -> Seq<TokenSpec>
    decreases word.len(),
    via text_tokens_decreases
{
    let front = word.take(first_pair(word));
    let text = if front.len() == 0 {
        Seq::empty()
    } else {
        seq![TokenSpec::Word(front)]
    };
    if has_pair(word) {
        text + seq![TokenSpec::DoubleUnderscore] + text_tokens(word.skip(first_pair(word) + 2))
    } else {
        text
    }
}

#[via_fn]
proof fn text_tokens_decreases(word: Seq<char>) {
    lemma_first_pair(word);
}

/// What the tokenizer returns to.
pub open spec fn top(stack: Seq<LexState>) -> LexState {
    if stack.len() > 0 {
        stack.last()
    } else {
        LexState::Body
    }
}

/// What it returns to after that.
pub open spec fn below(stack: Seq<LexState>) -> Seq<LexState> {
    if stack.len() > 0 {
        stack.drop_last()
    } else {
        stack
    }
}

/// The step of the tokenizer at the first word.
pub open spec fn lex_step(words: Seq<Seq<char>>, state: LexState, stack: Seq<LexState>) -> LexStep {
    let word = words[0];
    let one = |token: TokenSpec| LexStep { tokens: seq![token], used: 1, state, stack };
    if is_white(word) {
        LexStep { tokens: seq![TokenSpec::Space], used: white_run(words), state, stack }
    } else if state is MaybeBody {
        if word == seq!['['] {
            LexStep { tokens: seq![TokenSpec::LeftBracket], used: 1, state: LexState::Body, stack }
        } else {
            LexStep { tokens: Seq::empty(), used: 0, state: top(stack), stack: below(stack) }
        }
    } else if word == seq!['['] {
        LexStep {
            tokens: seq![TokenSpec::LeftBracket],
            used: 1,
            state: LexState::Function,
            stack: stack.push(state),
        }
    } else if word == seq![']'] {
        if state is Function {
            LexStep {
                tokens: seq![TokenSpec::RightBracket],
                used: 1,
                state: LexState::MaybeBody,
                stack,
            }
        } else {
            LexStep {
                tokens: seq![TokenSpec::RightBracket],
                used: 1,
                state: top(stack),
                stack: below(stack),
            }
        }
    } else if word == seq!['$'] {
        one(TokenSpec::Dollar)
    } else if word == seq!['#'] {
        one(TokenSpec::Hashtag)
    } else if word == seq![':'] && state is Function {
        one(TokenSpec::Colon)
    } else if word == seq!['='] && state is Function {
        one(TokenSpec::Equals)
    } else if word == seq!['*'] && words.len() > 1 && words[1] == seq!['*'] {
        LexStep { tokens: seq![TokenSpec::DoubleStar], used: 2, state, stack }
    } else if word == seq!['\n'] || word == seq!['\r', '\n'] {
        one(TokenSpec::Newline)
    } else if word == seq!['\\'] && words.len() > 1 && is_escapable(words[1]) {
        LexStep { tokens: seq![TokenSpec::Word(words[1])], used: 2, state, stack }
    } else {
        LexStep { tokens: text_tokens(word), used: 1, state, stack }
    }
}

/// The tokens of the words for a tokenizer that is in `state` and returns to
/// the states of `stack`.
pub open spec fn lex(words: Seq<Seq<char>>, state: LexState, stack: Seq<LexState>) -> Seq<TokenSpec>
    decreases
            words.len(),
            if state is MaybeBody {
                stack.len() + 1
            } else {
                0
            },
    via lex_decreases
{
    if words.len() == 0 {
        Seq::empty()
    } else {
        let step = lex_step(words, state, stack);
        step.tokens + lex(words.skip(step.used as int), step.state, step.stack)
    }
}

#[via_fn]
proof fn lex_decreases(words: Seq<Seq<char>>, state: LexState, stack: Seq<LexState>) {
    if words.len() > 0 {
        lemma_lex_step(words, state, stack);
    }
}

/// The tokens of a text that is cut into words.
pub open spec fn tokenize(words: Seq<Seq<char>>) -> Seq<TokenSpec> {
    lex(words, LexState::Body, Seq::empty())
}

/// The run of whitespace words in front is as long as it can be.
pub proof fn lemma_white_run(words: Seq<Seq<char>>)
    ensures
        white_run(words) <= words.len(),
        forall|i: int| 0 <= i < white_run(words) ==> is_white(#[trigger] words[i]),
        white_run(words) < words.len() ==> !is_white(words[white_run(words) as int]),
    decreases words.len(),
{
    if words.len() > 0 && is_white(words[0]) {
        let rest = words.drop_first();
        lemma_white_run(rest);
        assert forall|i: int| 0 <= i < white_run(words) implies is_white(#[trigger] words[i]) by {
            if i > 0 {
                assert(words[i] == rest[i - 1]);
            }
        }
    }
}

/// A step stays within the words, and uses up none only where it leaves a
/// function header without a body.
pub proof fn lemma_lex_step(words: Seq<Seq<char>>, state: LexState, stack: Seq<LexState>)
    requires
        words.len() > 0,
    ensures
        lex_step(words, state, stack).used <= words.len(),
        lex_step(words, state, stack).used == 0 ==> state is MaybeBody && !is_white(words[0])
            && words[0] != seq!['['],
{
    lemma_white_run(words);
}

/// The parts of a word that holds double underscores.
#[derive(Debug, Copy, Clone)]
enum Splined<'s> {
    /// Text between double underscores, which may be empty.
    Value(&'s str),
    /// A double underscore.
    Splinor,
}

/// An iterator over the parts of a word that holds double underscores: text
/// and double underscore in turn.
#[derive(Debug, Copy, Clone)]
struct Spline<'s> {
    /// What is left of the word behind the last double underscore.
    rest: Option<&'s str>,
    /// Whether a double underscore comes before it.
    next_splinor: bool,
}

impl<'s> Spline<'s> {
    /// The tokens of the parts that are left.
    spec fn tokens(&self) -> Seq<TokenSpec> {
        match self.rest {
            Some(rest) => if self.next_splinor {
                seq![TokenSpec::DoubleUnderscore] + text_tokens(rest@)
            } else {
                text_tokens(rest@)
            },
            None => Seq::empty(),
        }
    }

    /// The number of parts that are left is bounded by this.
    spec fn size(&self) -> nat {
        match self.rest {
            Some(rest) => 2 * rest@.len() + if self.next_splinor { 2nat } else { 1nat },
            None => 0,
        }
    }

    /// Split a word at its double underscores.
    fn new(word: &'s str) -> (spline: Spline<'s>)
        ensures
            spline.tokens() == text_tokens(word@),
    {
        Spline { rest: Some(word), next_splinor: false }
    }

    /// The next part.
    fn next(&mut self) -> (part: Option<Splined<'s>>)
        ensures
            match part {
                None => old(self).tokens() == Seq::<TokenSpec>::empty() && final(self).tokens()
                    == Seq::<TokenSpec>::empty(),
                Some(Splined::Splinor) => old(self).tokens() == seq![TokenSpec::DoubleUnderscore]
                    + final(self).tokens(),
                Some(Splined::Value(text)) => old(self).tokens() == (if text@.len() == 0 {
                    Seq::empty()
                } else {
                    seq![TokenSpec::Word(text@)]
                }) + final(self).tokens(),
            },
            part is Some ==> final(self).size() < old(self).size(),
    {
        match self.rest {
            None => None,
            Some(rest) => {
                if self.next_splinor {
                    self.next_splinor = false;
                    Some(Splined::Splinor)
                } else {
                    proof {
                        lemma_first_pair(rest@);
                    }
                    self.next_splinor = true;
                    match find_pair(rest) {
                        Some(at) => {
                            let text: &'s str = rest.substring_char(0, at);
                            let end: usize = rest.unicode_len();
                            assert(pair_at(rest@, at as int));
                            self.rest = Some(rest.substring_char(at + 2, end));
                            assert(rest@.subrange(0, at as int) =~= rest@.take(at as int));
                            assert(rest@.subrange(at + 2, end as int) =~= rest@.skip(at + 2));
                            Some(Splined::Value(text))
                        },
                        None => {
                            self.rest = None;
                            assert(rest@.take(rest@.len() as int) =~= rest@);
                            Some(Splined::Value(rest))
                        },
                    }
                }
            },
        }
    }
}

/// The state the tokenizer is in.
#[derive(Debug, Copy, Clone)]
enum TokensState<'s> {
    /// The base state if there is nothing special we are in.
    Body,
    /// Inside a function header. Here colons and equal signs get parsed
    /// as distinct tokens rather than text.
    Function,
    /// We expect either the end of the function or the beginning of the body.
    MaybeBody,
    /// We are inside one unicode word that consists of multiple tokens,
    /// because it contains double underscores.
    DoubleUnderscore(Spline<'s>),
}

impl<'s> TokensState<'s> {
    /// What the state is, if it is not that of a word with double underscores.
    spec fn lex_state(&self) -> LexState {
        match *self {
            TokensState::Function => LexState::Function,
            TokensState::MaybeBody => LexState::MaybeBody,
            _ => LexState::Body,
        }
    }
}

impl<'s> PartialEq for TokensState<'s> {
    fn eq(&self, other: &TokensState<'s>) -> (b: bool) {
        match (self, other) {
            (TokensState::Body, TokensState::Body) => true,
            (TokensState::Function, TokensState::Function) => true,
            (TokensState::MaybeBody, TokensState::MaybeBody) => true,
            // They are not necessarily different, but we don't care
            _ => false,
        }
    }
}

impl<'s> vstd::std_specs::cmp::PartialEqSpecImpl for TokensState<'s> {
    open spec fn obeys_eq_spec() -> bool {
        true
    }

    closed spec fn eq_spec(&self, other: &TokensState<'s>) -> bool {
        &&& !(self is DoubleUnderscore)
        &&& !(other is DoubleUnderscore)
        &&& self.lex_state() == other.lex_state()
    }
}

/// An iterator over the tokens of source code.
#[derive(Debug, Clone)]
pub struct Tokens<'s> {
    words: Vec<&'s str>,
    /// The number of words that were read.
    pos: usize,
    state: TokensState<'s>,
    stack: Vec<TokensState<'s>>,
}

impl<'s> Tokens<'s> {
    /// The words that are left.
    spec fn words_left(&self) -> Seq<Seq<char>> {
        word_views(self.words@).skip(self.pos as int)
    }

    /// What the tokenizer returns to.
    spec fn returns_to(&self) -> Seq<LexState> {
        self.stack@.map_values(|state: TokensState<'s>| state.lex_state())
    }

    /// The tokens that are left.
    pub closed spec fn tokens(&self) -> Seq<TokenSpec> {
        let stack = self.returns_to();
        match self.state {
            TokensState::DoubleUnderscore(spline) => spline.tokens() + lex(
                self.words_left(),
                top(stack),
                below(stack),
            ),
            state => lex(self.words_left(), state.lex_state(), stack),
        }
    }

    /// Whether the fields fit together.
    spec fn inv(&self) -> bool {
        &&& self.pos <= self.words@.len()
        &&& forall|i: int|
            0 <= i < self.stack@.len() ==> self.stack@[i] is Body || self.stack@[i] is Function
    }

    /// Create a new token stream from text.
    pub fn new(source: &'s str) -> (tokens: Tokens<'s>)
        ensures
            tokens.wf(),
            tokens.tokens() == tokenize(word_bounds(source@)),
            word_bounds(source@).flatten() == source@,
            forall|i: int|
                0 <= i < word_bounds(source@).len() ==> (#[trigger] word_bounds(source@)[i]).len()
                    > 0,
            forall|i: int|
                0 <= i < word_bounds(source@).len() && has_pair(#[trigger] word_bounds(source@)[i])
                    ==> is_unmarked(word_bounds(source@)[i]),
    {
        let words: Vec<&'s str> = split_words(source);
        proof {
            let bounds = word_bounds(source@);
            assert forall|i: int| 0 <= i < bounds.len() implies (#[trigger] bounds[i]).len() > 0
                && (has_pair(bounds[i]) ==> is_unmarked(bounds[i])) by {
                assert(bounds[i] == words@[i]@);
            }
        }
        Tokens::from_words(words)
    }

    /// Create a new token stream from text that is cut into words.
    pub fn from_words(words: Vec<&'s str>) -> (tokens: Tokens<'s>)
        ensures
            tokens.wf(),
            tokens.tokens() == tokenize(word_views(words@)),
    {
        let tokens = Tokens { words, pos: 0, state: TokensState::Body, stack: Vec::new() };
        assert(tokens.words_left() =~= word_views(words@));
        assert(tokens.returns_to() =~= Seq::empty());
        tokens
    }

    /// The next word, without reading it.
    fn peek_word(&self) -> (word: Option<&'s str>)
        requires
            self.inv(),
        ensures
            word is Some <==> self.words_left().len() > 0,
            word is Some ==> word->0@ == self.words_left()[0],
    {
        if self.pos < self.words.len() {
            Some(self.words[self.pos])
        } else {
            None
        }
    }

    /// Advance the words by one step.
    fn advance(&mut self)
        requires
            old(self).inv(),
        ensures
            final(self).inv(),
            final(self).words_left() == if old(self).words_left().len() > 0 {
                old(self).words_left().drop_first()
            } else {
                old(self).words_left()
            },
            final(self).state == old(self).state,
            final(self).stack == old(self).stack,
    {
        if self.pos < self.words.len() {
            self.pos = self.pos + 1;
            assert(self.words_left() =~= old(self).words_left().drop_first());
        }
    }

    /// Whether a switch of `before` to another state can have led here.
    pub closed spec fn has_switched(&self, before: &Tokens<'s>) -> bool {
        &&& self.words == before.words
        &&& self.pos == before.pos
        &&& self.stack@ == before.stack@.push(before.state)
    }

    /// Whether the way back from the state of `before` leads here.
    pub closed spec fn has_unswitched(&self, before: &Tokens<'s>) -> bool {
        &&& self.words == before.words
        &&& self.pos == before.pos
        &&& if before.stack@.len() > 0 {
            self.state == before.stack@.last() && self.stack@ == before.stack@.drop_last()
        } else {
            self.state is Body && self.stack@ == before.stack@
        }
    }

    /// Whether the two are in the same state, return to the same states and have
    /// the same words left.
    pub closed spec fn is_same(&self, other: &Tokens<'s>) -> bool {
        &&& self.words == other.words
        &&& self.pos == other.pos
        &&& self.state == other.state
        &&& self.stack@ == other.stack@
    }

    /// Switch to the given state.
    fn switch(&mut self, state: TokensState<'s>)
        ensures
            final(self).has_switched(old(self)),
            final(self).state == state,
            final(self).returns_to() == old(self).returns_to().push(old(self).state.lex_state()),
    {
        let mut state: TokensState<'s> = state;
        std::mem::swap(&mut state, &mut self.state);
        self.stack.push(state);
        assert(self.returns_to() =~= old(self).returns_to().push(old(self).state.lex_state()));
    }

    /// Go back to the top-of-stack state.
    fn unswitch(&mut self)
        ensures
            final(self).has_unswitched(old(self)),
            final(self).state.lex_state() == top(old(self).returns_to()),
            final(self).returns_to() == below(old(self).returns_to()),
    {
        match self.stack.pop() {
            Some(state) => {
                self.state = state;
            },
            None => {
                self.state = TokensState::Body;
            },
        }
        assert(self.returns_to() =~= below(old(self).returns_to()));
    }

    /// Advance and return the given token.
    fn consumed(&mut self, token: Token<'s>) -> (same: Token<'s>)
        requires
            old(self).inv(),
        ensures
            final(self).inv(),
            final(self).words_left() == if old(self).words_left().len() > 0 {
                old(self).words_left().drop_first()
            } else {
                old(self).words_left()
            },
            final(self).state == old(self).state,
            final(self).stack == old(self).stack,
            same == token,
    {
        self.advance();
        token
    }

    /// The next token of a word that contains double underscores. Behind the
    /// last one, go back to the state in which the word was met.
    fn next_splined(&mut self) -> (token: Option<Token<'s>>)
        requires
            old(self).inv(),
            old(self).state is DoubleUnderscore,
        ensures
            final(self).inv(),
            token is None ==> !(final(self).state is DoubleUnderscore) && final(self).tokens()
                == old(self).tokens() && old(self).state->DoubleUnderscore_0.tokens().len() == 0,
            token is Some ==> old(self).tokens() == seq![token->0@] + final(self).tokens(),
    {
        let mut spline: Spline<'s> = match self.state {
            TokensState::DoubleUnderscore(spline) => spline,
            _ => {
                return None;
            },
        };
        let ghost words = self.words_left();
        let ghost after = lex(words, top(self.returns_to()), below(self.returns_to()));
        loop
            invariant
                self == old(self),
                old(self).inv(),
                old(self).state is DoubleUnderscore,
                words == self.words_left(),
                after == lex(words, top(self.returns_to()), below(self.returns_to())),
                spline.tokens() == self.state->DoubleUnderscore_0.tokens(),
            decreases spline.size(),
        {
            let ghost before = spline.tokens();
            match spline.next() {
                Some(Splined::Value(text)) => {
                    if !text.is_empty() {
                        self.state = TokensState::DoubleUnderscore(spline);
                        assert(old(self).tokens() =~= seq![TokenSpec::Word(text@)] + self.tokens());
                        return Some(Token::Word(text));
                    }
                    assert(spline.tokens() =~= before);
                },
                Some(Splined::Splinor) => {
                    self.state = TokensState::DoubleUnderscore(spline);
                    assert(old(self).tokens() =~= seq![TokenSpec::DoubleUnderscore]
                        + self.tokens());
                    return Some(Token::DoubleUnderscore);
                },
                None => {
                    self.unswitch();
                    assert(old(self).tokens() =~= self.tokens());
                    return None;
                },
            }
        }
    }

    /// Skip whitespace words and say whether there was one.
    fn skip_whitespace(&mut self) -> (skipped: bool)
        requires
            old(self).inv(),
        ensures
            final(self).inv(),
            final(self).words_left() == old(self).words_left().skip(
                white_run(old(self).words_left()) as int,
            ),
            final(self).state == old(self).state,
            final(self).stack == old(self).stack,
            skipped == (white_run(old(self).words_left()) > 0),
    {
        let ghost words = self.words_left();
        let ghost mut count: nat = 0;
        let mut whitespace: bool = false;
        assert(words.skip(0) =~= words);
        loop
            invariant
                self.inv(),
                words == old(self).words_left(),
                count <= words.len(),
                self.words_left() == words.skip(count as int),
                count + white_run(self.words_left()) == white_run(words),
                self.state == old(self).state,
                self.stack == old(self).stack,
                whitespace == (count > 0),
            decreases self.words_left().len(),
        {
            match self.peek_word() {
                Some(word) => {
                    if !is_whitespace(word) {
                        return whitespace;
                    }
                },
                None => {
                    return whitespace;
                },
            }
            whitespace = true;
            self.advance();
            proof {
                assert(words.skip(count as int).drop_first() =~= words.skip(count as int + 1));
                count = count + 1;
            }
        }
    }

    /// Whether a backslash in front of the word makes it plain text.
    fn is_escapable_word(word: &str) -> (b: bool)
        ensures
            b == is_escapable(word@),
    {
        is_char(word, '[') || is_char(word, ']') || is_char(word, '$') || is_char(word, '#')
            || is_char(word, '\\') || is_char(word, ':') || is_char(word, '=') || is_char(word, '*')
            || is_char(word, '_') || starts_with_pair(word)
    }

    /// The token that the next word begins, where the word is neither whitespace
    /// nor the beginning of a function body.
    fn read_word(&mut self) -> (token: Option<Token<'s>>)
        requires
            old(self).inv(),
            old(self).state is Body || old(self).state is Function,
            old(self).words_left().len() > 0 ==> !is_white(old(self).words_left()[0]),
        ensures
            final(self).inv(),
            token is None ==> old(self).tokens().len() == 0 && final(self).tokens().len() == 0,
            token is Some ==> old(self).tokens() == seq![token->0@] + final(self).tokens(),
    {
        let ghost words = self.words_left();
        let ghost state = self.state.lex_state();
        let ghost stack = self.returns_to();
        let ghost all = lex(words, state, stack);
        let word: &'s str = match self.peek_word() {
            Some(word) => word,
            None => {
                return None;
            },
        };
        self.advance();
        let afterwards: Option<&'s str> = self.peek_word();
        let ghost step = lex_step(words, state, stack);
        proof {
            assert(all == step.tokens + lex(words.skip(step.used as int), step.state, step.stack));
            assert(words.skip(1) =~= words.drop_first());
            assert(afterwards is Some <==> words.len() > 1);
            if words.len() > 1 {
                assert(words.skip(2) =~= words.drop_first().drop_first());
            }
        }

        // Special characters
        if is_char(word, '[') {
            self.switch(TokensState::Function);
            return Some(Token::LeftBracket);
        }
        if is_char(word, ']') {
            if self.state == TokensState::Function {
                self.state = TokensState::MaybeBody;
            } else {
                self.unswitch();
            }
            return Some(Token::RightBracket);
        }
        if is_char(word, '$') {
            return Some(Token::Dollar);
        }
        if is_char(word, '#') {
            return Some(Token::Hashtag);
        }

        // Context sensitive operators
        if is_char(word, ':') && self.state == TokensState::Function {
            return Some(Token::Colon);
        }
        if is_char(word, '=') && self.state == TokensState::Function {
            return Some(Token::Equals);
        }

        // Double star/underscore
        if is_char(word, '*') {
            if let Some(next) = afterwards {
                if is_char(next, '*') {
                    return Some(self.consumed(Token::DoubleStar));
                }
            }
        }

        // Newlines
        if is_char(word, '\n') || is_chars(word, '\r', '\n') {
            return Some(Token::Newline);
        }

        // Escaping
        if is_char(word, '\\') {
            if let Some(next) = afterwards {
                if Tokens::is_escapable_word(next) {
                    return Some(self.consumed(Token::Word(next)));
                }
            }
        }

        // Double underscores hidden in words.
        if find_pair(word).is_some() {
            let spline = Spline::new(word);
            self.switch(TokensState::DoubleUnderscore(spline));
            proof {
                assert(stack.push(state).drop_last() =~= stack);
                assert(self.tokens() =~= all);
            }
            return self.next_splined();
        }

        // Now it seems like it's just a normal word.
        proof {
            lemma_first_pair(word@);
            assert(word@.take(word@.len() as int) =~= word@);
            assert(step.tokens =~= seq![TokenSpec::Word(word@)]);
        }
        Some(Token::Word(word))
    }

    /// Advance the iterator, return the next token or nothing.
    fn read(&mut self) -> (token: Option<Token<'s>>)
        requires
            old(self).inv(),
        ensures
            final(self).inv(),
            token is None ==> old(self).tokens().len() == 0 && final(self).tokens().len() == 0,
            token is Some ==> old(self).tokens() == seq![token->0@] + final(self).tokens(),
    {
        let ghost all = self.tokens();

        // Return the remaining words and double underscores.
        if let TokensState::DoubleUnderscore(_) = self.state {
            let token = self.next_splined();
            if token.is_some() {
                return token;
            }
        }
        assert(self.tokens() == all);
        let ghost words = self.words_left();
        let ghost state = self.state.lex_state();
        let ghost stack = self.returns_to();
        assert(all == lex(words, state, stack));
        proof {
            lemma_white_run(words);
        }

        // Skip whitespace, but if at least one whitespace word existed,
        // remember that, because we return a space token.
        let whitespace: bool = self.skip_whitespace();
        if whitespace {
            return Some(Token::Space);
        }
        assert(self.words_left() =~= words);

        // Function maybe has a body
        if self.state == TokensState::MaybeBody {
            match self.peek_word() {
                None => {
                    return None;
                },
                Some(word) => {
                    if is_char(word, '[') {
                        self.state = TokensState::Body;
                        assert(words.skip(1) =~= words.drop_first());
                        return Some(self.consumed(Token::LeftBracket));
                    } else {
                        self.unswitch();
                        assert(words.skip(0) =~= words);
                        assert(self.tokens() =~= all);
                    }
                },
            }
        }

        // Now all special cases are handled and we can finally look at the
        // next words.
        self.read_word()
    }
}

impl<'s> TokenStream<'s> for Tokens<'s> {
    closed spec fn wf(&self) -> bool {
        self.inv()
    }

    open spec fn stream(&self) -> StreamSpec {
        StreamSpec::Source(token_items(self.tokens()))
    }

    open spec fn settled(&self) -> bool {
        true
    }

    fn next(&mut self) -> (token: Option<Token<'s>>) {
        let ghost before = token_items(self.tokens());
        let token = self.read();
        assert(token_items(self.tokens()) =~= after_reads(before, 1));
        token
    }
}

/// Going back undoes a switch, whatever the states are: what is left, the state
/// and the states to return to are those from before, and so are the tokens.
pub proof fn law_unswitch_undoes_switch<'s>(
    before: Tokens<'s>,
    switched: Tokens<'s>,
    back: Tokens<'s>,
)
    requires
        switched.has_switched(&before),
        back.has_unswitched(&switched),
    ensures
        back.is_same(&before),
        back.tokens() == before.tokens(),
{
    assert(back.stack@ =~= before.stack@);
    assert(back.returns_to() =~= before.returns_to());
}

/// The tokens of plain text are words and double underscores.
pub proof fn lemma_text_tokens(word: Seq<char>)
    ensures
        forall|i: int| 0 <= i < text_tokens(word).len() ==> {
            ||| #[trigger] text_tokens(word)[i] is Word
            ||| text_tokens(word)[i] is DoubleUnderscore
        },
    decreases word.len(),
{
    lemma_first_pair(word);
    if has_pair(word) {
        lemma_text_tokens(word.skip(first_pair(word) + 2));
    }
}

/// The tokens as items of a stream.
pub open spec fn token_items(tokens: Seq<TokenSpec>) -> Items {
    tokens.map_values(|token: TokenSpec| Some(token))
}

/// The left brackets of two runs of items add up.
pub proof fn lemma_left_brackets_add(a: Items, b: Items)
    ensures
        left_brackets(a + b) == left_brackets(a) + left_brackets(b),
    decreases a.len(),
{
    if a.len() == 0 {
        assert(a + b =~= b);
    } else {
        lemma_left_brackets_add(a.drop_first(), b);
        assert((a + b).drop_first() =~= a.drop_first() + b);
    }
}

/// Items that are no left brackets do not count.
proof fn lemma_no_left_brackets(items: Items)
    requires
        forall|i: int| 0 <= i < items.len() ==> #[trigger] items[i] != Some(TokenSpec::LeftBracket),
    ensures
        left_brackets(items) == 0,
    decreases items.len(),
{
    if items.len() > 0 {
        let rest = items.drop_first();
        assert forall|i: int| 0 <= i < rest.len() implies #[trigger] rest[i] != Some(
            TokenSpec::LeftBracket,
        ) by {
            assert(rest[i] == items[i + 1]);
        }
        lemma_no_left_brackets(rest);
    }
}

/// Each left bracket comes of a word of its own.
proof fn lemma_lex_left_brackets(words: Seq<Seq<char>>, state: LexState, stack: Seq<LexState>)
    ensures
        left_brackets(token_items(lex(words, state, stack))) <= words.len(),
    decreases
            words.len(),
            if state is MaybeBody {
                stack.len() + 1
            } else {
                0
            },
{
    if words.len() > 0 {
        let step = lex_step(words, state, stack);
        let rest = lex(words.skip(step.used as int), step.state, step.stack);
        lemma_lex_step(words, state, stack);
        lemma_lex_left_brackets(words.skip(step.used as int), step.state, step.stack);
        lemma_left_brackets_add(token_items(step.tokens), token_items(rest));
        assert(token_items(step.tokens + rest) =~= token_items(step.tokens) + token_items(rest));
        if step.tokens.len() == 1 {
            reveal_with_fuel(left_brackets, 2);
        } else {
            lemma_text_tokens(words[0]);
            lemma_no_left_brackets(token_items(step.tokens));
        }
    }
}

impl<'s> Tokens<'s> {
    /// There are no more left brackets than words.
    proof fn lemma_left_brackets(&self)
        requires
            self.inv(),
        ensures
            left_brackets(token_items(self.tokens())) <= self.words@.len(),
    {
        let stack = self.returns_to();
        match self.state {
            TokensState::DoubleUnderscore(spline) => {
                let rest = lex(self.words_left(), top(stack), below(stack));
                lemma_lex_left_brackets(self.words_left(), top(stack), below(stack));
                lemma_left_brackets_add(token_items(spline.tokens()), token_items(rest));
                assert(token_items(self.tokens()) =~= token_items(spline.tokens()) + token_items(
                    rest,
                ));
                if spline.rest is Some {
                    lemma_text_tokens(spline.rest->0@);
                }
                lemma_no_left_brackets(token_items(spline.tokens()));
            },
            state => {
                lemma_lex_left_brackets(self.words_left(), state.lex_state(), stack);
            },
        }
    }
}

impl<'a, 's: 'a> IntoTokens<'a, 's> for Tokens<'s> {
    fn into_tokens(self) -> (tokens: AnyTokens<'a, 's>) {
        proof {
            self.lemma_left_brackets();
            assert(self.words@.len() == self.words.len());
        }
        AnyTokens::Source(Box::new(self))
    }
}

}
