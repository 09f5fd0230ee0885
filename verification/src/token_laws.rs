//! Laws of the tokenizer.

use crate::stream::{after_reads, depth_after_reads, lemma_depth_adds, Items, TokenStream};
use crate::syntax::TokenSpec;
use crate::text::{
    first_pair, has_pair, is_marker_char, is_unmarked, is_white, is_white_char, lemma_first_pair,
    pair_at,
};
use crate::tokens::{
    below, is_escapable, lemma_lex_step, lemma_text_tokens, lemma_white_run, lex, lex_step,
    text_tokens, token_items, tokenize, top, white_run, word_views, LexState, Tokens,
};
use vstd::prelude::*;
use vstd::seq_lib::lemma_flatten_concat;

verus! {

/// Whether the token belongs to a function header only.
pub open spec fn is_header_token(token: TokenSpec) -> bool {
    token is Colon || token is Equals
}

/// Whether in front of each token of a function header there is a left bracket
/// that is still open.
pub open spec fn headers_are_open(tokens: Seq<TokenSpec>) -> bool {
    forall|i: int|
        0 <= i < tokens.len() && is_header_token(#[trigger] tokens[i]) ==> depth_after_reads(
            token_items(tokens),
            0,
            i as nat,
        ) > 0
}

/// Whether the tokenizer returns to one state for each open bracket, and to the
/// text in the end.
spec fn states_fit(state: LexState, stack: Seq<LexState>, depth: nat) -> bool {
    &&& stack.len() > 0 ==> stack[0] is Body
    &&& forall|i: int| 0 <= i < stack.len() ==> !(#[trigger] stack[i] is MaybeBody)
    &&& state is Function ==> stack.len() > 0
    &&& if state is MaybeBody {
        stack.len() == depth + 1
    } else {
        stack.len() == depth
    }
}

/// Items that are no brackets leave the depth as it is.
proof fn lemma_same_depth(items: Items, depth: nat, reads: nat)
    requires
        reads <= items.len(),
        forall|i: int|
            0 <= i < reads ==> #[trigger] items[i] != Some(TokenSpec::LeftBracket) && items[i]
                != Some(TokenSpec::RightBracket),
    ensures
        depth_after_reads(items, depth, reads) == depth,
    decreases reads,
{
    if reads > 0 {
        let rest = items.drop_first();
        assert(items[0] != Some(TokenSpec::LeftBracket));
        assert forall|i: int| 0 <= i < reads - 1 implies #[trigger] rest[i] != Some(
            TokenSpec::LeftBracket,
        ) && rest[i] != Some(TokenSpec::RightBracket) by {
            assert(rest[i] == items[i + 1]);
        }
        lemma_same_depth(rest, depth, (reads - 1) as nat);
    }
}

/// The tokens of a step leave as many brackets open as there are states to return
/// to.
proof fn lemma_step_fits(
    words: Seq<Seq<char>>,
    state: LexState,
    stack: Seq<LexState>,
    depth: nat,
    items: Items,
)
    requires
        words.len() > 0,
        states_fit(state, stack, depth),
        token_items(lex_step(words, state, stack).tokens).is_prefix_of(items),
    ensures
        states_fit(
            lex_step(words, state, stack).state,
            lex_step(words, state, stack).stack,
            depth_after_reads(items, depth, lex_step(words, state, stack).tokens.len()),
        ),
{
    let step = lex_step(words, state, stack);
    let count = step.tokens.len();
    assert forall|i: int| 0 <= i < count implies #[trigger] items[i] == Some(step.tokens[i]) by {
        assert(token_items(step.tokens)[i] == items[i]);
    }
    lemma_text_tokens(words[0]);
    if count == 1 {
        reveal_with_fuel(depth_after_reads, 2);
        assert(items[0] == Some(step.tokens[0]));
    } else {
        assert forall|i: int| 0 <= i < count implies #[trigger] items[i] != Some(
            TokenSpec::LeftBracket,
        ) && items[i] != Some(TokenSpec::RightBracket) by {
            assert(items[i] == Some(step.tokens[i]));
        }
        lemma_same_depth(items, depth, count);
    }
}

proof fn lemma_headers_are_open(
    words: Seq<Seq<char>>,
    state: LexState,
    stack: Seq<LexState>,
    depth: nat,
)
    requires
        states_fit(state, stack, depth),
    ensures
        forall|i: int|
            0 <= i < lex(words, state, stack).len() && is_header_token(
                #[trigger] lex(words, state, stack)[i],
            ) ==> depth_after_reads(token_items(lex(words, state, stack)), depth, i as nat) > 0,
    decreases
            words.len(),
            if state is MaybeBody {
                stack.len() + 1
            } else {
                0
            },
{
    if words.len() > 0 {
        let step = lex_step(words, state, stack);
        let rest = lex(words.skip(step.used as int), step.state, step.stack);
        let all = step.tokens + rest;
        let items = token_items(all);
        let count = step.tokens.len();
        let inner = depth_after_reads(items, depth, count);
        lemma_lex_step(words, state, stack);
        lemma_text_tokens(words[0]);
        lemma_step_fits(words, state, stack, depth, items);
        lemma_headers_are_open(words.skip(step.used as int), step.state, step.stack, inner);
        assert forall|i: int|
            0 <= i < all.len() && is_header_token(#[trigger] all[i]) implies depth_after_reads(
            items,
            depth,
            i as nat,
        ) > 0 by {
            if i < count {
                assert(is_header_token(step.tokens[i]));
                assert(i == 0 && state is Function);
            } else {
                assert(is_header_token(rest[i - count]));
                lemma_depth_adds(items, depth, count, (i - count) as nat);
                assert(after_reads(items, count) =~= token_items(rest));
            }
        }
    }
}

/// Colons and equal signs are tokens of their own in function headers only: in
/// front of each such token there is a left bracket that is still open.
pub proof fn law_headers_are_open(words: Seq<Seq<char>>)
    ensures
        headers_are_open(tokenize(words)),
{
    lemma_headers_are_open(words, LexState::Body, Seq::empty(), 0);
}

/// By how much the left brackets outnumber the right brackets among the first
/// `count` words.
pub open spec fn word_balance(words: Seq<Seq<char>>, count: int) -> int
    decreases count,
{
    if count <= 0 || words.len() == 0 {
        0
    } else {
        word_balance(words.drop_first(), count - 1) + if words[0] == seq!['['] {
            1
        } else if words[0] == seq![']'] {
            -1
        } else {
            0int
        }
    }
}

/// Whether the first unbalanced right bracket stands at `at`, and no word up to it
/// can be escaped.
pub open spec fn word_closes_at(words: Seq<Seq<char>>, at: int) -> bool {
    &&& 0 <= at < words.len()
    &&& forall|i: int| 0 <= i <= at ==> #[trigger] words[i] != seq!['\\']
    &&& forall|i: int| 0 <= i <= at ==> #[trigger] word_balance(words, i) >= 0
    &&& word_balance(words, at + 1) < 0
}

/// Whether the tokenizer got into `state` and `stack` from the state `outer` and
/// the stack `base` by words with `depth` open brackets.
spec fn is_within(
    state: LexState,
    stack: Seq<LexState>,
    outer: LexState,
    base: Seq<LexState>,
    depth: int,
) -> bool {
    &&& !(outer is MaybeBody)
    &&& base.is_prefix_of(stack)
    &&& forall|i: int| base.len() <= i < stack.len() ==> !(#[trigger] stack[i] is MaybeBody)
    &&& stack.len() > base.len() ==> stack[base.len() as int] == outer
    &&& stack.len() == base.len() ==> state == outer
    &&& if state is MaybeBody {
        stack.len() == base.len() + depth + 1
    } else {
        stack.len() == base.len() + depth
    }
}

proof fn lemma_word_balance_adds(words: Seq<Seq<char>>, m: int, n: int)
    requires
        0 <= m <= words.len(),
        0 <= n,
    ensures
        word_balance(words, m + n) == word_balance(words, m) + word_balance(words.skip(m), n),
    decreases m,
{
    if m == 0 {
        assert(words.skip(0) =~= words);
    } else {
        lemma_word_balance_adds(words.drop_first(), m - 1, n);
        assert(words.drop_first().skip(m - 1) =~= words.skip(m));
    }
}

/// Words that are no brackets leave the balance as it is.
proof fn lemma_word_balance_same(words: Seq<Seq<char>>, count: int)
    requires
        0 <= count <= words.len(),
        forall|i: int|
            0 <= i < count ==> #[trigger] words[i] != seq!['['] && words[i] != seq![']'],
    ensures
        word_balance(words, count) == 0,
    decreases count,
{
    if count > 0 {
        let rest = words.drop_first();
        assert(words[0] != seq!['[']);
        assert forall|i: int| 0 <= i < count - 1 implies #[trigger] rest[i] != seq!['['] && rest[i]
            != seq![']'] by {
            assert(rest[i] == words[i + 1]);
        }
        lemma_word_balance_same(rest, count - 1);
    }
}

/// A step in front of a right bracket uses up no more than what stands in front
/// of it, and the states follow the brackets.
proof fn lemma_step_within(
    words: Seq<Seq<char>>,
    state: LexState,
    stack: Seq<LexState>,
    outer: LexState,
    base: Seq<LexState>,
    depth: int,
    at: int,
)
    requires
        0 <= at < words.len(),
        at > 0 || state is MaybeBody,
        words[0] != seq!['\\'],
        words[at] == seq![']'],
        is_within(state, stack, outer, base, depth),
        at > 0 ==> word_balance(words, 1) + depth >= 0,
    ensures
        lex_step(words, state, stack).used <= at,
        is_within(
            lex_step(words, state, stack).state,
            lex_step(words, state, stack).stack,
            outer,
            base,
            depth + word_balance(words, lex_step(words, state, stack).used as int),
        ),
{
    let step = lex_step(words, state, stack);
    lemma_white_run(words);
    assert(!is_white(words[at])) by {
        assert(words[at][0] == ']');
    }
    reveal_with_fuel(word_balance, 2);
    if is_white(words[0]) {
        assert forall|i: int| 0 <= i < step.used implies #[trigger] words[i] != seq!['[']
            && words[i] != seq![']'] by {
            assert(is_white(words[i]));
            lemma_white_word(words[i]);
        }
        lemma_word_balance_same(words, step.used as int);
    } else if step.used == 2 {
        assert(words[0][0] == '*' && words[1][0] == '*');
        assert(seq!['['][0] != '*' && seq![']'][0] != '*');
        lemma_word_balance_same(words, 2);
    } else if step.used == 1 {
        assert(seq!['['][0] != seq![']'][0]);
    }
}

/// Behind the bracket that closes what the tokenizer is in, it is in what follows.
proof fn lemma_closes(
    words: Seq<Seq<char>>,
    state: LexState,
    stack: Seq<LexState>,
    outer: LexState,
    base: Seq<LexState>,
    depth: int,
    at: int,
)
    requires
        0 <= at < words.len(),
        words[at] == seq![']'],
        forall|i: int| 0 <= i <= at ==> #[trigger] words[i] != seq!['\\'],
        forall|i: int| 0 <= i <= at ==> #[trigger] word_balance(words, i) + depth >= 0,
        word_balance(words, at) + depth == 0,
        is_within(state, stack, outer, base, depth),
    ensures
        if outer is Function {
            lex(words.skip(at + 1), LexState::MaybeBody, base)
        } else {
            lex(words.skip(at + 1), top(base), below(base))
        }.is_suffix_of(lex(words, state, stack)),
    decreases
            words.len(),
            if state is MaybeBody {
                stack.len() + 1
            } else {
                0
            },
{
    let step = lex_step(words, state, stack);
    let left = words.skip(step.used as int);
    let rest = lex(left, step.state, step.stack);
    let all = step.tokens + rest;
    assert(rest =~= all.subrange(step.tokens.len() as int, all.len() as int));
    lemma_lex_step(words, state, stack);
    if at == 0 && !(state is MaybeBody) {
        assert(stack =~= base);
        assert(words[0][0] == ']');
        assert(seq!['['][0] != ']');
        assert(!is_white(words[0]));
    } else {
        assert(words[0] != seq!['\\']);
        if at > 0 {
            assert(word_balance(words, 1) + depth >= 0);
        }
        lemma_step_within(words, state, stack, outer, base, depth, at);
        let used = step.used as int;
        let inner = depth + word_balance(words, used);
        assert forall|i: int| 0 <= i <= at - used implies #[trigger] word_balance(left, i) + inner
            >= 0 by {
            lemma_word_balance_adds(words, used, i);
            assert(word_balance(words, used + i) + depth >= 0);
        }
        assert forall|i: int| 0 <= i <= at - used implies #[trigger] left[i] != seq!['\\'] by {
            assert(left[i] == words[i + used]);
        }
        lemma_word_balance_adds(words, used, at - used);
        lemma_closes(left, step.state, step.stack, outer, base, inner, at - used);
        assert(left.skip(at - used + 1) =~= words.skip(at + 1));
    }
}

/// The first unbalanced right bracket is one, and what it closes is left behind it.
proof fn lemma_closed(words: Seq<Seq<char>>, state: LexState, stack: Seq<LexState>, at: int)
    requires
        !(state is MaybeBody),
        word_closes_at(words, at),
    ensures
        if state is Function {
            lex(words.skip(at + 1), LexState::MaybeBody, stack)
        } else {
            lex(words.skip(at + 1), top(stack), below(stack))
        }.is_suffix_of(lex(words, state, stack)),
{
    lemma_word_balance_adds(words, at, 1);
    reveal_with_fuel(word_balance, 2);
    assert(words.skip(at)[0] == words[at]);
    assert(word_balance(words, at) >= 0);
    lemma_closes(words, state, stack, state, stack, 0, at);
}

/// Behind a function invocation with a body the tokenizer is in what it was in in
/// front of it: a header goes on as a header, a body as a body, however deep the
/// invocations in the header and in the body are nested. Here the header closes
/// at `header` behind its left bracket, and the body at `body` behind its own.
pub proof fn law_invocation_left(
    words: Seq<Seq<char>>,
    state: LexState,
    stack: Seq<LexState>,
    header: int,
    body: int,
)
    requires
        !(state is MaybeBody),
        words.len() > 0,
        words[0] == seq!['['],
        word_closes_at(words.skip(1), header),
        header + 2 < words.len(),
        words[header + 2] == seq!['['],
        word_closes_at(words.skip(header + 3), body),
    ensures
        lex(words.skip(header + body + 4), state, stack).is_suffix_of(lex(words, state, stack)),
{
    let inside = words.skip(1);
    let behind = words.skip(header + 2);
    let within = words.skip(header + 3);
    let outer = stack.push(state);
    assert(words[0][0] == '[' && behind[0][0] == '[');
    assert(!is_white(words[0]) && !is_white(behind[0]));
    lemma_closed(inside, LexState::Function, outer, header);
    assert(inside.skip(header + 1) =~= behind);
    lemma_closed(within, LexState::Body, outer, body);
    assert(behind.skip(1) =~= within);
    assert(within.skip(body + 1) =~= words.skip(header + body + 4));
    assert(outer.drop_last() =~= stack);
    let first = lex(inside, LexState::Function, outer);
    let second = lex(within, LexState::Body, outer);
    let all = lex(words, state, stack);
    assert(all == seq![TokenSpec::LeftBracket] + first);
    assert(lex(behind, LexState::MaybeBody, outer) == seq![TokenSpec::LeftBracket] + second);
    assert(first =~= all.subrange(1, all.len() as int));
    assert(second =~= (seq![TokenSpec::LeftBracket] + second).subrange(
        1,
        second.len() + 1int,
    ));
}

/// Behind a function invocation without a body, too, the tokenizer is in what it
/// was in in front of it.
pub proof fn law_bare_invocation_left(
    words: Seq<Seq<char>>,
    state: LexState,
    stack: Seq<LexState>,
    header: int,
)
    requires
        !(state is MaybeBody),
        words.len() > 0,
        words[0] == seq!['['],
        word_closes_at(words.skip(1), header),
        header + 2 < words.len(),
        words[header + 2] != seq!['['],
        !is_white(words[header + 2]),
    ensures
        lex(words.skip(header + 2), state, stack).is_suffix_of(lex(words, state, stack)),
{
    let inside = words.skip(1);
    let behind = words.skip(header + 2);
    let outer = stack.push(state);
    assert(words[0][0] == '[');
    assert(!is_white(words[0]));
    lemma_closed(inside, LexState::Function, outer, header);
    assert(inside.skip(header + 1) =~= behind);
    assert(outer.drop_last() =~= stack);
    assert(behind.skip(0) =~= behind);
    let first = lex(inside, LexState::Function, outer);
    let all = lex(words, state, stack);
    assert(all == seq![TokenSpec::LeftBracket] + first);
    assert(first =~= all.subrange(1, all.len() as int));
    assert(lex(behind, LexState::MaybeBody, outer) =~= lex(behind, state, stack));
}

/// Whether no two spaces stand side by side.
pub open spec fn spaces_apart(tokens: Seq<TokenSpec>) -> bool {
    forall|i: int, j: int|
        0 <= i < j < tokens.len() && j == i + 1 && #[trigger] tokens[i] is Space ==> !(
        #[trigger] tokens[j] is Space)
}

/// A step at whitespace gives a space, and no other step gives one.
proof fn lemma_step_space(words: Seq<Seq<char>>, state: LexState, stack: Seq<LexState>)
    requires
        words.len() > 0,
    ensures
        is_white(words[0]) ==> lex_step(words, state, stack).tokens == seq![TokenSpec::Space]
            && lex_step(words, state, stack).used == white_run(words),
        !is_white(words[0]) ==> forall|i: int|
            0 <= i < lex_step(words, state, stack).tokens.len() ==> !(#[trigger] lex_step(
                words,
                state,
                stack,
            ).tokens[i] is Space),
        lex_step(words, state, stack).used > 0 ==> lex_step(words, state, stack).tokens.len() > 0,
{
    lemma_text_tokens(words[0]);
    lemma_first_pair(words[0]);
}

proof fn lemma_spaces_apart(words: Seq<Seq<char>>, state: LexState, stack: Seq<LexState>)
    ensures
        spaces_apart(lex(words, state, stack)),
        lex(words, state, stack).len() > 0 && lex(words, state, stack)[0] is Space ==> words.len()
            > 0 && is_white(words[0]),
    decreases
            words.len(),
            if state is MaybeBody {
                stack.len() + 1
            } else {
                0
            },
{
    if words.len() > 0 {
        let step = lex_step(words, state, stack);
        let left = words.skip(step.used as int);
        let rest = lex(left, step.state, step.stack);
        let all = step.tokens + rest;
        lemma_lex_step(words, state, stack);
        lemma_white_run(words);
        lemma_step_space(words, state, stack);
        lemma_spaces_apart(left, step.state, step.stack);
        assert(step.used == 0 ==> left =~= words);
        let n = step.tokens.len() as int;
        assert forall|i: int, j: int|
            0 <= i < j < all.len() && j == i + 1 && #[trigger] all[i] is Space implies !(
        #[trigger] all[j] is Space) by {
            if i >= n {
                assert(rest[i - n] is Space);
                assert(all[j] == rest[j - n]);
            } else if j < n {
                assert(all[i] == step.tokens[i]);
                assert(all[j] == step.tokens[j]);
            } else {
                assert(all[i] == step.tokens[i]);
                assert(is_white(words[0]));
                assert(all[j] == rest[0]);
            }
        }
        if all.len() > 0 && all[0] is Space {
            if n == 0 {
                assert(all[0] == rest[0]);
            } else {
                assert(all[0] == step.tokens[0]);
            }
        }
    }
}

/// A run of whitespace is one space: no two space tokens stand side by side.
pub proof fn law_spaces_apart(words: Seq<Seq<char>>)
    ensures
        spaces_apart(tokenize(words)),
{
    lemma_spaces_apart(words, LexState::Body, Seq::empty());
}

/// Whether each word among the tokens has a character.
pub open spec fn words_not_empty(tokens: Seq<TokenSpec>) -> bool {
    forall|i: int|
        0 <= i < tokens.len() && #[trigger] tokens[i] is Word ==> tokens[i]->Word_0.len() > 0
}

proof fn lemma_text_not_empty(word: Seq<char>)
    ensures
        words_not_empty(text_tokens(word)),
    decreases word.len(),
{
    lemma_first_pair(word);
    if has_pair(word) {
        lemma_text_not_empty(word.skip(first_pair(word) + 2));
    }
}

proof fn lemma_words_not_empty(words: Seq<Seq<char>>, state: LexState, stack: Seq<LexState>)
    requires
        forall|i: int| 0 <= i < words.len() ==> (#[trigger] words[i]).len() > 0,
    ensures
        words_not_empty(lex(words, state, stack)),
    decreases
            words.len(),
            if state is MaybeBody {
                stack.len() + 1
            } else {
                0
            },
{
    if words.len() > 0 {
        let step = lex_step(words, state, stack);
        lemma_lex_step(words, state, stack);
        lemma_text_not_empty(words[0]);
        lemma_words_not_empty(words.skip(step.used as int), step.state, step.stack);
    }
}

/// The tokens of words that are not empty hold no empty word.
pub proof fn law_words_not_empty(words: Seq<Seq<char>>)
    requires
        forall|i: int| 0 <= i < words.len() ==> (#[trigger] words[i]).len() > 0,
    ensures
        words_not_empty(tokenize(words)),
{
    lemma_words_not_empty(words, LexState::Body, Seq::empty());
}

/// The text that a token stands for.
pub open spec fn spelled(token: TokenSpec) -> Seq<char> {
    match token {
        TokenSpec::Space => seq![' '],
        TokenSpec::Newline => seq!['\n'],
        TokenSpec::LeftBracket => seq!['['],
        TokenSpec::RightBracket => seq![']'],
        TokenSpec::Colon => seq![':'],
        TokenSpec::Equals => seq!['='],
        TokenSpec::DoubleUnderscore => seq!['_', '_'],
        TokenSpec::DoubleStar => seq!['*', '*'],
        TokenSpec::Dollar => seq!['$'],
        TokenSpec::Hashtag => seq!['#'],
        TokenSpec::Word(word) => word,
    }
}

/// The text that the tokens stand for.
pub open spec fn spelled_out(tokens: Seq<TokenSpec>) -> Seq<char>
    decreases tokens.len(),
{
    if tokens.len() == 0 {
        Seq::empty()
    } else {
        spelled(tokens[0]) + spelled_out(tokens.drop_first())
    }
}

proof fn lemma_spelled_out_add(a: Seq<TokenSpec>, b: Seq<TokenSpec>)
    ensures
        spelled_out(a + b) == spelled_out(a) + spelled_out(b),
    decreases a.len(),
{
    if a.len() == 0 {
        assert(a + b =~= b);
        assert(spelled_out(a) + spelled_out(b) =~= spelled_out(b));
    } else {
        lemma_spelled_out_add(a.drop_first(), b);
        assert((a + b).drop_first() =~= a.drop_first() + b);
        assert(spelled(a[0]) + spelled_out(a.drop_first()) + spelled_out(b) =~= spelled(a[0]) + (
        spelled_out(a.drop_first()) + spelled_out(b)));
    }
}

proof fn lemma_spelled_one(token: TokenSpec)
    ensures
        spelled_out(seq![token]) == spelled(token),
{
    reveal_with_fuel(spelled_out, 2);
    assert(spelled(token) + Seq::<char>::empty() =~= spelled(token));
    assert(seq![token].drop_first() =~= Seq::empty());
}

/// Splitting a word at its double underscores loses nothing: one behind the
/// other, the parts are the word.
pub proof fn law_text_spelled_out(word: Seq<char>)
    ensures
        spelled_out(text_tokens(word)) == word,
    decreases word.len(),
{
    let at = first_pair(word);
    let front = word.take(at);
    let text = if front.len() == 0 {
        Seq::empty()
    } else {
        seq![TokenSpec::Word(front)]
    };
    lemma_first_pair(word);
    lemma_spelled_one(TokenSpec::Word(front));
    assert(spelled_out(text) =~= front);
    if has_pair(word) {
        let rest = word.skip(at + 2);
        law_text_spelled_out(rest);
        lemma_spelled_one(TokenSpec::DoubleUnderscore);
        lemma_spelled_out_add(text, seq![TokenSpec::DoubleUnderscore]);
        lemma_spelled_out_add(text + seq![TokenSpec::DoubleUnderscore], text_tokens(rest));
        assert(front + seq!['_', '_'] + rest =~= word);
    } else {
        assert(front =~= word);
    }
}

/// Whether tokens can stand for the words character by character: there is no
/// backslash that could escape, lines end in a line feed alone, and each run of
/// whitespace is one blank.
pub open spec fn is_plain(words: Seq<Seq<char>>) -> bool {
    &&& forall|i: int|
        0 <= i < words.len() ==> {
            &&& #[trigger] words[i] != seq!['\\']
            &&& words[i] != seq!['\r', '\n']
            &&& is_white(words[i]) ==> words[i] == seq![' ']
        }
    &&& forall|i: int, j: int|
        0 <= i < j < words.len() && j == i + 1 && is_white(#[trigger] words[i]) ==> !is_white(
            #[trigger] words[j],
        )
}

proof fn lemma_step_spelled_out(words: Seq<Seq<char>>, state: LexState, stack: Seq<LexState>)
    requires
        words.len() > 0,
        is_plain(words),
    ensures
        spelled_out(lex_step(words, state, stack).tokens) + words.skip(
            lex_step(words, state, stack).used as int,
        ).flatten() == words.flatten(),
{
    let step = lex_step(words, state, stack);
    let left = words.skip(step.used as int);
    lemma_lex_step(words, state, stack);
    lemma_white_run(words);
    law_text_spelled_out(words[0]);
    if step.tokens.len() == 1 {
        lemma_spelled_one(step.tokens[0]);
        assert(step.tokens =~= seq![step.tokens[0]]);
    }
    if step.used == 0 {
        assert(left =~= words);
        assert(spelled_out(step.tokens) + words.flatten() =~= words.flatten());
    } else if is_white(words[0]) {
        assert(white_run(words) == 1) by {
            if words.len() > 1 && white_run(words) > 1 {
                assert(is_white(words[1]));
            }
        }
        assert(left =~= words.drop_first());
    } else if step.used == 1 {
        assert(left =~= words.drop_first());
        assert(spelled_out(step.tokens) =~= words[0]);
    } else {
        assert(words[1] == words.drop_first()[0]);
        assert(left =~= words.drop_first().drop_first());
        assert(spelled_out(step.tokens) =~= words[0] + words[1]);
        reveal_with_fuel(Seq::flatten, 3);
        assert(words[0] + words[1] + left.flatten() =~= words[0] + (words[1] + left.flatten()));
    }
}

proof fn lemma_spelled_out(words: Seq<Seq<char>>, state: LexState, stack: Seq<LexState>)
    requires
        is_plain(words),
    ensures
        spelled_out(lex(words, state, stack)) == words.flatten(),
    decreases
            words.len(),
            if state is MaybeBody {
                stack.len() + 1
            } else {
                0
            },
{
    if words.len() > 0 {
        let step = lex_step(words, state, stack);
        let left = words.skip(step.used as int);
        lemma_lex_step(words, state, stack);
        assert(is_plain(left)) by {
            assert forall|i: int| 0 <= i < left.len() implies {
                &&& #[trigger] left[i] != seq!['\\']
                &&& left[i] != seq!['\r', '\n']
                &&& is_white(left[i]) ==> left[i] == seq![' ']
            } by {
                assert(left[i] == words[i + step.used]);
            }
        }
        lemma_spelled_out(left, step.state, step.stack);
        lemma_step_spelled_out(words, state, stack);
        lemma_spelled_out_add(step.tokens, lex(left, step.state, step.stack));
    }
}

/// Where each token stands for one text only, the tokens are the text, one behind
/// the other.
pub proof fn law_plain_spelled_out(words: Seq<Seq<char>>)
    requires
        is_plain(words),
    ensures
        spelled_out(tokenize(words)) == words.flatten(),
{
    lemma_spelled_out(words, LexState::Body, Seq::empty());
}

/// Whether the word ends a line.
pub open spec fn ends_line(word: Seq<char>) -> bool {
    word == seq!['\n'] || word == seq!['\r', '\n']
}

/// Whether the token can stand for the piece of text.
pub open spec fn stands_for(token: TokenSpec, piece: Seq<char>) -> bool {
    match token {
        TokenSpec::Space => is_white(piece),
        TokenSpec::Newline => ends_line(piece),
        _ => piece == spelled(token),
    }
}

/// Whether the text falls into pieces that are not empty, one for each token and
/// in their order.
pub open spec fn are_pieces(
    pieces: Seq<Seq<char>>,
    tokens: Seq<TokenSpec>,
    text: Seq<char>,
) -> bool {
    &&& pieces.len() == tokens.len()
    &&& pieces.flatten() == text
    &&& forall|i: int|
        0 <= i < pieces.len() ==> (#[trigger] pieces[i]).len() > 0 && stands_for(
            tokens[i],
            pieces[i],
        )
}

/// Whitespace words make whitespace.
proof fn lemma_white_flatten(words: Seq<Seq<char>>)
    requires
        forall|i: int| 0 <= i < words.len() ==> is_white(#[trigger] words[i]),
    ensures
        is_white(words.flatten()),
    decreases words.len(),
{
    if words.len() > 0 {
        let rest = words.drop_first();
        assert forall|i: int| 0 <= i < rest.len() implies is_white(#[trigger] rest[i]) by {
            assert(rest[i] == words[i + 1]);
        }
        lemma_white_flatten(rest);
        assert(is_white(words[0]));
    }
}

/// The parts of a word that is split at its double underscores are its pieces.
proof fn lemma_text_pieces(word: Seq<char>) -> (pieces: Seq<Seq<char>>)
    requires
        word.len() > 0,
    ensures
        are_pieces(pieces, text_tokens(word), word),
{
    let tokens = text_tokens(word);
    let pieces = tokens.map_values(|token: TokenSpec| spelled(token));
    law_text_spelled_out(word);
    lemma_spelled_flatten(tokens);
    lemma_text_not_empty(word);
    lemma_text_tokens(word);
    assert forall|i: int| 0 <= i < pieces.len() implies (#[trigger] pieces[i]).len() > 0
        && stands_for(tokens[i], pieces[i]) by {
        assert(tokens[i] is Word || tokens[i] is DoubleUnderscore);
    }
    pieces
}

proof fn lemma_spelled_flatten(tokens: Seq<TokenSpec>)
    ensures
        tokens.map_values(|token: TokenSpec| spelled(token)).flatten() == spelled_out(tokens),
    decreases tokens.len(),
{
    let pieces = tokens.map_values(|token: TokenSpec| spelled(token));
    if tokens.len() > 0 {
        lemma_spelled_flatten(tokens.drop_first());
        assert(pieces.drop_first() =~= tokens.drop_first().map_values(
            |token: TokenSpec| spelled(token),
        ));
    }
}

/// The words of a step are the pieces of its tokens.
proof fn lemma_step_pieces(words: Seq<Seq<char>>, state: LexState, stack: Seq<LexState>) -> (pieces:
    Seq<Seq<char>>)
    requires
        words.len() > 0,
        forall|i: int| 0 <= i < words.len() ==> (#[trigger] words[i]).len() > 0,
        words[0] != seq!['\\'],
    ensures
        are_pieces(
            pieces,
            lex_step(words, state, stack).tokens,
            words.take(lex_step(words, state, stack).used as int).flatten(),
        ),
{
    let step = lex_step(words, state, stack);
    let front = words.take(step.used as int);
    lemma_lex_step(words, state, stack);
    lemma_white_run(words);
    assert(words[0].len() > 0);
    if step.used == 0 {
        assert(front =~= Seq::empty());
        Seq::empty()
    } else if is_white(words[0]) {
        let piece = front.flatten();
        assert forall|i: int| 0 <= i < front.len() implies is_white(#[trigger] front[i]) by {
            assert(front[i] == words[i]);
        }
        lemma_white_flatten(front);
        assert(front[0] == words[0]);
        assert(seq![piece].drop_first() =~= Seq::empty());
        reveal_with_fuel(Seq::flatten, 2);
        assert(seq![piece].flatten() =~= piece);
        seq![piece]
    } else if step.used == 2 {
        let piece = seq!['*', '*'];
        assert(words[1] == words.drop_first()[0]);
        reveal_with_fuel(Seq::flatten, 3);
        assert(front.drop_first().drop_first() =~= Seq::empty());
        assert(front.flatten() =~= piece);
        assert(seq![piece].drop_first() =~= Seq::empty());
        assert(seq![piece].flatten() =~= piece);
        seq![piece]
    } else {
        let word = words[0];
        reveal_with_fuel(Seq::flatten, 2);
        assert(front.drop_first() =~= Seq::empty());
        assert(front.flatten() =~= word);
        assert(seq![word].drop_first() =~= Seq::empty());
        assert(seq![word].flatten() =~= word);
        if step.tokens == text_tokens(word) {
            lemma_text_pieces(word)
        } else {
            assert(step.tokens.len() == 1);
            assert(stands_for(step.tokens[0], word));
            seq![word]
        }
    }
}

proof fn lemma_pieces(words: Seq<Seq<char>>, state: LexState, stack: Seq<LexState>) -> (pieces: Seq<
    Seq<char>,
>)
    requires
        forall|i: int|
            0 <= i < words.len() ==> (#[trigger] words[i]).len() > 0 && words[i] != seq!['\\'],
    ensures
        are_pieces(pieces, lex(words, state, stack), words.flatten()),
    decreases
            words.len(),
            if state is MaybeBody {
                stack.len() + 1
            } else {
                0
            },
{
    if words.len() == 0 {
        Seq::empty()
    } else {
        let step = lex_step(words, state, stack);
        let left = words.skip(step.used as int);
        lemma_lex_step(words, state, stack);
        assert(words[0].len() > 0);
        assert forall|i: int| 0 <= i < left.len() implies (#[trigger] left[i]).len() > 0 && left[i]
            != seq!['\\'] by {
            assert(left[i] == words[i + step.used]);
        }
        let front = lemma_step_pieces(words, state, stack);
        let rest = lemma_pieces(left, step.state, step.stack);
        lemma_flatten_concat(front, rest);
        lemma_flatten_concat(words.take(step.used as int), left);
        assert(words.take(step.used as int) + left =~= words);
        front + rest
    }
}

/// Tokenization loses nothing: a text without backslashes falls into pieces, one
/// for each token. A space stands for whitespace, a newline for the end of a line
/// in either style, and every other token for the one text that it is written as.
pub proof fn law_spelled_out(words: Seq<Seq<char>>)
    requires
        forall|i: int|
            0 <= i < words.len() ==> (#[trigger] words[i]).len() > 0 && words[i] != seq!['\\'],
    ensures
        exists|pieces: Seq<Seq<char>>| are_pieces(pieces, tokenize(words), words.flatten()),
{
    let pieces = lemma_pieces(words, LexState::Body, Seq::empty());
    assert(are_pieces(pieces, tokenize(words), words.flatten()));
}

/// Whether the words differ at most in the whitespace that they use and in how
/// they end lines.
pub open spec fn same_but_white(a: Seq<Seq<char>>, b: Seq<Seq<char>>) -> bool {
    &&& a.len() == b.len()
    &&& forall|i: int|
        0 <= i < a.len() ==> {
            ||| #[trigger] a[i] == #[trigger] b[i]
            ||| is_white(a[i]) && is_white(b[i])
            ||| ends_line(a[i]) && ends_line(b[i])
        }
}

/// A word that ends a line has no other meaning.
proof fn lemma_ends_line(word: Seq<char>)
    requires
        ends_line(word),
    ensures
        !is_white(word),
        !is_escapable(word),
        word != seq!['['],
        word != seq![']'],
        word != seq!['$'],
        word != seq!['#'],
        word != seq![':'],
        word != seq!['='],
        word != seq!['*'],
        word != seq!['\\'],
{
    let last = word[word.len() - 1];
    assert(last == '\n');
    if word.len() == 1 {
        assert(word[0] == '\n');
        assert(seq!['['][0] != word[0] && seq![']'][0] != word[0] && seq!['$'][0] != word[0]
            && seq!['#'][0] != word[0] && seq![':'][0] != word[0] && seq!['='][0] != word[0]
            && seq!['*'][0] != word[0] && seq!['\\'][0] != word[0] && seq!['_'][0] != word[0]);
    } else {
        assert(word[0] == '\r');
    }
    assert(!pair_at(word, 0));
}

/// Whitespace is no word with a meaning.
proof fn lemma_white_word(word: Seq<char>)
    requires
        is_white(word),
    ensures
        !is_escapable(word),
        word != seq!['*'],
        word != seq!['['],
        word != seq![']'],
{
    if word.len() > 0 {
        let c = word[0];
        assert(c != '[' && c != ']' && c != '$' && c != '#' && c != '\\' && c != ':' && c != '='
            && c != '*' && c != '_');
    }
}

proof fn lemma_same_run(a: Seq<Seq<char>>, b: Seq<Seq<char>>)
    requires
        same_but_white(a, b),
    ensures
        white_run(a) == white_run(b),
    decreases a.len(),
{
    if a.len() > 0 {
        assert(a[0] == b[0] || is_white(a[0]) && is_white(b[0]) || ends_line(a[0]) && ends_line(
            b[0],
        ));
        if ends_line(a[0]) && ends_line(b[0]) {
            lemma_ends_line(a[0]);
            lemma_ends_line(b[0]);
        }
        assert(is_white(a[0]) == is_white(b[0]));
        if is_white(a[0]) {
            lemma_same_run(a.drop_first(), b.drop_first());
        }
    }
}

proof fn lemma_same_step(
    a: Seq<Seq<char>>,
    b: Seq<Seq<char>>,
    state: LexState,
    stack: Seq<LexState>,
)
    requires
        a.len() > 0,
        same_but_white(a, b),
    ensures
        lex_step(a, state, stack) == lex_step(b, state, stack),
{
    lemma_same_run(a, b);
    assert(a[0] == b[0] || is_white(a[0]) && is_white(b[0]) || ends_line(a[0]) && ends_line(b[0]));
    if is_white(a[0]) && is_white(b[0]) {
    } else if ends_line(a[0]) && ends_line(b[0]) {
        lemma_ends_line(a[0]);
        lemma_ends_line(b[0]);
    } else {
        assert(a[0] == b[0]);
        if a.len() > 1 {
            assert(a[1] == b[1] || is_white(a[1]) && is_white(b[1]) || ends_line(a[1])
                && ends_line(b[1]));
            if is_white(a[1]) && is_white(b[1]) {
                lemma_white_word(a[1]);
                lemma_white_word(b[1]);
            } else if ends_line(a[1]) && ends_line(b[1]) {
                lemma_ends_line(a[1]);
                lemma_ends_line(b[1]);
            }
        }
    }
}

proof fn lemma_same_tokens(
    a: Seq<Seq<char>>,
    b: Seq<Seq<char>>,
    state: LexState,
    stack: Seq<LexState>,
)
    requires
        same_but_white(a, b),
    ensures
        lex(a, state, stack) == lex(b, state, stack),
    decreases
            a.len(),
            if state is MaybeBody {
                stack.len() + 1
            } else {
                0
            },
{
    if a.len() > 0 {
        let step = lex_step(a, state, stack);
        lemma_same_step(a, b, state, stack);
        lemma_lex_step(a, state, stack);
        let rest_a = a.skip(step.used as int);
        let rest_b = b.skip(step.used as int);
        assert(same_but_white(rest_a, rest_b)) by {
            assert forall|i: int| 0 <= i < rest_a.len() implies {
                ||| #[trigger] rest_a[i] == #[trigger] rest_b[i]
                ||| is_white(rest_a[i]) && is_white(rest_b[i])
                ||| ends_line(rest_a[i]) && ends_line(rest_b[i])
            } by {
                assert(a[i + step.used] == b[i + step.used] || is_white(a[i + step.used])
                    && is_white(b[i + step.used]) || ends_line(a[i + step.used]) && ends_line(
                    b[i + step.used],
                ));
            }
        }
        lemma_same_tokens(rest_a, rest_b, step.state, step.stack);
    }
}

/// Both styles of line ends, and all whitespace, are taken alike: texts that
/// differ in nothing else have the same tokens.
pub proof fn law_white_alike(a: Seq<Seq<char>>, b: Seq<Seq<char>>)
    requires
        same_but_white(a, b),
    ensures
        tokenize(a) == tokenize(b),
{
    lemma_same_tokens(a, b, LexState::Body, Seq::empty());
}

/// A backslash in front of a word that it can escape makes the word plain text:
/// it is one token, in a header as in a body, and what follows it is taken as
/// if neither were there.
pub proof fn law_escaped(words: Seq<Seq<char>>, state: LexState, stack: Seq<LexState>)
    requires
        words.len() > 1,
        words[0] == seq!['\\'],
        is_escapable(words[1]),
        !(state is MaybeBody),
    ensures
        lex(words, state, stack) == seq![TokenSpec::Word(words[1])] + lex(
            words.skip(2),
            state,
            stack,
        ),
{
    assert(words[0][0] == '\\');
    assert(!is_white(words[0]));
    assert(seq!['['][0] != '\\' && seq![']'][0] != '\\' && seq!['$'][0] != '\\' && seq!['#'][0]
        != '\\' && seq![':'][0] != '\\' && seq!['='][0] != '\\' && seq!['*'][0] != '\\'
        && seq!['\n'][0] != '\\' && seq!['\r', '\n'][0] != '\\');
}

/// Behind a function header, an escaped word is plain text too, and no body of
/// the function: what follows it is taken as it is behind the function.
pub proof fn law_escaped_behind_header(words: Seq<Seq<char>>, stack: Seq<LexState>)
    requires
        words.len() > 1,
        words[0] == seq!['\\'],
        is_escapable(words[1]),
        !(top(stack) is MaybeBody),
    ensures
        lex(words, LexState::MaybeBody, stack) == seq![TokenSpec::Word(words[1])] + lex(
            words.skip(2),
            top(stack),
            below(stack),
        ),
{
    assert(words[0][0] == '\\');
    assert(seq!['['][0] != '\\');
    assert(!is_white(words[0]));
    law_escaped(words, top(stack), below(stack));
    assert(words.skip(0) =~= words);
    assert(lex(words, LexState::MaybeBody, stack) =~= lex(words, top(stack), below(stack)));
}

/// Whether no word among the tokens holds a double underscore.
pub open spec fn pairs_split(tokens: Seq<TokenSpec>) -> bool {
    forall|i: int|
        0 <= i < tokens.len() && #[trigger] tokens[i] is Word ==> !has_pair(tokens[i]->Word_0)
}

proof fn lemma_text_pairs_split(word: Seq<char>)
    ensures
        pairs_split(text_tokens(word)),
    decreases word.len(),
{
    let at = first_pair(word);
    let front = word.take(at);
    lemma_first_pair(word);
    lemma_first_pair(front);
    assert(!has_pair(front)) by {
        if has_pair(front) {
            assert(pair_at(word, first_pair(front)));
        }
    }
    if has_pair(word) {
        lemma_text_pairs_split(word.skip(at + 2));
    }
}

proof fn lemma_pairs_split(words: Seq<Seq<char>>, state: LexState, stack: Seq<LexState>)
    requires
        forall|i: int| 0 <= i < words.len() ==> #[trigger] words[i] != seq!['\\'],
    ensures
        pairs_split(lex(words, state, stack)),
    decreases
            words.len(),
            if state is MaybeBody {
                stack.len() + 1
            } else {
                0
            },
{
    if words.len() > 0 {
        let step = lex_step(words, state, stack);
        lemma_lex_step(words, state, stack);
        lemma_text_pairs_split(words[0]);
        lemma_pairs_split(words.skip(step.used as int), step.state, step.stack);
    }
}

/// A double underscore is a token of its own wherever it stands, unless it is
/// escaped: without backslashes no word token holds one.
pub proof fn law_pairs_split(words: Seq<Seq<char>>)
    requires
        forall|i: int| 0 <= i < words.len() ==> #[trigger] words[i] != seq!['\\'],
    ensures
        pairs_split(tokenize(words)),
{
    lemma_pairs_split(words, LexState::Body, Seq::empty());
}

/// Whether the word has a meaning wherever it stands.
pub open spec fn is_marker(word: Seq<char>) -> bool {
    ||| word == seq!['[']
    ||| word == seq![']']
    ||| word == seq!['$']
    ||| word == seq!['#']
    ||| ends_line(word)
}

/// Whether no word among the tokens has a meaning.
pub open spec fn no_markers(tokens: Seq<TokenSpec>) -> bool {
    forall|i: int|
        0 <= i < tokens.len() && #[trigger] tokens[i] is Word ==> !is_marker(tokens[i]->Word_0)
}

proof fn lemma_marker_chars(word: Seq<char>)
    requires
        is_unmarked(word),
    ensures
        !is_marker(word),
{
    if word.len() > 0 {
        assert(!is_marker_char(word[0]));
        assert(!is_marker_char(word[word.len() - 1]));
    }
}

proof fn lemma_text_no_markers(word: Seq<char>)
    requires
        is_unmarked(word),
    ensures
        no_markers(text_tokens(word)),
    decreases word.len(),
{
    let at = first_pair(word);
    lemma_first_pair(word);
    lemma_marker_chars(word.take(at));
    if has_pair(word) {
        lemma_text_no_markers(word.skip(at + 2));
    }
}

proof fn lemma_no_markers(words: Seq<Seq<char>>, state: LexState, stack: Seq<LexState>)
    requires
        forall|i: int|
            0 <= i < words.len() ==> #[trigger] words[i] != seq!['\\'] && (has_pair(words[i])
                ==> is_unmarked(words[i])),
    ensures
        no_markers(lex(words, state, stack)),
    decreases
            words.len(),
            if state is MaybeBody {
                stack.len() + 1
            } else {
                0
            },
{
    if words.len() > 0 {
        let step = lex_step(words, state, stack);
        let left = words.skip(step.used as int);
        lemma_lex_step(words, state, stack);
        assert(words[0] != seq!['\\']);
        if has_pair(words[0]) {
            lemma_text_no_markers(words[0]);
        } else {
            lemma_first_pair(words[0]);
            assert(words[0].take(words[0].len() as int) =~= words[0]);
        }
        assert forall|i: int| 0 <= i < left.len() implies #[trigger] left[i] != seq!['\\'] && (
        has_pair(left[i]) ==> is_unmarked(left[i])) by {
            assert(left[i] == words[i + step.used]);
        }
        lemma_no_markers(left, step.state, step.stack);
    }
}

/// What has a meaning is not taken for text: without backslashes no word token is
/// a bracket, a dollar sign, a hashtag or the end of a line, where no word holds
/// such a character beside a double underscore.
pub proof fn law_no_markers(words: Seq<Seq<char>>)
    requires
        forall|i: int|
            0 <= i < words.len() ==> #[trigger] words[i] != seq!['\\'] && (has_pair(words[i])
                ==> is_unmarked(words[i])),
    ensures
        no_markers(tokenize(words)),
{
    lemma_no_markers(words, LexState::Body, Seq::empty());
}

/// Each word is part of the text.
proof fn lemma_part_of_text(words: Seq<Seq<char>>, at: int, i: int)
    requires
        0 <= at < words.len(),
        0 <= i < words[at].len(),
    ensures
        words.flatten().contains(words[at][i]),
    decreases words.len(),
{
    let rest = words.drop_first();
    let text = words.flatten();
    assert(text =~= words[0] + rest.flatten());
    if at == 0 {
        assert(text[i] == words[0][i]);
    } else {
        lemma_part_of_text(rest, at - 1, i);
        let tail = rest.flatten();
        let j = choose|j: int| 0 <= j < tail.len() && tail[j] == rest[at - 1][i];
        assert(text[words[0].len() + j] == words[at][i]);
    }
}

/// What holds of the tokens of a text that is cut at its word boundaries: spaces
/// stand apart, no word is empty, and in a text without backslashes no word holds a
/// double underscore or is a bracket, a dollar sign, a hashtag or the end of a line.
pub proof fn law_source_tokens(source: Seq<char>, words: Seq<Seq<char>>)
    requires
        words.flatten() == source,
        forall|i: int| 0 <= i < words.len() ==> (#[trigger] words[i]).len() > 0,
        forall|i: int|
            0 <= i < words.len() && has_pair(#[trigger] words[i]) ==> is_unmarked(words[i]),
    ensures
        spaces_apart(tokenize(words)),
        words_not_empty(tokenize(words)),
        !source.contains('\\') ==> pairs_split(tokenize(words)),
        !source.contains('\\') ==> no_markers(tokenize(words)),
{
    law_spaces_apart(words);
    law_words_not_empty(words);
    if !source.contains('\\') {
        assert forall|i: int| 0 <= i < words.len() implies #[trigger] words[i] != seq!['\\'] by {
            if words[i] == seq!['\\'] {
                lemma_part_of_text(words, i, 0);
            }
        }
        law_pairs_split(words);
        law_no_markers(words);
    }
}

/// What the tokenizer is in behind the words, and what it returns to from there.
pub open spec fn lex_end(
    words: Seq<Seq<char>>,
    state: LexState,
    stack: Seq<LexState>,
) -> (LexState, Seq<LexState>)
    decreases
            words.len(),
            if state is MaybeBody {
                stack.len() + 1
            } else {
                0
            },
    via lex_end_decreases
{
    if words.len() == 0 {
        (state, stack)
    } else {
        let step = lex_step(words, state, stack);
        lex_end(words.skip(step.used as int), step.state, step.stack)
    }
}

#[via_fn]
proof fn lex_end_decreases(words: Seq<Seq<char>>, state: LexState, stack: Seq<LexState>) {
    if words.len() > 0 {
        lemma_lex_step(words, state, stack);
    }
}

/// Whether what follows the word does not matter to its tokens.
pub open spec fn stands_alone(word: Seq<char>) -> bool {
    !is_white(word) && word != seq!['*'] && word != seq!['\\']
}

proof fn lemma_white_run_add(a: Seq<Seq<char>>, b: Seq<Seq<char>>)
    requires
        a.len() > 0,
        !is_white(a.last()),
    ensures
        white_run(a + b) == white_run(a),
    decreases a.len(),
{
    let rest = a.drop_first();
    assert((a + b).drop_first() =~= rest + b);
    if is_white(a[0]) {
        assert(rest.last() == a.last());
        lemma_white_run_add(rest, b);
    }
}

/// One text behind another: the tokens of the first are what they are alone, and
/// the second goes on in what the first ends in, where the last word of the first
/// is none that looks at the next.
pub proof fn law_one_behind_another(
    a: Seq<Seq<char>>,
    b: Seq<Seq<char>>,
    state: LexState,
    stack: Seq<LexState>,
)
    requires
        a.len() > 0 ==> stands_alone(a.last()),
    ensures
        lex(a + b, state, stack) == lex(a, state, stack) + lex(
            b,
            lex_end(a, state, stack).0,
            lex_end(a, state, stack).1,
        ),
    decreases
            a.len(),
            if state is MaybeBody {
                stack.len() + 1
            } else {
                0
            },
{
    if a.len() == 0 {
        assert(a + b =~= b);
        assert(lex(a, state, stack) + lex(b, state, stack) =~= lex(b, state, stack));
    } else {
        let step = lex_step(a, state, stack);
        let rest = a.skip(step.used as int);
        lemma_lex_step(a, state, stack);
        lemma_white_run_add(a, b);
        assert((a + b)[0] == a[0]);
        assert(a.len() > 1 ==> (a + b)[1] == a[1]);
        assert(lex_step(a + b, state, stack) == step);
        assert((a + b).skip(step.used as int) =~= rest + b);
        if rest.len() > 0 {
            assert(rest.last() == a.last());
        }
        law_one_behind_another(rest, b, step.state, step.stack);
        let end = lex_end(a, state, stack);
        assert(step.tokens + (lex(rest, step.state, step.stack) + lex(b, end.0, end.1))
            =~= step.tokens + lex(rest, step.state, step.stack) + lex(b, end.0, end.1));
    }
}

/// The parts of a word are no more than its characters.
proof fn lemma_text_count(word: Seq<char>)
    ensures
        text_tokens(word).len() <= word.len(),
    decreases word.len(),
{
    lemma_first_pair(word);
    if has_pair(word) {
        lemma_text_count(word.skip(first_pair(word) + 2));
    }
}

proof fn lemma_token_count(words: Seq<Seq<char>>, state: LexState, stack: Seq<LexState>)
    requires
        forall|i: int| 0 <= i < words.len() ==> (#[trigger] words[i]).len() > 0,
    ensures
        lex(words, state, stack).len() <= words.flatten().len(),
    decreases
            words.len(),
            if state is MaybeBody {
                stack.len() + 1
            } else {
                0
            },
{
    if words.len() > 0 {
        let step = lex_step(words, state, stack);
        let front = words.take(step.used as int);
        let left = words.skip(step.used as int);
        lemma_lex_step(words, state, stack);
        lemma_white_run(words);
        lemma_text_count(words[0]);
        assert(words[0].len() > 0);
        if step.used > 0 {
            assert(front[0] == words[0]);
            assert(front.flatten().len() >= words[0].len());
        }
        lemma_flatten_concat(front, left);
        assert(front + left =~= words);
        lemma_token_count(left, step.state, step.stack);
    }
}

/// A text has no more tokens than characters.
pub proof fn law_token_count(words: Seq<Seq<char>>)
    requires
        forall|i: int| 0 <= i < words.len() ==> (#[trigger] words[i]).len() > 0,
    ensures
        tokenize(words).len() <= words.flatten().len(),
{
    lemma_token_count(words, LexState::Body, Seq::empty());
}

/// Whether the character is whitespace: Unicode gives it the property
/// `White_Space`.
pub open spec fn is_blank_char(c: char) -> bool {
    ||| '\u{9}' as u32 <= c as u32 <= '\u{d}' as u32
    ||| c == ' '
    ||| c == '\u{85}'
    ||| c == '\u{a0}'
    ||| c == '\u{1680}'
    ||| '\u{2000}' as u32 <= c as u32 <= '\u{200a}' as u32
    ||| c == '\u{2028}'
    ||| c == '\u{2029}'
    ||| c == '\u{202f}'
    ||| c == '\u{205f}'
    ||| c == '\u{3000}'
}

/// Whether a word is made of whitespace that ends no line.
pub open spec fn is_blank(word: Seq<char>) -> bool {
    forall|i: int| 0 <= i < word.len() ==> is_blank_char(#[trigger] word[i]) && word[i] != '\n'
}

/// The characters that are whitespace.
pub proof fn law_white_char(c: char)
    ensures
        is_white_char(c) == is_blank_char(c),
{
}

/// Whitespace words are those whose characters are whitespace, one by one, and none
/// of which is a line feed.
pub proof fn law_white(word: Seq<char>)
    ensures
        is_white(word) == is_blank(word),
{
    assert forall|i: int| 0 <= i < word.len() implies is_white_char(#[trigger] word[i])
        == is_blank_char(word[i]) by {
        law_white_char(word[i]);
    }
}

proof fn lemma_one_char(word: Seq<char>, c: char)
    ensures
        (word == seq![c]) == (word.len() == 1 && word[0] == c),
{
    if word.len() == 1 && word[0] == c {
        assert(word =~= seq![c]);
    }
}

/// A word is told by its characters.
proof fn lemma_told(word: Seq<char>)
    ensures
        (word == seq!['[']) == (word.len() == 1 && word[0] == '['),
        (word == seq![']']) == (word.len() == 1 && word[0] == ']'),
        (word == seq!['$']) == (word.len() == 1 && word[0] == '$'),
        (word == seq!['#']) == (word.len() == 1 && word[0] == '#'),
        (word == seq![':']) == (word.len() == 1 && word[0] == ':'),
        (word == seq!['=']) == (word.len() == 1 && word[0] == '='),
        (word == seq!['*']) == (word.len() == 1 && word[0] == '*'),
        (word == seq!['\\']) == (word.len() == 1 && word[0] == '\\'),
        (word == seq!['_']) == (word.len() == 1 && word[0] == '_'),
        (word == seq!['\n']) == (word.len() == 1 && word[0] == '\n'),
        (word == seq!['\r', '\n']) == (word.len() == 2 && word[0] == '\r' && word[1] == '\n'),
        is_white(word) == is_blank(word),
        word.len() > 0 && !is_blank_char(word[0]) ==> !is_blank(word),
        word.len() > 0 && word[word.len() - 1] == '\n' ==> !is_blank(word),
{
    lemma_one_char(word, '[');
    lemma_one_char(word, ']');
    lemma_one_char(word, '$');
    lemma_one_char(word, '#');
    lemma_one_char(word, ':');
    lemma_one_char(word, '=');
    lemma_one_char(word, '*');
    lemma_one_char(word, '\\');
    lemma_one_char(word, '_');
    lemma_one_char(word, '\n');
    if word.len() == 2 && word[0] == '\r' && word[1] == '\n' {
        assert(word =~= seq!['\r', '\n']);
    }
    law_white(word);
}

/// A run of whitespace words is one space, in every state.
pub proof fn law_blanks(
    run: Seq<Seq<char>>,
    rest: Seq<Seq<char>>,
    state: LexState,
    stack: Seq<LexState>,
)
    requires
        run.len() > 0,
        forall|i: int| 0 <= i < run.len() ==> is_blank(#[trigger] run[i]),
        rest.len() > 0 ==> !is_blank(rest[0]),
    ensures
        lex(run + rest, state, stack) == seq![TokenSpec::Space] + lex(rest, state, stack),
{
    let words = run + rest;
    lemma_told(words[0]);
    assert(is_blank(run[0]));
    lemma_blank_run(run, rest);
    assert(words.skip(run.len() as int) =~= rest);
}

proof fn lemma_blank_run(run: Seq<Seq<char>>, rest: Seq<Seq<char>>)
    requires
        forall|i: int| 0 <= i < run.len() ==> is_blank(#[trigger] run[i]),
        rest.len() > 0 ==> !is_blank(rest[0]),
    ensures
        white_run(run + rest) == run.len(),
    decreases run.len(),
{
    let words = run + rest;
    if words.len() > 0 {
        lemma_told(words[0]);
    }
    if run.len() > 0 {
        let tail = run.drop_first();
        assert(is_blank(run[0]));
        assert forall|i: int| 0 <= i < tail.len() implies is_blank(#[trigger] tail[i]) by {
            assert(tail[i] == run[i + 1]);
        }
        lemma_blank_run(tail, rest);
        assert(words.drop_first() =~= tail + rest);
    } else {
        assert(words =~= rest);
    }
}

/// A left bracket opens a header, which goes back to what it stands in; behind a
/// header it opens the body.
pub proof fn law_left_bracket(rest: Seq<Seq<char>>, state: LexState, stack: Seq<LexState>)
    ensures
        lex(seq![seq!['[']] + rest, state, stack) == seq![TokenSpec::LeftBracket] + match state {
            LexState::MaybeBody => lex(rest, LexState::Body, stack),
            _ => lex(rest, LexState::Function, stack.push(state)),
        },
{
    lemma_told(seq!['[']);
    assert((seq![seq!['[']] + rest).skip(1) =~= rest);
}

/// A right bracket ends a header, behind which a body may stand; it ends a body,
/// behind which is what the header stood in.
pub proof fn law_right_bracket(rest: Seq<Seq<char>>, stack: Seq<LexState>, outer: LexState)
    ensures
        lex(seq![seq![']']] + rest, LexState::Function, stack) == seq![TokenSpec::RightBracket]
            + lex(rest, LexState::MaybeBody, stack),
        lex(seq![seq![']']] + rest, LexState::Body, stack.push(outer)) == seq![
            TokenSpec::RightBracket,
        ] + lex(rest, outer, stack),
        lex(seq![seq![']']] + rest, LexState::Body, Seq::empty()) == seq![TokenSpec::RightBracket]
            + lex(rest, LexState::Body, Seq::empty()),
{
    lemma_told(seq![']']);
    assert((seq![seq![']']] + rest).skip(1) =~= rest);
    assert(stack.push(outer).drop_last() =~= stack);
}

/// Behind a header, a word that opens no body stands in what the header stood in.
pub proof fn law_no_body(words: Seq<Seq<char>>, stack: Seq<LexState>, outer: LexState)
    requires
        words.len() > 0,
        !is_blank(words[0]),
        words[0] != seq!['['],
    ensures
        lex(words, LexState::MaybeBody, stack.push(outer)) == lex(words, outer, stack),
        lex(words, LexState::MaybeBody, Seq::empty()) == lex(words, LexState::Body, Seq::empty()),
{
    lemma_told(words[0]);
    assert(stack.push(outer).drop_last() =~= stack);
    assert(words.skip(0) =~= words);
    assert(Seq::<TokenSpec>::empty() + lex(words, outer, stack) =~= lex(words, outer, stack));
    assert(Seq::<TokenSpec>::empty() + lex(words, LexState::Body, Seq::empty()) =~= lex(
        words,
        LexState::Body,
        Seq::empty(),
    ));
}

/// The end of the words is the end of the tokens.
pub proof fn law_no_words(state: LexState, stack: Seq<LexState>)
    ensures
        lex(Seq::empty(), state, stack) == Seq::<TokenSpec>::empty(),
{
}

/// Dollar signs, hashtags and both kinds of line ends are tokens in text and in
/// headers, however deep.
pub proof fn law_marks(rest: Seq<Seq<char>>, state: LexState, stack: Seq<LexState>)
    requires
        !(state is MaybeBody),
    ensures
        lex(seq![seq!['$']] + rest, state, stack) == seq![TokenSpec::Dollar] + lex(
            rest,
            state,
            stack,
        ),
        lex(seq![seq!['#']] + rest, state, stack) == seq![TokenSpec::Hashtag] + lex(
            rest,
            state,
            stack,
        ),
        lex(seq![seq!['\n']] + rest, state, stack) == seq![TokenSpec::Newline] + lex(
            rest,
            state,
            stack,
        ),
        lex(seq![seq!['\r', '\n']] + rest, state, stack) == seq![TokenSpec::Newline] + lex(
            rest,
            state,
            stack,
        ),
{
    lemma_told(seq!['$']);
    lemma_told(seq!['#']);
    lemma_told(seq!['\n']);
    lemma_told(seq!['\r', '\n']);
    assert((seq![seq!['$']] + rest).skip(1) =~= rest);
    assert((seq![seq!['#']] + rest).skip(1) =~= rest);
    assert((seq![seq!['\n']] + rest).skip(1) =~= rest);
    assert((seq![seq!['\r', '\n']] + rest).skip(1) =~= rest);
}

/// Without double underscores a word is one part.
proof fn lemma_one_part(word: Seq<char>)
    requires
        word.len() > 0,
        forall|i: int| 0 <= i < word.len() - 1 ==> !(#[trigger] word[i] == '_' && word[i + 1]
            == '_'),
    ensures
        text_tokens(word) == seq![TokenSpec::Word(word)],
{
    lemma_first_pair(word);
    if has_pair(word) {
        assert(word[first_pair(word)] == '_');
    }
    assert(word.take(word.len() as int) =~= word);
}

/// A colon and an equals sign are tokens in every header, at whatever depth it
/// stands, and words in every text.
pub proof fn law_context(rest: Seq<Seq<char>>, stack: Seq<LexState>)
    ensures
        lex(seq![seq![':']] + rest, LexState::Function, stack) == seq![TokenSpec::Colon] + lex(
            rest,
            LexState::Function,
            stack,
        ),
        lex(seq![seq!['=']] + rest, LexState::Function, stack) == seq![TokenSpec::Equals] + lex(
            rest,
            LexState::Function,
            stack,
        ),
        lex(seq![seq![':']] + rest, LexState::Body, stack) == seq![TokenSpec::Word(seq![':'])]
            + lex(rest, LexState::Body, stack),
        lex(seq![seq!['=']] + rest, LexState::Body, stack) == seq![TokenSpec::Word(seq!['='])]
            + lex(rest, LexState::Body, stack),
{
    lemma_told(seq![':']);
    lemma_told(seq!['=']);
    lemma_one_part(seq![':']);
    lemma_one_part(seq!['=']);
    assert((seq![seq![':']] + rest).skip(1) =~= rest);
    assert((seq![seq!['=']] + rest).skip(1) =~= rest);
}

/// Two stars are one token in text and in headers, however deep, and a star that
/// stands alone is a word.
pub proof fn law_stars(rest: Seq<Seq<char>>, state: LexState, stack: Seq<LexState>)
    requires
        !(state is MaybeBody),
    ensures
        lex(seq![seq!['*'], seq!['*']] + rest, state, stack) == seq![TokenSpec::DoubleStar] + lex(
            rest,
            state,
            stack,
        ),
        (rest.len() > 0 ==> rest[0] != seq!['*']) ==> lex(seq![seq!['*']] + rest, state, stack)
            == seq![TokenSpec::Word(seq!['*'])] + lex(rest, state, stack),
{
    lemma_told(seq!['*']);
    lemma_one_part(seq!['*']);
    let two = seq![seq!['*'], seq!['*']] + rest;
    let one = seq![seq!['*']] + rest;
    assert(two[0] == seq!['*'] && two[1] == seq!['*']);
    assert(two.skip(2) =~= rest);
    assert(one.skip(1) =~= rest);
    if rest.len() > 0 {
        assert(one[1] == rest[0]);
    }
}

/// A backslash in front of one of the words `[`, `]`, `$`, `#`, `\`, `:`, `=`, `*` and
/// `_`, or of a word that begins with two underscores, makes it plain text, in text
/// and in headers, however deep. In front of any other word, and at the end, the
/// backslash is a word itself, and the other word is what it is without it.
pub proof fn law_backslash(rest: Seq<Seq<char>>, state: LexState, stack: Seq<LexState>)
    requires
        !(state is MaybeBody),
    ensures
        rest.len() > 0 && {
            ||| rest[0] == seq!['[']
            ||| rest[0] == seq![']']
            ||| rest[0] == seq!['$']
            ||| rest[0] == seq!['#']
            ||| rest[0] == seq!['\\']
            ||| rest[0] == seq![':']
            ||| rest[0] == seq!['=']
            ||| rest[0] == seq!['*']
            ||| rest[0] == seq!['_']
            ||| rest[0].len() >= 2 && rest[0][0] == '_' && rest[0][1] == '_'
        } ==> lex(seq![seq!['\\']] + rest, state, stack) == seq![TokenSpec::Word(rest[0])] + lex(
            rest.skip(1),
            state,
            stack,
        ),
        rest.len() == 0 || {
            &&& rest[0] != seq!['[']
            &&& rest[0] != seq![']']
            &&& rest[0] != seq!['$']
            &&& rest[0] != seq!['#']
            &&& rest[0] != seq!['\\']
            &&& rest[0] != seq![':']
            &&& rest[0] != seq!['=']
            &&& rest[0] != seq!['*']
            &&& rest[0] != seq!['_']
            &&& !(rest[0].len() >= 2 && rest[0][0] == '_' && rest[0][1] == '_')
        } ==> lex(seq![seq!['\\']] + rest, state, stack) == seq![TokenSpec::Word(seq!['\\'])]
            + lex(rest, state, stack),
{
    let words = seq![seq!['\\']] + rest;
    lemma_told(seq!['\\']);
    lemma_one_part(seq!['\\']);
    assert(words.skip(1) =~= rest);
    if rest.len() > 0 {
        assert(words[1] == rest[0]);
        assert(words.skip(2) =~= rest.skip(1));
    }
}

/// Whether the tokens are the word, split at each double underscore from the left:
/// none of its characters is lost, the text between double underscores is a word
/// that is not empty and holds none, and it ends where the first of them begins.
pub open spec fn is_split(parts: Seq<TokenSpec>, word: Seq<char>) -> bool {
    &&& spelled_out(parts) == word
    &&& forall|i: int|
        0 <= i < parts.len() ==> #[trigger] parts[i] is DoubleUnderscore || parts[i] is Word
    &&& forall|i: int|
        0 <= i < parts.len() && #[trigger] parts[i] is Word ==> is_unpaired(parts[i]->Word_0)
    &&& forall|i: int, j: int|
        0 <= i < j < parts.len() && j == i + 1 && #[trigger] parts[i] is Word ==> (
        #[trigger] parts[j] is DoubleUnderscore) && parts[i]->Word_0.last() != '_'
}

/// Whether the text is not empty and holds no two underscores side by side.
pub open spec fn is_unpaired(text: Seq<char>) -> bool {
    &&& text.len() > 0
    &&& forall|i: int, j: int|
        0 <= i < j < text.len() && j == i + 1 ==> !(#[trigger] text[i] == '_' && #[trigger] text[j]
            == '_')
}

proof fn lemma_text_split(word: Seq<char>)
    ensures
        is_split(text_tokens(word), word),
    decreases word.len(),
{
    let at = first_pair(word);
    let front = word.take(at);
    let parts = text_tokens(word);
    lemma_first_pair(word);
    law_text_spelled_out(word);
    lemma_text_tokens(word);
    if front.len() > 0 {
        assert(is_unpaired(front)) by {
            assert forall|i: int, j: int| 0 <= i < j < front.len() && j == i + 1 implies !(
            #[trigger] front[i] == '_' && #[trigger] front[j] == '_') by {
                assert(!pair_at(word, i));
            }
        }
    }
    if has_pair(word) {
        let rest = word.skip(at + 2);
        let tail = text_tokens(rest);
        lemma_text_split(rest);
        if front.len() > 0 {
            assert(!pair_at(word, at - 1));
        }
        let n = parts.len() - tail.len();
        assert forall|i: int| n <= i < parts.len() implies #[trigger] parts[i] == tail[i - n] by {}
        assert forall|i: int, j: int|
            0 <= i < j < parts.len() && j == i + 1 && #[trigger] parts[i] is Word implies (
        #[trigger] parts[j] is DoubleUnderscore) && parts[i]->Word_0.last() != '_' by {
            if i >= n {
                assert(tail[i - n] is Word && parts[j] == tail[j - n]);
            }
        }
        assert forall|i: int| 0 <= i < parts.len() && #[trigger] parts[i] is Word implies
            is_unpaired(parts[i]->Word_0) by {
            if i >= n {
                assert(tail[i - n] is Word);
            }
        }
    }
}

/// A word without a meaning of its own is text, in headers as in bodies and however
/// deep, split at its double underscores. It is taken alike whatever stands in front
/// of it or behind it.
pub proof fn law_word(
    word: Seq<char>,
    rest: Seq<Seq<char>>,
    state: LexState,
    stack: Seq<LexState>,
)
    requires
        !(state is MaybeBody),
        !is_blank(word),
        word != seq!['['],
        word != seq![']'],
        word != seq!['$'],
        word != seq!['#'],
        word != seq![':'],
        word != seq!['='],
        word != seq!['*'],
        word != seq!['\\'],
        word != seq!['\n'],
        word != seq!['\r', '\n'],
    ensures
        exists|parts: Seq<TokenSpec>| #[trigger]
            is_split(parts, word) && lex(seq![word] + rest, state, stack) == parts + lex(
                rest,
                state,
                stack,
            ),
        is_unpaired(word) ==> lex(seq![word] + rest, state, stack) == seq![TokenSpec::Word(word)]
            + lex(rest, state, stack),
{
    let words = seq![word] + rest;
    lemma_told(word);
    lemma_text_split(word);
    assert(words.skip(1) =~= rest);
    assert(is_split(text_tokens(word), word));
    if is_unpaired(word) {
        lemma_first_pair(word);
        if has_pair(word) {
            assert(word[first_pair(word)] == '_' && word[first_pair(word) + 1] == '_');
        }
        assert(word.take(word.len() as int) =~= word);
    }
}

/// There is one way only to split a word.
pub proof fn law_split_unique(a: Seq<TokenSpec>, b: Seq<TokenSpec>, word: Seq<char>)
    requires
        is_split(a, word),
        is_split(b, word),
    ensures
        a == b,
    decreases a.len(),
{
    if a.len() == 0 || b.len() == 0 {
        if a.len() > 0 {
            lemma_part_in_front(a, word);
        }
        if b.len() > 0 {
            lemma_part_in_front(b, word);
        }
        assert(a =~= b);
    } else {
        lemma_part_in_front(a, word);
        lemma_part_in_front(b, word);
        lemma_same_part(a, b, word);
        let n = spelled(a[0]).len() as int;
        lemma_split_tail(a, word);
        lemma_split_tail(b, word);
        law_split_unique(a.drop_first(), b.drop_first(), word.skip(n));
        assert(a =~= seq![a[0]] + a.drop_first());
        assert(b =~= seq![b[0]] + b.drop_first());
    }
}

proof fn lemma_part_in_front(parts: Seq<TokenSpec>, word: Seq<char>)
    requires
        is_split(parts, word),
        parts.len() > 0,
    ensures
        0 < spelled(parts[0]).len() <= word.len(),
        word.take(spelled(parts[0]).len() as int) == spelled(parts[0]),
        parts[0] is DoubleUnderscore || (parts[0] is Word && is_unpaired(parts[0]->Word_0)),
        parts.len() == 1 ==> word == spelled(parts[0]),
        parts.len() > 1 && parts[0] is Word ==> {
            let n = spelled(parts[0]).len() as int;
            &&& parts[0]->Word_0.last() != '_'
            &&& n + 1 < word.len()
            &&& word[n] == '_'
            &&& word[n + 1] == '_'
        },
{
    let first = spelled(parts[0]);
    let tail = parts.drop_first();
    assert(parts[0] is DoubleUnderscore || parts[0] is Word);
    assert(word =~= first + spelled_out(tail));
    assert(word.take(first.len() as int) =~= first);
    if parts.len() == 1 {
        assert(tail =~= Seq::empty());
        assert(word =~= first);
    } else if parts[0] is Word {
        assert(parts[1] is DoubleUnderscore);
        assert(tail[0] == parts[1]);
        assert(spelled_out(tail) =~= seq!['_', '_'] + spelled_out(tail.drop_first()));
        assert(word[first.len() as int] == spelled_out(tail)[0]);
        assert(word[first.len() + 1int] == spelled_out(tail)[1]);
    }
}

proof fn lemma_split_tail(parts: Seq<TokenSpec>, word: Seq<char>)
    requires
        is_split(parts, word),
        parts.len() > 0,
    ensures
        is_split(parts.drop_first(), word.skip(spelled(parts[0]).len() as int)),
{
    let first = spelled(parts[0]);
    let tail = parts.drop_first();
    assert(word =~= first + spelled_out(tail));
    assert(word.skip(first.len() as int) =~= spelled_out(tail));
    assert forall|i: int| 0 <= i < tail.len() implies #[trigger] tail[i] == parts[i + 1] by {}
    assert forall|i: int| 0 <= i < tail.len() implies #[trigger] tail[i] is DoubleUnderscore
        || tail[i] is Word by {
        assert(parts[i + 1] is DoubleUnderscore || parts[i + 1] is Word);
    }
    assert forall|i: int| 0 <= i < tail.len() && #[trigger] tail[i] is Word implies is_unpaired(
        tail[i]->Word_0,
    ) by {
        assert(parts[i + 1] is Word);
    }
    assert forall|i: int, j: int|
        0 <= i < j < tail.len() && j == i + 1 && #[trigger] tail[i] is Word implies (
    #[trigger] tail[j] is DoubleUnderscore) && tail[i]->Word_0.last() != '_' by {
        assert(parts[i + 1] is Word && tail[j] == parts[j + 1]);
    }
}

proof fn lemma_same_part(a: Seq<TokenSpec>, b: Seq<TokenSpec>, word: Seq<char>)
    requires
        is_split(a, word),
        is_split(b, word),
        a.len() > 0,
        b.len() > 0,
    ensures
        a[0] == b[0],
{
    lemma_part_in_front(a, word);
    lemma_part_in_front(b, word);
    lemma_no_shorter_part(a, b, word);
    lemma_no_shorter_part(b, a, word);
}

/// The first part of a word is no word shorter than another first part.
proof fn lemma_no_shorter_part(a: Seq<TokenSpec>, b: Seq<TokenSpec>, word: Seq<char>)
    requires
        is_split(a, word),
        is_split(b, word),
        a.len() > 0,
        b.len() > 0,
    ensures
        b[0] is Word ==> a[0] is Word && spelled(a[0]).len() >= spelled(b[0]).len(),
{
    lemma_part_in_front(a, word);
    lemma_part_in_front(b, word);
    if b[0] is Word {
        let x = spelled(a[0]);
        let y = spelled(b[0]);
        if a[0] is DoubleUnderscore {
            assert(word[0] == word.take(2)[0] && word[1] == word.take(2)[1]);
            assert(y[0] == word.take(y.len() as int)[0]);
            if y.len() > 1 {
                assert(y[1] == word.take(y.len() as int)[1]);
                assert(!(y[0] == '_' && y[1] == '_'));
            }
        } else if x.len() < y.len() {
            let n = x.len() as int;
            assert(a.len() > 1);
            assert(y[n] == word.take(y.len() as int)[n]);
            if n + 1 < y.len() {
                assert(y[n + 1] == word.take(y.len() as int)[n + 1]);
                assert(!(y[n] == '_' && y[n + 1] == '_'));
            }
        }
    }
}

/// What the tokenizer returns to does not matter to words that are no brackets: they
/// have the same tokens at every depth. In a header and in a text they have the same
/// tokens too, unless they are colons or equals signs.
pub proof fn law_depth_alike(
    words: Seq<Seq<char>>,
    state: LexState,
    a: Seq<LexState>,
    b: Seq<LexState>,
)
    requires
        !(state is MaybeBody),
        forall|i: int|
            0 <= i < words.len() ==> #[trigger] words[i] != seq!['['] && words[i] != seq![']'],
    ensures
        lex(words, state, a) == lex(words, state, b),
        (forall|i: int|
            0 <= i < words.len() ==> #[trigger] words[i] != seq![':'] && words[i] != seq!['='])
            ==> lex(words, LexState::Function, a) == lex(words, LexState::Body, b),
    decreases words.len(),
{
    if words.len() > 0 {
        let step = lex_step(words, state, a);
        let left = words.skip(step.used as int);
        lemma_lex_step(words, state, a);
        assert(words[0] != seq!['['] && words[0] != seq![']']);
        assert forall|i: int| 0 <= i < left.len() implies #[trigger] left[i] != seq!['[']
            && left[i] != seq![']'] by {
            assert(left[i] == words[i + step.used]);
        }
        law_depth_alike(left, state, a, b);
        if forall|i: int|
            0 <= i < words.len() ==> #[trigger] words[i] != seq![':'] && words[i] != seq!['='] {
            assert(words[0] != seq![':']);
            let other = lex_step(words, LexState::Function, a);
            let rest = words.skip(other.used as int);
            assert forall|i: int| 0 <= i < rest.len() implies #[trigger] rest[i] != seq!['[']
                && rest[i] != seq![']'] by {
                assert(rest[i] == words[i + other.used]);
            }
            assert forall|i: int| 0 <= i < rest.len() implies #[trigger] rest[i] != seq![':']
                && rest[i] != seq!['='] by {
                assert(rest[i] == words[i + other.used]);
            }
            lemma_lex_step(words, LexState::Function, a);
            law_depth_alike(rest, LexState::Function, a, b);
        }
    }
}

/// A text begins as text, with no function to return to.
pub proof fn law_text_begins(words: Seq<Seq<char>>)
    ensures
        tokenize(words) == lex(words, LexState::Body, Seq::empty()),
{
}

/// The words that a tokenizer is given are the words that it reads, one by one, and
/// the tokens that it gives are the items of its stream, one by one.
pub proof fn law_words_and_items(words: Seq<&str>, tokens: Seq<TokenSpec>)
    ensures
        word_views(words).len() == words.len(),
        forall|i: int| 0 <= i < words.len() ==> #[trigger] word_views(words)[i] == words[i]@,
        token_items(tokens).len() == tokens.len(),
        forall|i: int|
            0 <= i < tokens.len() ==> #[trigger] token_items(tokens)[i] == Some(tokens[i]),
{
}

/// The stream of a tokenizer gives its tokens and nothing else.
pub proof fn law_stream_of_tokens<'s>(tokens: Tokens<'s>)
    ensures
        tokens.stream() is Source,
        tokens.stream().items().len() == tokens.tokens().len(),
        forall|i: int|
            0 <= i < tokens.tokens().len() ==> #[trigger] tokens.stream().items()[i] == Some(
                tokens.tokens()[i],
            ),
{
}

}
