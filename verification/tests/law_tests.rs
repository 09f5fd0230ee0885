use typeset::Token::{
    Colon as C, DoubleUnderscore as DU, Equals as E, LeftBracket as L, Newline as N,
    RightBracket as R, Space as S, Word as W,
};
use typeset::{FuncTokens, Token, TokenStream, Tokens};

/// All tokens of the words.
fn tokenize<'s>(words: &[&'s str]) -> Vec<Token<'s>> {
    let mut tokens = Tokens::from_words(words.to_vec());
    let mut all = Vec::new();
    while let Some(token) = tokens.next() {
        all.push(token);
    }
    all
}

/// The text that a token stands for.
fn spelled(token: &Token) -> String {
    match token {
        Token::Space => " ",
        Token::Newline => "\n",
        Token::LeftBracket => "[",
        Token::RightBracket => "]",
        Token::Colon => ":",
        Token::Equals => "=",
        Token::DoubleUnderscore => "__",
        Token::DoubleStar => "**",
        Token::Dollar => "$",
        Token::Hashtag => "#",
        Token::Word(word) => word,
    }
    .to_owned()
}

#[test]
fn law_headers_are_open() {
    assert_eq!(tokenize(&[":", "=", "[", ":", "=", "]", ":"]), vec![
        W(":"), W("="), L, C, E, R, W(":"),
    ]);
    assert_eq!(tokenize(&["[", "]", "[", "]", ":", "[", "[", "]", "[", "]", ":"]), vec![
        L, R, L, R, W(":"), L, L, R, L, R, C,
    ]);
}

#[test]
fn law_spaces_apart() {
    assert_eq!(tokenize(&[" ", "\t", "\u{a0}", "a", " ", " "]), vec![S, W("a"), S]);
}

#[test]
fn law_words_not_empty() {
    assert_eq!(tokenize(&["__a__", "____"]), vec![DU, W("a"), DU, DU, DU]);
}

#[test]
fn law_text_spelled_out() {
    for word in ["a__b", "___", "a_b_", "____a__", "__"] {
        let tokens = tokenize(&[word]);
        assert_eq!(tokens.iter().map(spelled).collect::<String>(), word);
    }
}

#[test]
fn law_invocation_left() {
    let call = ["[", "b", "]", "[", "[", "c", "]", "]"];
    assert_eq!(tokenize(&[&call[..], &[":"]].concat()).last(), Some(&W(":")));
    assert_eq!(tokenize(&[&["["], &call[..], &[":"]].concat()).last(), Some(&C));
    let in_body = [&["[", "a", "]", "["], &call[..], &[":"]].concat();
    assert_eq!(tokenize(&in_body).last(), Some(&W(":")));
}

#[test]
fn law_bare_invocation_left() {
    assert_eq!(tokenize(&["[", "b", "]", ":"]).last(), Some(&W(":")));
    assert_eq!(tokenize(&["[", "[", "b", "]", ":"]).last(), Some(&C));
}

/// A word with double underscores leaves the tokenizer in what it was in.
#[test]
fn law_unswitch_undoes_switch() {
    assert_eq!(tokenize(&["[", "a__b", ":"]), vec![L, W("a"), DU, W("b"), C]);
    assert_eq!(tokenize(&["a__b", ":"]), vec![W("a"), DU, W("b"), W(":")]);
}

#[test]
fn law_no_markers() {
    assert_eq!(tokenize(&["[", "]", "$", "#", "\n", "\r\n", "a__b"]), vec![
        L, R, Token::Dollar, Token::Hashtag, N, N, W("a"), DU, W("b"),
    ]);
}

/// Every piece of the text has its token.
#[test]
fn law_spelled_out() {
    let words = ["a", " ", "\t", "\r\n", "[", "b__", "]", "*", "*", "\n"];
    let pieces = ["a", " \t", "\r\n", "[", "b", "__", "]", "**", "\n"];
    assert_eq!(pieces.concat(), words.concat());
    assert_eq!(tokenize(&words), vec![
        W("a"), S, N, L, W("b"), DU, R, Token::DoubleStar, N,
    ]);
}

#[test]
fn law_plain_spelled_out() {
    let words = [
        "[", "f", ":", " ", "a", "=", "b", "]", "[", "**", "*", "*", "x__y", "]", "\n", "#",
    ];
    let tokens = tokenize(&words);
    assert_eq!(tokens.iter().map(spelled).collect::<String>(), words.concat());
}

#[test]
fn law_white_alike() {
    assert_eq!(tokenize(&["a", "\n", " ", "b"]), vec![W("a"), N, S, W("b")]);
    assert_eq!(tokenize(&["a", "\r\n", "\u{3000}", "b"]), vec![W("a"), N, S, W("b")]);
}

#[test]
fn law_escaped() {
    assert_eq!(tokenize(&["\\", "[", ":"]), vec![W("["), W(":")]);
    assert_eq!(tokenize(&["[", "\\", "]", ":"]), vec![L, W("]"), C]);
    assert_eq!(tokenize(&["\\", "a"]), vec![W("\\"), W("a")]);
}

/// An escaped bracket opens no body.
#[test]
fn law_escaped_behind_header() {
    assert_eq!(tokenize(&["[", "f", "]", "\\", "[", ":"]), vec![L, W("f"), R, W("["), W(":")]);
    assert_eq!(tokenize(&["[", "f", "]", "[", ":"]), vec![L, W("f"), R, L, W(":")]);
}

#[test]
fn law_pairs_split() {
    assert_eq!(tokenize(&["a__b"]), vec![W("a"), DU, W("b")]);
    assert_eq!(tokenize(&["\\", "__b"]), vec![W("__b")]);
}

/// A body stops at the first unbalanced right bracket, and the stream that holds
/// it goes on behind.
#[test]
fn law_body_stops() {
    let mut body = FuncTokens::new(Tokens::from_words(vec!["a", "[", "b", "]", "]", "c"]));
    assert_eq!(body.next(), Some(W("a")));
    assert_eq!(body.next(), Some(L));
    assert_eq!(body.next(), Some(W("b")));
    assert_eq!(body.next(), Some(R));
    assert_eq!(body.next(), None);
    assert!(!body.unexpected_end());
    let mut rest = body.into_inner();
    assert_eq!(rest.next(), Some(W("c")));
    assert_eq!(rest.next(), None);
}

/// A body that is not closed goes on to the end of the stream.
#[test]
fn law_body_goes_on() {
    let mut body = FuncTokens::new(Tokens::from_words(vec!["[", "]", "a"]));
    assert_eq!(body.next(), Some(L));
    assert_eq!(body.next(), Some(R));
    assert_eq!(body.next(), Some(W("a")));
    assert!(!body.unexpected_end());
    assert_eq!(body.next(), None);
    assert!(body.unexpected_end());
}

/// Each read of a body is a read of the stream that holds it.
#[test]
fn law_body_reads() {
    let mut body = FuncTokens::new(Tokens::from_words(vec!["[", "a", "]", "b"]));
    for _ in 0..3 {
        assert!(body.next().is_some());
    }
    assert!(!body.unexpected_end());
    assert_eq!(body.into_inner().next(), Some(W("b")));
}

/// Reads go on behind the end of a body.
#[test]
fn law_reads_add() {
    let mut body = FuncTokens::new(Tokens::from_words(vec!["]", "a", "]", "b"]));
    assert_eq!(body.next(), None);
    assert_eq!(body.next(), Some(W("a")));
    assert_eq!(body.next(), None);
    assert_eq!(body.next(), Some(W("b")));
    assert!(!body.unexpected_end());
}

/// A read behind the end of a stream changes nothing any more.
#[test]
fn law_end_stays() {
    let mut body = FuncTokens::new(Tokens::from_words(vec!["a"]));
    assert_eq!(body.next(), Some(W("a")));
    for _ in 0..3 {
        assert_eq!(body.next(), None);
        assert!(body.unexpected_end());
    }
}

/// What holds of every text, with the words that the text is cut into.
#[test]
fn law_source_tokens() {
    let mut all = Vec::new();
    let source = "[__]__$__#__\n__\r\n__a[__\u{301}b]__ \t [\u{301}__c";
    let mut tokens = Tokens::new(source);
    while let Some(token) = tokens.next() {
        all.push(token);
    }
    assert_eq!(all, vec![
        L, DU, R, DU, Token::Dollar, DU, Token::Hashtag, DU, N, DU, N, DU, W("a"), L, DU,
        W("\u{301}b"), R, DU, S, W("[\u{301}"), DU, W("c"),
    ]);
    assert!(all.len() <= source.chars().count());
}

#[test]
fn law_one_behind_another() {
    let first = ["[", "a", ":"];
    let second = ["b", "=", "]"];
    let both = tokenize(&[first, second].concat());
    assert_eq!(both, vec![L, W("a"), C, W("b"), E, R]);
    assert_eq!(both[..3], tokenize(&first)[..]);
}

#[test]
fn law_token_count() {
    assert_eq!(tokenize(&["[", "]", "$"]).len(), 3);
    assert_eq!(tokenize(&["a__b", " ", "\t"]).len(), 4);
}
