use typeset::Token::{
    Colon as C, Dollar as D, DoubleStar as DS, DoubleUnderscore as DU, Equals as E, Hashtag as H,
    LeftBracket as L, Newline as N, RightBracket as R, Space as S, Word as W,
};
use typeset::text::{is_whitespace, is_whitespace_char};
use typeset::{Token, TokenStream, Tokens};

/// All tokens of a stream.
fn collect<'s>(mut tokens: Tokens<'s>) -> Vec<Token<'s>> {
    let mut all = Vec::new();
    while let Some(token) = tokens.next() {
        all.push(token);
    }
    assert_eq!(tokens.next(), None);
    all
}

/// Test if the source code tokenizes to the tokens.
fn test(src: &str, tokens: Vec<Token>) {
    assert_eq!(collect(Tokens::new(src)), tokens);
}

/// Test if the words tokenize to the tokens.
fn test_words(words: Vec<&str>, tokens: Vec<Token>) {
    assert_eq!(collect(Tokens::from_words(words)), tokens);
}

/// Tokenizes the basic building blocks.
#[test]
fn tokenize_base() {
    test("", vec![]);
    test("Hallo", vec![W("Hallo")]);
    test("[", vec![L]);
    test("]", vec![R]);
    test("$", vec![D]);
    test("#", vec![H]);
    test("**", vec![DS]);
    test("__", vec![DU]);
    test("\n", vec![N]);
}

/// This test looks if LF- and CRLF-style newlines get both identified correctly
#[test]
fn tokenize_whitespace_newlines() {
    test(" \t", vec![S]);
    test("First line\r\nSecond line\nThird line\n",
         vec![W("First"), S, W("line"), N, W("Second"), S, W("line"), N,
              W("Third"), S, W("line"), N]);
    test("Hello \n ", vec![W("Hello"), S, N, S]);
    test("Dense\nTimes", vec![W("Dense"), N, W("Times")]);
}

/// Tests if escaping with backslash works as it should.
#[test]
fn tokenize_escape() {
    test(r"\[", vec![W("[")]);
    test(r"\]", vec![W("]")]);
    test(r"\#", vec![W("#")]);
    test(r"\$", vec![W("$")]);
    test(r"\:", vec![W(":")]);
    test(r"\=", vec![W("=")]);
    test(r"\**", vec![W("*"), W("*")]);
    test(r"\*", vec![W("*")]);
    test(r"\__", vec![W("__")]);
    test(r"\_", vec![W("_")]);
    test(r"\hello", vec![W(r"\"), W("hello")]);
}

/// Tokenizes some more realistic examples.
#[test]
fn tokenize_examples() {
    test(r"
            [function][
                Test [italic][example]!
            ]
        ", vec![
        N, S, L, W("function"), R, L, N, S, W("Test"), S, L, W("italic"), R, L,
        W("example"), R, W("!"), N, S, R, N, S
    ]);

    test(r"
            [page: size=A4]
            [font: size=12pt]

            Das ist ein Beispielsatz mit **fetter** Schrift.
        ", vec![
        N, S, L, W("page"), C, S, W("size"), E, W("A4"), R, N, S,
        L, W("font"), C, S, W("size"), E, W("12pt"), R, N, N, S,
        W("Das"), S, W("ist"), S, W("ein"), S, W("Beispielsatz"), S, W("mit"), S,
        DS, W("fetter"), DS, S, W("Schrift"), W("."), N, S
    ]);
}

/// This test checks whether the colon and equals symbols get parsed correctly
/// depending on the context: Either in a function header or in a body.
#[test]
fn tokenize_symbols_context() {
    test("[func: key=value][Answer: 7]",
         vec![L, W("func"), C, S, W("key"), E, W("value"), R, L,
              W("Answer"), W(":"), S, W("7"), R]);
    test("[[n: k=v]:x][:[=]]:=",
         vec![L, L, W("n"), C, S, W("k"), E, W("v"), R, C, W("x"), R,
              L, W(":"), L, E, R, R, W(":"), W("=")]);
    test("[func: __key__=value]",
         vec![L, W("func"), C, S, DU, W("key"), DU, E, W("value"), R]);
}

/// A header goes on as a header behind the invocations that are nested in it, and
/// a body as a body.
#[test]
fn tokenize_nested_invocations() {
    test("[a [b][c]: d]",
         vec![L, W("a"), S, L, W("b"), R, L, W("c"), R, C, S, W("d"), R]);
    test("[a [b]: d]", vec![L, W("a"), S, L, W("b"), R, C, S, W("d"), R]);
    test("[a [b][c [d][e]:]=][f [g][h]:]:",
         vec![L, W("a"), S, L, W("b"), R, L, W("c"), S, L, W("d"), R, L, W("e"), R, W(":"), R, E, R,
              L, W("f"), S, L, W("g"), R, L, W("h"), R, W(":"), R, W(":")]);
    test("]]:[a:]", vec![R, R, W(":"), L, W("a"), C, R]);
}

/// This test has a special look at the double underscore syntax, because
/// per Unicode standard they are not separate words and thus harder to parse
/// than the stars.
#[test]
fn tokenize_double_underscore() {
    test("he__llo__world_ _ __ Now this_ is__ special!",
         vec![W("he"), DU, W("llo"), DU, W("world_"), S, W("_"), S, DU, S, W("Now"), S,
              W("this_"), S, W("is"), DU, S, W("special"), W("!")]);
}

/// This test is for checking if non-ASCII characters get parsed correctly.
#[test]
fn tokenize_unicode() {
    test("[document][Hello 🌍!]",
         vec![L, W("document"), R, L, W("Hello"), S, W("🌍"), W("!"), R]);
    test("[f]⺐.", vec![L, W("f"), R, W("⺐"), W(".")]);
}

/// A text is cut at its word boundaries, not handed on in one piece.
#[test]
fn tokenize_cuts_words() {
    test("two words", vec![W("two"), S, W("words")]);
    test("32.3 feet", vec![W("32.3"), S, W("feet")]);
}

/// The words may come from elsewhere.
#[test]
fn tokenize_given_words() {
    test_words(vec!["two words", " ", "\t", "]"], vec![W("two words"), S, R]);
    test_words(vec!["\r\n", "\n", "\r"], vec![N, N, S]);
    test_words(vec!["*", "*", "*"], vec![DS, W("*")]);
    test_words(vec!["\\", "__x", "\\"], vec![W("__x"), W("\\")]);
    test_words(vec!["[", " ", ":"], vec![L, S, C]);
}

/// Three underscores are a double underscore and one more.
#[test]
fn tokenize_three_underscores() {
    test("___", vec![DU, W("_")]);
    test("a____b", vec![W("a"), DU, DU, W("b")]);
}

/// Whitespace between a header and a body does not part them.
#[test]
fn tokenize_spaced_body() {
    test("[f] [a: b]", vec![L, W("f"), R, S, L, W("a"), W(":"), S, W("b"), R]);
    test("[f]\n[a: b]", vec![L, W("f"), R, N, L, W("a"), C, S, W("b"), R]);
}

/// A clone goes on where the stream stood.
#[test]
fn tokenize_clone() {
    let mut tokens = Tokens::new("a__b c");
    assert_eq!(tokens.next(), Some(W("a")));
    assert_eq!(collect(tokens.clone()), vec![DU, W("b"), S, W("c")]);
    assert_eq!(collect(tokens), vec![DU, W("b"), S, W("c")]);
}

/// Whitespace is what Unicode calls so, but for words that end lines.
#[test]
fn whitespace() {
    for c in '\0'..=char::MAX {
        assert_eq!(is_whitespace_char(c), c.is_whitespace());
    }
    assert!(is_whitespace(" \t\r"));
    assert!(is_whitespace(""));
    assert!(!is_whitespace("\n"));
    assert!(!is_whitespace("\r\n"));
    assert!(!is_whitespace(" a"));
}
