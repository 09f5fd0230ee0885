use typeset::Node::{Func as F, Newline as N, Space as S};
use typeset::{
    parse_body, try_parse_body, BodyTokens, FuncCall, FuncHeader, Function, Ident, Node,
    ParseError, ParseResult, Parser, Scope, SyntaxTree, TokenStream, Tokens,
};

/// What the testing functions make of their bodies.
#[derive(Debug, PartialEq)]
enum Body {
    /// A body that was parsed into a syntax tree.
    Tree(SyntaxTree<Body>),
    /// No body.
    Bodyless,
}

/// The testing functions.
enum TestFn {
    /// A testing function which just parses it's body into a syntax tree.
    TreeFn,
    /// A testing function without a body.
    BodylessFn,
    /// A testing function that does not look at its body.
    IgnoringFn,
    /// A testing function that parses its body and reads one token more.
    GreedyFn,
    /// A testing function that does not mind errors in its body.
    LenientFn,
}

use TestFn::{BodylessFn, GreedyFn, IgnoringFn, LenientFn, TreeFn};

impl Function for TestFn {
    type Output = Body;

    fn parse<'m, 'a, 's>(
        &self,
        _: &FuncHeader,
        tokens: BodyTokens<'m, 'a, 's>,
        scope: &Scope<TestFn>,
    ) -> ParseResult<Body> {
        match self {
            TreeFn => {
                if let Some(tokens) = tokens {
                    parse_body(scope, tokens).map(|tree| Body::Tree(tree))
                } else {
                    Err(ParseError::new("expected body for tree fn"))
                }
            }
            BodylessFn => {
                if tokens.is_none() {
                    Ok(Body::Bodyless)
                } else {
                    Err(ParseError::new("unexpected body for bodyless fn"))
                }
            }
            IgnoringFn => Ok(Body::Bodyless),
            GreedyFn => {
                let tokens = tokens.unwrap();
                let tree = parse_body(scope, tokens)?;
                tokens.next();
                Ok(Body::Tree(tree))
            }
            LenientFn => match try_parse_body(scope, tokens.unwrap()) {
                Some(Ok(tree)) => Ok(Body::Tree(tree)),
                _ => Ok(Body::Bodyless),
            },
        }
    }
}

#[allow(non_snake_case)]
fn W(s: &str) -> Node<Body> {
    Node::Word(s.to_owned())
}

fn ident(name: &str) -> Ident {
    Ident::new(name).unwrap()
}

/// A function invocation with the body.
fn func(name: &str, body: Body) -> Node<Body> {
    F(FuncCall { header: FuncHeader::bare(ident(name)), body })
}

fn tree(nodes: Vec<Node<Body>>) -> SyntaxTree<Body> {
    SyntaxTree { nodes }
}

/// Test if the source code parses into the syntax tree.
fn test(src: &str, nodes: Vec<Node<Body>>) {
    let parser: Parser<TestFn> = Parser::new(Tokens::new(src));
    assert_eq!(parser.parse().unwrap(), tree(nodes));
}

/// Test with a scope containing function definitions.
fn test_scoped(scope: &Scope<TestFn>, src: &str, nodes: Vec<Node<Body>>) {
    assert_eq!(Parser::with_scope(scope, Tokens::new(src)).parse().unwrap(), tree(nodes));
}

/// Test if the source parses into the error.
fn test_err(src: &str, err: &str) {
    let parser: Parser<TestFn> = Parser::new(Tokens::new(src));
    assert_eq!(parser.parse().unwrap_err().message(), err);
}

/// Test with a scope if the source parses into the error.
fn test_err_scoped(scope: &Scope<TestFn>, src: &str, err: &str) {
    assert_eq!(Parser::with_scope(scope, Tokens::new(src)).parse().unwrap_err().message(), err);
}

/// Parse the basic cases.
#[test]
fn parse_base() {
    test("", vec![]);
    test("Hello World!", vec![W("Hello"), S, W("World"), W("!")]);
}

/// Test whether newlines generate the correct whitespace.
#[test]
fn parse_newlines_whitespace() {
    test("Hello\nWorld", vec![W("Hello"), S, W("World")]);
    test("Hello \n World", vec![W("Hello"), S, W("World")]);
    test("Hello\n\nWorld", vec![W("Hello"), N, W("World")]);
    test("Hello \n\nWorld", vec![W("Hello"), S, N, W("World")]);
    test("Hello\n\n  World", vec![W("Hello"), N, S, W("World")]);
    test("Hello \n \n \n  World", vec![W("Hello"), S, N, S, W("World")]);
    test("Hello\n \n\n  World", vec![W("Hello"), S, N, S, W("World")]);
}

/// Parse things dealing with functions.
#[test]
fn parse_functions() {
    let mut scope = Scope::new();
    scope.add(ident("test"), BodylessFn);
    scope.add(ident("end"), BodylessFn);
    scope.add(ident("modifier"), TreeFn);
    scope.add(ident("func"), TreeFn);

    test_scoped(&scope, "[test]", vec![func("test", Body::Bodyless)]);
    test_scoped(&scope, "This is an [modifier][example] of a function invocation.", vec![
        W("This"), S, W("is"), S, W("an"), S,
        func("modifier", Body::Tree(tree(vec![W("example")]))), S,
        W("of"), S, W("a"), S, W("function"), S, W("invocation"), W(".")
    ]);
    test_scoped(&scope, "[func][Hello][modifier][Here][end]", vec![
        func("func", Body::Tree(tree(vec![W("Hello")]))),
        func("modifier", Body::Tree(tree(vec![W("Here")]))),
        func("end", Body::Bodyless),
    ]);
    test_scoped(&scope, "[func][]", vec![func("func", Body::Tree(tree(vec![])))]);
    test_scoped(&scope, "[modifier][[func][call]] outside", vec![
        func("modifier", Body::Tree(tree(vec![
            func("func", Body::Tree(tree(vec![W("call")]))),
        ]))),
        S, W("outside")
    ]);
}

/// Tests if the parser handles non-ASCII stuff correctly.
#[test]
fn parse_unicode() {
    let mut scope = Scope::new();
    scope.add(ident("func"), BodylessFn);
    scope.add(ident("bold"), TreeFn);

    test_scoped(&scope, "[func] ⺐.", vec![
        func("func", Body::Bodyless),
        S, W("⺐"), W(".")
    ]);
    test_scoped(&scope, "[bold][Hello 🌍!]", vec![
        func("bold", Body::Tree(tree(vec![W("Hello"), S, W("🌍"), W("!")]))),
    ]);
}

/// Tests whether errors get reported correctly.
#[test]
fn parse_errors() {
    let mut scope = Scope::new();
    scope.add(ident("hello"), TreeFn);

    test_err("No functions here]", "unexpected closing bracket");
    test_err_scoped(&scope, "[hello][world", "expected closing bracket");
    test_err("[hello world", "expected closing bracket");
    test_err("[ no-name][Why?]", "expected identifier");
}

/// Every error of the parser, with the functions in scope.
#[test]
fn parse_all_errors() {
    let mut scope = Scope::new();
    scope.add(ident("tree"), TreeFn);
    scope.add(ident("bare"), BodylessFn);
    scope.add(ident("ignore"), IgnoringFn);

    test_err_scoped(&scope, "a]", "unexpected closing bracket");
    test_err_scoped(&scope, "[5]", "invalid identifier");
    test_err_scoped(&scope, "[!]", "invalid identifier");
    test_err_scoped(&scope, "[[tree]]", "expected identifier");
    test_err_scoped(&scope, "[# comment\n]", "expected identifier");
    test_err_scoped(&scope, "[tree", "expected closing bracket");
    test_err_scoped(&scope, "[tree: a=b]", "expected closing bracket");
    test_err_scoped(&scope, "[other]", "unknown function: 'other'");
    test_err_scoped(&scope, "[tree]", "expected body for tree fn");
    test_err_scoped(&scope, "[bare][x]", "unexpected body for bodyless fn");
    test_err_scoped(&scope, "[tree][a [bare]", "expected closing bracket");
    test_err_scoped(&scope, "[tree][a ]]", "unexpected closing bracket");
    test_err_scoped(&scope, "[ignore][x]", "unexpected closing bracket");
}

/// A body that its function does not read belongs to the text.
#[test]
fn parse_unread_body() {
    let mut scope = Scope::new();
    scope.add(ident("ignore"), IgnoringFn);

    test_scoped(&scope, "[ignore][x", vec![func("ignore", Body::Bodyless), W("x")]);
}

/// Words that are names.
#[test]
fn identifiers() {
    assert_eq!(Ident::new("page").unwrap().as_str(), "page");
    assert_eq!(Ident::new("größe_2").unwrap().as_str(), "größe_2");
    assert!(Ident::new("").is_none());
    assert!(Ident::new("_x").is_none());
    assert!(Ident::new("2x").is_none());
    assert!(Ident::new("x-y").is_none());
    assert!(Ident::new("a b").is_none());
    assert!(ident("a").is(&ident("a").clone()));
    assert!(!ident("a").is(&ident("ab")));
}

/// A name stands for the function that was added last.
#[test]
fn scope_replaces() {
    let mut scope = Scope::new();
    scope.add(ident("a"), 1);
    scope.add(ident("b"), 2);
    scope.add(ident("a"), 3);
    assert_eq!(scope.get_parser(&ident("a")), Some(&3));
    assert_eq!(scope.get_parser(&ident("b")), Some(&2));
    assert_eq!(scope.get_parser(&ident("c")), None);
}

/// Modifiers toggle.
#[test]
fn parse_modifiers() {
    test("a **b** __c__ $d$", vec![
        W("a"), S, Node::ToggleBold, W("b"), Node::ToggleBold, S,
        Node::ToggleItalics, W("c"), Node::ToggleItalics, S,
        Node::ToggleMath, W("d"), Node::ToggleMath,
    ]);
    test(r"\[a\]", vec![W("["), W("a"), W("]")]);
}

/// Input that ends early.
#[test]
fn parse_early_end() {
    test("[", vec![]);
    test("a\n", vec![W("a")]);
    test("a\n\n", vec![W("a"), N]);
    test("\n a", vec![S, W("a")]);
}

/// A token of a function header in the text.
#[test]
fn parse_header_token() {
    let mut scope = Scope::new();
    scope.add(ident("bare"), BodylessFn);
    scope.add(ident("ignore"), IgnoringFn);

    let parser = Parser::with_scope(&scope, Tokens::new("[bare] [ignore][a: b]"));
    assert!(parser.try_parse().is_none());
    let parser = Parser::with_scope(&scope, Tokens::new("[bare] b"));
    let result = parser.try_parse().unwrap();
    assert_eq!(result.unwrap(), tree(vec![func("bare", Body::Bodyless), S, W("b")]));
}

/// Comments are skipped with the newline that ends them.
#[test]
fn law_comment_skipped() {
    test("a # [ comment ]\nb", vec![W("a"), S, W("b")]);
    test("a# comment\nb", vec![W("a"), W("b")]);
    test("a # comment", vec![W("a"), S]);
    test("a\n# comment\nb", vec![W("a"), S, W("b")]);
    test("a\n\n# comment\nb", vec![W("a"), N, W("b")]);
    test("a\n# comment\n\nb", vec![W("a"), N, W("b")]);
    test("# comment\na", vec![W("a")]);

    let mut scope = Scope::new();
    scope.add(ident("f"), BodylessFn);
    test_scoped(&scope, "[# comment\nf] b", vec![func("f", Body::Bodyless), S, W("b")]);
}

/// A comment that is the last thing in a body ends with the body.
#[test]
fn law_last_comment() {
    let mut scope = Scope::new();
    scope.add(ident("f"), TreeFn);

    for src in ["[f][a\n#c\n] b", "[f][a\n#c] b", "[f][a#] b", "[f][a# [c] d\n] b"] {
        test_scoped(&scope, src, vec![
            func("f", Body::Tree(tree(vec![W("a")]))), S, W("b"),
        ]);
    }
    test_scoped(&scope, "[f][a #][f][b] c", vec![
        func("f", Body::Tree(tree(vec![W("a"), S]))),
        func("f", Body::Tree(tree(vec![W("b")]))), S, W("c"),
    ]);
    test_err_scoped(&scope, "[f][a #c", "expected closing bracket");
    test("a #", vec![W("a"), S]);
}

/// Plain text parses, with all its words in order.
#[test]
fn law_text_parses() {
    test("one\ntwo\n\nthree $ four : = five", vec![
        W("one"), S, W("two"), N, W("three"), S, Node::ToggleMath, S, W("four"), S, W(":"), S,
        W("="), S, W("five"),
    ]);
}

/// Nothing that stands behind an unbalanced bracket matters.
#[test]
fn law_unexpected_bracket() {
    test_err("a ] b [ c", "unexpected closing bracket");
    test_err("\n]\n", "unexpected closing bracket");
}

/// Whitespace does not add up.
#[test]
fn law_space_nodes_apart() {
    test("a \n \t b", vec![W("a"), S, W("b")]);
    test("a\n\n \n b", vec![W("a"), N, S, W("b")]);
}

/// Paragraph breaks do not add up, with comments among them or without.
#[test]
fn law_breaks_apart() {
    test("a\n\n\n\n\nb\n\nc", vec![W("a"), N, S, W("b"), N, W("c")]);
    test("a\n\n# comment\n\n\nb", vec![W("a"), N, S, W("b")]);
}

/// One newline is a space, two are a paragraph break.
#[test]
fn law_line_and_paragraph_break() {
    test("a\nb", vec![W("a"), S, W("b")]);
    test("a\n\nb", vec![W("a"), N, W("b")]);
    test("a\n\n\nb", vec![W("a"), N, S, W("b")]);
}

/// A parser without functions is a parser with a scope that has none.
#[test]
fn law_no_functions() {
    let scope = Scope::new();
    test_scoped(&scope, "a b", vec![W("a"), S, W("b")]);
    test_err_scoped(&scope, "a [b: c]", "expected closing bracket");
    test_err("a [b: c]", "expected closing bracket");
    test_err_scoped(&scope, "a [b]", "unknown function: 'b'");
    test_err("a [b]", "unknown function: 'b'");
}

/// Invocations keep their order, and the text goes on behind them.
#[test]
fn law_calls_in_order() {
    let mut scope = Scope::new();
    scope.add(ident("t"), TreeFn);
    scope.add(ident("b"), BodylessFn);

    test_scoped(&scope, "[t][1][b] [t][2 [b] [t][3]] 4", vec![
        func("t", Body::Tree(tree(vec![W("1")]))),
        func("b", Body::Bodyless), S,
        func("t", Body::Tree(tree(vec![
            W("2"), S, func("b", Body::Bodyless), S,
            func("t", Body::Tree(tree(vec![W("3")]))),
        ]))),
        S, W("4"),
    ]);
}

/// A body is parsed as if it stood alone.
#[test]
fn law_body_text_parses() {
    let mut scope = Scope::new();
    scope.add(ident("t"), TreeFn);

    for rest in ["", " rest", "]", "[t][x]"] {
        let src = format!("[t][a\n\nb{}", "]") + rest;
        let body = Body::Tree(tree(vec![W("a"), N, W("b")]));
        match Parser::with_scope(&scope, Tokens::new(&src)).parse() {
            Ok(parsed) => assert_eq!(parsed.nodes[0], func("t", body)),
            Err(error) => assert_eq!(error.message(), "unexpected closing bracket"),
        }
    }
}

/// A body is read to the bracket that closes it, at every depth, and the text goes
/// on behind it.
#[test]
fn law_parsed_body() {
    let mut scope = Scope::new();
    scope.add(ident("t"), TreeFn);
    scope.add(ident("greedy"), GreedyFn);

    test_scoped(&scope, "[t][a [t][b] c] d", vec![
        func("t", Body::Tree(tree(vec![
            W("a"), S, func("t", Body::Tree(tree(vec![W("b")]))), S, W("c"),
        ]))),
        S, W("d"),
    ]);
    test_scoped(&scope, "[t][a # [ comment\n # ] comment\n[t][b]#] c", vec![
        func("t", Body::Tree(tree(vec![
            W("a"), S, func("t", Body::Tree(tree(vec![W("b")]))),
        ]))),
        S, W("c"),
    ]);
    test_scoped(&scope, "[greedy][a]b c", vec![
        func("greedy", Body::Tree(tree(vec![W("a")]))), S, W("c"),
    ]);
}

/// A body that is not closed is an error at every depth.
#[test]
fn law_unclosed_parsed_body() {
    let mut scope = Scope::new();
    scope.add(ident("t"), TreeFn);

    test_err_scoped(&scope, "[t][a", "expected closing bracket");
    test_err_scoped(&scope, "[t][a [t][b] c", "expected closing bracket");
    test_err_scoped(&scope, "[t][a [t][b", "expected closing bracket");
}

/// At an error, a body has been read to what was looked at last.
#[test]
fn parse_body_error() {
    let mut scope = Scope::new();
    scope.add(ident("lenient"), LenientFn);

    test_scoped(&scope, "[lenient][x [5 y z", vec![
        func("lenient", Body::Bodyless), S, W("y"), S, W("z"),
    ]);
    let parser = Parser::with_scope(&scope, Tokens::new("[lenient][[5=x"));
    assert!(parser.try_parse().is_none());
    test_err_scoped(&scope, "[lenient][x [5] y] z", "unexpected closing bracket");
    test_scoped(&scope, "[lenient][x] y", vec![
        func("lenient", Body::Tree(tree(vec![W("x")]))), S, W("y"),
    ]);
}

/// Plain text in a body is read to the bracket that closes it.
#[test]
fn law_body_text_read() {
    let mut scope = Scope::new();
    scope.add(ident("t"), TreeFn);

    test_scoped(&scope, "[t][a b\n]c", vec![
        func("t", Body::Tree(tree(vec![W("a"), S, W("b")]))), W("c"),
    ]);
}

/// Skipping a comment twice, or a space behind a space, changes nothing.
#[test]
fn law_skip_and_space_again() {
    test("a # one\n# two\nb", vec![W("a"), S, W("b")]);
    test("a \n b", vec![W("a"), S, W("b")]);
}
