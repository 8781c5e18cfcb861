use ginger::gg::decoder::{Decoder, Error};
use ginger::gg::lexer::{Lexer, Location, Token, TokenKind};
use ginger::gg::{zero_tuple, Graph, OpenEdge, Value};

fn name(s: &'static str) -> Value {
    Value::Name(s.to_string())
}

fn number(i: i64) -> Value {
    Value::Number(i)
}

fn chars(s: &'static str) -> Vec<char> {
    s.chars().collect()
}

struct Test {
    input: &'static str,
    exp: Graph,
}

#[test]
fn decoder() {
    let tests = vec![
        Test { input: "", exp: Graph::new() },
        Test { input: "out = 1", exp: Graph::new().with(name("out"), zero_tuple(), number(1)) },
        Test { input: "out = 1;", exp: Graph::new().with(name("out"), zero_tuple(), number(1)) },
        Test {
            input: "out = incr < 1",
            exp: Graph::new().with(name("out"), name("incr"), number(1)),
        },
        Test {
            input: "out = incr < 1;",
            exp: Graph::new().with(name("out"), name("incr"), number(1)),
        },
        Test {
            input: "out = a < b < 1",
            exp: Graph::new().with(
                name("out"),
                name("a"),
                Value::Tuple(vec![OpenEdge(name("b"), number(1))]),
            ),
        },
        Test {
            input: "out = a < b < 1;",
            exp: Graph::new().with(
                name("out"),
                name("a"),
                Value::Tuple(vec![OpenEdge(name("b"), number(1))]),
            ),
        },
        Test {
            input: "out = a < b < (1, c < 2, d < e < 3)",
            exp: Graph::new().with(
                name("out"),
                name("a"),
                Value::Tuple(vec![OpenEdge(
                    name("b"),
                    Value::Tuple(vec![
                        OpenEdge(zero_tuple(), number(1)),
                        OpenEdge(name("c"), number(2)),
                        OpenEdge(name("d"), Value::Tuple(vec![OpenEdge(name("e"), number(3))])),
                    ]),
                )]),
            ),
        },
        Test {
            input: "out = (c < 2,);",
            exp: Graph::new().with(
                name("out"),
                zero_tuple(),
                Value::Tuple(vec![OpenEdge(name("c"), number(2))]),
            ),
        },
        Test {
            input: "out = (1, c < 2) < 3;",
            exp: Graph::new().with(
                name("out"),
                Value::Tuple(vec![
                    OpenEdge(zero_tuple(), number(1)),
                    OpenEdge(name("c"), number(2)),
                ]),
                number(3),
            ),
        },
        Test {
            input: "out = a < b < (1, c < (d < 2, 3))",
            exp: Graph::new().with(
                name("out"),
                name("a"),
                Value::Tuple(vec![OpenEdge(
                    name("b"),
                    Value::Tuple(vec![
                        OpenEdge(zero_tuple(), number(1)),
                        OpenEdge(
                            name("c"),
                            Value::Tuple(vec![
                                OpenEdge(name("d"), number(2)),
                                OpenEdge(zero_tuple(), number(3)),
                            ]),
                        ),
                    ]),
                )]),
            ),
        },
        Test {
            input: "out = { a = 1; b = 2 < 3; c = 4 < 5 < 6 }",
            exp: Graph::new().with(
                name("out"),
                zero_tuple(),
                Value::Graph(
                    Graph::new()
                        .with(name("a"), zero_tuple(), number(1))
                        .with(name("b"), number(2), number(3))
                        .with(
                            name("c"),
                            number(4),
                            Value::Tuple(vec![OpenEdge(number(5), number(6))]),
                        ),
                ),
            ),
        },
        Test {
            input: "out = { a = 1; };",
            exp: Graph::new().with(
                name("out"),
                zero_tuple(),
                Value::Graph(Graph::new().with(name("a"), zero_tuple(), number(1))),
            ),
        },
        Test {
            input: "out = { a = 1; } < 2",
            exp: Graph::new().with(
                name("out"),
                Value::Graph(Graph::new().with(name("a"), zero_tuple(), number(1))),
                number(2),
            ),
        },
        Test {
            input: "out = { a = 1; } < 2; foo = 5 < 6",
            exp: Graph::new()
                .with(
                    name("out"),
                    Value::Graph(Graph::new().with(name("a"), zero_tuple(), number(1))),
                    number(2),
                )
                .with(name("foo"), number(5), number(6)),
        },
        Test {
            input: "out = { a = 1 } < 2; foo = 5 < 6;",
            exp: Graph::new()
                .with(
                    name("out"),
                    Value::Graph(Graph::new().with(name("a"), zero_tuple(), number(1))),
                    number(2),
                )
                .with(name("foo"), number(5), number(6)),
        },
    ];

    for test in tests {
        println!("INPUT: {:#?}", test.input);

        let mut d = Decoder::new(chars(test.input));
        let got = d.decode_undelimited().expect("no errors expected");
        assert_eq!(test.exp, got);
    }
}

#[test]
fn pushback_empty_tuple() {
    // "()" must decode as an empty tuple without swallowing the terminator
    let mut d = Decoder::new(chars("out = ()"));
    let got = d.decode_undelimited().expect("no errors expected");
    let exp = Graph::new().with(name("out"), zero_tuple(), Value::Tuple(vec![]));
    assert_eq!(exp, got);
}

#[test]
fn empty_input() {
    let mut d = Decoder::new(chars(""));
    let got = d.decode_undelimited().expect("no errors expected");
    assert_eq!(Graph::new(), got);
}

#[test]
fn malformed_integer() {
    // "1-2" lexes as one Number token whose text fails integer parsing
    let mut d = Decoder::new(chars("out = 1-2"));
    match d.decode_undelimited() {
        Err(Error::Decoding(_, loc)) => {
            assert_eq!(loc, Location { row: 0, col: 6 });
        },
        _ => panic!("expected a decoding error"),
    }
}

#[test]
fn unterminated_brace() {
    let mut d = Decoder::new(chars("out = { a = 1"));
    match d.decode_undelimited() {
        Err(Error::Decoding(_, loc)) => {
            // located at the End token, just past the last character
            assert_eq!(loc, Location { row: 0, col: 13 });
        },
        _ => panic!("expected a decoding error"),
    }
}

#[test]
fn integer_bounds() {
    let mut d = Decoder::new(chars("a = 9223372036854775807; b = -9223372036854775808"));
    let got = d.decode_undelimited().expect("no errors expected");
    let exp = Graph::new()
        .with(name("a"), zero_tuple(), number(i64::MAX))
        .with(name("b"), zero_tuple(), number(i64::MIN));
    assert_eq!(exp, got);

    let mut d2 = Decoder::new(chars("a = 9223372036854775808"));
    assert!(d2.decode_undelimited().is_err());
}

#[test]
fn lexer() {
    struct LexTest {
        input: &'static str,
        exp: Vec<(Token, Location)>,
    }

    fn tok(kind: TokenKind, val: &'static str, loc_row: i64, loc_col: i64) -> (Token, Location) {
        (Token { kind, value: val.to_string() }, Location { row: loc_row, col: loc_col })
    }

    let tests = vec![
        LexTest { input: "", exp: vec![tok(TokenKind::End, "", 0, 0)] },
        LexTest { input: "* foo", exp: vec![tok(TokenKind::End, "", 0, 5)] },
        LexTest { input: "* foo\n", exp: vec![tok(TokenKind::End, "", 1, 0)] },
        LexTest {
            input: "* foo\nbar",
            exp: vec![tok(TokenKind::Name, "bar", 1, 0), tok(TokenKind::End, "", 1, 3)],
        },
        LexTest {
            input: "* foo\nbar ",
            exp: vec![tok(TokenKind::Name, "bar", 1, 0), tok(TokenKind::End, "", 1, 4)],
        },
        LexTest {
            input: "foo bar\nf-o f0O Foo",
            exp: vec![
                tok(TokenKind::Name, "foo", 0, 0),
                tok(TokenKind::Name, "bar", 0, 4),
                tok(TokenKind::Name, "f-o", 1, 0),
                tok(TokenKind::Name, "f0O", 1, 4),
                tok(TokenKind::Name, "Foo", 1, 8),
                tok(TokenKind::End, "", 1, 11),
            ],
        },
        LexTest {
            input: "1 100 -100",
            exp: vec![
                tok(TokenKind::Number, "1", 0, 0),
                tok(TokenKind::Number, "100", 0, 2),
                tok(TokenKind::Number, "-100", 0, 6),
                tok(TokenKind::End, "", 0, 10),
            ],
        },
        LexTest {
            input: "1<2!-3 ()",
            exp: vec![
                tok(TokenKind::Number, "1", 0, 0),
                tok(TokenKind::Punctuation, "<", 0, 1),
                tok(TokenKind::Number, "2", 0, 2),
                tok(TokenKind::Punctuation, "!", 0, 3),
                tok(TokenKind::Number, "-3", 0, 4),
                tok(TokenKind::Punctuation, "(", 0, 7),
                tok(TokenKind::Punctuation, ")", 0, 8),
                tok(TokenKind::End, "", 0, 9),
            ],
        },
    ];

    for test in tests {
        println!("INPUT: {:#?}", test.input);

        let mut l = Lexer::new(test.input.chars().collect());
        let mut res = Vec::new();

        loop {
            let (token, loc) = l.next().expect("no errors expected");
            let is_end = token.kind == TokenKind::End;

            res.push((token, loc));

            if is_end {
                break;
            }
        }

        assert_eq!(*test.exp, *res.as_slice())
    }
}

#[test]
fn pushback_round_trip() {
    let mut l = Lexer::new("a b".chars().collect());
    let (t1, loc1) = l.next().expect("no errors expected");
    assert_eq!(t1, Token { kind: TokenKind::Name, value: "a".to_string() });
    l.push_next(t1.clone(), loc1);
    let (t1b, loc1b) = l.next().expect("no errors expected");
    assert_eq!(t1, t1b);
    assert_eq!(loc1, loc1b);
}

#[test]
fn renderings() {
    assert_eq!(Location { row: 3, col: 7 }.render(), "3:7".to_string());
    assert_eq!(Location { row: -1, col: 0 }.render(), "-1:0".to_string());
    let t = Token { kind: TokenKind::Punctuation, value: "<".to_string() };
    assert_eq!(t.render(), "'<'".to_string());
    let e = Token { kind: TokenKind::End, value: "".to_string() };
    assert_eq!(e.render(), "<end>".to_string());
}
