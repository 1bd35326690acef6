use hclrs::ast::{BinOpCode, ConstDecl, Expr, MuxOption, SpannedExpr, UnOpCode, WireDecl, WireValue, WireWidth};
use hclrs::lexer::{Lexer, Tok};
use hclrs::errors::Error;
use hclrs::io::FileContents;
use hclrs::parser::{parse_const_decls_str, parse_expr_str, parse_wire_decls_str};
use std::cell::RefCell;
use std::collections::HashSet;

fn parse_expr(s: &str) -> SpannedExpr {
    parse_expr_str(s).unwrap()
}

fn strip_spans(e: SpannedExpr) -> SpannedExpr {
    let inner = match *e.expr {
        Expr::BinOp(op, l, r) => Expr::BinOp(op, strip_spans(l), strip_spans(r)),
        Expr::UnOp(op, x) => Expr::UnOp(op, strip_spans(x)),
        Expr::Mux(options) => Expr::Mux(
            options
                .into_iter()
                .map(|o| MuxOption { condition: strip_spans(o.condition), value: strip_spans(o.value) })
                .collect(),
        ),
        Expr::BitSelect { from, low, high } => Expr::BitSelect { from: strip_spans(from), low, high },
        Expr::Concat(l, r) => Expr::Concat(strip_spans(l), strip_spans(r)),
        Expr::InSet(l, items) => Expr::InSet(strip_spans(l), items.into_iter().map(strip_spans).collect()),
        other => other,
    };
    SpannedExpr::new((0, 0), inner)
}

#[test]
fn parse_binops() {
    assert_eq!(
        parse_expr("0b1000 * 15"),
        SpannedExpr::new(
            (0, 11),
            Expr::BinOp(
                BinOpCode::Mul,
                SpannedExpr::new((0, 6), Expr::Constant(WireValue::from_binary("1000"))),
                SpannedExpr::new((9, 11), Expr::Constant(WireValue::from_decimal("15")))
            ),
        )
    );
    assert_eq!(
        parse_expr("0b1000 * 15 + 1"),
        SpannedExpr::new(
            (0, 15),
            Expr::BinOp(
                BinOpCode::Add,
                SpannedExpr::new(
                    (0, 11),
                    Expr::BinOp(
                        BinOpCode::Mul,
                        SpannedExpr::new((0, 6), Expr::Constant(WireValue::from_binary("1000"))),
                        SpannedExpr::new((9, 11), Expr::Constant(WireValue::from_decimal("15")))
                    ),
                ),
                SpannedExpr::new((14, 15), Expr::Constant(WireValue::from_decimal("1"))),
            ),
        )
    );
    assert_eq!(
        parse_expr("0b1000 + 15 * 1"),
        SpannedExpr::new(
            (0, 15),
            Expr::BinOp(
                BinOpCode::Add,
                SpannedExpr::new((0, 6), Expr::Constant(WireValue::from_binary("1000"))),
                SpannedExpr::new(
                    (9, 15),
                    Expr::BinOp(
                        BinOpCode::Mul,
                        SpannedExpr::new((9, 11), Expr::Constant(WireValue::from_decimal("15"))),
                        SpannedExpr::new((14, 15), Expr::Constant(WireValue::from_decimal("1"))),
                    )
                ),
            ),
        )
    );
    assert_eq!(
        parse_expr("0b1000 * 15 + 1 > 0").to_expr(),
        &Expr::BinOp(
            BinOpCode::Greater,
            parse_expr("0b1000 * 15 + 1"),
            SpannedExpr::new((18, 19), Expr::Constant(WireValue::from_decimal("0")))
        )
    );
    assert_eq!(
        strip_spans(parse_expr("  0b1000 & (15 + 1)  > 5  &&  0x1234 < 3  ||  4 >= 1  <<  1 / 5   ")),
        strip_spans(parse_expr("((0b1000 & (15 + 1)) > 5) && (0x1234 < 3) || (4 >= (1 << (1 / 5)))"))
    );
}

#[test]
fn parse_unops() {
    assert_eq!(
        parse_expr("-0b1000"),
        SpannedExpr::new(
            (0, 7),
            Expr::UnOp(UnOpCode::Negate, SpannedExpr::new((1, 7), Expr::Constant(WireValue::from_binary("1000"))))
        )
    );
    assert_eq!(
        parse_expr("1+-0b1000"),
        SpannedExpr::new(
            (0, 9),
            Expr::BinOp(
                BinOpCode::Add,
                SpannedExpr::new((0, 1), Expr::Constant(WireValue::from_decimal("1"))),
                SpannedExpr::new(
                    (2, 9),
                    Expr::UnOp(
                        UnOpCode::Negate,
                        SpannedExpr::new((3, 9), Expr::Constant(WireValue::from_binary("1000")))
                    )
                )
            )
        )
    );
    assert_eq!(
        parse_expr("~42"),
        SpannedExpr::new(
            (0, 3),
            Expr::UnOp(UnOpCode::Complement, SpannedExpr::new((1, 3), Expr::Constant(WireValue::from_decimal("42"))))
        )
    );
    assert_eq!(
        parse_expr("+42"),
        SpannedExpr::new(
            (0, 3),
            Expr::UnOp(UnOpCode::Plus, SpannedExpr::new((1, 3), Expr::Constant(WireValue::from_decimal("42"))))
        )
    );
}

fn three_options() -> Vec<MuxOption> {
    vec![
        MuxOption {
            condition: SpannedExpr::new((1, 2), Expr::Constant(WireValue::from_decimal("0"))),
            value: SpannedExpr::new((3, 5), Expr::Constant(WireValue::from_decimal("42"))),
        },
        MuxOption {
            condition: SpannedExpr::new((6, 10), Expr::Constant(WireValue::from_hexadecimal("42"))),
            value: SpannedExpr::new((11, 13), Expr::Constant(WireValue::from_decimal("43"))),
        },
        MuxOption {
            condition: SpannedExpr::new((14, 15), Expr::Constant(WireValue::from_decimal("1"))),
            value: SpannedExpr::new((16, 18), Expr::Constant(WireValue::from_decimal("44"))),
        },
    ]
}

#[test]
fn parse_mux() {
    assert_eq!(parse_expr("[0:42;0x42:43;1:44;]"), SpannedExpr::new((0, 20), Expr::Mux(three_options())));
    assert_eq!(parse_expr("[0:42;0x42:43;1:44]"), SpannedExpr::new((0, 19), Expr::Mux(three_options())));
}

#[test]
fn parse_wiredecls() {
    let mut errors = Vec::new();
    assert_eq!(
        parse_wire_decls_str("wire x : 32 , y : 2, z : 1", &mut errors).unwrap(),
        vec!(
            WireDecl { name: String::from("x"), width: WireWidth::Bits(32), span: (5, 11) },
            WireDecl { name: String::from("y"), width: WireWidth::Bits(2), span: (14, 19) },
            WireDecl { name: String::from("z"), width: WireWidth::Bits(1), span: (21, 26) }
        )
    );
    assert_eq!(errors.len(), 0);
    errors.clear();
    assert_eq!(
        parse_wire_decls_str("wire x : 64", &mut errors).unwrap(),
        vec!(WireDecl { name: String::from("x"), width: WireWidth::Bits(64), span: (5, 11) })
    );
    assert_eq!(errors.len(), 0);
}

#[test]
fn parse_constdecls() {
    let mut errors = Vec::new();
    assert_eq!(
        parse_const_decls_str("const x = 0x42, y=0", &mut errors).unwrap(),
        vec!(
            ConstDecl {
                name: String::from("x"),
                name_span: (6, 7),
                value: SpannedExpr::new((10, 14), Expr::Constant(WireValue::from_hexadecimal("42")))
            },
            ConstDecl {
                name: String::from("y"),
                name_span: (16, 17),
                value: SpannedExpr::new((18, 19), Expr::Constant(WireValue::from_decimal("0")))
            }
        )
    );
    assert_eq!(errors.len(), 0);
}

#[test]
fn eval_binaryops() {
    assert_eq!(
        parse_expr("0b1000 & 15").evaluate_constant().unwrap(),
        WireValue { bits: 8, width: WireWidth::Bits(4) }
    );
    assert_eq!(
        parse_expr("0b1000 & 15 == 0x8").evaluate_constant().unwrap(),
        WireValue { bits: 1, width: WireWidth::Bits(1) }
    );
    assert_eq!(
        parse_expr("1 ^ 0xFFFF == 0xFFFE").evaluate_constant().unwrap(),
        WireValue { bits: 1, width: WireWidth::Bits(1) }
    );
}

#[test]
fn eval_unops() {
    assert_eq!(parse_expr("-0b1000").evaluate_constant().unwrap(), WireValue::from_binary("1000"));
    assert_eq!(parse_expr("-0b01000").evaluate_constant().unwrap(), WireValue::from_binary("11000"));
    assert_eq!(parse_expr("1+-0b01000").evaluate_constant().unwrap(), WireValue::from_binary("11001"));
    assert_eq!(parse_expr("~42").evaluate_constant().unwrap(), WireValue { bits: !42, width: WireWidth::Unlimited });
}

#[test]
fn eval_mux() {
    assert_eq!(
        parse_expr("[ 0 : 42; 0x42 : 43 ; 1 : 44; ]").evaluate_constant().unwrap(),
        WireValue { bits: 43, width: WireWidth::Unlimited }
    );
}

#[test]
fn eval_bitselect() {
    assert_eq!(parse_expr("0b1001011[1..4]").evaluate_constant().unwrap(), WireValue::from_binary("101"));
    assert_eq!(parse_expr("0b1001011[0..4]").evaluate_constant().unwrap(), WireValue::from_binary("1011"));
    assert_eq!(parse_expr("0b1001011[0..1]").evaluate_constant().unwrap(), WireValue::from_binary("1"));
    assert_eq!(parse_expr("0b10001011[7..8]").evaluate_constant().unwrap(), WireValue::from_binary("1"));
    assert_eq!(parse_expr("(0b1000 .. 0b1011)[7..8]").evaluate_constant().unwrap(), WireValue::from_binary("1"));
}

#[test]
fn eval_bitconcat() {
    assert_eq!(parse_expr("(0b100 .. 0b1011)").evaluate_constant().unwrap(), WireValue::from_binary("1001011"));
    assert_eq!(parse_expr("(0b1 .. 0b0)").evaluate_constant().unwrap(), WireValue::from_binary("10"));
}

#[test]
fn unicode_comment() {
    let mut lexer = Lexer::new("#❤️\nconst\n");
    assert_eq!(lexer.next().unwrap().unwrap().1, Tok::Const);
}

#[test]
fn cr_newline() {
    let mut lexer = Lexer::new("#❤️\rconst\r");
    assert_eq!(lexer.next().unwrap().unwrap().1, Tok::Const);
}

#[test]
fn eof_comment() {
    let mut lexer = Lexer::new("/* foo */");
    assert!(lexer.next().is_none());
}

#[test]
fn unterminated_comment() {
    let mut lexer = Lexer::new("/* foo");
    if let Some(Err(Error::UnterminatedComment(loc))) = lexer.next() {
        assert_eq!(loc, 0);
    } else {
        assert!(false);
    }
}

#[test]
fn referenced_wires() {
    let just_foo: HashSet<String> = ["foo"].iter().map(|s| s.to_string()).collect();
    let foo_and_bar: HashSet<String> = ["foo", "bar"].iter().map(|s| s.to_string()).collect();
    let as_set = |v: Vec<String>| v.into_iter().collect::<HashSet<String>>();
    assert_eq!(
        as_set(SpannedExpr::new((0, 0), Expr::NamedWire(String::from("foo"))).referenced_wires()),
        just_foo
    );
    assert_eq!(
        as_set(
            SpannedExpr::new(
                (0, 0),
                Expr::UnOp(UnOpCode::Negate, SpannedExpr::new((0, 0), Expr::NamedWire(String::from("foo"))))
            )
            .referenced_wires()
        ),
        just_foo
    );
    assert_eq!(
        as_set(
            SpannedExpr::new(
                (0, 0),
                Expr::BinOp(
                    BinOpCode::Add,
                    SpannedExpr::new((0, 0), Expr::NamedWire(String::from("foo"))),
                    SpannedExpr::new((0, 0), Expr::NamedWire(String::from("bar")))
                )
            )
            .referenced_wires()
        ),
        foo_and_bar
    );
}

#[test]
fn show_region() {
    let test_file = "This is the first line.
This is the second line.
This is the third line.";
    let contents = FileContents::new_from_data("\n", test_file, "example.name");
    let first_loc = contents.data().find("first").unwrap();
    let line_loc = contents.data().find(".").unwrap();
    let reference = "     -> example.name:1
     |
   1 | This is the first line.
     |             ^^^^^^^^^^
";
    let actual = contents.show_region(first_loc, line_loc);
    assert_eq!(actual, reference);
}

fn tokens_of(text: &str) -> Vec<(usize, Tok, usize)> {
    let mut lexer = Lexer::new(text);
    let mut out = Vec::new();
    while let Some(t) = lexer.next() {
        out.push(t.unwrap());
    }
    out
}

#[test]
fn lexer_skips_only_white_space_and_comments() {
    let ts = tokens_of("a /* c */ b # x\n c // y\n;");
    assert_eq!(ts.len(), 4);
    assert_eq!(ts[0], (0, Tok::Identifier(String::from("a")), 1));
    assert_eq!(ts[1], (10, Tok::Identifier(String::from("b")), 11));
    assert_eq!(ts[2], (17, Tok::Identifier(String::from("c")), 18));
    assert_eq!(ts[3], (24, Tok::Semicolon, 25));
}

#[test]
fn lexer_comment_closed_by_its_own_star() {
    let ts = tokens_of("/*/ x");
    assert_eq!(ts, vec![(4, Tok::Identifier(String::from("x")), 5)]);
}

#[test]
fn lexer_unterminated_comment_after_token() {
    let mut lexer = Lexer::new("a /* b");
    assert_eq!(lexer.next().unwrap().unwrap(), (0, Tok::Identifier(String::from("a")), 1));
    match lexer.next() {
        Some(Err(Error::UnterminatedComment(loc))) => assert_eq!(loc, 2),
        _ => panic!("expected an unterminated comment"),
    }
}

#[test]
fn lexer_unknown_character() {
    let mut lexer = Lexer::new("x @");
    assert_eq!(lexer.next().unwrap().unwrap(), (0, Tok::Identifier(String::from("x")), 1));
    match lexer.next() {
        Some(Err(Error::LexicalError(loc))) => assert_eq!(loc, 2),
        _ => panic!("expected a lexical error"),
    }
}

#[test]
fn lexer_longest_tokens_and_keywords() {
    let ts = tokens_of("wire wires >>= <= ! != / 0x1f 7");
    let kinds: Vec<Tok> = ts.into_iter().map(|t| t.1).collect();
    assert_eq!(
        kinds,
        vec![
            Tok::Wire,
            Tok::Identifier(String::from("wires")),
            Tok::RightShift,
            Tok::Assign,
            Tok::LessEqual,
            Tok::Not,
            Tok::NotEqual,
            Tok::Divide,
            Tok::Constant(WireValue::new(31)),
            Tok::Constant(WireValue::new(7)),
        ]
    );
}

#[test]
fn lexer_constant_errors() {
    let mut lexer = Lexer::new("0xg");
    match lexer.next() {
        Some(Err(Error::LexicalError(loc))) => assert_eq!(loc, 2),
        _ => panic!("expected a lexical error"),
    }
    let mut lexer = Lexer::new("0b012");
    match lexer.next() {
        Some(Err(Error::LexicalError(loc))) => assert_eq!(loc, 4),
        _ => panic!("expected a lexical error"),
    }
}

#[test]
fn apply_to_all_visits_in_preorder() {
    let e = parse_expr_str("a + -b * c").unwrap();
    let seen: RefCell<Vec<(usize, usize)>> = RefCell::new(Vec::new());
    let r = e.apply_to_all(&|x: &SpannedExpr| {
        seen.borrow_mut().push(x.span);
        Ok(())
    });
    assert!(r.is_ok());
    assert_eq!(seen.into_inner(), vec![(0, 10), (0, 1), (4, 10), (4, 6), (5, 6), (9, 10)]);
}

#[test]
fn apply_to_all_stops_at_first_error() {
    let e = parse_expr_str("a + b + c").unwrap();
    let count: RefCell<usize> = RefCell::new(0);
    let r = e.apply_to_all(&|x: &SpannedExpr| {
        *count.borrow_mut() += 1;
        match &*x.expr {
            Expr::NamedWire(n) if n == "b" => Err(Error::LexicalError(x.span.0)),
            _ => Ok(()),
        }
    });
    match r {
        Err(Error::LexicalError(loc)) => assert_eq!(loc, 4),
        _ => panic!("expected the error of the call on b"),
    }
    assert_eq!(count.into_inner(), 4);
}
