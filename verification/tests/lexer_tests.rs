use rado::token::{lex, Kw, Sign, Sym, Tok};

#[test]
fn lex_syms() {
    let str = "=======";
    let toks = vec![
        Tok::Sym(Sym::Eq),
        Tok::Sym(Sym::Eq),
        Tok::Sym(Sym::Eq),
        Tok::Sym(Sym::Assign),
    ];
    assert_eq!(toks, lex(str).unwrap());

    let str = "===>>>=!==";
    let toks = vec![
        Tok::Sym(Sym::Eq),
        Tok::Sym(Sym::DoubleArrow),
        Tok::Sym(Sym::GT),
        Tok::Sym(Sym::GE),
        Tok::Sym(Sym::NEq),
        Tok::Sym(Sym::Assign),
    ];
    assert_eq!(toks, lex(str).unwrap());

    let str = "--->+<<==";
    let toks = vec![
        Tok::Sym(Sym::Minus),
        Tok::Sym(Sym::Minus),
        Tok::Sym(Sym::Arrow),
        Tok::Sym(Sym::Plus),
        Tok::Sym(Sym::LT),
        Tok::Sym(Sym::LE),
        Tok::Sym(Sym::Assign),
    ];
    assert_eq!(toks, lex(str).unwrap());

    let str = "*+-/%.;:,{}()[]";
    let toks = vec![
        Tok::Sym(Sym::Star),
        Tok::Sym(Sym::Plus),
        Tok::Sym(Sym::Minus),
        Tok::Sym(Sym::Slash),
        Tok::Sym(Sym::Percent),
        Tok::Sym(Sym::Dot),
        Tok::Sym(Sym::Semi),
        Tok::Sym(Sym::Colon),
        Tok::Sym(Sym::Comma),
        Tok::Sym(Sym::LBrace),
        Tok::Sym(Sym::RBrace),
        Tok::Sym(Sym::LParen),
        Tok::Sym(Sym::RParen),
        Tok::Sym(Sym::LBrack),
        Tok::Sym(Sym::RBrack),
    ];
    assert_eq!(toks, lex(str).unwrap());

    let str = "- > = > = < = =";
    let toks = vec![
        Tok::Sym(Sym::Minus),
        Tok::Sym(Sym::GT),
        Tok::Sym(Sym::Assign),
        Tok::Sym(Sym::GT),
        Tok::Sym(Sym::Assign),
        Tok::Sym(Sym::LT),
        Tok::Sym(Sym::Assign),
        Tok::Sym(Sym::Assign),
    ];
    assert_eq!(toks, lex(str).unwrap());
}

#[test]
fn lex_nums() {
    let str = "0";
    let toks = vec![Tok::Num(Sign::Positive, "0".into(), None)];
    assert_eq!(toks, lex(str).unwrap());

    let str = "1234567890";
    let toks = vec![Tok::Num(Sign::Positive, "1234567890".into(), None)];
    assert_eq!(toks, lex(str).unwrap());

    let str = "0.1";
    let toks = vec![Tok::Num(Sign::Positive, "0".into(), Some("1".into()))];
    assert_eq!(toks, lex(str).unwrap());

    let str = "99999999999999999999.00000000000000000000";
    let toks = vec![Tok::Num(
        Sign::Positive,
        "99999999999999999999".into(),
        Some("00000000000000000000".into()),
    )];
    assert_eq!(toks, lex(str).unwrap());

    let str = "1.1.1";
    let toks = vec![
        Tok::Num(Sign::Positive, "1".into(), Some("1".into())),
        Tok::Sym(Sym::Dot),
        Tok::Num(Sign::Positive, "1".into(), None),
    ];
    assert_eq!(toks, lex(str).unwrap());

    let str = ".1";
    let toks = vec![Tok::Sym(Sym::Dot), Tok::Num(Sign::Positive, "1".into(), None)];
    assert_eq!(toks, lex(str).unwrap());

    let str = "1 .1";
    let toks = vec![
        Tok::Num(Sign::Positive, "1".into(), None),
        Tok::Sym(Sym::Dot),
        Tok::Num(Sign::Positive, "1".into(), None),
    ];
    assert_eq!(toks, lex(str).unwrap());

    let str = "-1";
    let toks = vec![Tok::Num(Sign::Negative, "1".into(), None)];
    assert_eq!(toks, lex(str).unwrap());

    let str = "-2.2";
    let toks = vec![Tok::Num(Sign::Negative, "2".into(), Some("2".into()))];
    assert_eq!(toks, lex(str).unwrap());

    let str = "-0.1";
    let toks = vec![Tok::Num(Sign::Negative, "0".into(), Some("1".into()))];
    assert_eq!(toks, lex(str).unwrap());

    let str = "0.-1";
    let toks = vec![
        Tok::Num(Sign::Positive, "0".into(), None),
        Tok::Sym(Sym::Dot),
        Tok::Num(Sign::Negative, "1".into(), None),
    ];
    assert_eq!(toks, lex(str).unwrap());
}

#[test]
fn lex_idents_kws() {
    let str = "a";
    let toks = vec![Tok::Ident("a".into())];
    assert_eq!(toks, lex(str).unwrap());

    let str = "A";
    let toks = vec![Tok::Ident("A".into())];
    assert_eq!(toks, lex(str).unwrap());

    let str = "z1";
    let toks = vec![Tok::Ident("z1".into())];
    assert_eq!(toks, lex(str).unwrap());

    let str = "_";
    let toks = vec![Tok::Ident("_".into())];
    assert_eq!(toks, lex(str).unwrap());

    let str = "the_quick_brown_fox_jumps_over_the_1234567890_lazy_dogs";
    let toks = vec![Tok::Ident(
        "the_quick_brown_fox_jumps_over_the_1234567890_lazy_dogs".into(),
    )];
    assert_eq!(toks, lex(str).unwrap());

    let str = "a b";
    let toks = vec![Tok::Ident("a".into()), Tok::Ident("b".into())];
    assert_eq!(toks, lex(str).unwrap());

    let str = "if";
    let toks = vec![Tok::Kw(Kw::If)];
    assert_eq!(toks, lex(str).unwrap());

    let str = "_if";
    let toks = vec![Tok::Ident("_if".into())];
    assert_eq!(toks, lex(str).unwrap());

    let str = "if9";
    let toks = vec![Tok::Ident("if9".into())];
    assert_eq!(toks, lex(str).unwrap());

    let str = "if than else";
    let toks = vec![Tok::Kw(Kw::If), Tok::Ident("than".into()), Tok::Kw(Kw::Else)];
    assert_eq!(toks, lex(str).unwrap());
}

#[test]
fn lex_idents_whitespace() {
    let str = "  \t\n  \r    ";
    let toks: Vec<Tok> = vec![];
    assert_eq!(toks, lex(str).unwrap());

    let str = "s\tv";
    let toks = vec![Tok::Ident("s".into()), Tok::Ident("v".into())];
    assert_eq!(toks, lex(str).unwrap());

    let str = "s\n\r\nq";
    let toks = vec![Tok::Ident("s".into()), Tok::Ident("q".into())];
    assert_eq!(toks, lex(str).unwrap());
}

#[test]
fn lex_comments() {
    let str = "foo//bar\nbaz";
    let toks = vec![Tok::Ident("foo".into()), Tok::Ident("baz".into())];
    assert_eq!(toks, lex(str).unwrap());

    let str = "foo//bar";
    let toks = vec![Tok::Ident("foo".into())];
    assert_eq!(toks, lex(str).unwrap());

    let str = "//foo\n///bar\n//\n/\n/baz";
    let toks = vec![
        Tok::Sym(Sym::Slash),
        Tok::Sym(Sym::Slash),
        Tok::Ident("baz".into()),
    ];
    assert_eq!(toks, lex(str).unwrap());

    let str = "foo/*bar*/baz";
    let toks = vec![Tok::Ident("foo".into()), Tok::Ident("baz".into())];
    assert_eq!(toks, lex(str).unwrap());

    let str = "foo/*/ */bar\nbaz";
    let toks = vec![
        Tok::Ident("foo".into()),
        Tok::Ident("bar".into()),
        Tok::Ident("baz".into()),
    ];
    assert_eq!(toks, lex(str).unwrap());

    let str = "foo /* /* */ */ bar";
    let toks = vec![Tok::Ident("foo".into()), Tok::Ident("bar".into())];
    assert_eq!(toks, lex(str).unwrap());

    let str = "/**/";
    let toks: Vec<Tok> = vec![];
    assert_eq!(toks, lex(str).unwrap());

    let str = "/***/";
    let toks: Vec<Tok> = vec![];
    assert_eq!(toks, lex(str).unwrap());

    let str = "/*********/";
    let toks: Vec<Tok> = vec![];
    assert_eq!(toks, lex(str).unwrap());

    let str = "/*/ bar */";
    let toks: Vec<Tok> = vec![];
    assert_eq!(toks, lex(str).unwrap());

    let str = "/* */ */";
    let toks = vec![Tok::Sym(Sym::Star), Tok::Sym(Sym::Slash)];
    assert_eq!(toks, lex(str).unwrap());

    let str = "///*\n*/";
    let toks = vec![Tok::Sym(Sym::Star), Tok::Sym(Sym::Slash)];
    assert_eq!(toks, lex(str).unwrap());

    let str = "foo/*/*/*/*/**/*/*/*/*/";
    let toks = vec![Tok::Ident("foo".into())];
    assert_eq!(toks, lex(str).unwrap());

    let str = "/* /* */ /* */ */";
    let toks: Vec<Tok> = vec![];
    assert_eq!(toks, lex(str).unwrap());

    let str = "/* // */\n*/";
    let toks = vec![Tok::Sym(Sym::Star), Tok::Sym(Sym::Slash)];
    assert_eq!(toks, lex(str).unwrap());
}

#[test]
fn lex_string_literals() {
    let str = "\"\"";
    let toks = vec![Tok::String("".into())];
    assert_eq!(toks, lex(str).unwrap());

    let str = "\"abcd\"";
    let toks = vec![Tok::String("abcd".into())];
    assert_eq!(toks, lex(str).unwrap());

    let str = "\"\"\"\"";
    let toks = vec![Tok::String("".into()), Tok::String("".into())];
    assert_eq!(toks, lex(str).unwrap());

    let str = "\"\\\"\"";
    let toks = vec![Tok::String("\"".into())];
    assert_eq!(toks, lex(str).unwrap());

    let str = "\"\\\\\"";
    let toks = vec![Tok::String("\\".into())];
    assert_eq!(toks, lex(str).unwrap());

    let str = "\"a\\nb\\rc\\td\"";
    let toks = vec![Tok::String("a\nb\rc\td".into())];
    assert_eq!(toks, lex(str).unwrap());

    let str = "\"a b c \"";
    let toks = vec![Tok::String("a b c ".into())];
    assert_eq!(toks, lex(str).unwrap());

    let str = "a\"\"b";
    let toks = vec![
        Tok::Ident("a".into()),
        Tok::String("".into()),
        Tok::Ident("b".into()),
    ];
    assert_eq!(toks, lex(str).unwrap());
}

#[test]
fn lex_errors() {
    let str = "!";
    assert!(lex(str).is_err());

    let str = "\0";
    assert!(lex(str).is_err());

    let str = "\x12";
    assert!(lex(str).is_err());

    let str = "é";
    assert!(lex(str).is_err());

    let str = "=!";
    assert!(lex(str).is_err());

    let str = "\u{1034a}";
    assert!(lex(str).is_err());

    let str = "\u{ffef}hi";
    assert!(lex(str).is_err());
}
