use rado::token::{lex, Kw, LexError, Sign, Sym, Tok};

#[test]
fn nested_comments_all_depths() {
    // A balanced block comment of any depth separates the surrounding
    // tokens and contributes nothing itself.
    let expected = vec![Tok::Ident("pre".into()), Tok::Ident("post".into())];
    assert_eq!(expected, lex("pre  post").unwrap());
    assert_eq!(expected, lex("pre /**/ post").unwrap());
    assert_eq!(expected, lex("pre /*/**/*/ post").unwrap());
    assert_eq!(expected, lex("pre /*/*/**/*/*/ post").unwrap());
    assert_eq!(expected, lex("pre /*/*/*/**/*/*/*/ post").unwrap());
}

#[test]
fn unmatched_close_is_two_symbols() {
    // An unmatched `*/` with nothing open is the ordinary two symbol
    // tokens.
    let toks = vec![
        Tok::Ident("pre".into()),
        Tok::Sym(Sym::Star),
        Tok::Sym(Sym::Slash),
        Tok::Ident("post".into()),
    ];
    assert_eq!(toks, lex("pre */ post").unwrap());
}

#[test]
fn unterminated_comment_errors() {
    assert_eq!(Err(LexError::UnterminatedComment), lex("foo /* bar"));
    assert_eq!(Err(LexError::UnterminatedComment), lex("/* /* */"));
}

#[test]
fn numeric_literal_shapes() {
    assert_eq!(
        vec![Tok::Num(Sign::Positive, "0".into(), None)],
        lex("0").unwrap()
    );
    assert_eq!(
        vec![Tok::Num(Sign::Positive, "0".into(), Some("5".into()))],
        lex("0.5").unwrap()
    );
    assert_eq!(
        vec![Tok::Num(Sign::Negative, "1".into(), Some("25".into()))],
        lex("-1.25").unwrap()
    );
}

#[test]
fn negative_zero_is_rejected() {
    assert_eq!(Err(LexError::NegativeZero), lex("-0"));
    assert_eq!(Err(LexError::NegativeZero), lex("-0.0"));
    assert_eq!(Err(LexError::NegativeZero), lex("-00.000"));
    // A nonzero digit anywhere saves the literal.
    assert!(lex("-0.1").is_ok());
}

#[test]
fn alphabetic_suffix_is_rejected() {
    // A literal immediately followed by an alphabetic character is an
    // error, not a two-token split.
    assert_eq!(Err(LexError::AlphaAfterNumber), lex("1f"));
    assert_eq!(Err(LexError::AlphaAfterNumber), lex("1.5e"));
    // An underscore is not alphabetic, so it starts a fresh identifier.
    assert_eq!(
        vec![
            Tok::Num(Sign::Positive, "1".into(), None),
            Tok::Ident("_".into()),
        ],
        lex("1_").unwrap()
    );
}

#[test]
fn string_escapes_decode() {
    assert_eq!(vec![Tok::String("\n".into())], lex("\"\\n\"").unwrap());
    assert_eq!(vec![Tok::String("\t".into())], lex("\"\\t\"").unwrap());
    assert_eq!(vec![Tok::String("\r".into())], lex("\"\\r\"").unwrap());
    assert_eq!(vec![Tok::String("\\".into())], lex("\"\\\\\"").unwrap());
    assert_eq!(vec![Tok::String("\"".into())], lex("\"\\\"\"").unwrap());
}

#[test]
fn bad_escape_and_unterminated_string_error() {
    assert_eq!(Err(LexError::UnknownEscape('q')), lex("\"\\q\""));
    assert_eq!(Err(LexError::UnterminatedString), lex("\"abc"));
    assert_eq!(Err(LexError::UnterminatedString), lex("\"abc\\"));
}

#[test]
fn lone_bang_and_unknown_char_errors() {
    assert_eq!(Err(LexError::LoneBang), lex("!"));
    assert_eq!(Err(LexError::UnrecognizedChar('#')), lex("#"));
    assert_eq!(
        "expected = after ! to make != token",
        LexError::LoneBang.message()
    );
    assert_eq!(
        "unterminated block comment",
        LexError::UnterminatedComment.message()
    );
    assert_eq!(
        "negative zero numeric literal",
        LexError::NegativeZero.message()
    );
}

#[test]
fn keyword_spellings_relex_to_themselves() {
    for k in [Kw::Region, Kw::Override, Kw::Infinity, Kw::Configset, Kw::Default] {
        assert_eq!(vec![Tok::Kw(k)], lex(k.canonical()).unwrap());
    }
}

#[test]
fn symbol_spellings_relex_to_themselves() {
    for y in [
        Sym::LParen,
        Sym::Arrow,
        Sym::DoubleArrow,
        Sym::Eq,
        Sym::NEq,
        Sym::LE,
        Sym::GE,
        Sym::GT,
        Sym::LT,
        Sym::Slash,
        Sym::Star,
        Sym::Minus,
    ] {
        assert_eq!(vec![Tok::Sym(y)], lex(y.canonical()).unwrap());
    }
}

#[test]
fn tokens_render_canonically() {
    assert_eq!("region", Tok::Kw(Kw::Region).canonical());
    assert_eq!("=>", Tok::Sym(Sym::DoubleArrow).canonical());
    assert_eq!("samus", Tok::Ident("samus".into()).canonical());
    assert_eq!(
        "-1.25",
        Tok::Num(Sign::Negative, "1".into(), Some("25".into())).canonical()
    );
    assert_eq!("42", Tok::Num(Sign::Positive, "42".into(), None).canonical());
    assert_eq!(
        "\"a\\nb\\\"c\"",
        Tok::String("a\nb\"c".into()).canonical()
    );
    assert_eq!("", Sign::Positive.canonical());
    assert_eq!("-", Sign::Negative.canonical());
}

#[test]
fn comparison_symbols_parse_to_themselves() {
    // The spelling table matches the lexer: `>` is the greater-than token
    // and `>=` the greater-or-equal one, in both directions.
    assert_eq!(Sym::GT, ">".parse().unwrap());
    assert_eq!(Sym::GE, ">=".parse().unwrap());
    assert_eq!(">", Sym::GT.canonical());
    assert_eq!(">=", Sym::GE.canonical());
}

#[test]
fn into_owned_keeps_the_token() {
    let t = Tok::Ident("alpha".into());
    assert_eq!(t.clone(), t.into_owned());
}
