use rado::token::{Kw, Sym};

#[test]
fn kws_parse() {
    assert_eq!(Kw::Progressive, "progressive".parse().unwrap());
    assert_eq!(Kw::Enum, "enum".parse().unwrap());
    assert_eq!(Kw::To, "to".parse().unwrap());
    assert_eq!(Kw::Modify, "modify".parse().unwrap());
}

#[test]
fn bad_kws_fail_parse() {
    assert!("foobar".parse::<Kw>().is_err());
    assert!("Requires".parse::<Kw>().is_err());
    assert!("".parse::<Kw>().is_err());
    assert!("samus".parse::<Kw>().is_err());
}

#[test]
fn kws_display() {
    assert_eq!("alias", Kw::Alias.canonical());
    assert_eq!("link", Kw::Link.canonical());
    assert_eq!("items", Kw::Items.canonical());
    assert_eq!("in", Kw::In.canonical());
}

#[test]
fn syms_parse() {
    assert_eq!(Sym::Plus, "+".parse().unwrap());
    assert_eq!(Sym::Dot, ".".parse().unwrap());
    assert_eq!(Sym::RBrace, "}".parse().unwrap());
    assert_eq!(Sym::DoubleArrow, "=>".parse().unwrap());
}

#[test]
fn bad_syms_fail_parse() {
    assert!("\"".parse::<Sym>().is_err());
    assert!("".parse::<Sym>().is_err());
    assert!("++".parse::<Sym>().is_err());
}

#[test]
fn toks_display() {
    assert_eq!("<=", Sym::LE.canonical());
    assert_eq!(")", Sym::RParen.canonical());
    assert_eq!("*", Sym::Star.canonical());
}
