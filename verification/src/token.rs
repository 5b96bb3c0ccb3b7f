//! Tokens of the Rado language and the lexer that produces them.
//!
//! The lexer is specified by `spec_lex`, a mathematical function from a
//! sequence of characters to either a token sequence or a lexical error;
//! `lex` is proved to return exactly that value.

use vstd::prelude::*;

verus! {

use vstd::std_specs::iter::IteratorSpec;

/// Rado keywords.
#[derive(Copy, Clone, PartialEq, Eq, Structural, PartialOrd, Ord, Hash, Debug)]
pub enum Kw {
    // Declarations
    Region,
    Link,
    Item,
    Items,
    Location,
    Locations,
    Fn,
    Enum,
    Config,
    Configs,
    Configset,
    Random,
    If,
    Else,
    Modify,
    Override,
    // Properties
    Requires,
    Visible,
    Unlock,
    Tag,
    Alias,
    Provides,
    Progressive,
    Val,
    Max,
    Consumable,
    Avail,
    Infinity,
    Grants,
    Count,
    Start,
    // Expressions & types not covered above
    Num,
    Bool,
    Then,
    Match,
    True,
    False,
    Not,
    And,
    Or,
    Min,
    Sum,
    // Miscellaneous
    With,
    To,
    From,
    In,
    Default,
}

/// The canonical spelling of each keyword, as a character sequence.
pub open spec fn kw_spelling(k: Kw) -> Seq<char> {
    match k {
        Kw::Region => "region"@,
        Kw::Link => "link"@,
        Kw::Item => "item"@,
        Kw::Items => "items"@,
        Kw::Location => "location"@,
        Kw::Locations => "locations"@,
        Kw::Fn => "fn"@,
        Kw::Enum => "enum"@,
        Kw::Config => "config"@,
        Kw::Configs => "configs"@,
        Kw::Configset => "configset"@,
        Kw::Random => "random"@,
        Kw::If => "if"@,
        Kw::Else => "else"@,
        Kw::Modify => "modify"@,
        Kw::Override => "override"@,
        Kw::Requires => "requires"@,
        Kw::Visible => "visible"@,
        Kw::Unlock => "unlock"@,
        Kw::Tag => "tag"@,
        Kw::Alias => "alias"@,
        Kw::Provides => "provides"@,
        Kw::Progressive => "progressive"@,
        Kw::Val => "val"@,
        Kw::Max => "max"@,
        Kw::Consumable => "consumable"@,
        Kw::Avail => "avail"@,
        Kw::Infinity => "infinity"@,
        Kw::Grants => "grants"@,
        Kw::Count => "count"@,
        Kw::Start => "start"@,
        Kw::Num => "num"@,
        Kw::Bool => "bool"@,
        Kw::Then => "then"@,
        Kw::Match => "match"@,
        Kw::True => "true"@,
        Kw::False => "false"@,
        Kw::Not => "not"@,
        Kw::And => "and"@,
        Kw::Or => "or"@,
        Kw::Min => "min"@,
        Kw::Sum => "sum"@,
        Kw::With => "with"@,
        Kw::To => "to"@,
        Kw::From => "from"@,
        Kw::In => "in"@,
        Kw::Default => "default"@,
    }
}

impl Kw {
    /// The canonical source spelling of this keyword.
    pub fn canonical(self) -> (r: &'static str)
        ensures
            r@ == kw_spelling(self),
    {
        match self {
            Kw::Region => "region",
            Kw::Link => "link",
            Kw::Item => "item",
            Kw::Items => "items",
            Kw::Location => "location",
            Kw::Locations => "locations",
            Kw::Fn => "fn",
            Kw::Enum => "enum",
            Kw::Config => "config",
            Kw::Configs => "configs",
            Kw::Configset => "configset",
            Kw::Random => "random",
            Kw::If => "if",
            Kw::Else => "else",
            Kw::Modify => "modify",
            Kw::Override => "override",
            Kw::Requires => "requires",
            Kw::Visible => "visible",
            Kw::Unlock => "unlock",
            Kw::Tag => "tag",
            Kw::Alias => "alias",
            Kw::Provides => "provides",
            Kw::Progressive => "progressive",
            Kw::Val => "val",
            Kw::Max => "max",
            Kw::Consumable => "consumable",
            Kw::Avail => "avail",
            Kw::Infinity => "infinity",
            Kw::Grants => "grants",
            Kw::Count => "count",
            Kw::Start => "start",
            Kw::Num => "num",
            Kw::Bool => "bool",
            Kw::Then => "then",
            Kw::Match => "match",
            Kw::True => "true",
            Kw::False => "false",
            Kw::Not => "not",
            Kw::And => "and",
            Kw::Or => "or",
            Kw::Min => "min",
            Kw::Sum => "sum",
            Kw::With => "with",
            Kw::To => "to",
            Kw::From => "from",
            Kw::In => "in",
            Kw::Default => "default",
        }
    }
}

/// Rado symbol tokens. Each operator is a distinct token, so some tokens are
/// multiple characters long.
#[derive(Copy, Clone, PartialEq, Eq, Structural, PartialOrd, Ord, Hash, Debug)]
pub enum Sym {
    // Delimiters
    LParen,
    RParen,
    LBrack,
    RBrack,
    LBrace,
    RBrace,
    // Punctuation
    Semi,
    Comma,
    Colon,
    Dot,
    Assign,
    Arrow,
    DoubleArrow,
    // Operators
    Plus,
    Minus,
    Star,
    Slash,
    Percent,
    Eq,
    NEq,
    LT,
    LE,
    GT,
    GE,
}

/// The canonical spelling of each symbol, as a character sequence.
pub open spec fn sym_spelling(s: Sym) -> Seq<char> {
    match s {
        Sym::LParen => "("@,
        Sym::RParen => ")"@,
        Sym::LBrack => "["@,
        Sym::RBrack => "]"@,
        Sym::LBrace => "{"@,
        Sym::RBrace => "}"@,
        Sym::Semi => ";"@,
        Sym::Comma => ","@,
        Sym::Colon => ":"@,
        Sym::Dot => "."@,
        Sym::Assign => "="@,
        Sym::Arrow => "->"@,
        Sym::DoubleArrow => "=>"@,
        Sym::Plus => "+"@,
        Sym::Minus => "-"@,
        Sym::Star => "*"@,
        Sym::Slash => "/"@,
        Sym::Percent => "%"@,
        Sym::Eq => "=="@,
        Sym::NEq => "!="@,
        Sym::LT => "<"@,
        Sym::LE => "<="@,
        Sym::GT => ">"@,
        Sym::GE => ">="@,
    }
}

impl Sym {
    /// The canonical source spelling of this symbol.
    pub fn canonical(self) -> (r: &'static str)
        ensures
            r@ == sym_spelling(self),
    {
        match self {
            Sym::LParen => "(",
            Sym::RParen => ")",
            Sym::LBrack => "[",
            Sym::RBrack => "]",
            Sym::LBrace => "{",
            Sym::RBrace => "}",
            Sym::Semi => ";",
            Sym::Comma => ",",
            Sym::Colon => ":",
            Sym::Dot => ".",
            Sym::Assign => "=",
            Sym::Arrow => "->",
            Sym::DoubleArrow => "=>",
            Sym::Plus => "+",
            Sym::Minus => "-",
            Sym::Star => "*",
            Sym::Slash => "/",
            Sym::Percent => "%",
            Sym::Eq => "==",
            Sym::NEq => "!=",
            Sym::LT => "<",
            Sym::LE => "<=",
            Sym::GT => ">",
            Sym::GE => ">=",
        }
    }
}

/// The sign of a numeric literal. Zero is considered positive, since the minus
/// sign is not used for zero literals; negative zero is an error.
#[derive(Copy, Clone, PartialEq, Eq, Structural, PartialOrd, Ord, Hash, Debug)]
pub enum Sign {
    Positive,
    Negative,
}

/// The rendering of a sign before a number: nothing if it is positive, and a
/// minus sign for negative.
pub open spec fn sign_spelling(s: Sign) -> Seq<char> {
    match s {
        Sign::Positive => ""@,
        Sign::Negative => "-"@,
    }
}

impl Sign {
    /// The sign as it renders before a number.
    pub fn canonical(self) -> (r: &'static str)
        ensures
            r@ == sign_spelling(self),
    {
        match self {
            Sign::Positive => "",
            Sign::Negative => "-",
        }
    }
}

/// Decide whether a character sequence equals the view of a string slice.
fn chars_eq_str(w: &Vec<char>, s: &str) -> (r: bool)
    ensures
        r == (w@ == s@),
{
    let n = s.unicode_len();
    if w.len() != n {
        proof {
            assert(w@ =~= s@ ==> w@.len() == s@.len());
        }
        return false;
    }
    let mut i: usize = 0;
    while i < n
        invariant
            i <= n,
            n == w@.len(),
            n == s@.len(),
            forall|k: int| 0 <= k < i ==> w@[k] == s@[k],
        decreases n - i,
    {
        if w[i] != s.get_char(i) {
            proof {
                assert(w@[i as int] != s@[i as int]);
            }
            return false;
        }
        i = i + 1;
    }
    proof {
        assert(w@ =~= s@);
    }
    true
}

/// The keyword spelled by a word, if any.
pub open spec fn spec_kw_of(w: Seq<char>) -> Option<Kw> {
    if w == kw_spelling(Kw::Region) {
        Some(Kw::Region)
    } else if w == kw_spelling(Kw::Link) {
        Some(Kw::Link)
    } else if w == kw_spelling(Kw::Item) {
        Some(Kw::Item)
    } else if w == kw_spelling(Kw::Items) {
        Some(Kw::Items)
    } else if w == kw_spelling(Kw::Location) {
        Some(Kw::Location)
    } else if w == kw_spelling(Kw::Locations) {
        Some(Kw::Locations)
    } else if w == kw_spelling(Kw::Fn) {
        Some(Kw::Fn)
    } else if w == kw_spelling(Kw::Enum) {
        Some(Kw::Enum)
    } else if w == kw_spelling(Kw::Config) {
        Some(Kw::Config)
    } else if w == kw_spelling(Kw::Configs) {
        Some(Kw::Configs)
    } else if w == kw_spelling(Kw::Configset) {
        Some(Kw::Configset)
    } else if w == kw_spelling(Kw::Random) {
        Some(Kw::Random)
    } else if w == kw_spelling(Kw::If) {
        Some(Kw::If)
    } else if w == kw_spelling(Kw::Else) {
        Some(Kw::Else)
    } else if w == kw_spelling(Kw::Modify) {
        Some(Kw::Modify)
    } else if w == kw_spelling(Kw::Override) {
        Some(Kw::Override)
    } else if w == kw_spelling(Kw::Requires) {
        Some(Kw::Requires)
    } else if w == kw_spelling(Kw::Visible) {
        Some(Kw::Visible)
    } else if w == kw_spelling(Kw::Unlock) {
        Some(Kw::Unlock)
    } else if w == kw_spelling(Kw::Tag) {
        Some(Kw::Tag)
    } else if w == kw_spelling(Kw::Alias) {
        Some(Kw::Alias)
    } else if w == kw_spelling(Kw::Provides) {
        Some(Kw::Provides)
    } else if w == kw_spelling(Kw::Progressive) {
        Some(Kw::Progressive)
    } else if w == kw_spelling(Kw::Val) {
        Some(Kw::Val)
    } else if w == kw_spelling(Kw::Max) {
        Some(Kw::Max)
    } else if w == kw_spelling(Kw::Consumable) {
        Some(Kw::Consumable)
    } else if w == kw_spelling(Kw::Avail) {
        Some(Kw::Avail)
    } else if w == kw_spelling(Kw::Infinity) {
        Some(Kw::Infinity)
    } else if w == kw_spelling(Kw::Grants) {
        Some(Kw::Grants)
    } else if w == kw_spelling(Kw::Count) {
        Some(Kw::Count)
    } else if w == kw_spelling(Kw::Start) {
        Some(Kw::Start)
    } else if w == kw_spelling(Kw::Num) {
        Some(Kw::Num)
    } else if w == kw_spelling(Kw::Bool) {
        Some(Kw::Bool)
    } else if w == kw_spelling(Kw::Then) {
        Some(Kw::Then)
    } else if w == kw_spelling(Kw::Match) {
        Some(Kw::Match)
    } else if w == kw_spelling(Kw::True) {
        Some(Kw::True)
    } else if w == kw_spelling(Kw::False) {
        Some(Kw::False)
    } else if w == kw_spelling(Kw::Not) {
        Some(Kw::Not)
    } else if w == kw_spelling(Kw::And) {
        Some(Kw::And)
    } else if w == kw_spelling(Kw::Or) {
        Some(Kw::Or)
    } else if w == kw_spelling(Kw::Min) {
        Some(Kw::Min)
    } else if w == kw_spelling(Kw::Sum) {
        Some(Kw::Sum)
    } else if w == kw_spelling(Kw::With) {
        Some(Kw::With)
    } else if w == kw_spelling(Kw::To) {
        Some(Kw::To)
    } else if w == kw_spelling(Kw::From) {
        Some(Kw::From)
    } else if w == kw_spelling(Kw::In) {
        Some(Kw::In)
    } else if w == kw_spelling(Kw::Default) {
        Some(Kw::Default)
    } else {
        None
    }
}

/// Classify a word against the reserved-word table.
fn kw_of_chars(w: &Vec<char>) -> (r: Option<Kw>)
    ensures
        r == spec_kw_of(w@),
{
    if chars_eq_str(w, "region") {
        Some(Kw::Region)
    } else if chars_eq_str(w, "link") {
        Some(Kw::Link)
    } else if chars_eq_str(w, "item") {
        Some(Kw::Item)
    } else if chars_eq_str(w, "items") {
        Some(Kw::Items)
    } else if chars_eq_str(w, "location") {
        Some(Kw::Location)
    } else if chars_eq_str(w, "locations") {
        Some(Kw::Locations)
    } else if chars_eq_str(w, "fn") {
        Some(Kw::Fn)
    } else if chars_eq_str(w, "enum") {
        Some(Kw::Enum)
    } else if chars_eq_str(w, "config") {
        Some(Kw::Config)
    } else if chars_eq_str(w, "configs") {
        Some(Kw::Configs)
    } else if chars_eq_str(w, "configset") {
        Some(Kw::Configset)
    } else if chars_eq_str(w, "random") {
        Some(Kw::Random)
    } else if chars_eq_str(w, "if") {
        Some(Kw::If)
    } else if chars_eq_str(w, "else") {
        Some(Kw::Else)
    } else if chars_eq_str(w, "modify") {
        Some(Kw::Modify)
    } else if chars_eq_str(w, "override") {
        Some(Kw::Override)
    } else if chars_eq_str(w, "requires") {
        Some(Kw::Requires)
    } else if chars_eq_str(w, "visible") {
        Some(Kw::Visible)
    } else if chars_eq_str(w, "unlock") {
        Some(Kw::Unlock)
    } else if chars_eq_str(w, "tag") {
        Some(Kw::Tag)
    } else if chars_eq_str(w, "alias") {
        Some(Kw::Alias)
    } else if chars_eq_str(w, "provides") {
        Some(Kw::Provides)
    } else if chars_eq_str(w, "progressive") {
        Some(Kw::Progressive)
    } else if chars_eq_str(w, "val") {
        Some(Kw::Val)
    } else if chars_eq_str(w, "max") {
        Some(Kw::Max)
    } else if chars_eq_str(w, "consumable") {
        Some(Kw::Consumable)
    } else if chars_eq_str(w, "avail") {
        Some(Kw::Avail)
    } else if chars_eq_str(w, "infinity") {
        Some(Kw::Infinity)
    } else if chars_eq_str(w, "grants") {
        Some(Kw::Grants)
    } else if chars_eq_str(w, "count") {
        Some(Kw::Count)
    } else if chars_eq_str(w, "start") {
        Some(Kw::Start)
    } else if chars_eq_str(w, "num") {
        Some(Kw::Num)
    } else if chars_eq_str(w, "bool") {
        Some(Kw::Bool)
    } else if chars_eq_str(w, "then") {
        Some(Kw::Then)
    } else if chars_eq_str(w, "match") {
        Some(Kw::Match)
    } else if chars_eq_str(w, "true") {
        Some(Kw::True)
    } else if chars_eq_str(w, "false") {
        Some(Kw::False)
    } else if chars_eq_str(w, "not") {
        Some(Kw::Not)
    } else if chars_eq_str(w, "and") {
        Some(Kw::And)
    } else if chars_eq_str(w, "or") {
        Some(Kw::Or)
    } else if chars_eq_str(w, "min") {
        Some(Kw::Min)
    } else if chars_eq_str(w, "sum") {
        Some(Kw::Sum)
    } else if chars_eq_str(w, "with") {
        Some(Kw::With)
    } else if chars_eq_str(w, "to") {
        Some(Kw::To)
    } else if chars_eq_str(w, "from") {
        Some(Kw::From)
    } else if chars_eq_str(w, "in") {
        Some(Kw::In)
    } else if chars_eq_str(w, "default") {
        Some(Kw::Default)
    } else {
        None
    }
}

/// The symbol spelled by a character sequence, if any.
pub open spec fn spec_sym_of(w: Seq<char>) -> Option<Sym> {
    if w == sym_spelling(Sym::LParen) {
        Some(Sym::LParen)
    } else if w == sym_spelling(Sym::RParen) {
        Some(Sym::RParen)
    } else if w == sym_spelling(Sym::LBrack) {
        Some(Sym::LBrack)
    } else if w == sym_spelling(Sym::RBrack) {
        Some(Sym::RBrack)
    } else if w == sym_spelling(Sym::LBrace) {
        Some(Sym::LBrace)
    } else if w == sym_spelling(Sym::RBrace) {
        Some(Sym::RBrace)
    } else if w == sym_spelling(Sym::Semi) {
        Some(Sym::Semi)
    } else if w == sym_spelling(Sym::Comma) {
        Some(Sym::Comma)
    } else if w == sym_spelling(Sym::Colon) {
        Some(Sym::Colon)
    } else if w == sym_spelling(Sym::Dot) {
        Some(Sym::Dot)
    } else if w == sym_spelling(Sym::Assign) {
        Some(Sym::Assign)
    } else if w == sym_spelling(Sym::Arrow) {
        Some(Sym::Arrow)
    } else if w == sym_spelling(Sym::DoubleArrow) {
        Some(Sym::DoubleArrow)
    } else if w == sym_spelling(Sym::Plus) {
        Some(Sym::Plus)
    } else if w == sym_spelling(Sym::Minus) {
        Some(Sym::Minus)
    } else if w == sym_spelling(Sym::Star) {
        Some(Sym::Star)
    } else if w == sym_spelling(Sym::Slash) {
        Some(Sym::Slash)
    } else if w == sym_spelling(Sym::Percent) {
        Some(Sym::Percent)
    } else if w == sym_spelling(Sym::Eq) {
        Some(Sym::Eq)
    } else if w == sym_spelling(Sym::NEq) {
        Some(Sym::NEq)
    } else if w == sym_spelling(Sym::LT) {
        Some(Sym::LT)
    } else if w == sym_spelling(Sym::LE) {
        Some(Sym::LE)
    } else if w == sym_spelling(Sym::GT) {
        Some(Sym::GT)
    } else if w == sym_spelling(Sym::GE) {
        Some(Sym::GE)
    } else {
        None
    }
}

/// Classify a character sequence against the symbol table.
fn sym_of_chars(w: &Vec<char>) -> (r: Option<Sym>)
    ensures
        r == spec_sym_of(w@),
{
    if chars_eq_str(w, "(") {
        Some(Sym::LParen)
    } else if chars_eq_str(w, ")") {
        Some(Sym::RParen)
    } else if chars_eq_str(w, "[") {
        Some(Sym::LBrack)
    } else if chars_eq_str(w, "]") {
        Some(Sym::RBrack)
    } else if chars_eq_str(w, "{") {
        Some(Sym::LBrace)
    } else if chars_eq_str(w, "}") {
        Some(Sym::RBrace)
    } else if chars_eq_str(w, ";") {
        Some(Sym::Semi)
    } else if chars_eq_str(w, ",") {
        Some(Sym::Comma)
    } else if chars_eq_str(w, ":") {
        Some(Sym::Colon)
    } else if chars_eq_str(w, ".") {
        Some(Sym::Dot)
    } else if chars_eq_str(w, "=") {
        Some(Sym::Assign)
    } else if chars_eq_str(w, "->") {
        Some(Sym::Arrow)
    } else if chars_eq_str(w, "=>") {
        Some(Sym::DoubleArrow)
    } else if chars_eq_str(w, "+") {
        Some(Sym::Plus)
    } else if chars_eq_str(w, "-") {
        Some(Sym::Minus)
    } else if chars_eq_str(w, "*") {
        Some(Sym::Star)
    } else if chars_eq_str(w, "/") {
        Some(Sym::Slash)
    } else if chars_eq_str(w, "%") {
        Some(Sym::Percent)
    } else if chars_eq_str(w, "==") {
        Some(Sym::Eq)
    } else if chars_eq_str(w, "!=") {
        Some(Sym::NEq)
    } else if chars_eq_str(w, "<") {
        Some(Sym::LT)
    } else if chars_eq_str(w, "<=") {
        Some(Sym::LE)
    } else if chars_eq_str(w, ">") {
        Some(Sym::GT)
    } else if chars_eq_str(w, ">=") {
        Some(Sym::GE)
    } else {
        None
    }
}

/// Collect the characters of a string slice into a vector.
pub fn str_to_chars(s: &str) -> (r: Vec<char>)
    ensures
        r@ == s@,
{
    broadcast use vstd::string::group_string_axioms;

    let mut it = s.chars();
    let mut v: Vec<char> = Vec::new();
    loop
        invariant
            it.obeys_prophetic_iter_laws(),
            v@ + it.remaining() == s@,
        ensures
            v@ == s@,
        decreases s@.len() - v@.len(),
    {
        let ghost prev_v = v@;
        let ghost prev_rem = it.remaining();
        match it.next() {
            Some(c) => {
                v.push(c);
                proof {
                    assert(v@ + it.remaining() =~= prev_v + prev_rem);
                }
            },
            None => {
                proof {
                    assert(v@ + it.remaining() =~= v@);
                }
                break;
            },
        }
    }
    v
}

/// A decimal digit.
pub open spec fn is_digit_char(c: char) -> bool {
    48 <= c as u32 && c as u32 <= 57
}

/// An ASCII letter.
pub open spec fn is_alpha_char(c: char) -> bool {
    (97 <= c as u32 && c as u32 <= 122) || (65 <= c as u32 && c as u32 <= 90)
}

/// A character that may continue an identifier or keyword.
pub open spec fn is_word_char(c: char) -> bool {
    c == '_' || is_alpha_char(c) || is_digit_char(c)
}

/// ASCII whitespace: space, tab, newline, carriage return or form feed.
pub open spec fn is_space_char(c: char) -> bool {
    c == ' ' || c == '\t' || c == '\n' || c == '\r' || c == '\u{c}'
}

fn is_digit(c: char) -> (r: bool)
    ensures
        r == is_digit_char(c),
{
    let u = c as u32;
    48 <= u && u <= 57
}

fn is_alpha(c: char) -> (r: bool)
    ensures
        r == is_alpha_char(c),
{
    let u = c as u32;
    (97 <= u && u <= 122) || (65 <= u && u <= 90)
}

fn is_word(c: char) -> (r: bool)
    ensures
        r == is_word_char(c),
{
    c == '_' || is_alpha(c) || is_digit(c)
}

fn is_space(c: char) -> (r: bool)
    ensures
        r == is_space_char(c),
{
    c == ' ' || c == '\t' || c == '\n' || c == '\r' || c == '\u{c}'
}

/// A lexical error. Any of these fails the entire lex operation; no partial
/// token list is produced.
#[derive(Copy, Clone, PartialEq, Eq, Structural, Debug)]
pub enum LexError {
    /// End of input was reached inside a block comment.
    UnterminatedComment,
    /// End of input was reached inside a string literal.
    UnterminatedString,
    /// A backslash escape other than `\" \\ \n \r \t`.
    UnknownEscape(char),
    /// A character that starts no token.
    UnrecognizedChar(char),
    /// A minus sign on a literal whose digits are all zero.
    NegativeZero,
    /// A `!` not followed by `=`; there is no standalone `!` token.
    LoneBang,
    /// A numeric literal immediately followed by an alphabetic character.
    AlphaAfterNumber,
}

impl LexError {
    /// A short description of the error.
    pub fn message(self) -> &'static str {
        match self {
            LexError::UnterminatedComment => "unterminated block comment",
            LexError::UnterminatedString => "unterminated string literal",
            LexError::UnknownEscape(_) => "unrecognized escape sequence",
            LexError::UnrecognizedChar(_) => "unrecognized character",
            LexError::NegativeZero => "negative zero numeric literal",
            LexError::LoneBang => "expected = after ! to make != token",
            LexError::AlphaAfterNumber => "alphabetic character in numeric literal",
        }
    }
}

/// A Rado token. Numbers are unparsed: the digit strings are kept exactly.
#[derive(Clone, PartialEq, Eq, PartialOrd, Ord, Hash, Debug)]
pub enum Tok {
    /// A keyword.
    Kw(Kw),
    /// A symbol or operator.
    Sym(Sym),
    /// An identifier other than a keyword.
    Ident(String),
    /// A numeric literal: its sign, the whole-number digits before the `.`,
    /// and the decimal digits after it, if any.
    Num(Sign, String, Option<String>),
    /// A string literal, with escapes already processed.
    String(String),
}

/// The mathematical value of a token: its text fields as character sequences.
pub enum TokView {
    Kw(Kw),
    Sym(Sym),
    Ident(Seq<char>),
    Num(Sign, Seq<char>, Option<Seq<char>>),
    String(Seq<char>),
}

impl View for Tok {
    type V = TokView;

    open spec fn view(&self) -> TokView {
        match self {
            Tok::Kw(k) => TokView::Kw(*k),
            Tok::Sym(s) => TokView::Sym(*s),
            Tok::Ident(t) => TokView::Ident(t@),
            Tok::Num(sg, w, f) => TokView::Num(
                *sg,
                w@,
                match f {
                    Option::None => Option::None,
                    Option::Some(d) => Option::Some(d@),
                },
            ),
            Tok::String(t) => TokView::String(t@),
        }
    }
}

impl Tok {
    /// Convert this token into one that owns all of its text. Tokens already
    /// own their text, so this returns the token unchanged; it is kept so
    /// that token consumers can request an owned token in one place.
    pub fn into_owned(self) -> (r: Tok)
        ensures
            r == self,
    {
        self
    }
}

/// The views of a vector of tokens.
pub open spec fn toks_view(ts: Seq<Tok>) -> Seq<TokView> {
    ts.map_values(|t: Tok| t@)
}

/// How a character renders inside a quoted string literal: the five escaped
/// characters as their two-character escapes, anything else as itself.
pub open spec fn escape_char(c: char) -> Seq<char> {
    if c == '"' {
        seq!['\\', '"']
    } else if c == '\\' {
        seq!['\\', '\\']
    } else if c == '\n' {
        seq!['\\', 'n']
    } else if c == '\r' {
        seq!['\\', 'r']
    } else if c == '\t' {
        seq!['\\', 't']
    } else {
        seq![c]
    }
}

/// A text with its escapable characters escaped.
pub open spec fn escape_text(s: Seq<char>) -> Seq<char>
    decreases s.len(),
{
    if s.len() == 0 {
        Seq::empty()
    } else {
        escape_char(s[0]) + escape_text(s.drop_first())
    }
}

proof fn lemma_escape_text_snoc(p: Seq<char>, c: char)
    ensures
        escape_text(p.push(c)) == escape_text(p) + escape_char(c),
    decreases p.len(),
{
    if p.len() == 0 {
        assert(p.push(c)[0] == c);
        assert(p.push(c).drop_first() =~= Seq::<char>::empty());
        assert(escape_text(Seq::<char>::empty()) == Seq::<char>::empty());
        assert(escape_char(c) + Seq::<char>::empty() =~= escape_char(c));
        assert(Seq::<char>::empty() + escape_char(c) =~= escape_char(c));
    } else {
        assert(p.push(c)[0] == p[0]);
        assert(p.push(c).drop_first() =~= p.drop_first().push(c));
        lemma_escape_text_snoc(p.drop_first(), c);
        assert(escape_char(p[0]) + (escape_text(p.drop_first()) + escape_char(c)) =~= (escape_char(
            p[0],
        ) + escape_text(p.drop_first())) + escape_char(c));
    }
}

/// The canonical rendering of a token: keywords and symbols by their
/// spelling, identifiers as their text, numbers as sign, whole part and
/// optional fraction, and strings quoted with their escapes restored.
pub open spec fn tok_spelling(t: TokView) -> Seq<char> {
    match t {
        TokView::Kw(k) => kw_spelling(k),
        TokView::Sym(y) => sym_spelling(y),
        TokView::Ident(w) => w,
        TokView::Num(sg, w, f) => sign_spelling(sg) + w + match f {
            Option::Some(d) => seq!['.'] + d,
            Option::None => Seq::empty(),
        },
        TokView::String(s) => seq!['"'] + escape_text(s) + seq!['"'],
    }
}

impl Tok {
    /// Render this token canonically.
    pub fn canonical(&self) -> (r: String)
        ensures
            r@ == tok_spelling(self@),
    {
        match self {
            Tok::Kw(k) => <String as vstd::string::StringExecFns>::from_str(k.canonical()),
            Tok::Sym(y) => <String as vstd::string::StringExecFns>::from_str(y.canonical()),
            Tok::Ident(w) => w.clone(),
            Tok::Num(sg, w, f) => {
                let mut acc = <String as vstd::string::StringExecFns>::from_str(sg.canonical());
                vstd::string::StringExecFns::append(&mut acc, w.as_str());
                match f {
                    Option::Some(d) => {
                        push_char(&mut acc, '.');
                        vstd::string::StringExecFns::append(&mut acc, d.as_str());
                        proof {
                            assert(acc@ =~= sign_spelling(*sg) + w@ + (seq!['.'] + d@));
                        }
                    },
                    Option::None => {
                        proof {
                            assert(acc@ =~= sign_spelling(*sg) + w@ + Seq::<char>::empty());
                        }
                    },
                }
                acc
            },
            Tok::String(s) => {
                let chars = str_to_chars(s.as_str());
                let mut acc = String::new();
                push_char(&mut acc, '"');
                proof {
                    assert(acc@ =~= seq!['"'] + escape_text(chars@.subrange(0, 0)));
                }
                let mut i: usize = 0;
                while i < chars.len()
                    invariant
                        i <= chars@.len(),
                        acc@ == seq!['"'] + escape_text(chars@.subrange(0, i as int)),
                    decreases chars@.len() - i,
                {
                    let ghost done = chars@.subrange(0, i as int);
                    let c = chars[i];
                    if c == '"' {
                        push_char(&mut acc, '\\');
                        push_char(&mut acc, '"');
                    } else if c == '\\' {
                        push_char(&mut acc, '\\');
                        push_char(&mut acc, '\\');
                    } else if c == '\n' {
                        push_char(&mut acc, '\\');
                        push_char(&mut acc, 'n');
                    } else if c == '\r' {
                        push_char(&mut acc, '\\');
                        push_char(&mut acc, 'r');
                    } else if c == '\t' {
                        push_char(&mut acc, '\\');
                        push_char(&mut acc, 't');
                    } else {
                        push_char(&mut acc, c);
                    }
                    proof {
                        lemma_escape_text_snoc(done, c);
                        assert(chars@.subrange(0, i + 1) =~= done.push(c));
                        assert(acc@ =~= seq!['"'] + (escape_text(done) + escape_char(c)));
                    }
                    i = i + 1;
                }
                push_char(&mut acc, '"');
                proof {
                    assert(chars@.subrange(0, chars@.len() as int) =~= chars@);
                    assert(acc@ =~= seq!['"'] + escape_text(s@) + seq!['"']);
                }
                acc
            },
        }
    }
}

/// The first index at or after `i` whose character does not continue a word,
/// or the end of the text.
pub open spec fn word_end(s: Seq<char>, i: int) -> int
    decreases s.len() - i when 0 <= i <= s.len()
{
    if i >= s.len() {
        i
    } else if is_word_char(s[i]) {
        word_end(s, i + 1)
    } else {
        i
    }
}

pub proof fn lemma_word_end(s: Seq<char>, i: int)
    requires
        0 <= i <= s.len(),
    ensures
        i <= word_end(s, i) <= s.len(),
        forall|k: int| i <= k < word_end(s, i) ==> is_word_char(s[k]),
        word_end(s, i) < s.len() ==> !is_word_char(s[word_end(s, i)]),
    decreases s.len() - i,
{
    if i < s.len() && is_word_char(s[i]) {
        lemma_word_end(s, i + 1);
    }
}

/// The first index at or after `i` whose character is not a digit, or the end
/// of the text.
pub open spec fn digit_end(s: Seq<char>, i: int) -> int
    decreases s.len() - i when 0 <= i <= s.len()
{
    if i >= s.len() {
        i
    } else if is_digit_char(s[i]) {
        digit_end(s, i + 1)
    } else {
        i
    }
}

pub proof fn lemma_digit_end(s: Seq<char>, i: int)
    requires
        0 <= i <= s.len(),
    ensures
        i <= digit_end(s, i) <= s.len(),
        forall|k: int| i <= k < digit_end(s, i) ==> is_digit_char(s[k]),
        digit_end(s, i) < s.len() ==> !is_digit_char(s[digit_end(s, i)]),
    decreases s.len() - i,
{
    if i < s.len() && is_digit_char(s[i]) {
        lemma_digit_end(s, i + 1);
    }
}

/// The index just past the newline that ends a line comment scanned from `i`,
/// or the end of the text if no newline follows.
pub open spec fn line_comment_end(s: Seq<char>, i: int) -> int
    decreases s.len() - i when 0 <= i <= s.len()
{
    if i >= s.len() {
        i
    } else if s[i] == '\n' {
        i + 1
    } else {
        line_comment_end(s, i + 1)
    }
}

pub proof fn lemma_line_comment_end(s: Seq<char>, i: int)
    requires
        0 <= i <= s.len(),
    ensures
        i <= line_comment_end(s, i) <= s.len(),
        i < s.len() ==> i + 1 <= line_comment_end(s, i),
    decreases s.len() - i,
{
    if i < s.len() && s[i] != '\n' {
        lemma_line_comment_end(s, i + 1);
    }
}

/// Scan from `i` with `depth` block comments open, matching `/*` and `*/`
/// pairs; the result is the index just past the marker that closes the
/// outermost comment, or nothing if the input ends first.
pub open spec fn block_comment_end(s: Seq<char>, i: int, depth: nat) -> Option<int>
    decreases s.len() - i when 0 <= i <= s.len()
{
    if depth == 0 {
        Some(i)
    } else if i + 1 < s.len() && s[i] == '/' && s[i + 1] == '*' {
        block_comment_end(s, i + 2, depth + 1)
    } else if i + 1 < s.len() && s[i] == '*' && s[i + 1] == '/' {
        block_comment_end(s, i + 2, (depth - 1) as nat)
    } else if i < s.len() {
        block_comment_end(s, i + 1, depth)
    } else {
        None
    }
}

pub proof fn lemma_block_comment_end(s: Seq<char>, i: int, depth: nat)
    requires
        0 <= i <= s.len(),
    ensures
        match block_comment_end(s, i, depth) {
            Some(j) => i <= j <= s.len() && (depth >= 1 ==> i + 2 <= j),
            None => true,
        },
    decreases s.len() - i,
{
    if depth == 0 {
    } else if i + 1 < s.len() && s[i] == '/' && s[i + 1] == '*' {
        lemma_block_comment_end(s, i + 2, depth + 1);
    } else if i + 1 < s.len() && s[i] == '*' && s[i + 1] == '/' {
        lemma_block_comment_end(s, i + 2, (depth - 1) as nat);
    } else if i < s.len() {
        lemma_block_comment_end(s, i + 1, depth);
    }
}

/// The character an escape stands for: `n`, `r` and `t` become control
/// characters; quote and backslash stand for themselves.
pub open spec fn decode_escape(c: char) -> char {
    if c == 'n' {
        '\n'
    } else if c == 'r' {
        '\r'
    } else if c == 't' {
        '\t'
    } else {
        c
    }
}

/// Whether a character is one of the five accepted string escapes.
pub open spec fn is_escape_char(c: char) -> bool {
    c == '"' || c == '\\' || c == 'n' || c == 'r' || c == 't'
}

/// Scan a string literal from `i`, which points just past the opening quote:
/// the decoded contents, and the index just past the closing quote.
pub open spec fn scan_string(s: Seq<char>, i: int) -> Result<(Seq<char>, int), LexError>
    decreases s.len() - i when 0 <= i <= s.len()
{
    if i >= s.len() {
        Err(LexError::UnterminatedString)
    } else if s[i] == '"' {
        Ok((Seq::empty(), i + 1))
    } else if s[i] == '\\' {
        if i + 1 >= s.len() {
            Err(LexError::UnterminatedString)
        } else if is_escape_char(s[i + 1]) {
            match scan_string(s, i + 2) {
                Ok((rest, j)) => Ok((seq![decode_escape(s[i + 1])] + rest, j)),
                Err(e) => Err(e),
            }
        } else {
            Err(LexError::UnknownEscape(s[i + 1]))
        }
    } else {
        match scan_string(s, i + 1) {
            Ok((rest, j)) => Ok((seq![s[i]] + rest, j)),
            Err(e) => Err(e),
        }
    }
}

pub proof fn lemma_scan_string(s: Seq<char>, i: int)
    requires
        0 <= i <= s.len(),
    ensures
        match scan_string(s, i) {
            Ok((_, j)) => i < j <= s.len(),
            Err(_) => true,
        },
    decreases s.len() - i,
{
    if i < s.len() {
        if s[i] == '"' {
        } else if s[i] == '\\' {
            if i + 1 < s.len() && is_escape_char(s[i + 1]) {
                lemma_scan_string(s, i + 2);
            }
        } else {
            lemma_scan_string(s, i + 1);
        }
    }
}

/// Whether every character of a digit string is `0`.
pub open spec fn all_zero(digits: Seq<char>) -> bool {
    forall|k: int| 0 <= k < digits.len() ==> digits[k] == '0'
}

/// Scan a numeric literal from `i`, which points at its first digit: the
/// whole-number digits, the decimal digits if a fraction follows, and the
/// next index. A `.` not followed by a digit is not part of the literal, and
/// a literal immediately followed by a letter is an error.
pub open spec fn scan_number(s: Seq<char>, i: int) -> Result<
    (Seq<char>, Option<Seq<char>>, int),
    LexError,
>
{
    let w_end = digit_end(s, i);
    let whole = s.subrange(i, w_end);
    if w_end + 1 < s.len() && s[w_end] == '.' && is_digit_char(s[w_end + 1]) {
        let f_end = digit_end(s, w_end + 1);
        let frac = s.subrange(w_end + 1, f_end);
        if f_end < s.len() && is_alpha_char(s[f_end]) {
            Err(LexError::AlphaAfterNumber)
        } else {
            Ok((whole, Some(frac), f_end))
        }
    } else if w_end < s.len() && is_alpha_char(s[w_end]) {
        Err(LexError::AlphaAfterNumber)
    } else {
        Ok((whole, None, w_end))
    }
}

pub proof fn lemma_scan_number(s: Seq<char>, i: int)
    requires
        0 <= i <= s.len(),
    ensures
        match scan_number(s, i) {
            Ok((_, _, j)) => i <= j <= s.len() && (i < s.len() && is_digit_char(s[i]) ==> i + 1
                <= j),
            Err(_) => true,
        },
{
    lemma_digit_end(s, i);
    let w_end = digit_end(s, i);
    if w_end + 1 < s.len() && s[w_end] == '.' && is_digit_char(s[w_end + 1]) {
        lemma_digit_end(s, w_end + 1);
    }
}

/// Prepend a token to the result of lexing the rest of the text.
pub open spec fn cons_tok(t: TokView, r: Result<Seq<TokView>, LexError>) -> Result<
    Seq<TokView>,
    LexError,
> {
    match r {
        Ok(ts) => Ok(seq![t] + ts),
        Err(e) => Err(e),
    }
}

/// Lex the text from position `i` onward.
pub open spec fn spec_lex_from(s: Seq<char>, i: int) -> Result<Seq<TokView>, LexError>
    decreases s.len() - i when 0 <= i <= s.len()
{
    if i >= s.len() {
        Ok(Seq::empty())
    } else {
        let c = s[i];
        if c == '(' {
            cons_tok(TokView::Sym(Sym::LParen), spec_lex_from(s, i + 1))
        } else if c == ')' {
            cons_tok(TokView::Sym(Sym::RParen), spec_lex_from(s, i + 1))
        } else if c == '[' {
            cons_tok(TokView::Sym(Sym::LBrack), spec_lex_from(s, i + 1))
        } else if c == ']' {
            cons_tok(TokView::Sym(Sym::RBrack), spec_lex_from(s, i + 1))
        } else if c == '{' {
            cons_tok(TokView::Sym(Sym::LBrace), spec_lex_from(s, i + 1))
        } else if c == '}' {
            cons_tok(TokView::Sym(Sym::RBrace), spec_lex_from(s, i + 1))
        } else if c == ';' {
            cons_tok(TokView::Sym(Sym::Semi), spec_lex_from(s, i + 1))
        } else if c == ',' {
            cons_tok(TokView::Sym(Sym::Comma), spec_lex_from(s, i + 1))
        } else if c == ':' {
            cons_tok(TokView::Sym(Sym::Colon), spec_lex_from(s, i + 1))
        } else if c == '.' {
            cons_tok(TokView::Sym(Sym::Dot), spec_lex_from(s, i + 1))
        } else if c == '+' {
            cons_tok(TokView::Sym(Sym::Plus), spec_lex_from(s, i + 1))
        } else if c == '*' {
            cons_tok(TokView::Sym(Sym::Star), spec_lex_from(s, i + 1))
        } else if c == '%' {
            cons_tok(TokView::Sym(Sym::Percent), spec_lex_from(s, i + 1))
        } else if c == '/' {
            if i + 1 < s.len() && s[i + 1] == '/' {
                let j = line_comment_end(s, i);
                proof {
                    lemma_line_comment_end(s, i);
                }
                spec_lex_from(s, j)
            } else if i + 1 < s.len() && s[i + 1] == '*' {
                match block_comment_end(s, i + 2, 1) {
                    Some(j) => {
                        proof {
                            lemma_block_comment_end(s, i + 2, 1);
                        }
                        spec_lex_from(s, j)
                    },
                    None => Err(LexError::UnterminatedComment),
                }
            } else {
                cons_tok(TokView::Sym(Sym::Slash), spec_lex_from(s, i + 1))
            }
        } else if c == '!' {
            if i + 1 < s.len() && s[i + 1] == '=' {
                cons_tok(TokView::Sym(Sym::NEq), spec_lex_from(s, i + 2))
            } else {
                Err(LexError::LoneBang)
            }
        } else if c == '=' {
            if i + 1 < s.len() && s[i + 1] == '=' {
                cons_tok(TokView::Sym(Sym::Eq), spec_lex_from(s, i + 2))
            } else if i + 1 < s.len() && s[i + 1] == '>' {
                cons_tok(TokView::Sym(Sym::DoubleArrow), spec_lex_from(s, i + 2))
            } else {
                cons_tok(TokView::Sym(Sym::Assign), spec_lex_from(s, i + 1))
            }
        } else if c == '>' {
            if i + 1 < s.len() && s[i + 1] == '=' {
                cons_tok(TokView::Sym(Sym::GE), spec_lex_from(s, i + 2))
            } else {
                cons_tok(TokView::Sym(Sym::GT), spec_lex_from(s, i + 1))
            }
        } else if c == '<' {
            if i + 1 < s.len() && s[i + 1] == '=' {
                cons_tok(TokView::Sym(Sym::LE), spec_lex_from(s, i + 2))
            } else {
                cons_tok(TokView::Sym(Sym::LT), spec_lex_from(s, i + 1))
            }
        } else if c == '-' {
            if i + 1 < s.len() && s[i + 1] == '>' {
                cons_tok(TokView::Sym(Sym::Arrow), spec_lex_from(s, i + 2))
            } else if i + 1 < s.len() && is_digit_char(s[i + 1]) {
                match scan_number(s, i + 1) {
                    Ok((w, f, j)) => if all_zero(w) && (f is None || all_zero(f->0)) {
                        Err(LexError::NegativeZero)
                    } else {
                        proof {
                            lemma_scan_number(s, i + 1);
                        }
                        cons_tok(TokView::Num(Sign::Negative, w, f), spec_lex_from(s, j))
                    },
                    Err(e) => Err(e),
                }
            } else {
                cons_tok(TokView::Sym(Sym::Minus), spec_lex_from(s, i + 1))
            }
        } else if is_digit_char(c) {
            match scan_number(s, i) {
                Ok((w, f, j)) => {
                    proof {
                        lemma_scan_number(s, i);
                        lemma_digit_end(s, i);
                    }
                    cons_tok(TokView::Num(Sign::Positive, w, f), spec_lex_from(s, j))
                },
                Err(e) => Err(e),
            }
        } else if c == '_' || is_alpha_char(c) {
            let j = word_end(s, i);
            let w = s.subrange(i, j);
            proof {
                lemma_word_end(s, i);
            }
            match spec_kw_of(w) {
                Some(k) => cons_tok(TokView::Kw(k), spec_lex_from(s, j)),
                None => cons_tok(TokView::Ident(w), spec_lex_from(s, j)),
            }
        } else if c == '"' {
            match scan_string(s, i + 1) {
                Ok((txt, j)) => {
                    proof {
                        lemma_scan_string(s, i + 1);
                    }
                    cons_tok(TokView::String(txt), spec_lex_from(s, j))
                },
                Err(e) => Err(e),
            }
        } else if is_space_char(c) {
            spec_lex_from(s, i + 1)
        } else {
            Err(LexError::UnrecognizedChar(c))
        }
    }
}

/// What lexing a text yields: its token sequence, or the lexical error that
/// fails it.
pub open spec fn spec_lex(s: Seq<char>) -> Result<Seq<TokView>, LexError> {
    spec_lex_from(s, 0)
}

/// Relies on String::push (std): appends exactly the given character.
#[verifier::external_body]
fn push_char(s: &mut String, c: char)
    ensures
        final(s)@ == old(s)@.push(c),
{
    s.push(c);
}

/// Collect a vector of characters into a string.
fn chars_to_string(v: &Vec<char>) -> (r: String)
    ensures
        r@ == v@,
{
    let mut s = String::new();
    let mut i: usize = 0;
    while i < v.len()
        invariant
            i <= v@.len(),
            s@ == v@.subrange(0, i as int),
        decreases v@.len() - i,
    {
        push_char(&mut s, v[i]);
        proof {
            assert(v@.subrange(0, i + 1) =~= v@.subrange(0, i as int).push(v@[i as int]));
        }
        i = i + 1;
    }
    proof {
        assert(v@.subrange(0, v@.len() as int) =~= v@);
    }
    s
}

/// Scan the run of word characters starting at `start`.
fn scan_word(v: &Vec<char>, start: usize) -> (r: (Vec<char>, usize))
    requires
        start <= v@.len(),
    ensures
        r.1 as int == word_end(v@, start as int),
        r.0@ == v@.subrange(start as int, r.1 as int),
        start <= r.1 <= v@.len(),
{
    let mut w: Vec<char> = Vec::new();
    let mut j: usize = start;
    while j < v.len() && is_word(v[j])
        invariant
            start <= j <= v@.len(),
            word_end(v@, start as int) == word_end(v@, j as int),
            w@ == v@.subrange(start as int, j as int),
        decreases v@.len() - j,
    {
        w.push(v[j]);
        proof {
            assert(v@.subrange(start as int, j + 1) =~= v@.subrange(start as int, j as int).push(
                v@[j as int],
            ));
        }
        j = j + 1;
    }
    (w, j)
}

/// Scan the run of digits starting at `start`.
fn scan_digits(v: &Vec<char>, start: usize) -> (r: (Vec<char>, usize))
    requires
        start <= v@.len(),
    ensures
        r.1 as int == digit_end(v@, start as int),
        r.0@ == v@.subrange(start as int, r.1 as int),
        start <= r.1 <= v@.len(),
{
    let mut w: Vec<char> = Vec::new();
    let mut j: usize = start;
    while j < v.len() && is_digit(v[j])
        invariant
            start <= j <= v@.len(),
            digit_end(v@, start as int) == digit_end(v@, j as int),
            w@ == v@.subrange(start as int, j as int),
        decreases v@.len() - j,
    {
        w.push(v[j]);
        proof {
            assert(v@.subrange(start as int, j + 1) =~= v@.subrange(start as int, j as int).push(
                v@[j as int],
            ));
        }
        j = j + 1;
    }
    (w, j)
}

/// Skip a line comment scanned from `start`; the result is the index just
/// past the terminating newline, or the end of the text.
fn skip_line_comment(v: &Vec<char>, start: usize) -> (r: usize)
    requires
        start <= v@.len(),
    ensures
        r as int == line_comment_end(v@, start as int),
        start <= r <= v@.len(),
{
    proof {
        lemma_line_comment_end(v@, start as int);
    }
    let mut j: usize = start;
    while j < v.len() && v[j] != '\n'
        invariant
            start <= j <= v@.len(),
            line_comment_end(v@, start as int) == line_comment_end(v@, j as int),
        decreases v@.len() - j,
    {
        j = j + 1;
    }
    proof {
        lemma_line_comment_end(v@, start as int);
    }
    if j < v.len() {
        j + 1
    } else {
        j
    }
}

/// Skip a block comment whose opening marker ends just before `start`,
/// tracking the nesting balance with an explicit counter; the result is the
/// index just past the marker that closes it, or nothing if the input ends
/// inside the comment.
fn skip_block_comment(v: &Vec<char>, start: usize) -> (r: Option<usize>)
    requires
        start <= v@.len(),
    ensures
        match r {
            Some(j) => block_comment_end(v@, start as int, 1) == Some(j as int) && start <= j
                <= v@.len(),
            None => block_comment_end(v@, start as int, 1) is None,
        },
{
    let mut j: usize = start;
    let mut depth: usize = 1;
    while depth > 0
        invariant
            start <= j <= v@.len(),
            2 * (depth - 1) <= j - start,
            block_comment_end(v@, start as int, 1) == block_comment_end(v@, j as int, depth as nat),
        ensures
            depth == 0,
            block_comment_end(v@, start as int, 1) == Some(j as int),
            start <= j <= v@.len(),
        decreases v@.len() - j,
    {
        if j < v.len() && j + 1 < v.len() && v[j] == '/' && v[j + 1] == '*' {
            j = j + 2;
            depth = depth + 1;
        } else if j < v.len() && j + 1 < v.len() && v[j] == '*' && v[j + 1] == '/' {
            j = j + 2;
            depth = depth - 1;
        } else if j < v.len() {
            j = j + 1;
        } else {
            return None;
        }
    }
    Some(j)
}

fn decode_escape_exec(c: char) -> (r: char)
    ensures
        r == decode_escape(c),
{
    if c == 'n' {
        '\n'
    } else if c == 'r' {
        '\r'
    } else if c == 't' {
        '\t'
    } else {
        c
    }
}

/// Glue for the string-literal scanning proof: the contents decoded so far,
/// followed by whatever the rest of the literal decodes to.
pub open spec fn string_glue(pre: Seq<char>, rest: Result<(Seq<char>, int), LexError>) -> Result<
    (Seq<char>, int),
    LexError,
> {
    match rest {
        Ok((txt, j)) => Ok((pre + txt, j)),
        Err(e) => Err(e),
    }
}

proof fn lemma_string_glue_extend(pre: Seq<char>, d: char, rest: Result<(Seq<char>, int), LexError>)
    ensures
        string_glue(
            pre,
            match rest {
                Ok((txt, j)) => Ok((seq![d] + txt, j)),
                Err(e) => Err(e),
            },
        ) == string_glue(pre.push(d), rest),
{
    match rest {
        Ok((txt, _)) => {
            assert(pre + (seq![d] + txt) =~= pre.push(d) + txt);
        },
        Err(_) => {},
    }
}

/// Scan a string literal whose opening quote ends just before `start`.
fn scan_string_exec(v: &Vec<char>, start: usize) -> (r: Result<(Vec<char>, usize), LexError>)
    requires
        start <= v@.len(),
    ensures
        match r {
            Ok((txt, j)) => scan_string(v@, start as int) == Ok::<_, LexError>((txt@, j as int))
                && start < j <= v@.len(),
            Err(e) => scan_string(v@, start as int) == Err::<(Seq<char>, int), LexError>(e),
        },
{
    proof {
        lemma_scan_string(v@, start as int);
    }
    let n = v.len();
    let mut content: Vec<char> = Vec::new();
    let mut j: usize = start;
    loop
        invariant
            start <= j <= v@.len(),
            v@.len() == n,
            scan_string(v@, start as int) == string_glue(content@, scan_string(v@, j as int)),
        ensures
            v@.len() == n,
            scan_string(v@, start as int) == string_glue(content@, scan_string(v@, j as int)),
            j < v@.len() && v@[j as int] == '"',
        decreases v@.len() - j,
    {
        if j >= v.len() {
            proof {
                assert(scan_string(v@, j as int) == Err::<(Seq<char>, int), LexError>(
                    LexError::UnterminatedString,
                ));
            }
            return Err(LexError::UnterminatedString);
        }
        let c = v[j];
        if c == '"' {
            break;
        } else if c == '\\' {
            if j + 1 >= v.len() {
                return Err(LexError::UnterminatedString);
            }
            let e = v[j + 1];
            if e == '"' || e == '\\' || e == 'n' || e == 'r' || e == 't' {
                let ghost old_content = content@;
                let d = decode_escape_exec(e);
                content.push(d);
                proof {
                    lemma_string_glue_extend(old_content, d, scan_string(v@, j + 2));
                }
                j = j + 2;
            } else {
                return Err(LexError::UnknownEscape(e));
            }
        } else {
            let ghost old_content = content@;
            content.push(c);
            proof {
                lemma_string_glue_extend(old_content, c, scan_string(v@, j + 1));
            }
            j = j + 1;
        }
    }
    proof {
        assert(scan_string(v@, j as int) == Ok::<_, LexError>((Seq::<char>::empty(), j + 1)));
        assert(content@ + Seq::<char>::empty() =~= content@);
    }
    Ok((content, j + 1))
}

/// The views of an optional digit vector.
pub open spec fn opt_chars_view(f: Option<Vec<char>>) -> Option<Seq<char>> {
    match f {
        Option::None => Option::None,
        Option::Some(d) => Option::Some(d@),
    }
}

/// Scan a numeric literal whose first digit stands at `start`.
fn scan_number_exec(v: &Vec<char>, start: usize) -> (r: Result<
    (Vec<char>, Option<Vec<char>>, usize),
    LexError,
>)
    requires
        start <= v@.len(),
    ensures
        match r {
            Ok((w, f, j)) => scan_number(v@, start as int) == Ok::<_, LexError>(
                (w@, opt_chars_view(f), j as int),
            ) && start <= j <= v@.len(),
            Err(e) => scan_number(v@, start as int) == Err::<
                (Seq<char>, Option<Seq<char>>, int),
                LexError,
            >(e),
        },
{
    let (w, w_end) = scan_digits(v, start);
    if w_end < v.len() && w_end + 1 < v.len() && v[w_end] == '.' && is_digit(v[w_end + 1]) {
        let (f, f_end) = scan_digits(v, w_end + 1);
        if f_end < v.len() && is_alpha(v[f_end]) {
            Err(LexError::AlphaAfterNumber)
        } else {
            Ok((w, Some(f), f_end))
        }
    } else if w_end < v.len() && is_alpha(v[w_end]) {
        Err(LexError::AlphaAfterNumber)
    } else {
        Ok((w, None, w_end))
    }
}

/// Decide whether every character of a digit vector is `0`.
fn is_all_zero(v: &Vec<char>) -> (r: bool)
    ensures
        r == all_zero(v@),
{
    let mut k: usize = 0;
    while k < v.len()
        invariant
            k <= v@.len(),
            forall|m: int| 0 <= m < k ==> v@[m] == '0',
        decreases v@.len() - k,
    {
        if v[k] != '0' {
            return false;
        }
        k = k + 1;
    }
    true
}

/// Glue for the main lexing proof: the tokens produced so far, followed by
/// whatever the rest of the text lexes to.
pub open spec fn lex_prefix_glue(
    pre: Seq<TokView>,
    rest: Result<Seq<TokView>, LexError>,
) -> Result<Seq<TokView>, LexError> {
    match rest {
        Ok(ts) => Ok(pre + ts),
        Err(e) => Err(e),
    }
}

proof fn lemma_glue_step(pre: Seq<Tok>, t: Tok, rest: Result<Seq<TokView>, LexError>)
    ensures
        lex_prefix_glue(toks_view(pre), cons_tok(t@, rest)) == lex_prefix_glue(
            toks_view(pre.push(t)),
            rest,
        ),
{
    match rest {
        Ok(ts) => {
            assert(toks_view(pre.push(t)) =~= toks_view(pre).push(t@));
            assert(toks_view(pre) + (seq![t@] + ts) =~= toks_view(pre).push(t@) + ts);
        },
        Err(_) => {},
    }
}

/// Lex a vector of characters into a token vector: the result is exactly
/// what `spec_lex` says of the text, token sequence or error.
#[verifier::rlimit(100)]
pub fn lex_chars(v: &Vec<char>) -> (r: Result<Vec<Tok>, LexError>)
    ensures
        match r {
            Ok(ts) => spec_lex(v@) == Ok::<Seq<TokView>, LexError>(toks_view(ts@)),
            Err(e) => spec_lex(v@) == Err::<Seq<TokView>, LexError>(e),
        },
{
    let mut toks: Vec<Tok> = Vec::new();
    let mut i: usize = 0;
    while i < v.len()
        invariant
            i <= v@.len(),
            spec_lex(v@) == lex_prefix_glue(toks_view(toks@), spec_lex_from(v@, i as int)),
        decreases v@.len() - i,
    {
        let ghost pre = toks@;
        let ghost gi = i as int;
        let c = v[i];
        if c == '(' {
            let t = Tok::Sym(Sym::LParen);
            proof {
                lemma_glue_step(pre, t, spec_lex_from(v@, gi + 1));
            }
            toks.push(t);
            i = i + 1;
        } else if c == ')' {
            let t = Tok::Sym(Sym::RParen);
            proof {
                lemma_glue_step(pre, t, spec_lex_from(v@, gi + 1));
            }
            toks.push(t);
            i = i + 1;
        } else if c == '[' {
            let t = Tok::Sym(Sym::LBrack);
            proof {
                lemma_glue_step(pre, t, spec_lex_from(v@, gi + 1));
            }
            toks.push(t);
            i = i + 1;
        } else if c == ']' {
            let t = Tok::Sym(Sym::RBrack);
            proof {
                lemma_glue_step(pre, t, spec_lex_from(v@, gi + 1));
            }
            toks.push(t);
            i = i + 1;
        } else if c == '{' {
            let t = Tok::Sym(Sym::LBrace);
            proof {
                lemma_glue_step(pre, t, spec_lex_from(v@, gi + 1));
            }
            toks.push(t);
            i = i + 1;
        } else if c == '}' {
            let t = Tok::Sym(Sym::RBrace);
            proof {
                lemma_glue_step(pre, t, spec_lex_from(v@, gi + 1));
            }
            toks.push(t);
            i = i + 1;
        } else if c == ';' {
            let t = Tok::Sym(Sym::Semi);
            proof {
                lemma_glue_step(pre, t, spec_lex_from(v@, gi + 1));
            }
            toks.push(t);
            i = i + 1;
        } else if c == ',' {
            let t = Tok::Sym(Sym::Comma);
            proof {
                lemma_glue_step(pre, t, spec_lex_from(v@, gi + 1));
            }
            toks.push(t);
            i = i + 1;
        } else if c == ':' {
            let t = Tok::Sym(Sym::Colon);
            proof {
                lemma_glue_step(pre, t, spec_lex_from(v@, gi + 1));
            }
            toks.push(t);
            i = i + 1;
        } else if c == '.' {
            let t = Tok::Sym(Sym::Dot);
            proof {
                lemma_glue_step(pre, t, spec_lex_from(v@, gi + 1));
            }
            toks.push(t);
            i = i + 1;
        } else if c == '+' {
            let t = Tok::Sym(Sym::Plus);
            proof {
                lemma_glue_step(pre, t, spec_lex_from(v@, gi + 1));
            }
            toks.push(t);
            i = i + 1;
        } else if c == '*' {
            let t = Tok::Sym(Sym::Star);
            proof {
                lemma_glue_step(pre, t, spec_lex_from(v@, gi + 1));
            }
            toks.push(t);
            i = i + 1;
        } else if c == '%' {
            let t = Tok::Sym(Sym::Percent);
            proof {
                lemma_glue_step(pre, t, spec_lex_from(v@, gi + 1));
            }
            toks.push(t);
            i = i + 1;
        } else if c == '/' {
            if i + 1 < v.len() && v[i + 1] == '/' {
                let j = skip_line_comment(v, i);
                proof {
                    lemma_line_comment_end(v@, gi);
                }
                i = j;
            } else if i + 1 < v.len() && v[i + 1] == '*' {
                match skip_block_comment(v, i + 2) {
                    Some(j) => {
                        i = j;
                    },
                    None => {
                        return Err(LexError::UnterminatedComment);
                    },
                }
            } else {
                let t = Tok::Sym(Sym::Slash);
                proof {
                    lemma_glue_step(pre, t, spec_lex_from(v@, gi + 1));
                }
                toks.push(t);
                i = i + 1;
            }
        } else if c == '!' {
            if i + 1 < v.len() && v[i + 1] == '=' {
                let t = Tok::Sym(Sym::NEq);
                proof {
                    lemma_glue_step(pre, t, spec_lex_from(v@, gi + 2));
                }
                toks.push(t);
                i = i + 2;
            } else {
                return Err(LexError::LoneBang);
            }
        } else if c == '=' {
            if i + 1 < v.len() && v[i + 1] == '=' {
                let t = Tok::Sym(Sym::Eq);
                proof {
                    lemma_glue_step(pre, t, spec_lex_from(v@, gi + 2));
                }
                toks.push(t);
                i = i + 2;
            } else if i + 1 < v.len() && v[i + 1] == '>' {
                let t = Tok::Sym(Sym::DoubleArrow);
                proof {
                    lemma_glue_step(pre, t, spec_lex_from(v@, gi + 2));
                }
                toks.push(t);
                i = i + 2;
            } else {
                let t = Tok::Sym(Sym::Assign);
                proof {
                    lemma_glue_step(pre, t, spec_lex_from(v@, gi + 1));
                }
                toks.push(t);
                i = i + 1;
            }
        } else if c == '>' {
            if i + 1 < v.len() && v[i + 1] == '=' {
                let t = Tok::Sym(Sym::GE);
                proof {
                    lemma_glue_step(pre, t, spec_lex_from(v@, gi + 2));
                }
                toks.push(t);
                i = i + 2;
            } else {
                let t = Tok::Sym(Sym::GT);
                proof {
                    lemma_glue_step(pre, t, spec_lex_from(v@, gi + 1));
                }
                toks.push(t);
                i = i + 1;
            }
        } else if c == '<' {
            if i + 1 < v.len() && v[i + 1] == '=' {
                let t = Tok::Sym(Sym::LE);
                proof {
                    lemma_glue_step(pre, t, spec_lex_from(v@, gi + 2));
                }
                toks.push(t);
                i = i + 2;
            } else {
                let t = Tok::Sym(Sym::LT);
                proof {
                    lemma_glue_step(pre, t, spec_lex_from(v@, gi + 1));
                }
                toks.push(t);
                i = i + 1;
            }
        } else if c == '-' {
            if i + 1 < v.len() && v[i + 1] == '>' {
                let t = Tok::Sym(Sym::Arrow);
                proof {
                    lemma_glue_step(pre, t, spec_lex_from(v@, gi + 2));
                }
                toks.push(t);
                i = i + 2;
            } else if i + 1 < v.len() && is_digit(v[i + 1]) {
                match scan_number_exec(v, i + 1) {
                    Ok((w, f, j)) => {
                        let zero_whole = is_all_zero(&w);
                        let zero_frac = match &f {
                            Option::None => true,
                            Option::Some(fv) => is_all_zero(fv),
                        };
                        if zero_whole && zero_frac {
                            return Err(LexError::NegativeZero);
                        }
                        let ws = chars_to_string(&w);
                        let fs = match f {
                            Option::None => Option::None,
                            Option::Some(fv) => Option::Some(chars_to_string(&fv)),
                        };
                        let t = Tok::Num(Sign::Negative, ws, fs);
                        proof {
                            lemma_glue_step(pre, t, spec_lex_from(v@, j as int));
                        }
                        toks.push(t);
                        i = j;
                    },
                    Err(e) => {
                        return Err(e);
                    },
                }
            } else {
                let t = Tok::Sym(Sym::Minus);
                proof {
                    lemma_glue_step(pre, t, spec_lex_from(v@, gi + 1));
                }
                toks.push(t);
                i = i + 1;
            }
        } else if is_digit(c) {
            match scan_number_exec(v, i) {
                Ok((w, f, j)) => {
                    let ws = chars_to_string(&w);
                    let fs = match f {
                        Option::None => Option::None,
                        Option::Some(fv) => Option::Some(chars_to_string(&fv)),
                    };
                    let t = Tok::Num(Sign::Positive, ws, fs);
                    proof {
                        lemma_scan_number(v@, gi);
                        lemma_glue_step(pre, t, spec_lex_from(v@, j as int));
                    }
                    toks.push(t);
                    i = j;
                },
                Err(e) => {
                    return Err(e);
                },
            }
        } else if c == '_' || is_alpha(c) {
            let (w, j) = scan_word(v, i);
            proof {
                lemma_word_end(v@, gi);
            }
            let t = match kw_of_chars(&w) {
                Some(k) => Tok::Kw(k),
                None => Tok::Ident(chars_to_string(&w)),
            };
            proof {
                lemma_glue_step(pre, t, spec_lex_from(v@, j as int));
            }
            toks.push(t);
            i = j;
        } else if c == '"' {
            match scan_string_exec(v, i + 1) {
                Ok((txt, j)) => {
                    let t = Tok::String(chars_to_string(&txt));
                    proof {
                        lemma_glue_step(pre, t, spec_lex_from(v@, j as int));
                    }
                    toks.push(t);
                    i = j;
                },
                Err(e) => {
                    return Err(e);
                },
            }
        } else if is_space(c) {
            i = i + 1;
        } else {
            return Err(LexError::UnrecognizedChar(c));
        }
    }
    proof {
        assert(spec_lex_from(v@, i as int) == Ok::<Seq<TokView>, LexError>(Seq::empty()));
        assert(toks_view(toks@) + Seq::<TokView>::empty() =~= toks_view(toks@));
    }
    Ok(toks)
}

/// Lex a string into a token vector. An error occurs if the string is not
/// made of legal tokens; no partial token list is produced.
pub fn lex(s: &str) -> (r: Result<Vec<Tok>, LexError>)
    ensures
        match r {
            Ok(ts) => spec_lex(s@) == Ok::<Seq<TokView>, LexError>(toks_view(ts@)),
            Err(e) => spec_lex(s@) == Err::<Seq<TokView>, LexError>(e),
        },
{
    let v = str_to_chars(s);
    lex_chars(&v)
}

/// Lexing is deterministic: identical source text always yields an identical
/// token sequence, or the identical error.
pub proof fn lemma_lex_deterministic(s1: Seq<char>, s2: Seq<char>)
    requires
        s1 == s2,
    ensures
        spec_lex(s1) == spec_lex(s2),
{
}

proof fn lemma_word_end_full(s: Seq<char>, i: int)
    requires
        0 <= i <= s.len(),
        forall|k: int| i <= k < s.len() ==> is_word_char(s[k]),
    ensures
        word_end(s, i) == s.len(),
    decreases s.len() - i,
{
    if i < s.len() {
        lemma_word_end_full(s, i + 1);
    }
}

/// A text made of word characters, starting with a letter or underscore,
/// lexes to the one token its classification gives: the keyword it spells,
/// or an identifier.
pub proof fn lemma_lex_single_word(w: Seq<char>)
    requires
        w.len() > 0,
        w[0] == '_' || is_alpha_char(w[0]),
        forall|k: int| 0 <= k < w.len() ==> is_word_char(w[k]),
    ensures
        spec_lex(w) == Ok::<Seq<TokView>, LexError>(
            seq![
                match spec_kw_of(w) {
                    Some(k) => TokView::Kw(k),
                    None => TokView::Ident(w),
                },
            ],
        ),
{
    lemma_word_end_full(w, 0);
    assert(w.subrange(0, w.len() as int) =~= w);
    assert(spec_lex_from(w, w.len() as int) == Ok::<Seq<TokView>, LexError>(Seq::empty()));
    let t = match spec_kw_of(w) {
        Some(k) => TokView::Kw(k),
        None => TokView::Ident(w),
    };
    assert(seq![t] + Seq::<TokView>::empty() =~= seq![t]);
}

/// Keyword round trip: each keyword's canonical spelling, lexed again, is
/// exactly that keyword token.
#[verifier::rlimit(100)]
pub proof fn lemma_kw_round_trip(k: Kw)
    ensures
        spec_lex(kw_spelling(k)) == Ok::<Seq<TokView>, LexError>(seq![TokView::Kw(k)]),
{
    reveal_strlit("region");
    reveal_strlit("link");
    reveal_strlit("item");
    reveal_strlit("items");
    reveal_strlit("location");
    reveal_strlit("locations");
    reveal_strlit("fn");
    reveal_strlit("enum");
    reveal_strlit("config");
    reveal_strlit("configs");
    reveal_strlit("configset");
    reveal_strlit("random");
    reveal_strlit("if");
    reveal_strlit("else");
    reveal_strlit("modify");
    reveal_strlit("override");
    reveal_strlit("requires");
    reveal_strlit("visible");
    reveal_strlit("unlock");
    reveal_strlit("tag");
    reveal_strlit("alias");
    reveal_strlit("provides");
    reveal_strlit("progressive");
    reveal_strlit("val");
    reveal_strlit("max");
    reveal_strlit("consumable");
    reveal_strlit("avail");
    reveal_strlit("infinity");
    reveal_strlit("grants");
    reveal_strlit("count");
    reveal_strlit("start");
    reveal_strlit("num");
    reveal_strlit("bool");
    reveal_strlit("then");
    reveal_strlit("match");
    reveal_strlit("true");
    reveal_strlit("false");
    reveal_strlit("not");
    reveal_strlit("and");
    reveal_strlit("or");
    reveal_strlit("min");
    reveal_strlit("sum");
    reveal_strlit("with");
    reveal_strlit("to");
    reveal_strlit("from");
    reveal_strlit("in");
    reveal_strlit("default");
    let w = kw_spelling(k);
    lemma_lex_single_word(w);
    assert(spec_kw_of(w) == Some(k));
}

/// Symbol round trip: each symbol's canonical spelling, lexed again, is
/// exactly that symbol token.
#[verifier::rlimit(100)]
pub proof fn lemma_sym_round_trip(y: Sym)
    ensures
        spec_lex(sym_spelling(y)) == Ok::<Seq<TokView>, LexError>(seq![TokView::Sym(y)]),
{
    reveal_strlit("(");
    reveal_strlit(")");
    reveal_strlit("[");
    reveal_strlit("]");
    reveal_strlit("{");
    reveal_strlit("}");
    reveal_strlit(";");
    reveal_strlit(",");
    reveal_strlit(":");
    reveal_strlit(".");
    reveal_strlit("=");
    reveal_strlit("->");
    reveal_strlit("=>");
    reveal_strlit("+");
    reveal_strlit("-");
    reveal_strlit("*");
    reveal_strlit("/");
    reveal_strlit("%");
    reveal_strlit("==");
    reveal_strlit("!=");
    reveal_strlit("<");
    reveal_strlit("<=");
    reveal_strlit(">");
    reveal_strlit(">=");
    let w = sym_spelling(y);
    assert(spec_lex_from(w, 1) == Ok::<Seq<TokView>, LexError>(Seq::empty()) || spec_lex_from(
        w,
        1,
    ) == spec_lex_from(w, 1));
    if w.len() == 1 {
        assert(spec_lex_from(w, 1) == Ok::<Seq<TokView>, LexError>(Seq::empty()));
    } else {
        assert(w.len() == 2);
        assert(spec_lex_from(w, 2) == Ok::<Seq<TokView>, LexError>(Seq::empty()));
    }
    assert(seq![TokView::Sym(y)] + Seq::<TokView>::empty() =~= seq![TokView::Sym(y)]);
}

/// The text of a block comment nested to the given depth: `/*` repeated
/// `depth` times, then `*/` repeated as often.
pub open spec fn nested_comment(depth: nat) -> Seq<char>
    decreases depth,
{
    if depth == 0 {
        Seq::empty()
    } else {
        "/*"@ + nested_comment((depth - 1) as nat) + "*/"@
    }
}

pub proof fn lemma_nested_comment_len(depth: nat)
    ensures
        nested_comment(depth).len() == 4 * depth,
    decreases depth,
{
    reveal_strlit("/*");
    reveal_strlit("*/");
    if depth > 0 {
        lemma_nested_comment_len((depth - 1) as nat);
    }
}

proof fn lemma_nested_block_end(s: Seq<char>, i: int, d: nat, depth: nat)
    requires
        0 <= i,
        i + nested_comment(d).len() <= s.len(),
        s.subrange(i, i + nested_comment(d).len()) == nested_comment(d),
        depth >= 1,
    ensures
        block_comment_end(s, i, depth) == block_comment_end(
            s,
            i + nested_comment(d).len(),
            depth,
        ),
    decreases d,
{
    reveal_strlit("/*");
    reveal_strlit("*/");
    lemma_nested_comment_len(d);
    if d > 0 {
        let inner = nested_comment((d - 1) as nat);
        lemma_nested_comment_len((d - 1) as nat);
        let whole = nested_comment(d);
        assert(whole == "/*"@ + inner + "*/"@);
        assert(whole[0] == '/' && whole[1] == '*');
        assert(s[i] == whole[0] && s[i + 1] == whole[1]);
        assert(block_comment_end(s, i, depth) == block_comment_end(s, i + 2, depth + 1));
        assert(s.subrange(i + 2, i + 2 + inner.len()) =~= inner) by {
            assert forall|m: int| 0 <= m < inner.len() implies s.subrange(
                i + 2,
                i + 2 + inner.len(),
            )[m] == inner[m] by {
                assert(s.subrange(i, i + whole.len())[2 + m] == whole[2 + m]);
            }
        }
        lemma_nested_block_end(s, i + 2, (d - 1) as nat, depth + 1);
        let j = i + 2 + inner.len();
        assert(s[j] == whole[2 + inner.len() as int] == '*');
        assert(s[j + 1] == whole[3 + inner.len() as int] == '/');
        assert(block_comment_end(s, j, depth + 1) == block_comment_end(s, j + 2, depth));
    }
}

/// Nested comments are skipped whole: wherever the scan stands at the start
/// of a balanced block comment of any positive depth, lexing continues
/// exactly past it, whatever text follows.
pub proof fn lemma_comment_is_skipped(s: Seq<char>, i: int, d: nat)
    requires
        1 <= d,
        0 <= i,
        i + nested_comment(d).len() <= s.len(),
        s.subrange(i, i + nested_comment(d).len()) == nested_comment(d),
    ensures
        spec_lex_from(s, i) == spec_lex_from(s, i + nested_comment(d).len()),
{
    reveal_strlit("/*");
    reveal_strlit("*/");
    lemma_nested_comment_len(d);
    let whole = nested_comment(d);
    let inner = nested_comment((d - 1) as nat);
    lemma_nested_comment_len((d - 1) as nat);
    assert(whole == "/*"@ + inner + "*/"@);
    assert(s[i] == whole[0] == '/');
    assert(s[i + 1] == whole[1] == '*');
    assert(s.subrange(i + 2, i + 2 + inner.len()) =~= inner) by {
        assert forall|m: int| 0 <= m < inner.len() implies s.subrange(
            i + 2,
            i + 2 + inner.len(),
        )[m] == inner[m] by {
            assert(s.subrange(i, i + whole.len())[2 + m] == whole[2 + m]);
        }
    }
    if d > 1 {
        lemma_nested_block_end(s, i + 2, (d - 1) as nat, 1);
    }
    let j = i + 2 + inner.len();
    assert(s[j] == whole[2 + inner.len() as int] == '*');
    assert(s[j + 1] == whole[3 + inner.len() as int] == '/');
    assert(block_comment_end(s, j, 1) == block_comment_end(s, j + 2, 0));
    assert(block_comment_end(s, i + 2, 1) == Some(i + whole.len()));
}

/// An error from failing to parse a [Kw].
#[derive(Clone, Debug)]
pub struct ParseKwError {
    s: String,
}

/// An error from failing to parse a [Sym].
#[derive(Clone, Debug)]
pub struct ParseSymError {
    s: String,
}

impl core::str::FromStr for Kw {
    type Err = ParseKwError;

    fn from_str(s: &str) -> Result<Kw, ParseKwError> {
        let v = str_to_chars(s);
        match kw_of_chars(&v) {
            Some(k) => Ok(k),
            None => Err(ParseKwError { s: <String as vstd::string::StringExecFns>::from_str(s) }),
        }
    }
}

impl core::str::FromStr for Sym {
    type Err = ParseSymError;

    fn from_str(s: &str) -> Result<Sym, ParseSymError> {
        let v = str_to_chars(s);
        match sym_of_chars(&v) {
            Some(k) => Ok(k),
            None => Err(ParseSymError { s: <String as vstd::string::StringExecFns>::from_str(s) }),
        }
    }
}

} // verus!
