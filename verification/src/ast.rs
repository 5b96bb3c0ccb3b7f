//! The declarative syntax tree of a Rado source file, as the external parser
//! produces it: declarations, statements attached to them, and expression
//! trees. Nothing here is resolved yet; identifiers are raw text.

use vstd::prelude::*;

verus! {

/// A whole source file: a list of top-level statements.
pub struct File {
    pub stmts: Vec<Stmt>,
}

/// A raw identifier: the text as it stands in the source.
#[derive(Clone)]
pub struct Ident(pub String);

/// An exact rational number, kept as decimal digit strings so that no
/// precision is lost: the value is `numer / denom`, negated if `negative`.
#[derive(Clone)]
pub struct Num {
    pub negative: bool,
    pub numer: String,
    pub denom: String,
}

/// A dotted lookup path: a sequence of identifiers.
pub type Path = Vec<Ident>;

/// The name under which an entity is declared: its identifier, and an
/// optional human-readable display string.
#[derive(Clone)]
pub struct DeclName {
    pub ident: Ident,
    pub human: Option<String>,
}

/// A list that is either given afresh, or as an incremental diff against an
/// inherited list: each pair holds `true` for an addition and `false` for a
/// removal.
#[derive(Clone)]
pub enum ModVec<T> {
    New(Vec<T>),
    Mod(Vec<(bool, T)>),
}

/// A statement: a declaration, a property of the enclosing declaration, a
/// conditional block, or an amendment of an earlier declaration.
pub enum Stmt {
    Decl(Decl),
    Prop(Prop),
    Cond(Expr, Vec<Stmt>, Vec<Stmt>),
    Modify(Decl),
    Override(Decl),
    Delete(Decl),
}

/// A region declaration: a lexical scope with its own statements.
pub struct Region {
    pub name: DeclName,
    pub stmts: Vec<Stmt>,
}

/// The direction of a link between regions.
pub enum LinkDir {
    To,
    From,
    With,
}

/// A link declaration connecting the enclosing region to others.
pub struct Link {
    pub name: Option<DeclName>,
    pub dir: LinkDir,
    pub regions: ModVec<Path>,
    pub stmts: Vec<Stmt>,
}

/// An item declaration.
pub struct Item {
    pub name: DeclName,
    pub stmts: Vec<Stmt>,
}

/// A group of items sharing a tag list, with nested sub-groups.
pub struct Items {
    pub tags: ModVec<Ident>,
    pub items: Vec<Item>,
    pub nested: Vec<Items>,
}

/// A location declaration.
pub struct Location {
    pub name: DeclName,
    pub stmts: Vec<Stmt>,
}

/// A batch of location declarations.
pub struct Locations {
    pub decls: Vec<Location>,
}

/// A function parameter, with an optional type annotation.
pub struct Param {
    pub name: Ident,
    pub ty: Option<Ty>,
}

/// A function declaration.
pub struct FnDecl {
    pub name: DeclName,
    pub params: Vec<Param>,
    pub ret_ty: Option<Ty>,
    pub body: Expr,
}

/// An enum declaration: a name and its variants.
pub struct Enum {
    pub name: DeclName,
    pub variants: Vec<DeclName>,
}

/// A configuration value declaration.
pub struct Config {
    pub name: DeclName,
    pub ty: Ty,
    pub default: Option<Expr>,
}

/// A configuration enum declaration.
pub struct ConfigEnum {
    pub name: DeclName,
    pub variants: Vec<DeclName>,
    pub default: Option<Expr>,
}

/// One configuration value in a typed batch.
pub struct TypedConfig {
    pub name: DeclName,
    pub default: Option<Expr>,
}

/// A typed batch of configuration values.
pub struct Configs {
    pub ty: Ty,
    pub configs: Vec<TypedConfig>,
}

/// A named bundle of configuration assignments and included bundles.
pub struct Configset {
    pub name: DeclName,
    pub vals: Vec<(Path, Expr)>,
    pub configsets: Vec<Path>,
}

/// A named list of candidate random values.
pub struct Random {
    pub name: DeclName,
    pub vals: ModVec<Expr>,
}

/// A declaration.
pub enum Decl {
    Region(Region),
    Link(Link),
    Item(Item),
    Items(Items),
    Location(Location),
    Locations(Locations),
    Fn(FnDecl),
    Enum(Enum),
    Config(Config),
    ConfigEnum(ConfigEnum),
    Configs(Configs),
    Configset(Configset),
    Random(Random),
}

/// A requirement property.
pub struct Requires {
    pub cond: Expr,
}

/// A visibility property.
pub struct Visible {
    pub cond: Expr,
}

/// An unlock property naming an item.
pub struct Unlock {
    pub item: Path,
}

/// A tag property: the tags attached to the enclosing declaration.
#[derive(Clone)]
pub struct Tag {
    pub tags: ModVec<Ident>,
}

/// An alias property.
pub struct Alias {
    pub names: ModVec<Ident>,
}

/// A provides property naming items.
pub struct Provides {
    pub items: ModVec<Path>,
}

/// A progressive-items property.
pub struct Progressive {
    pub items: ModVec<Path>,
}

/// A named value property.
pub struct Val {
    pub name: Ident,
    pub ty: Option<Ty>,
    pub val: Expr,
}

/// A maximum-count property.
pub struct Max {
    pub expr: Expr,
}

/// An availability property: signed paths with optional counts.
pub struct Avail {
    pub items: ModVec<(bool, Path, Option<Num>)>,
}

/// A grants property: signed paths.
pub struct Grants {
    pub items: ModVec<(bool, Path)>,
}

/// The items the player starts with.
pub struct StartWith {
    pub items: Vec<Path>,
}

/// The region the player starts in.
pub struct StartIn {
    pub region: Path,
}

/// A property attached to the enclosing declaration.
pub enum Prop {
    Requires(Requires),
    Visible(Visible),
    Unlock(Unlock),
    Tag(Tag),
    Alias(Alias),
    Provides(Provides),
    Progressive(Progressive),
    Val(Val),
    Max(Max),
    Consumable,
    Avail(Avail),
    Grants(Grants),
    StartWith(StartWith),
    StartIn(StartIn),
}

/// A binary operator in an expression.
pub enum BinOp {
    Add,
    Sub,
    Mul,
    Div,
    Mod,
    Eq,
    NEq,
    LT,
    LE,
    GT,
    GE,
}

/// A builtin aggregate over a list of arguments.
pub enum Builtin {
    Count,
    Max,
    Min,
    Sum,
}

/// One arm of a match expression: a pattern path and its result.
pub struct MatchArm {
    pub pat: Path,
    pub expr: Expr,
}

/// An expression tree.
pub enum Expr {
    Grouped(Box<Expr>),
    Num(Num),
    Bool(bool),
    List(Vec<Expr>),
    Name(Path),
    Call(Box<Expr>, Vec<Expr>),
    Builtin(Builtin, Vec<Expr>),
    Not(Box<Expr>),
    Bin(Box<Expr>, BinOp, Box<Expr>),
    And(Vec<Expr>),
    Or(Vec<Expr>),
    If(Box<Expr>, Box<Expr>, Box<Expr>),
    Match(Box<Expr>, Vec<MatchArm>),
}

/// A type annotation.
pub enum Ty {
    Num,
    Bool,
    Item,
    Fn(Vec<Ty>, Box<Ty>),
    List(Box<Ty>),
    Name(Path),
}

} // verus!
