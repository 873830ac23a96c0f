//! The text syntax of a diagram.
//!
//! ```ebnf
//! program = PAD, erd_module, PAD ;
//! erd_module = "erd", PAD, [ identifier, PAD ], "{", PAD, module_entries, PAD, "}", PAD ;
//! module_entries = module_entry, { SP, SEP, PAD, module_entry }
//!                | EMPTY
//! module_entry = definition | stmt ;
//! definition = entity_definition ;
//! stmt = relation ;
//! entity_definition = identifier, PAD, "{", entity_fields, "}" ;
//! entity_fields = PAD, entity_field, { SP, SEP, PAD, entity_field }, PAD
//!               | EMPTY ;
//! entity_field = identifier, SP, entity_field_type, [ SP, entity_field_key ] ;
//! entity_field_type = "int" | "uuid" | "text" | "timestamp" ;
//! entity_field_key = "PK" | "FK" ;
//! relation = entity, { PAD, edge, PAD, entity } ;
//! entity = identifier, [ ".", identifier ] ;
//! edge = "o", "--", "o" ;
//! identifier = identifier_start, { identifier_continue } ;
//! identifier_start = "_" | letter ;
//! identifier_continue = "_" | letter | digit ;
//! letter = ? a-zA-Z ? ;
//! digit = ? 0-9 ? ;
//! whitespace = ? whitespace ? ;
//! newline = "\n" | "\r\n" ;
//! PAD = { whitespace | newline } ;
//! SP = { " " | "\t" } ;
//! SEP = newline | ";" ;
//! EMPTY = ? (empty) ? ;
//! ```
//!
//! The grammar is read as a parsing expression grammar: each repetition and
//! option takes as much as it can, an identifier takes every identifier
//! character that follows it, a keyword is an identifier equal to it, and
//! the alternatives of `module_entry` are tried in order.
use vstd::prelude::*;

use crate::erd::{EntityFieldKey, EntityFieldType};
use crate::text::{push_char, push_string};

pub mod diagram;
pub mod read_back;
pub mod spacing;

verus! {

// ---------------------------------------------------------------------------
// The syntax tree
// ---------------------------------------------------------------------------

/// A parsed diagram: its optional name and its entries in order.
#[derive(Debug)]
pub struct ErdModule {
    pub name: Option<String>,
    pub entries: Vec<ModuleEntry>,
}

#[derive(Debug)]
pub enum ModuleEntry {
    Definition(Definition),
    Stmt(Stmt),
}

#[derive(Debug, Clone)]
pub enum Definition {
    EntityDefinition(EntityDefinition),
}

#[derive(Debug)]
pub enum Stmt {
    Expr(Expr),
}

#[derive(Debug, Clone)]
pub struct EntityDefinition {
    pub name: String,
    pub fields: Vec<EntityField>,
}

#[derive(Debug, Clone)]
pub struct EntityField {
    pub name: String,
    pub field_type: EntityFieldType,
    pub field_key: Option<EntityFieldKey>,
}

/// An expression: a path, or a relation between two expressions (a chain
/// `a o--o b o--o c` nests to the left).
#[derive(Debug)]
pub enum Expr {
    Relation(Box<Expr>, Box<Expr>),
    Entity(EntityPath),
}

#[derive(Debug, Clone)]
pub enum EntityPath {
    Table(String),
    Column(String, String),
}

// ---------------------------------------------------------------------------
// What the syntax tree holds
// ---------------------------------------------------------------------------

pub enum PathView {
    Table(Seq<char>),
    Column(Seq<char>, Seq<char>),
}

pub enum ExprView {
    Relation(Box<ExprView>, Box<ExprView>),
    Entity(PathView),
}

pub struct FieldView {
    pub name: Seq<char>,
    pub field_type: EntityFieldType,
    pub field_key: Option<EntityFieldKey>,
}

pub struct DefinitionView {
    pub name: Seq<char>,
    pub fields: Seq<FieldView>,
}

pub enum EntryView {
    Definition(DefinitionView),
    Stmt(ExprView),
}

pub struct ModuleView {
    pub name: Option<Seq<char>>,
    pub entries: Seq<EntryView>,
}

impl View for EntityPath {
    type V = PathView;

    open spec fn view(&self) -> PathView {
        match self {
            EntityPath::Table(t) => PathView::Table(t@),
            EntityPath::Column(t, c) => PathView::Column(t@, c@),
        }
    }
}

/// What an expression holds.
pub open spec fn expr_view(e: Expr) -> ExprView
    decreases e,
{
    match e {
        Expr::Relation(a, b) => ExprView::Relation(Box::new(expr_view(*a)), Box::new(expr_view(*b))),
        Expr::Entity(p) => ExprView::Entity(p@),
    }
}

impl View for Expr {
    type V = ExprView;

    open spec fn view(&self) -> ExprView {
        expr_view(*self)
    }
}

impl View for EntityField {
    type V = FieldView;

    open spec fn view(&self) -> FieldView {
        FieldView { name: self.name@, field_type: self.field_type, field_key: self.field_key }
    }
}

impl View for EntityDefinition {
    type V = DefinitionView;

    open spec fn view(&self) -> DefinitionView {
        DefinitionView { name: self.name@, fields: self.fields@.map_values(|f: EntityField| f@) }
    }
}

impl View for ModuleEntry {
    type V = EntryView;

    open spec fn view(&self) -> EntryView {
        match self {
            ModuleEntry::Definition(Definition::EntityDefinition(d)) => EntryView::Definition(d@),
            ModuleEntry::Stmt(Stmt::Expr(e)) => EntryView::Stmt(e@),
        }
    }
}

impl View for ErdModule {
    type V = ModuleView;

    open spec fn view(&self) -> ModuleView {
        ModuleView {
            name: match self.name {
                Some(n) => Some(n@),
                None => None,
            },
            entries: self.entries@.map_values(|e: ModuleEntry| e@),
        }
    }
}

// ---------------------------------------------------------------------------
// Characters
// ---------------------------------------------------------------------------

/// A character with the Unicode `White_Space` property.
pub open spec fn is_white_space(c: char) -> bool {
    ||| '\t' <= c <= '\r'
    ||| c == ' '
    ||| c == '\u{85}'
    ||| c == '\u{A0}'
    ||| c == '\u{1680}'
    ||| '\u{2000}' <= c <= '\u{200A}'
    ||| c == '\u{2028}'
    ||| c == '\u{2029}'
    ||| c == '\u{202F}'
    ||| c == '\u{205F}'
    ||| c == '\u{3000}'
}

/// A blank within a line: a space or a tab.
pub open spec fn is_blank(c: char) -> bool {
    c == ' ' || c == '\t'
}

/// An ASCII letter.
pub open spec fn is_letter(c: char) -> bool {
    ('a' <= c <= 'z') || ('A' <= c <= 'Z')
}

/// A character that may start an identifier.
pub open spec fn is_ident_start(c: char) -> bool {
    is_letter(c) || c == '_'
}

/// A character that may continue an identifier.
pub open spec fn is_ident_continue(c: char) -> bool {
    is_letter(c) || c == '_' || ('0' <= c <= '9')
}

fn white_space(c: char) -> (r: bool)
    ensures
        r == is_white_space(c),
{
    ('\t' <= c && c <= '\r') || c == ' ' || c == '\u{85}' || c == '\u{A0}' || c == '\u{1680}' || (
    '\u{2000}' <= c && c <= '\u{200A}') || c == '\u{2028}' || c == '\u{2029}' || c == '\u{202F}' || c
        == '\u{205F}' || c == '\u{3000}'
}

fn ident_start(c: char) -> (r: bool)
    ensures
        r == is_ident_start(c),
{
    ('a' <= c && c <= 'z') || ('A' <= c && c <= 'Z') || c == '_'
}

fn ident_continue(c: char) -> (r: bool)
    ensures
        r == is_ident_continue(c),
{
    ('a' <= c && c <= 'z') || ('A' <= c && c <= 'Z') || c == '_' || ('0' <= c && c <= '9')
}

// ---------------------------------------------------------------------------
// The grammar, position by position
// ---------------------------------------------------------------------------

/// The end of the run of white space (`PAD`) that starts at `i`.
pub open spec fn pad_end(s: Seq<char>, i: int) -> int
    decreases s.len() - i,
{
    if 0 <= i < s.len() && is_white_space(s[i]) {
        pad_end(s, i + 1)
    } else {
        i
    }
}

/// The end of the run of blanks (`SP`) that starts at `i`.
pub open spec fn blank_end(s: Seq<char>, i: int) -> int
    decreases s.len() - i,
{
    if 0 <= i < s.len() && is_blank(s[i]) {
        blank_end(s, i + 1)
    } else {
        i
    }
}

/// The end of the run of identifier characters that starts at `i`.
pub open spec fn ident_tail_end(s: Seq<char>, i: int) -> int
    decreases s.len() - i,
{
    if 0 <= i < s.len() && is_ident_continue(s[i]) {
        ident_tail_end(s, i + 1)
    } else {
        i
    }
}

/// The identifier at `i` and the position after it.
pub open spec fn p_ident(s: Seq<char>, i: int) -> Option<(Seq<char>, int)> {
    if 0 <= i < s.len() && is_ident_start(s[i]) {
        let j = ident_tail_end(s, i + 1);
        Some((s.subrange(i, j), j))
    } else {
        None
    }
}

/// Whether the characters of `t` stand at `i`.
pub open spec fn at(s: Seq<char>, i: int, t: Seq<char>) -> bool {
    0 <= i && i + t.len() <= s.len() && s.subrange(i, i + t.len()) == t
}

/// A separator (`SEP`) at `i`, and the position after it.
pub open spec fn p_sep(s: Seq<char>, i: int) -> Option<int> {
    if at(s, i, seq!['\n']) {
        Some(i + 1)
    } else if at(s, i, seq!['\r', '\n']) {
        Some(i + 2)
    } else if at(s, i, seq![';']) {
        Some(i + 1)
    } else {
        None
    }
}

/// The type keyword at `i`.
pub open spec fn p_field_type(s: Seq<char>, i: int) -> Option<(EntityFieldType, int)> {
    match p_ident(s, i) {
        Some((w, j)) => if w == EntityFieldType::Int.spec_text() {
            Some((EntityFieldType::Int, j))
        } else if w == EntityFieldType::Uuid.spec_text() {
            Some((EntityFieldType::Uuid, j))
        } else if w == EntityFieldType::Text.spec_text() {
            Some((EntityFieldType::Text, j))
        } else if w == EntityFieldType::Timestamp.spec_text() {
            Some((EntityFieldType::Timestamp, j))
        } else {
            None
        },
        None => None,
    }
}

/// The key keyword at `i`.
pub open spec fn p_field_key(s: Seq<char>, i: int) -> Option<(EntityFieldKey, int)> {
    match p_ident(s, i) {
        Some((w, j)) => if w == EntityFieldKey::PrimaryKey.spec_keyword() {
            Some((EntityFieldKey::PrimaryKey, j))
        } else if w == EntityFieldKey::ForeginKey.spec_keyword() {
            Some((EntityFieldKey::ForeginKey, j))
        } else {
            None
        },
        None => None,
    }
}

/// A field at `i`: its name, blanks, its type, and, if blanks and a key
/// follow, its key.
pub open spec fn p_field(s: Seq<char>, i: int) -> Option<(FieldView, int)> {
    match p_ident(s, i) {
        Some((name, j)) => match p_field_type(s, blank_end(s, j)) {
            Some((t, k)) => match p_field_key(s, blank_end(s, k)) {
                Some((key, l)) => Some((FieldView { name, field_type: t, field_key: Some(key) }, l)),
                None => Some((FieldView { name, field_type: t, field_key: None }, k)),
            },
            None => None,
        },
        None => None,
    }
}

/// A further field after the one that ends at `j`: blanks, a separator,
/// white space and the field.
pub open spec fn p_field_step(s: Seq<char>, j: int) -> Option<(FieldView, int)> {
    match p_sep(s, blank_end(s, j)) {
        Some(k) => p_field(s, pad_end(s, k)),
        None => None,
    }
}

/// The fields `acc` followed by as many further fields as stand from `j`
/// on, and the position after the last one.
pub open spec fn fields_rest(s: Seq<char>, j: int, acc: Seq<FieldView>) -> (Seq<FieldView>, int)
    decreases s.len() - j,
{
    match p_field_step(s, j) {
        Some((f, k)) => if j < k <= s.len() {
            fields_rest(s, k, acc.push(f))
        } else {
            (acc, j)
        },
        None => (acc, j),
    }
}

/// The fields of a definition body at `i` (none when no field stands
/// there), with the white space around them.
pub open spec fn p_fields(s: Seq<char>, i: int) -> (Seq<FieldView>, int) {
    let a = pad_end(s, i);
    match p_field(s, a) {
        Some((f, j)) => {
            let (fields, k) = fields_rest(s, j, seq![f]);
            (fields, pad_end(s, k))
        },
        None => (Seq::empty(), pad_end(s, a)),
    }
}

/// An entity definition at `i`: its name, `{`, its fields and `}`.
pub open spec fn p_definition(s: Seq<char>, i: int) -> Option<(DefinitionView, int)> {
    match p_ident(s, i) {
        Some((name, j)) => {
            let a = pad_end(s, j);
            if at(s, a, seq!['{']) {
                let (fields, b) = p_fields(s, pad_end(s, a + 1));
                if at(s, b, seq!['}']) {
                    Some((DefinitionView { name, fields }, b + 1))
                } else {
                    None
                }
            } else {
                None
            }
        },
        None => None,
    }
}

/// A path at `i`: an entity, or an entity, `.` and a field.
pub open spec fn p_path(s: Seq<char>, i: int) -> Option<(PathView, int)> {
    match p_ident(s, i) {
        Some((t, j)) => if at(s, j, seq!['.']) {
            match p_ident(s, j + 1) {
                Some((c, k)) => Some((PathView::Column(t, c), k)),
                None => Some((PathView::Table(t), j)),
            }
        } else {
            Some((PathView::Table(t), j))
        },
        None => None,
    }
}

/// The edge `o--o`.
pub open spec fn edge_text() -> Seq<char> {
    seq!['o', '-', '-', 'o']
}

/// A further end of a relation after position `j`: white space, the edge,
/// white space and a path.
pub open spec fn p_relation_step(s: Seq<char>, j: int) -> Option<(PathView, int)> {
    let a = pad_end(s, j);
    if at(s, a, edge_text()) {
        p_path(s, pad_end(s, a + 4))
    } else {
        None
    }
}

/// The expression `acc` joined, from the left, to as many further ends as
/// stand from `j` on.
pub open spec fn relation_rest(s: Seq<char>, j: int, acc: ExprView) -> (ExprView, int)
    decreases s.len() - j,
{
    match p_relation_step(s, j) {
        Some((p, k)) => if j < k <= s.len() {
            relation_rest(s, k, ExprView::Relation(Box::new(acc), Box::new(ExprView::Entity(p))))
        } else {
            (acc, j)
        },
        None => (acc, j),
    }
}

/// A relation at `i`: a path and its further ends.
pub open spec fn p_relation(s: Seq<char>, i: int) -> Option<(ExprView, int)> {
    match p_path(s, i) {
        Some((p, j)) => Some(relation_rest(s, j, ExprView::Entity(p))),
        None => None,
    }
}

/// An entry at `i`: a definition if one stands there, else a relation.
pub open spec fn p_entry(s: Seq<char>, i: int) -> Option<(EntryView, int)> {
    match p_definition(s, i) {
        Some((d, j)) => Some((EntryView::Definition(d), j)),
        None => match p_relation(s, i) {
            Some((e, j)) => Some((EntryView::Stmt(e), j)),
            None => None,
        },
    }
}

/// A further entry after the one that ends at `j`: blanks, a separator,
/// white space and the entry.
pub open spec fn p_entry_step(s: Seq<char>, j: int) -> Option<(EntryView, int)> {
    match p_sep(s, blank_end(s, j)) {
        Some(k) => p_entry(s, pad_end(s, k)),
        None => None,
    }
}

/// The entries `acc` followed by as many further entries as stand from `j`
/// on, and the position after the last one.
pub open spec fn entries_rest(s: Seq<char>, j: int, acc: Seq<EntryView>) -> (Seq<EntryView>, int)
    decreases s.len() - j,
{
    match p_entry_step(s, j) {
        Some((e, k)) => if j < k <= s.len() {
            entries_rest(s, k, acc.push(e))
        } else {
            (acc, j)
        },
        None => (acc, j),
    }
}

/// The entries of a module body at `i` (none when no entry stands there),
/// with the white space around them.
pub open spec fn p_entries(s: Seq<char>, i: int) -> (Seq<EntryView>, int) {
    let a = pad_end(s, i);
    match p_entry(s, a) {
        Some((e, j)) => {
            let (entries, k) = entries_rest(s, j, seq![e]);
            (entries, pad_end(s, k))
        },
        None => (Seq::empty(), pad_end(s, a)),
    }
}

/// A module at `i`: `erd`, an optional name, `{`, its entries, `}`, and the
/// white space after it.
pub open spec fn p_module(s: Seq<char>, i: int) -> Option<(ModuleView, int)> {
    if at(s, i, seq!['e', 'r', 'd']) {
        let (name, k) = match p_ident(s, pad_end(s, i + 3)) {
            Some((n, l)) => (Some(n), pad_end(s, l)),
            None => (None, i + 3),
        };
        let a = pad_end(s, k);
        if at(s, a, seq!['{']) {
            let (entries, b) = p_entries(s, pad_end(s, a + 1));
            let c = pad_end(s, b);
            if at(s, c, seq!['}']) {
                Some((ModuleView { name, entries }, pad_end(s, c + 1)))
            } else {
                None
            }
        } else {
            None
        }
    } else {
        None
    }
}

/// The module that the whole text `s` spells, with white space around it,
/// if it spells one.
pub open spec fn p_program(s: Seq<char>) -> Option<ModuleView> {
    match p_module(s, pad_end(s, 0)) {
        Some((m, j)) => if pad_end(s, j) == s.len() {
            Some(m)
        } else {
            None
        },
        None => None,
    }
}

// ---------------------------------------------------------------------------
// How far the grammar reads
// ---------------------------------------------------------------------------

/// The larger of two positions.
pub open spec fn furthest(a: int, b: int) -> int {
    if a < b {
        b
    } else {
        a
    }
}

/// How far an attempt at an identifier at `i` looks: past the identifier,
/// or at `i` when none stands there.
pub open spec fn r_ident(s: Seq<char>, i: int) -> int {
    match p_ident(s, i) {
        Some((_, j)) => j,
        None => i,
    }
}

/// How far an attempt at a type keyword at `i` looks: past the keyword, or
/// at `i` when none stands there.
pub open spec fn r_field_type(s: Seq<char>, i: int) -> int {
    match p_field_type(s, i) {
        Some((_, j)) => j,
        None => i,
    }
}

/// How far an attempt at a key keyword at `i` looks.
pub open spec fn r_field_key(s: Seq<char>, i: int) -> int {
    match p_field_key(s, i) {
        Some((_, j)) => j,
        None => i,
    }
}

/// How far an attempt at a field at `i` looks.
pub open spec fn r_field(s: Seq<char>, i: int) -> int {
    match p_ident(s, i) {
        Some((_, j)) => {
            let b = blank_end(s, j);
            match p_field_type(s, b) {
                Some((_, k)) => furthest(k, r_field_key(s, blank_end(s, k))),
                None => b,
            }
        },
        None => i,
    }
}

/// How far an attempt at a further field after `j` looks.
pub open spec fn r_field_step(s: Seq<char>, j: int) -> int {
    let b = blank_end(s, j);
    match p_sep(s, b) {
        Some(k) => furthest(b, r_field(s, pad_end(s, k))),
        None => b,
    }
}

/// How far the further fields from `j` on are looked at.
pub open spec fn r_fields_rest(s: Seq<char>, j: int) -> int
    decreases s.len() - j,
{
    let r = r_field_step(s, j);
    match p_field_step(s, j) {
        Some((_, k)) => if j < k <= s.len() {
            furthest(r, r_fields_rest(s, k))
        } else {
            r
        },
        None => r,
    }
}

/// How far the fields of a definition body at `i` are looked at.
pub open spec fn r_fields(s: Seq<char>, i: int) -> int {
    let a = pad_end(s, i);
    match p_field(s, a) {
        Some((f, j)) => furthest(furthest(r_field(s, a), r_fields_rest(s, j)), p_fields(s, i).1),
        None => furthest(r_field(s, a), pad_end(s, a)),
    }
}

/// How far an attempt at a definition at `i` looks.
pub open spec fn r_definition(s: Seq<char>, i: int) -> int {
    match p_ident(s, i) {
        Some((_, j)) => {
            let a = pad_end(s, j);
            if at(s, a, seq!['{']) {
                let b0 = pad_end(s, a + 1);
                furthest(b0, furthest(r_fields(s, b0), p_fields(s, b0).1))
            } else {
                a
            }
        },
        None => i,
    }
}

/// How far an attempt at a path at `i` looks.
pub open spec fn r_path(s: Seq<char>, i: int) -> int {
    match p_ident(s, i) {
        Some((_, j)) => if at(s, j, seq!['.']) {
            furthest(j, r_ident(s, j + 1))
        } else {
            j
        },
        None => i,
    }
}

/// How far an attempt at a further end of a relation after `j` looks.
pub open spec fn r_relation_step(s: Seq<char>, j: int) -> int {
    let a = pad_end(s, j);
    if at(s, a, edge_text()) {
        let b = pad_end(s, a + 4);
        furthest(b, r_path(s, b))
    } else {
        a
    }
}

/// How far the further ends of a relation from `j` on are looked at.
pub open spec fn r_relation_rest(s: Seq<char>, j: int) -> int
    decreases s.len() - j,
{
    let r = r_relation_step(s, j);
    match p_relation_step(s, j) {
        Some((_, k)) => if j < k <= s.len() {
            furthest(r, r_relation_rest(s, k))
        } else {
            r
        },
        None => r,
    }
}

/// How far an attempt at a relation at `i` looks.
pub open spec fn r_relation(s: Seq<char>, i: int) -> int {
    match p_path(s, i) {
        Some((_, j)) => furthest(r_path(s, i), r_relation_rest(s, j)),
        None => r_path(s, i),
    }
}

/// How far an attempt at an entry at `i` looks: the relation is tried only
/// when no definition stands there.
pub open spec fn r_entry(s: Seq<char>, i: int) -> int {
    match p_definition(s, i) {
        Some(_) => r_definition(s, i),
        None => furthest(r_definition(s, i), r_relation(s, i)),
    }
}

/// How far an attempt at a further entry after `j` looks.
pub open spec fn r_entry_step(s: Seq<char>, j: int) -> int {
    let b = blank_end(s, j);
    match p_sep(s, b) {
        Some(k) => furthest(b, r_entry(s, pad_end(s, k))),
        None => b,
    }
}

/// How far the further entries from `j` on are looked at.
pub open spec fn r_entries_rest(s: Seq<char>, j: int) -> int
    decreases s.len() - j,
{
    let r = r_entry_step(s, j);
    match p_entry_step(s, j) {
        Some((_, k)) => if j < k <= s.len() {
            furthest(r, r_entries_rest(s, k))
        } else {
            r
        },
        None => r,
    }
}

/// How far the entries of a module body at `i` are looked at.
pub open spec fn r_entries(s: Seq<char>, i: int) -> int {
    let a = pad_end(s, i);
    match p_entry(s, a) {
        Some((e, j)) => furthest(furthest(r_entry(s, a), r_entries_rest(s, j)), p_entries(s, i).1),
        None => furthest(r_entry(s, a), pad_end(s, a)),
    }
}

/// How far an attempt at a module at `i` looks.
pub open spec fn r_module(s: Seq<char>, i: int) -> int {
    if at(s, i, seq!['e', 'r', 'd']) {
        let j0 = pad_end(s, i + 3);
        let (k, rn) = match p_ident(s, j0) {
            Some((_, l)) => (pad_end(s, l), pad_end(s, l)),
            None => (i + 3, j0),
        };
        let a = pad_end(s, k);
        furthest(
            furthest(rn, a),
            if at(s, a, seq!['{']) {
                let b0 = pad_end(s, a + 1);
                let b = p_entries(s, b0).1;
                let c = pad_end(s, b);
                furthest(
                    furthest(b0, r_entries(s, b0)),
                    if at(s, c, seq!['}']) {
                        pad_end(s, c + 1)
                    } else {
                        c
                    },
                )
            } else {
                a
            },
        )
    } else {
        i
    }
}

/// How far the parser looks into the text `s`.
pub open spec fn r_program(s: Seq<char>) -> int {
    let a = pad_end(s, 0);
    match p_module(s, a) {
        Some((_, j)) => furthest(furthest(a, r_module(s, a)), pad_end(s, j)),
        None => furthest(a, r_module(s, a)),
    }
}

// ---------------------------------------------------------------------------
// Reading the grammar
// ---------------------------------------------------------------------------

proof fn lemma_pad_end(s: Seq<char>, i: int)
    requires
        0 <= i <= s.len(),
    ensures
        i <= pad_end(s, i) <= s.len(),
    decreases s.len() - i,
{
    if i < s.len() && is_white_space(s[i]) {
        lemma_pad_end(s, i + 1);
    }
}

proof fn lemma_blank_end(s: Seq<char>, i: int)
    requires
        0 <= i <= s.len(),
    ensures
        i <= blank_end(s, i) <= s.len(),
    decreases s.len() - i,
{
    if i < s.len() && is_blank(s[i]) {
        lemma_blank_end(s, i + 1);
    }
}

proof fn lemma_ident_tail_end(s: Seq<char>, i: int)
    requires
        0 <= i <= s.len(),
    ensures
        i <= ident_tail_end(s, i) <= s.len(),
    decreases s.len() - i,
{
    if i < s.len() && is_ident_continue(s[i]) {
        lemma_ident_tail_end(s, i + 1);
    }
}

fn skip_pad(s: &Vec<char>, i: usize) -> (r: usize)
    requires
        i <= s.len(),
    ensures
        r == pad_end(s@, i as int),
        i <= r <= s.len(),
{
    let mut j = i;
    while j < s.len() && white_space(s[j])
        invariant
            i <= j <= s.len(),
            pad_end(s@, j as int) == pad_end(s@, i as int),
        decreases s.len() - j,
    {
        j += 1;
    }
    j
}

fn skip_blanks(s: &Vec<char>, i: usize) -> (r: usize)
    requires
        i <= s.len(),
    ensures
        r == blank_end(s@, i as int),
        i <= r <= s.len(),
{
    let mut j = i;
    while j < s.len() && (s[j] == ' ' || s[j] == '\t')
        invariant
            i <= j <= s.len(),
            blank_end(s@, j as int) == blank_end(s@, i as int),
        decreases s.len() - j,
    {
        j += 1;
    }
    j
}

/// Records that the parser looked as far as `p`.
fn note(reach: &mut usize, p: usize)
    ensures
        *final(reach) == furthest(*old(reach) as int, p as int),
{
    if p > *reach {
        *reach = p;
    }
}

/// The characters of `s` from `i` to `j`, as a `String`.
fn slice_string(s: &Vec<char>, i: usize, j: usize) -> (r: String)
    requires
        i <= j <= s.len(),
    ensures
        r@ == s@.subrange(i as int, j as int),
{
    let mut r = String::new();
    let mut k = i;
    while k < j
        invariant
            i <= k <= j <= s.len(),
            r@ == s@.subrange(i as int, k as int),
        decreases j - k,
    {
        push_char(&mut r, s[k]);
        proof {
            assert(s@.subrange(i as int, k + 1) =~= s@.subrange(i as int, k as int).push(s@[k as int]));
        }
        k += 1;
    }
    r
}

/// The end of the identifier at `i`, if one stands there.
fn scan_ident(s: &Vec<char>, i: usize) -> (r: Option<usize>)
    requires
        i <= s.len(),
    ensures
        match p_ident(s@, i as int) {
            Some((t, j)) => r matches Some(k) && k == j && t == s@.subrange(i as int, j) && i < j <= s.len(),
            None => r is None,
        },
{
    if i < s.len() && ident_start(s[i]) {
        let mut j = i + 1;
        while j < s.len() && ident_continue(s[j])
            invariant
                i < j <= s.len(),
                ident_tail_end(s@, j as int) == ident_tail_end(s@, i + 1),
            decreases s.len() - j,
        {
            j += 1;
        }
        Some(j)
    } else {
        None
    }
}

fn parse_ident(s: &Vec<char>, i: usize) -> (r: Option<(String, usize)>)
    requires
        i <= s.len(),
    ensures
        match p_ident(s@, i as int) {
            Some((t, j)) => r matches Some((u, k)) && u@ == t && k == j,
            None => r is None,
        },
        r matches Some((u, k)) ==> i < k <= s.len(),
{
    match scan_ident(s, i) {
        Some(j) => Some((slice_string(s, i, j), j)),
        None => None,
    }
}

/// Whether the characters of `t` stand at `i`.
fn at_text(s: &Vec<char>, i: usize, t: &str) -> (r: bool)
    requires
        i <= s.len(),
        t@.len() <= 16,
    ensures
        r == at(s@, i as int, t@),
        r ==> i + t@.len() <= s.len(),
{
    let n = t.unicode_len();
    if n > s.len() - i {
        return false;
    }
    let mut k: usize = 0;
    while k < n
        invariant
            0 <= k <= n,
            n == t@.len(),
            i + n <= s.len(),
            s@.subrange(i as int, i + k) == t@.subrange(0, k as int),
        decreases n - k,
    {
        if s[i + k] != t.get_char(k) {
            proof {
                assert(s@.subrange(i as int, i + n)[k as int] != t@[k as int]);
            }
            return false;
        }
        proof {
            assert(s@.subrange(i as int, i + k + 1) =~= t@.subrange(0, k + 1));
        }
        k += 1;
    }
    proof {
        assert(t@.subrange(0, n as int) =~= t@);
    }
    true
}

/// The characters of `input`, in order.
fn chars_of(input: &str) -> (r: Vec<char>)
    ensures
        r@ == input@,
{
    let mut r: Vec<char> = Vec::new();
    for c in it: input.chars()
        invariant
            r@ == it.seq().take(it.index() as int),
    {
        r.push(c);
        proof {
            assert(it.seq().take(it.index() + 1) =~= it.seq().take(it.index() as int).push(c));
        }
    }
    r
}

/// Whether the characters from `i` to `j` are those of `t`.
fn word_is(s: &Vec<char>, i: usize, j: usize, t: &str) -> (r: bool)
    requires
        i <= j <= s.len(),
        t@.len() <= 16,
    ensures
        r == (s@.subrange(i as int, j as int) == t@),
{
    if j - i != t.unicode_len() {
        proof {
            if s@.subrange(i as int, j as int) == t@ {
                assert(s@.subrange(i as int, j as int).len() == j - i);
            }
        }
        false
    } else {
        at_text(s, i, t)
    }
}

fn parse_field_type(s: &Vec<char>, i: usize, reach: &mut usize) -> (r: Option<(EntityFieldType, usize)>)
    requires
        i <= s.len(),
    ensures
        *final(reach) == furthest(*old(reach) as int, r_field_type(s@, i as int)),
        match p_field_type(s@, i as int) {
            Some((t, j)) => r matches Some((u, k)) && u == t && k == j,
            None => r is None,
        },
        r matches Some((t, k)) ==> i < k <= s.len(),
{
    proof {
        reveal_strlit("int");
        assert("int"@ =~= seq!['i', 'n', 't']);
        reveal_strlit("uuid");
        assert("uuid"@ =~= seq!['u', 'u', 'i', 'd']);
        reveal_strlit("text");
        assert("text"@ =~= seq!['t', 'e', 'x', 't']);
        reveal_strlit("timestamp");
        assert("timestamp"@ =~= seq!['t', 'i', 'm', 'e', 's', 't', 'a', 'm', 'p']);
    }
    let r = match scan_ident(s, i) {
        Some(j) => {
            if word_is(s, i, j, "int") {
                Some((EntityFieldType::Int, j))
            } else if word_is(s, i, j, "uuid") {
                Some((EntityFieldType::Uuid, j))
            } else if word_is(s, i, j, "text") {
                Some((EntityFieldType::Text, j))
            } else if word_is(s, i, j, "timestamp") {
                Some((EntityFieldType::Timestamp, j))
            } else {
                None
            }
        },
        None => None,
    };
    match r {
        Some((_, j)) => note(reach, j),
        None => note(reach, i),
    }
    r
}

fn parse_field_key(s: &Vec<char>, i: usize, reach: &mut usize) -> (r: Option<(EntityFieldKey, usize)>)
    requires
        i <= s.len(),
    ensures
        *final(reach) == furthest(*old(reach) as int, r_field_key(s@, i as int)),
        match p_field_key(s@, i as int) {
            Some((t, j)) => r matches Some((u, k)) && u == t && k == j,
            None => r is None,
        },
        r matches Some((t, k)) ==> i < k <= s.len(),
{
    proof {
        reveal_strlit("PK");
        assert("PK"@ =~= seq!['P', 'K']);
        reveal_strlit("FK");
        assert("FK"@ =~= seq!['F', 'K']);
    }
    let r = match scan_ident(s, i) {
        Some(j) => {
            if word_is(s, i, j, "PK") {
                Some((EntityFieldKey::PrimaryKey, j))
            } else if word_is(s, i, j, "FK") {
                Some((EntityFieldKey::ForeginKey, j))
            } else {
                None
            }
        },
        None => None,
    };
    match r {
        Some((_, j)) => note(reach, j),
        None => note(reach, i),
    }
    r
}

fn parse_field(s: &Vec<char>, i: usize, reach: &mut usize) -> (r: Option<(EntityField, usize)>)
    requires
        i <= s.len(),
    ensures
        *final(reach) == furthest(*old(reach) as int, r_field(s@, i as int)),
        match p_field(s@, i as int) {
            Some((f, j)) => r matches Some((g, k)) && g@ == f && k == j,
            None => r is None,
        },
        r matches Some((g, k)) ==> i < k <= s.len(),
{
    let (name, j) = match parse_ident(s, i) {
        Some(x) => x,
        None => {
            note(reach, i);
            return None;
        },
    };
    let (field_type, k) = match parse_field_type(s, skip_blanks(s, j), reach) {
        Some(x) => x,
        None => return None,
    };
    match parse_field_key(s, skip_blanks(s, k), reach) {
        Some((key, l)) => Some((EntityField { name, field_type, field_key: Some(key) }, l)),
        None => Some((EntityField { name, field_type, field_key: None }, k)),
    }
}

fn parse_sep(s: &Vec<char>, i: usize) -> (r: Option<usize>)
    requires
        i <= s.len(),
    ensures
        match p_sep(s@, i as int) {
            Some(j) => r matches Some(k) && k == j,
            None => r is None,
        },
        r matches Some(j) ==> i < j <= s.len(),
{
    proof {
        reveal_strlit("\n");
        assert("\n"@ =~= seq!['\n']);
        reveal_strlit("\r\n");
        assert("\r\n"@ =~= seq!['\r', '\n']);
        reveal_strlit(";");
        assert(";"@ =~= seq![';']);
    }
    if at_text(s, i, "\n") {
        Some(i + 1)
    } else if at_text(s, i, "\r\n") {
        Some(i + 2)
    } else if at_text(s, i, ";") {
        Some(i + 1)
    } else {
        None
    }
}

fn parse_field_step(s: &Vec<char>, j: usize, reach: &mut usize) -> (r: Option<(EntityField, usize)>)
    requires
        j <= s.len(),
    ensures
        *final(reach) == furthest(*old(reach) as int, r_field_step(s@, j as int)),
        match p_field_step(s@, j as int) {
            Some((f, k)) => r matches Some((g, l)) && g@ == f && l == k,
            None => r is None,
        },
        r matches Some((g, k)) ==> j < k <= s.len(),
{
    let b = skip_blanks(s, j);
    note(reach, b);
    match parse_sep(s, b) {
        Some(k) => parse_field(s, skip_pad(s, k), reach),
        None => None,
    }
}

/// What a list of fields holds.
pub open spec fn field_views(v: Seq<EntityField>) -> Seq<FieldView> {
    v.map_values(|f: EntityField| f@)
}

fn parse_fields(s: &Vec<char>, i: usize, reach: &mut usize) -> (r: (Vec<EntityField>, usize))
    requires
        i <= s.len(),
    ensures
        *final(reach) == furthest(*old(reach) as int, r_fields(s@, i as int)),
        field_views(r.0@) == p_fields(s@, i as int).0,
        r.1 == p_fields(s@, i as int).1,
        i <= r.1 <= s.len(),
{
    let a = skip_pad(s, i);
    match parse_field(s, a, reach) {
        Some((f, j0)) => {
            let ghost target = fields_rest(s@, j0 as int, seq![f@]);
            let ghost target_reach = furthest(*reach as int, r_fields_rest(s@, j0 as int));
            let mut fields: Vec<EntityField> = Vec::new();
            fields.push(f);
            let mut j = j0;
            proof {
                assert(field_views(fields@) =~= seq![f@]);
            }
            loop
                invariant
                    i <= j <= s.len(),
                    fields_rest(s@, j as int, field_views(fields@)) == target,
                    furthest(*reach as int, r_fields_rest(s@, j as int)) == target_reach,
                ensures
                    i <= j <= s.len(),
                    fields_rest(s@, j as int, field_views(fields@)) == target,
                    p_field_step(s@, j as int) is None,
                    *reach == target_reach,
                decreases s.len() - j,
            {
                match parse_field_step(s, j, reach) {
                    Some((g, k)) => {
                        let ghost before = fields@;
                        fields.push(g);
                        proof {
                            assert(field_views(fields@) =~= field_views(before).push(g@));
                        }
                        j = k;
                    },
                    None => {
                        break;
                    },
                }
            }
            let end = skip_pad(s, j);
            note(reach, end);
            (fields, end)
        },
        None => {
            proof {
                assert(field_views(Seq::<EntityField>::empty()) =~= Seq::<FieldView>::empty());
            }
            let end = skip_pad(s, a);
            note(reach, end);
            (Vec::new(), end)
        },
    }
}

fn parse_definition(s: &Vec<char>, i: usize, reach: &mut usize) -> (r: Option<(EntityDefinition, usize)>)
    requires
        i <= s.len(),
    ensures
        *final(reach) == furthest(*old(reach) as int, r_definition(s@, i as int)),
        match p_definition(s@, i as int) {
            Some((d, j)) => r matches Some((e, k)) && e@ == d && k == j,
            None => r is None,
        },
        r matches Some((e, k)) ==> i < k <= s.len(),
{
    proof {
        reveal_strlit("{");
        assert("{"@ =~= seq!['{']);
        reveal_strlit("}");
        assert("}"@ =~= seq!['}']);
    }
    let (name, j) = match parse_ident(s, i) {
        Some(x) => x,
        None => {
            note(reach, i);
            return None;
        },
    };
    let a = skip_pad(s, j);
    if !at_text(s, a, "{") {
        note(reach, a);
        return None;
    }
    let b0 = skip_pad(s, a + 1);
    note(reach, b0);
    let (fields, b) = parse_fields(s, b0, reach);
    note(reach, b);
    if !at_text(s, b, "}") {
        return None;
    }
    Some((EntityDefinition { name, fields }, b + 1))
}

fn parse_path(s: &Vec<char>, i: usize, reach: &mut usize) -> (r: Option<(EntityPath, usize)>)
    requires
        i <= s.len(),
    ensures
        *final(reach) == furthest(*old(reach) as int, r_path(s@, i as int)),
        match p_path(s@, i as int) {
            Some((p, j)) => r matches Some((q, k)) && q@ == p && k == j,
            None => r is None,
        },
        r matches Some((q, k)) ==> i < k <= s.len(),
{
    proof {
        reveal_strlit(".");
        assert("."@ =~= seq!['.']);
    }
    let (table, j) = match parse_ident(s, i) {
        Some(x) => x,
        None => {
            note(reach, i);
            return None;
        },
    };
    note(reach, j);
    if at_text(s, j, ".") {
        match parse_ident(s, j + 1) {
            Some((column, k)) => {
                note(reach, k);
                Some((EntityPath::Column(table, column), k))
            },
            None => {
                note(reach, j + 1);
                Some((EntityPath::Table(table), j))
            },
        }
    } else {
        Some((EntityPath::Table(table), j))
    }
}

fn parse_relation_step(s: &Vec<char>, j: usize, reach: &mut usize) -> (r: Option<(EntityPath, usize)>)
    requires
        j <= s.len(),
    ensures
        *final(reach) == furthest(*old(reach) as int, r_relation_step(s@, j as int)),
        match p_relation_step(s@, j as int) {
            Some((p, k)) => r matches Some((q, l)) && q@ == p && l == k,
            None => r is None,
        },
        r matches Some((q, k)) ==> j < k <= s.len(),
{
    proof {
        reveal_strlit("o--o");
        assert("o--o"@ =~= seq!['o', '-', '-', 'o']);
    }
    let a = skip_pad(s, j);
    if at_text(s, a, "o--o") {
        let b = skip_pad(s, a + 4);
        note(reach, b);
        parse_path(s, b, reach)
    } else {
        note(reach, a);
        None
    }
}

fn parse_relation(s: &Vec<char>, i: usize, reach: &mut usize) -> (r: Option<(Expr, usize)>)
    requires
        i <= s.len(),
    ensures
        *final(reach) == furthest(*old(reach) as int, r_relation(s@, i as int)),
        match p_relation(s@, i as int) {
            Some((e, j)) => r matches Some((x, k)) && x@ == e && k == j,
            None => r is None,
        },
        r matches Some((x, k)) ==> i < k <= s.len(),
{
    let (p, j0) = match parse_path(s, i, reach) {
        Some(x) => x,
        None => return None,
    };
    let ghost target = relation_rest(s@, j0 as int, ExprView::Entity(p@));
    let ghost target_reach = furthest(*reach as int, r_relation_rest(s@, j0 as int));
    let mut acc = Expr::Entity(p);
    let mut j = j0;
    loop
        invariant
            i < j <= s.len(),
            relation_rest(s@, j as int, acc@) == target,
            furthest(*reach as int, r_relation_rest(s@, j as int)) == target_reach,
        ensures
            i < j <= s.len(),
            relation_rest(s@, j as int, acc@) == target,
            p_relation_step(s@, j as int) is None,
            *reach == target_reach,
        decreases s.len() - j,
    {
        match parse_relation_step(s, j, reach) {
            Some((q, k)) => {
                let ghost before = acc;
                let ghost path = q;
                acc = Expr::Relation(Box::new(acc), Box::new(Expr::Entity(q)));
                assert(acc == Expr::Relation(Box::new(before), Box::new(Expr::Entity(path))));
                assert(expr_view(Expr::Entity(path)) == ExprView::Entity(path@));
                assert(expr_view(acc) == ExprView::Relation(Box::new(expr_view(before)), Box::new(expr_view(Expr::Entity(path)))));
                assert(acc@ == ExprView::Relation(Box::new(before@), Box::new(ExprView::Entity(path@))));
                j = k;
            },
            None => {
                break;
            },
        }
    }
    Some((acc, j))
}

fn parse_entry(s: &Vec<char>, i: usize, reach: &mut usize) -> (r: Option<(ModuleEntry, usize)>)
    requires
        i <= s.len(),
    ensures
        *final(reach) == furthest(*old(reach) as int, r_entry(s@, i as int)),
        match p_entry(s@, i as int) {
            Some((e, j)) => r matches Some((x, k)) && x@ == e && k == j,
            None => r is None,
        },
        r matches Some((x, k)) ==> i < k <= s.len(),
{
    match parse_definition(s, i, reach) {
        Some((d, j)) => Some((ModuleEntry::Definition(Definition::EntityDefinition(d)), j)),
        None => match parse_relation(s, i, reach) {
            Some((e, j)) => Some((ModuleEntry::Stmt(Stmt::Expr(e)), j)),
            None => None,
        },
    }
}

fn parse_entry_step(s: &Vec<char>, j: usize, reach: &mut usize) -> (r: Option<(ModuleEntry, usize)>)
    requires
        j <= s.len(),
    ensures
        *final(reach) == furthest(*old(reach) as int, r_entry_step(s@, j as int)),
        match p_entry_step(s@, j as int) {
            Some((e, k)) => r matches Some((x, l)) && x@ == e && l == k,
            None => r is None,
        },
        r matches Some((x, k)) ==> j < k <= s.len(),
{
    let b = skip_blanks(s, j);
    note(reach, b);
    match parse_sep(s, b) {
        Some(k) => parse_entry(s, skip_pad(s, k), reach),
        None => None,
    }
}

/// What a list of entries holds.
pub open spec fn entry_views(v: Seq<ModuleEntry>) -> Seq<EntryView> {
    v.map_values(|e: ModuleEntry| e@)
}

fn parse_entries(s: &Vec<char>, i: usize, reach: &mut usize) -> (r: (Vec<ModuleEntry>, usize))
    requires
        i <= s.len(),
    ensures
        *final(reach) == furthest(*old(reach) as int, r_entries(s@, i as int)),
        entry_views(r.0@) == p_entries(s@, i as int).0,
        r.1 == p_entries(s@, i as int).1,
        i <= r.1 <= s.len(),
{
    let a = skip_pad(s, i);
    match parse_entry(s, a, reach) {
        Some((e, j0)) => {
            let ghost target = entries_rest(s@, j0 as int, seq![e@]);
            let ghost target_reach = furthest(*reach as int, r_entries_rest(s@, j0 as int));
            let mut entries: Vec<ModuleEntry> = Vec::new();
            entries.push(e);
            let mut j = j0;
            proof {
                assert(entry_views(entries@) =~= seq![e@]);
            }
            loop
                invariant
                    i <= j <= s.len(),
                    entries_rest(s@, j as int, entry_views(entries@)) == target,
                    furthest(*reach as int, r_entries_rest(s@, j as int)) == target_reach,
                ensures
                    i <= j <= s.len(),
                    entries_rest(s@, j as int, entry_views(entries@)) == target,
                    p_entry_step(s@, j as int) is None,
                    *reach == target_reach,
                decreases s.len() - j,
            {
                match parse_entry_step(s, j, reach) {
                    Some((x, k)) => {
                        let ghost before = entries@;
                        entries.push(x);
                        proof {
                            assert(entry_views(entries@) =~= entry_views(before).push(x@));
                        }
                        j = k;
                    },
                    None => {
                        break;
                    },
                }
            }
            let end = skip_pad(s, j);
            note(reach, end);
            (entries, end)
        },
        None => {
            proof {
                assert(entry_views(Seq::<ModuleEntry>::empty()) =~= Seq::<EntryView>::empty());
            }
            let end = skip_pad(s, a);
            note(reach, end);
            (Vec::new(), end)
        },
    }
}

fn parse_module(s: &Vec<char>, i: usize, reach: &mut usize) -> (r: Option<(ErdModule, usize)>)
    requires
        i <= s.len(),
    ensures
        *final(reach) == furthest(*old(reach) as int, r_module(s@, i as int)),
        match p_module(s@, i as int) {
            Some((m, j)) => r matches Some((x, k)) && x@ == m && k == j,
            None => r is None,
        },
        r matches Some((x, k)) ==> i < k <= s.len(),
{
    proof {
        reveal_strlit("erd");
        assert("erd"@ =~= seq!['e', 'r', 'd']);
        reveal_strlit("{");
        assert("{"@ =~= seq!['{']);
        reveal_strlit("}");
        assert("}"@ =~= seq!['}']);
    }
    if !at_text(s, i, "erd") {
        note(reach, i);
        return None;
    }
    let j0 = skip_pad(s, i + 3);
    let (name, k) = match parse_ident(s, j0) {
        Some((n, l)) => {
            let k = skip_pad(s, l);
            note(reach, k);
            (Some(n), k)
        },
        None => {
            note(reach, j0);
            (None, i + 3)
        },
    };
    let a = skip_pad(s, k);
    note(reach, a);
    if !at_text(s, a, "{") {
        return None;
    }
    let b0 = skip_pad(s, a + 1);
    note(reach, b0);
    let (entries, b) = parse_entries(s, b0, reach);
    let c = skip_pad(s, b);
    note(reach, c);
    if !at_text(s, c, "}") {
        return None;
    }
    let end = skip_pad(s, c + 1);
    note(reach, end);
    let m = ErdModule { name, entries };
    Some((m, end))
}

/// Why a text is not a diagram: the furthest position, counted in
/// characters, at which the parser looked for what could come next (the
/// length of the text when it looked past the end).
#[derive(Debug, Clone, Copy, PartialEq, Eq, Structural)]
pub struct ParseError {
    pub offset: usize,
}

/// Parses the text of a diagram.
///
/// Succeeds exactly when the whole text, with white space around it, spells
/// a module of the grammar above, and then gives that module.
pub fn parser(input: &str) -> (r: Result<ErdModule, ParseError>)
    ensures
        match p_program(input@) {
            Some(m) => r matches Ok(x) && x@ == m,
            None => r matches Err(e) && e.offset == r_program(input@),
        },
{
    let s = chars_of(input);
    let a = skip_pad(&s, 0);
    let mut reach: usize = a;
    match parse_module(&s, a, &mut reach) {
        Some((m, j)) => {
            let b = skip_pad(&s, j);
            if b == s.len() {
                Ok(m)
            } else {
                note(&mut reach, b);
                Err(ParseError { offset: reach })
            }
        },
        None => Err(ParseError { offset: reach }),
    }
}

// ---------------------------------------------------------------------------
// Writing the syntax tree back as text
// ---------------------------------------------------------------------------

impl FieldView {
    /// `name type`, followed by ` PK` or ` FK` for a keyed field.
    pub open spec fn text(self) -> Seq<char> {
        self.name + seq![' '] + self.field_type.spec_text() + match self.field_key {
            Some(k) => seq![' '] + k.spec_keyword(),
            None => Seq::empty(),
        }
    }
}

/// The fields joined by `"; "`.
pub open spec fn field_list_text(fields: Seq<FieldView>) -> Seq<char>
    decreases fields.len(),
{
    if fields.len() == 0 {
        Seq::empty()
    } else if fields.len() == 1 {
        fields[0].text()
    } else {
        field_list_text(fields.drop_last()) + seq![';', ' '] + fields.last().text()
    }
}

impl DefinitionView {
    /// `name {}` without fields, `name { f1; f2 }` with fields.
    pub open spec fn text(self) -> Seq<char> {
        self.name + seq![' ', '{'] + if self.fields.len() > 0 {
            seq![' '] + field_list_text(self.fields) + seq![' ']
        } else {
            Seq::empty()
        } + seq!['}']
    }
}

impl PathView {
    /// `entity` or `entity.field`.
    pub open spec fn text(self) -> Seq<char> {
        match self {
            PathView::Table(t) => t,
            PathView::Column(t, c) => t + seq!['.'] + c,
        }
    }
}

/// A path as it is written, a relation as `(left o--o right)`.
pub open spec fn expr_text(e: ExprView) -> Seq<char>
    decreases e,
{
    match e {
        ExprView::Relation(a, b) => seq!['('] + expr_text(*a) + seq![' '] + edge_text() + seq![' ']
            + expr_text(*b) + seq![')'],
        ExprView::Entity(p) => p.text(),
    }
}

impl EntryView {
    pub open spec fn text(self) -> Seq<char> {
        match self {
            EntryView::Definition(d) => d.text(),
            EntryView::Stmt(e) => expr_text(e),
        }
    }
}

/// Each entry on a line of its own, indented by two spaces.
pub open spec fn entry_lines(entries: Seq<EntryView>) -> Seq<char>
    decreases entries.len(),
{
    if entries.len() == 0 {
        Seq::empty()
    } else {
        entry_lines(entries.drop_last()) + seq![' ', ' '] + entries.last().text() + seq!['\n']
    }
}

impl ModuleView {
    /// `erd {`, a line per entry, then `}`; the name is not written.
    pub open spec fn text(self) -> Seq<char> {
        seq!['e', 'r', 'd', ' ', '{', '\n'] + entry_lines(self.entries) + seq!['}']
    }
}

impl EntityField {
    fn write_to(&self, s: &mut String)
        ensures
            final(s)@ == old(s)@ + self@.text(),
    {
        push_string(s, &self.name);
        push_char(s, ' ');
        let t = self.field_type.to_string();
        push_string(s, &t);
        match self.field_key {
            Some(k) => {
                push_char(s, ' ');
                let kw = k.to_keyword();
                push_string(s, &kw);
            },
            None => {},
        }
        assert(final(s)@ =~= old(s)@ + self@.text());
    }

    /// The field as it is written: `name type [PK|FK]`.
    pub fn to_string(&self) -> (r: String)
        ensures
            r@ == self@.text(),
    {
        let mut s = String::new();
        self.write_to(&mut s);
        assert(s@ =~= self@.text());
        s
    }
}

impl EntityDefinition {
    fn write_to(&self, s: &mut String)
        ensures
            final(s)@ == old(s)@ + self@.text(),
    {
        push_string(s, &self.name);
        push_char(s, ' ');
        push_char(s, '{');
        let n = self.fields.len();
        if n > 0 {
            push_char(s, ' ');
            let ghost start = s@;
            let mut i: usize = 0;
            while i < n
                invariant
                    n == self.fields@.len(),
                    0 <= i <= n,
                    s@ == start + field_list_text(field_views(self.fields@.take(i as int))),
                decreases n - i,
            {
                if i > 0 {
                    push_char(s, ';');
                    push_char(s, ' ');
                }
                self.fields[i].write_to(s);
                proof {
                    let t = field_views(self.fields@.take(i + 1));
                    assert(t.drop_last() =~= field_views(self.fields@.take(i as int)));
                    assert(t.last() == self.fields@[i as int]@);
                    if i == 0 {
                        assert(field_list_text(field_views(self.fields@.take(0))) =~= Seq::<char>::empty());
                    }
                }
                i += 1;
            }
            assert(self.fields@.take(n as int) =~= self.fields@);
            push_char(s, ' ');
        }
        push_char(s, '}');
        assert(final(s)@ =~= old(s)@ + self@.text());
    }

    /// The definition as it is written.
    pub fn to_string(&self) -> (r: String)
        ensures
            r@ == self@.text(),
    {
        let mut s = String::new();
        self.write_to(&mut s);
        assert(s@ =~= self@.text());
        s
    }
}

impl EntityPath {
    fn write_to(&self, s: &mut String)
        ensures
            final(s)@ == old(s)@ + self@.text(),
    {
        match self {
            EntityPath::Table(t) => push_string(s, t),
            EntityPath::Column(t, c) => {
                push_string(s, t);
                push_char(s, '.');
                push_string(s, c);
            },
        }
        assert(final(s)@ =~= old(s)@ + self@.text());
    }

    /// The path as it is written: `entity` or `entity.field`.
    pub fn to_string(&self) -> (r: String)
        ensures
            r@ == self@.text(),
    {
        let mut s = String::new();
        self.write_to(&mut s);
        assert(s@ =~= self@.text());
        s
    }
}

impl Expr {
    fn write_to(&self, s: &mut String)
        ensures
            final(s)@ == old(s)@ + expr_text(self@),
        decreases self,
    {
        match self {
            Expr::Relation(a, b) => {
                push_char(s, '(');
                a.write_to(s);
                push_char(s, ' ');
                push_char(s, 'o');
                push_char(s, '-');
                push_char(s, '-');
                push_char(s, 'o');
                push_char(s, ' ');
                b.write_to(s);
                push_char(s, ')');
            },
            Expr::Entity(p) => p.write_to(s),
        }
        assert(final(s)@ =~= old(s)@ + expr_text(self@));
    }

    /// The expression as it is written: a path, or `(left o--o right)`.
    pub fn to_string(&self) -> (r: String)
        ensures
            r@ == expr_text(self@),
    {
        let mut s = String::new();
        self.write_to(&mut s);
        assert(s@ =~= expr_text(self@));
        s
    }
}

impl ModuleEntry {
    fn write_to(&self, s: &mut String)
        ensures
            final(s)@ == old(s)@ + self@.text(),
    {
        match self {
            ModuleEntry::Definition(Definition::EntityDefinition(d)) => d.write_to(s),
            ModuleEntry::Stmt(Stmt::Expr(e)) => e.write_to(s),
        }
    }

    /// The entry as it is written.
    pub fn to_string(&self) -> (r: String)
        ensures
            r@ == self@.text(),
    {
        let mut s = String::new();
        self.write_to(&mut s);
        assert(s@ =~= self@.text());
        s
    }
}

impl ErdModule {
    /// The module as it is written: `erd {`, each entry on a line of its own
    /// indented by two spaces, then `}`. The name is not written.
    pub fn to_string(&self) -> (r: String)
        ensures
            r@ == self@.text(),
    {
        let mut s = String::new();
        push_char(&mut s, 'e');
        push_char(&mut s, 'r');
        push_char(&mut s, 'd');
        push_char(&mut s, ' ');
        push_char(&mut s, '{');
        push_char(&mut s, '\n');
        let ghost start = s@;
        let n = self.entries.len();
        let mut i: usize = 0;
        while i < n
            invariant
                n == self.entries@.len(),
                0 <= i <= n,
                s@ == start + entry_lines(entry_views(self.entries@.take(i as int))),
            decreases n - i,
        {
            push_char(&mut s, ' ');
            push_char(&mut s, ' ');
            self.entries[i].write_to(&mut s);
            push_char(&mut s, '\n');
            proof {
                let t = entry_views(self.entries@.take(i + 1));
                assert(t.drop_last() =~= entry_views(self.entries@.take(i as int)));
                assert(t.last() == self.entries@[i as int]@);
            }
            i += 1;
        }
        assert(self.entries@.take(n as int) =~= self.entries@);
        push_char(&mut s, '}');
        assert(s@ =~= self@.text());
        s
    }
}

} // verus!
