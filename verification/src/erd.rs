//! The entity-relationship diagram: entity definitions with typed fields, and
//! relations between entities or fields.
use vstd::prelude::*;
use crate::color::{NamedColor, RGBColor, WebColor};
use crate::mir;
use crate::mir::{
    BadgeView, Document, EdgeData, FieldShape, FieldShapeView, FontFamily, FontSize, FontWeight,
    NodeId, NodeView, RecordShape, ShapeKind, ShapeView, TextSpan, TextSpanView,
};
use crate::text::{push_char, push_str, push_string, string_of};

verus! {

/// An ER diagram module: an optional name and its entries, in order.
#[derive(Debug)]
pub struct Module {
    name: Option<String>,
    entries: Vec<ModuleEntry>,
}

#[derive(Debug)]
pub enum ModuleEntry {
    EntityDefinition(EntityDefinition),
    EntityRelation(EntityRelation),
}

#[derive(Debug)]
pub struct EntityDefinition {
    name: String,
    fields: Vec<EntityField>,
}

#[derive(Debug)]
pub struct EntityField {
    name: String,
    field_type: EntityFieldType,
    field_key: Option<EntityFieldKey>,
}

#[derive(Debug, Clone, Copy, PartialEq, Eq, Hash, Structural)]
pub enum EntityFieldType {
    Int,
    Uuid,
    Text,
    Timestamp,
}

#[derive(Debug, Clone, Copy, PartialEq, Eq, Hash, Structural)]
pub enum EntityFieldKey {
    PrimaryKey,
    ForeginKey,
}

/// A path to an entity (`users`) or to one of its fields (`users.id`).
#[derive(Debug)]
pub enum EntityPath {
    Entity(String),
    Field(String, String),
}

/// A relation between two paths: `start o--o end`.
#[derive(Debug)]
pub struct EntityRelation {
    start_path: EntityPath,
    end_path: EntityPath,
}

/// The text `" o--o "` that joins the two ends of a relation.
pub open spec fn relation_joint() -> Seq<char> {
    seq![' ', 'o', '-', '-', 'o', ' ']
}

impl EntityFieldType {
    /// The keyword of the type in the diagram language.
    pub open spec fn spec_text(self) -> Seq<char> {
        match self {
            EntityFieldType::Int => seq!['i', 'n', 't'],
            EntityFieldType::Uuid => seq!['u', 'u', 'i', 'd'],
            EntityFieldType::Text => seq!['t', 'e', 'x', 't'],
            EntityFieldType::Timestamp => seq!['t', 'i', 'm', 'e', 's', 't', 'a', 'm', 'p'],
        }
    }

    /// The keyword of the type: `int`, `uuid`, `text` or `timestamp`.
    pub fn to_string(&self) -> (r: String)
        ensures
            r@ == self.spec_text(),
    {
        let r = match self {
            EntityFieldType::Int => string_of("int"),
            EntityFieldType::Uuid => string_of("uuid"),
            EntityFieldType::Text => string_of("text"),
            EntityFieldType::Timestamp => string_of("timestamp"),
        };
        proof {
            reveal_strlit("int");
            reveal_strlit("uuid");
            reveal_strlit("text");
            reveal_strlit("timestamp");
        }
        r
    }
}

impl EntityFieldKey {
    /// The keyword of the key in the diagram language.
    pub open spec fn spec_keyword(self) -> Seq<char> {
        match self {
            EntityFieldKey::PrimaryKey => seq!['P', 'K'],
            EntityFieldKey::ForeginKey => seq!['F', 'K'],
        }
    }

    /// The name of the key.
    pub open spec fn spec_text(self) -> Seq<char> {
        match self {
            EntityFieldKey::PrimaryKey => seq!['P', 'r', 'i', 'm', 'a', 'r', 'y', ' ', 'K', 'e', 'y'],
            EntityFieldKey::ForeginKey => seq!['F', 'o', 'r', 'e', 'g', 'i', 'n', ' ', 'K', 'e', 'y'],
        }
    }

    /// The color of the badge text.
    pub open spec fn spec_badge_text_color(self) -> WebColor {
        match self {
            EntityFieldKey::PrimaryKey => WebColor::Named(NamedColor::White),
            EntityFieldKey::ForeginKey => WebColor::RGB(RGBColor { red: 17, green: 112, blue: 251 }),
        }
    }

    /// The color of the badge background.
    pub open spec fn spec_badge_bg_color(self) -> WebColor {
        match self {
            EntityFieldKey::PrimaryKey => WebColor::RGB(RGBColor { red: 55, green: 55, blue: 55 }),
            EntityFieldKey::ForeginKey => WebColor::RGB(RGBColor { red: 32, green: 41, blue: 55 }),
        }
    }

    /// The name of the key: `Primary Key` or `Foregin Key`.
    pub fn to_string(&self) -> (r: String)
        ensures
            r@ == self.spec_text(),
    {
        let r = match self {
            EntityFieldKey::PrimaryKey => string_of("Primary Key"),
            EntityFieldKey::ForeginKey => string_of("Foregin Key"),
        };
        proof {
            reveal_strlit("Primary Key");
            reveal_strlit("Foregin Key");
        }
        r
    }

    /// The keyword of the key: `PK` or `FK`.
    pub fn to_keyword(&self) -> (r: String)
        ensures
            r@ == self.spec_keyword(),
    {
        let r = match self {
            EntityFieldKey::PrimaryKey => string_of("PK"),
            EntityFieldKey::ForeginKey => string_of("FK"),
        };
        proof {
            reveal_strlit("PK");
            reveal_strlit("FK");
        }
        r
    }

    fn badge_text(&self) -> (r: String)
        ensures
            r@ == self.spec_keyword(),
    {
        self.to_keyword()
    }

    fn badge_text_color(&self) -> (r: WebColor)
        ensures
            r == self.spec_badge_text_color(),
    {
        match self {
            EntityFieldKey::PrimaryKey => WebColor::Named(NamedColor::White),
            EntityFieldKey::ForeginKey => WebColor::RGB(RGBColor::new(17, 112, 251)),
        }
    }

    fn badge_bg_color(&self) -> (r: WebColor)
        ensures
            r == self.spec_badge_bg_color(),
    {
        match self {
            EntityFieldKey::PrimaryKey => WebColor::RGB(RGBColor::new(55, 55, 55)),
            EntityFieldKey::ForeginKey => WebColor::RGB(RGBColor::new(32, 41, 55)),
        }
    }

    /// The badge that marks a keyed field: the keyword on a colored disc.
    pub fn into_mir(&self) -> (r: mir::Badge)
        ensures
            r.text@ == self.spec_keyword(),
            r.color == Some(self.spec_badge_text_color()),
            r.bg_color == Some(self.spec_badge_bg_color()),
    {
        mir::Badge {
            text: self.badge_text(),
            color: Some(self.badge_text_color()),
            bg_color: Some(self.badge_bg_color()),
        }
    }
}

impl EntityField {
    pub closed spec fn spec_name(self) -> Seq<char> {
        self.name@
    }

    pub closed spec fn spec_field_type(self) -> EntityFieldType {
        self.field_type
    }

    pub closed spec fn spec_field_key(self) -> Option<EntityFieldKey> {
        self.field_key
    }

    /// `name type`, followed by ` PK` or ` FK` for a keyed field.
    pub open spec fn spec_text(self) -> Seq<char> {
        self.spec_name() + seq![' '] + self.spec_field_type().spec_text() + match self.spec_field_key() {
            Some(k) => seq![' '] + k.spec_keyword(),
            None => Seq::empty(),
        }
    }

    pub fn new(name: String, field_type: EntityFieldType, field_key: Option<EntityFieldKey>) -> (r:
        Self)
        ensures
            r.spec_name() == name@,
            r.spec_field_type() == field_type,
            r.spec_field_key() == field_key,
    {
        Self { name, field_type, field_key }
    }

    pub fn name(&self) -> (r: &str)
        ensures
            r@ == self.spec_name(),
    {
        self.name.as_str()
    }

    pub fn field_type(&self) -> (r: &EntityFieldType)
        ensures
            *r == self.spec_field_type(),
    {
        &self.field_type
    }

    pub fn field_key(&self) -> (r: Option<&EntityFieldKey>)
        ensures
            r matches Some(k) ==> self.spec_field_key() == Some(*k),
            r is None ==> self.spec_field_key() is None,
    {
        match &self.field_key {
            Some(k) => Some(k),
            None => None,
        }
    }

    /// Formats the field as in the diagram language: `name type [PK|FK]`.
    pub fn to_string(&self) -> (r: String)
        ensures
            r@ == self.spec_text(),
    {
        let mut s = String::new();
        self.write_to(&mut s);
        assert(s@ =~= self.spec_text());
        s
    }

    fn write_to(&self, s: &mut String)
        ensures
            final(s)@ == old(s)@ + self.spec_text(),
    {
        push_string(s, &self.name);
        push_char(s, ' ');
        let t = self.field_type.to_string();
        push_string(s, &t);
        match self.field_key {
            Some(k) => {
                push_char(s, ' ');
                let kw = k.to_keyword();
                push_string(s, &kw);
            },
            None => {},
        }
        assert(final(s)@ =~= old(s)@ + self.spec_text());
    }
}

/// The fields joined by `"; "`.
pub open spec fn fields_text(fields: Seq<EntityField>) -> Seq<char>
    decreases fields.len(),
{
    if fields.len() == 0 {
        Seq::empty()
    } else if fields.len() == 1 {
        fields[0].spec_text()
    } else {
        fields_text(fields.drop_last()) + seq![';', ' '] + fields.last().spec_text()
    }
}

impl EntityDefinition {
    pub closed spec fn spec_name(self) -> Seq<char> {
        self.name@
    }

    pub closed spec fn spec_fields(self) -> Seq<EntityField> {
        self.fields@
    }

    /// `name {}` without fields, `name { f1; f2 }` with fields.
    pub open spec fn spec_text(self) -> Seq<char> {
        self.spec_name() + seq![' ', '{'] + if self.spec_fields().len() > 0 {
            seq![' '] + fields_text(self.spec_fields()) + seq![' ']
        } else {
            Seq::empty()
        } + seq!['}']
    }

    pub fn new(name: String) -> (r: Self)
        ensures
            r.spec_name() == name@,
            r.spec_fields() == Seq::<EntityField>::empty(),
    {
        Self { name, fields: Vec::new() }
    }

    pub fn name(&self) -> (r: &str)
        ensures
            r@ == self.spec_name(),
    {
        self.name.as_str()
    }

    pub fn fields(&self) -> (r: &Vec<EntityField>)
        ensures
            r@ == self.spec_fields(),
    {
        &self.fields
    }

    pub fn add_field(&mut self, column: EntityField)
        ensures
            final(self).spec_fields() == old(self).spec_fields().push(column),
            final(self).spec_name() == old(self).spec_name(),
    {
        self.fields.push(column);
    }

    /// Formats the definition as in the diagram language.
    pub fn to_string(&self) -> (r: String)
        ensures
            r@ == self.spec_text(),
    {
        let mut s = String::new();
        self.write_to(&mut s);
        assert(s@ =~= self.spec_text());
        s
    }

    fn write_to(&self, s: &mut String)
        ensures
            final(s)@ == old(s)@ + self.spec_text(),
    {
        push_string(s, &self.name);
        push_char(s, ' ');
        push_char(s, '{');
        let n = self.fields.len();
        if n > 0 {
            push_char(s, ' ');
            let ghost start = s@;
            let mut i: usize = 0;
            while i < n
                invariant
                    n == self.fields@.len(),
                    0 <= i <= n,
                    s@ == start + fields_text(self.fields@.take(i as int)),
                decreases n - i,
            {
                if i > 0 {
                    push_char(s, ';');
                    push_char(s, ' ');
                }
                self.fields[i].write_to(s);
                proof {
                    let t = self.fields@.take(i + 1);
                    assert(t.drop_last() =~= self.fields@.take(i as int));
                    if i == 0 {
                        assert(fields_text(self.fields@.take(0)) =~= Seq::<char>::empty());
                    }
                }
                i += 1;
            }
            assert(self.fields@.take(n as int) =~= self.fields@);
            push_char(s, ' ');
        }
        push_char(s, '}');
        assert(final(s)@ =~= old(s)@ + self.spec_text());
    }
}

impl EntityPath {
    /// What identifies the path: the entity name, or the entity and field
    /// names.
    pub open spec fn key(self) -> Seq<Seq<char>> {
        match self {
            EntityPath::Entity(e) => seq![e@],
            EntityPath::Field(e, f) => seq![e@, f@],
        }
    }

    /// `entity` or `entity.field`.
    pub open spec fn spec_text(self) -> Seq<char> {
        match self {
            EntityPath::Entity(e) => e@,
            EntityPath::Field(e, f) => e@ + seq!['.'] + f@,
        }
    }

    /// Whether two paths name the same entity or field.
    pub fn same_as(&self, other: &EntityPath) -> (r: bool)
        ensures
            r == (self.key() == other.key()),
    {
        match (self, other) {
            (EntityPath::Entity(a), EntityPath::Entity(b)) => {
                let r = *a == *b;
                proof {
                    if !r {
                        assert(self.key()[0] != other.key()[0]);
                    }
                }
                r
            },
            (EntityPath::Field(a, x), EntityPath::Field(b, y)) => {
                let r = *a == *b && *x == *y;
                proof {
                    if a@ != b@ {
                        assert(self.key()[0] != other.key()[0]);
                    } else if x@ != y@ {
                        assert(self.key()[1] != other.key()[1]);
                    }
                    if r {
                        assert(self.key() =~= other.key());
                    }
                }
                r
            },
            (EntityPath::Entity(_), EntityPath::Field(_, _)) => {
                assert(self.key().len() != other.key().len());
                false
            },
            (EntityPath::Field(_, _), EntityPath::Entity(_)) => {
                assert(self.key().len() != other.key().len());
                false
            },
        }
    }

    /// A copy of the path.
    pub fn duplicate(&self) -> (r: EntityPath)
        ensures
            r.key() == self.key(),
            r.spec_text() == self.spec_text(),
    {
        match self {
            EntityPath::Entity(e) => EntityPath::Entity(e.clone()),
            EntityPath::Field(e, f) => EntityPath::Field(e.clone(), f.clone()),
        }
    }

    /// Formats the path: `entity` or `entity.field`.
    pub fn to_string(&self) -> (r: String)
        ensures
            r@ == self.spec_text(),
    {
        let mut s = String::new();
        self.write_to(&mut s);
        assert(s@ =~= self.spec_text());
        s
    }

    fn write_to(&self, s: &mut String)
        ensures
            final(s)@ == old(s)@ + self.spec_text(),
    {
        match self {
            EntityPath::Entity(e) => push_string(s, e),
            EntityPath::Field(e, f) => {
                push_string(s, e);
                push_char(s, '.');
                push_string(s, f);
            },
        }
        assert(final(s)@ =~= old(s)@ + self.spec_text());
    }
}

impl EntityRelation {
    pub closed spec fn spec_start_path(self) -> EntityPath {
        self.start_path
    }

    pub closed spec fn spec_end_path(self) -> EntityPath {
        self.end_path
    }

    /// `start o--o end`.
    pub open spec fn spec_text(self) -> Seq<char> {
        self.spec_start_path().spec_text() + relation_joint() + self.spec_end_path().spec_text()
    }

    pub fn new(start_path: EntityPath, end_path: EntityPath) -> (r: Self)
        ensures
            r.spec_start_path() == start_path,
            r.spec_end_path() == end_path,
    {
        Self { start_path, end_path }
    }

    pub fn start_path(&self) -> (r: &EntityPath)
        ensures
            *r == self.spec_start_path(),
    {
        &self.start_path
    }

    pub fn end_path(&self) -> (r: &EntityPath)
        ensures
            *r == self.spec_end_path(),
    {
        &self.end_path
    }

    /// Formats the relation: `start o--o end`.
    pub fn to_string(&self) -> (r: String)
        ensures
            r@ == self.spec_text(),
    {
        let mut s = String::new();
        self.write_to(&mut s);
        assert(s@ =~= self.spec_text());
        s
    }

    fn write_to(&self, s: &mut String)
        ensures
            final(s)@ == old(s)@ + self.spec_text(),
    {
        self.start_path.write_to(s);
        push_str(s, " o--o ");
        proof {
            reveal_strlit(" o--o ");
        }
        self.end_path.write_to(s);
        assert(final(s)@ =~= old(s)@ + self.spec_text());
    }
}

impl ModuleEntry {
    pub open spec fn spec_text(self) -> Seq<char> {
        match self {
            ModuleEntry::EntityDefinition(d) => d.spec_text(),
            ModuleEntry::EntityRelation(r) => r.spec_text(),
        }
    }

    /// Formats the entry as in the diagram language.
    pub fn to_string(&self) -> (r: String)
        ensures
            r@ == self.spec_text(),
    {
        match self {
            ModuleEntry::EntityDefinition(d) => d.to_string(),
            ModuleEntry::EntityRelation(r) => r.to_string(),
        }
    }

    fn write_to(&self, s: &mut String)
        ensures
            final(s)@ == old(s)@ + self.spec_text(),
    {
        match self {
            ModuleEntry::EntityDefinition(d) => d.write_to(s),
            ModuleEntry::EntityRelation(r) => r.write_to(s),
        }
    }
}

/// The text of a module opens with `erd `, then, for a named module, its
/// name and a space, then `{`, and closes with `}`.
pub proof fn lemma_module_text_header(m: Module)
    ensures
        m.spec_name() matches Some(n) ==> m.spec_text().take(n.len() + 6int) == seq!['e', 'r', 'd', ' '] + n
            + seq![' ', '{'],
        m.spec_name() is None ==> m.spec_text().take(5) == seq!['e', 'r', 'd', ' ', '{'],
        m.spec_text().last() == '}',
{
    let t = m.spec_text();
    match m.spec_name() {
        Some(n) => {
            assert(t.take(n.len() + 6int) =~= seq!['e', 'r', 'd', ' '] + n + seq![' ', '{']);
        },
        None => {
            assert(t.take(5) =~= seq!['e', 'r', 'd', ' ', '{']);
        },
    }
}

/// Each entry on a line of its own, indented by four spaces.
pub open spec fn entries_text(entries: Seq<ModuleEntry>) -> Seq<char>
    decreases entries.len(),
{
    if entries.len() == 0 {
        Seq::empty()
    } else {
        entries_text(entries.drop_last()) + seq![' ', ' ', ' ', ' '] + entries.last().spec_text()
            + seq!['\n']
    }
}

impl Module {
    pub closed spec fn spec_name(self) -> Option<Seq<char>> {
        match self.name {
            Some(n) => Some(n@),
            None => None,
        }
    }

    pub closed spec fn spec_entries(self) -> Seq<ModuleEntry> {
        self.entries@
    }

    /// `erd [name ]{`, a line per entry, then `}`.
    pub open spec fn spec_text(self) -> Seq<char> {
        seq!['e', 'r', 'd', ' '] + match self.spec_name() {
            Some(n) => n + seq![' '],
            None => Seq::empty(),
        } + seq!['{', '\n'] + entries_text(self.spec_entries()) + seq!['}']
    }

    pub fn new(name: Option<String>) -> (r: Self)
        ensures
            r.spec_name() == (match name {
                Some(n) => Some(n@),
                None => None::<Seq<char>>,
            }),
            r.spec_entries() == Seq::<ModuleEntry>::empty(),
    {
        Self { name, entries: Vec::new() }
    }

    pub fn name(&self) -> (r: Option<&str>)
        ensures
            r matches Some(n) ==> self.spec_name() == Some(n@),
            r is None ==> self.spec_name() is None,
    {
        match &self.name {
            Some(n) => Some(n.as_str()),
            None => None,
        }
    }

    pub fn entries(&self) -> (r: &Vec<ModuleEntry>)
        ensures
            r@ == self.spec_entries(),
    {
        &self.entries
    }

    pub fn add_entry(&mut self, entry: ModuleEntry)
        ensures
            final(self).spec_entries() == old(self).spec_entries().push(entry),
            final(self).spec_name() == old(self).spec_name(),
    {
        self.entries.push(entry);
    }

    pub fn add_entity_definition(&mut self, definition: EntityDefinition)
        ensures
            final(self).spec_entries() == old(self).spec_entries().push(
                ModuleEntry::EntityDefinition(definition),
            ),
            final(self).spec_name() == old(self).spec_name(),
    {
        self.entries.push(ModuleEntry::EntityDefinition(definition));
    }

    pub fn add_entity_relation(&mut self, relation: EntityRelation)
        ensures
            final(self).spec_entries() == old(self).spec_entries().push(
                ModuleEntry::EntityRelation(relation),
            ),
            final(self).spec_name() == old(self).spec_name(),
    {
        self.entries.push(ModuleEntry::EntityRelation(relation));
    }

    /// Formats the module as in the diagram language.
    pub fn to_string(&self) -> (r: String)
        ensures
            r@ == self.spec_text(),
            self.spec_name() matches Some(n) ==> r@.take(n.len() + 6int) == seq!['e', 'r', 'd', ' '] + n + seq![
                ' ',
                '{',
            ],
            self.spec_name() is None ==> r@.take(5) == seq!['e', 'r', 'd', ' ', '{'],
    {
        proof {
            lemma_module_text_header(*self);
        }
        let mut s = string_of("erd ");
        proof {
            reveal_strlit("erd ");
        }
        match &self.name {
            Some(n) => {
                push_string(&mut s, n);
                push_char(&mut s, ' ');
            },
            None => {},
        }
        push_char(&mut s, '{');
        push_char(&mut s, '\n');
        let ghost start = s@;
        let n = self.entries.len();
        let mut i: usize = 0;
        while i < n
            invariant
                n == self.entries@.len(),
                0 <= i <= n,
                s@ == start + entries_text(self.entries@.take(i as int)),
            decreases n - i,
        {
            push_str(&mut s, "    ");
            proof {
                reveal_strlit("    ");
            }
            self.entries[i].write_to(&mut s);
            push_char(&mut s, '\n');
            proof {
                assert(self.entries@.take(i + 1).drop_last() =~= self.entries@.take(i as int));
            }
            i += 1;
        }
        assert(self.entries@.take(n as int) =~= self.entries@);
        push_char(&mut s, '}');
        assert(s@ =~= self.spec_text());
        s
    }
}


/// The gray of record borders and header backgrounds.
pub open spec fn light_gray() -> WebColor {
    WebColor::RGB(RGBColor { red: 73, green: 73, blue: 73 })
}

/// The background of records.
pub open spec fn table_bg() -> WebColor {
    WebColor::RGB(RGBColor { red: 33, green: 33, blue: 33 })
}

/// The color of the column type of a field.
pub open spec fn column_type_color(t: EntityFieldType) -> WebColor {
    match t {
        EntityFieldType::Int => WebColor::RGB(RGBColor { red: 236, green: 199, blue: 0 }),
        EntityFieldType::Uuid => WebColor::RGB(RGBColor { red: 236, green: 199, blue: 0 }),
        EntityFieldType::Text => WebColor::RGB(RGBColor { red: 214, green: 105, blue: 5 }),
        EntityFieldType::Timestamp => WebColor::RGB(RGBColor { red: 6, green: 182, blue: 151 }),
    }
}

/// The header of a record: the entity name in bold white on light gray.
pub open spec fn header_view(name: Seq<char>) -> NodeView {
    NodeView {
        kind: ShapeView::Field(
            FieldShapeView {
                title: TextSpanView {
                    text: name,
                    color: Some(WebColor::Named(NamedColor::White)),
                    font_family: Some(FontFamily::Monospace1),
                    font_weight: Some(FontWeight::Bold),
                    font_size: None,
                },
                subtitle: None,
                badge: None,
                bg_color: Some(light_gray()),
                border_color: None,
            },
        ),
        children: Seq::empty(),
    }
}

/// A field row: its name, its type in the type's color, and a badge for a
/// key.
pub open spec fn field_view(f: EntityField) -> NodeView {
    NodeView {
        kind: ShapeView::Field(
            FieldShapeView {
                title: TextSpanView {
                    text: f.spec_name(),
                    color: Some(WebColor::Named(NamedColor::White)),
                    font_family: Some(FontFamily::Monospace2),
                    font_weight: Some(FontWeight::Lighter),
                    font_size: None,
                },
                subtitle: Some(
                    TextSpanView {
                        text: f.spec_field_type().spec_text(),
                        color: Some(column_type_color(f.spec_field_type())),
                        font_family: Some(FontFamily::Monospace2),
                        font_weight: Some(FontWeight::Lighter),
                        font_size: Some(FontSize::Small),
                    },
                ),
                badge: match f.spec_field_key() {
                    Some(k) => Some(
                        BadgeView {
                            text: k.spec_keyword(),
                            color: Some(k.spec_badge_text_color()),
                            bg_color: Some(k.spec_badge_bg_color()),
                        },
                    ),
                    None => None,
                },
                bg_color: None,
                border_color: Some(light_gray()),
            },
        ),
        children: Seq::empty(),
    }
}

/// The record of a definition whose header is node `h`, with its `k` fields
/// at `h + 1 ..= h + k`.
pub open spec fn record_view(h: nat, k: nat) -> NodeView {
    NodeView {
        kind: ShapeView::Record(
            RecordShape { rounded: true, bg_color: Some(table_bg()), border_color: Some(light_gray()) },
        ),
        children: Seq::new(k + 1, |j: int| NodeId((h + j) as usize)),
    }
}

/// The document a module compiles into, and the node of each path defined
/// so far.
pub struct MirModel {
    pub nodes: Seq<NodeView>,
    pub edges: Seq<EdgeData>,
    pub paths: Map<Seq<Seq<char>>, usize>,
}

/// The paths of the fields of entity `name`, the first at node `start`;
/// a later field of the same name takes over the path.
pub open spec fn field_paths(
    paths: Map<Seq<Seq<char>>, usize>,
    name: Seq<char>,
    fields: Seq<EntityField>,
    start: nat,
) -> Map<Seq<Seq<char>>, usize>
    decreases fields.len(),
{
    if fields.len() == 0 {
        paths
    } else {
        field_paths(paths, name, fields.drop_last(), start).insert(
            seq![name, fields.last().spec_name()],
            (start + fields.len() - 1) as usize,
        )
    }
}

/// The document of the entries so far, with one more entry.
///
/// A definition adds its header, one node per field and its record (whose
/// children are the header and the fields), appends the record to the body,
/// and defines the paths of the entity and of its fields. A relation adds an
/// edge when both of its paths are defined, and nothing otherwise.
pub open spec fn mir_step(m: MirModel, e: ModuleEntry) -> MirModel {
    match e {
        ModuleEntry::EntityDefinition(d) => {
            let h = m.nodes.len();
            let k = d.spec_fields().len();
            let r = h + k + 1;
            let added = m.nodes + seq![header_view(d.spec_name())] + d.spec_fields().map_values(
                |f: EntityField| field_view(f),
            ) + seq![record_view(h, k)];
            let body = NodeView {
                kind: m.nodes[0].kind,
                children: m.nodes[0].children.push(NodeId(r as usize)),
            };
            MirModel {
                nodes: added.update(0, body),
                edges: m.edges,
                paths: field_paths(m.paths, d.spec_name(), d.spec_fields(), h + 1).insert(
                    seq![d.spec_name()],
                    r as usize,
                ),
            }
        },
        ModuleEntry::EntityRelation(rel) => {
            let a = rel.spec_start_path().key();
            let b = rel.spec_end_path().key();
            if m.paths.contains_key(a) && m.paths.contains_key(b) {
                MirModel {
                    nodes: m.nodes,
                    edges: m.edges.push(EdgeData { source_id: NodeId(m.paths[a]), target_id: NodeId(m.paths[b]) }),
                    paths: m.paths,
                }
            } else {
                m
            }
        },
    }
}

/// The document the entries compile into: an empty body, then each entry in
/// turn.
pub open spec fn mir_model(entries: Seq<ModuleEntry>) -> MirModel
    decreases entries.len(),
{
    if entries.len() == 0 {
        MirModel {
            nodes: seq![NodeView { kind: ShapeView::Body, children: Seq::empty() }],
            edges: Seq::empty(),
            paths: Map::empty(),
        }
    } else {
        mir_step(mir_model(entries.drop_last()), entries.last())
    }
}

/// Whether the entry `e` defines the path with key `k`: a definition
/// defines its entity and each of its fields; a relation defines nothing.
pub open spec fn entry_defines(e: ModuleEntry, k: Seq<Seq<char>>) -> bool {
    match e {
        ModuleEntry::EntityDefinition(d) => k == seq![d.spec_name()] || exists|j: int|
            0 <= j < d.spec_fields().len() && k == seq![d.spec_name(), #[trigger] d.spec_fields()[j].spec_name()],
        ModuleEntry::EntityRelation(_) => false,
    }
}

/// Whether some entry of `entries` defines the path with key `k`.
pub open spec fn defined_by(entries: Seq<ModuleEntry>, k: Seq<Seq<char>>) -> bool {
    exists|i: int| 0 <= i < entries.len() && entry_defines(#[trigger] entries[i], k)
}

/// Whether the entry at `i` is a relation whose two paths are defined by the
/// entries before it.
pub open spec fn linked_at(entries: Seq<ModuleEntry>, i: int) -> bool {
    match entries[i] {
        ModuleEntry::EntityRelation(r) => defined_by(entries.take(i), r.spec_start_path().key()) && defined_by(
            entries.take(i),
            r.spec_end_path().key(),
        ),
        ModuleEntry::EntityDefinition(_) => false,
    }
}

/// How many of the entries before position `i` are relations whose two
/// paths are defined by the entries before them.
pub open spec fn linked_count(entries: Seq<ModuleEntry>, i: int) -> nat
    decreases i,
{
    if i <= 0 {
        0
    } else {
        linked_count(entries, i - 1) + if linked_at(entries, i - 1) {
            1nat
        } else {
            0nat
        }
    }
}

/// The edge that a relation between the paths of keys `a` and `b` gets,
/// given where the paths defined so far stand.
pub open spec fn relation_edge(paths: Map<Seq<Seq<char>>, usize>, a: Seq<Seq<char>>, b: Seq<Seq<char>>) -> EdgeData {
    EdgeData { source_id: NodeId(paths[a]), target_id: NodeId(paths[b]) }
}

/// The paths of the fields of an entity add exactly the keys `[name, field]`.
proof fn lemma_field_paths_keys(
    paths: Map<Seq<Seq<char>>, usize>,
    name: Seq<char>,
    fields: Seq<EntityField>,
    start: nat,
    k: Seq<Seq<char>>,
)
    ensures
        field_paths(paths, name, fields, start).contains_key(k) <==> paths.contains_key(k) || exists|j: int|
            0 <= j < fields.len() && k == seq![name, #[trigger] fields[j].spec_name()],
    decreases fields.len(),
{
    if fields.len() > 0 {
        let rest = fields.drop_last();
        lemma_field_paths_keys(paths, name, rest, start, k);
        if exists|j: int| 0 <= j < fields.len() && k == seq![name, #[trigger] fields[j].spec_name()] {
            let j = choose|j: int| 0 <= j < fields.len() && k == seq![name, #[trigger] fields[j].spec_name()];
            if j < fields.len() - 1 {
                assert(rest[j] == fields[j]);
            }
        }
        if exists|j: int| 0 <= j < rest.len() && k == seq![name, #[trigger] rest[j].spec_name()] {
            let j = choose|j: int| 0 <= j < rest.len() && k == seq![name, #[trigger] rest[j].spec_name()];
            assert(rest[j] == fields[j]);
        }
    }
}

/// A path is defined in the document of the entries exactly when one of the
/// entries defines it.
proof fn lemma_model_paths(entries: Seq<ModuleEntry>, k: Seq<Seq<char>>)
    ensures
        mir_model(entries).paths.contains_key(k) <==> defined_by(entries, k),
    decreases entries.len(),
{
    if entries.len() > 0 {
        let rest = entries.drop_last();
        let e = entries.last();
        lemma_model_paths(rest, k);
        assert(defined_by(entries, k) <==> defined_by(rest, k) || entry_defines(e, k)) by {
            if defined_by(entries, k) {
                let i = choose|i: int| 0 <= i < entries.len() && entry_defines(#[trigger] entries[i], k);
                if i < entries.len() - 1 {
                    assert(rest[i] == entries[i]);
                }
            }
            if defined_by(rest, k) {
                let i = choose|i: int| 0 <= i < rest.len() && entry_defines(#[trigger] rest[i], k);
                assert(rest[i] == entries[i]);
            }
            assert(entries[entries.len() - 1] == e);
        }
        let m = mir_model(rest);
        match e {
            ModuleEntry::EntityDefinition(d) => {
                lemma_field_paths_keys(m.paths, d.spec_name(), d.spec_fields(), (m.nodes.len() + 1) as nat, k);
            },
            ModuleEntry::EntityRelation(_) => {},
        }
    }
}

/// Counting only grows.
proof fn lemma_linked_count_grows(entries: Seq<ModuleEntry>, i: int, j: int)
    requires
        i <= j,
    ensures
        linked_count(entries, i) <= linked_count(entries, j),
    decreases j - i,
{
    if i < j {
        lemma_linked_count_grows(entries, i, j - 1);
    }
}

/// The edges of the document of the first `i` entries: one for each
/// relation among them whose paths are defined by the entries before it.
proof fn lemma_model_edges_upto(entries: Seq<ModuleEntry>, i: int)
    requires
        0 <= i <= entries.len(),
    ensures
        mir_model(entries.take(i)).edges.len() == linked_count(entries, i),
        forall|j: int|
            0 <= j < i && #[trigger] linked_at(entries, j) ==> match entries[j] {
                ModuleEntry::EntityRelation(r) => mir_model(entries.take(i)).edges[linked_count(entries, j) as int]
                    == relation_edge(
                    mir_model(entries.take(j)).paths,
                    r.spec_start_path().key(),
                    r.spec_end_path().key(),
                ),
                ModuleEntry::EntityDefinition(_) => true,
            },
    decreases i,
{
    if i == 0 {
        assert(entries.take(0) =~= Seq::<ModuleEntry>::empty());
    } else {
        let h = i - 1;
        lemma_model_edges_upto(entries, h);
        let t = entries.take(i);
        assert(t.drop_last() =~= entries.take(h));
        assert(t.last() == entries[h]);
        let m = mir_model(entries.take(h));
        let m2 = mir_model(t);
        assert(m2 == mir_step(m, entries[h]));
        match entries[h] {
            ModuleEntry::EntityRelation(r) => {
                lemma_model_paths(entries.take(h), r.spec_start_path().key());
                lemma_model_paths(entries.take(h), r.spec_end_path().key());
            },
            ModuleEntry::EntityDefinition(_) => {},
        }
        assert(m2.edges.len() == linked_count(entries, i));
        assert forall|j: int| 0 <= j < i && #[trigger] linked_at(entries, j) implies match entries[j] {
            ModuleEntry::EntityRelation(r) => m2.edges[linked_count(entries, j) as int] == relation_edge(
                mir_model(entries.take(j)).paths,
                r.spec_start_path().key(),
                r.spec_end_path().key(),
            ),
            ModuleEntry::EntityDefinition(_) => true,
        } by {
            if j < h {
                lemma_linked_count_grows(entries, j + 1, h);
                assert(linked_count(entries, j + 1) == linked_count(entries, j) + 1);
                assert(m2.edges[linked_count(entries, j) as int] == m.edges[linked_count(entries, j) as int]);
            }
        }
    }
}

/// The document of a diagram has one edge for each relation whose two paths
/// are defined by earlier entries, in the order of the entries, however many
/// edges come before it: the edge goes from the node of the relation's start
/// path to the node of its end path, as the entries before the relation
/// left them. A path is defined exactly when an entry defines it.
pub proof fn lemma_mir_edges(entries: Seq<ModuleEntry>)
    ensures
        mir_model(entries).edges.len() == linked_count(entries, entries.len() as int),
        forall|i: int|
            0 <= i < entries.len() && #[trigger] linked_at(entries, i) ==> match entries[i] {
                ModuleEntry::EntityRelation(r) => mir_model(entries).edges[linked_count(entries, i) as int]
                    == relation_edge(
                    mir_model(entries.take(i)).paths,
                    r.spec_start_path().key(),
                    r.spec_end_path().key(),
                ),
                ModuleEntry::EntityDefinition(_) => true,
            },
        forall|k: Seq<Seq<char>>| #[trigger] mir_model(entries).paths.contains_key(k) <==> defined_by(entries, k),
{
    lemma_model_edges_upto(entries, entries.len() as int);
    assert(entries.take(entries.len() as int) =~= entries);
    assert forall|k: Seq<Seq<char>>| #[trigger] mir_model(entries).paths.contains_key(k) <==> defined_by(entries, k) by {
        lemma_model_paths(entries, k);
    }
}

/// How many nodes the entries before position `i` add to the document: for
/// each definition, a header, a node per field and a record.
pub open spec fn node_total(entries: Seq<ModuleEntry>, i: int) -> nat
    decreases i,
{
    if i <= 0 {
        0
    } else {
        node_total(entries, i - 1) + match entries[i - 1] {
            ModuleEntry::EntityDefinition(d) => d.spec_fields().len() + 2,
            ModuleEntry::EntityRelation(_) => 0nat,
        }
    }
}

/// How many of the entries before position `i` are definitions.
pub open spec fn definition_count(entries: Seq<ModuleEntry>, i: int) -> nat
    decreases i,
{
    if i <= 0 {
        0
    } else {
        definition_count(entries, i - 1) + if entries[i - 1] is EntityDefinition {
            1nat
        } else {
            0nat
        }
    }
}

/// The nodes of the definition `d` stand from position `h` on: its header,
/// a node per field in the order of the fields, and its record, whose
/// children they are; the record is the body's child at position `c`.
pub open spec fn laid_out(nodes: Seq<NodeView>, d: EntityDefinition, h: int, c: int) -> bool {
    let k = d.spec_fields().len();
    &&& 1 <= h
    &&& h + k + 2 <= nodes.len()
    &&& nodes[h] == header_view(d.spec_name())
    &&& forall|f: int| 0 <= f < k ==> nodes[h + 1 + f] == field_view(#[trigger] d.spec_fields()[f])
    &&& nodes[h + k + 1] == record_view(h as nat, k)
    &&& 0 <= c < nodes[0].children.len()
    &&& nodes[0].children[c] == NodeId((h + k + 1) as usize)
}

/// The nodes of the document of the first `i` entries.
proof fn lemma_model_nodes_upto(entries: Seq<ModuleEntry>, i: int)
    requires
        0 <= i <= entries.len(),
    ensures
        mir_model(entries.take(i)).nodes.len() == 1 + node_total(entries, i),
        mir_model(entries.take(i)).nodes[0].kind == ShapeView::Body,
        mir_model(entries.take(i)).nodes[0].children.len() == definition_count(entries, i),
        forall|j: int|
            0 <= j < i && #[trigger] entries[j] is EntityDefinition ==> laid_out(
                mir_model(entries.take(i)).nodes,
                entries[j]->EntityDefinition_0,
                1int + node_total(entries, j),
                definition_count(entries, j) as int,
            ),
    decreases i,
{
    if i == 0 {
        assert(entries.take(0) =~= Seq::<ModuleEntry>::empty());
    } else {
        let g = i - 1;
        lemma_model_nodes_upto(entries, g);
        let t = entries.take(i);
        assert(t.drop_last() =~= entries.take(g));
        assert(t.last() == entries[g]);
        let m = mir_model(entries.take(g));
        let m2 = mir_model(t);
        assert(m2 == mir_step(m, entries[g]));
        match entries[g] {
            ModuleEntry::EntityDefinition(d) => {
                let h = m.nodes.len() as int;
                let k = d.spec_fields().len() as int;
                let fv = d.spec_fields().map_values(|f: EntityField| field_view(f));
                let added = m.nodes + seq![header_view(d.spec_name())] + fv + seq![record_view(h as nat, k as nat)];
                assert(m2.nodes == added.update(
                    0,
                    NodeView { kind: m.nodes[0].kind, children: m.nodes[0].children.push(NodeId((h + k + 1) as usize)) },
                ));
                assert(m2.nodes.len() == 1 + node_total(entries, i));
                assert forall|x: int| 1 <= x < h implies #[trigger] m2.nodes[x] == m.nodes[x] by {
                    assert(added[x] == m.nodes[x]);
                }
                assert(laid_out(m2.nodes, d, h, definition_count(entries, g) as int)) by {
                    assert(added[h] == header_view(d.spec_name()));
                    assert forall|f: int| 0 <= f < k implies m2.nodes[h + 1 + f] == field_view(
                        #[trigger] d.spec_fields()[f],
                    ) by {
                        assert(added[h + 1 + f] == fv[f]);
                    }
                    assert(added[h + k + 1] == record_view(h as nat, k as nat));
                }
                assert forall|j: int|
                    0 <= j < i && #[trigger] entries[j] is EntityDefinition implies laid_out(
                    m2.nodes,
                    entries[j]->EntityDefinition_0,
                    1int + node_total(entries, j),
                    definition_count(entries, j) as int,
                ) by {
                    if j < g {
                        let dj = entries[j]->EntityDefinition_0;
                        let hj = 1int + node_total(entries, j);
                        let kj = dj.spec_fields().len() as int;
                        assert(laid_out(m.nodes, dj, hj, definition_count(entries, j) as int));
                        assert(m2.nodes[hj] == m.nodes[hj]);
                        assert(m2.nodes[hj + kj + 1] == m.nodes[hj + kj + 1]);
                        assert forall|f: int| 0 <= f < kj implies m2.nodes[hj + 1 + f] == field_view(
                            #[trigger] dj.spec_fields()[f],
                        ) by {
                            assert(m2.nodes[hj + 1 + f] == m.nodes[hj + 1 + f]);
                        }
                    }
                }
            },
            ModuleEntry::EntityRelation(r) => {
                assert(m2.nodes == m.nodes);
            },
        }
    }
}

/// The document of a diagram: the body first, then, for each definition in
/// turn, its header, a node per field and its record, whose children they
/// are; the body's children are the records, one per definition, in the
/// order of the definitions.
pub proof fn lemma_mir_nodes(entries: Seq<ModuleEntry>)
    ensures
        mir_model(entries).nodes.len() == 1 + node_total(entries, entries.len() as int),
        mir_model(entries).nodes[0].kind == ShapeView::Body,
        mir_model(entries).nodes[0].children.len() == definition_count(entries, entries.len() as int),
        forall|j: int|
            0 <= j < entries.len() && #[trigger] entries[j] is EntityDefinition ==> laid_out(
                mir_model(entries).nodes,
                entries[j]->EntityDefinition_0,
                1int + node_total(entries, j),
                definition_count(entries, j) as int,
            ),
{
    lemma_model_nodes_upto(entries, entries.len() as int);
    assert(entries.take(entries.len() as int) =~= entries);
}

/// The paths recorded so far: a later record of a path takes over.
pub open spec fn paths_map(v: Seq<(EntityPath, NodeId)>) -> Map<Seq<Seq<char>>, usize>
    decreases v.len(),
{
    if v.len() == 0 {
        Map::empty()
    } else {
        paths_map(v.drop_last()).insert(v.last().0.key(), v.last().1.0)
    }
}

/// A path not recorded from position `i` on has the value it had before `i`.
proof fn lemma_paths_map_prefix(v: Seq<(EntityPath, NodeId)>, i: int, k: Seq<Seq<char>>)
    requires
        0 <= i <= v.len(),
        forall|j: int| i <= j < v.len() ==> (#[trigger] v[j]).0.key() != k,
    ensures
        paths_map(v).contains_key(k) == paths_map(v.take(i)).contains_key(k),
        paths_map(v).contains_key(k) ==> paths_map(v)[k] == paths_map(v.take(i))[k],
    decreases v.len(),
{
    if v.len() == i {
        assert(v.take(i) =~= v);
    } else {
        assert(v.drop_last().take(i) =~= v.take(i));
        assert forall|j: int| i <= j < v.drop_last().len() implies (#[trigger] v.drop_last()[j]).0.key() != k by {
            assert(v.drop_last()[j] == v[j]);
        }
        lemma_paths_map_prefix(v.drop_last(), i, k);
    }
}

/// Every recorded node is below `bound` when every record is.
proof fn lemma_paths_map_bound(v: Seq<(EntityPath, NodeId)>, bound: nat)
    requires
        forall|i: int| 0 <= i < v.len() ==> (#[trigger] v[i]).1.0 < bound,
    ensures
        forall|k: Seq<Seq<char>>| #[trigger] paths_map(v).contains_key(k) ==> paths_map(v)[k] < bound,
    decreases v.len(),
{
    if v.len() > 0 {
        assert forall|i: int| 0 <= i < v.drop_last().len() implies (#[trigger] v.drop_last()[i]).1.0 < bound by {
            assert(v.drop_last()[i] == v[i]);
        }
        lemma_paths_map_bound(v.drop_last(), bound);
        assert(v.last().1.0 < bound);
        assert forall|k: Seq<Seq<char>>| #[trigger] paths_map(v).contains_key(k) implies paths_map(v)[k]
            < bound by {
            if k != v.last().0.key() {
                assert(paths_map(v.drop_last()).contains_key(k));
            }
        }
    }
}

/// The node recorded last for the path `p`, if any.
fn lookup_path(paths: &Vec<(EntityPath, NodeId)>, p: &EntityPath) -> (r: Option<NodeId>)
    ensures
        r is Some <==> paths_map(paths@).contains_key(p.key()),
        r matches Some(id) ==> paths_map(paths@)[p.key()] == id.0,
{
    let mut i = paths.len();
    while i > 0
        invariant
            i <= paths@.len(),
            forall|j: int| i <= j < paths@.len() ==> (#[trigger] paths@[j]).0.key() != p.key(),
        decreases i,
    {
        if paths[i - 1].0.same_as(p) {
            proof {
                lemma_paths_map_prefix(paths@, i as int, p.key());
                assert(paths@.take(i as int).drop_last() =~= paths@.take(i - 1));
            }
            return Some(paths[i - 1].1);
        }
        i -= 1;
    }
    proof {
        lemma_paths_map_prefix(paths@, 0, p.key());
        assert(paths@.take(0) =~= Seq::<(EntityPath, NodeId)>::empty());
    }
    None
}

fn column_type_color_of(column_type: &EntityFieldType) -> (r: WebColor)
    ensures
        r == column_type_color(*column_type),
{
    match column_type {
        EntityFieldType::Int => WebColor::RGB(RGBColor::new(236, 199, 0)),
        EntityFieldType::Uuid => WebColor::RGB(RGBColor::new(236, 199, 0)),
        EntityFieldType::Text => WebColor::RGB(RGBColor::new(214, 105, 5)),
        EntityFieldType::Timestamp => WebColor::RGB(RGBColor::new(6, 182, 151)),
    }
}

/// The model and the document under construction agree.
pub open spec fn agrees(doc: Document, paths: Seq<(EntityPath, NodeId)>, m: MirModel) -> bool {
    &&& doc.wf()
    &&& doc.spec_node_views() == m.nodes
    &&& doc.spec_edges() == m.edges
    &&& paths_map(paths) == m.paths
    &&& forall|i: int| 0 <= i < paths.len() ==> (#[trigger] paths[i]).1.0 < m.nodes.len()
}

impl EntityField {
    /// The field row shape of the field.
    fn into_shape(&self) -> (r: FieldShape)
        ensures
            r@ == (match field_view(*self).kind {
                ShapeView::Field(f) => f,
                _ => r@,
            }),
    {
        let name = TextSpan {
            text: self.name.clone(),
            color: Some(WebColor::Named(NamedColor::White)),
            font_family: Some(FontFamily::Monospace2),
            font_weight: Some(FontWeight::Lighter),
            font_size: None,
        };
        let column_type = TextSpan {
            text: self.field_type.to_string(),
            color: Some(column_type_color_of(&self.field_type)),
            font_family: Some(FontFamily::Monospace2),
            font_weight: Some(FontWeight::Lighter),
            font_size: Some(FontSize::Small),
        };
        let badge = match self.field_key {
            Some(key) => Some(key.into_mir()),
            None => None,
        };
        FieldShape {
            title: name,
            subtitle: Some(column_type),
            badge,
            bg_color: None,
            border_color: Some(WebColor::RGB(RGBColor::new(73, 73, 73))),
        }
    }
}

/// Appends `ids` to the children of node `parent`, one at a time.
fn append_children(doc: &mut Document, parent: NodeId, ids: &Vec<NodeId>)
    requires
        old(doc).wf(),
        parent.0 < old(doc).spec_nodes().len(),
    ensures
        final(doc).wf(),
        final(doc).spec_nodes().len() == old(doc).spec_nodes().len(),
        forall|i: int|
            0 <= i < old(doc).spec_nodes().len() && i != parent.0 ==> #[trigger] final(doc).spec_nodes()[i]
                == old(doc).spec_nodes()[i],
        final(doc).spec_nodes()[parent.0 as int].kind == old(doc).spec_nodes()[parent.0 as int].kind,
        final(doc).spec_nodes()[parent.0 as int].children@ == old(doc).spec_nodes()[parent.0 as int].children@
            + ids@,
        final(doc).spec_edges() == old(doc).spec_edges(),
{
    let ghost start = doc.spec_nodes();
    let mut t: usize = 0;
    while t < ids.len()
        invariant
            0 <= t <= ids@.len(),
            doc.wf(),
            parent.0 < start.len(),
            doc.spec_nodes().len() == start.len(),
            forall|i: int| 0 <= i < start.len() && i != parent.0 ==> #[trigger] doc.spec_nodes()[i] == start[i],
            doc.spec_nodes()[parent.0 as int].kind == start[parent.0 as int].kind,
            doc.spec_nodes()[parent.0 as int].children@ == start[parent.0 as int].children@ + ids@.take(
                t as int,
            ),
            doc.spec_edges() == old(doc).spec_edges(),
            start == old(doc).spec_nodes(),
        decreases ids@.len() - t,
    {
        let id = ids[t];
        let ghost before = doc.spec_nodes();
        match doc.get_node_mut(parent) {
            Some(node) => {
                node.append_child(id);
            },
            None => {},
        }
        proof {
            assert(ids@.take(t + 1) =~= ids@.take(t as int).push(id));
        }
        t += 1;
    }
    proof {
        assert(ids@.take(ids@.len() as int) =~= ids@);
    }
}

impl EntityDefinition {
    /// Adds the header, fields and record of the definition to `doc`, and
    /// records their paths.
    fn add_to(&self, doc: &mut Document, paths: &mut Vec<(EntityPath, NodeId)>, Ghost(m): Ghost<MirModel>)
        requires
            agrees(*old(doc), old(paths)@, m),
            mir_step(m, ModuleEntry::EntityDefinition(*self)).nodes.len() <= u32::MAX,
        ensures
            agrees(*final(doc), final(paths)@, mir_step(m, ModuleEntry::EntityDefinition(*self))),
    {
        let ghost h = m.nodes.len();
        let ghost k = self.fields@.len();
        let ghost target = mir_step(m, ModuleEntry::EntityDefinition(*self));
        let ghost fviews = self.fields@.map_values(|f: EntityField| field_view(f));
        proof {
            assert(target.nodes.len() == h + k + 2);
        }
        let header = FieldShape {
            title: TextSpan {
                text: self.name.clone(),
                color: Some(WebColor::Named(NamedColor::White)),
                font_family: Some(FontFamily::Monospace1),
                font_weight: Some(FontWeight::Bold),
                font_size: None,
            },
            subtitle: None,
            badge: None,
            bg_color: Some(WebColor::RGB(RGBColor::new(73, 73, 73))),
            border_color: None,
        };
        let header_id = doc.create_field(header);
        proof {
            assert(doc.spec_nodes() =~= old(doc).spec_nodes().push(doc.spec_nodes().last()));
            assert(doc.spec_node_views() =~= m.nodes.push(header_view(self.name@)));
        }
        let mut children: Vec<NodeId> = Vec::new();
        children.push(header_id);
        let n = self.fields.len();
        let mut j: usize = 0;
        while j < n
            invariant
                n == k,
                k == self.fields@.len(),
                h == m.nodes.len(),
                h >= 1,
                fviews == self.fields@.map_values(|f: EntityField| field_view(f)),
                0 <= j <= n,
                doc.wf(),
                doc.spec_node_views() == m.nodes + seq![header_view(self.name@)] + fviews.take(j as int),
                doc.spec_edges() == m.edges,
                paths_map(paths@) == field_paths(m.paths, self.name@, self.fields@.take(j as int), h + 1),
                forall|i: int| 0 <= i < paths@.len() ==> (#[trigger] paths@[i]).1.0 < doc.spec_nodes().len(),
                children@ == Seq::new((j + 1) as nat, |i: int| NodeId((h + i) as usize)),
                h + k + 2 <= u32::MAX,
            decreases n - j,
        {
            let field = &self.fields[j];
            let shape = field.into_shape();
            let ghost before = doc.spec_nodes();
            let ghost before_views = doc.spec_node_views();
            let ghost old_paths = paths@;
            assert(fviews.take(j as int).len() == j);
            assert(doc.spec_node_views().len() == h + 1 + j);
            assert(doc.spec_nodes().len() == h + 1 + j);
            let id = doc.create_field(shape);
            let path = EntityPath::Field(self.name.clone(), field.name.clone());
            paths.push((path, id));
            children.push(id);
            proof {
                let t = self.fields@.take(j + 1);
                assert(t.drop_last() =~= self.fields@.take(j as int));
                assert(t.last() == self.fields@[j as int]);
                assert(fviews.take(j + 1) =~= fviews.take(j as int).push(field_view(self.fields@[j as int])));
                assert(doc.spec_nodes() =~= before.push(doc.spec_nodes().last()));
                assert(doc.spec_nodes().last()@ == field_view(self.fields@[j as int]));
                assert(doc.spec_node_views() =~= before_views.push(field_view(self.fields@[j as int])));
                assert(doc.spec_node_views() =~= m.nodes + seq![header_view(self.name@)] + fviews.take(
                    j + 1,
                ));
                assert(paths@.drop_last() =~= old_paths);
                assert(children@ =~= Seq::new((j + 2) as nat, |i: int| NodeId((h + i) as usize)));
            }
            j += 1;
        }
        let record = RecordShape {
            rounded: true,
            bg_color: Some(WebColor::RGB(RGBColor::new(33, 33, 33))),
            border_color: Some(WebColor::RGB(RGBColor::new(73, 73, 73))),
        };
        let ghost before_record = doc.spec_nodes();
        let ghost old_paths = paths@;
        let record_id = doc.create_record(record);
        paths.push((EntityPath::Entity(self.name.clone()), record_id));
        proof {
            assert(doc.spec_nodes() =~= before_record.push(doc.spec_nodes().last()));
            assert(fviews.take(k as int) =~= fviews);
            assert(self.fields@.take(k as int) =~= self.fields@);
            assert(paths@.drop_last() =~= old_paths);
        }
        let ghost before_children = doc.spec_nodes();
        let ghost record_views = doc.spec_node_views();
        proof {
            assert(record_views =~= m.nodes + seq![header_view(self.name@)] + fviews + seq![
                NodeView { kind: ShapeView::Record(record), children: Seq::empty() },
            ]);
        }
        append_children(doc, record_id, &children);
        let ghost before_body = doc.spec_nodes();
        let ghost body = before_body[0];
        doc.body_mut().append_child(record_id);
        proof {
            let r = (h + k + 1) as int;
            let added = m.nodes + seq![header_view(self.name@)] + fviews + seq![record_view(h, k)];
            assert(target.nodes == added.update(
                0,
                NodeView { kind: m.nodes[0].kind, children: m.nodes[0].children.push(NodeId(r as usize)) },
            ));
            assert(doc.spec_node_views().len() == target.nodes.len());
            assert forall|i: int| 0 <= i < target.nodes.len() implies #[trigger] doc.spec_node_views()[i]
                == target.nodes[i] by {
                if i == 0 {
                    assert(body == before_children[0]);
                    assert(before_children[0]@ == record_views[0]);
                    assert(record_views[0] == m.nodes[0]);
                } else if i < r {
                    assert(doc.spec_nodes()[i] == before_body[i]);
                    assert(before_body[i] == before_children[i]);
                    assert(before_children[i]@ == record_views[i]);
                    assert(record_views[i] == added[i]);
                } else {
                    assert(doc.spec_nodes()[i] == before_body[i]);
                    assert(children@ =~= Seq::new(k + 1, |j: int| NodeId((h + j) as usize)));
                    assert(before_body[r].children@ =~= children@);
                    assert(before_body[r].kind == before_children[r].kind);
                    assert(before_children[r]@ == record_views[r]);
                    assert(added[r] == record_view(h, k));
                }
            }
            assert(doc.spec_node_views() =~= target.nodes);
        }
    }
}

impl EntityRelation {
    /// Adds the edge of the relation to `doc` when both of its paths are
    /// defined.
    fn add_to(&self, doc: &mut Document, paths: &Vec<(EntityPath, NodeId)>, Ghost(m): Ghost<MirModel>)
        requires
            agrees(*old(doc), paths@, m),
            mir_step(m, ModuleEntry::EntityRelation(*self)).edges.len() <= u32::MAX,
        ensures
            agrees(*final(doc), paths@, mir_step(m, ModuleEntry::EntityRelation(*self))),
    {
        let start = lookup_path(paths, &self.start_path);
        let end = lookup_path(paths, &self.end_path);
        proof {
            lemma_paths_map_bound(paths@, m.nodes.len());
        }
        match (start, end) {
            (Some(a), Some(b)) => {
                doc.add_edge(EdgeData::new(a, b));
            },
            _ => {},
        }
    }
}

impl Module {
    /// Compiles the diagram into a document: for each definition, a record
    /// whose children are a header and one row per field; for each relation
    /// whose ends are defined by earlier entries, an edge between them.
    pub fn into_mir(&self) -> (doc: Document)
        requires
            mir_model(self.spec_entries()).nodes.len() <= u32::MAX,
            mir_model(self.spec_entries()).edges.len() <= u32::MAX,
        ensures
            doc.wf(),
            doc.spec_node_views() == mir_model(self.spec_entries()).nodes,
            doc.spec_edges() == mir_model(self.spec_entries()).edges,
            doc.spec_node_views().len() == 1 + node_total(self.spec_entries(), self.spec_entries().len() as int),
            doc.spec_node_views()[0].kind == ShapeView::Body,
            doc.spec_node_views()[0].children.len() == definition_count(
                self.spec_entries(),
                self.spec_entries().len() as int,
            ),
            forall|j: int|
                0 <= j < self.spec_entries().len() && #[trigger] self.spec_entries()[j] is EntityDefinition ==> laid_out(
                    doc.spec_node_views(),
                    self.spec_entries()[j]->EntityDefinition_0,
                    1int + node_total(self.spec_entries(), j),
                    definition_count(self.spec_entries(), j) as int,
                ),
            doc.spec_edges().len() == linked_count(self.spec_entries(), self.spec_entries().len() as int),
            forall|i: int|
                0 <= i < self.spec_entries().len() && #[trigger] linked_at(self.spec_entries(), i) ==> match self.spec_entries()[i] {
                    ModuleEntry::EntityRelation(r) => doc.spec_edges()[linked_count(self.spec_entries(), i) as int]
                        == relation_edge(
                        mir_model(self.spec_entries().take(i)).paths,
                        r.spec_start_path().key(),
                        r.spec_end_path().key(),
                    ),
                    ModuleEntry::EntityDefinition(_) => true,
                },
    {
        let mut doc = Document::new();
        let mut paths: Vec<(EntityPath, NodeId)> = Vec::new();
        proof {
            assert(doc.spec_node_views() =~= mir_model(Seq::<ModuleEntry>::empty()).nodes);
        }
        let n = self.entries.len();
        let mut i: usize = 0;
        while i < n
            invariant
                0 <= i <= n,
                n == self.entries@.len(),
                agrees(doc, paths@, mir_model(self.entries@.take(i as int))),
                mir_model(self.spec_entries()).nodes.len() <= u32::MAX,
                mir_model(self.spec_entries()).edges.len() <= u32::MAX,
            decreases n - i,
        {
            proof {
                assert(self.entries@.take(i + 1).drop_last() =~= self.entries@.take(i as int));
                lemma_model_grows(self.entries@, i + 1);
            }
            match &self.entries[i] {
                ModuleEntry::EntityDefinition(d) => {
                    d.add_to(&mut doc, &mut paths, Ghost(mir_model(self.entries@.take(i as int))));
                },
                ModuleEntry::EntityRelation(r) => {
                    r.add_to(&mut doc, &paths, Ghost(mir_model(self.entries@.take(i as int))));
                },
            }
            i += 1;
        }
        proof {
            assert(self.entries@.take(n as int) =~= self.entries@);
            lemma_mir_edges(self.entries@);
            lemma_mir_nodes(self.entries@);
        }
        doc
    }
}

/// The model only grows from one entry to the next.
proof fn lemma_model_grows(entries: Seq<ModuleEntry>, i: int)
    requires
        0 <= i <= entries.len(),
    ensures
        mir_model(entries.take(i)).nodes.len() <= mir_model(entries).nodes.len(),
        mir_model(entries.take(i)).edges.len() <= mir_model(entries).edges.len(),
        mir_model(entries.take(i)).nodes.len() >= 1,
    decreases entries.len() - i,
{
    if i < entries.len() {
        lemma_model_grows(entries, i + 1);
        assert(entries.take(i + 1).drop_last() =~= entries.take(i));
    } else {
        assert(entries.take(i) =~= entries);
    }
    lemma_model_nonempty(entries.take(i));
}

/// The model always holds the body.
proof fn lemma_model_nonempty(entries: Seq<ModuleEntry>)
    ensures
        mir_model(entries).nodes.len() >= 1,
    decreases entries.len(),
{
    if entries.len() > 0 {
        lemma_model_nonempty(entries.drop_last());
    }
}

} // verus!
