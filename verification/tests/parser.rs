use seiren::erd::{EntityFieldKey, EntityFieldType, ModuleEntry as DiagramEntry};
use seiren::parser::{
    parser, Definition, EntityDefinition, EntityField, EntityPath, ErdModule, Expr, ModuleEntry, ParseError, Stmt,
};

const SOURCE: &str = "erd {
    users {
        id int PK
        name text
    }
    posts { id int PK; created_by int FK }
    posts.created_by o--o users.id
}
";

fn definition(entry: &ModuleEntry) -> &EntityDefinition {
    match entry {
        ModuleEntry::Definition(Definition::EntityDefinition(d)) => d,
        other => panic!("not a definition: {:?}", other),
    }
}

fn expression(entry: &ModuleEntry) -> &Expr {
    match entry {
        ModuleEntry::Stmt(Stmt::Expr(e)) => e,
        other => panic!("not a statement: {:?}", other),
    }
}

#[test]
fn parses_definitions_and_relations() {
    let module = parser(SOURCE).expect("a diagram");
    assert_eq!(module.name, None);
    assert_eq!(module.entries.len(), 3);

    let users = definition(&module.entries[0]);
    assert_eq!(users.name, "users");
    assert_eq!(users.fields.len(), 2);
    assert_eq!(users.fields[0].name, "id");
    assert_eq!(users.fields[0].field_type, EntityFieldType::Int);
    assert_eq!(users.fields[0].field_key, Some(EntityFieldKey::PrimaryKey));
    assert_eq!(users.fields[1].name, "name");
    assert_eq!(users.fields[1].field_type, EntityFieldType::Text);
    assert_eq!(users.fields[1].field_key, None);

    let posts = definition(&module.entries[1]);
    assert_eq!(posts.name, "posts");
    assert_eq!(posts.fields[1].name, "created_by");
    assert_eq!(posts.fields[1].field_key, Some(EntityFieldKey::ForeginKey));

    let relation = expression(&module.entries[2]);
    assert_eq!(relation.to_string(), "(posts.created_by o--o users.id)");
}

#[test]
fn module_name_and_empty_body() {
    let module = parser("  erd shop {}  ").expect("a diagram");
    assert_eq!(module.name.as_deref(), Some("shop"));
    assert!(module.entries.is_empty());

    let module = parser("erd{\n}").expect("a diagram");
    assert_eq!(module.name, None);
}

#[test]
fn relation_chains_nest_to_the_left() {
    let module = parser("erd { a o--o b.c o--o d }").expect("a diagram");
    let e = expression(&module.entries[0]);
    assert_eq!(e.to_string(), "((a o--o b.c) o--o d)");
    match e {
        Expr::Relation(left, right) => {
            assert!(matches!(**left, Expr::Relation(_, _)));
            assert!(matches!(&**right, Expr::Entity(EntityPath::Table(t)) if t == "d"));
        },
        _ => panic!("not a relation"),
    }
}

#[test]
fn keywords_are_whole_identifiers() {
    // `integer` is an identifier, not the type `int`
    assert!(parser("erd { t { a integer } }").is_err());
    // a field may be named like a keyword
    let module = parser("erd { t { int int; PK text FK } }").expect("a diagram");
    let t = definition(&module.entries[0]);
    assert_eq!(t.fields[0].name, "int");
    assert_eq!(t.fields[1].name, "PK");
    assert_eq!(t.fields[1].field_key, Some(EntityFieldKey::ForeginKey));
}

#[test]
fn separators() {
    let module = parser("erd { a; b\r\nc\n\n  d }").expect("a diagram");
    assert_eq!(module.entries.len(), 4);
    // a separator needs an entry after it
    assert!(parser("erd { a; }").is_err());
}

#[test]
fn parse_errors_give_a_position() {
    // the module's `}` is looked for at the end of the text
    assert_eq!(parser("erd { t { a int } ").err(), Some(ParseError { offset: 18 }));
    assert_eq!(parser("\n erd { t { a int } ").err(), Some(ParseError { offset: 20 }));
    // text after the module
    assert_eq!(parser("  erd {} x").err(), Some(ParseError { offset: 9 }));
    // no module at all
    assert_eq!(parser("graph {}").err(), Some(ParseError { offset: 0 }));
    // an unknown type: the furthest the parser got is the start of `integer`
    assert_eq!(parser("erd { t { a integer } }").err(), Some(ParseError { offset: 12 }));
}

#[test]
fn writes_the_syntax_tree() {
    let module = parser(SOURCE).expect("a diagram");
    assert_eq!(
        module.to_string(),
        "erd {\n  users { id int PK; name text }\n  posts { id int PK; created_by int FK }\n  (posts.created_by o--o users.id)\n}"
    );
    let field = EntityField { name: "at".to_string(), field_type: EntityFieldType::Timestamp, field_key: None };
    assert_eq!(field.to_string(), "at timestamp");
    let empty = EntityDefinition { name: "e".to_string(), fields: vec![] };
    assert_eq!(empty.to_string(), "e {}");
    assert_eq!(EntityPath::Column("a".into(), "b".into()).to_string(), "a.b");
    assert_eq!(module.entries[0].to_string(), "users { id int PK; name text }");
}

#[test]
fn written_definitions_read_back() {
    let source = "erd {\n  users { id int PK; name text }\n  empty {}\n}";
    let module = parser(source).expect("a diagram");
    assert_eq!(module.to_string(), source);
    let again = parser(&module.to_string()).expect("a diagram");
    assert_eq!(again.to_string(), source);
}

#[test]
fn builds_the_diagram() {
    let module = parser("erd m { a { x int }\n b { y int }\n a.x o--o b.y o--o a }").expect("a diagram");
    let diagram = module.to_module();
    assert_eq!(diagram.name(), Some("m"));
    let entries = diagram.entries();
    assert_eq!(entries.len(), 4);
    assert!(matches!(&entries[0], DiagramEntry::EntityDefinition(d) if d.name() == "a"));
    assert!(matches!(&entries[1], DiagramEntry::EntityDefinition(d) if d.name() == "b"));
    match &entries[2] {
        DiagramEntry::EntityRelation(r) => assert_eq!(r.to_string(), "a.x o--o b.y"),
        _ => panic!("not a relation"),
    }
    match &entries[3] {
        DiagramEntry::EntityRelation(r) => assert_eq!(r.to_string(), "b.y o--o a"),
        _ => panic!("not a relation"),
    }
    // a lone path states no relation
    let module = parser("erd { a }").expect("a diagram");
    assert!(module.to_module().entries().is_empty());
}

#[test]
fn module_type_is_built_by_hand_too() {
    let m = ErdModule { name: Some("x".into()), entries: vec![] };
    assert_eq!(m.to_string(), "erd {\n}");
}
