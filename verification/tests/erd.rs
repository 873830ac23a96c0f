use seiren::erd::{EntityDefinition, EntityField, EntityFieldKey, EntityFieldType, EntityPath, EntityRelation, Module};
use seiren::mir::{Document, EdgeId, NodeId, ShapeKind};

fn demo() -> Module {
    let mut diagram = Module::new(None);
    let mut users_table = EntityDefinition::new("users".into());
    let mut posts_table = EntityDefinition::new("posts".into());

    users_table.add_field(EntityField::new("id".into(), EntityFieldType::Int, Some(EntityFieldKey::PrimaryKey)));
    users_table.add_field(EntityField::new("uuid".into(), EntityFieldType::Uuid, None));
    users_table.add_field(EntityField::new("email".into(), EntityFieldType::Text, None));
    users_table.add_field(EntityField::new("about_html".into(), EntityFieldType::Text, None));
    users_table.add_field(EntityField::new("created_at".into(), EntityFieldType::Timestamp, None));

    posts_table.add_field(EntityField::new("id".into(), EntityFieldType::Int, Some(EntityFieldKey::PrimaryKey)));
    posts_table.add_field(EntityField::new("uuid".into(), EntityFieldType::Uuid, None));
    posts_table.add_field(EntityField::new("title".into(), EntityFieldType::Text, None));
    posts_table.add_field(EntityField::new("content".into(), EntityFieldType::Text, None));
    posts_table.add_field(EntityField::new("created_at".into(), EntityFieldType::Timestamp, None));
    posts_table.add_field(EntityField::new("created_by".into(), EntityFieldType::Int, Some(EntityFieldKey::ForeginKey)));

    diagram.add_entity_definition(users_table);
    diagram.add_entity_definition(posts_table);
    diagram.add_entity_relation(EntityRelation::new(
        EntityPath::Field("posts".into(), "created_by".into()),
        EntityPath::Field("users".into(), "id".into()),
    ));
    diagram
}

fn children(doc: &Document, id: usize) -> Vec<usize> {
    doc.get_node(NodeId(id)).unwrap().children().iter().map(|c| c.0).collect()
}

#[test]
fn demo_document_shape() {
    let doc = demo().into_mir();
    // body, then for each table its header, fields and record
    assert_eq!(children(&doc, 0), vec![7, 15]);
    assert_eq!(children(&doc, 7), vec![1, 2, 3, 4, 5, 6]);
    assert_eq!(children(&doc, 15), vec![8, 9, 10, 11, 12, 13, 14]);
    assert!(doc.get_node(NodeId(16)).is_none());
    assert!(matches!(doc.body().kind(), ShapeKind::Body(_)));
    assert!(matches!(doc.get_node(NodeId(7)).unwrap().kind(), ShapeKind::Record(_)));

    // the relation joins posts.created_by to users.id
    assert_eq!(doc.edge_ids(), vec![EdgeId(0)]);
    assert_eq!(doc.edge_endpoints(EdgeId(0)), Some((NodeId(14), NodeId(2))));
    let edge = doc.edge(EdgeId(0)).unwrap();
    assert_eq!(edge.source_id(), NodeId(14));
    assert_eq!(edge.target_id(), NodeId(2));
    assert_eq!(doc.edges().len(), 1);
}

#[test]
fn field_rows_show_name_type_and_key() {
    let doc = demo().into_mir();
    match doc.get_node(NodeId(2)).unwrap().kind() {
        ShapeKind::Field(f) => {
            assert_eq!(f.title.text, "id");
            assert_eq!(f.subtitle.as_ref().unwrap().text, "int");
            assert_eq!(f.subtitle.as_ref().unwrap().color.unwrap().to_string(), "#ECC700");
            let badge = f.badge.as_ref().unwrap();
            assert_eq!(badge.text, "PK");
            assert_eq!(badge.bg_color.unwrap().to_string(), "#373737");
        },
        _ => panic!("not a field"),
    }
    match doc.get_node(NodeId(1)).unwrap().kind() {
        ShapeKind::Field(f) => {
            assert_eq!(f.title.text, "users");
            assert!(f.subtitle.is_none());
            assert_eq!(f.bg_color.unwrap().to_string(), "#494949");
        },
        _ => panic!("not a header"),
    }
    match doc.get_node(NodeId(14)).unwrap().kind() {
        ShapeKind::Field(f) => {
            let badge = f.badge.as_ref().unwrap();
            assert_eq!(badge.text, "FK");
            assert_eq!(badge.color.unwrap().to_string(), "#1170FB");
            assert_eq!(badge.bg_color.unwrap().to_string(), "#202937");
        },
        _ => panic!("not a field"),
    }
}

#[test]
fn relation_to_unknown_path_adds_no_edge() {
    let mut diagram = Module::new(Some("x".into()));
    diagram.add_entity_definition(EntityDefinition::new("a".into()));
    diagram.add_entity_relation(EntityRelation::new(EntityPath::Entity("a".into()), EntityPath::Entity("b".into())));
    diagram.add_entity_relation(EntityRelation::new(EntityPath::Entity("a".into()), EntityPath::Entity("a".into())));
    let doc = diagram.into_mir();
    assert_eq!(doc.edge_ids().len(), 1);
    assert_eq!(doc.edge_endpoints(EdgeId(0)), Some((NodeId(2), NodeId(2))));
}

#[test]
fn empty_module_is_an_empty_body() {
    let doc = Module::new(None).into_mir();
    assert!(doc.body().children().is_empty());
    assert!(doc.edge_ids().is_empty());
}

#[test]
fn diagram_text() {
    let diagram = demo();
    let text = diagram.to_string();
    assert!(text.starts_with("erd {\n    users { id int PK; uuid uuid;"));
    assert!(text.ends_with("    posts.created_by o--o users.id\n}"));
    assert_eq!(EntityFieldKey::PrimaryKey.to_keyword(), "PK");
    assert_eq!(EntityFieldKey::ForeginKey.to_string(), "Foregin Key");
    assert_eq!(EntityFieldType::Timestamp.to_string(), "timestamp");
}

#[test]
fn later_definition_takes_over_a_path() {
    let mut diagram = Module::new(None);
    diagram.add_entity_definition(EntityDefinition::new("a".into()));
    diagram.add_entity_definition(EntityDefinition::new("a".into()));
    diagram.add_entity_relation(EntityRelation::new(EntityPath::Entity("a".into()), EntityPath::Entity("a".into())));
    let doc = diagram.into_mir();
    // records at 2 and 4; the second takes over the path `a`
    assert_eq!(doc.edge_endpoints(EdgeId(0)), Some((NodeId(4), NodeId(4))));
}
