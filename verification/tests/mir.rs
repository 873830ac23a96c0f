use seiren::mir::{Document, FieldShape, ShapeKind, TextSpan};

fn text_span(text: &str) -> TextSpan {
    TextSpan { text: text.to_string(), color: None, font_family: None, font_weight: None, font_size: None }
}

#[test]
fn build_doc() {
    let mut doc = Document::new();

    let title = text_span("id");
    let field = FieldShape { title, subtitle: None, badge: None, bg_color: None, border_color: None };

    let node_index = doc.create_field(field);

    let node = doc.get_node(node_index);
    assert!(node.is_some());

    let node = node.unwrap();
    let ShapeKind::Field(field) = &node.kind else { panic!() };

    assert_eq!(field.title.text, "id");

    // mutate
    {
        let node = doc.get_node_mut(node_index).unwrap();
        let ShapeKind::Field(field) = &mut node.kind else { panic!() };

        field.title.text = "uuid".to_string();
    }

    let node = doc.get_node(node_index).unwrap();
    let ShapeKind::Field(field) = &node.kind else { panic!() };

    assert_eq!(field.title.text, "uuid");
}

#[test]
fn new_document_has_only_the_body() {
    let doc = Document::new();
    assert!(matches!(doc.body().kind, ShapeKind::Body(_)));
    assert!(doc.body().children().is_empty());
    assert!(doc.edge_ids().is_empty());
}
