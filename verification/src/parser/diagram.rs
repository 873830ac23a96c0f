//! From the syntax tree to the diagram: the entries of an `ErdModule` become
//! the definitions and relations of an `erd::Module`.
use vstd::prelude::*;
use crate::erd;
use super::{
    entry_views, field_views, Definition, DefinitionView, EntityDefinition, EntityPath, EntryView,
    ErdModule, Expr, ExprView, FieldView, ModuleEntry, PathView, Stmt,
};

verus! {

/// The first path of an expression.
pub open spec fn first_path(e: ExprView) -> PathView
    decreases e,
{
    match e {
        ExprView::Relation(a, _) => first_path(*a),
        ExprView::Entity(p) => p,
    }
}

/// The last path of an expression.
pub open spec fn last_path(e: ExprView) -> PathView
    decreases e,
{
    match e {
        ExprView::Relation(_, b) => last_path(*b),
        ExprView::Entity(p) => p,
    }
}

/// The relations an expression states: each `o--o` joins the path just
/// before it to the path just after it, so that `a o--o b o--o c` relates
/// `a` to `b` and `b` to `c`.
pub open spec fn relation_pairs(e: ExprView) -> Seq<(PathView, PathView)>
    decreases e,
{
    match e {
        ExprView::Relation(a, b) => relation_pairs(*a) + relation_pairs(*b) + seq![(last_path(*a), first_path(*b))],
        ExprView::Entity(_) => Seq::empty(),
    }
}

/// An entry of a diagram, as the parsed entries give it.
pub enum DiagramEntryView {
    Definition(DefinitionView),
    Relation(PathView, PathView),
}

/// The diagram entries that parsed entries give: a definition gives itself,
/// a statement the relations it states, in order.
pub open spec fn diagram_entries(entries: Seq<EntryView>) -> Seq<DiagramEntryView>
    decreases entries.len(),
{
    if entries.len() == 0 {
        Seq::empty()
    } else {
        diagram_entries(entries.drop_last()) + match entries.last() {
            EntryView::Definition(d) => seq![DiagramEntryView::Definition(d)],
            EntryView::Stmt(e) => relation_pairs(e).map_values(
                |pq: (PathView, PathView)| DiagramEntryView::Relation(pq.0, pq.1),
            ),
        }
    }
}

/// The path a diagram path names.
pub open spec fn diagram_path(p: erd::EntityPath) -> PathView {
    match p {
        erd::EntityPath::Entity(e) => PathView::Table(e@),
        erd::EntityPath::Field(e, f) => PathView::Column(e@, f@),
    }
}

/// What an entry of a diagram holds.
pub open spec fn diagram_entry(e: erd::ModuleEntry) -> DiagramEntryView {
    match e {
        erd::ModuleEntry::EntityDefinition(d) => DiagramEntryView::Definition(
            DefinitionView {
                name: d.spec_name(),
                fields: d.spec_fields().map_values(
                    |f: erd::EntityField|
                        FieldView { name: f.spec_name(), field_type: f.spec_field_type(), field_key: f.spec_field_key() },
                ),
            },
        ),
        erd::ModuleEntry::EntityRelation(r) => DiagramEntryView::Relation(
            diagram_path(r.spec_start_path()),
            diagram_path(r.spec_end_path()),
        ),
    }
}

impl EntityPath {
    /// The same path in the diagram.
    fn to_diagram(&self) -> (r: erd::EntityPath)
        ensures
            diagram_path(r) == self@,
    {
        match self {
            EntityPath::Table(t) => erd::EntityPath::Entity(t.clone()),
            EntityPath::Column(t, c) => erd::EntityPath::Field(t.clone(), c.clone()),
        }
    }
}

impl Expr {
    fn first_path(&self) -> (r: &EntityPath)
        ensures
            r@ == first_path(self@),
        decreases self,
    {
        match self {
            Expr::Relation(a, _) => a.first_path(),
            Expr::Entity(p) => p,
        }
    }

    fn last_path(&self) -> (r: &EntityPath)
        ensures
            r@ == last_path(self@),
        decreases self,
    {
        match self {
            Expr::Relation(_, b) => b.last_path(),
            Expr::Entity(p) => p,
        }
    }

    /// Adds the relations the expression states to `module`.
    fn add_relations(&self, module: &mut erd::Module)
        ensures
            final(module).spec_name() == old(module).spec_name(),
            final(module).spec_entries().map_values(|e: erd::ModuleEntry| diagram_entry(e)) == old(
                module,
            ).spec_entries().map_values(|e: erd::ModuleEntry| diagram_entry(e)) + relation_pairs(self@).map_values(
                |pq: (PathView, PathView)| DiagramEntryView::Relation(pq.0, pq.1),
            ),
        decreases self,
    {
        let ghost before = module.spec_entries();
        match self {
            Expr::Relation(a, b) => {
                a.add_relations(module);
                b.add_relations(module);
                let ghost middle = module.spec_entries();
                let start = a.last_path().to_diagram();
                let end = b.first_path().to_diagram();
                let relation = erd::EntityRelation::new(start, end);
                module.add_entity_relation(relation);
                proof {
                    let f = |e: erd::ModuleEntry| diagram_entry(e);
                    let g = |pq: (PathView, PathView)| DiagramEntryView::Relation(pq.0, pq.1);
                    assert(module.spec_entries().map_values(f) =~= middle.map_values(f).push(
                        DiagramEntryView::Relation(last_path(a@), first_path(b@)),
                    ));
                    assert(relation_pairs(self@).map_values(g) =~= relation_pairs(a@).map_values(g)
                        + relation_pairs(b@).map_values(g) + seq![
                        DiagramEntryView::Relation(last_path(a@), first_path(b@)),
                    ]);
                    assert(module.spec_entries().map_values(f) =~= before.map_values(f) + relation_pairs(
                        self@,
                    ).map_values(g));
                }
            },
            Expr::Entity(_) => {
                proof {
                    let f = |e: erd::ModuleEntry| diagram_entry(e);
                    assert(before.map_values(f) =~= before.map_values(f) + relation_pairs(self@).map_values(
                        |pq: (PathView, PathView)| DiagramEntryView::Relation(pq.0, pq.1),
                    ));
                }
            },
        }
    }
}

impl EntityDefinition {
    /// The same definition in the diagram.
    fn to_diagram(&self) -> (r: erd::EntityDefinition)
        ensures
            r.spec_name() == self.name@,
            r.spec_fields().map_values(
                |f: erd::EntityField|
                    FieldView { name: f.spec_name(), field_type: f.spec_field_type(), field_key: f.spec_field_key() },
            ) == field_views(self.fields@),
    {
        let mut d = erd::EntityDefinition::new(self.name.clone());
        let n = self.fields.len();
        let mut i: usize = 0;
        while i < n
            invariant
                n == self.fields@.len(),
                i <= n,
                d.spec_name() == self.name@,
                d.spec_fields().map_values(
                    |f: erd::EntityField|
                        FieldView { name: f.spec_name(), field_type: f.spec_field_type(), field_key: f.spec_field_key() },
                ) == field_views(self.fields@.take(i as int)),
            decreases n - i,
        {
            let f = &self.fields[i];
            let field = erd::EntityField::new(f.name.clone(), f.field_type, f.field_key);
            d.add_field(field);
            proof {
                assert(field_views(self.fields@.take(i + 1)) =~= field_views(self.fields@.take(i as int)).push(
                    self.fields@[i as int]@,
                ));
                assert(d.spec_fields().map_values(
                    |f: erd::EntityField|
                        FieldView { name: f.spec_name(), field_type: f.spec_field_type(), field_key: f.spec_field_key() },
                ) =~= field_views(self.fields@.take(i + 1)));
            }
            i += 1;
        }
        proof {
            assert(self.fields@.take(n as int) =~= self.fields@);
        }
        d
    }
}

impl ErdModule {
    /// The diagram that the parsed module describes: its name, and, in
    /// order, each definition, and the relations that each statement states.
    pub fn to_module(&self) -> (r: erd::Module)
        ensures
            r.spec_name() == self@.name,
            r.spec_entries().map_values(|e: erd::ModuleEntry| diagram_entry(e)) == diagram_entries(
                self@.entries,
            ),
    {
        let name = match &self.name {
            Some(n) => Some(n.clone()),
            None => None,
        };
        let mut module = erd::Module::new(name);
        let n = self.entries.len();
        let mut i: usize = 0;
        proof {
            assert(module.spec_entries().map_values(|e: erd::ModuleEntry| diagram_entry(e)) =~= diagram_entries(
                entry_views(self.entries@.take(0)),
            ));
        }
        while i < n
            invariant
                n == self.entries@.len(),
                i <= n,
                module.spec_name() == self@.name,
                module.spec_entries().map_values(|e: erd::ModuleEntry| diagram_entry(e)) == diagram_entries(
                    entry_views(self.entries@.take(i as int)),
                ),
            decreases n - i,
        {
            let ghost before = module.spec_entries();
            match &self.entries[i] {
                ModuleEntry::Definition(Definition::EntityDefinition(d)) => {
                    let definition = d.to_diagram();
                    module.add_entity_definition(definition);
                    proof {
                        let f = |e: erd::ModuleEntry| diagram_entry(e);
                        assert(module.spec_entries().map_values(f) =~= before.map_values(f).push(
                            DiagramEntryView::Definition(d@),
                        ));
                    }
                },
                ModuleEntry::Stmt(Stmt::Expr(e)) => {
                    e.add_relations(&mut module);
                },
            }
            proof {
                let es = entry_views(self.entries@.take(i + 1));
                assert(es.drop_last() =~= entry_views(self.entries@.take(i as int)));
                assert(es.last() == self.entries@[i as int]@);
            }
            i += 1;
        }
        proof {
            assert(self.entries@.take(n as int) =~= self.entries@);
        }
        module
    }
}

} // verus!
