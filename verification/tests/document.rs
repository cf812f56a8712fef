use pyramid::decimal::Decimal;
use pyramid::document::DocError;
use pyramid::document::Document;
use pyramid::loader::Attribute;
use pyramid::loader::DocEvent;
use pyramid::loader::LoadWarning;
use pyramid::parser::PonParseError;
use pyramid::pon::EntityPath;
use pyramid::pon::NamedPropRef;
use pyramid::pon::Pon;
use pyramid::pon::PropRef;
use pyramid::pon_translations::PonTranslateErr;
use pyramid::pon_translations::TranslateContext;

#[test]
fn test_property_get() {
    let doc = Document::from_string(r#"<Entity name="tmp" x="5.0" />"#).unwrap();
    let ent = doc.get_entity_by_name("tmp").unwrap();
    assert_eq!(*doc.get_property(&ent, "x").unwrap(), Pon::from_string("5.0").unwrap());
}

#[test]
fn test_property_set() {
    let mut doc = Document::from_string(r#"<Entity name="tmp" x="5.0" />"#).unwrap();
    let ent = doc.get_entity_by_name("tmp").unwrap();
    {
        doc.set_property(&ent, "x", Pon::Integer(9)).unwrap();
    }
    assert_eq!(*doc.get_property(&ent, "x").unwrap(), Pon::from_string("9").unwrap());
}

#[test]
fn test_property_reference_straight() {
    let doc = Document::from_string(r#"<Entity name="tmp" x="5.0" y="@this.x" />"#).unwrap();
    let ent = doc.get_entity_by_name("tmp").unwrap();
    assert_eq!(
        doc.get_property(&ent, "y").unwrap().concretize(&TranslateContext::from_doc(&doc)).unwrap(),
        Pon::from_string("5.0").unwrap()
    );
}

#[test]
fn test_property_reference_object() {
    let doc = Document::from_string(r#"<Entity name="tmp" x="5.0" y="{ some: @this.x }" />"#).unwrap();
    let ent = doc.get_entity_by_name("tmp").unwrap();
    assert_eq!(
        doc.get_property(&ent, "y").unwrap().concretize(&TranslateContext::from_doc(&doc)).unwrap(),
        Pon::from_string("{ some: 5.0 }").unwrap()
    );
}

#[test]
fn test_property_reference_transfer() {
    let doc = Document::from_string(r#"<Entity name="tmp" x="5.0" y="something @this.x" />"#).unwrap();
    let ent = doc.get_entity_by_name("tmp").unwrap();
    assert_eq!(
        doc.get_property(&ent, "y").unwrap().concretize(&TranslateContext::from_doc(&doc)).unwrap(),
        Pon::from_string("something 5.0").unwrap()
    );
}

#[test]
fn test_property_reference_array() {
    let doc = Document::from_string(r#"<Entity name="tmp" x="5.0" y="[@this.x]" />"#).unwrap();
    let ent = doc.get_entity_by_name("tmp").unwrap();
    assert_eq!(
        doc.get_property(&ent, "y").unwrap().concretize(&TranslateContext::from_doc(&doc)).unwrap(),
        Pon::from_string("[5.0]").unwrap()
    );
}

#[test]
fn test_property_reference_bad_ref() {
    let doc = Document::from_string(r#"<Entity name="tmp" x="5.0" y="@what.x" />"#).unwrap();
    let ent = doc.get_entity_by_name("tmp").unwrap();
    assert_eq!(doc.get_property(&ent, "y").err().unwrap(), DocError::NoSuchProperty("y".to_string()));
}

#[test]
fn test_property_reference_parent() {
    let doc = Document::from_string(r#"<Entity x="5.0"><Entity name="tmp" y="@parent.x" /></Entity>"#).unwrap();
    let ent = doc.get_entity_by_name("tmp").unwrap();
    assert_eq!(
        doc.get_property(&ent, "y").unwrap().concretize(&TranslateContext::from_doc(&doc)).unwrap(),
        Pon::Float(Decimal::new(50, 1))
    );
}

#[test]
fn test_property_reference_update() {
    let mut doc = Document::from_string(r#"<Entity name="tmp" x="5.0" y="@this.x" />"#).unwrap();
    let ent = doc.get_entity_by_name("tmp").unwrap();
    {
        doc.set_property(&ent, "x", Pon::Integer(9)).ok().unwrap();
    }
    assert_eq!(
        doc.get_property(&ent, "y").unwrap().concretize(&TranslateContext::from_doc(&doc)).unwrap(),
        Pon::from_string("9").unwrap()
    );
}

#[test]
fn test_property_reference_not_yet_created() {
    let mut doc = Document::from_string(r#"<Entity name="tmp" y="@this.x" />"#).unwrap();
    let ent = doc.get_entity_by_name("tmp").unwrap();
    {
        doc.set_property(&ent, "x", Pon::Float(Decimal::new(90, 1))).ok().unwrap();
    }
    assert_eq!(
        doc.get_property(&ent, "y").unwrap().concretize(&TranslateContext::from_doc(&doc)).unwrap(),
        Pon::Float(Decimal::new(90, 1))
    );
}

#[test]
fn a_forward_reference_reads_nothing_until_its_target_is_set() {
    let mut doc = Document::new();
    let e = doc.append_entity(None, "Entity", None).unwrap();
    assert_eq!(doc.set_property(&e, "y", Pon::from_string("@this.x").unwrap()), Ok(()));
    assert_eq!(doc.has_property(&e, "y"), Ok(true));
    assert_eq!(doc.has_property(&e, "x"), Ok(false));
    assert_eq!(doc.get_property(&e, "x").err(), Some(DocError::NoSuchProperty("x".to_string())));
    let reference = NamedPropRef::new(EntityPath::This, "x");
    assert_eq!(
        doc.get_property(&e, "y").unwrap().concretize(&TranslateContext::from_doc(&doc)),
        Err(PonTranslateErr::ReferenceToNonExistentProperty(reference))
    );
    doc.set_property(&e, "x", Pon::from_string("[1, 2]").unwrap()).unwrap();
    assert_eq!(
        doc.get_property(&e, "y").unwrap().concretize(&TranslateContext::from_doc(&doc)),
        Ok(Pon::Array(vec![Pon::Integer(1), Pon::Integer(2)]))
    );
    assert_eq!(doc.get_property_dependants(&e, "x"), Ok(&vec![PropRef::new(&e, "y")]));
}

#[test]
fn readers_stay_registered_when_a_property_is_set_again() {
    let mut doc = Document::new();
    let e = doc.append_entity(None, "Entity", None).unwrap();
    doc.set_property(&e, "x", Pon::Integer(1)).unwrap();
    doc.set_property(&e, "y", Pon::from_string("@this.x").unwrap()).unwrap();
    doc.set_property(&e, "y", Pon::Integer(2)).unwrap();
    doc.set_property(&e, "y", Pon::from_string("@this.x").unwrap()).unwrap();
    assert_eq!(doc.get_property_dependants(&e, "x"), Ok(&vec![PropRef::new(&e, "y"), PropRef::new(&e, "y")]));
    assert_eq!(doc.get_property_dependants(&e, "y"), Ok(&vec![]));
    assert_eq!(
        doc.get_property_dependants(&e, "none").err(),
        Some(DocError::NoSuchProperty("none".to_string()))
    );
    assert_eq!(doc.get_property_dependants(&7, "x").err(), Some(DocError::NoSuchEntity(7)));
}

#[test]
fn identities_count_up_from_one_and_are_never_used_again() {
    let mut doc = Document::new();
    assert_eq!(doc.get_root(), None);
    let root = doc.append_entity(None, "Root", Some("root".to_string())).unwrap();
    assert_eq!(root, 1);
    assert_eq!(doc.get_root(), Some(1));
    assert_eq!(doc.append_entity(Some(17), "Lost", None), Err(DocError::InvalidParent));
    let child = doc.append_entity(Some(root), "Child", None).unwrap();
    assert_eq!(child, 3);
    assert_eq!(doc.entities_iter(), vec![1, 3]);
    assert_eq!(doc.get_children(&root), Ok(&vec![3]));
    assert_eq!(doc.get_children(&3), Ok(&vec![]));
    assert_eq!(doc.get_children(&2).err(), Some(DocError::NoSuchEntity(2)));
    assert_eq!(doc.get_entity_type_name(&3), Ok(&"Child".to_string()));
    assert_eq!(doc.get_entity_type_name(&2).err(), Some(DocError::NoSuchEntity(2)));
}

#[test]
fn the_last_entity_of_a_name_owns_the_name() {
    let mut doc = Document::new();
    let root = doc.append_entity(None, "Root", Some("a".to_string())).unwrap();
    let second = doc.append_entity(Some(root), "Child", Some("a".to_string())).unwrap();
    assert_eq!(doc.get_entity_by_name("a"), Some(second));
    assert_eq!(doc.get_entity_by_name("b"), None);
}

fn family() -> (Document, u64, u64, u64, u64) {
    let mut doc = Document::new();
    let root = doc.append_entity(None, "Root", Some("root".to_string())).unwrap();
    let left = doc.append_entity(Some(root), "Branch", Some("left".to_string())).unwrap();
    let right = doc.append_entity(Some(root), "Branch", Some("right".to_string())).unwrap();
    let leaf = doc.append_entity(Some(left), "Leaf", Some("leaf".to_string())).unwrap();
    (doc, root, left, right, leaf)
}

#[test]
fn paths_lead_to_the_parent_the_named_and_the_found() {
    let (doc, root, left, right, leaf) = family();
    assert_eq!(doc.resolve_entity_path(&leaf, &EntityPath::This), Ok(leaf));
    assert_eq!(doc.resolve_entity_path(&leaf, &EntityPath::Parent), Ok(left));
    assert_eq!(doc.resolve_entity_path(&left, &EntityPath::Parent), Ok(root));
    assert_eq!(doc.resolve_entity_path(&root, &EntityPath::Parent), Err(DocError::InvalidParent));
    assert_eq!(doc.resolve_entity_path(&99, &EntityPath::Parent), Err(DocError::NoSuchEntity(99)));
    assert_eq!(doc.resolve_entity_path(&leaf, &EntityPath::Named("right".to_string())), Ok(right));
    assert_eq!(
        doc.resolve_entity_path(&leaf, &EntityPath::Named("what".to_string())),
        Err(DocError::CantFindEntityByName("what".to_string()))
    );
    let search = EntityPath::Search(Box::new(EntityPath::This), "leaf".to_string());
    assert_eq!(doc.resolve_entity_path(&root, &search), Ok(leaf));
    assert_eq!(doc.resolve_entity_path(&leaf, &search), Ok(leaf));
    assert_eq!(
        doc.resolve_entity_path(&right, &search),
        Err(DocError::CantFindEntityByName("leaf".to_string()))
    );
    let from_parent = EntityPath::Search(Box::new(EntityPath::Parent), "right".to_string());
    assert_eq!(doc.resolve_entity_path(&left, &from_parent), Ok(right));
    assert_eq!(doc.resolve_entity_path(&root, &from_parent), Err(DocError::InvalidParent));
    assert_eq!(
        doc.resolve_named_prop_ref(&leaf, &NamedPropRef::new(EntityPath::Parent, "size")),
        Ok(PropRef::new(&left, "size"))
    );
}

#[test]
fn the_search_takes_the_entity_before_its_children_and_the_first_child_first() {
    let mut doc = Document::new();
    let root = doc.append_entity(None, "Root", Some("x".to_string())).unwrap();
    let a = doc.append_entity(Some(root), "A", None).unwrap();
    let b = doc.append_entity(Some(root), "B", Some("y".to_string())).unwrap();
    let deep = doc.append_entity(Some(a), "Deep", Some("y".to_string())).unwrap();
    let _ = doc.append_entity(Some(root), "C", Some("x".to_string())).unwrap();
    assert_eq!(doc.search_children(&root, "x"), Ok(root));
    assert_eq!(doc.search_children(&root, "y"), Ok(deep));
    assert_eq!(doc.search_children(&b, "y"), Ok(b));
    assert_eq!(doc.search_children(&a, "x"), Err(DocError::CantFindEntityByName("x".to_string())));
    assert_eq!(doc.search_children(&42, "x"), Err(DocError::NoSuchEntity(42)));
}

#[test]
fn setting_a_property_of_an_entity_that_is_not_there() {
    let mut doc = Document::new();
    assert_eq!(doc.set_property(&1, "x", Pon::Nil), Err(DocError::NoSuchEntity(1)));
    assert_eq!(doc.get_property(&1, "x").err(), Some(DocError::NoSuchEntity(1)));
    assert_eq!(doc.has_property(&1, "x"), Err(DocError::NoSuchEntity(1)));
    assert_eq!(doc.get_properties(&1), Err(DocError::NoSuchEntity(1)));
}

#[test]
fn a_reference_that_cannot_be_resolved_leaves_the_property_unset() {
    let mut doc = Document::new();
    let e = doc.append_entity(None, "Entity", None).unwrap();
    assert_eq!(
        doc.set_property(&e, "y", Pon::from_string("[@this.a, @what.x]").unwrap()),
        Err(DocError::CantFindEntityByName("what".to_string()))
    );
    assert_eq!(doc.get_property(&e, "y").err(), Some(DocError::NoSuchProperty("y".to_string())));
    assert_eq!(doc.get_properties(&e), Ok(vec![]));
    assert_eq!(
        doc.set_property(&e, "y", Pon::from_string("@parent.x").unwrap()),
        Err(DocError::InvalidParent)
    );
}

#[test]
fn properties_are_listed_in_the_order_in_which_they_came_to_be() {
    let mut doc = Document::new();
    let e = doc.append_entity(None, "Entity", None).unwrap();
    doc.set_property(&e, "b", Pon::from_string("@this.a").unwrap()).unwrap();
    doc.set_property(&e, "c", Pon::Nil).unwrap();
    assert_eq!(doc.get_properties(&e), Ok(vec![PropRef::new(&e, "a"), PropRef::new(&e, "b"), PropRef::new(&e, "c")]));
}

#[test]
fn a_translate_error_becomes_a_document_error() {
    let e = PonTranslateErr::Generic("x".to_string());
    assert_eq!(DocError::from(e.clone()), DocError::PonTranslateErr(e));
}

fn element(name: &str, attributes: &[(&str, &str)]) -> DocEvent {
    DocEvent::StartElement {
        name: name.to_string(),
        attributes: attributes.iter().map(|(n, v)| Attribute { name: n.to_string(), value: v.to_string() }).collect(),
    }
}

#[test]
fn what_goes_wrong_while_loading_is_collected() {
    let events = vec![
        DocEvent::Other,
        element("Root", &[("x", "5"), ("bad", "[1"), ("name", "r"), ("y", "@nobody.x")]),
        element("Child", &[("name", "c"), ("z", "@parent.x")]),
        DocEvent::EndElement,
        DocEvent::Error("broken".to_string()),
        DocEvent::EndElement,
        element("Second", &[("q", "1")]),
        DocEvent::EndElement,
    ];
    let (doc, warnings) = Document::from_events(&events);
    assert_eq!(
        warnings,
        vec![
            LoadWarning::ParseFailed {
                property: "bad".to_string(),
                kind: "Root".to_string(),
                text: "[1".to_string(),
                error: PonParseError { offset: 2 },
            },
            LoadWarning::SetPropertyFailed {
                property: "y".to_string(),
                kind: "Root".to_string(),
                error: DocError::CantFindEntityByName("nobody".to_string()),
            },
            LoadWarning::Xml("broken".to_string()),
            LoadWarning::SecondRoot { kind: "Second".to_string() },
        ]
    );
    let root = doc.get_entity_by_name("r").unwrap();
    let child = doc.get_entity_by_name("c").unwrap();
    assert_eq!(doc.entities_iter(), vec![root, child]);
    assert_eq!(doc.get_children(&root), Ok(&vec![child]));
    assert_eq!(
        doc.get_property(&child, "z").unwrap().concretize(&TranslateContext::from_doc(&doc)),
        Ok(Pon::Integer(5))
    );
    assert_eq!(doc.has_property(&root, "name"), Ok(false));
}

#[test]
fn events_go_on_where_the_stack_stands() {
    let mut doc = Document::new();
    let root = doc.append_entity(None, "Root", None).unwrap();
    let mut stack = vec![root, 99];
    let mut warnings = vec![];
    let events = vec![element("Lost", &[]), DocEvent::EndElement, element("Found", &[("name", "f")]), DocEvent::EndElement, DocEvent::EndElement, DocEvent::EndElement];
    assert_eq!(doc.append_from_events(&mut stack, &events, &mut warnings), Ok(()));
    assert_eq!(warnings, vec![LoadWarning::AppendFailed { kind: "Lost".to_string(), error: DocError::InvalidParent }]);
    assert_eq!(stack, Vec::<u64>::new());
    assert_eq!(doc.get_entity_by_name("f"), Some(3));
    assert_eq!(doc.get_children(&root), Ok(&vec![3]));
}

#[test]
fn a_broken_text_gives_a_warning() {
    let (doc, warnings) = Document::load(r#"<Entity name="tmp" x="5.0"><Open></Entity>"#);
    assert_eq!(doc.get_entity_by_name("tmp"), Some(1));
    assert!(matches!(warnings.last(), Some(LoadWarning::Xml(_))));
    let (_, none) = Document::load(r#"<Entity name="tmp" x="5.0" />"#);
    assert_eq!(none, vec![]);
}

#[test]
fn a_document_is_laid_out_as_elements_with_sorted_attributes() {
    let text = r#"<Root name="r" z="1" a="[1, 2.50]"><Leaf b="@parent.a" later="@this.none" /><Other /></Root>"#;
    let (doc, warnings) = Document::load(text);
    assert_eq!(warnings, vec![]);
    let events = doc.to_events();
    assert_eq!(
        events,
        vec![
            element("Root", &[("a", "[1, 2.5]"), ("name", "r"), ("z", "1")]),
            element("Leaf", &[("b", "@parent.a"), ("later", "@this.none")]),
            DocEvent::EndElement,
            element("Other", &[]),
            DocEvent::EndElement,
            DocEvent::EndElement,
        ]
    );
    let (again, _) = Document::from_events(&events);
    assert_eq!(again.to_events(), events);
    assert_eq!(Document::new().to_events(), vec![]);
    let mut part = vec![DocEvent::Other];
    doc.entity_to_xml(&2, &mut part);
    assert_eq!(part.len(), 3);
    doc.entity_to_xml(&99, &mut part);
    assert_eq!(part.len(), 3);
}

#[test]
fn attributes_of_one_name_keep_their_order() {
    let attributes = vec![
        Attribute { name: "b".to_string(), value: "1".to_string() },
        Attribute { name: "a".to_string(), value: "2".to_string() },
        Attribute { name: "b".to_string(), value: "3".to_string() },
        Attribute { name: "ab".to_string(), value: "4".to_string() },
    ];
    let sorted = pyramid::loader::sort_attributes(&attributes);
    let values: Vec<&str> = sorted.iter().map(|a| a.value.as_str()).collect();
    assert_eq!(values, vec!["2", "4", "1", "3"]);
}

#[test]
fn a_second_root_cannot_be_appended() {
    let mut doc = Document::new();
    assert!(doc.can_append(None));
    assert!(doc.can_append(Some(5)));
    doc.append_entity(None, "Root", None).unwrap();
    assert!(!doc.can_append(None));
    assert!(doc.can_append(Some(1)));
}
