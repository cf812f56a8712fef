use pyramid::document::Document;
use pyramid::pon::Pon;
use pyramid::pon::PropRef;
use pyramid::system::System;

fn chain() -> (System, u64) {
    let mut doc = Document::new();
    let e = doc.append_entity(None, "Entity", Some("tmp".to_string())).unwrap();
    doc.set_property(&e, "x", Pon::Integer(1)).unwrap();
    doc.set_property(&e, "y", Pon::from_string("@this.x").unwrap()).unwrap();
    doc.set_property(&e, "z", Pon::from_string("[@this.y]").unwrap()).unwrap();
    doc.set_property(&e, "other", Pon::Integer(2)).unwrap();
    let mut system = System::new();
    system.set_document(doc);
    (system, e)
}

fn sorted(mut refs: Vec<PropRef>) -> Vec<String> {
    let mut keys: Vec<String> = refs.drain(..).map(|r| format!("{}.{}", r.entity_id, r.property_key)).collect();
    keys.sort();
    keys
}

#[test]
fn nothing_is_recorded_before_a_document_is_observed() {
    let mut doc = Document::new();
    let e = doc.append_entity(None, "Entity", None).unwrap();
    doc.set_property(&e, "x", Pon::Integer(1)).unwrap();
    assert_eq!(doc.take_added_entities(), Vec::<u64>::new());
    assert_eq!(doc.take_changed_properties(), vec![]);
    doc.record_changes();
    doc.set_property(&e, "x", Pon::Integer(2)).unwrap();
    let child = doc.append_entity(Some(e), "Child", None).unwrap();
    assert_eq!(doc.take_added_entities(), vec![child]);
    assert_eq!(doc.take_changed_properties(), vec![PropRef::new(&e, "x")]);
    assert_eq!(doc.take_changed_properties(), vec![]);
}

#[test]
fn a_change_reaches_every_reader_of_a_reader() {
    let (mut system, e) = chain();
    assert!(system.running);
    assert!(!system.has_pending());
    assert_eq!(system.build_property_cascades(), vec![]);
    system.document_mut().set_property(&e, "x", Pon::Integer(5)).unwrap();
    assert!(system.has_pending());
    let stale = sorted(system.build_property_cascades());
    assert_eq!(stale, vec!["1.x", "1.y", "1.z"]);
    assert!(!system.has_pending());
}

#[test]
fn a_change_of_something_else_reaches_no_reader() {
    let (mut system, e) = chain();
    system.document_mut().set_property(&e, "other", Pon::Integer(5)).unwrap();
    system.document_mut().set_property(&e, "other", Pon::Integer(6)).unwrap();
    assert_eq!(sorted(system.build_property_cascades()), vec!["1.other"]);
    system.document_mut().set_property(&e, "y", Pon::Integer(6)).unwrap();
    assert_eq!(sorted(system.build_property_cascades()), vec!["1.y", "1.z"]);
}

#[test]
fn readers_in_a_circle_are_found_once() {
    let (mut system, e) = chain();
    system.document_mut().set_property(&e, "x", Pon::from_string("@this.z").unwrap()).unwrap();
    system.build_property_cascades();
    system.document_mut().set_property(&e, "z", Pon::from_string("[@this.y]").unwrap()).unwrap();
    assert_eq!(sorted(system.build_property_cascades()), vec!["1.x", "1.y", "1.z"]);
}

#[test]
fn added_entities_are_handed_out_once() {
    let (mut system, e) = chain();
    let a = system.document_mut().append_entity(Some(e), "A", None).unwrap();
    let b = system.document_mut().append_entity(Some(a), "B", None).unwrap();
    assert!(system.has_pending());
    assert_eq!(system.take_added_entities(), vec![a, b]);
    assert_eq!(system.take_added_entities(), Vec::<u64>::new());
    assert_eq!(system.document().get_children(&e), Ok(&vec![a]));
    system.exit();
    assert!(!system.running);
}
