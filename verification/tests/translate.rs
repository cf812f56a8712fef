use pyramid::decimal::Decimal;
use pyramid::document::Document;
use pyramid::pon::EntityPath;
use pyramid::pon::NamedPropRef;
use pyramid::pon::Pon;
use pyramid::pon::PonObject;
use pyramid::pon::PropRef;
use pyramid::pon::ResolvedDependency;
use pyramid::pon_translations::PonAutoVec;
use pyramid::pon_translations::PonTranslateErr;
use pyramid::pon_translations::ToPon;
use pyramid::pon_translations::Translatable;
use pyramid::pon_translations::TranslateContext;

#[test]
fn test_translate_integer() {
    let node = Pon::Integer(5);
    let i: i64 = node.translate(&mut TranslateContext::empty()).unwrap();
    assert_eq!(i, 5);
}

#[test]
fn an_integer_reads_as_a_number() {
    let x: Decimal = Pon::Integer(9).translate(&TranslateContext::empty()).unwrap();
    assert_eq!(x, Decimal::new(90, 1));
    assert_eq!(x.to_string(), "9.0");
    let y: Decimal = Pon::Float(Decimal::new(25, 1)).translate(&TranslateContext::empty()).unwrap();
    assert_eq!(y, Decimal::new(25, 1));
}

#[test]
fn an_array_of_integers_reads_as_a_list_of_integers() {
    let array = Pon::Array(vec![Pon::Integer(0), Pon::Integer(1)]);
    let from_array: Vec<i64> = array.translate(&TranslateContext::empty()).unwrap();
    let from_list: Vec<i64> = Pon::IntegerArray(vec![0, 1]).translate(&TranslateContext::empty()).unwrap();
    assert_eq!(from_array, vec![0, 1]);
    assert_eq!(from_array, from_list);
}

#[test]
fn an_array_reads_as_a_list_of_numbers() {
    let array = Pon::Array(vec![Pon::Integer(2), Pon::Float(Decimal::new(5, 1))]);
    let values: Vec<Decimal> = array.translate(&TranslateContext::empty()).unwrap();
    assert_eq!(values, vec![Decimal::new(2, 0), Decimal::new(5, 1)]);
    let list = Pon::FloatArray(vec![Decimal::new(1, 0)]);
    let values: Vec<Decimal> = list.translate(&TranslateContext::empty()).unwrap();
    assert_eq!(values, vec![Decimal::new(1, 0)]);
}

#[test]
fn texts_and_truth_values() {
    let s: String = Pon::String("hi".to_string()).translate(&TranslateContext::empty()).unwrap();
    assert_eq!(s, "hi");
    let b: bool = Pon::Boolean(true).translate(&TranslateContext::empty()).unwrap();
    assert!(b);
}

#[test]
fn lists_of_any_kind() {
    let array = Pon::Array(vec![Pon::String("a".to_string()), Pon::String("b".to_string())]);
    let texts: PonAutoVec<String> = array.translate(&TranslateContext::empty()).unwrap();
    assert_eq!(texts.0, vec!["a".to_string(), "b".to_string()]);
    let wrong: Result<PonAutoVec<String>, PonTranslateErr> = Pon::Integer(1).translate(&TranslateContext::empty());
    match wrong {
        Err(PonTranslateErr::InnerError { error, trying_to_translate_to, .. }) => {
            assert_eq!(trying_to_translate_to, "Array");
            assert_eq!(
                *error,
                PonTranslateErr::MismatchType { expected: "Array".to_string(), found: "1".to_string() }
            );
        }
        _ => panic!("the integer was read as a list"),
    }
}

#[test]
fn a_value_of_another_kind_is_wrapped_with_what_was_asked() {
    let r: Result<i64, PonTranslateErr> = Pon::String("x".to_string()).translate(&TranslateContext::empty());
    assert_eq!(
        r,
        Err(PonTranslateErr::InnerError {
            in_pon: Pon::String("x".to_string()),
            error: Box::new(PonTranslateErr::MismatchType {
                expected: "Integer".to_string(),
                found: "'x'".to_string()
            }),
            trying_to_translate_to: "Integer".to_string(),
        })
    );
    let inner: Result<i64, PonTranslateErr> = Pon::Nil.inner_translate(&TranslateContext::empty());
    assert_eq!(
        inner,
        Err(PonTranslateErr::MismatchType { expected: "Integer".to_string(), found: "()".to_string() })
    );
}

#[test]
fn the_first_item_that_fails_decides() {
    let array = Pon::Array(vec![Pon::Integer(1), Pon::Nil, Pon::Boolean(true)]);
    let r: Result<Vec<i64>, PonTranslateErr> = array.inner_translate(&TranslateContext::empty());
    assert_eq!(
        r,
        Err(PonTranslateErr::InnerError {
            in_pon: Pon::Nil,
            error: Box::new(PonTranslateErr::MismatchType {
                expected: "Integer".to_string(),
                found: "()".to_string()
            }),
            trying_to_translate_to: "Integer".to_string(),
        })
    );
}

#[test]
fn fields_of_objects() {
    let mut o = PonObject::new();
    o.insert("x".to_string(), Pon::Integer(3));
    o.insert("s".to_string(), Pon::String("t".to_string()));
    let object = Pon::Object(o);
    let ctx = TranslateContext::empty();
    assert_eq!(object.field("x"), Ok(&Pon::Integer(3)));
    assert_eq!(object.field("y"), Err(PonTranslateErr::NoSuchField { field: "y".to_string() }));
    assert_eq!(
        Pon::Integer(1).field("y"),
        Err(PonTranslateErr::MismatchType { expected: "Object".to_string(), found: "1".to_string() })
    );
    let x: i64 = object.field_as("x", &ctx).unwrap();
    assert_eq!(x, 3);
    let missing: Result<i64, PonTranslateErr> = object.field_as("y", &ctx);
    assert_eq!(missing, Err(PonTranslateErr::NoSuchField { field: "y".to_string() }));
    let y: i64 = object.field_as_or("y", 7, &ctx).unwrap();
    assert_eq!(y, 7);
    let x: i64 = object.field_as_or("x", 7, &ctx).unwrap();
    assert_eq!(x, 3);
    let wrong: Result<i64, PonTranslateErr> = object.field_as_or("s", 7, &ctx);
    assert!(matches!(wrong, Err(PonTranslateErr::InnerError { .. })));
    let no_object: Result<i64, PonTranslateErr> = Pon::Nil.field_as_or("s", 7, &ctx);
    assert!(matches!(no_object, Err(PonTranslateErr::MismatchType { .. })));
}

#[test]
fn references_are_told_apart() {
    let reference = NamedPropRef::new(EntityPath::This, "x");
    assert_eq!(Pon::Reference(reference.clone()).as_reference(), Ok(&reference));
    assert_eq!(
        Pon::DependencyReference(reference, None).as_reference(),
        Err(PonTranslateErr::MismatchType { expected: "Reference".to_string(), found: "@this.x".to_string() })
    );
}

#[test]
fn an_unbound_live_reference_reads_nothing() {
    let reference = NamedPropRef::new(EntityPath::This, "x");
    let pon = Pon::DependencyReference(reference.clone(), None);
    let r: Result<i64, PonTranslateErr> = pon.translate(&TranslateContext::empty());
    assert_eq!(r, Err(PonTranslateErr::ReferenceToNonExistentProperty(reference.clone())));
    assert_eq!(
        pon.concretize(&TranslateContext::empty()),
        Err(PonTranslateErr::ReferenceToNonExistentProperty(reference.clone()))
    );
    let doc = Document::new();
    let bound = Pon::DependencyReference(
        reference.clone(),
        Some(ResolvedDependency { prop_ref: PropRef::new(&1, "x"), cell: 3 }),
    );
    assert_eq!(
        bound.concretize(&TranslateContext::from_doc(&doc)),
        Err(PonTranslateErr::ReferenceToNonExistentProperty(reference))
    );
}

#[test]
fn reading_goes_through_live_references() {
    let mut doc = Document::new();
    let e = doc.append_entity(None, "Entity", None).unwrap();
    doc.set_property(&e, "x", Pon::Integer(4)).unwrap();
    doc.set_property(&e, "y", Pon::from_string("@this.x").unwrap()).unwrap();
    doc.set_property(&e, "z", Pon::from_string("[@this.y, 1]").unwrap()).unwrap();
    let ctx = TranslateContext::from_doc(&doc);
    let y: i64 = doc.get_property(&e, "y").unwrap().translate(&ctx).unwrap();
    assert_eq!(y, 4);
    let z: Vec<i64> = doc.get_property(&e, "z").unwrap().translate(&ctx).unwrap();
    assert_eq!(z, vec![4, 1]);
    let as_number: Decimal = doc.get_property(&e, "y").unwrap().translate(&ctx).unwrap();
    assert_eq!(as_number, Decimal::new(4, 0));
    let count = doc.get_property(&e, "z").unwrap().as_array(&ctx, |items| Ok(items.len())).unwrap();
    assert_eq!(count, 2);
    let seen = doc.get_property(&e, "y").unwrap().as_resolved(&ctx, |pon| Ok(pon.clone())).unwrap();
    assert_eq!(seen, Pon::Integer(4));
    let no_array = doc.get_property(&e, "y").unwrap().as_array(&ctx, |items| Ok(items.len()));
    assert_eq!(
        no_array,
        Err(PonTranslateErr::MismatchType { expected: "Array".to_string(), found: "4".to_string() })
    );
}

#[test]
fn typed_values_and_objects_are_handed_on() {
    let ctx = TranslateContext::empty();
    let typed = Pon::from_string("vec3 { x: 1 }").unwrap();
    let name = typed.as_typed(&ctx, |t| Ok(t.name.clone())).unwrap();
    assert_eq!(name, "vec3");
    let size = typed.as_typed(&ctx, |t| t.data.as_object(&TranslateContext::empty(), |o| Ok(o.len()))).unwrap();
    assert_eq!(size, 1);
    let wrong = Pon::Nil.as_typed(&ctx, |t| Ok(t.name.clone()));
    assert_eq!(
        wrong,
        Err(PonTranslateErr::MismatchType { expected: "TypedPon".to_string(), found: "()".to_string() })
    );
    let wrong = Pon::Nil.as_object(&ctx, |o| Ok(o.len()));
    assert_eq!(
        wrong,
        Err(PonTranslateErr::MismatchType { expected: "Object".to_string(), found: "()".to_string() })
    );
}

#[test]
fn references_in_a_circle_are_an_error() {
    let mut doc = Document::new();
    let e = doc.append_entity(None, "Entity", None).unwrap();
    doc.set_property(&e, "x", Pon::from_string("@this.y").unwrap()).unwrap();
    doc.set_property(&e, "y", Pon::from_string("[@this.x]").unwrap()).unwrap();
    let ctx = TranslateContext::from_doc(&doc);
    let circle = PonTranslateErr::Generic("live references lead in a circle".to_string());
    assert_eq!(doc.get_property(&e, "x").unwrap().concretize(&ctx), Err(circle.clone()));
    let r: Result<Vec<i64>, PonTranslateErr> = doc.get_property(&e, "x").unwrap().translate(&ctx);
    assert!(r.is_err());
}

#[test]
fn errors_have_messages() {
    let mismatch = PonTranslateErr::MismatchType { expected: "Integer".to_string(), found: "'x'".to_string() };
    assert_eq!(mismatch.to_string(), "Expected Integer, found 'x'");
    assert_eq!(PonTranslateErr::NoSuchField { field: "f".to_string() }.to_string(), "No such field: f");
    assert_eq!(PonTranslateErr::InvalidValue { value: "v".to_string() }.to_string(), "Invalid value: v");
    assert_eq!(PonTranslateErr::UnrecognizedType("t".to_string()).to_string(), "Unrecognized type: t");
    assert_eq!(PonTranslateErr::Generic("g".to_string()).to_string(), "Generic error: g");
    assert_eq!(
        PonTranslateErr::ReferenceToNonExistentProperty(NamedPropRef::new(EntityPath::This, "x")).to_string(),
        "Reference to a property that holds nothing: this.x"
    );
    let inner = PonTranslateErr::InnerError {
        in_pon: Pon::String("x".to_string()),
        error: Box::new(mismatch.clone()),
        trying_to_translate_to: "Integer".to_string(),
    };
    assert_eq!(
        inner.to_string(),
        "while trying to translate 'x' to Integer got error: Expected Integer, found 'x'"
    );
    let long = PonTranslateErr::InnerError {
        in_pon: Pon::Array((0..30).map(|_| Pon::Integer(1)).collect()),
        error: Box::new(mismatch),
        trying_to_translate_to: "Integer".to_string(),
    };
    let head = "[1, 1, 1, 1, 1, 1, 1, 1, 1, 1, 1, 1, 1, 1, 1, 1, 1";
    assert_eq!(head.len(), 50);
    assert_eq!(
        long.to_string(),
        format!("while trying to translate {}... to Integer got error: Expected Integer, found 'x'", head)
    );
}

#[test]
fn values_of_other_kinds_are_written_down_as_values() {
    assert_eq!(Pon::Integer(3).to_pon(), Pon::Integer(3));
    assert_eq!(Decimal::new(15, 1).to_pon(), Pon::Float(Decimal::new(15, 1)));
    assert_eq!(vec![1i64, 2].to_pon(), Pon::Array(vec![Pon::Integer(1), Pon::Integer(2)]));
    assert_eq!(vec![Decimal::new(5, 1)].to_pon(), Pon::Array(vec![Pon::Float(Decimal::new(5, 1))]));
    assert_eq!(vec![1i64, 2].to_pon().to_string(), Pon::IntegerArray(vec![1, 2]).to_string());
}
