use pyramid::decimal::Decimal;
use pyramid::parser::PonParseError;
use pyramid::pon::EntityPath;
use pyramid::pon::NamedPropRef;
use pyramid::pon::Pon;
use pyramid::pon::PonObject;
use pyramid::pon::TypedPon;

fn float(mantissa: i64, scale: u8) -> Pon {
    Pon::Float(Decimal::new(mantissa, scale))
}

#[test]
fn pon_test_test_float() {
    let v = Pon::from_string("5.0");
    assert_eq!(v, Ok(float(50, 1)));
}

#[test]
fn pon_test_test_neg_float() {
    let v = Pon::from_string("-5.0");
    assert_eq!(v, Ok(float(-50, 1)));
}

#[test]
fn pon_test_test_float_empty_space() {
    let v = Pon::from_string(" 5.0 ");
    assert_eq!(v, Ok(float(50, 1)));
}

#[test]
fn pon_test_test_integer() {
    let v = Pon::from_string("5");
    assert_eq!(v, Ok(Pon::Integer(5)));
}

#[test]
fn pon_test_test_string() {
    let v = Pon::from_string("'hi'");
    assert_eq!(v, Ok(Pon::String("hi".to_string())));
}

#[test]
fn pon_test_test_empty_object() {
    let v = Pon::from_string("{}");
    assert_eq!(v, Ok(Pon::Object(PonObject::new())));
}

#[test]
fn pon_test_test_object_one() {
    let v = Pon::from_string("{ lol: 5.0 }");
    let mut hm = PonObject::new();
    hm.insert("lol".to_string(), float(50, 1));
    assert_eq!(v, Ok(Pon::Object(hm)));
}

#[test]
fn pon_test_test_object_two() {
    let v = Pon::from_string("{ lol: 5.0, hey: 1.1 }");
    let mut hm = PonObject::new();
    hm.insert("lol".to_string(), float(50, 1));
    hm.insert("hey".to_string(), float(11, 1));
    assert_eq!(v, Ok(Pon::Object(hm)));
}

#[test]
fn pon_test_test_object_complex() {
    let v = Pon::from_string("{ a: [0.0, 0.5], b: [0] }");
    let mut hm = PonObject::new();
    hm.insert("a".to_string(), Pon::Array(vec![float(0, 1), float(5, 1)]));
    hm.insert("b".to_string(), Pon::Array(vec![Pon::Integer(0)]));
    assert_eq!(v, Ok(Pon::Object(hm)));
}

#[test]
fn pon_test_test_array_empty() {
    let v = Pon::from_string("[]");
    assert_eq!(v, Ok(Pon::Array(vec![])));
}

#[test]
fn pon_test_test_array_one() {
    let v = Pon::from_string("[5.0]");
    assert_eq!(v, Ok(Pon::Array(vec![float(50, 1)])));
}

#[test]
fn pon_test_test_array_two() {
    let v = Pon::from_string("[5.0, 3.31]");
    assert_eq!(v, Ok(Pon::Array(vec![float(50, 1), float(331, 2)])));
}

#[test]
fn pon_test_test_transform_nil() {
    let v = Pon::from_string("static_mesh()");
    assert_eq!(v, Ok(Pon::TypedPon(Box::new(TypedPon { name: "static_mesh".to_string(), data: Pon::Nil }))));
}

#[test]
fn pon_test_test_transform_arg() {
    let v = Pon::from_string("static_mesh{ vertices: [0.0, -0.5], indices: [0, 1] }");
    let mut hm = PonObject::new();
    hm.insert("vertices".to_string(), Pon::Array(vec![float(0, 1), float(-5, 1)]));
    hm.insert("indices".to_string(), Pon::Array(vec![Pon::Integer(0), Pon::Integer(1)]));
    assert_eq!(v, Ok(Pon::TypedPon(Box::new(TypedPon { name: "static_mesh".to_string(), data: Pon::Object(hm) }))));
}

#[test]
fn pon_test_test_transform_number() {
    let v = Pon::from_string("static_mesh 5.0");
    assert_eq!(v, Ok(Pon::TypedPon(Box::new(TypedPon { name: "static_mesh".to_string(), data: float(50, 1) }))));
}

#[test]
fn pon_test_test_dependency_reference() {
    let v = Pon::from_string("@some.test");
    assert_eq!(
        v,
        Ok(Pon::DependencyReference(NamedPropRef::new(EntityPath::Named("some".to_string()), "test"), None))
    );
}

#[test]
fn pon_test_test_reference() {
    let v = Pon::from_string("some.test");
    assert_eq!(v, Ok(Pon::Reference(NamedPropRef::new(EntityPath::Named("some".to_string()), "test"))));
}

#[test]
fn test_path() {
    let v = Pon::from_string("some:else.test");
    assert_eq!(
        v,
        Ok(Pon::Reference(NamedPropRef::new(
            EntityPath::Search(Box::new(EntityPath::Named("some".to_string())), "else".to_string()),
            "test"
        )))
    );
}

#[test]
fn pon_test_test_multiline() {
    let v = Pon::from_string(
        "{
        }",
    );
    assert_eq!(v, Ok(Pon::Object(PonObject::new())));
}

#[test]
fn parses_booleans_and_nil() {
    assert_eq!(Pon::from_string("true"), Ok(Pon::Boolean(true)));
    assert_eq!(Pon::from_string("false"), Ok(Pon::Boolean(false)));
    assert_eq!(Pon::from_string("()"), Ok(Pon::Nil));
}

#[test]
fn parses_this_and_parent_paths() {
    assert_eq!(
        Pon::from_string("@this.x"),
        Ok(Pon::DependencyReference(NamedPropRef::new(EntityPath::This, "x"), None))
    );
    assert_eq!(Pon::from_string("parent.x"), Ok(Pon::Reference(NamedPropRef::new(EntityPath::Parent, "x"))));
    assert_eq!(
        Pon::from_string("this:a:b.k"),
        Ok(Pon::Reference(NamedPropRef::new(
            EntityPath::Search(
                Box::new(EntityPath::Search(Box::new(EntityPath::This), "a".to_string())),
                "b".to_string()
            ),
            "k"
        )))
    );
}

#[test]
fn negative_integer_and_limits() {
    assert_eq!(Pon::from_string("-5"), Ok(Pon::Integer(-5)));
    assert_eq!(Pon::from_string("9223372036854775807"), Ok(Pon::Integer(i64::MAX)));
    assert_eq!(Pon::from_string("-9223372036854775808"), Ok(Pon::Integer(i64::MIN)));
    assert_eq!(Pon::from_string("9223372036854775808"), Err(PonParseError { offset: 0 }));
    assert_eq!(Pon::from_string("-9223372036854775809"), Err(PonParseError { offset: 0 }));
}

#[test]
fn equal_numbers_are_equal_values() {
    assert_eq!(Pon::from_string("5.0"), Pon::from_string("5.00"));
    assert_eq!(Pon::from_string("05.10"), Ok(float(51, 1)));
    assert_eq!(Pon::from_string("-0.0"), Ok(float(0, 0)));
    assert_eq!(Pon::from_string("9223372036854775807.0"), Ok(float(i64::MAX, 0)));
    assert_eq!(Decimal::new(500, 2), Decimal::new(5, 0));
    assert_eq!(Decimal::new(500, 2).mantissa(), 5);
    assert_eq!(Decimal::new(500, 2).scale(), 0);
    assert_eq!(Decimal::new(-1250, 3).mantissa(), -125);
    assert_eq!(Decimal::new(-1250, 3).scale(), 2);
}

#[test]
fn a_later_key_replaces_an_earlier_one() {
    let mut o = PonObject::new();
    o.insert("a".to_string(), Pon::Integer(2));
    assert_eq!(Pon::from_string("{ a: 1, a: 2 }"), Ok(Pon::Object(o)));
}

#[test]
fn objects_are_equal_whatever_the_order() {
    assert_eq!(Pon::from_string("{ b: 1, a: 2 }"), Pon::from_string("{ a: 2, b: 1 }"));
    let mut o = PonObject::new();
    o.insert("b".to_string(), Pon::Integer(1));
    o.insert("a".to_string(), Pon::Integer(2));
    o.insert("ab".to_string(), Pon::Integer(3));
    assert_eq!(o.len(), 3);
    let keys: Vec<String> = o.fields().iter().map(|f| f.key.clone()).collect();
    assert_eq!(keys, vec!["a".to_string(), "ab".to_string(), "b".to_string()]);
    assert_eq!(o.get("ab"), Some(&Pon::Integer(3)));
    assert_eq!(o.get("c"), None);
}

#[test]
fn texts_that_are_no_values() {
    assert_eq!(Pon::from_string(""), Err(PonParseError { offset: 0 }));
    assert_eq!(Pon::from_string("   "), Err(PonParseError { offset: 3 }));
    assert_eq!(Pon::from_string("5 5"), Err(PonParseError { offset: 2 }));
    assert_eq!(Pon::from_string("[1, 2"), Err(PonParseError { offset: 5 }));
    assert_eq!(Pon::from_string("[1, ]"), Err(PonParseError { offset: 4 }));
    assert_eq!(Pon::from_string("{ a 1 }"), Err(PonParseError { offset: 4 }));
    assert_eq!(Pon::from_string("'open"), Err(PonParseError { offset: 5 }));
    assert_eq!(Pon::from_string("name"), Err(PonParseError { offset: 4 }));
    assert_eq!(Pon::from_string("@.x"), Err(PonParseError { offset: 1 }));
    assert_eq!(Pon::from_string("some."), Err(PonParseError { offset: 5 }));
    assert_eq!(Pon::from_string("("), Err(PonParseError { offset: 1 }));
    assert_eq!(Pon::from_string("-"), Err(PonParseError { offset: 1 }));
    assert_eq!(Pon::from_string("#"), Err(PonParseError { offset: 0 }));
}

#[test]
fn renders_scalars() {
    assert_eq!(Pon::Integer(-12).to_string(), "-12");
    assert_eq!(Pon::Integer(0).to_string(), "0");
    assert_eq!(Pon::Integer(i64::MIN).to_string(), "-9223372036854775808");
    assert_eq!(float(331, 2).to_string(), "3.31");
    assert_eq!(float(-5, 1).to_string(), "-0.5");
    assert_eq!(float(5, 3).to_string(), "0.005");
    assert_eq!(float(9, 0).to_string(), "9.0");
    assert_eq!(float(0, 0).to_string(), "0.0");
    assert_eq!(Pon::String("hi".to_string()).to_string(), "'hi'");
    assert_eq!(Pon::Boolean(true).to_string(), "true");
    assert_eq!(Pon::Boolean(false).to_string(), "false");
    assert_eq!(Pon::Nil.to_string(), "()");
}

#[test]
fn renders_composites() {
    assert_eq!(Pon::Array(vec![]).to_string(), "[]");
    assert_eq!(Pon::Array(vec![Pon::Integer(1), Pon::Integer(2)]).to_string(), "[1, 2]");
    assert_eq!(Pon::IntegerArray(vec![0, 1]).to_string(), "[0, 1]");
    assert_eq!(Pon::FloatArray(vec![Decimal::new(5, 1), Decimal::new(1, 0)]).to_string(), "[0.5, 1.0]");
    assert_eq!(Pon::Object(PonObject::new()).to_string(), "{  }");
    let mut o = PonObject::new();
    o.insert("b".to_string(), Pon::Array(vec![Pon::Integer(2)]));
    o.insert("a".to_string(), Pon::Integer(1));
    assert_eq!(Pon::Object(o).to_string(), "{ a: 1, b: [2] }");
    assert_eq!(Pon::new_typed_pon("vec3", Pon::Nil).to_string(), "vec3 ()");
    assert_eq!(TypedPon { name: "scale".to_string(), data: Pon::Integer(2) }.to_string(), "scale 2");
    let path = EntityPath::Search(Box::new(EntityPath::Parent), "wheel".to_string());
    assert_eq!(path.to_string(), "parent:wheel");
    assert_eq!(EntityPath::This.to_string(), "this");
    assert_eq!(EntityPath::Named("car".to_string()).to_string(), "car");
    let reference = NamedPropRef::new(path, "size");
    assert_eq!(reference.to_string(), "parent:wheel.size");
    assert_eq!(Pon::Reference(reference.clone()).to_string(), "parent:wheel.size");
    assert_eq!(Pon::DependencyReference(reference, None).to_string(), "@parent:wheel.size");
}

#[test]
fn a_long_list_is_written_one_item_per_line() {
    let short: Vec<Pon> = (0..41).map(|_| Pon::Integer(1)).collect();
    assert_eq!(Pon::Array(short).to_string().len(), 2 + 41 + 40 * 2);
    let items: Vec<Pon> = (0..42).map(|_| Pon::Integer(1)).collect();
    let text = Pon::Array(items.clone()).to_string();
    assert!(text.starts_with("[1,\n1,\n"));
    assert_eq!(Pon::from_string(&text), Ok(Pon::Array(items)));
}

#[test]
fn what_is_rendered_reads_back() {
    let texts = [
        "5",
        "-5",
        "5.0",
        "-5.0",
        "0.25",
        "'hi'",
        "true",
        "false",
        "()",
        "[]",
        "[1, 2.5, 'x']",
        "{}",
        "{ key: 1, other: [2, { deep: () }] }",
        "name 5",
        "name{ a: 1 }",
        "name()",
        "outer inner [1]",
        "@this.x",
        "@parent.x",
        "some.test",
        "outer:innername.key",
        "@a:b:c.key",
        "{ r: @car:wheel.size, s: car.size }",
    ];
    for text in texts.iter() {
        let first = Pon::from_string(text).unwrap();
        let again = Pon::from_string(&first.to_string());
        assert_eq!(again, Ok(first));
    }
}

#[test]
fn live_references_are_collected_in_order() {
    let pon = Pon::from_string("t { a: [@x.a, y.b, @this.c], b: @parent.d, c: q @z.e }").unwrap();
    let mut refs = vec![NamedPropRef::new(EntityPath::This, "first")];
    pon.get_dependency_references(&mut refs);
    let texts: Vec<String> = refs.iter().map(|r| r.to_string()).collect();
    assert_eq!(texts, vec!["this.first", "x.a", "this.c", "parent.d", "z.e"]);
}
