use structz::{
    encode, plan_named_args, FieldPair, GetField, HasField, Param, ParamError, RefFlag,
    TypedString,
};

fn named(name: &str, ty: &str) -> Param<String> {
    Param::Named(FieldPair {
        name: encode(name),
        value: ty.to_string(),
    })
}

#[test]
fn plan_sorts_parameters_and_keeps_the_receiver() {
    let plan = plan_named_args(vec![
        Param::Receiver,
        named("tags", "Vec<&str>"),
        named("age", "u8"),
        named("name", "&str"),
    ])
    .unwrap();
    assert!(plan.has_receiver);
    let order: Vec<String> = plan
        .fields
        .fields()
        .iter()
        .map(|f| f.name.value())
        .collect();
    assert_eq!(order, vec!["age", "name", "tags"]);
    assert_eq!(plan.fields.get_field(&encode("age")), "u8");
}

#[test]
fn plan_without_receiver() {
    let plan = plan_named_args(vec![named("x", "i32"), named("y", "i32")]).unwrap();
    assert!(!plan.has_receiver);
    assert_eq!(plan.fields.fields().len(), 2);
}

#[test]
fn unsupported_parameter_pattern_is_refused() {
    let r = plan_named_args(vec![named("x", "i32"), Param::Opaque]);
    assert_eq!(r.unwrap_err(), ParamError::Unsupported);
}

#[test]
fn duplicate_parameter_names_are_refused() {
    let r = plan_named_args(vec![named("x", "i32"), named("x", "u8")]);
    match r {
        Err(ParamError::Duplicate(n)) => assert_eq!(n.value(), "x"),
        other => panic!("expected a duplicate error, got {:?}", other),
    }
}

#[test]
fn access_classification_follows_the_borrow_tokens() {
    let g = GetField::new(false, false, encode("person"), encode("age"));
    assert_eq!(g.flag, RefFlag::Plain);
    assert_eq!(g.target.value(), "person");
    assert_eq!(g.field.value(), "age");
    assert_eq!(
        GetField::new(true, false, encode("p"), encode("f")).flag,
        RefFlag::Ref
    );
    assert_eq!(
        GetField::new(true, true, encode("p"), encode("f")).flag,
        RefFlag::Mut
    );
    // an exclusive marker without a borrow token does not count
    assert_eq!(
        GetField::new(false, true, encode("p"), encode("f")).flag,
        RefFlag::Plain
    );
}
