use structz::{encode, AnonymousStruct, FieldError, FieldPair, HasField};

#[derive(Debug, Clone, PartialEq, Eq)]
enum Val {
    I(i64),
    S(String),
    L(Vec<String>),
}

fn fp(name: &str, value: Val) -> FieldPair<Val> {
    FieldPair { name: encode(name), value }
}

fn person() -> AnonymousStruct<Val> {
    AnonymousStruct::new(vec![
        fp("name", Val::S("John Doe".to_string())),
        fp("age", Val::I(26)),
        fp(
            "tags",
            Val::L(vec!["developer".to_string(), "rustacean".to_string()]),
        ),
    ])
    .unwrap()
}

#[test]
fn field_access_reads_mutates_and_consumes() {
    let mut person = person();
    let name = encode("name");
    let age = encode("age");
    let tags = encode("tags");
    assert!(person.contains_field(&age));

    // immutable borrow
    assert_eq!(person.get_field(&name), &Val::S("John Doe".to_string()));
    assert_eq!(person.get_field(&age), &Val::I(26));

    // mutable borrow, then increment
    if let Val::I(n) = person.get_field_mut(&age) {
        *n += 1;
    }
    assert_eq!(person.get_field(&age), &Val::I(27));

    // consume the struct and take the field value
    let got = person.take_field(&tags);
    assert_eq!(
        got,
        Val::L(vec!["developer".to_string(), "rustacean".to_string()])
    );
    // `person` has been moved and cannot be used anymore.
}

#[test]
fn same_fields_in_any_order_are_equal() {
    let rect1 = AnonymousStruct::new(vec![fp("width", Val::I(1920)), fp("height", Val::I(1080))])
        .unwrap();
    let rect2 = AnonymousStruct::new(vec![fp("height", Val::I(1080)), fp("width", Val::I(1920))])
        .unwrap();
    assert_eq!(rect1, rect2);
}

#[test]
fn every_permutation_builds_the_same_record() {
    let entries = [
        ("name", Val::S("Alice".to_string())),
        ("age", Val::I(30)),
        ("tags", Val::L(vec!["programmer".to_string()])),
    ];
    let orders: [[usize; 3]; 6] = [
        [0, 1, 2],
        [0, 2, 1],
        [1, 0, 2],
        [1, 2, 0],
        [2, 0, 1],
        [2, 1, 0],
    ];
    let reference = AnonymousStruct::new(
        entries
            .iter()
            .map(|(n, v)| fp(n, v.clone()))
            .collect::<Vec<_>>(),
    )
    .unwrap();
    for order in orders {
        let permuted = AnonymousStruct::new(
            order
                .iter()
                .map(|&i| fp(entries[i].0, entries[i].1.clone()))
                .collect::<Vec<_>>(),
        )
        .unwrap();
        assert_eq!(permuted, reference);
    }
}

#[test]
fn fields_come_out_in_canonical_order() {
    let s = AnonymousStruct::new(vec![
        fp("width", Val::I(1)),
        fp("aspect", Val::I(2)),
        fp("height", Val::I(3)),
    ])
    .unwrap();
    let names: Vec<String> = s
        .fields()
        .iter()
        .map(|f| structz::TypedString::value(&f.name))
        .collect();
    assert_eq!(names, vec!["aspect", "height", "width"]);
}

#[test]
fn duplicate_field_is_rejected_naming_the_field() {
    let r = AnonymousStruct::new(vec![fp("x", Val::I(1)), fp("x", Val::I(2))]);
    match r {
        Err(FieldError::DuplicateField(n)) => {
            assert_eq!(n, encode("x"));
        }
        other => panic!("expected a duplicate-field error, got {:?}", other),
    }
    // the duplicate is caught even when other fields stand between
    let r = AnonymousStruct::new(vec![
        fp("a", Val::I(1)),
        fp("b", Val::I(2)),
        fp("a", Val::I(3)),
    ]);
    match r {
        Err(FieldError::DuplicateField(n)) => assert_eq!(n, encode("a")),
        other => panic!("expected a duplicate-field error, got {:?}", other),
    }
}

#[test]
fn missing_field_is_reported() {
    let s = AnonymousStruct::new(vec![fp("x", Val::I(1)), fp("y", Val::I(2))]).unwrap();
    let z = encode("z");
    assert!(!s.contains_field(&z));
    assert!(s.contains_field(&encode("x")));
    match s.subset(&vec![z]) {
        Err(FieldError::MissingField(n)) => assert_eq!(n, encode("z")),
        other => panic!("expected a missing-field error, got {:?}", other),
    }
}

#[test]
fn subset_narrows_to_the_named_fields() {
    let alice = AnonymousStruct::new(vec![
        fp("jobs", Val::S("programmer".to_string())),
        fp("name", Val::S("Alice".to_string())),
        fp("age", Val::I(30)),
        fp("children", Val::L(vec!["Bob".to_string()])),
    ])
    .unwrap();
    let expected = AnonymousStruct::new(vec![
        fp("name", Val::S("Alice".to_string())),
        fp("age", Val::I(30)),
    ])
    .unwrap();
    let narrowed = alice.subset(&vec![encode("name"), encode("age")]).unwrap();
    assert_eq!(narrowed, expected);
}

#[test]
fn subset_ignores_request_order() {
    let bob = AnonymousStruct::new(vec![
        fp("name", Val::S("Bob".to_string())),
        fp("parent", Val::L(vec!["Alice".to_string()])),
        fp("age", Val::I(7)),
        fp("grade", Val::I(1)),
    ])
    .unwrap();
    let expected = AnonymousStruct::new(vec![
        fp("age", Val::I(7)),
        fp("name", Val::S("Bob".to_string())),
    ])
    .unwrap();
    let narrowed = bob.subset(&vec![encode("age"), encode("name")]).unwrap();
    assert_eq!(narrowed, expected);
}

#[test]
fn record_is_a_subset_of_itself() {
    let empty = AnonymousStruct::new(vec![
        fp("name", Val::S("**Empty**".to_string())),
        fp("age", Val::I(0)),
    ])
    .unwrap();
    let narrowed = empty.subset(&vec![encode("name"), encode("age")]).unwrap();
    let expected = AnonymousStruct::new(vec![
        fp("name", Val::S("**Empty**".to_string())),
        fp("age", Val::I(0)),
    ])
    .unwrap();
    assert_eq!(narrowed, expected);
}

#[test]
fn records_differing_in_one_name_are_not_equal() {
    // encoding is injective: renaming one field changes the record's identity
    let a = AnonymousStruct::new(vec![fp("id", Val::I(1)), fp("name", Val::S("n".into()))])
        .unwrap();
    let b = AnonymousStruct::new(vec![fp("id", Val::I(1)), fp("nick", Val::S("n".into()))])
        .unwrap();
    assert_ne!(a, b);
    assert!(a.contains_field(&encode("name")));
    assert!(!b.contains_field(&encode("name")));
}

#[test]
fn subset_of_no_names_is_the_empty_record() {
    let s = AnonymousStruct::new(vec![fp("x", Val::I(1)), fp("y", Val::I(2))]).unwrap();
    let narrowed = s.subset(&vec![]).unwrap();
    let empty: AnonymousStruct<Val> = AnonymousStruct::new(vec![]).unwrap();
    assert_eq!(narrowed, empty);
}

#[test]
fn empty_record_is_allowed_and_empty() {
    let s: AnonymousStruct<Val> = AnonymousStruct::new(vec![]).unwrap();
    assert!(!s.contains_field(&encode("x")));
    assert_eq!(s.fields().len(), 0);
}
