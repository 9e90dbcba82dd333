use structz::{encode, Character, TypedString};

#[test]
fn recover_round_trips() {
    assert_eq!(encode("foobar").value(), "foobar");
    assert_eq!(encode("x").value(), "x");
    assert_eq!(encode("").value(), "");
    assert_eq!(encode("caf\u{e9}").value(), "caf\u{e9}");
}

#[test]
fn concat_recovers_joined_text() {
    let foo = encode("foo");
    let bar = encode("bar");
    assert_eq!(foo.concat(&bar).value(), "foobar");
    assert_eq!(bar.concat(&foo).value(), "barfoo");
    let empty = encode("");
    assert_eq!(foo.concat(&empty).value(), "foo");
    assert_eq!(empty.concat(&foo).value(), "foo");
}

#[test]
fn distinct_texts_give_distinct_names() {
    assert_ne!(encode("alpha"), encode("beta"));
    assert_ne!(encode("ab"), encode("abc"));
    assert_ne!(encode("a"), encode(""));
    assert_eq!(encode("same"), encode("same"));
}

#[test]
fn markers_spell_the_text() {
    let name = encode("age");
    let markers: &Vec<Character> = name.markers();
    assert_eq!(markers.len(), 3);
    assert_eq!(markers[0].ch, 'a');
    assert_eq!(markers[1].ch, 'g');
    assert_eq!(markers[2].ch, 'e');
    assert_eq!(encode("").markers().len(), 0);
}

#[test]
fn name_comparison_follows_text() {
    let a = encode("age");
    let n = encode("name");
    assert!(a.name_eq(&encode("age")));
    assert!(!a.name_eq(&n));
    assert!(a.lex_le(&n));
    assert!(!n.lex_le(&a));
    assert!(a.lex_le(&encode("age")));
    // a proper prefix comes first
    assert!(encode("ab").lex_le(&encode("abc")));
    assert!(!encode("abc").lex_le(&encode("ab")));
}

#[test]
fn cloned_name_encodes_same_text() {
    let n = encode("height");
    let c = n.clone();
    assert_eq!(n, c);
    assert_eq!(c.value(), "height");
}
