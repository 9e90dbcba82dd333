//! Anonymous structs and field lookup.
//!
//! An [`AnonymousStruct`] is a record of named fields kept in canonical
//! lexicographic order, so that its identity does not depend on the order
//! the fields were given in.  Its view is the association from field names
//! to values.  The [`HasField`] trait gives by-name read, write and
//! consuming access to a field that is known to be present; whether a field
//! is present can always be asked ([`AnonymousStruct::contains_field`]).

use vstd::prelude::*;
use vstd::pervasive::unreached;
use crate::canonical::{
    canonicalize, distinct_names, has_name, lemma_has_name_multiset, lemma_map_of_props,
    lemma_sorted_distinct, map_of, sorted_names, FieldError, FieldPair,
};
use crate::lex::lex_lt;
use crate::stringz::EncodedName;

verus! {

/// A record of named fields, held in canonical order: strictly sorted by
/// name, so names are distinct.  Its view is the map from field names to
/// the values they carry.
#[derive(Debug, PartialEq, Eq)]
pub struct AnonymousStruct<V> {
    fields: Vec<FieldPair<V>>,
}

impl<V> View for AnonymousStruct<V> {
    type V = Map<Seq<char>, V>;

    closed spec fn view(&self) -> Map<Seq<char>, V> {
        map_of(self.fields@)
    }
}

/// By-name access to the fields of a record.
///
/// The `requires` of each method is the lookup witness: the caller must know
/// that a field of the requested name is present.  [`AnonymousStruct::contains_field`]
/// answers exactly that question.
pub trait HasField<V>: Sized {
    /// The association from field names to the values they carry.
    spec fn field_map(&self) -> Map<Seq<char>, V>;

    /// The record is in canonical form.
    spec fn fields_ok(&self) -> bool;

    /// Borrow the value carried by the field named `name`.
    fn get_field(&self, name: &EncodedName) -> (r: &V)
        requires
            self.fields_ok(),
            self.field_map().dom().contains(name@),
        ensures
            *r == self.field_map()[name@],
    ;

    /// Mutably borrow the value carried by the field named `name`.  Writing
    /// through the borrow replaces that field's value and nothing else.
    fn get_field_mut(&mut self, name: &EncodedName) -> (r: &mut V)
        requires
            old(self).fields_ok(),
            old(self).field_map().dom().contains(name@),
        ensures
            *r == old(self).field_map()[name@],
            final(self).fields_ok(),
            final(self).field_map() == old(self).field_map().insert(name@, *final(r)),
    ;

    /// Consume the record and take the value carried by the field named
    /// `name`; the other fields are discarded with the record.
    fn take_field(self, name: &EncodedName) -> (r: V)
        requires
            self.fields_ok(),
            self.field_map().dom().contains(name@),
        ensures
            r == self.field_map()[name@],
    ;
}

impl<V> AnonymousStruct<V> {
    /// The fields in canonical order.
    pub closed spec fn field_seq(self) -> Seq<FieldPair<V>> {
        self.fields@
    }

    /// The record is in canonical form: strictly sorted by name.
    pub open spec fn well_formed(self) -> bool {
        sorted_names(self.field_seq())
    }

    /// Build a record from a field list, in any order: the fields are
    /// brought into canonical order, and a list in which two fields share a
    /// name is rejected with an error naming the shared name.
    pub fn new(fields: Vec<FieldPair<V>>) -> (r: Result<AnonymousStruct<V>, FieldError>)
        ensures
            match r {
                Ok(s) => {
                    &&& s.well_formed()
                    &&& distinct_names(fields@)
                    &&& s.field_seq().to_multiset() == fields@.to_multiset()
                    &&& forall|n: Seq<char>|
                        #[trigger] s@.dom().contains(n) <==> has_name(fields@, n)
                    &&& forall|i: int|
                        #![trigger fields@[i]]
                        0 <= i < fields@.len() ==> s@[fields@[i].name@] == fields@[i].value
                },
                Err(e) => match e {
                    FieldError::DuplicateField(n) => {
                        &&& !distinct_names(fields@)
                        &&& exists|p: int, q: int|
                            #![trigger fields@[p], fields@[q]]
                            0 <= p < q < fields@.len() && fields@[p].name@ == n@
                                && fields@[q].name@ == n@
                    },
                    FieldError::MissingField(_) => false,
                },
            },
    {
        let ghost input = fields@;
        match canonicalize(fields) {
            Ok(out) => {
                let s = AnonymousStruct { fields: out };
                proof {
                    lemma_map_of_props(s.fields@);
                    lemma_has_name_multiset(s.fields@, input);
                    lemma_sorted_distinct(s.fields@);
                    assert forall|i: int| 0 <= i < input.len() implies s@[(
                    #[trigger] input[i]).name@] == input[i].value by {
                        assert(input.contains(input[i]));
                        assert(s.fields@.to_multiset().count(input[i]) > 0) by {
                            vstd::seq_lib::to_multiset_contains(input, input[i]);
                            vstd::seq_lib::to_multiset_contains(s.fields@, input[i]);
                        }
                        assert(s.fields@.contains(input[i])) by {
                            vstd::seq_lib::to_multiset_contains(s.fields@, input[i]);
                        }
                        let k = choose|k: int|
                            0 <= k < s.fields@.len() && s.fields@[k] == input[i];
                        assert(map_of(s.fields@)[s.fields@[k].name@] == s.fields@[k].value);
                    }
                }
                Ok(s)
            },
            Err(e) => Err(e),
        }
    }

    /// The fields of the record, in canonical order.
    pub fn fields(&self) -> (r: &Vec<FieldPair<V>>)
        ensures
            r@ == self.field_seq(),
    {
        &self.fields
    }

    /// Whether a field named `name` is present: the runtime form of the
    /// lookup witness that the access methods require.
    pub fn contains_field(&self, name: &EncodedName) -> (r: bool)
        ensures
            r == self@.dom().contains(name@),
    {
        let n: usize = self.fields.len();
        let mut i: usize = 0;
        while i < n
            invariant
                n == self.fields@.len(),
                i <= n,
                forall|k: int| #![trigger self.fields@[k]] 0 <= k < i ==> self.fields@[k].name@ != name@,
            decreases n - i,
        {
            if self.fields[i].name.name_eq(name) {
                proof {
                    lemma_map_of_props(self.fields@);
                    assert(has_name(self.fields@, name@));
                }
                return true;
            }
            i += 1;
        }
        proof {
            lemma_map_of_props(self.fields@);
            if has_name(self.fields@, name@) {
                let j = choose|j: int|
                    #![trigger self.fields@[j]]
                    0 <= j < self.fields@.len() && self.fields@[j].name@ == name@;
                assert(false);
            }
        }
        false
    }

    /// The position of the field named `name`.
    fn find_index(&self, name: &EncodedName) -> (i: usize)
        requires
            self@.dom().contains(name@),
        ensures
            i < self.field_seq().len(),
            self.field_seq()[i as int].name@ == name@,
    {
        let n: usize = self.fields.len();
        let mut i: usize = 0;
        while i < n
            invariant
                n == self.fields@.len(),
                self@.dom().contains(name@),
                i <= n,
                forall|k: int| #![trigger self.fields@[k]] 0 <= k < i ==> self.fields@[k].name@ != name@,
            decreases n - i,
        {
            if self.fields[i].name.name_eq(name) {
                return i;
            }
            i += 1;
        }
        proof {
            lemma_map_of_props(self.fields@);
            assert(has_name(self.fields@, name@));
            let j = choose|j: int|
                #![trigger self.fields@[j]]
                0 <= j < self.fields@.len() && self.fields@[j].name@ == name@;
            assert(false);
        }
        unreached()
    }
}

/// Order-independence of record identity: two canonical records holding the
/// same fields — as an unordered collection, so any permutation of one
/// construction order against another — have the same field list and the
/// same name-to-value association.  Together with [`AnonymousStruct::new`],
/// which keeps exactly the multiset of the fields it was given, building a
/// record from any permutation of a duplicate-free field list yields one and
/// the same record.
pub proof fn lemma_struct_order_independent<V>(a: AnonymousStruct<V>, b: AnonymousStruct<V>)
    requires
        a.well_formed(),
        b.well_formed(),
        a.field_seq().to_multiset() == b.field_seq().to_multiset(),
    ensures
        a.field_seq() == b.field_seq(),
        a@ == b@,
{
    crate::canonical::lemma_canonical_unique(a.field_seq(), b.field_seq());
}

/// The set of texts a name list spells.
pub open spec fn name_set(ns: Seq<EncodedName>) -> Set<Seq<char>> {
    Set::new(|n: Seq<char>| exists|k: int| #![trigger ns[k]] 0 <= k < ns.len() && ns[k]@ == n)
}

/// The fields of a list whose names fall in `keys`, in their original order.
spec fn keep_named<V>(s: Seq<FieldPair<V>>, keys: Set<Seq<char>>) -> Seq<FieldPair<V>>
    decreases s.len(),
{
    if s.len() == 0 {
        Seq::empty()
    } else if keys.contains(s.first().name@) {
        seq![s.first()] + keep_named(s.drop_first(), keys)
    } else {
        keep_named(s.drop_first(), keys)
    }
}

/// Keeping the fields named in `keys` keeps names that are present and in
/// `keys`, keeps only fields of the original list, and preserves canonical
/// order.
proof fn lemma_keep_named_props<V>(s: Seq<FieldPair<V>>, keys: Set<Seq<char>>)
    ensures
        forall|n: Seq<char>| has_name(keep_named(s, keys), n) <==> has_name(s, n)
            && keys.contains(n),
        forall|i: int|
            #![trigger keep_named(s, keys)[i]]
            0 <= i < keep_named(s, keys).len() ==> exists|j: int|
                0 <= j < s.len() && keep_named(s, keys)[i] == s[j],
        sorted_names(s) ==> sorted_names(keep_named(s, keys)),
    decreases s.len(),
{
    let keep = keep_named(s, keys);
    if s.len() == 0 {
        assert forall|n: Seq<char>| has_name(keep, n) implies has_name(s, n) && keys.contains(
            n,
        ) by {
            let i = choose|i: int| #![trigger keep[i]] 0 <= i < keep.len() && keep[i].name@ == n;
        }
    } else {
        let d = s.drop_first();
        let kd = keep_named(d, keys);
        lemma_keep_named_props(d, keys);
        assert forall|j: int| #![trigger d[j]] 0 <= j < d.len() implies d[j] == s[j + 1] by {}
        if sorted_names(s) {
            assert forall|p: int, q: int| 0 <= p < q < d.len() implies lex_lt(
                (#[trigger] d[p]).name@,
                (#[trigger] d[q]).name@,
            ) by {}
        }
        if keys.contains(s.first().name@) {
            assert(keep =~= seq![s[0]] + kd);
            assert(keep[0] == s[0]);
            assert forall|i: int| 0 < i < keep.len() implies #[trigger] keep[i] == kd[i - 1] by {}
            assert forall|i: int| 0 <= i < keep.len() implies exists|j: int|
                0 <= j < s.len() && #[trigger] keep[i] == s[j] by {
                if i == 0 {
                    assert(keep[i] == s[0]);
                } else {
                    let j = choose|j: int| 0 <= j < d.len() && kd[i - 1] == d[j];
                    assert(keep[i] == s[j + 1]);
                }
            }
            assert forall|n: Seq<char>| has_name(keep, n) implies has_name(s, n) && keys.contains(
                n,
            ) by {
                let i = choose|i: int|
                    #![trigger keep[i]]
                    0 <= i < keep.len() && keep[i].name@ == n;
                if i == 0 {
                    assert(s[0].name@ == n);
                } else {
                    assert(has_name(kd, n));
                    let j = choose|j: int| #![trigger d[j]] 0 <= j < d.len() && d[j].name@ == n;
                    assert(s[j + 1].name@ == n);
                }
            }
            assert forall|n: Seq<char>| has_name(s, n) && keys.contains(n) implies has_name(
                keep,
                n,
            ) by {
                let j = choose|j: int| #![trigger s[j]] 0 <= j < s.len() && s[j].name@ == n;
                if j == 0 {
                    assert(keep[0].name@ == n);
                } else {
                    assert(d[j - 1].name@ == n);
                    assert(has_name(d, n));
                    assert(has_name(kd, n));
                    let i = choose|i: int| #![trigger kd[i]] 0 <= i < kd.len() && kd[i].name@ == n;
                    assert(keep[i + 1].name@ == n);
                }
            }
            if sorted_names(s) {
                assert forall|p: int, q: int| 0 <= p < q < keep.len() implies lex_lt(
                    (#[trigger] keep[p]).name@,
                    (#[trigger] keep[q]).name@,
                ) by {
                    if p == 0 {
                        let j = choose|j: int| 0 <= j < d.len() && kd[q - 1] == d[j];
                        assert(keep[q] == s[j + 1]);
                        assert(lex_lt(s[0].name@, s[j + 1].name@));
                    } else {
                        assert(keep[p] == kd[p - 1]);
                        assert(keep[q] == kd[q - 1]);
                    }
                }
            }
        } else {
            assert(keep =~= kd);
            assert forall|i: int| 0 <= i < keep.len() implies exists|j: int|
                0 <= j < s.len() && #[trigger] keep[i] == s[j] by {
                let j = choose|j: int| 0 <= j < d.len() && kd[i] == d[j];
                assert(keep[i] == s[j + 1]);
            }
            assert forall|n: Seq<char>| has_name(keep, n) implies has_name(s, n) && keys.contains(
                n,
            ) by {
                let i = choose|i: int| #![trigger kd[i]] 0 <= i < kd.len() && kd[i].name@ == n;
                let j = choose|j: int| #![trigger d[j]] 0 <= j < d.len() && d[j].name@ == n;
                assert(s[j + 1].name@ == n);
            }
            assert forall|n: Seq<char>| has_name(s, n) && keys.contains(n) implies has_name(
                keep,
                n,
            ) by {
                let j = choose|j: int| #![trigger s[j]] 0 <= j < s.len() && s[j].name@ == n;
                assert(j != 0);
                assert(d[j - 1].name@ == n);
                assert(has_name(d, n));
            }
        }
    }
}

/// Whether some name of the list spells the same text as `n`.
fn name_in(names: &Vec<EncodedName>, n: &EncodedName) -> (r: bool)
    ensures
        r == name_set(names@).contains(n@),
{
    let len: usize = names.len();
    let mut i: usize = 0;
    while i < len
        invariant
            len == names@.len(),
            i <= len,
            forall|k: int| #![trigger names@[k]] 0 <= k < i ==> names@[k]@ != n@,
        decreases len - i,
    {
        if names[i].name_eq(n) {
            return true;
        }
        i += 1;
    }
    proof {
        if name_set(names@).contains(n@) {
            let j = choose|j: int| #![trigger names@[j]] 0 <= j < names@.len() && names@[j]@ == n@;
            assert(false);
        }
    }
    false
}

impl<V> AnonymousStruct<V> {
    /// Narrow the record to the named fields, consuming it: the result
    /// carries exactly the requested fields with their values, and is in
    /// canonical order.  A name that no field carries is rejected, naming
    /// the first such name.  Requesting every field returns the record
    /// unchanged in content.
    pub fn subset(self, names: &Vec<EncodedName>) -> (r: Result<AnonymousStruct<V>, FieldError>)
        requires
            self.well_formed(),
        ensures
            match r {
                Ok(sub) => {
                    &&& sub.well_formed()
                    &&& forall|k: int|
                        #![trigger names@[k]]
                        0 <= k < names@.len() ==> self@.dom().contains(names@[k]@)
                    &&& sub@ == self@.restrict(name_set(names@))
                },
                Err(e) => match e {
                    FieldError::MissingField(n) => exists|k: int|
                        #![trigger names@[k]]
                        0 <= k < names@.len() && names@[k]@ == n@ && !self@.dom().contains(n@)
                            && forall|t: int|
                            #![trigger names@[t]]
                            0 <= t < k ==> self@.dom().contains(names@[t]@),
                    FieldError::DuplicateField(_) => false,
                },
            },
    {
        let len: usize = names.len();
        let mut k: usize = 0;
        while k < len
            invariant
                len == names@.len(),
                k <= len,
                forall|t: int|
                    #![trigger names@[t]]
                    0 <= t < k ==> self@.dom().contains(names@[t]@),
            decreases len - k,
        {
            if !self.contains_field(&names[k]) {
                return Err(FieldError::MissingField(names[k].clone()));
            }
            k += 1;
        }
        let ghost keys = name_set(names@);
        let ghost orig = self.fields@;
        proof {
            lemma_sorted_distinct(orig);
            lemma_map_of_props(orig);
        }
        let mut rest = self.fields;
        let mut kept: Vec<FieldPair<V>> = Vec::new();
        proof {
            assert(kept@ + keep_named(rest@, keys) =~= keep_named(orig, keys));
        }
        while rest.len() > 0
            invariant
                keys == name_set(names@),
                kept@ + keep_named(rest@, keys) == keep_named(orig, keys),
            decreases rest@.len(),
        {
            let ghost rest0 = rest@;
            let ghost kept0 = kept@;
            let fp = rest.remove(0);
            proof {
                assert(rest@ =~= rest0.drop_first());
                assert(fp == rest0.first());
            }
            if name_in(names, &fp.name) {
                kept.push(fp);
                proof {
                    assert(keep_named(rest0, keys) == seq![fp] + keep_named(rest@, keys));
                    assert(kept@ + keep_named(rest@, keys) =~= kept0 + keep_named(rest0, keys));
                }
            } else {
                proof {
                    assert(keep_named(rest0, keys) == keep_named(rest@, keys));
                }
            }
        }
        proof {
            assert(kept@ + keep_named(rest@, keys) =~= kept@);
            assert(kept@ == keep_named(orig, keys));
            lemma_keep_named_props(orig, keys);
            lemma_sorted_distinct(kept@);
            lemma_map_of_props(kept@);
            let m1 = map_of(kept@);
            let m2 = map_of(orig).restrict(keys);
            assert forall|x: Seq<char>| #[trigger] m1.dom().contains(x) implies m2.dom().contains(
                x,
            ) && m1[x] == m2[x] by {
                assert(has_name(kept@, x));
                assert(has_name(orig, x) && keys.contains(x));
                assert(map_of(orig).dom().contains(x));
                let i = choose|i: int| #![trigger kept@[i]] 0 <= i < kept@.len() && kept@[i].name@ == x;
                assert(m1[kept@[i].name@] == kept@[i].value);
                let j = choose|j: int| 0 <= j < orig.len() && kept@[i] == orig[j];
                assert(map_of(orig)[orig[j].name@] == orig[j].value);
            }
            assert forall|x: Seq<char>| #[trigger] m2.dom().contains(x) implies m1.dom().contains(
                x,
            ) by {
                assert(map_of(orig).dom().contains(x) && keys.contains(x));
                assert(has_name(orig, x));
                assert(has_name(kept@, x));
            }
            assert(m1 =~= m2);
        }
        Ok(AnonymousStruct { fields: kept })
    }
}

impl<V> HasField<V> for AnonymousStruct<V> {
    open spec fn field_map(&self) -> Map<Seq<char>, V> {
        self@
    }

    open spec fn fields_ok(&self) -> bool {
        self.well_formed()
    }

    fn get_field(&self, name: &EncodedName) -> (r: &V) {
        let i = self.find_index(name);
        proof {
            lemma_sorted_distinct(self.fields@);
            lemma_map_of_props(self.fields@);
        }
        &self.fields[i].value
    }

    fn get_field_mut(&mut self, name: &EncodedName) -> (r: &mut V) {
        broadcast use crate::canonical::lemma_update_field;

        let i = self.find_index(name);
        proof {
            lemma_sorted_distinct(self.fields@);
            lemma_map_of_props(self.fields@);
        }
        &mut self.fields[i].value
    }

    fn take_field(self, name: &EncodedName) -> (r: V) {
        let i = self.find_index(name);
        proof {
            lemma_sorted_distinct(self.fields@);
            lemma_map_of_props(self.fields@);
        }
        let mut fields = self.fields;
        let fp = fields.remove(i);
        fp.value
    }
}

} // verus!
