//! Canonicalization of field lists.
//!
//! A record's identity must not depend on the order its fields were written
//! in.  To that end every field list is brought into a canonical form before
//! a record is built from it: the fields are sorted by name in lexicographic
//! order, and a list in which two fields share a name is rejected with an
//! error naming the offending field.  The canonical form of a duplicate-free
//! list is unique ([`lemma_canonical_unique`]), which is what makes two
//! records built from permutations of the same fields equal.

use vstd::prelude::*;
use vstd::seq_lib::group_to_multiset_ensures;
use vstd::seq_lib::lemma_multiset_commutative;
use vstd::multiset::group_multiset_axioms;
use vstd::multiset::Multiset;
use crate::lex::{
    lex_lt,
    lex_leq,
    lemma_lex_lt_asymmetric,
    lemma_lex_lt_connected,
    lemma_lex_lt_transitive,
    lemma_lex_leq_antisymmetric,
};
use crate::stringz::EncodedName;

verus! {

broadcast use group_to_multiset_ensures, group_multiset_axioms;

/// One field of a record: an encoded name and the value it carries.
#[derive(Debug, PartialEq, Eq)]
pub struct FieldPair<V> {
    /// The field's name.
    pub name: EncodedName,
    /// The value the field carries.
    pub value: V,
}

/// The ways a field list or a field lookup can be rejected.
#[derive(Debug, PartialEq, Eq)]
pub enum FieldError {
    /// Two fields of one list share this name.
    DuplicateField(EncodedName),
    /// No field of the record has this name.
    MissingField(EncodedName),
}

/// The names of a field list share no text: every pair of positions disagrees.
pub open spec fn distinct_names<V>(s: Seq<FieldPair<V>>) -> bool {
    forall|i: int, j: int|
        #![trigger s[i], s[j]]
        0 <= i < j < s.len() ==> s[i].name@ != s[j].name@
}

/// The field list is sorted by name, allowing equal neighbours.
pub(crate) open spec fn sorted_leq<V>(s: Seq<FieldPair<V>>) -> bool {
    forall|i: int, j: int|
        #![trigger s[i], s[j]]
        0 <= i < j < s.len() ==> lex_leq(s[i].name@, s[j].name@)
}

/// The field list is strictly sorted by name: the canonical form.
pub open spec fn sorted_names<V>(s: Seq<FieldPair<V>>) -> bool {
    forall|i: int, j: int|
        #![trigger s[i], s[j]]
        0 <= i < j < s.len() ==> lex_lt(s[i].name@, s[j].name@)
}

/// Some field of the list is named `n`.
pub open spec fn has_name<V>(s: Seq<FieldPair<V>>, n: Seq<char>) -> bool {
    exists|i: int| #![trigger s[i]] 0 <= i < s.len() && s[i].name@ == n
}

/// The name-to-value association a field list stands for.  With duplicate
/// names the later field wins; canonical lists have no duplicates, so there
/// the association is exact ([`lemma_map_of_props`]).
pub open spec fn map_of<V>(s: Seq<FieldPair<V>>) -> Map<Seq<char>, V>
    decreases s.len(),
{
    if s.len() == 0 {
        Map::empty()
    } else {
        map_of(s.drop_last()).insert(s.last().name@, s.last().value)
    }
}

/// The association of a field list has exactly the listed names as keys, and,
/// when the names are distinct, maps each name to the value listed with it.
pub proof fn lemma_map_of_props<V>(s: Seq<FieldPair<V>>)
    ensures
        forall|n: Seq<char>| #[trigger] map_of(s).dom().contains(n) <==> has_name(s, n),
        distinct_names(s) ==> forall|i: int|
            #![trigger s[i]]
            0 <= i < s.len() ==> map_of(s)[s[i].name@] == s[i].value,
    decreases s.len(),
{
    if s.len() > 0 {
        let dl = s.drop_last();
        lemma_map_of_props(dl);
        assert(map_of(s) == map_of(dl).insert(s.last().name@, s.last().value));
        assert forall|n: Seq<char>| #[trigger] map_of(s).dom().contains(n) implies has_name(
            s,
            n,
        ) by {
            if n == s.last().name@ {
                assert(s[s.len() - 1].name@ == n);
            } else {
                assert(map_of(dl).dom().contains(n));
                assert(has_name(dl, n));
                let i = choose|i: int| #![trigger dl[i]] 0 <= i < dl.len() && dl[i].name@ == n;
                assert(dl[i] == s[i]);
                assert(s[i].name@ == n);
            }
        }
        assert forall|n: Seq<char>| has_name(s, n) implies #[trigger] map_of(s).dom().contains(
            n,
        ) by {
            let i = choose|i: int| #![trigger s[i]] 0 <= i < s.len() && s[i].name@ == n;
            if i < s.len() - 1 {
                assert(dl[i] == s[i]);
                assert(has_name(dl, n));
                assert(map_of(dl).dom().contains(n));
            }
        }
        if distinct_names(s) {
            assert(distinct_names(dl));
            assert forall|i: int| 0 <= i < s.len() implies map_of(s)[#[trigger] s[i].name@]
                == s[i].value by {
                if i < s.len() - 1 {
                    assert(s[i].name@ != s.last().name@);
                    assert(dl[i] == s[i]);
                }
            }
        }
    }
}

/// Inserting a field between the fields that precede it and the fields that
/// strictly follow it keeps the list sorted.
proof fn lemma_sorted_leq_insert<V>(s: Seq<FieldPair<V>>, pos: int, fp: FieldPair<V>)
    requires
        sorted_leq(s),
        0 <= pos <= s.len(),
        forall|k: int| #![trigger s[k]] 0 <= k < pos ==> lex_leq(s[k].name@, fp.name@),
        forall|k: int| #![trigger s[k]] pos <= k < s.len() ==> lex_lt(fp.name@, s[k].name@),
    ensures
        sorted_leq(s.insert(pos, fp)),
{
    let t = s.insert(pos, fp);
    assert forall|i: int, j: int| 0 <= i < j < t.len() implies lex_leq(
        #[trigger] t[i].name@,
        #[trigger] t[j].name@,
    ) by {
        if i < pos {
            assert(t[i] == s[i]);
        } else if i == pos {
            assert(t[i] == fp);
        } else {
            assert(t[i] == s[i - 1]);
        }
        if j < pos {
            assert(t[j] == s[j]);
        } else if j == pos {
            assert(t[j] == fp);
        } else {
            assert(t[j] == s[j - 1]);
        }
    }
}

/// An index of the shorter list that results from removing position `i`
/// refers to the same field the full list holds just before or just after
/// the removed position.
proof fn lemma_remove_index<A>(s: Seq<A>, i: int, j: int)
    requires
        0 <= i < s.len(),
        0 <= j < s.remove(i).len(),
    ensures
        j < i ==> s.remove(i)[j] == s[j],
        j >= i ==> s.remove(i)[j] == s[j + 1],
{
}

/// If a name occurs twice in one of two lists that hold the same fields
/// (as an unordered collection), it occurs twice in the other as well.
proof fn lemma_name_dup_transfer<V>(a: Seq<FieldPair<V>>, b: Seq<FieldPair<V>>, i: int, j: int)
    requires
        a.to_multiset() == b.to_multiset(),
        0 <= i < j < a.len(),
        a[i].name@ == a[j].name@,
    ensures
        exists|p: int, q: int|
            #![trigger b[p], b[q]]
            0 <= p < q < b.len() && b[p].name@ == a[i].name@ && b[q].name@ == a[i].name@,
{
    let x = a[i];
    let y = a[j];
    if x == y {
        let s0 = a.subrange(0, j);
        let s1 = a.subrange(j, a.len() as int);
        assert(a =~= s0 + s1);
        lemma_multiset_commutative(s0, s1);
        assert(s0[i] == x);
        assert(s0.contains(x));
        assert(s1[0] == x);
        assert(s1.contains(x));
        assert(s0.to_multiset().count(x) > 0);
        assert(s1.to_multiset().count(x) > 0);
        assert(b.to_multiset().count(x) >= 2);
        assert(b.contains(x));
        let p0 = choose|p: int| 0 <= p < b.len() && b[p] == x;
        let c = b.remove(p0);
        assert(c.to_multiset() == b.to_multiset().remove(x));
        assert(c.to_multiset().count(x) >= 1);
        assert(c.contains(x));
        let q0 = choose|q: int| 0 <= q < c.len() && c[q] == x;
        lemma_remove_index(b, p0, q0);
        if q0 < p0 {
            assert(b[q0].name@ == x.name@ && b[p0].name@ == x.name@);
            assert(b[q0].name@ == a[i].name@ && b[p0].name@ == a[i].name@);
        } else {
            assert(b[p0].name@ == x.name@ && b[q0 + 1].name@ == x.name@);
        }
    } else {
        assert(a.contains(x));
        assert(a.contains(y));
        assert(b.to_multiset().count(x) > 0);
        assert(b.to_multiset().count(y) > 0);
        assert(b.contains(x));
        let p0 = choose|p: int| 0 <= p < b.len() && b[p] == x;
        let c = b.remove(p0);
        assert(c.to_multiset() == b.to_multiset().remove(x));
        assert(c.to_multiset().count(y) == b.to_multiset().count(y));
        assert(c.contains(y));
        let q0 = choose|q: int| 0 <= q < c.len() && c[q] == y;
        lemma_remove_index(b, p0, q0);
        if q0 < p0 {
            assert(b[q0].name@ == y.name@ && b[p0].name@ == x.name@);
        } else {
            assert(b[p0].name@ == x.name@ && b[q0 + 1].name@ == y.name@);
        }
    }
}

/// In a sorted list whose neighbours never share a name, no two fields at
/// all share a name.
proof fn lemma_adjacent_distinct<V>(s: Seq<FieldPair<V>>)
    requires
        sorted_leq(s),
        forall|k: int|
            #![trigger s[k]]
            0 <= k && k + 1 < s.len() ==> s[k].name@ != s[k + 1].name@,
    ensures
        distinct_names(s),
{
    assert forall|i: int, j: int| 0 <= i < j < s.len() implies (#[trigger] s[i]).name@
        != (#[trigger] s[j]).name@ by {
        if s[i].name@ == s[j].name@ {
            assert(s[i].name@ != s[i + 1].name@);
            assert(lex_leq(s[i].name@, s[i + 1].name@));
            assert(lex_leq(s[i + 1].name@, s[j].name@));
            lemma_lex_leq_antisymmetric(s[i].name@, s[i + 1].name@);
        }
    }
}

/// A sorted list with distinct names is strictly sorted.
proof fn lemma_sorted_strict<V>(s: Seq<FieldPair<V>>)
    requires
        sorted_leq(s),
        distinct_names(s),
    ensures
        sorted_names(s),
{
}

/// A strictly sorted list has distinct names.
pub proof fn lemma_sorted_distinct<V>(s: Seq<FieldPair<V>>)
    requires
        sorted_names(s),
    ensures
        distinct_names(s),
{
    assert forall|i: int, j: int| 0 <= i < j < s.len() implies (#[trigger] s[i]).name@
        != (#[trigger] s[j]).name@ by {
        if s[i].name@ == s[j].name@ {
            crate::lex::lemma_lex_lt_irreflexive(s[i].name@);
        }
    }
}

/// Two lists holding the same fields (as an unordered collection) have the
/// same names present.
pub proof fn lemma_has_name_multiset<V>(a: Seq<FieldPair<V>>, b: Seq<FieldPair<V>>)
    requires
        a.to_multiset() == b.to_multiset(),
    ensures
        forall|n: Seq<char>| has_name(a, n) <==> has_name(b, n),
{
    assert forall|n: Seq<char>| has_name(a, n) implies has_name(b, n) by {
        let i = choose|i: int| #![trigger a[i]] 0 <= i < a.len() && a[i].name@ == n;
        assert(a.contains(a[i]));
        assert(b.to_multiset().count(a[i]) > 0);
        assert(b.contains(a[i]));
        let j = choose|j: int| 0 <= j < b.len() && b[j] == a[i];
        assert(b[j].name@ == n);
    }
    assert forall|n: Seq<char>| has_name(b, n) implies has_name(a, n) by {
        let i = choose|i: int| #![trigger b[i]] 0 <= i < b.len() && b[i].name@ == n;
        assert(b.contains(b[i]));
        assert(a.to_multiset().count(b[i]) > 0);
        assert(a.contains(b[i]));
        let j = choose|j: int| 0 <= j < a.len() && a[j] == b[i];
        assert(a[j].name@ == n);
    }
}

/// Replacing the value of one field, keeping its name, keeps the list
/// canonical and updates the association at that name alone.
pub broadcast proof fn lemma_update_field<V>(s: Seq<FieldPair<V>>, i: int, fp: FieldPair<V>)
    requires
        sorted_names(s),
        0 <= i < s.len(),
        fp.name@ == s[i].name@,
    ensures
        #![trigger map_of(s.update(i, fp))]
        sorted_names(s.update(i, fp)),
        map_of(s.update(i, fp)) == map_of(s).insert(fp.name@, fp.value),
    decreases s.len(),
{
    let t = s.update(i, fp);
    assert forall|p: int, q: int| 0 <= p < q < t.len() implies lex_lt(
        (#[trigger] t[p]).name@,
        (#[trigger] t[q]).name@,
    ) by {
        assert(t[p].name@ == s[p].name@);
        assert(t[q].name@ == s[q].name@);
    }
    lemma_sorted_distinct(s);
    if i == s.len() - 1 {
        assert(t.drop_last() =~= s.drop_last());
        assert(t.last() == fp);
        assert(map_of(t) == map_of(s.drop_last()).insert(fp.name@, fp.value));
        assert(map_of(s) == map_of(s.drop_last()).insert(s.last().name@, s.last().value));
        assert(map_of(s).insert(fp.name@, fp.value) =~= map_of(s.drop_last()).insert(
            fp.name@,
            fp.value,
        ));
    } else {
        let sd = s.drop_last();
        assert(t.drop_last() =~= sd.update(i, fp));
        assert(t.last() == s.last());
        assert forall|p: int, q: int| 0 <= p < q < sd.len() implies lex_lt(
            (#[trigger] sd[p]).name@,
            (#[trigger] sd[q]).name@,
        ) by {
            assert(sd[p] == s[p]);
            assert(sd[q] == s[q]);
        }
        lemma_update_field(sd, i, fp);
        assert(map_of(t) == map_of(sd).insert(fp.name@, fp.value).insert(
            s.last().name@,
            s.last().value,
        ));
        assert(fp.name@ != s.last().name@);
        assert(map_of(t) =~= map_of(sd).insert(s.last().name@, s.last().value).insert(
            fp.name@,
            fp.value,
        ));
    }
}

/// The canonical form is unique: two strictly name-sorted lists holding the
/// same fields (as an unordered collection) are the same list.  This is what
/// makes a record's identity independent of the order its fields were given
/// in: canonicalizing any permutation of a duplicate-free field list yields
/// this one list.
pub proof fn lemma_canonical_unique<V>(x: Seq<FieldPair<V>>, y: Seq<FieldPair<V>>)
    requires
        sorted_names(x),
        sorted_names(y),
        x.to_multiset() == y.to_multiset(),
    ensures
        x == y,
    decreases x.len(),
{
    assert(x.to_multiset().len() == x.len());
    assert(y.to_multiset().len() == y.len());
    if x.len() == 0 {
        assert(x =~= y);
    } else {
        assert(x.contains(x[0]));
        assert(x.to_multiset().count(x[0]) > 0);
        assert(y.to_multiset().count(x[0]) > 0);
        assert(y.contains(x[0]));
        let j = choose|j: int| 0 <= j < y.len() && y[j] == x[0];
        assert(y.contains(y[0]));
        assert(x.to_multiset().count(y[0]) > 0);
        assert(x.contains(y[0]));
        let i = choose|i: int| 0 <= i < x.len() && x[i] == y[0];
        if j > 0 {
            assert(lex_lt(y[0].name@, y[j].name@));
            if i > 0 {
                assert(lex_lt(x[0].name@, x[i].name@));
                lemma_lex_lt_transitive(x[0].name@, x[i].name@, y[j].name@);
                lemma_lex_lt_asymmetric(x[0].name@, y[j].name@);
                assert(false);
            } else {
                lemma_lex_lt_asymmetric(y[0].name@, y[j].name@);
                assert(false);
            }
        }
        assert(x[0] == y[0]);
        let xr = x.remove(0);
        let yr = y.remove(0);
        assert(xr.to_multiset() == x.to_multiset().remove(x[0]));
        assert(yr.to_multiset() == y.to_multiset().remove(y[0]));
        assert forall|i2: int, j2: int| 0 <= i2 < j2 < xr.len() implies lex_lt(
            (#[trigger] xr[i2]).name@,
            (#[trigger] xr[j2]).name@,
        ) by {
            lemma_remove_index(x, 0, i2);
            lemma_remove_index(x, 0, j2);
        }
        assert forall|i2: int, j2: int| 0 <= i2 < j2 < yr.len() implies lex_lt(
            (#[trigger] yr[i2]).name@,
            (#[trigger] yr[j2]).name@,
        ) by {
            lemma_remove_index(y, 0, i2);
            lemma_remove_index(y, 0, j2);
        }
        lemma_canonical_unique(xr, yr);
        assert forall|k: int| 0 <= k < x.len() implies x[k] == y[k] by {
            if k > 0 {
                lemma_remove_index(x, 0, k - 1);
                lemma_remove_index(y, 0, k - 1);
                assert(xr[k - 1] == yr[k - 1]);
            }
        }
        assert(x =~= y);
    }
}

/// Bring a field list into canonical order: sort the fields by name and
/// reject a list in which two fields share a name, naming the shared name in
/// the error.
pub fn canonicalize<V>(fields: Vec<FieldPair<V>>) -> (r: Result<Vec<FieldPair<V>>, FieldError>)
    ensures
        match r {
            Ok(out) => {
                &&& out@.to_multiset() == fields@.to_multiset()
                &&& sorted_names(out@)
                &&& distinct_names(fields@)
            },
            Err(e) => match e {
                FieldError::DuplicateField(n) => {
                    &&& !distinct_names(fields@)
                    &&& exists|p: int, q: int|
                        #![trigger fields@[p], fields@[q]]
                        0 <= p < q < fields@.len() && fields@[p].name@ == n@ && fields@[q].name@
                            == n@
                },
                FieldError::MissingField(_) => false,
            },
        },
{
    let ghost orig = fields@;
    let mut rest = fields;
    let mut out: Vec<FieldPair<V>> = Vec::new();
    proof {
        assert(out@.to_multiset() =~= Multiset::<FieldPair<V>>::empty());
        assert(out@.to_multiset().add(rest@.to_multiset()) =~= orig.to_multiset());
    }
    while rest.len() != 0
        invariant
            sorted_leq(out@),
            out@.to_multiset().add(rest@.to_multiset()) == orig.to_multiset(),
        decreases rest@.len(),
    {
        let ghost rest_before = rest@;
        let fp = rest.pop().unwrap();
        proof {
            assert(rest_before =~= rest@.push(fp));
            assert(rest_before.to_multiset() == rest@.to_multiset().insert(fp));
        }
        let mut pos: usize = 0;
        loop
            invariant
                pos <= out@.len(),
                sorted_leq(out@),
                forall|k: int| #![trigger out@[k]] 0 <= k < pos ==> lex_leq(out@[k].name@, fp.name@),
            ensures
                pos <= out@.len(),
                forall|k: int| #![trigger out@[k]] 0 <= k < pos ==> lex_leq(out@[k].name@, fp.name@),
                pos < out@.len() ==> !lex_leq(out@[pos as int].name@, fp.name@),
            decreases out@.len() - pos,
        {
            if pos >= out.len() {
                break;
            }
            if !out[pos].name.lex_le(&fp.name) {
                break;
            }
            pos += 1;
        }
        proof {
            assert forall|k: int| pos <= k < out@.len() implies lex_lt(
                fp.name@,
                (#[trigger] out@[k]).name@,
            ) by {
                lemma_lex_lt_connected(out@[pos as int].name@, fp.name@);
                assert(lex_lt(fp.name@, out@[pos as int].name@));
                if k > pos {
                    assert(lex_leq(out@[pos as int].name@, out@[k].name@));
                    if out@[pos as int].name@ == out@[k].name@ {
                    } else {
                        lemma_lex_lt_transitive(
                            fp.name@,
                            out@[pos as int].name@,
                            out@[k].name@,
                        );
                    }
                }
            }
            lemma_sorted_leq_insert(out@, pos as int, fp);
        }
        let ghost out_before = out@;
        out.insert(pos, fp);
        proof {
            assert(out@.to_multiset() == out_before.to_multiset().insert(fp));
            assert(out@.to_multiset().add(rest@.to_multiset()) =~= orig.to_multiset());
        }
    }
    proof {
        assert(rest@.to_multiset() =~= Multiset::<FieldPair<V>>::empty());
        assert(out@.to_multiset() =~= orig.to_multiset());
    }
    let total: usize = out.len();
    let mut k: usize = 0;
    loop
        invariant
            total == out@.len(),
            k <= total,
            orig == fields@,
            sorted_leq(out@),
            out@.to_multiset() == orig.to_multiset(),
            forall|t: int|
                #![trigger out@[t]]
                0 <= t < k && t + 1 < total ==> out@[t].name@ != out@[t + 1].name@,
        ensures
            forall|t: int|
                #![trigger out@[t]]
                0 <= t && t + 1 < out@.len() ==> out@[t].name@ != out@[t + 1].name@,
        decreases total - k,
    {
        if total - k <= 1 {
            proof {
                assert forall|t: int| 0 <= t && t + 1 < out@.len() implies (
                #[trigger] out@[t]).name@ != out@[t + 1].name@ by {
                    assert(t < k);
                }
            }
            break;
        }
        if out[k].name.name_eq(&out[k + 1].name) {
            proof {
                lemma_name_dup_transfer(out@, orig, k as int, k + 1 as int);
                let (p, q) = choose|p: int, q: int|
                    #![trigger orig[p], orig[q]]
                    0 <= p < q < orig.len() && orig[p].name@ == out@[k as int].name@ && orig[q].name@
                        == out@[k as int].name@;
                assert(orig[p].name@ == orig[q].name@);
                assert(!distinct_names(orig));
            }
            return Err(FieldError::DuplicateField(out[k].name.clone()));
        }
        k += 1;
    }
    proof {
        lemma_adjacent_distinct(out@);
        lemma_sorted_strict(out@);
        if !distinct_names(orig) {
            let (p, q) = choose|p: int, q: int|
                #![trigger orig[p], orig[q]]
                0 <= p < q < orig.len() && orig[p].name@ == orig[q].name@;
            lemma_name_dup_transfer(orig, out@, p, q);
            assert(false);
        }
    }
    Ok(out)
}

} // verus!
