//! Encoded field names.
//!
//! A field name is carried as an [`EncodedName`]: an ordered sequence of
//! single-character [`Character`] markers, one per character of the original
//! text.  Two names stand for the same field exactly when their marker
//! sequences are equal, which happens exactly when their texts are equal
//! ([`lemma_marker_text_injective`]).  The original text can always be
//! recovered ([`TypedString::value`]), and two names can be joined into the
//! name for the concatenated text ([`EncodedName::concat`]).

use vstd::prelude::*;
use vstd::string::StrSliceExecFns;
use vstd::string::StringExecFns;
use crate::lex::{lex_leq, lex_lt, lemma_char_cast_injective};

verus! {

/// Marker for a single character of a field name.  Its identity is the
/// character it carries, and nothing else.
#[derive(Clone, Copy, PartialEq, Eq, Debug)]
pub struct Character {
    /// The character this marker stands for.
    pub ch: char,
}

impl View for Character {
    type V = char;

    open spec fn view(&self) -> char {
        self.ch
    }
}

/// The text spelled out by a sequence of character markers.
pub open spec fn marker_text(s: Seq<Character>) -> Seq<char> {
    s.map_values(|c: Character| c.ch)
}

/// A marker sequence determines its text and the text determines the marker
/// sequence: names collide exactly when their texts are equal.
pub proof fn lemma_marker_text_injective(a: Seq<Character>, b: Seq<Character>)
    ensures
        marker_text(a) == marker_text(b) <==> a == b,
{
    if marker_text(a) == marker_text(b) {
        assert(marker_text(a).len() == a.len());
        assert(marker_text(b).len() == b.len());
        assert forall|i: int| 0 <= i < a.len() implies a[i] == b[i] by {
            assert(marker_text(a)[i] == a[i].ch);
            assert(marker_text(b)[i] == b[i].ch);
        }
        assert(a =~= b);
    }
}

/// A field name: the ordered sequence of its character markers, together with
/// the text it was built from.  Its view is the character sequence of the
/// text.
#[derive(Debug, PartialEq, Eq)]
pub struct EncodedName {
    markers: Vec<Character>,
    text: String,
}

impl View for EncodedName {
    type V = Seq<char>;

    closed spec fn view(&self) -> Seq<char> {
        marker_text(self.markers@)
    }
}

/// Recovering the original text from an encoded name.
pub trait TypedString {
    /// The text this value encodes.
    spec fn text(&self) -> Seq<char>;

    /// Produce the encoded text as an owned string.
    fn value(&self) -> (r: String)
        ensures
            r@ == self.text(),
    ;
}

impl TypedString for EncodedName {
    open spec fn text(&self) -> Seq<char> {
        self@
    }

    fn value(&self) -> (r: String) {
        proof {
            use_type_invariant(self);
        }
        self.text.clone()
    }
}

/// Encode a text as a field name, one marker per character.
pub fn encode(s: &str) -> (r: EncodedName)
    ensures
        r@ == s@,
{
    let n: usize = s.unicode_len();
    let mut markers: Vec<Character> = Vec::new();
    let mut i: usize = 0;
    while i < n
        invariant
            n == s@.len(),
            i <= n,
            marker_text(markers@) == s@.subrange(0, i as int),
        decreases n - i,
    {
        let c = s.get_char(i);
        let ghost prev = markers@;
        markers.push(Character { ch: c });
        proof {
            assert(markers@ == prev.push(Character { ch: c }));
            assert(marker_text(prev).len() == prev.len());
            assert(prev.len() == i);
            assert forall|j: int| 0 <= j < markers@.len() implies marker_text(markers@)[j]
                == s@.subrange(0, i + 1 as int)[j] by {
                if j < i {
                    assert(markers@[j] == prev[j]);
                    assert(marker_text(prev)[j] == s@.subrange(0, i as int)[j]);
                } else {
                    assert(markers@[j].ch == c);
                }
            }
            assert(marker_text(markers@) =~= s@.subrange(0, i + 1 as int));
        }
        i += 1;
    }
    proof {
        assert(s@.subrange(0, n as int) =~= s@);
    }
    EncodedName { markers, text: s.to_owned() }
}

/// Copy a marker sequence element by element.
fn copy_markers(v: &Vec<Character>) -> (r: Vec<Character>)
    ensures
        r@ == v@,
{
    let mut r: Vec<Character> = Vec::new();
    let mut i: usize = 0;
    while i < v.len()
        invariant
            i <= v@.len(),
            r@ == v@.subrange(0, i as int),
        decreases v@.len() - i,
    {
        r.push(v[i]);
        proof {
            assert(r@ =~= v@.subrange(0, i + 1 as int));
        }
        i += 1;
    }
    proof {
        assert(v@.subrange(0, v@.len() as int) =~= v@);
    }
    r
}

impl EncodedName {
    #[verifier::type_invariant]
    spec fn well_formed(self) -> bool {
        self.text@ == marker_text(self.markers@)
    }

    /// The character markers the name is built from.
    pub fn markers(&self) -> (r: &Vec<Character>)
        ensures
            marker_text(r@) == self@,
    {
        &self.markers
    }

    /// Join two names into the name for the concatenated text.
    pub fn concat(&self, other: &EncodedName) -> (r: EncodedName)
        ensures
            r@ == self@ + other@,
    {
        proof {
            use_type_invariant(self);
            use_type_invariant(other);
        }
        let mut markers = copy_markers(&self.markers);
        let tail = copy_markers(&other.markers);
        let mut i: usize = 0;
        while i < tail.len()
            invariant
                i <= tail@.len(),
                markers@ == self.markers@ + tail@.subrange(0, i as int),
            decreases tail@.len() - i,
        {
            markers.push(tail[i]);
            proof {
                assert(markers@ =~= self.markers@ + tail@.subrange(0, i + 1 as int));
            }
            i += 1;
        }
        proof {
            assert(markers@ =~= self.markers@ + other.markers@);
            assert(marker_text(markers@) =~= marker_text(self.markers@) + marker_text(
                other.markers@,
            ));
        }
        let text = self.text.clone().concat(other.text.as_str());
        EncodedName { markers, text }
    }

    /// Whether two names spell the same text, hence stand for the same field.
    pub fn name_eq(&self, other: &EncodedName) -> (r: bool)
        ensures
            r == (self@ == other@),
    {
        proof {
            use_type_invariant(self);
            use_type_invariant(other);
        }
        self.text == other.text
    }

    /// Whether this name comes no later than `other` in the canonical
    /// lexicographic order.
    pub fn lex_le(&self, other: &EncodedName) -> (r: bool)
        ensures
            r == lex_leq(self@, other@),
    {
        proof {
            use_type_invariant(self);
            use_type_invariant(other);
        }
        let ghost a = self@;
        let ghost b = other@;
        proof {
            assert(a.skip(0) =~= a);
            assert(b.skip(0) =~= b);
        }
        let mut i: usize = 0;
        while i < self.markers.len() && i < other.markers.len()
            invariant
                a == self@,
                b == other@,
                i <= a.len(),
                i <= b.len(),
                a.len() == self.markers@.len(),
                b.len() == other.markers@.len(),
                lex_leq(a, b) == lex_leq(a.skip(i as int), b.skip(i as int)),
            decreases a.len() - i,
        {
            let x = self.markers[i].ch;
            let y = other.markers[i].ch;
            proof {
                assert(a.skip(i as int)[0] == a[i as int]);
                assert(b.skip(i as int)[0] == b[i as int]);
                assert(a[i as int] == x);
                assert(b[i as int] == y);
            }
            if (x as u32) < (y as u32) {
                proof {
                    assert(lex_lt(a.skip(i as int), b.skip(i as int)));
                }
                return true;
            }
            if (y as u32) < (x as u32) {
                proof {
                    if x == y {
                        assert(false);
                    }
                    assert(!lex_lt(a.skip(i as int), b.skip(i as int)));
                    if a.skip(i as int) == b.skip(i as int) {
                        assert(a.skip(i as int)[0] == b.skip(i as int)[0]);
                        assert(false);
                    }
                }
                return false;
            }
            proof {
                lemma_char_cast_injective(x, y);
                assert(a.skip(i as int).drop_first() =~= a.skip(i + 1 as int));
                assert(b.skip(i as int).drop_first() =~= b.skip(i + 1 as int));
                if a.skip(i as int) == b.skip(i as int) {
                    assert(a.skip(i + 1 as int) == b.skip(i + 1 as int));
                }
                if a.skip(i + 1 as int) == b.skip(i + 1 as int) {
                    assert forall|j: int| 0 <= j < a.skip(i as int).len() implies a.skip(
                        i as int,
                    )[j] == b.skip(i as int)[j] by {
                        if j > 0 {
                            assert(a.skip(i as int)[j] == a.skip(i as int).drop_first()[j - 1]);
                            assert(b.skip(i as int)[j] == b.skip(i as int).drop_first()[j - 1]);
                        }
                    }
                    assert(a.skip(i as int) =~= b.skip(i as int));
                }
            }
            i += 1;
        }
        if i < other.markers.len() {
            proof {
                assert(a.skip(i as int).len() == 0);
                assert(lex_lt(a.skip(i as int), b.skip(i as int)));
            }
            true
        } else if i < self.markers.len() {
            proof {
                assert(b.skip(i as int).len() == 0);
                assert(a.skip(i as int).len() > 0);
                assert(!lex_lt(a.skip(i as int), b.skip(i as int)));
                assert(a.skip(i as int) != b.skip(i as int));
            }
            false
        } else {
            proof {
                assert(a.skip(i as int) =~= b.skip(i as int));
            }
            true
        }
    }
}

impl Clone for EncodedName {
    /// A cloned name encodes the same text.
    fn clone(&self) -> (r: Self)
        ensures
            r@ == self@,
    {
        proof {
            use_type_invariant(self);
        }
        EncodedName { markers: copy_markers(&self.markers), text: self.text.clone() }
    }
}

} // verus!
