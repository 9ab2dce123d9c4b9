//! The order of sort keys: segment by segment, each segment compared as text,
//! a key that is a proper prefix of another one first.

use vstd::prelude::*;
use vstd::relations::{connected, irreflexive, transitive};
use crate::lex::{
    agree_before, decides_at, lemma_lex_asymmetric, lemma_lex_connected, lemma_lex_decided_at,
    lemma_lex_irreflexive, lemma_lex_transitive, lex_less,
};
use crate::sort_key::{lemma_last_run, runs, sort_key, split_and_pad, SortKey};

verus! {

/// Where one value stands relative to another.
#[derive(Clone, Copy, Debug, PartialEq, Eq, Structural)]
pub enum Rank {
    Before,
    Same,
    After,
}

/// The order of characters: by code point.
pub open spec fn char_less() -> spec_fn(char, char) -> bool {
    |x: char, y: char| x < y
}

/// `a` comes before `b` as text: character by character, a proper prefix
/// first.
pub open spec fn text_less(a: Seq<char>, b: Seq<char>) -> bool {
    lex_less(a, b, char_less())
}

/// The order of segments: as text.
pub open spec fn segment_less() -> spec_fn(Seq<char>, Seq<char>) -> bool {
    |x: Seq<char>, y: Seq<char>| text_less(x, y)
}

/// The key `a` comes strictly before the key `b`.
pub open spec fn key_less(a: Seq<Seq<char>>, b: Seq<Seq<char>>) -> bool {
    lex_less(a, b, segment_less())
}

/// The key `a` comes before the key `b` or is the same key.
pub open spec fn key_le(a: Seq<Seq<char>>, b: Seq<Seq<char>>) -> bool {
    a == b || key_less(a, b)
}

/// Where the key `a` stands relative to the key `b`.
pub open spec fn key_rank(a: Seq<Seq<char>>, b: Seq<Seq<char>>) -> Rank {
    if key_less(a, b) {
        Rank::Before
    } else if a == b {
        Rank::Same
    } else {
        Rank::After
    }
}

/// Where the text `a` stands relative to the text `b`.
pub open spec fn text_rank(a: Seq<char>, b: Seq<char>) -> Rank {
    if text_less(a, b) {
        Rank::Before
    } else if a == b {
        Rank::Same
    } else {
        Rank::After
    }
}

/// The name `a` sorts strictly before the name `b`.
pub open spec fn path_less(a: Seq<char>, b: Seq<char>) -> bool {
    key_less(sort_key(a), sort_key(b))
}

/// The name `a` sorts before the name `b`, or the two have the same key.
pub open spec fn path_le(a: Seq<char>, b: Seq<char>) -> bool {
    key_le(sort_key(a), sort_key(b))
}

/// The order of characters is a strict total order.
pub proof fn lemma_char_order()
    ensures
        irreflexive(char_less()),
        transitive(char_less()),
        connected(char_less()),
{
}

/// The order of segments is a strict total order.
pub proof fn lemma_segment_order()
    ensures
        irreflexive(segment_less()),
        transitive(segment_less()),
        connected(segment_less()),
{
    lemma_char_order();
    assert forall|x: Seq<char>| #[trigger] segment_less()(x, x) == false by {
        lemma_lex_irreflexive(x, char_less());
    }
    assert forall|x: Seq<char>, y: Seq<char>, z: Seq<char>| #[trigger]
        segment_less()(x, y) && #[trigger] segment_less()(y, z) implies segment_less()(x, z) by {
        lemma_lex_transitive(x, y, z, char_less());
    }
    assert forall|x: Seq<char>, y: Seq<char>| x != y implies #[trigger] segment_less()(x, y)
        || #[trigger] segment_less()(y, x) by {
        lemma_lex_connected(x, y, char_less());
    }
}

/// Every key is before-or-equal to itself.
pub proof fn lemma_key_le_reflexive(a: Seq<Seq<char>>)
    ensures
        key_le(a, a),
{
}

/// Two keys that are each before-or-equal to the other are the same key.
pub proof fn lemma_key_le_antisymmetric(a: Seq<Seq<char>>, b: Seq<Seq<char>>)
    requires
        key_le(a, b),
        key_le(b, a),
    ensures
        a == b,
{
    lemma_segment_order();
    lemma_lex_asymmetric(a, b, segment_less());
}

/// Before-or-equal carries over a key in the middle.
pub proof fn lemma_key_le_transitive(a: Seq<Seq<char>>, b: Seq<Seq<char>>, c: Seq<Seq<char>>)
    requires
        key_le(a, b),
        key_le(b, c),
    ensures
        key_le(a, c),
{
    lemma_segment_order();
    if key_less(a, b) && key_less(b, c) {
        lemma_lex_transitive(a, b, c, segment_less());
    }
}

/// Any two keys are comparable.
pub proof fn lemma_key_le_total(a: Seq<Seq<char>>, b: Seq<Seq<char>>)
    ensures
        key_le(a, b) || key_le(b, a),
{
    lemma_segment_order();
    lemma_lex_connected(a, b, segment_less());
}

/// Of two keys exactly one holds: the first is before the second, they are
/// the same, or the second is before the first.
pub proof fn lemma_key_rank(a: Seq<Seq<char>>, b: Seq<Seq<char>>)
    ensures
        key_rank(a, b) == Rank::Before <==> key_less(a, b),
        key_rank(a, b) == Rank::Same <==> a == b,
        key_rank(a, b) == Rank::After <==> key_less(b, a),
{
    lemma_segment_order();
    lemma_lex_irreflexive(a, segment_less());
    lemma_lex_asymmetric(a, b, segment_less());
    lemma_lex_connected(a, b, segment_less());
}

/// The empty key comes before every other key.
pub proof fn lemma_empty_key_first(key: Seq<Seq<char>>)
    requires
        key.len() > 0,
    ensures
        key_less(Seq::empty(), key),
{
    assert(decides_at(Seq::<Seq<char>>::empty(), key, segment_less(), 0));
}

/// The empty name has the empty key and sorts before every other name.
pub proof fn lemma_empty_name_first(name: Seq<char>)
    requires
        name.len() > 0,
    ensures
        sort_key(Seq::<char>::empty()) == Seq::<Seq<char>>::empty(),
        path_less(Seq::empty(), name),
{
    lemma_last_run(name);
    assert(sort_key(Seq::<char>::empty()) =~= Seq::<Seq<char>>::empty());
    assert(sort_key(name).len() == runs(name).len());
    lemma_empty_key_first(sort_key(name));
}

/// Compares two texts character by character.
pub fn compare_text(a: &Vec<char>, b: &Vec<char>) -> (r: Rank)
    ensures
        r == text_rank(a@, b@),
{
    proof {
        lemma_char_order();
    }
    let mut i: usize = 0;
    while i < a.len() && i < b.len()
        invariant
            agree_before(a@, b@, i as int),
            irreflexive(char_less()),
        decreases a.len() - i,
    {
        if a[i] != b[i] {
            proof {
                lemma_lex_decided_at(a@, b@, char_less(), i as int);
            }
            if a[i] < b[i] {
                return Rank::Before;
            } else {
                return Rank::After;
            }
        }
        i = i + 1;
    }
    proof {
        lemma_lex_decided_at(a@, b@, char_less(), i as int);
    }
    if i < b.len() {
        Rank::Before
    } else if i < a.len() {
        Rank::After
    } else {
        assert(a@ =~= b@);
        Rank::Same
    }
}

/// Compares two keys segment by segment.
pub fn compare_keys(a: &SortKey, b: &SortKey) -> (r: Rank)
    ensures
        r == key_rank(a@, b@),
{
    proof {
        lemma_segment_order();
    }
    let mut i: usize = 0;
    while i < a.segments.len() && i < b.segments.len()
        invariant
            agree_before(a@, b@, i as int),
            irreflexive(segment_less()),
        decreases a.segments.len() - i,
    {
        match compare_text(&a.segments[i], &b.segments[i]) {
            Rank::Before => {
                proof {
                    lemma_lex_decided_at(a@, b@, segment_less(), i as int);
                }
                return Rank::Before;
            },
            Rank::After => {
                proof {
                    lemma_lex_decided_at(a@, b@, segment_less(), i as int);
                }
                return Rank::After;
            },
            Rank::Same => {},
        }
        i = i + 1;
    }
    proof {
        lemma_lex_decided_at(a@, b@, segment_less(), i as int);
    }
    if i < b.segments.len() {
        Rank::Before
    } else if i < a.segments.len() {
        Rank::After
    } else {
        assert(a@ =~= b@);
        Rank::Same
    }
}

/// Compares two names by their sort keys.
pub fn compare_paths(a: &str, b: &str) -> (r: Rank)
    ensures
        r == key_rank(sort_key(a@), sort_key(b@)),
{
    let key_a = split_and_pad(a);
    let key_b = split_and_pad(b);
    compare_keys(&key_a, &key_b)
}

} // verus!
