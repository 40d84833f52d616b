//! Sort keys and the order on them.
//!
//! Names compare by their UTF-16 code units, lexicographically and
//! case-sensitively. A key is a kind rank followed by an optional name; a
//! missing name ranks after every present name.
use vstd::prelude::*;

verus! {

/// The UTF-16 code units of one character.
pub open spec fn utf16_of_char(c: char) -> Seq<u16> {
    let v = c as u32 as int;
    if v < 0x10000 {
        seq![v as u16]
    } else {
        seq![(0xD800 + (v - 0x10000) / 0x400) as u16, (0xDC00 + (v - 0x10000) % 0x400) as u16]
    }
}

/// The UTF-16 encoding of a character sequence.
pub open spec fn utf16(s: Seq<char>) -> Seq<u16>
    decreases s.len(),
{
    if s.len() == 0 {
        Seq::empty()
    } else {
        utf16(s.drop_last()) + utf16_of_char(s.last())
    }
}

/// Lexicographic "less than" on code-unit sequences: a proper prefix ranks
/// first, otherwise the first differing unit decides.
pub open spec fn units_lt(a: Seq<u16>, b: Seq<u16>) -> bool
    decreases a.len(),
{
    if a.len() == 0 {
        b.len() > 0
    } else if b.len() == 0 {
        false
    } else if a[0] != b[0] {
        a[0] < b[0]
    } else {
        units_lt(a.drop_first(), b.drop_first())
    }
}

/// The view of a [`SortKey`].
pub struct SpecSortKey {
    pub rank: u8,
    pub name: Option<Seq<u16>>,
}

/// Order on optional names: present names compare by code units, and a
/// missing name ranks after every present name.
pub open spec fn opt_name_lt(a: Option<Seq<u16>>, b: Option<Seq<u16>>) -> bool {
    match (a, b) {
        (Some(x), Some(y)) => units_lt(x, y),
        (Some(_), None) => true,
        _ => false,
    }
}

/// Strict order on keys: by rank, then by optional name.
pub open spec fn key_lt(a: SpecSortKey, b: SpecSortKey) -> bool {
    a.rank < b.rank || (a.rank == b.rank && opt_name_lt(a.name, b.name))
}

/// A sort key: the kind rank and the UTF-16 units of the name, if any.
pub struct SortKey {
    pub rank: u8,
    pub name: Option<Vec<u16>>,
}

impl View for SortKey {
    type V = SpecSortKey;

    open spec fn view(&self) -> SpecSortKey {
        SpecSortKey {
            rank: self.rank,
            name: match self.name {
                Some(v) => Some(v@),
                None => None,
            },
        }
    }
}

pub proof fn lemma_units_lt_irreflexive(a: Seq<u16>)
    ensures
        !units_lt(a, a),
    decreases a.len(),
{
    if a.len() > 0 {
        lemma_units_lt_irreflexive(a.drop_first());
    }
}

pub proof fn lemma_units_lt_transitive(a: Seq<u16>, b: Seq<u16>, c: Seq<u16>)
    requires
        units_lt(a, b),
        units_lt(b, c),
    ensures
        units_lt(a, c),
    decreases a.len(),
{
    if a.len() > 0 && b.len() > 0 && c.len() > 0 {
        if a[0] == b[0] && b[0] == c[0] {
            lemma_units_lt_transitive(a.drop_first(), b.drop_first(), c.drop_first());
        }
    }
}

pub proof fn lemma_units_lt_total(a: Seq<u16>, b: Seq<u16>)
    ensures
        a == b || units_lt(a, b) || units_lt(b, a),
    decreases a.len(),
{
    if a.len() == 0 && b.len() == 0 {
        assert(a =~= b);
    } else if a.len() > 0 && b.len() > 0 && a[0] == b[0] {
        let (ta, tb) = (a.drop_first(), b.drop_first());
        lemma_units_lt_total(ta, tb);
        if ta == tb {
            assert forall|i: int| 0 <= i < a.len() implies a[i] == b[i] by {
                if i > 0 {
                    assert(a[i] == ta[i - 1]);
                    assert(b[i] == tb[i - 1]);
                }
            }
            assert(a =~= b);
        }
    }
}

pub proof fn lemma_units_lt_asymmetric(a: Seq<u16>, b: Seq<u16>)
    ensures
        !(units_lt(a, b) && units_lt(b, a)),
{
    if units_lt(a, b) && units_lt(b, a) {
        lemma_units_lt_transitive(a, b, a);
        lemma_units_lt_irreflexive(a);
    }
}

/// `key_lt` is a strict total order on keys.
pub proof fn lemma_key_order()
    ensures
        forall|a: SpecSortKey| !key_lt(a, a),
        forall|a: SpecSortKey, b: SpecSortKey, c: SpecSortKey|
            key_lt(a, b) && key_lt(b, c) ==> key_lt(a, c),
        forall|a: SpecSortKey, b: SpecSortKey| a == b || key_lt(a, b) || key_lt(b, a),
{
    assert forall|a: SpecSortKey| !key_lt(a, a) by {
        if let Some(x) = a.name {
            lemma_units_lt_irreflexive(x);
        }
    }
    assert forall|a: SpecSortKey, b: SpecSortKey, c: SpecSortKey|
        key_lt(a, b) && key_lt(b, c) implies key_lt(a, c) by {
        if a.rank == b.rank && b.rank == c.rank {
            if a.name is Some && b.name is Some && c.name is Some {
                lemma_units_lt_transitive(a.name->0, b.name->0, c.name->0);
            }
        }
    }
    assert forall|a: SpecSortKey, b: SpecSortKey| a == b || key_lt(a, b) || key_lt(b, a) by {
        if a.rank == b.rank {
            if a.name is Some && b.name is Some {
                lemma_units_lt_total(a.name->0, b.name->0);
            }
        }
    }
}

/// A proper prefix ranks first: `a` ranks before every longer sequence that
/// starts with it, and no such sequence ranks before `a`.
pub proof fn law_units_prefix_first(a: Seq<u16>, b: Seq<u16>)
    requires
        b.len() > 0,
    ensures
        units_lt(a, a + b),
        !units_lt(a + b, a),
    decreases a.len(),
{
    if a.len() == 0 {
        assert(a + b =~= b);
    } else {
        assert((a + b).drop_first() =~= a.drop_first() + b);
        law_units_prefix_first(a.drop_first(), b);
    }
}

/// Otherwise the first differing code unit decides: when `a` and `b` agree
/// before position `i` and `a[i] < b[i]`, `a` ranks before `b`.
pub proof fn law_units_first_difference(a: Seq<u16>, b: Seq<u16>, i: int)
    requires
        0 <= i < a.len(),
        i < b.len(),
        a.take(i) == b.take(i),
        a[i] < b[i],
    ensures
        units_lt(a, b),
        !units_lt(b, a),
    decreases i,
{
    if i > 0 {
        assert(a[0] == a.take(i)[0]);
        assert(b[0] == b.take(i)[0]);
        assert(a.drop_first().take(i - 1) =~= b.drop_first().take(i - 1)) by {
            assert forall|k: int| 0 <= k < i - 1 implies a.drop_first()[k] == b.drop_first()[k] by {
                assert(a.take(i)[k + 1] == b.take(i)[k + 1]);
                assert(a.take(i)[k + 1] == a[k + 1]);
                assert(b.take(i)[k + 1] == b[k + 1]);
            }
        }
        law_units_first_difference(a.drop_first(), b.drop_first(), i - 1);
    }
}

proof fn lemma_utf16_append(a: Seq<char>, b: Seq<char>)
    ensures
        utf16(a + b) == utf16(a) + utf16(b),
        b.len() > 0 ==> utf16(b).len() > 0,
    decreases b.len(),
{
    if b.len() == 0 {
        assert(a + b =~= a);
        assert(utf16(a) + utf16(b) =~= utf16(a));
    } else {
        assert((a + b).drop_last() =~= a + b.drop_last());
        lemma_utf16_append(a, b.drop_last());
        assert(utf16(a + b) =~= utf16(a) + utf16(b));
    }
}

/// A name ranks before every longer name that starts with it.
pub proof fn law_name_prefix_first(a: Seq<char>, b: Seq<char>)
    requires
        b.len() > 0,
    ensures
        units_lt(utf16(a), utf16(a + b)),
        !units_lt(utf16(a + b), utf16(a)),
{
    lemma_utf16_append(a, b);
    law_units_prefix_first(utf16(a), utf16(b));
}

/// The UTF-16 code units of a string.
pub fn encode_utf16(s: &str) -> (r: Vec<u16>)
    ensures
        r@ == utf16(s@),
{
    broadcast use vstd::string::group_string_axioms;
    let mut out: Vec<u16> = Vec::new();
    for c in it: s.chars()
        invariant
            it.seq() == s@,
            out@ == utf16(s@.take(it.index() as int)),
    {
        let ghost k = it.index() as int;
        assert(s@.take(k + 1).drop_last() =~= s@.take(k));
        let v = c as u32;
        if v < 0x10000 {
            out.push(v as u16);
        } else {
            let w = v - 0x10000;
            out.push((0xD800 + w / 0x400) as u16);
            out.push((0xDC00 + w % 0x400) as u16);
        }
        assert(out@ =~= utf16(s@.take(k + 1)));
    }
    assert(s@.take(s@.len() as int) =~= s@);
    out
}

/// Compare two code-unit sequences: true when `a` ranks strictly before `b`.
pub fn units_less(a: &Vec<u16>, b: &Vec<u16>) -> (r: bool)
    ensures
        r == units_lt(a@, b@),
{
    let mut i: usize = 0;
    assert(a@.skip(0) =~= a@);
    assert(b@.skip(0) =~= b@);
    while i < a.len() && i < b.len()
        invariant
            i <= a@.len(),
            i <= b@.len(),
            units_lt(a@, b@) == units_lt(a@.skip(i as int), b@.skip(i as int)),
        decreases a@.len() - i,
    {
        if a[i] != b[i] {
            return a[i] < b[i];
        }
        assert(a@.skip(i as int).drop_first() =~= a@.skip(i + 1));
        assert(b@.skip(i as int).drop_first() =~= b@.skip(i + 1));
        i += 1;
    }
    i < b.len()
}

/// True when key `a` ranks strictly before key `b`.
pub fn key_less(a: &SortKey, b: &SortKey) -> (r: bool)
    ensures
        r == key_lt(a@, b@),
{
    if a.rank != b.rank {
        return a.rank < b.rank;
    }
    match (&a.name, &b.name) {
        (Some(x), Some(y)) => units_less(x, y),
        (Some(_), None) => true,
        _ => false,
    }
}

} // verus!
