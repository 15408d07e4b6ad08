//! The order in which sysctl names (and all map keys) are kept and listed.
use vstd::prelude::*;

verus! {

broadcast use vstd::string::group_string_axioms;

/// Lexicographic order on names, compared character by character by Unicode scalar value.
///
/// Comparing scalar values one by one orders strings exactly as comparing their UTF-8
/// encodings byte by byte does, which is the order of `String`'s own comparison.
pub open spec fn name_lt(a: Seq<char>, b: Seq<char>) -> bool
    decreases a.len(),
{
    if a.len() == 0 {
        b.len() > 0
    } else if b.len() == 0 {
        false
    } else if a[0] != b[0] {
        (a[0] as int) < (b[0] as int)
    } else {
        name_lt(a.drop_first(), b.drop_first())
    }
}

/// The outcome of comparing two names.
#[derive(Debug, Clone, Copy, PartialEq, Eq, Structural)]
pub enum NameOrder {
    Less,
    Equal,
    Greater,
}

proof fn lemma_equal_heads_and_tails(a: Seq<char>, b: Seq<char>)
    requires
        a.len() > 0,
        b.len() > 0,
        a[0] == b[0],
        a.drop_first() == b.drop_first(),
    ensures
        a == b,
{
    assert(a.len() == a.drop_first().len() + 1);
    assert(b.len() == b.drop_first().len() + 1);
    assert forall|i: int| 0 <= i < a.len() implies a[i] == b[i] by {
        if i > 0 {
            assert(a[i] == a.drop_first()[i - 1]);
            assert(b[i] == b.drop_first()[i - 1]);
        }
    }
    assert(a =~= b);
}

/// No name is below itself.
pub proof fn lemma_name_lt_irreflexive(a: Seq<char>)
    ensures
        !name_lt(a, a),
    decreases a.len(),
{
    if a.len() > 0 {
        lemma_name_lt_irreflexive(a.drop_first());
    }
}

/// Of two names, at most one is below the other.
pub proof fn lemma_name_lt_asymmetric(a: Seq<char>, b: Seq<char>)
    ensures
        !(name_lt(a, b) && name_lt(b, a)),
    decreases a.len(),
{
    if a.len() > 0 && b.len() > 0 && a[0] == b[0] {
        lemma_name_lt_asymmetric(a.drop_first(), b.drop_first());
    }
}

/// The order on names is transitive.
pub proof fn lemma_name_lt_transitive(a: Seq<char>, b: Seq<char>, c: Seq<char>)
    requires
        name_lt(a, b),
        name_lt(b, c),
    ensures
        name_lt(a, c),
    decreases a.len(),
{
    if a.len() > 0 && b.len() > 0 && c.len() > 0 && a[0] == b[0] && b[0] == c[0] {
        lemma_name_lt_transitive(a.drop_first(), b.drop_first(), c.drop_first());
    }
}

/// Two different names are always ordered one way or the other.
pub proof fn lemma_name_lt_total(a: Seq<char>, b: Seq<char>)
    requires
        a != b,
    ensures
        name_lt(a, b) || name_lt(b, a),
    decreases a.len(),
{
    if a.len() == 0 {
        assert(b.len() > 0) by {
            if b.len() == 0 {
                assert(a =~= b);
            }
        }
    } else if b.len() > 0 && a[0] == b[0] {
        if a.drop_first() == b.drop_first() {
            lemma_equal_heads_and_tails(a, b);
        } else {
            lemma_name_lt_total(a.drop_first(), b.drop_first());
        }
    }
}

/// The characters of a string slice, in order.
pub fn chars_of(s: &str) -> (v: Vec<char>)
    ensures
        v@ == s@,
{
    let mut v: Vec<char> = Vec::new();
    for c in it: s.chars()
        invariant
            it.seq() == s@,
            v.len() == it.index(),
            forall|j: int| 0 <= j < v.len() ==> v@[j] == s@[j],
    {
        v.push(c);
    }
    assert(v@ =~= s@);
    v
}

/// Compares two names in the order `name_lt`.
pub fn compare_names(a: &str, b: &str) -> (r: NameOrder)
    ensures
        (r == NameOrder::Less) <==> name_lt(a@, b@),
        (r == NameOrder::Equal) <==> a@ == b@,
        (r == NameOrder::Greater) <==> name_lt(b@, a@),
{
    let ca = chars_of(a);
    let cb = chars_of(b);
    proof {
        lemma_name_lt_irreflexive(a@);
        lemma_name_lt_asymmetric(a@, b@);
        assert(a@.skip(0) =~= a@);
        assert(b@.skip(0) =~= b@);
    }
    let mut i: usize = 0;
    while i < ca.len() && i < cb.len()
        invariant
            i <= ca.len(),
            i <= cb.len(),
            ca@ == a@,
            cb@ == b@,
            forall|j: int| 0 <= j < i ==> ca@[j] == cb@[j],
            name_lt(a@, b@) == name_lt(a@.skip(i as int), b@.skip(i as int)),
            name_lt(b@, a@) == name_lt(b@.skip(i as int), a@.skip(i as int)),
        decreases ca.len() - i,
    {
        let x = ca[i];
        let y = cb[i];
        assert(a@.skip(i as int)[0] == x);
        assert(b@.skip(i as int)[0] == y);
        if x != y {
            proof {
                assert(a@ != b@ ) by {
                    assert(a@[i as int] != b@[i as int]);
                }
            }
            if x < y {
                return NameOrder::Less;
            } else {
                return NameOrder::Greater;
            }
        }
        assert(a@.skip(i as int).drop_first() =~= a@.skip(i as int + 1));
        assert(b@.skip(i as int).drop_first() =~= b@.skip(i as int + 1));
        i = i + 1;
    }
    if ca.len() == cb.len() {
        assert(a@ =~= b@);
        NameOrder::Equal
    } else if i == ca.len() {
        assert(a@.skip(i as int).len() == 0);
        assert(a@ != b@);
        NameOrder::Less
    } else {
        assert(b@.skip(i as int).len() == 0);
        assert(a@ != b@);
        NameOrder::Greater
    }
}

} // verus!
