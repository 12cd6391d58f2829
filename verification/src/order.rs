//! The lexicographic order of byte strings.

use vstd::prelude::*;

verus! {

/// Whether `a` comes strictly before `b`: they are compared byte by byte, and a
/// proper prefix comes before what extends it.
pub open spec fn lex_less(a: Seq<u8>, b: Seq<u8>) -> bool
    decreases a.len(),
{
    if b.len() == 0 {
        false
    } else if a.len() == 0 {
        true
    } else if a[0] != b[0] {
        a[0] < b[0]
    } else {
        lex_less(a.drop_first(), b.drop_first())
    }
}

/// How two byte strings stand to each other.
#[derive(Clone, Copy, Debug, PartialEq, Eq, Structural)]
pub enum Place {
    Before,
    Same,
    After,
}

/// No byte string comes before itself.
pub proof fn lex_irreflexive(a: Seq<u8>)
    ensures
        !lex_less(a, a),
    decreases a.len(),
{
    if a.len() > 0 {
        lex_irreflexive(a.drop_first());
    }
}

/// Of two different byte strings one comes before the other.
pub proof fn lex_total(a: Seq<u8>, b: Seq<u8>)
    ensures
        lex_less(a, b) || a == b || lex_less(b, a),
    decreases a.len(),
{
    if a.len() > 0 && b.len() > 0 && a[0] == b[0] {
        lex_total(a.drop_first(), b.drop_first());
        if a.drop_first() == b.drop_first() {
            assert(a =~= seq![a[0]] + a.drop_first());
            assert(b =~= seq![b[0]] + b.drop_first());
        }
    } else if a.len() == 0 && b.len() == 0 {
        assert(a =~= b);
    }
}

/// The order is transitive.
pub proof fn lex_transitive(a: Seq<u8>, b: Seq<u8>, c: Seq<u8>)
    requires
        lex_less(a, b),
        lex_less(b, c),
    ensures
        lex_less(a, c),
    decreases a.len(),
{
    if a.len() > 0 && a[0] == b[0] && b[0] == c[0] {
        lex_transitive(a.drop_first(), b.drop_first(), c.drop_first());
    }
}

/// The order is asymmetric.
pub proof fn lex_asymmetric(a: Seq<u8>, b: Seq<u8>)
    requires
        lex_less(a, b),
    ensures
        !lex_less(b, a),
{
    if lex_less(b, a) {
        lex_transitive(a, b, a);
        lex_irreflexive(a);
    }
}

/// Compare two byte strings.
pub fn compare_bytes(a: &[u8], b: &[u8]) -> (place: Place)
    ensures
        place == Place::Before <==> lex_less(a@, b@),
        place == Place::Same <==> a@ == b@,
        place == Place::After <==> lex_less(b@, a@),
{
    let mut i: usize = 0;
    proof {
        assert(a@.skip(0) =~= a@);
        assert(b@.skip(0) =~= b@);
    }
    while i < a.len() && i < b.len() && a[i] == b[i]
        invariant
            i <= a.len(),
            i <= b.len(),
            a@.take(i as int) =~= b@.take(i as int),
            lex_less(a@, b@) == lex_less(a@.skip(i as int), b@.skip(i as int)),
            lex_less(b@, a@) == lex_less(b@.skip(i as int), a@.skip(i as int)),
        decreases a.len() - i,
    {
        proof {
            assert(a@.skip(i as int).drop_first() =~= a@.skip(i + 1));
            assert(b@.skip(i as int).drop_first() =~= b@.skip(i + 1));
            assert(a@.take(i + 1) =~= a@.take(i as int).push(a@[i as int]));
            assert(b@.take(i + 1) =~= b@.take(i as int).push(b@[i as int]));
        }
        i += 1;
    }
    if i < a.len() {
        if i < b.len() {
            proof {
                assert(a@[i as int] != b@[i as int]);
            }
            if a[i] < b[i] {
                Place::Before
            } else {
                Place::After
            }
        } else {
            Place::After
        }
    } else if i < b.len() {
        Place::Before
    } else {
        proof {
            assert(a@.take(i as int) =~= a@);
            assert(b@.take(i as int) =~= b@);
        }
        Place::Same
    }
}

} // verus!
