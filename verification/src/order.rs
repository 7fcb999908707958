//! A total lexicographic order on character sequences, by code point; it
//! makes the bang listing deterministic.

use vstd::prelude::*;
use vstd::string::*;

verus! {

/// The outcome of a three-way comparison.
pub enum Rel {
    Less,
    Equal,
    Greater,
}

/// Lexicographic three-way comparison of character sequences, by code point;
/// a proper prefix comes first.
pub open spec fn lex_cmp(a: Seq<char>, b: Seq<char>) -> Rel
    decreases a.len(),
{
    if a.len() == 0 && b.len() == 0 {
        Rel::Equal
    } else if a.len() == 0 {
        Rel::Less
    } else if b.len() == 0 {
        Rel::Greater
    } else if (a[0] as u32) < (b[0] as u32) {
        Rel::Less
    } else if (b[0] as u32) < (a[0] as u32) {
        Rel::Greater
    } else {
        lex_cmp(a.drop_first(), b.drop_first())
    }
}

/// `a` comes no later than `b`.
pub open spec fn lex_le(a: Seq<char>, b: Seq<char>) -> bool {
    lex_cmp(a, b) != Rel::Greater
}

/// The comparison with its sides exchanged.
pub open spec fn rel_flip(r: Rel) -> Rel {
    match r {
        Rel::Less => Rel::Greater,
        Rel::Equal => Rel::Equal,
        Rel::Greater => Rel::Less,
    }
}

/// Exchanging the sides of a comparison flips its outcome.
pub proof fn lemma_lex_cmp_flip(a: Seq<char>, b: Seq<char>)
    ensures
        lex_cmp(b, a) == rel_flip(lex_cmp(a, b)),
    decreases a.len() + b.len(),
{
    if a.len() > 0 && b.len() > 0 && a[0] as u32 == b[0] as u32 {
        lemma_lex_cmp_flip(a.drop_first(), b.drop_first());
    }
}

/// Two sequences compare as equal exactly when they are equal.
pub proof fn lemma_lex_cmp_eq(a: Seq<char>, b: Seq<char>)
    ensures
        (lex_cmp(a, b) == Rel::Equal) <==> (a == b),
    decreases a.len(),
{
    if a.len() == 0 && b.len() == 0 {
        assert(a =~= b);
    } else if a.len() > 0 && b.len() > 0 {
        lemma_lex_cmp_eq(a.drop_first(), b.drop_first());
        if lex_cmp(a, b) == Rel::Equal {
            assert(a[0] == b[0]) by {
                vstd::utf8::char_u32_cast(a[0], a[0] as u32);
                vstd::utf8::char_u32_cast(b[0], b[0] as u32);
            }
            assert(a.drop_first() == b.drop_first());
            assert(a =~= b) by {
                assert forall|k: int| 0 <= k < a.len() implies a[k] == b[k] by {
                    if k > 0 {
                        assert(a[k] == a.drop_first()[k - 1]);
                        assert(b[k] == b.drop_first()[k - 1]);
                    }
                }
            }
        }
        if a == b {
            assert(a.drop_first() =~= b.drop_first());
        }
    }
}

/// The order is reflexive.
pub proof fn lemma_lex_le_refl(a: Seq<char>)
    ensures
        lex_le(a, a),
{
    lemma_lex_cmp_eq(a, a);
}

/// The order is total: one side always comes no later than the other.
pub proof fn lemma_lex_le_total(a: Seq<char>, b: Seq<char>)
    ensures
        lex_le(a, b) || lex_le(b, a),
{
    lemma_lex_cmp_flip(a, b);
}

/// The order is antisymmetric: sequences below each other are equal.
pub proof fn lemma_lex_le_antisymmetric(a: Seq<char>, b: Seq<char>)
    requires
        lex_le(a, b),
        lex_le(b, a),
    ensures
        a == b,
{
    lemma_lex_cmp_flip(a, b);
    lemma_lex_cmp_eq(a, b);
}

/// The order is transitive.
pub proof fn lemma_lex_le_trans(a: Seq<char>, b: Seq<char>, c: Seq<char>)
    requires
        lex_le(a, b),
        lex_le(b, c),
    ensures
        lex_le(a, c),
    decreases a.len(),
{
    if a.len() == 0 {
    } else if b.len() == 0 {
        assert(lex_cmp(a, b) == Rel::Greater);
    } else if c.len() == 0 {
        assert(lex_cmp(b, c) == Rel::Greater);
    } else {
        let x = a[0] as u32;
        let y = b[0] as u32;
        let z = c[0] as u32;
        assert(x <= y) by {
            if x > y {
                assert(lex_cmp(a, b) == Rel::Greater);
            }
        }
        assert(y <= z) by {
            if y > z {
                assert(lex_cmp(b, c) == Rel::Greater);
            }
        }
        if x < z {
            assert(lex_cmp(a, c) == Rel::Less);
        } else {
            assert(x == y && y == z);
            lemma_lex_le_trans(a.drop_first(), b.drop_first(), c.drop_first());
        }
    }
}

/// Decides `lex_le` on concrete strings, character by character.
pub fn str_le(a: &str, b: &str) -> (r: bool)
    ensures
        r == lex_le(a@, b@),
{
    let na = a.unicode_len();
    let nb = b.unicode_len();
    let mut i: usize = 0;
    proof {
        assert(a@.skip(0) =~= a@);
        assert(b@.skip(0) =~= b@);
    }
    while i < na && i < nb
        invariant
            0 <= i <= na,
            0 <= i <= nb,
            na == a@.len(),
            nb == b@.len(),
            lex_cmp(a@, b@) == lex_cmp(a@.skip(i as int), b@.skip(i as int)),
        decreases na - i,
    {
        let ca = a.get_char(i);
        let cb = b.get_char(i);
        proof {
            assert(a@.skip(i as int)[0] == a@[i as int]);
            assert(b@.skip(i as int)[0] == b@[i as int]);
        }
        if (ca as u32) < (cb as u32) {
            proof {
                assert(lex_cmp(a@.skip(i as int), b@.skip(i as int)) == Rel::Less);
            }
            return true;
        }
        if (cb as u32) < (ca as u32) {
            proof {
                assert(lex_cmp(a@.skip(i as int), b@.skip(i as int)) == Rel::Greater);
            }
            return false;
        }
        proof {
            assert(a@.skip(i as int).drop_first() =~= a@.skip(i + 1));
            assert(b@.skip(i as int).drop_first() =~= b@.skip(i + 1));
        }
        i += 1;
    }
    proof {
        if na <= nb {
            assert(a@.skip(i as int) =~= Seq::<char>::empty());
        }
        if nb <= na {
            assert(b@.skip(i as int) =~= Seq::<char>::empty());
        }
    }
    na <= nb
}

} // verus!
