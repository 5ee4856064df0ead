//! Lexicographic order on byte strings, the order in which fixed-size
//! addresses and the keys built from them are sorted.

use vstd::prelude::*;

verus! {

/// The result of comparing two keys.
#[derive(Clone, Copy, Debug, PartialEq, Eq, Structural)]
pub enum KeyOrder {
    Less,
    Equal,
    Greater,
}

/// `a` comes strictly before `b` in lexicographic order (a proper prefix
/// comes first).
pub open spec fn lex_lt(a: Seq<u8>, b: Seq<u8>) -> bool
    decreases a.len(),
{
    if a.len() == 0 {
        b.len() > 0
    } else if b.len() == 0 {
        false
    } else if a[0] < b[0] {
        true
    } else if a[0] > b[0] {
        false
    } else {
        lex_lt(a.drop_first(), b.drop_first())
    }
}

/// No key comes before itself.
pub proof fn lemma_lex_irreflexive(a: Seq<u8>)
    ensures
        !lex_lt(a, a),
    decreases a.len(),
{
    if a.len() > 0 {
        lemma_lex_irreflexive(a.drop_first());
    }
}

/// The order is asymmetric.
pub proof fn lemma_lex_asymmetric(a: Seq<u8>, b: Seq<u8>)
    ensures
        lex_lt(a, b) ==> !lex_lt(b, a),
    decreases a.len(),
{
    if a.len() > 0 && b.len() > 0 && a[0] == b[0] {
        lemma_lex_asymmetric(a.drop_first(), b.drop_first());
    }
}

/// The order is transitive.
pub proof fn lemma_lex_transitive(a: Seq<u8>, b: Seq<u8>, c: Seq<u8>)
    requires
        lex_lt(a, b),
        lex_lt(b, c),
    ensures
        lex_lt(a, c),
    decreases a.len(),
{
    if a.len() > 0 && b.len() > 0 && c.len() > 0 && a[0] == b[0] && b[0] == c[0] {
        lemma_lex_transitive(a.drop_first(), b.drop_first(), c.drop_first());
    }
}

/// Of two keys of one length, one comes first exactly when, at the first
/// position where they differ, its byte is the smaller.
pub proof fn lemma_lex_first_difference(a: Seq<u8>, b: Seq<u8>)
    requires
        a.len() == b.len(),
    ensures
        lex_lt(a, b) <==> exists|i: int|
            0 <= i < a.len() && a.take(i) == b.take(i) && #[trigger] a[i] < #[trigger] b[i],
    decreases a.len(),
{
    if exists|i: int| 0 <= i < a.len() && a.take(i) == b.take(i) && #[trigger] a[i] < #[trigger] b[i] {
        let i = choose|i: int| 0 <= i < a.len() && a.take(i) == b.take(i) && #[trigger] a[i] < #[trigger] b[i];
        lemma_lex_skip_common_prefix(a, b, i);
        assert(a.skip(i)[0] == a[i]);
        assert(b.skip(i)[0] == b[i]);
    }
    if lex_lt(a, b) && a.len() > 0 {
        if a[0] < b[0] {
            assert(a.take(0) =~= b.take(0));
            assert(a[0] < b[0]);
        } else {
            lemma_lex_first_difference(a.drop_first(), b.drop_first());
            let i = choose|i: int|
                0 <= i < a.drop_first().len() && a.drop_first().take(i) == b.drop_first().take(i)
                    && #[trigger] a.drop_first()[i] < #[trigger] b.drop_first()[i];
            assert(a.take(i + 1) =~= b.take(i + 1)) by {
                assert forall|j: int| 0 <= j < i + 1 implies #[trigger] a.take(i + 1)[j] == b.take(i + 1)[j] by {
                    if j > 0 {
                        assert(a.drop_first().take(i)[j - 1] == b.drop_first().take(i)[j - 1]);
                    }
                }
            }
            assert(a[i + 1] == a.drop_first()[i]);
            assert(b[i + 1] == b.drop_first()[i]);
        }
    }
}

/// Two keys made of a head and a tail, with heads of one length, compare
/// by their heads, and by their tails where the heads are equal.
pub proof fn lemma_lex_concat(a1: Seq<u8>, t1: Seq<u8>, a2: Seq<u8>, t2: Seq<u8>)
    requires
        a1.len() == a2.len(),
    ensures
        lex_lt(a1 + t1, a2 + t2) == if a1 == a2 {
            lex_lt(t1, t2)
        } else {
            lex_lt(a1, a2)
        },
    decreases a1.len(),
{
    if a1.len() == 0 {
        assert(a1 =~= a2);
        assert(a1 + t1 =~= t1);
        assert(a2 + t2 =~= t2);
    } else {
        let k1 = a1 + t1;
        let k2 = a2 + t2;
        assert(k1[0] == a1[0]);
        assert(k2[0] == a2[0]);
        if a1[0] == a2[0] {
            assert(k1.drop_first() =~= a1.drop_first() + t1);
            assert(k2.drop_first() =~= a2.drop_first() + t2);
            lemma_lex_concat(a1.drop_first(), t1, a2.drop_first(), t2);
            if a1.drop_first() == a2.drop_first() {
                assert(a1 =~= seq![a1[0]] + a1.drop_first());
                assert(a2 =~= seq![a2[0]] + a2.drop_first());
            }
            if a1 == a2 {
                assert(a1.drop_first() =~= a2.drop_first());
            }
        } else {
            if a1 == a2 {
                assert(a1[0] == a2[0]);
            }
        }
    }
}

/// A common prefix does not change how two keys compare.
pub proof fn lemma_lex_skip_common_prefix(a: Seq<u8>, b: Seq<u8>, i: int)
    requires
        0 <= i <= a.len(),
        i <= b.len(),
        a.take(i) == b.take(i),
    ensures
        lex_lt(a, b) == lex_lt(a.skip(i), b.skip(i)),
    decreases i,
{
    if i == 0 {
        assert(a.skip(0) =~= a);
        assert(b.skip(0) =~= b);
    } else {
        assert(a[0] == a.take(i)[0]);
        assert(b[0] == b.take(i)[0]);
        assert(a.drop_first().take(i - 1) =~= b.drop_first().take(i - 1)) by {
            assert forall|j: int| 0 <= j < i - 1 implies #[trigger] a.drop_first().take(i - 1)[j]
                == b.drop_first().take(i - 1)[j] by {
                assert(a.take(i)[j + 1] == b.take(i)[j + 1]);
                assert(a.take(i)[j + 1] == a[j + 1]);
                assert(b.take(i)[j + 1] == b[j + 1]);
                assert(a.drop_first().take(i - 1)[j] == a[j + 1]);
                assert(b.drop_first().take(i - 1)[j] == b[j + 1]);
            }
        }
        lemma_lex_skip_common_prefix(a.drop_first(), b.drop_first(), i - 1);
        assert(a.drop_first().skip(i - 1) =~= a.skip(i));
        assert(b.drop_first().skip(i - 1) =~= b.skip(i));
    }
}

/// Compares two keys of one length.
pub fn compare_bytes(a: &Vec<u8>, b: &Vec<u8>) -> (r: KeyOrder)
    requires
        a@.len() == b@.len(),
    ensures
        (r == KeyOrder::Less) <==> lex_lt(a@, b@),
        (r == KeyOrder::Equal) <==> a@ == b@,
        (r == KeyOrder::Greater) <==> lex_lt(b@, a@),
{
    let n = a.len();
    let mut i: usize = 0;
    while i < n
        invariant
            n == a@.len(),
            n == b@.len(),
            0 <= i <= n,
            a@.take(i as int) == b@.take(i as int),
        decreases n - i,
    {
        if a[i] != b[i] {
            proof {
                lemma_lex_skip_common_prefix(a@, b@, i as int);
                lemma_lex_skip_common_prefix(b@, a@, i as int);
                assert(a@.skip(i as int)[0] == a@[i as int]);
                assert(b@.skip(i as int)[0] == b@[i as int]);
                if a@ == b@ {
                    assert(a@[i as int] == b@[i as int]);
                }
            }
            if a[i] < b[i] {
                return KeyOrder::Less;
            } else {
                return KeyOrder::Greater;
            }
        }
        proof {
            assert(a@.take(i + 1) =~= a@.take(i as int).push(a@[i as int]));
            assert(b@.take(i + 1) =~= b@.take(i as int).push(b@[i as int]));
        }
        i = i + 1;
    }
    proof {
        assert(a@ =~= a@.take(n as int));
        assert(b@ =~= b@.take(n as int));
        lemma_lex_irreflexive(a@);
    }
    KeyOrder::Equal
}

} // verus!
