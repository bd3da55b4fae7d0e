//! Lexicographic ordering of item keys, by Unicode code point.

use core::cmp::Ordering;
use vstd::prelude::*;
use vstd::string::StrSliceExecFns;

verus! {

/// Strict lexicographic order on character sequences: a proper prefix comes
/// first, otherwise the first differing code point decides.
pub open spec fn chars_lt(a: Seq<char>, b: Seq<char>) -> bool
    decreases a.len(),
{
    if b.len() == 0 {
        false
    } else if a.len() == 0 {
        true
    } else if a[0] == b[0] {
        chars_lt(a.drop_first(), b.drop_first())
    } else {
        (a[0] as int) < (b[0] as int)
    }
}

/// Of two character sequences, exactly one of "less", "equal", "greater"
/// holds.
pub proof fn lemma_chars_trichotomy(a: Seq<char>, b: Seq<char>)
    ensures
        chars_lt(a, b) ==> !chars_lt(b, a) && a != b,
        chars_lt(b, a) ==> !chars_lt(a, b) && a != b,
        !chars_lt(a, b) && !chars_lt(b, a) ==> a == b,
    decreases a.len(),
{
    if a.len() == 0 && b.len() == 0 {
        assert(a =~= b);
    } else if a.len() == 0 || b.len() == 0 {
        assert(a != b) by {
            if a == b {
                assert(a.len() == b.len());
            }
        }
    } else if a[0] == b[0] {
        lemma_chars_trichotomy(a.drop_first(), b.drop_first());
        if !chars_lt(a, b) && !chars_lt(b, a) {
            assert(a.drop_first() == b.drop_first());
            assert(a.len() == b.len());
            assert forall|k: int| 0 <= k < a.len() implies a[k] == b[k] by {
                if k > 0 {
                    assert(a.drop_first()[k - 1] == a[k]);
                    assert(b.drop_first()[k - 1] == b[k]);
                }
            }
            assert(a =~= b);
        } else {
            assert(a != b) by {
                if a == b {
                    assert(a.drop_first() == b.drop_first());
                }
            }
        }
    } else {
        assert(a != b) by {
            if a == b {
                assert(a[0] == b[0]);
            }
        }
    }
}

/// Lexicographic order is transitive.
pub proof fn lemma_chars_lt_trans(a: Seq<char>, b: Seq<char>, c: Seq<char>)
    requires
        chars_lt(a, b),
        chars_lt(b, c),
    ensures
        chars_lt(a, c),
    decreases a.len(),
{
    if a.len() == 0 {
    } else {
        if a[0] == b[0] {
            if b[0] == c[0] {
                lemma_chars_lt_trans(a.drop_first(), b.drop_first(), c.drop_first());
            }
        } else {
            if b[0] == c[0] {
            } else {
            }
        }
    }
}

/// Sequences that agree on their first `i` characters compare the same way
/// as their tails past `i`.
pub proof fn lemma_chars_lt_skip(a: Seq<char>, b: Seq<char>, i: int)
    requires
        0 <= i <= a.len(),
        i <= b.len(),
        forall|j: int| 0 <= j < i ==> a[j] == b[j],
    ensures
        chars_lt(a, b) == chars_lt(a.skip(i), b.skip(i)),
    decreases i,
{
    if i == 0 {
        assert(a.skip(0) =~= a);
        assert(b.skip(0) =~= b);
    } else {
        assert(a[0] == b[0]);
        assert(a.len() > 0 && b.len() > 0);
        assert(forall|j: int| 0 <= j < i - 1 ==> a.drop_first()[j] == #[trigger] b.drop_first()[j])
            by {
            assert(forall|j: int|
                0 <= j < i - 1 ==> #[trigger] a.drop_first()[j] == a[j + 1] && b.drop_first()[j]
                    == b[j + 1]);
        }
        lemma_chars_lt_skip(a.drop_first(), b.drop_first(), i - 1);
        assert(a.drop_first().skip(i - 1) =~= a.skip(i));
        assert(b.drop_first().skip(i - 1) =~= b.skip(i));
    }
}

/// Compare two keys in lexicographic code-point order.
pub fn cmp_keys(a: &str, b: &str) -> (r: Ordering)
    ensures
        r == Ordering::Less <==> chars_lt(a@, b@),
        r == Ordering::Equal <==> a@ == b@,
        r == Ordering::Greater <==> chars_lt(b@, a@),
{
    let a_len = a.unicode_len();
    let b_len = b.unicode_len();
    proof {
        lemma_chars_trichotomy(a@, b@);
    }
    let mut i: usize = 0;
    loop
        invariant
            i <= a_len <= usize::MAX,
            i <= b_len <= usize::MAX,
            a_len == a@.len(),
            b_len == b@.len(),
            forall|j: int| 0 <= j < i ==> a@[j] == b@[j],
        decreases a_len - i,
    {
        if i == a_len && i == b_len {
            proof {
                lemma_chars_trichotomy(a@, b@);
                assert(a@ =~= b@);
            }
            return Ordering::Equal;
        }
        if i == a_len {
            proof {
                lemma_chars_trichotomy(a@, b@);
                lemma_chars_lt_skip(a@, b@, i as int);
                assert(a@.skip(i as int).len() == 0);
                assert(b@.skip(i as int).len() > 0);
            }
            return Ordering::Less;
        }
        if i == b_len {
            proof {
                lemma_chars_trichotomy(a@, b@);
                lemma_chars_lt_skip(b@, a@, i as int);
                assert(b@.skip(i as int).len() == 0);
                assert(a@.skip(i as int).len() > 0);
            }
            return Ordering::Greater;
        }
        let ca = a.get_char(i);
        let cb = b.get_char(i);
        if ca != cb {
            proof {
                lemma_chars_trichotomy(a@, b@);
                lemma_chars_lt_skip(a@, b@, i as int);
                lemma_chars_lt_skip(b@, a@, i as int);
                assert(a@.skip(i as int)[0] == ca);
                assert(b@.skip(i as int)[0] == cb);
            }
            if (ca as u32) < (cb as u32) {
                return Ordering::Less;
            } else {
                return Ordering::Greater;
            }
        }
        i = i + 1;
    }
}

} // verus!
