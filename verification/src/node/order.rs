//! Byte-lexicographic ordering of entry names.
//!
//! Entries of a directory are ordered and compared by name alone. The
//! ordering is lexicographic over the name's characters, which for UTF-8
//! encoded names coincides with the byte-lexicographic order of the
//! encoded form.

use vstd::prelude::*;
use vstd::string::StrSliceExecFns;

verus! {

/// `a` sorts strictly before `b` in lexicographic order.
pub open spec fn name_lt(a: Seq<char>, b: Seq<char>) -> bool
    decreases a.len(),
{
    if b.len() == 0 {
        false
    } else if a.len() == 0 {
        true
    } else if a[0] != b[0] {
        (a[0] as u32) < (b[0] as u32)
    } else {
        name_lt(a.drop_first(), b.drop_first())
    }
}

/// The three-way outcome of comparing two entry names.
#[derive(Clone, Copy, PartialEq, Eq, Structural, Debug)]
pub enum NameCmp {
    Less,
    Equal,
    Greater,
}

/// A name never sorts before itself.
pub proof fn lemma_name_lt_irreflexive(a: Seq<char>)
    ensures
        !name_lt(a, a),
    decreases a.len(),
{
    if a.len() != 0 {
        lemma_name_lt_irreflexive(a.drop_first());
    }
}

/// At most one of `name_lt(a, b)` and `name_lt(b, a)` holds.
pub proof fn lemma_name_lt_asymmetric(a: Seq<char>, b: Seq<char>)
    ensures
        !(name_lt(a, b) && name_lt(b, a)),
    decreases a.len(),
{
    if a.len() != 0 && b.len() != 0 && a[0] == b[0] {
        lemma_name_lt_asymmetric(a.drop_first(), b.drop_first());
    }
}

/// Distinct names are ordered one way or the other.
pub proof fn lemma_name_lt_connected(a: Seq<char>, b: Seq<char>)
    ensures
        a != b ==> name_lt(a, b) || name_lt(b, a),
    decreases a.len(),
{
    if a.len() != 0 && b.len() != 0 && a[0] == b[0] {
        lemma_name_lt_connected(a.drop_first(), b.drop_first());
        if a.drop_first() == b.drop_first() {
            assert(a.drop_first().len() == b.drop_first().len());
            assert(a.len() == b.len());
            assert forall|k: int| 0 <= k < a.len() implies a[k] == b[k] by {
                if k > 0 {
                    assert(a[k] == a.drop_first()[k - 1]);
                    assert(b[k] == b.drop_first()[k - 1]);
                }
            }
            assert(a =~= b);
        }
    } else if a.len() != 0 && b.len() != 0 {
        vstd::utf8::char_u32_cast(a[0], a[0] as u32);
        vstd::utf8::char_u32_cast(b[0], b[0] as u32);
    } else if a.len() == 0 && b.len() == 0 {
        assert(a =~= b);
    }
}

/// The ordering is transitive.
pub proof fn lemma_name_lt_transitive(a: Seq<char>, b: Seq<char>, c: Seq<char>)
    ensures
        name_lt(a, b) && name_lt(b, c) ==> name_lt(a, c),
    decreases a.len(),
{
    if a.len() != 0 && b.len() != 0 && c.len() != 0 {
        if a[0] == b[0] && b[0] == c[0] {
            lemma_name_lt_transitive(a.drop_first(), b.drop_first(), c.drop_first());
        }
    }
}

/// Names with equal prefixes of length `i` are ordered by the remainder:
/// comparing them is the same as comparing the suffixes from `i` on.
proof fn lemma_name_lt_skip(a: Seq<char>, b: Seq<char>, i: int)
    requires
        0 <= i <= a.len(),
        0 <= i <= b.len(),
        forall|k: int| 0 <= k < i ==> a[k] == b[k],
    ensures
        name_lt(a, b) == name_lt(a.skip(i), b.skip(i)),
    decreases i,
{
    if i == 0 {
        assert(a.skip(0) =~= a);
        assert(b.skip(0) =~= b);
    } else {
        assert(a.len() != 0 && b.len() != 0 && a[0] == b[0]);
        assert(a.drop_first().skip(i - 1) =~= a.skip(i));
        assert(b.drop_first().skip(i - 1) =~= b.skip(i));
        lemma_name_lt_skip(a.drop_first(), b.drop_first(), i - 1);
    }
}

/// Compares two names lexicographically.
pub fn compare_names(a: &str, b: &str) -> (r: NameCmp)
    ensures
        r == NameCmp::Less <==> name_lt(a@, b@),
        r == NameCmp::Equal <==> a@ == b@,
        r == NameCmp::Greater <==> name_lt(b@, a@),
{
    let la = a.unicode_len();
    let lb = b.unicode_len();
    let mut i: usize = 0;
    loop
        invariant
            i <= la,
            i <= lb,
            la == a@.len(),
            lb == b@.len(),
            forall|k: int| 0 <= k < i ==> a@[k] == b@[k],
        decreases la - i,
    {
        proof {
            lemma_name_lt_skip(a@, b@, i as int);
            lemma_name_lt_skip(b@, a@, i as int);
        }
        if i == la && i == lb {
            proof {
                assert(a@ =~= b@);
                lemma_name_lt_irreflexive(a@);
            }
            return NameCmp::Equal;
        }
        if i == la {
            proof {
                assert(a@.skip(i as int).len() == 0 && b@.skip(i as int).len() != 0);
                lemma_name_lt_asymmetric(a@, b@);
                assert(a@.len() != b@.len());
            }
            return NameCmp::Less;
        }
        if i == lb {
            proof {
                lemma_name_lt_asymmetric(a@, b@);
                assert(a@.len() != b@.len());
            }
            return NameCmp::Greater;
        }
        let ca = a.get_char(i);
        let cb = b.get_char(i);
        if (ca as u32) < (cb as u32) {
            proof {
                assert(a@.skip(i as int)[0] == ca && b@.skip(i as int)[0] == cb);
                lemma_name_lt_asymmetric(a@, b@);
                assert(a@[i as int] != b@[i as int]);
            }
            return NameCmp::Less;
        }
        if (cb as u32) < (ca as u32) {
            proof {
                assert(a@.skip(i as int)[0] == ca && b@.skip(i as int)[0] == cb);
                lemma_name_lt_asymmetric(a@, b@);
                assert(a@[i as int] != b@[i as int]);
            }
            return NameCmp::Greater;
        }
        proof {
            vstd::utf8::char_u32_cast(ca, ca as u32);
            vstd::utf8::char_u32_cast(cb, cb as u32);
            assert(ca as u32 == cb as u32);
            assert(a@[i as int] == b@[i as int]);
        }
        i = i + 1;
    }
}

} // verus!
