//! Lexicographic order on character sequences: the key order of the store.
use vstd::prelude::*;

verus! {

/// A `char` is determined by its code point.
pub proof fn lemma_char_inj(c1: char, c2: char)
    ensures
        c1 as u32 == c2 as u32 ==> c1 == c2,
{
    vstd::utf8::char_u32_cast(c1, c1 as u32);
    vstd::utf8::char_u32_cast(c2, c2 as u32);
}

/// Strict lexicographic order on `Seq<char>`, comparing code points.
pub open spec fn lex_lt(a: Seq<char>, b: Seq<char>) -> bool
    decreases a.len(),
{
    if b.len() == 0 {
        false
    } else if a.len() == 0 {
        true
    } else if (a[0] as u32) < (b[0] as u32) {
        true
    } else if a[0] == b[0] {
        lex_lt(a.drop_first(), b.drop_first())
    } else {
        false
    }
}

/// `p` is a prefix of `k`.
pub open spec fn is_prefix(p: Seq<char>, k: Seq<char>) -> bool {
    p.len() <= k.len() && k.subrange(0, p.len() as int) == p
}

/// Exactly one of `a < b`, `a == b`, `b < a` holds.
pub proof fn lemma_lex_total(a: Seq<char>, b: Seq<char>)
    ensures
        lex_lt(a, b) || lex_lt(b, a) || a == b,
        lex_lt(a, b) ==> !lex_lt(b, a) && a != b,
        lex_lt(b, a) ==> !lex_lt(a, b) && a != b,
    decreases a.len(),
{
    if a.len() == 0 && b.len() == 0 {
        assert(a =~= b);
    } else if a.len() > 0 && b.len() > 0 {
        if a[0] == b[0] {
            lemma_lex_total(a.drop_first(), b.drop_first());
            if a.drop_first() == b.drop_first() {
                assert(a =~= b) by {
                    assert(a.len() == b.len());
                    assert forall|j: int| 0 <= j < a.len() implies a[j] == b[j] by {
                        if j > 0 {
                            assert(a.drop_first()[j - 1] == b.drop_first()[j - 1]);
                        }
                    }
                }
            }
            if a == b {
                assert(a.drop_first() =~= b.drop_first());
            }
        } else {
            if a == b {
                assert(a[0] == b[0]);
            }
            assert(a[0] as u32 != b[0] as u32) by {
                lemma_char_inj(a[0], b[0]);
            }
            if (a[0] as u32) < (b[0] as u32) {
                assert(lex_lt(a, b));
            } else {
                assert((b[0] as u32) < (a[0] as u32));
                assert(lex_lt(b, a));
            }
        }
    }
}

pub proof fn lemma_lex_trans(a: Seq<char>, b: Seq<char>, c: Seq<char>)
    requires
        lex_lt(a, b),
        lex_lt(b, c),
    ensures
        lex_lt(a, c),
    decreases a.len(),
{
    if b.len() > 0 && c.len() > 0 && a.len() > 0 {
        if a[0] == b[0] && b[0] == c[0] {
            lemma_lex_trans(a.drop_first(), b.drop_first(), c.drop_first());
        }
    }
}

/// Result of comparing two keys.
#[derive(PartialEq, Eq, Structural, Clone, Copy, Debug)]
pub enum KeyOrder {
    Less,
    Equal,
    Greater,
}

/// Compare two strings in lexicographic key order.
pub fn str_cmp(a: &str, b: &str) -> (r: KeyOrder)
    ensures
        r == KeyOrder::Less <==> lex_lt(a@, b@),
        r == KeyOrder::Equal <==> a@ == b@,
        r == KeyOrder::Greater <==> lex_lt(b@, a@),
{
    let a_len: usize = a.unicode_len();
    let b_len: usize = b.unicode_len();
    let mut i: usize = 0;
    while i < a_len && i < b_len
        invariant
            i <= a_len && i <= b_len,
            a_len == a@.len() && b_len == b@.len(),
            a@.subrange(0, i as int) == b@.subrange(0, i as int),
        decreases a_len - i,
    {
        let ca = a.get_char(i);
        let cb = b.get_char(i);
        if (ca as u32) < (cb as u32) {
            proof {
                lemma_lex_common_prefix(a@, b@, i as int);
                lemma_lex_total(a@, b@);
            }
            return KeyOrder::Less;
        } else if (cb as u32) < (ca as u32) {
            proof {
                lemma_lex_common_prefix(b@, a@, i as int);
                lemma_lex_total(a@, b@);
            }
            return KeyOrder::Greater;
        }
        proof {
            assert(ca as u32 == cb as u32);
            assert(ca == cb) by {
                lemma_char_inj(ca, cb);
            }
            assert(a@.subrange(0, i + 1) =~= b@.subrange(0, i + 1));
        }
        i = i + 1;
    }
    if a_len == b_len {
        proof {
            assert(a@ =~= b@) by {
                assert forall|j: int| 0 <= j < a@.len() implies a@[j] == b@[j] by {
                    assert(a@.subrange(0, i as int)[j] == b@.subrange(0, i as int)[j]);
                }
            }
            lemma_lex_total(a@, b@);
        }
        KeyOrder::Equal
    } else if a_len < b_len {
        proof {
            assert(a@ == b@.subrange(0, a@.len() as int)) by {
                assert(a@.subrange(0, i as int) =~= a@);
            }
            lemma_lex_proper_prefix(a@, b@);
            lemma_lex_total(a@, b@);
        }
        KeyOrder::Less
    } else {
        proof {
            assert(b@ == a@.subrange(0, b@.len() as int)) by {
                assert(b@.subrange(0, i as int) =~= b@);
            }
            lemma_lex_proper_prefix(b@, a@);
            lemma_lex_total(a@, b@);
        }
        KeyOrder::Greater
    }
}

/// If `a` and `b` agree on their first `i` characters and `a[i] < b[i]`,
/// then `a` sorts before `b`.
proof fn lemma_lex_common_prefix(a: Seq<char>, b: Seq<char>, i: int)
    requires
        0 <= i < a.len(),
        i < b.len(),
        a.subrange(0, i) == b.subrange(0, i),
        (a[i] as u32) < (b[i] as u32),
    ensures
        lex_lt(a, b),
    decreases i,
{
    if i == 0 {
    } else {
        assert(a[0] == a.subrange(0, i)[0]);
        assert(b[0] == b.subrange(0, i)[0]);
        assert(a.drop_first().subrange(0, i - 1) =~= b.drop_first().subrange(0, i - 1)) by {
            assert forall|j: int| 0 <= j < i - 1 implies a.drop_first()[j] == b.drop_first()[j]
            by {
                assert(a[j + 1] == a.subrange(0, i)[j + 1]);
                assert(b[j + 1] == b.subrange(0, i)[j + 1]);
            }
        }
        assert(a.drop_first()[i - 1] == a[i]);
        assert(b.drop_first()[i - 1] == b[i]);
        lemma_lex_common_prefix(a.drop_first(), b.drop_first(), i - 1);
    }
}

/// A proper prefix sorts before what extends it.
proof fn lemma_lex_proper_prefix(a: Seq<char>, b: Seq<char>)
    requires
        a.len() < b.len(),
        a == b.subrange(0, a.len() as int),
    ensures
        lex_lt(a, b),
    decreases a.len(),
{
    if a.len() > 0 {
        assert(a[0] == b.subrange(0, a.len() as int)[0]);
        assert(a.drop_first() =~= b.drop_first().subrange(0, a.len() - 1)) by {
            assert forall|j: int| 0 <= j < a.len() - 1 implies a.drop_first()[j]
                == b.drop_first()[j]
            by {
                assert(a[j + 1] == b.subrange(0, a.len() as int)[j + 1]);
            }
        }
        lemma_lex_proper_prefix(a.drop_first(), b.drop_first());
    }
}

/// Does `k` start with `p`?
pub fn str_has_prefix(k: &str, p: &str) -> (r: bool)
    ensures
        r == is_prefix(p@, k@),
{
    let k_len: usize = k.unicode_len();
    let p_len: usize = p.unicode_len();
    if p_len > k_len {
        return false;
    }
    let mut i: usize = 0;
    while i < p_len
        invariant
            i <= p_len <= k_len,
            k_len == k@.len() && p_len == p@.len(),
            k@.subrange(0, i as int) == p@.subrange(0, i as int),
        decreases p_len - i,
    {
        if k.get_char(i) as u32 != p.get_char(i) as u32 {
            proof {
                assert(k@.subrange(0, p@.len() as int)[i as int] == k@[i as int]);
                assert(p@[i as int] != k@[i as int]) by {
                    assert(p@[i as int] as u32 != k@[i as int] as u32);
                }
            }
            return false;
        }
        proof {
            assert(k@[i as int] == p@[i as int]) by {
                assert(k@[i as int] as u32 == p@[i as int] as u32);
                lemma_char_inj(k@[i as int], p@[i as int]);
            }
            assert(k@.subrange(0, i + 1) =~= p@.subrange(0, i + 1));
        }
        i = i + 1;
    }
    proof {
        assert(k@.subrange(0, p@.len() as int) =~= p@);
    }
    true
}

} // verus!
