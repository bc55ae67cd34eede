//! Lexicographic ordering of character sequences.
//!
//! Column paths are ordered component-wise, and key components are ordered
//! by their characters' code points; this module holds that character-level
//! order, its totality, and an executable three-way comparison.

use vstd::prelude::*;
use vstd::string::StrSliceExecFns;
use vstd::utf8::char_u32_cast;

verus! {

/// The outcome of a three-way comparison.
pub enum Order {
    Less,
    Equal,
    Greater,
}

/// Strict lexicographic order on the characters at positions `i` and
/// beyond, by code point; a strict prefix precedes every extension of it.
pub open spec fn str_lt_from(a: Seq<char>, b: Seq<char>, i: int) -> bool
    decreases b.len() - i,
{
    if i >= b.len() {
        false
    } else if i >= a.len() {
        true
    } else if a[i] != b[i] {
        (a[i] as u32) < (b[i] as u32)
    } else {
        str_lt_from(a, b, i + 1)
    }
}

/// Strict lexicographic order on character sequences.
pub open spec fn str_lt(a: Seq<char>, b: Seq<char>) -> bool {
    str_lt_from(a, b, 0)
}

/// While two sequences agree on a prefix, the order is decided by the rest.
pub proof fn lemma_str_lt_skip_prefix(a: Seq<char>, b: Seq<char>, i: int)
    requires
        0 <= i <= a.len(),
        i <= b.len(),
        forall|j: int| 0 <= j < i ==> a[j] == b[j],
    ensures
        str_lt(a, b) == str_lt_from(a, b, i),
    decreases i,
{
    if i > 0 {
        lemma_str_lt_skip_prefix(a, b, i - 1);
        assert(a[i - 1] == b[i - 1]);
    }
}

/// The order is total: two sequences compare strictly one way, strictly
/// the other way, or are equal, and never more than one of these.
pub proof fn lemma_str_lt_total_from(a: Seq<char>, b: Seq<char>, i: int)
    requires
        0 <= i <= a.len(),
        i <= b.len(),
    ensures
        str_lt_from(a, b, i) || str_lt_from(b, a, i) || (a.len() == b.len() && forall|j: int|
            i <= j < a.len() ==> a[j] == b[j]),
        !(str_lt_from(a, b, i) && str_lt_from(b, a, i)),
    decreases a.len() + b.len() - 2 * i,
{
    if i < a.len() && i < b.len() {
        if a[i] != b[i] {
            let ua = a[i] as u32;
            let ub = b[i] as u32;
            if ua == ub {
                char_u32_cast(a[i], ua);
                char_u32_cast(b[i], ub);
                assert(false);
            }
        } else {
            lemma_str_lt_total_from(a, b, i + 1);
        }
    }
}

/// Totality of [`str_lt`], stated at the front of the sequences.
pub proof fn lemma_str_lt_total(a: Seq<char>, b: Seq<char>)
    ensures
        str_lt(a, b) || str_lt(b, a) || a == b,
        !(str_lt(a, b) && str_lt(b, a)),
        str_lt(a, b) ==> a != b,
{
    lemma_str_lt_total_from(a, b, 0);
    if !str_lt(a, b) && !str_lt(b, a) {
        assert(a =~= b);
    }
    if str_lt(a, b) && a == b {
        assert(false);
    }
}

/// The order is transitive, position by position.
pub proof fn lemma_str_lt_trans_from(a: Seq<char>, b: Seq<char>, c: Seq<char>, i: int)
    requires
        0 <= i,
        str_lt_from(a, b, i),
        str_lt_from(b, c, i),
    ensures
        str_lt_from(a, c, i),
    decreases c.len() - i,
{
    if i >= b.len() {
        assert(false);
    } else if i >= a.len() {
    } else {
        if a[i] == b[i] && b[i] == c[i] {
            lemma_str_lt_trans_from(a, b, c, i + 1);
        } else {
            let ua = a[i] as u32;
            let ub = b[i] as u32;
            let uc = c[i] as u32;
            if a[i] != b[i] && ua == ub {
                char_u32_cast(a[i], ua);
                char_u32_cast(b[i], ub);
            }
            if b[i] != c[i] && ub == uc {
                char_u32_cast(b[i], ub);
                char_u32_cast(c[i], uc);
            }
        }
    }
}

/// Transitivity of [`str_lt`].
pub proof fn lemma_str_lt_trans(a: Seq<char>, b: Seq<char>, c: Seq<char>)
    requires
        str_lt(a, b),
        str_lt(b, c),
    ensures
        str_lt(a, c),
{
    lemma_str_lt_trans_from(a, b, c, 0);
}

/// Three-way comparison of two strings under [`str_lt`].
pub fn str_compare(a: &str, b: &str) -> (r: Order)
    ensures
        r is Less <==> str_lt(a@, b@),
        r is Equal <==> a@ == b@,
        r is Greater <==> str_lt(b@, a@),
{
    let alen = a.unicode_len();
    let blen = b.unicode_len();
    let mut i: usize = 0;
    while i < alen && i < blen
        invariant
            0 <= i <= alen,
            i <= blen,
            alen == a@.len(),
            blen == b@.len(),
            forall|j: int| 0 <= j < i ==> a@[j] == b@[j],
        decreases alen - i,
    {
        let ca = a.get_char(i);
        let cb = b.get_char(i);
        let ua = ca as u32;
        let ub = cb as u32;
        if ua != ub {
            proof {
                lemma_str_lt_skip_prefix(a@, b@, i as int);
                lemma_str_lt_skip_prefix(b@, a@, i as int);
                lemma_str_lt_total(a@, b@);
            }
            if ua < ub {
                return Order::Less;
            } else {
                return Order::Greater;
            }
        }
        proof {
            char_u32_cast(ca, ua);
            char_u32_cast(cb, ub);
            assert(a@[i as int] == b@[i as int]);
        }
        i = i + 1;
    }
    proof {
        lemma_str_lt_skip_prefix(a@, b@, i as int);
        lemma_str_lt_skip_prefix(b@, a@, i as int);
        if alen == blen {
            assert(a@ =~= b@);
        }
        lemma_str_lt_total(a@, b@);
    }
    if alen < blen {
        Order::Less
    } else if alen == blen {
        Order::Equal
    } else {
        Order::Greater
    }
}

} // verus!
