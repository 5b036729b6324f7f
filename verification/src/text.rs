//! Character-level helpers: ASCII case folding and lexicographic ordering
//! of character sequences. Country names are compared case-insensitively
//! everywhere, and cache keys are canonicalized by the order defined here.

use vstd::prelude::*;

verus! {

/// ASCII lower-casing of a single character; anything outside 'A'..='Z'
/// is left unchanged.
pub open spec fn lower_char(c: char) -> char {
    if 65 <= c as u32 && c as u32 <= 90 {
        (((c as u32) + 32) as u8) as char
    } else {
        c
    }
}

/// ASCII lower-casing of a whole character sequence.
pub open spec fn fold_lower(s: Seq<char>) -> Seq<char> {
    s.map_values(|c: char| lower_char(c))
}

/// Lexicographic order on character sequences by code point, with the
/// empty sequence first.
pub open spec fn seq_le(x: Seq<char>, y: Seq<char>) -> bool
    decreases x.len(),
{
    if x.len() == 0 {
        true
    } else if y.len() == 0 {
        false
    } else if x[0] < y[0] {
        true
    } else if y[0] < x[0] {
        false
    } else {
        seq_le(x.drop_first(), y.drop_first())
    }
}

/// The order is total.
pub proof fn lemma_seq_le_total(x: Seq<char>, y: Seq<char>)
    ensures
        seq_le(x, y) || seq_le(y, x),
    decreases x.len(),
{
    if x.len() > 0 && y.len() > 0 && !(x[0] < y[0]) && !(y[0] < x[0]) {
        lemma_seq_le_total(x.drop_first(), y.drop_first());
    }
}

/// The order is antisymmetric.
pub proof fn lemma_seq_le_antisym(x: Seq<char>, y: Seq<char>)
    requires
        seq_le(x, y),
        seq_le(y, x),
    ensures
        x == y,
    decreases x.len(),
{
    if x.len() == 0 {
        assert(y.len() == 0);
        assert(x =~= y);
    } else {
        assert(y.len() > 0);
        assert(!(x[0] < y[0]));
        assert(!(y[0] < x[0]));
        assert(x[0] == y[0]);
        lemma_seq_le_antisym(x.drop_first(), y.drop_first());
        assert forall|j: int| 1 <= j < x.len() implies x[j] == y[j] by {
            assert(x[j] == x.drop_first()[j - 1]);
            assert(y[j] == y.drop_first()[j - 1]);
        }
        assert(x =~= y);
    }
}

/// A shared prefix of equal characters does not affect the order of the
/// remainders.
pub proof fn lemma_seq_le_common_prefix(x: Seq<char>, y: Seq<char>, i: int)
    requires
        0 <= i <= x.len(),
        i <= y.len(),
        forall|j: int| 0 <= j < i ==> x[j] == y[j],
    ensures
        seq_le(x, y) == seq_le(x.skip(i), y.skip(i)),
    decreases i,
{
    if i == 0 {
        assert(x.skip(0) =~= x);
        assert(y.skip(0) =~= y);
    } else {
        assert(x[0] == y[0]);
        assert(seq_le(x, y) == seq_le(x.drop_first(), y.drop_first()));
        lemma_seq_le_common_prefix(x.drop_first(), y.drop_first(), i - 1);
        assert(x.drop_first().skip(i - 1) =~= x.skip(i));
        assert(y.drop_first().skip(i - 1) =~= y.skip(i));
    }
}

/// ASCII lower-casing of one character.
pub fn lower_char_exec(c: char) -> (r: char)
    ensures
        r == lower_char(c),
{
    let u: u32 = c as u32;
    if 65 <= u && u <= 90 {
        ((u + 32) as u8) as char
    } else {
        c
    }
}

/// Case-insensitive (ASCII) equality of two strings.
pub fn eq_ignore_case(a: &str, b: &str) -> (r: bool)
    ensures
        r == (fold_lower(a@) == fold_lower(b@)),
{
    let an: usize = a.unicode_len();
    let bn: usize = b.unicode_len();
    if an != bn {
        proof {
            assert(fold_lower(a@).len() != fold_lower(b@).len());
        }
        return false;
    }
    let mut i: usize = 0;
    while i < an
        invariant
            i <= an,
            an == a@.len(),
            bn == b@.len(),
            an == bn,
            forall|j: int| 0 <= j < i ==> lower_char(a@[j]) == lower_char(b@[j]),
        decreases an - i,
    {
        let ca = a.get_char(i);
        let cb = b.get_char(i);
        let la = lower_char_exec(ca);
        let lb = lower_char_exec(cb);
        if la != lb {
            proof {
                assert(fold_lower(a@)[i as int] != fold_lower(b@)[i as int]);
            }
            return false;
        }
        i = i + 1;
    }
    proof {
        assert(fold_lower(a@) =~= fold_lower(b@));
    }
    true
}

/// Exact equality of two strings, character by character.
pub fn str_eq(a: &str, b: &str) -> (r: bool)
    ensures
        r == (a@ == b@),
{
    let an: usize = a.unicode_len();
    let bn: usize = b.unicode_len();
    if an != bn {
        return false;
    }
    let mut i: usize = 0;
    while i < an
        invariant
            i <= an,
            an == a@.len(),
            bn == b@.len(),
            an == bn,
            forall|j: int| 0 <= j < i ==> a@[j] == b@[j],
        decreases an - i,
    {
        let ca = a.get_char(i);
        let cb = b.get_char(i);
        if ca != cb {
            return false;
        }
        i = i + 1;
    }
    proof {
        assert(a@ =~= b@);
    }
    true
}

/// Lexicographic order of two strings after ASCII case folding.
pub fn str_le_fold(a: &str, b: &str) -> (r: bool)
    ensures
        r == seq_le(fold_lower(a@), fold_lower(b@)),
{
    let an: usize = a.unicode_len();
    let bn: usize = b.unicode_len();
    let n: usize = if an < bn {
        an
    } else {
        bn
    };
    let mut i: usize = 0;
    while i < n
        invariant
            i <= n,
            an == a@.len(),
            bn == b@.len(),
            n == if an < bn {
                an
            } else {
                bn
            },
            forall|j: int| 0 <= j < i ==> lower_char(a@[j]) == lower_char(b@[j]),
        decreases n - i,
    {
        let ca = lower_char_exec(a.get_char(i));
        let cb = lower_char_exec(b.get_char(i));
        proof {
            assert(fold_lower(a@)[i as int] == ca);
            assert(fold_lower(b@)[i as int] == cb);
            assert(forall|j: int|
                0 <= j < i ==> fold_lower(a@)[j] == #[trigger] fold_lower(b@)[j]);
        }
        if ca < cb {
            proof {
                lemma_seq_le_common_prefix(fold_lower(a@), fold_lower(b@), i as int);
            }
            return true;
        }
        if cb < ca {
            proof {
                lemma_seq_le_common_prefix(fold_lower(a@), fold_lower(b@), i as int);
            }
            return false;
        }
        i = i + 1;
    }
    proof {
        assert(forall|j: int| 0 <= j < n ==> fold_lower(a@)[j] == #[trigger] fold_lower(b@)[j]);
        lemma_seq_le_common_prefix(fold_lower(a@), fold_lower(b@), n as int);
    }
    an <= bn
}

/// Lexicographic order on two strings, by code point.
pub fn str_le(a: &str, b: &str) -> (r: bool)
    ensures
        r == seq_le(a@, b@),
{
    let an: usize = a.unicode_len();
    let bn: usize = b.unicode_len();
    let n: usize = if an < bn {
        an
    } else {
        bn
    };
    let mut i: usize = 0;
    while i < n
        invariant
            i <= n,
            an == a@.len(),
            bn == b@.len(),
            n == if an < bn {
                an
            } else {
                bn
            },
            forall|j: int| 0 <= j < i ==> a@[j] == b@[j],
        decreases n - i,
    {
        let ca = a.get_char(i);
        let cb = b.get_char(i);
        if ca < cb {
            proof {
                lemma_seq_le_common_prefix(a@, b@, i as int);
            }
            return true;
        }
        if cb < ca {
            proof {
                lemma_seq_le_common_prefix(a@, b@, i as int);
            }
            return false;
        }
        proof {
            assert(a@[i as int] == b@[i as int]);
        }
        i = i + 1;
    }
    proof {
        lemma_seq_le_common_prefix(a@, b@, n as int);
    }
    an <= bn
}

} // verus!
