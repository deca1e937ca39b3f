//! Verified string helpers: equality, prefix and suffix tests, and a
//! code-point lexicographic order used to canonicalise label sets.

use vstd::prelude::*;

verus! {

/// `p` is a prefix of `s`.
pub open spec fn spec_starts_with(s: Seq<char>, p: Seq<char>) -> bool {
    s.len() >= p.len() && s.take(p.len() as int) == p
}

/// `p` is a suffix of `s`.
pub open spec fn spec_ends_with(s: Seq<char>, p: Seq<char>) -> bool {
    s.len() >= p.len() && s.skip(s.len() - p.len()) == p
}

/// Lexicographic order on code points, with the shorter string first on ties.
pub open spec fn lex_le(a: Seq<char>, b: Seq<char>) -> bool
    decreases a.len(),
{
    if a.len() == 0 {
        true
    } else if b.len() == 0 {
        false
    } else if (a[0] as u32) < (b[0] as u32) {
        true
    } else if (a[0] as u32) > (b[0] as u32) {
        false
    } else {
        lex_le(a.skip(1), b.skip(1))
    }
}

pub fn str_eq(a: &str, b: &str) -> (r: bool)
    ensures
        r == (a@ == b@),
{
    let la = a.unicode_len();
    let lb = b.unicode_len();
    if la != lb {
        return false;
    }
    let mut i: usize = 0;
    while i < la
        invariant
            0 <= i <= la,
            la == a@.len(),
            la == b@.len(),
            forall|j: int| 0 <= j < i ==> a@[j] == b@[j],
        decreases la - i,
    {
        if a.get_char(i) != b.get_char(i) {
            return false;
        }
        i = i + 1;
    }
    proof {
        assert(a@ =~= b@);
    }
    true
}

pub fn string_eq(a: &String, b: &String) -> (r: bool)
    ensures
        r == (a@ == b@),
{
    str_eq(a.as_str(), b.as_str())
}

pub fn str_starts_with(s: &str, p: &str) -> (r: bool)
    ensures
        r == spec_starts_with(s@, p@),
{
    let ls = s.unicode_len();
    let lp = p.unicode_len();
    if ls < lp {
        return false;
    }
    let mut i: usize = 0;
    while i < lp
        invariant
            0 <= i <= lp,
            lp <= ls,
            ls == s@.len(),
            lp == p@.len(),
            forall|j: int| 0 <= j < i ==> s@[j] == p@[j],
        decreases lp - i,
    {
        if s.get_char(i) != p.get_char(i) {
            proof {
                assert(s@.take(lp as int)[i as int] == s@[i as int]);
            }
            return false;
        }
        i = i + 1;
    }
    proof {
        assert(s@.take(lp as int) =~= p@);
    }
    true
}

pub fn str_ends_with(s: &str, p: &str) -> (r: bool)
    ensures
        r == spec_ends_with(s@, p@),
{
    let ls = s.unicode_len();
    let lp = p.unicode_len();
    if ls < lp {
        return false;
    }
    let off = ls - lp;
    let mut i: usize = 0;
    while i < lp
        invariant
            0 <= i <= lp,
            lp <= ls,
            ls == s@.len(),
            lp == p@.len(),
            off == ls - lp,
            forall|j: int| 0 <= j < i ==> s@[off + j] == p@[j],
        decreases lp - i,
    {
        if s.get_char(off + i) != p.get_char(i) {
            proof {
                assert(s@.skip(off as int)[i as int] == s@[off + i]);
            }
            return false;
        }
        i = i + 1;
    }
    proof {
        assert(s@.skip(off as int) =~= p@);
    }
    true
}

/// Equal prefixes can be peeled off a lexicographic comparison.
proof fn lemma_lex_le_common_prefix(a: Seq<char>, b: Seq<char>, i: int)
    requires
        0 <= i <= a.len(),
        i <= b.len(),
        forall|j: int| 0 <= j < i ==> a[j] == b[j],
    ensures
        lex_le(a, b) == lex_le(a.skip(i), b.skip(i)),
    decreases i,
{
    if i == 0 {
        assert(a.skip(0) =~= a);
        assert(b.skip(0) =~= b);
    } else {
        assert(a.len() > 0 && b.len() > 0);
        assert(a[0] == b[0]);
        lemma_lex_le_common_prefix(a.skip(1), b.skip(1), i - 1);
        assert(a.skip(1).skip(i - 1) =~= a.skip(i));
        assert(b.skip(1).skip(i - 1) =~= b.skip(i));
    }
}

pub fn str_lex_le(a: &str, b: &str) -> (r: bool)
    ensures
        r == lex_le(a@, b@),
{
    let la = a.unicode_len();
    let lb = b.unicode_len();
    let min = if la < lb {
        la
    } else {
        lb
    };
    let mut i: usize = 0;
    while i < min
        invariant
            0 <= i <= min,
            min == if la < lb {
                la as int
            } else {
                lb as int
            },
            la == a@.len(),
            lb == b@.len(),
            forall|j: int| 0 <= j < i ==> a@[j] == b@[j],
        decreases min - i,
    {
        let ca = a.get_char(i);
        let cb = b.get_char(i);
        if ca != cb {
            proof {
                lemma_lex_le_common_prefix(a@, b@, i as int);
                assert(a@.skip(i as int)[0] == a@[i as int]);
                assert(b@.skip(i as int)[0] == b@[i as int]);
            }
            return (ca as u32) < (cb as u32);
        }
        i = i + 1;
    }
    proof {
        lemma_lex_le_common_prefix(a@, b@, i as int);
        if la <= lb {
            assert(a@.skip(i as int).len() == 0);
        } else {
            assert(a@.skip(i as int).len() > 0);
            assert(b@.skip(i as int).len() == 0);
        }
    }
    la <= lb
}

/// The order is total.
pub proof fn lemma_lex_le_total(a: Seq<char>, b: Seq<char>)
    ensures
        lex_le(a, b) || lex_le(b, a),
    decreases a.len(),
{
    if a.len() > 0 && b.len() > 0 && (a[0] as u32) == (b[0] as u32) {
        lemma_lex_le_total(a.skip(1), b.skip(1));
    }
}

/// The order is transitive.
pub proof fn lemma_lex_le_trans(a: Seq<char>, b: Seq<char>, c: Seq<char>)
    requires
        lex_le(a, b),
        lex_le(b, c),
    ensures
        lex_le(a, c),
    decreases a.len(),
{
    if a.len() > 0 && b.len() > 0 && c.len() > 0 && (a[0] as u32) == (b[0] as u32) && (b[0] as u32)
        == (c[0] as u32) {
        lemma_lex_le_trans(a.skip(1), b.skip(1), c.skip(1));
    }
}

/// View of a list of strings.
pub open spec fn strings_view(v: Seq<String>) -> Seq<Seq<char>> {
    v.map(|i: int, s: String| s@)
}

/// Index of the first occurrence of `sep` in `s`, or `s.len()` if there
/// is none.
pub open spec fn first_sep(s: Seq<char>, sep: char) -> int
    decreases s.len(),
{
    if s.len() == 0 {
        0
    } else if s[0] == sep {
        0
    } else {
        1 + first_sep(s.skip(1), sep)
    }
}

pub proof fn lemma_first_sep_bounds(s: Seq<char>, sep: char)
    ensures
        0 <= first_sep(s, sep) <= s.len(),
        forall|i: int| 0 <= i < first_sep(s, sep) ==> s[i] != sep,
        first_sep(s, sep) < s.len() ==> s[first_sep(s, sep)] == sep,
    decreases s.len(),
{
    if s.len() > 0 && s[0] != sep {
        lemma_first_sep_bounds(s.skip(1), sep);
        assert forall|i: int| 0 <= i < first_sep(s, sep) implies s[i] != sep by {
            if i >= 1 {
                assert(s.skip(1)[i - 1] == s[i]);
            }
        }
        if first_sep(s, sep) < s.len() {
            assert(s.skip(1)[first_sep(s, sep) - 1] == s[first_sep(s, sep)]);
        }
    }
}

pub proof fn lemma_no_sep_prefix(s: Seq<char>, k: int, sep: char)
    requires
        0 <= k <= s.len(),
        forall|j: int| 0 <= j < k ==> #[trigger] s[j] != sep,
    ensures
        first_sep(s, sep) >= k,
{
    lemma_first_sep_bounds(s, sep);
    if first_sep(s, sep) < k {
        assert(s[first_sep(s, sep)] == sep);
    }
}

/// The tokens of `s` split at every single `sep`, in order; there is
/// always at least one token, and consecutive separators yield empty
/// tokens.
pub open spec fn sep_tokens(s: Seq<char>, sep: char) -> Seq<Seq<char>>
    decreases s.len(),
{
    if s.len() == 0 {
        seq![Seq::<char>::empty()]
    } else if s[0] == sep {
        seq![Seq::<char>::empty()] + sep_tokens(s.skip(1), sep)
    } else {
        let rest = sep_tokens(s.skip(1), sep);
        seq![seq![s[0]] + rest[0]] + rest.skip(1)
    }
}

pub proof fn lemma_sep_tokens_len(s: Seq<char>, sep: char)
    ensures
        sep_tokens(s, sep).len() >= 1,
    decreases s.len(),
{
    if s.len() > 0 {
        lemma_sep_tokens_len(s.skip(1), sep);
    }
}

/// Splitting off the first token.
pub proof fn lemma_sep_tokens_split(s: Seq<char>, sep: char)
    ensures
        first_sep(s, sep) == s.len() ==> sep_tokens(s, sep) == seq![s],
        first_sep(s, sep) < s.len() ==> sep_tokens(s, sep) == seq![s.take(first_sep(s, sep))]
            + sep_tokens(s.skip(first_sep(s, sep) + 1), sep),
    decreases s.len(),
{
    lemma_first_sep_bounds(s, sep);
    if s.len() == 0 {
        assert(s =~= Seq::<char>::empty());
    } else if s[0] == sep {
        assert(s.take(0) =~= Seq::<char>::empty());
        assert(sep_tokens(s, sep) =~= seq![s.take(0)] + sep_tokens(s.skip(1), sep));
    } else {
        lemma_sep_tokens_split(s.skip(1), sep);
        let d = first_sep(s, sep);
        let d1 = first_sep(s.skip(1), sep);
        assert(d == 1 + d1);
        if d == s.len() {
            assert(sep_tokens(s.skip(1), sep) == seq![s.skip(1)]);
            assert(seq![s[0]] + s.skip(1) =~= s);
            assert(sep_tokens(s, sep) =~= seq![s]);
        } else {
            assert(sep_tokens(s.skip(1), sep) == seq![s.skip(1).take(d1)] + sep_tokens(
                s.skip(1).skip(d1 + 1),
                sep,
            ));
            assert(seq![s[0]] + s.skip(1).take(d1) =~= s.take(d));
            assert(s.skip(1).skip(d1 + 1) =~= s.skip(d + 1));
            assert(sep_tokens(s, sep) =~= seq![s.take(d)] + sep_tokens(s.skip(d + 1), sep));
        }
    }
}

/// Split a string at every single occurrence of `sep`, as `split(sep)`
/// does.
#[verifier::loop_isolation(false)]
pub fn split_char(s: &str, sep: char) -> (r: Vec<String>)
    ensures
        strings_view(r@) == sep_tokens(s@, sep),
{
    let len = s.unicode_len();
    let mut out: Vec<String> = Vec::new();
    let mut start: usize = 0;
    let mut i: usize = 0;
    proof {
        assert(s@.skip(0) =~= s@);
        assert(strings_view(out@) =~= Seq::<Seq<char>>::empty());
    }
    while i < len
        invariant
            0 <= start <= i <= len,
            strings_view(out@) + sep_tokens(s@.skip(start as int), sep) =~= sep_tokens(s@, sep),
            forall|j: int| start <= j < i ==> s@[j] != sep,
        decreases len - i,
    {
        if s.get_char(i) == sep {
            proof {
                let rem = s@.skip(start as int);
                assert forall|j: int| 0 <= j < i - start implies #[trigger] rem[j] != sep by {
                    assert(rem[j] == s@[j + start]);
                }
                lemma_no_sep_prefix(rem, i - start, sep);
                lemma_first_sep_bounds(rem, sep);
                assert(rem[i - start] == s@[i as int]);
                assert(first_sep(rem, sep) == i - start);
                lemma_sep_tokens_split(rem, sep);
                assert(rem.take(i - start) =~= s@.subrange(start as int, i as int));
                assert(rem.skip(i - start + 1) =~= s@.skip(i + 1));
            }
            let tok = s.substring_char(start, i).to_owned();
            out.push(tok);
            proof {
                assert(strings_view(out@) =~= strings_view(out@.drop_last()).push(
                    s@.subrange(start as int, i as int),
                ));
            }
            start = i + 1;
        }
        i = i + 1;
    }
    proof {
        let rem = s@.skip(start as int);
        assert forall|j: int| 0 <= j < len - start implies #[trigger] rem[j] != sep by {
            assert(rem[j] == s@[j + start]);
        }
        lemma_no_sep_prefix(rem, len - start, sep);
        lemma_first_sep_bounds(rem, sep);
        assert(first_sep(rem, sep) == rem.len());
        lemma_sep_tokens_split(rem, sep);
        assert(rem =~= s@.subrange(start as int, len as int));
    }
    let tok = s.substring_char(start, len).to_owned();
    out.push(tok);
    proof {
        assert(strings_view(out@) =~= strings_view(out@.drop_last()).push(
            s@.subrange(start as int, len as int),
        ));
        assert(strings_view(out@.drop_last()) + seq![s@.subrange(start as int, len as int)]
            =~= strings_view(out@));
    }
    out
}

/// The space-separated tokens of a counter field.
pub open spec fn space_tokens(s: Seq<char>) -> Seq<Seq<char>> {
    sep_tokens(s, ' ')
}

/// Split a string at single spaces, as `split(' ')` does.
pub fn split_spaces(s: &str) -> (r: Vec<String>)
    ensures
        strings_view(r@) == space_tokens(s@),
{
    split_char(s, ' ')
}

} // verus!
