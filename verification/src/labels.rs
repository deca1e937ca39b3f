//! Label sets and their canonical form.
//!
//! A label set is a list of `(name, value)` pairs. The rolling-window
//! smoother keys its per-label-set state by a canonicalised copy: the pairs
//! sorted lexicographically by name and then by value, so that two label
//! sets with the same pairs in different orders share one window.

use vstd::prelude::*;
use crate::text::{lex_le, lemma_lex_le_total, lemma_lex_le_trans, str_lex_le, str_eq};

verus! {

pub type PairView = (Seq<char>, Seq<char>);

pub open spec fn pair_view(p: (String, String)) -> PairView {
    (p.0@, p.1@)
}

pub open spec fn labels_view(v: Seq<(String, String)>) -> Seq<PairView> {
    v.map(|i: int, p: (String, String)| pair_view(p))
}

/// Order on pairs: by name, then by value.
pub open spec fn pair_le(a: PairView, b: PairView) -> bool {
    if a.0 == b.0 {
        lex_le(a.1, b.1)
    } else {
        lex_le(a.0, b.0)
    }
}

pub open spec fn pairs_sorted(s: Seq<PairView>) -> bool {
    forall|i: int, j: int| 0 <= i <= j < s.len() ==> pair_le(#[trigger] s[i], #[trigger] s[j])
}

pub proof fn lemma_lex_le_antisym(a: Seq<char>, b: Seq<char>)
    requires
        lex_le(a, b),
        lex_le(b, a),
    ensures
        a == b,
    decreases a.len(),
{
    if a.len() == 0 {
        assert(b.len() == 0);
        assert(a =~= b);
    } else {
        assert(b.len() > 0);
        assert((a[0] as u32) == (b[0] as u32));
        assert(a[0] == b[0]) by {
            vstd::utf8::char_u32_cast(a[0], a[0] as u32);
            vstd::utf8::char_u32_cast(b[0], b[0] as u32);
        }
        lemma_lex_le_antisym(a.skip(1), b.skip(1));
        assert(a =~= seq![a[0]] + a.skip(1));
        assert(b =~= seq![b[0]] + b.skip(1));
    }
}

pub proof fn lemma_pair_le_total(a: PairView, b: PairView)
    ensures
        pair_le(a, b) || pair_le(b, a),
{
    lemma_lex_le_total(a.0, b.0);
    lemma_lex_le_total(a.1, b.1);
}

pub proof fn lemma_pair_le_trans(a: PairView, b: PairView, c: PairView)
    requires
        pair_le(a, b),
        pair_le(b, c),
    ensures
        pair_le(a, c),
{
    if a.0 == b.0 && b.0 == c.0 {
        lemma_lex_le_trans(a.1, b.1, c.1);
    } else if a.0 == b.0 {
    } else if b.0 == c.0 {
    } else {
        lemma_lex_le_trans(a.0, b.0, c.0);
        if a.0 == c.0 {
            lemma_lex_le_antisym(a.0, b.0);
        }
    }
}

/// A canonicalised label set.
#[derive(Clone, Debug)]
pub struct LabelKey {
    pub pairs: Vec<(String, String)>,
}

impl View for LabelKey {
    type V = Seq<PairView>;

    open spec fn view(&self) -> Seq<PairView> {
        labels_view(self.pairs@)
    }
}

fn pair_le_exec(a: &(String, String), b: &(String, String)) -> (r: bool)
    ensures
        r == pair_le(pair_view(*a), pair_view(*b)),
{
    if str_eq(a.0.as_str(), b.0.as_str()) {
        str_lex_le(a.1.as_str(), b.1.as_str())
    } else {
        str_lex_le(a.0.as_str(), b.0.as_str())
    }
}

pub fn label_key_eq(a: &LabelKey, b: &LabelKey) -> (r: bool)
    ensures
        r == (a@ == b@),
{
    let n = a.pairs.len();
    if n != b.pairs.len() {
        proof {
            assert(a@.len() == a.pairs@.len());
            assert(b@.len() == b.pairs@.len());
        }
        return false;
    }
    let mut i: usize = 0;
    while i < n
        invariant
            0 <= i <= n,
            n == a.pairs@.len(),
            n == b.pairs@.len(),
            forall|j: int| 0 <= j < i ==> a@[j] == b@[j],
        decreases n - i,
    {
        let nm = str_eq(a.pairs[i].0.as_str(), b.pairs[i].0.as_str());
        let vl = str_eq(a.pairs[i].1.as_str(), b.pairs[i].1.as_str());
        if !nm || !vl {
            proof {
                if a@ == b@ {
                    assert(a@[i as int] == b@[i as int]);
                }
            }
            return false;
        }
        i = i + 1;
    }
    proof {
        assert(a@ =~= b@);
    }
    true
}

impl LabelKey {
    /// Canonicalise a label set: sort the pairs; the result is a sorted
    /// permutation of the input.
    #[verifier::loop_isolation(false)]
    pub fn from_labels(labels: &Vec<(String, String)>) -> (r: LabelKey)
        ensures
            pairs_sorted(r@),
            r@.to_multiset() == labels_view(labels@).to_multiset(),
            r@ == canon_labels(labels_view(labels@)),
    {
        broadcast use vstd::seq_lib::group_to_multiset_ensures;

        let mut out: Vec<(String, String)> = Vec::new();
        let n = labels.len();
        let mut i: usize = 0;
        while i < n
            invariant
                0 <= i <= n,
                pairs_sorted(labels_view(out@)),
                labels_view(out@).to_multiset() == labels_view(labels@.take(i as int)).to_multiset(),
            decreases n - i,
        {
            let item = (labels[i].0.clone(), labels[i].1.clone());
            let m = out.len();
            let mut p: usize = 0;
            while p < m
                invariant
                    0 <= p <= m,
                    m == out@.len(),
                    forall|j: int| 0 <= j < p ==> pair_le(#[trigger] labels_view(out@)[j], pair_view(item)),
                decreases m - p,
            {
                if !pair_le_exec(&out[p], &item) {
                    break ;
                }
                p = p + 1;
            }
            proof {
                let ov = labels_view(out@);
                let x = pair_view(item);
                if p < m {
                    lemma_pair_le_total(ov[p as int], x);
                }
                let nv = labels_view(out@.insert(p as int, item));
                assert(nv =~= ov.insert(p as int, x));
                assert forall|a: int, b: int| 0 <= a <= b < nv.len() implies pair_le(
                    #[trigger] nv[a],
                    #[trigger] nv[b],
                ) by {
                    if a < p && b == p {
                    } else if a == p && b > p {
                        lemma_pair_le_trans(x, ov[p as int], ov[b - 1]);
                    } else if a == p && b == p {
                        lemma_pair_le_total(x, x);
                    } else if a < p && b > p {
                        assert(pair_le(ov[a], ov[b - 1]));
                    } else if a > p || b < p {
                        assert(nv[a] == if a < p {
                            ov[a]
                        } else {
                            ov[a - 1]
                        });
                    }
                }
                lemma_to_multiset_insert(ov, p as int, x);
                assert(labels_view(labels@.take(i + 1)) =~= labels_view(labels@.take(i as int)).push(
                    x,
                ));
            }
            out.insert(p, item);
            i = i + 1;
        }
        proof {
            assert(labels@.take(n as int) =~= labels@);
            lemma_sorted_is_canon(labels_view(out@), labels_view(labels@));
        }
        LabelKey { pairs: out }
    }
}

/// The pair order as a relation value.
pub open spec fn pair_le_rel() -> spec_fn(PairView, PairView) -> bool {
    |a: PairView, b: PairView| pair_le(a, b)
}

/// The canonical form of a label set: its pairs in sorted order.
pub open spec fn canon_labels(s: Seq<PairView>) -> Seq<PairView> {
    s.sort_by(pair_le_rel())
}

pub proof fn lemma_pair_le_total_ordering()
    ensures
        vstd::relations::total_ordering(pair_le_rel()),
{
    let rel = pair_le_rel();
    assert forall|a: PairView| #[trigger] rel(a, a) by {
        lemma_pair_le_total(a, a);
    }
    assert forall|a: PairView, b: PairView| #[trigger] rel(a, b) && #[trigger] rel(b, a) implies a
        == b by {
        if a.0 == b.0 {
            lemma_lex_le_antisym(a.1, b.1);
            assert(a =~= b);
        } else {
            lemma_lex_le_antisym(a.0, b.0);
        }
    }
    assert forall|a: PairView, b: PairView, c: PairView|
        #[trigger] rel(a, b) && #[trigger] rel(b, c) implies rel(a, c) by {
        lemma_pair_le_trans(a, b, c);
    }
    assert forall|a: PairView, b: PairView| #![trigger rel(a, b)] true implies rel(a, b) || rel(
        b,
        a,
    ) by {
        lemma_pair_le_total(a, b);
    }
}

/// Two sorted sequences with the same multiset are equal, so `from_labels`
/// returns exactly the canonical form.
proof fn lemma_sorted_is_canon(s: Seq<PairView>, src: Seq<PairView>)
    requires
        pairs_sorted(s),
        s.to_multiset() == src.to_multiset(),
    ensures
        s == canon_labels(src),
{
    lemma_pair_le_total_ordering();
    let rel = pair_le_rel();
    src.lemma_sort_by_ensures(rel);
    assert(vstd::relations::sorted_by(s, rel));
    vstd::seq_lib::lemma_sorted_unique(s, canon_labels(src), rel);
}

/// Inserting anywhere adds one occurrence to the multiset.
proof fn lemma_to_multiset_insert<A>(s: Seq<A>, i: int, x: A)
    requires
        0 <= i <= s.len(),
    ensures
        s.insert(i, x).to_multiset() == s.to_multiset().insert(x),
{
    broadcast use vstd::seq_lib::group_to_multiset_ensures;
    broadcast use vstd::multiset::group_multiset_axioms;

    let t = s.insert(i, x);
    assert(t[i] == x);
    assert(t.remove(i) =~= s);
    assert(t.remove(i).to_multiset() =~= t.to_multiset().remove(x));
    assert(t.to_multiset().contains(x)) by {
        assert(t.contains(x));
    }
    assert(t.to_multiset().remove(x).insert(x) =~= t.to_multiset());
}

} // verus!
