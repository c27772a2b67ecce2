use vstd::prelude::*;

use vstd::multiset::Multiset;
use vstd::seq_lib::lemma_multiset_commutative;
use crate::candidate::{score_candidate, score_spec, Candidate};

verus! {

/// Scores never increase along the sequence.
pub open spec fn sorted_desc(s: Seq<Candidate>) -> bool {
    forall|a: int, b: int|
        0 <= a <= b < s.len() ==> score_spec(s[a].metrics) >= score_spec(s[b].metrics)
}

/// `p` maps each position of `t` to the position of `s` its element
/// came from: a bijective rearrangement witness.
pub open spec fn permutation_of(s: Seq<Candidate>, t: Seq<Candidate>, p: Seq<int>) -> bool {
    &&& p.len() == t.len()
    &&& t.len() == s.len()
    &&& forall|k: int| 0 <= k < p.len() ==> 0 <= #[trigger] p[k] < s.len()
    &&& forall|a: int, b: int| 0 <= a < b < p.len() ==> p[a] != p[b]
    &&& forall|k: int| 0 <= k < p.len() ==> t[k] == s[#[trigger] p[k]]
}

/// The tie-break rule: where two positions of the output tie on score,
/// the earlier one came from the earlier input position.
pub open spec fn stable_on_ties(t: Seq<Candidate>, p: Seq<int>) -> bool {
    forall|a: int, b: int|
        0 <= a < b < p.len() && score_spec(#[trigger] t[a].metrics) == score_spec(
            #[trigger] t[b].metrics,
        ) ==> p[a] < p[b]
}

proof fn lemma_insert_multiset(s: Seq<Candidate>, j: int, x: Candidate)
    requires
        0 <= j <= s.len(),
    ensures
        s.insert(j, x).to_multiset() == s.to_multiset().insert(x),
{
    broadcast use vstd::seq_lib::group_to_multiset_ensures;

    assert(s.insert(j, x) =~= s.take(j) + (seq![x] + s.skip(j)));
    lemma_multiset_commutative(s.take(j), seq![x] + s.skip(j));
    lemma_multiset_commutative(seq![x], s.skip(j));
    assert(s =~= s.take(j) + s.skip(j));
    lemma_multiset_commutative(s.take(j), s.skip(j));
    assert(seq![x] =~= Seq::<Candidate>::empty().push(x));
    assert(Seq::<Candidate>::empty().to_multiset() =~= Multiset::<Candidate>::empty());
    assert(seq![x].to_multiset() == Multiset::<Candidate>::empty().insert(x));
    assert(s.insert(j, x).to_multiset() =~= s.to_multiset().insert(x));
}

/// Sort the candidates by non-increasing score. The sort is stable —
/// an element is inserted after every earlier element whose score is
/// at least its own, so equal scores keep their original relative
/// order — and the contract states this through a permutation witness.
pub fn sort_by_score_desc(v: &mut Vec<Candidate>)
    ensures
        final(v)@.len() == old(v)@.len(),
        final(v)@.to_multiset() == old(v)@.to_multiset(),
        sorted_desc(final(v)@),
        exists|p: Seq<int>| permutation_of(old(v)@, final(v)@, p) && stable_on_ties(final(v)@, p),
{
    broadcast use vstd::seq_lib::group_to_multiset_ensures;

    let ghost idp: Seq<int> = Seq::new(v@.len() as nat, |k: int| k);
    if v.len() <= 1 {
        proof {
            assert(permutation_of(v@, v@, idp) && stable_on_ties(v@, idp));
        }
        return;
    }
    let ghost mut perm: Seq<int> = idp;
    let mut i: usize = 1;
    while i < v.len()
        invariant
            1 <= i <= v@.len(),
            v@.len() == old(v)@.len(),
            v@.to_multiset() == old(v)@.to_multiset(),
            sorted_desc(v@.take(i as int)),
            perm.len() == v@.len(),
            forall|k: int| 0 <= k < perm.len() ==> 0 <= #[trigger] perm[k] < perm.len(),
            forall|a: int, b: int| 0 <= a < b < perm.len() ==> perm[a] != perm[b],
            forall|k: int| 0 <= k < perm.len() ==> v@[k] == old(v)@[#[trigger] perm[k]],
            forall|k: int| i <= k < perm.len() ==> #[trigger] perm[k] == k,
            forall|k: int| 0 <= k < i ==> #[trigger] perm[k] < i,
            forall|a: int, b: int|
                0 <= a < b < i && score_spec(#[trigger] v@[a].metrics) == score_spec(
                    #[trigger] v@[b].metrics,
                ) ==> perm[a] < perm[b],
        decreases v@.len() - i,
    {
        let ghost pre = v@;
        let ghost perm_pre = perm;
        let x = v.remove(i);
        proof {
            broadcast use vstd::seq_lib::group_to_multiset_ensures;

            assert(pre.remove(i as int).to_multiset() == pre.to_multiset().remove(pre[i as int]));
            assert(v@.take(i as int) =~= pre.take(i as int));
            perm = perm.remove(i as int);
            assert(forall|k: int| 0 <= k < i ==> #[trigger] perm[k] == perm_pre[k]);
            assert(forall|k: int| i <= k < perm.len() ==> #[trigger] perm[k] == perm_pre[k + 1]);
        }
        let score_x = score_candidate(&x);
        let mut j: usize = 0;
        while j < i && score_candidate(&v[j]) >= score_x
            invariant
                j <= i <= v@.len(),
                score_x == score_spec(x.metrics),
                sorted_desc(v@.take(i as int)),
                forall|k: int| 0 <= k < j ==> score_spec(v@[k].metrics) >= score_spec(x.metrics),
            decreases i - j,
        {
            j = j + 1;
        }
        let ghost mid = v@;
        let ghost perm_mid = perm;
        proof {
            lemma_insert_multiset(mid, j as int, x);
            perm = perm.insert(j as int, i as int);
            assert(forall|k: int| 0 <= k < j ==> #[trigger] perm[k] == perm_mid[k]);
            assert(perm[j as int] == i as int);
            assert(forall|k: int| j < k < perm.len() ==> #[trigger] perm[k] == perm_mid[k - 1]);
        }
        v.insert(j, x);
        proof {
            broadcast use vstd::seq_lib::group_to_multiset_ensures;

            // the restored multiset
            assert(pre.to_multiset().contains(pre[i as int]));
            assert(v@.to_multiset() =~= pre.to_multiset());
            // the grown prefix is still sorted
            let s2 = v@.take(i as int + 1);
            let ji = j as int;
            let ii = i as int;
            assert(v@ == mid.insert(ji, x));
            assert(forall|k: int| 0 <= k <= ii ==> s2[k] == v@[k]);
            assert(forall|k: int| 0 <= k < ji ==> v@[k] == mid[k]);
            assert(v@[ji] == x);
            assert(forall|k: int| ji < k <= ii ==> v@[k] == mid[k - 1]);
            assert(forall|k: int| 0 <= k < ii ==> mid.take(ii)[k] == mid[k]);
            assert forall|a: int, b: int|
                0 <= a <= b < s2.len() implies #[trigger] score_spec(s2[a].metrics)
                >= #[trigger] score_spec(s2[b].metrics) by {
                if b < ji {
                    assert(score_spec(mid.take(ii)[a].metrics) >= score_spec(
                        mid.take(ii)[b].metrics,
                    ));
                } else if a < ji && b == ji {
                    assert(score_spec(mid[a].metrics) >= score_spec(x.metrics));
                } else if a < ji && b > ji {
                    assert(score_spec(mid.take(ii)[a].metrics) >= score_spec(
                        mid.take(ii)[b - 1].metrics,
                    ));
                } else if a == ji && b > ji {
                    assert(score_spec(mid[ji].metrics) < score_spec(x.metrics));
                    assert(score_spec(mid.take(ii)[ji].metrics) >= score_spec(
                        mid.take(ii)[b - 1].metrics,
                    ));
                } else if a > ji {
                    assert(score_spec(mid.take(ii)[a - 1].metrics) >= score_spec(
                        mid.take(ii)[b - 1].metrics,
                    ));
                }
            }
            assert(sorted_desc(s2));
            // the permutation witness keeps its shape
            assert(forall|k: int| 0 <= k <= ii ==> perm[k] <= ii);
            assert(forall|k: int| ii < k < perm.len() ==> #[trigger] perm[k] == k);
            assert forall|a: int, b: int| 0 <= a < b < perm.len() implies perm[a] != perm[b] by {
                if b <= ii {
                    if a < ji && b < ji {
                        assert(perm[a] == perm_mid[a] && perm[b] == perm_mid[b]);
                    } else if a < ji && b == ji {
                        assert(perm[a] == perm_mid[a] && perm_mid[a] < ii);
                    } else if a < ji && b > ji {
                        assert(perm[a] == perm_mid[a] && perm[b] == perm_mid[b - 1]);
                    } else if a == ji {
                        assert(perm[b] == perm_mid[b - 1] && perm_mid[b - 1] < ii);
                    } else {
                        assert(perm[a] == perm_mid[a - 1] && perm[b] == perm_mid[b - 1]);
                    }
                } else if a <= ii {
                    assert(perm[a] <= ii && perm[b] == b);
                }
            }
            assert forall|k: int| 0 <= k < perm.len() implies v@[k] == old(v)@[
                #[trigger] perm[k]
            ] by {
                if k < ji {
                    assert(v@[k] == mid[k] && perm[k] == perm_mid[k]);
                } else if k == ji {
                    assert(v@[k] == x && perm[k] == i as int);
                    assert(x == pre[ii] && pre[ii] == old(v)@[perm_pre[ii]]);
                    assert(perm_pre[ii] == ii);
                } else {
                    assert(v@[k] == mid[k - 1] && perm[k] == perm_mid[k - 1]);
                }
            }
            // ties keep their input order on the grown prefix
            assert forall|a: int, b: int|
                0 <= a < b < i + 1 && score_spec(#[trigger] v@[a].metrics) == score_spec(
                    #[trigger] v@[b].metrics,
                ) implies perm[a] < perm[b] by {
                if b < ji {
                    assert(v@[a] == mid[a] && v@[b] == mid[b]);
                    assert(perm[a] == perm_mid[a] && perm[b] == perm_mid[b]);
                } else if a < ji && b == ji {
                    assert(perm[a] == perm_mid[a] && perm_mid[a] < ii);
                    assert(perm[b] == ii);
                } else if a < ji && b > ji {
                    assert(v@[a] == mid[a] && v@[b] == mid[b - 1]);
                    assert(perm[a] == perm_mid[a] && perm[b] == perm_mid[b - 1]);
                } else if a == ji && b > ji {
                    // scores strictly drop past the insertion point
                    assert(score_spec(mid[ji].metrics) < score_spec(x.metrics));
                    assert(score_spec(mid.take(ii)[ji].metrics) >= score_spec(
                        mid.take(ii)[b - 1].metrics,
                    ));
                    assert(false);
                } else {
                    assert(v@[a] == mid[a - 1] && v@[b] == mid[b - 1]);
                    assert(perm[a] == perm_mid[a - 1] && perm[b] == perm_mid[b - 1]);
                }
            }
        }
        i = i + 1;
    }
    proof {
        assert(v@.take(v@.len() as int) =~= v@);
        assert(permutation_of(old(v)@, v@, perm) && stable_on_ties(v@, perm));
    }
}

/// Keep the `top_k` best-scoring candidates: the result is a sorted
/// prefix of a stably sorted rearrangement of the input (ties keep
/// emission order), and its length is `top_k` clamped to the
/// population size.
pub fn top_candidates(cands: Vec<Candidate>, top_k: usize) -> (r: Vec<Candidate>)
    ensures
        r@.len() == if top_k <= cands@.len() {
            top_k as int
        } else {
            cands@.len() as int
        },
        sorted_desc(r@),
        exists|s: Seq<Candidate>, p: Seq<int>|
            s.to_multiset() == cands@.to_multiset() && permutation_of(cands@, s, p)
                && stable_on_ties(s, p) && sorted_desc(s) && r@ == s.take(r@.len() as int),
{
    let mut v = cands;
    sort_by_score_desc(&mut v);
    let ghost s = v@;
    let ghost p = choose|p: Seq<int>| permutation_of(cands@, s, p) && stable_on_ties(s, p);
    if top_k < v.len() {
        v.truncate(top_k);
    }
    proof {
        if top_k >= s.len() {
            assert(v@ =~= s.take(v@.len() as int));
        }
        assert(s.to_multiset() == cands@.to_multiset() && permutation_of(cands@, s, p)
            && stable_on_ties(s, p) && sorted_desc(s) && v@ == s.take(v@.len() as int));
    }
    v
}

} // verus!
