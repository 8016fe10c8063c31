//! Greedy CTC decoding of the recognition model's best class per time step.
use vstd::prelude::*;

use crate::strings::push_char;

verus! {

/// The class a time step is compared with: the one before it, or none
/// (written as `usize::MAX`) for the first.
pub open spec fn previous_class(idx: Seq<usize>, t: int) -> usize {
    if t > 0 { idx[t - 1] } else { usize::MAX }
}

/// The time steps whose class greedy CTC decoding keeps: a class that repeats
/// the one before it, the blank (class 0) and classes outside the dictionary
/// are dropped.
pub open spec fn ctc_kept(idx: Seq<usize>, dict_len: nat) -> Seq<int>
    decreases idx.len(),
{
    if idx.len() == 0 {
        seq![]
    } else {
        let t = idx.len() - 1;
        let before = ctc_kept(idx.drop_last(), dict_len);
        let c = idx[t];
        if previous_class(idx, t) == c || c == 0 || c >= dict_len {
            before
        } else {
            before.push(t)
        }
    }
}

/// The decoded text: the dictionary characters of the kept time steps.
pub open spec fn ctc_text(idx: Seq<usize>, dict: Seq<char>) -> Seq<char> {
    ctc_kept(idx, dict.len()).map_values(|t: int| dict[idx[t] as int])
}

proof fn lemma_ctc_kept_bounds(idx: Seq<usize>, dict_len: nat)
    ensures
        forall|k: int| 0 <= k < ctc_kept(idx, dict_len).len() ==> {
            let t = #[trigger] ctc_kept(idx, dict_len)[k];
            &&& 0 <= t < idx.len()
            &&& 0 < idx[t] < dict_len
        },
    decreases idx.len(),
{
    if idx.len() > 0 {
        let d = idx.drop_last();
        lemma_ctc_kept_bounds(d, dict_len);
        assert forall|k: int| 0 <= k < ctc_kept(d, dict_len).len() implies idx[#[trigger] ctc_kept(d, dict_len)[k]]
            == d[ctc_kept(d, dict_len)[k]] by {}
    }
}

/// Greedy CTC decoding of the best class of each time step: the decoded text,
/// and the time steps it was read from (whose scores the caller averages).
pub fn ctc_decode(indices: &[usize], dict: &[char]) -> (r: (String, Vec<usize>))
    ensures
        r.0@ == ctc_text(indices@, dict@),
        r.1@.len() == ctc_kept(indices@, dict@.len()).len(),
        forall|k: int| 0 <= k < r.1@.len() ==> r.1@[k] == ctc_kept(indices@, dict@.len())[k],
{
    let mut text = String::new();
    let mut kept: Vec<usize> = Vec::new();
    let mut prev: usize = usize::MAX;
    let mut t: usize = 0;
    let ghost n = dict@.len();
    while t < indices.len()
        invariant
            t <= indices@.len(),
            n == dict@.len(),
            prev == previous_class(indices@, t as int),
            kept@.len() == ctc_kept(indices@.take(t as int), n).len(),
            forall|k: int| 0 <= k < kept@.len() ==> kept@[k] == ctc_kept(indices@.take(t as int), n)[k],
            text@ == ctc_kept(indices@.take(t as int), n).map_values(|j: int| dict@[indices@[j] as int]),
        decreases indices@.len() - t,
    {
        let c = indices[t];
        let ghost pre = indices@.take(t as int);
        let ghost cur = indices@.take(t + 1);
        assert(cur.drop_last() =~= pre);
        assert(previous_class(cur, t as int) == prev);
        proof {
            lemma_ctc_kept_bounds(pre, n);
        }
        if c != prev && c != 0 && c < dict.len() {
            let ghost kb = ctc_kept(pre, n);
            push_char(&mut text, dict[c]);
            kept.push(t);
            assert(ctc_kept(cur, n) == kb.push(t as int));
            assert(text@ =~= ctc_kept(cur, n).map_values(|j: int| dict@[indices@[j] as int])) by {
                assert forall|k: int| 0 <= k < kb.len() implies kb[k] < t && indices@[kb[k]] == pre[kb[k]] by {}
            }
        } else {
            assert(ctc_kept(cur, n) == ctc_kept(pre, n));
        }
        prev = c;
        t += 1;
    }
    assert(indices@.take(t as int) =~= indices@);
    (text, kept)
}

} // verus!
