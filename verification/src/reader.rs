//! Word source reader: extracts the sampled words from a line-oriented
//! source in one forward pass, reusing the previous word for repeated
//! offsets, and shuffles the extracted list.

use vstd::prelude::*;
use crate::rng::shuffle_strings;
use crate::sampler::sorted;

verus! {

/// One step of the forward scan: reuse the word just emitted, or skip
/// the given number of lines and take the next one.
#[derive(Clone, Copy, PartialEq, Eq, Structural, Debug)]
pub enum ReadStep {
    Reuse,
    Advance(usize),
}

/// The forward-scan plan for a sorted offset sequence: the first offset is
/// reached by skipping it whole; each later one either repeats (reuse) or
/// is reached by skipping the gap from its predecessor.
pub open spec fn plan_spec(s: Seq<usize>) -> Seq<ReadStep> {
    Seq::new(
        s.len(),
        |i: int|
            if i == 0 {
                ReadStep::Advance(s[0])
            } else if s[i] == s[i - 1] {
                ReadStep::Reuse
            } else {
                ReadStep::Advance((s[i] - s[i - 1] - 1) as usize)
            },
    )
}

/// How many source lines a plan consumes: a step that skips `k` lines and
/// takes the next consumes `k + 1`; a reuse consumes none.
pub open spec fn plan_reads(p: Seq<ReadStep>) -> nat
    decreases p.len(),
{
    if p.len() == 0 {
        0
    } else {
        plan_reads(p.drop_last()) + match p.last() {
            ReadStep::Reuse => 0nat,
            ReadStep::Advance(k) => k as nat + 1,
        }
    }
}

/// Computes the forward-scan plan for a sorted offset sequence.
pub fn skip_plan(indices: &Vec<usize>) -> (r: Vec<ReadStep>)
    requires
        sorted(indices@),
    ensures
        r@ == plan_spec(indices@),
{
    let mut out: Vec<ReadStep> = Vec::new();
    let mut i: usize = 0;
    while i < indices.len()
        invariant
            sorted(indices@),
            i <= indices@.len(),
            out@ == plan_spec(indices@).take(i as int),
        decreases indices@.len() - i,
    {
        let idx = indices[i];
        if i == 0 {
            out.push(ReadStep::Advance(idx));
        } else if idx == indices[i - 1] {
            out.push(ReadStep::Reuse);
        } else {
            out.push(ReadStep::Advance(idx - indices[i - 1] - 1));
        }
        proof {
            assert(out@ =~= plan_spec(indices@).take(i + 1));
        }
        i = i + 1;
    }
    proof {
        assert(plan_spec(indices@).take(indices@.len() as int) =~= plan_spec(indices@));
    }
    out
}

/// A sorted scan consumes exactly one line past its largest offset, so it
/// never reads beyond that offset; within a bound on the offsets, it never
/// consumes more lines than the bound.
pub proof fn lemma_forward_pass_bounded(s: Seq<usize>, bound: usize)
    requires
        sorted(s),
        s.len() > 0,
        forall|i: int| 0 <= i < s.len() ==> s[i] < bound,
    ensures
        plan_reads(plan_spec(s)) == s.last() + 1,
        plan_reads(plan_spec(s)) <= bound,
    decreases s.len(),
{
    if s.len() == 1 {
        let p = plan_spec(s);
        assert(p.drop_last().len() == 0);
        assert(plan_reads(p.drop_last()) == 0);
        assert(p.last() == ReadStep::Advance(s[0]));
        assert(plan_reads(p) == plan_reads(p.drop_last()) + (s[0] + 1));
    } else {
        let pre = s.drop_last();
        assert(sorted(pre));
        assert(forall|i: int| 0 <= i < pre.len() ==> pre[i] < bound);
        lemma_forward_pass_bounded(pre, bound);
        assert(plan_spec(s).drop_last() =~= plan_spec(pre));
        let n = s.len() as int;
        if s[n - 1] == s[n - 2] {
            assert(plan_spec(s).last() == ReadStep::Reuse);
        } else {
            assert(plan_spec(s).last() == ReadStep::Advance((s[n - 1] - s[n - 2] - 1) as usize));
        }
    }
}

/// Extracts the word at each sampled offset from the source lines, walking
/// the source with a cursor that only moves forward; a repeated offset
/// clones the word just emitted instead of reading again.
pub fn extract_words(indices: &Vec<usize>, lines: &Vec<String>) -> (r: Vec<String>)
    requires
        sorted(indices@),
        forall|i: int| 0 <= i < indices@.len() ==> indices@[i] < lines@.len(),
    ensures
        r@.len() == indices@.len(),
        forall|i: int| 0 <= i < r@.len() ==> r@[i]@ == lines@[indices@[i] as int]@,
{
    let mut out: Vec<String> = Vec::new();
    let mut i: usize = 0;
    while i < indices.len()
        invariant
            sorted(indices@),
            forall|j: int| 0 <= j < indices@.len() ==> indices@[j] < lines@.len(),
            i <= indices@.len(),
            out@.len() == i,
            forall|j: int| 0 <= j < i ==> out@[j]@ == lines@[indices@[j] as int]@,
        decreases indices@.len() - i,
    {
        let idx = indices[i];
        if i > 0 && idx == indices[i - 1] {
            let w = out[i - 1].clone();
            out.push(w);
        } else {
            let w = lines[idx].clone();
            out.push(w);
        }
        i = i + 1;
    }
    out
}

/// Puts the extracted words in uniformly random order, in place. The
/// multiset of words is untouched; only their order changes.
pub fn shuffle_words(words: &mut Vec<String>)
    ensures
        final(words)@.to_multiset() == old(words)@.to_multiset(),
        final(words)@.len() == old(words)@.len(),
{
    shuffle_strings(words);
}

/// Whether `w` is the content of one of the first `pool` source lines.
pub open spec fn from_pool(w: Seq<char>, lines: Seq<String>, pool: nat) -> bool {
    exists|j: int| 0 <= j < pool && w == #[trigger] lines[j]@
}

/// `r` is a reordering of the words at some sorted sample of `length`
/// offsets drawn from the first `pool` source lines.
pub open spec fn sampled_permutation(
    r: Seq<String>,
    lines: Seq<String>,
    length: nat,
    pool: nat,
) -> bool {
    exists|idx: Seq<usize>, pre: Seq<String>|
        #![trigger sorted(idx), pre.to_multiset()]
        {
            &&& idx.len() == length
            &&& sorted(idx)
            &&& forall|k: int| 0 <= k < idx.len() ==> (#[trigger] idx[k]) < pool
            &&& pre.len() == length
            &&& forall|k: int| 0 <= k < pre.len() ==> (#[trigger] pre[k])@ == lines[idx[k] as int]@
            &&& r.to_multiset() == pre.to_multiset()
        }
}

/// Samples, extracts and shuffles: the full word preparation of a test.
/// Every returned word is one of the first `word_pool` source lines.
pub fn get_shuffled_words(lines: &Vec<String>, length: usize, word_pool: usize) -> (r: Vec<String>)
    requires
        1 <= word_pool <= lines@.len(),
    ensures
        r@.len() == length,
        forall|i: int| 0 <= i < r@.len() ==> from_pool(#[trigger] r@[i]@, lines@, word_pool as nat),
        sampled_permutation(r@, lines@, length as nat, word_pool as nat),
{
    let idxs = crate::sampler::sample_sorted(length, word_pool);
    let mut words = extract_words(&idxs, lines);
    let ghost before = words@;
    shuffle_words(&mut words);
    proof {
        broadcast use vstd::seq_lib::group_to_multiset_ensures;

        assert forall|i: int| 0 <= i < words@.len() implies from_pool(
            #[trigger] words@[i]@,
            lines@,
            word_pool as nat,
        ) by {
            assert(words@.contains(words@[i]));
            assert(words@.to_multiset().count(words@[i]) > 0);
            assert(before.to_multiset().count(words@[i]) > 0);
            assert(before.contains(words@[i]));
            let k = choose|k: int| 0 <= k < before.len() && before[k] == words@[i];
            assert(before[k]@ == lines@[idxs@[k] as int]@);
            assert(0 <= idxs@[k] < word_pool && words@[i]@ == lines@[idxs@[k] as int]@);
            assert(from_pool(words@[i]@, lines@, word_pool as nat));
        }
        assert(sampled_permutation(words@, lines@, length as nat, word_pool as nat)) by {
            assert(sorted(idxs@));
            assert(before.to_multiset() == words@.to_multiset());
            assert(forall|k: int|
                0 <= k < before.len() ==> (#[trigger] before[k])@ == lines@[idxs@[k] as int]@);
        }
    }
    words
}

} // verus!
