use vstd::prelude::*;
use vstd::set_lib::{set_int_range, lemma_int_range, lemma_len_subset, lemma_set_disjoint_lens};
use crate::raft_state::{RaftState, grants_vote};
use crate::storage::opt_text;

verus! {

/// A node that has voted for one candidate in its current term grants no
/// other candidate a vote in that term.
pub proof fn law_one_vote_per_term(
    s: RaftState,
    first: Seq<char>,
    other: Seq<char>,
    last_log_index: u64,
    last_log_term: u64,
)
    requires
        opt_text(s.voted_for) == Some(first),
        first != other,
    ensures
        !grants_vote(s, other, s.current_term, last_log_index, last_log_term),
{
}

/// Two strict majorities of the nodes `0..n` share a node. With one vote
/// per node and term, two candidates cannot both win the same term.
pub proof fn law_majorities_intersect(n: int, a: Set<int>, b: Set<int>)
    requires
        n >= 0,
        a.subset_of(set_int_range(0, n)),
        b.subset_of(set_int_range(0, n)),
        a.len() > n / 2,
        b.len() > n / 2,
    ensures
        exists|x: int| a.contains(x) && b.contains(x),
{
    lemma_int_range(0, n);
    lemma_len_subset(a, set_int_range(0, n));
    lemma_len_subset(b, set_int_range(0, n));
    lemma_len_subset(a + b, set_int_range(0, n));
    if !(exists|x: int| a.contains(x) && b.contains(x)) {
        assert(a.disjoint(b));
        lemma_set_disjoint_lens(a, b);
        assert((a + b).len() == a.len() + b.len());
    }
}

} // verus!
