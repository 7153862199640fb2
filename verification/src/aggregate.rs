//! Merging many agents' outputs into one verified result.
//!
//! The pipeline is deterministic: order outputs by dependency stage, drop
//! near-duplicates, cluster competing answers, surface the disagreements that survive,
//! and score confidence from what actually completed. No LLM judge is involved — a judge
//! agent only sees output that has already passed here.
//!
//! Similarities are compared as exact ratios. Sums and shares of confidences are left to the
//! program around this library and come in as [`Figures`].

use crate::figures::{Real32, ZERO_BITS};
use crate::graph::{GraphView, TaskGraph};
use crate::ids::TaskId;
use crate::job::{byte_count, byte_len, conflict_views, evidence_views, Conflict, ConflictView,
    Evidence, EvidenceView, ExecutionStatistics, ExecutionStrategy, FinalResult, FinalResultView,
    Job, JobStatus, JobView, StructuredOutput, StructuredOutputView};
use crate::json::clone_json;
use crate::order::{
    descending, find_last_highest, in_order, is_descending, last_highest, lemma_descending_complete,
    lemma_descending_exists, lemma_last_highest_exists, lemma_order_unique, sort_descending, whole,
};
use crate::task::{result_views, TaskKind, TaskResult, TaskResultView};
use crate::text::{chars_of, comes_before, decimal, decimal_text, first_chars, has_text, holds,
    lemma_text_before_irreflexive, lemma_text_before_total, lemma_text_before_transitive, lines,
    lines_from, lines_of, lowercase, pieces, same_text, split_from, split_on, split_pieces,
    split_str, stands_at, string_of, take_chars, text_before, trim_chars, trimmed, vec_views,
    views, Separator};
use crate::topology::ints;
use vstd::prelude::*;

verus! {

/// Cap on evidence carried into the final result.
pub const MAX_EVIDENCE: usize = 20;

/// The significant words of a text, for similarity comparison: those of more than three
/// bytes, in lower case.
pub open spec fn significant(text: Seq<char>) -> Set<Seq<char>> {
    Set::new(
        |word: Seq<char>|
            exists|k: int|
                0 <= k < pieces(text, Separator::Punctuation).len() && byte_count(
                    #[trigger] pieces(text, Separator::Punctuation)[k],
                ) > 3 && word == lowercase(pieces(text, Separator::Punctuation)[k]),
    )
}

/// The significant words among the first `n` pieces of a text.
spec fn significant_to(list: Seq<Seq<char>>, n: int) -> Set<Seq<char>> {
    Set::new(
        |word: Seq<char>|
            exists|k: int|
                0 <= k < n && byte_count(#[trigger] list[k]) > 3 && word == lowercase(list[k]),
    )
}

/// Significant words of a text, each once, for similarity comparison.
pub fn tokens(text: &str) -> (r: Vec<String>)
    ensures
        views(r@).no_duplicates(),
        views(r@).to_set() == significant(text@),
{
    let chars = chars_of(text);
    let list = split_pieces(&chars, Separator::Punctuation);
    let ghost cuts = vec_views(list@);
    let mut r: Vec<String> = Vec::new();
    proof {
        assert(views(r@).to_set() =~= significant_to(cuts, 0));
    }
    for i in 0..list.len()
        invariant
            cuts == vec_views(list@),
            cuts.len() == list@.len(),
            views(r@).no_duplicates(),
            views(r@).to_set() == significant_to(cuts, i as int),
    {
        let word = string_of(&list[i]);
        let ghost before = views(r@);
        let ghost grown = significant_to(cuts, i + 1);
        assert(word@ == cuts[i as int]);
        if byte_len(word.as_str()) > 3 {
            let lower = word.as_str().to_lowercase();
            assert(byte_count(cuts[i as int]) > 3);
            if !has_text(r.as_slice(), lower.as_str()) {
                let ghost text = lower@;
                r.push(lower);
                proof {
                    assert(views(r@) =~= before.push(text));
                    assert forall|x: Seq<char>| #[trigger] before.push(text).contains(x)
                        <==> before.contains(x) || x == text by {
                        if before.contains(x) {
                            let q = before.index_of(x);
                            assert(before.push(text)[q] == x);
                        }
                        assert(before.push(text)[before.len() as int] == text);
                    }
                }
            }
        }
        proof {
            assert forall|x: Seq<char>| views(r@).to_set().contains(x) <==> #[trigger] grown.contains(
                x,
            ) by {
                if grown.contains(x) {
                    let k = choose|k: int|
                        0 <= k < i + 1 && byte_count(#[trigger] cuts[k]) > 3 && x == lowercase(
                            cuts[k],
                        );
                    if k < i {
                        assert(significant_to(cuts, i as int).contains(x));
                    }
                }
                if significant_to(cuts, i as int).contains(x) {
                    let k = choose|k: int|
                        0 <= k < i && byte_count(#[trigger] cuts[k]) > 3 && x == lowercase(cuts[k]);
                    assert(0 <= k < i + 1);
                    assert(grown.contains(x));
                }
                assert(before.contains(x) <==> significant_to(cuts, i as int).contains(x));
            }
            assert(views(r@).to_set() =~= grown);
        }
    }
    assert(significant_to(cuts, cuts.len() as int) =~= significant(text@));
    r
}

/// Whether two sets of words are alike to at least `over` parts in `under`: how many words
/// they share of all the words in either. Two empty sets are wholly alike.
pub open spec fn alike(left: Set<Seq<char>>, right: Set<Seq<char>>, over: nat, under: nat) -> bool {
    (left.len() == 0 && right.len() == 0) || under * left.intersect(right).len() >= over
        * left.union(right).len()
}

/// Whether two sets of words are alike enough to be the same answer: sixty parts in a hundred.
pub open spec fn same_answer(left: Set<Seq<char>>, right: Set<Seq<char>>) -> bool {
    alike(left, right, 3, 5)
}

/// Whether one of two sets of words is redundant: eighty-five parts in a hundred.
pub open spec fn redundant(left: Set<Seq<char>>, right: Set<Seq<char>>) -> bool {
    alike(left, right, 17, 20)
}

/// Whether two answers are a genuine disagreement: no more than thirty parts in a hundred.
pub open spec fn disagree(left: Set<Seq<char>>, right: Set<Seq<char>>) -> bool {
    !(left.len() == 0 && right.len() == 0) && 10 * left.intersect(right).len() <= 3 * left.union(
        right,
    ).len()
}

/// How many words two lists share, and how many there are in either: what their similarity is
/// the ratio of.
pub fn overlap(left: &Vec<String>, right: &Vec<String>) -> (r: (u128, u128))
    requires
        views(left@).no_duplicates(),
        views(right@).no_duplicates(),
    ensures
        r.0 == views(left@).to_set().intersect(views(right@).to_set()).len(),
        r.1 == views(left@).to_set().union(views(right@).to_set()).len(),
        r.0 <= r.1 <= 0x2_0000_0000_0000_0000,
{
    let ghost l = views(left@);
    let ghost rr = views(right@);
    let mut shared: usize = 0;
    proof {
        assert(l.take(0).to_set().intersect(rr.to_set()) =~= Set::empty());
        l.unique_seq_to_set();
        rr.unique_seq_to_set();
    }
    for i in 0..left.len()
        invariant
            l == views(left@),
            l.len() == left@.len(),
            l.no_duplicates(),
            rr == views(right@),
            rr.to_set().finite(),
            shared <= i,
            l.take(i as int).to_set().intersect(rr.to_set()).finite(),
            shared == l.take(i as int).to_set().intersect(rr.to_set()).len(),
    {
        let ghost word = l[i as int];
        proof {
            let seen = l.take(i as int);
            assert(l.take(i + 1) =~= seen.push(word));
            assert(seen.push(word).to_set() =~= seen.to_set().insert(word)) by {
                assert forall|x: Seq<char>| #[trigger] seen.push(word).contains(x)
                    <==> seen.contains(x) || x == word by {
                    if seen.contains(x) {
                        let q = seen.index_of(x);
                        assert(seen.push(word)[q] == x);
                    }
                    assert(seen.push(word)[seen.len() as int] == word);
                }
            }
            assert(!seen.to_set().contains(word)) by {
                if seen.contains(word) {
                    let q = seen.index_of(word);
                    assert(l[q] == word);
                }
            }
            let before = seen.to_set().intersect(rr.to_set());
            let after = seen.to_set().insert(word).intersect(rr.to_set());
            if rr.contains(word) {
                assert(after =~= before.insert(word));
            } else {
                assert(after =~= before);
            }
        }
        if has_text(right.as_slice(), left[i].as_str()) {
            shared = shared + 1;
        }
    }
    proof {
        assert(l.take(l.len() as int) =~= l);
        vstd::set_lib::lemma_set_intersect_union_lens(l.to_set(), rr.to_set());
        assert(l.to_set() + rr.to_set() =~= l.to_set().union(rr.to_set()));
        vstd::set_lib::lemma_len_intersect(l.to_set(), rr.to_set());
        vstd::set_lib::lemma_len_intersect(rr.to_set(), l.to_set());
        assert(rr.to_set().intersect(l.to_set()) =~= l.to_set().intersect(rr.to_set()));
    }
    let total: u128 = left.len() as u128 + right.len() as u128 - shared as u128;
    (shared as u128, total)
}

/// Whether two lists of words are alike enough to be the same answer.
fn is_same_answer(left: &Vec<String>, right: &Vec<String>) -> (r: bool)
    requires
        views(left@).no_duplicates(),
        views(right@).no_duplicates(),
    ensures
        r == same_answer(views(left@).to_set(), views(right@).to_set()),
{
    let (shared, total) = overlap(left, right);
    proof {
        views(left@).unique_seq_to_set();
        views(right@).unique_seq_to_set();
    }
    (left.len() == 0 && right.len() == 0) || 5 * shared >= 3 * total
}

/// Whether one of two lists of words is redundant.
fn is_redundant(left: &Vec<String>, right: &Vec<String>) -> (r: bool)
    requires
        views(left@).no_duplicates(),
        views(right@).no_duplicates(),
    ensures
        r == redundant(views(left@).to_set(), views(right@).to_set()),
{
    let (shared, total) = overlap(left, right);
    proof {
        views(left@).unique_seq_to_set();
        views(right@).unique_seq_to_set();
    }
    (left.len() == 0 && right.len() == 0) || 20 * shared >= 17 * total
}

/// Whether two lists of words are a genuine disagreement.
fn is_disagreement(left: &Vec<String>, right: &Vec<String>) -> (r: bool)
    requires
        views(left@).no_duplicates(),
        views(right@).no_duplicates(),
    ensures
        r == disagree(views(left@).to_set(), views(right@).to_set()),
{
    let (shared, total) = overlap(left, right);
    proof {
        views(left@).unique_seq_to_set();
        views(right@).unique_seq_to_set();
    }
    !(left.len() == 0 && right.len() == 0) && 10 * shared <= 3 * total
}

/// What some results hold.
pub open spec fn seen_results(results: Seq<&TaskResult>) -> Seq<TaskResultView> {
    Seq::new(results.len(), |i: int| results[i]@)
}

/// The significant words of each output.
pub open spec fn prints_of(results: Seq<TaskResultView>) -> Seq<Set<Seq<char>>> {
    Seq::new(results.len(), |i: int| significant(results[i].output))
}

/// Whether an output says the same as some member of a cluster.
pub open spec fn belongs(prints: Seq<Set<Seq<char>>>, members: Seq<int>, index: int) -> bool {
    exists|m: int|
        0 <= m < members.len() && same_answer(prints[#[trigger] members[m]], prints[index])
}

/// Whether the cluster at `j` is the first that an output belongs to.
pub open spec fn is_home(
    prints: Seq<Set<Seq<char>>>,
    clusters: Seq<Seq<int>>,
    index: int,
    j: int,
) -> bool {
    &&& 0 <= j < clusters.len()
    &&& belongs(prints, clusters[j], index)
    &&& forall|i: int| 0 <= i < j ==> !belongs(prints, #[trigger] clusters[i], index)
}

/// The clusters after one more output found its place.
pub open spec fn placed(
    prints: Seq<Set<Seq<char>>>,
    clusters: Seq<Seq<int>>,
    index: int,
) -> Seq<Seq<int>> {
    if exists|j: int| #[trigger] is_home(prints, clusters, index, j) {
        let j = choose|j: int| #[trigger] is_home(prints, clusters, index, j);
        clusters.update(j, clusters[j].push(index))
    } else {
        clusters.push(seq![index])
    }
}

/// The groups of the first `n` outputs that say the same thing, each output joining the first
/// group that has a member it agrees with.
pub open spec fn clusters_to(prints: Seq<Set<Seq<char>>>, n: nat) -> Seq<Seq<int>>
    decreases n,
{
    if n == 0 {
        seq![]
    } else {
        placed(prints, clusters_to(prints, (n - 1) as nat), n - 1)
    }
}

/// The groups of results whose outputs say the same thing.
pub open spec fn clusters_of(results: Seq<TaskResultView>) -> Seq<Seq<int>> {
    clusters_to(prints_of(results), results.len())
}

/// Lists of positions as mathematical integers.
pub open spec fn int_lists(lists: Seq<Vec<usize>>) -> Seq<Seq<int>> {
    Seq::new(lists.len(), |i: int| ints(lists[i]@))
}

/// No cluster is empty, and every member is one of the outputs.
pub proof fn lemma_clusters(prints: Seq<Set<Seq<char>>>, n: nat)
    ensures
        forall|j: int|
            0 <= j < clusters_to(prints, n).len() ==> (#[trigger] clusters_to(prints, n)[j]).len()
                > 0,
        forall|j: int, m: int|
            0 <= j < clusters_to(prints, n).len() && 0 <= m < clusters_to(prints, n)[j].len()
                ==> 0 <= #[trigger] clusters_to(prints, n)[j][m] < n,
        clusters_to(prints, n).len() <= n,
        n > 0 ==> clusters_to(prints, n).len() > 0,
    decreases n,
{
    if n > 0 {
        let before = clusters_to(prints, (n - 1) as nat);
        let after = clusters_to(prints, n);
        lemma_clusters(prints, (n - 1) as nat);
        assert forall|j: int| 0 <= j < after.len() implies (#[trigger] after[j]).len() > 0 by {
            if j < before.len() {
                assert(before[j].len() > 0);
            }
        }
        assert forall|j: int, m: int| 0 <= j < after.len() && 0 <= m < after[j].len() implies 0
            <= #[trigger] after[j][m] < n by {
            if j < before.len() && m < before[j].len() {
                assert(0 <= before[j][m] < n - 1);
                assert(after[j][m] == before[j][m]);
            }
        }
    }
}

/// The words of each output.
fn prints(results: &[&TaskResult]) -> (r: Vec<Vec<String>>)
    ensures
        r@.len() == results@.len(),
        forall|i: int|
            0 <= i < r@.len() ==> views((#[trigger] r@[i])@).no_duplicates() && views(
                r@[i]@,
            ).to_set() == prints_of(seen_results(results@))[i],
{
    let mut r: Vec<Vec<String>> = Vec::new();
    for i in 0..results.len()
        invariant
            r@.len() == i,
            forall|k: int|
                0 <= k < i ==> views((#[trigger] r@[k])@).no_duplicates() && views(
                    r@[k]@,
                ).to_set() == prints_of(seen_results(results@))[k],
    {
        let words = tokens(results[i].output.as_str());
        assert(prints_of(seen_results(results@))[i as int] == significant(
            results@[i as int]@.output,
        ));
        r.push(words);
    }
    r
}

/// Greedily group results whose outputs say the same thing.
///
/// Greedy single-pass clustering is imprecise at the margins but stable and O(n·k),
/// which matters when 500 agents each produce an answer.
pub fn cluster(results: &[&TaskResult]) -> (r: Vec<Vec<usize>>)
    ensures
        int_lists(r@) == clusters_of(seen_results(results@)),
        r@.len() <= results@.len(),
        results@.len() > 0 ==> r@.len() > 0,
        forall|j: int| 0 <= j < r@.len() ==> (#[trigger] r@[j])@.len() > 0,
        forall|j: int, m: int|
            0 <= j < r@.len() && 0 <= m < r@[j]@.len() ==> #[trigger] r@[j]@[m] < results@.len(),
{
    let words = prints(results);
    let ghost all = prints_of(seen_results(results@));
    let mut clusters: Vec<Vec<usize>> = Vec::new();
    assert(int_lists(clusters@) =~= clusters_to(all, 0));
    for index in 0..results.len()
        invariant
            all == prints_of(seen_results(results@)),
            words@.len() == results@.len(),
            forall|i: int|
                0 <= i < words@.len() ==> views((#[trigger] words@[i])@).no_duplicates() && views(
                    words@[i]@,
                ).to_set() == all[i],
            int_lists(clusters@) == clusters_to(all, index as nat),
    {
        let ghost before = int_lists(clusters@);
        proof {
            lemma_clusters(all, index as nat);
        }
        let mut home: Option<usize> = None;
        let mut j: usize = 0;
        while j < clusters.len() && home.is_none()
            invariant
                j <= clusters@.len(),
                index < words@.len(),
                before == int_lists(clusters@),
                all.len() == words@.len(),
                before == clusters_to(all, index as nat),
                forall|a: int, m: int|
                    0 <= a < before.len() && 0 <= m < before[a].len() ==> 0
                        <= #[trigger] before[a][m] < index,
                forall|i: int|
                    0 <= i < words@.len() ==> views((#[trigger] words@[i])@).no_duplicates()
                        && views(words@[i]@).to_set() == all[i],
                match home {
                    Some(h) => is_home(all, before, index as int, h as int),
                    None => forall|i: int|
                        0 <= i < j ==> !belongs(all, #[trigger] before[i], index as int),
                },
            decreases clusters@.len() - j + (if home is None {
                1int
            } else {
                0int
            }),
        {
            let members = &clusters[j];
            assert(before[j as int] == ints(members@));
            let mut found = false;
            let mut m: usize = 0;
            while m < members.len() && !found
                invariant
                    m <= members@.len(),
                    index < words@.len(),
                    all.len() == words@.len(),
                    before[j as int] == ints(members@),
                    0 <= j < before.len(),
                    forall|a: int, q: int|
                        0 <= a < before.len() && 0 <= q < before[a].len() ==> 0
                            <= #[trigger] before[a][q] < index,
                    forall|i: int|
                        0 <= i < words@.len() ==> views((#[trigger] words@[i])@).no_duplicates()
                            && views(words@[i]@).to_set() == all[i],
                    found ==> belongs(all, before[j as int], index as int),
                    !found ==> forall|q: int|
                        0 <= q < m ==> !same_answer(
                            all[#[trigger] before[j as int][q]],
                            all[index as int],
                        ),
                decreases members@.len() - m + (if found {
                    0int
                } else {
                    1int
                }),
            {
                assert(before[j as int][m as int] == members@[m as int]);
                let member: usize = members[m];
                if is_same_answer(&words[member], &words[index]) {
                    found = true;
                } else {
                    m = m + 1;
                }
            }
            if found {
                home = Some(j);
            } else {
                j = j + 1;
            }
        }
        match home {
            Some(h) => {
                proof {
                    assert(is_home(all, before, index as int, h as int));
                    let k = choose|k: int| #[trigger] is_home(all, before, index as int, k);
                    assert(is_home(all, before, index as int, k));
                    if k < h {
                        assert(!belongs(all, before[k], index as int));
                    } else if h < k {
                        assert(!belongs(all, before[h as int], index as int));
                    }
                }
                let ghost members = clusters@[h as int]@;
                clusters[h].push(index);
                proof {
                    assert(ints(members.push(index)) =~= ints(members).push(index as int));
                    assert(int_lists(clusters@) =~= before.update(
                        h as int,
                        before[h as int].push(index as int),
                    ));
                }
            },
            None => {
                proof {
                    assert forall|k: int| !#[trigger] is_home(all, before, index as int, k) by {
                        if is_home(all, before, index as int, k) {
                            assert(belongs(all, before[k], index as int));
                        }
                    }
                }
                let mut alone: Vec<usize> = Vec::new();
                alone.push(index);
                assert(ints(alone@) =~= seq![index as int]);
                clusters.push(alone);
                assert(int_lists(clusters@) =~= before.push(seq![index as int]));
            },
        }
    }
    proof {
        lemma_clusters(all, results@.len());
        let whole = int_lists(clusters@);
        assert(whole.len() == clusters@.len());
        assert forall|j: int| 0 <= j < clusters@.len() implies (
        #[trigger] clusters@[j])@.len() > 0 by {
            assert(whole[j] == ints(clusters@[j]@));
        }
        assert forall|j: int, m: int|
            0 <= j < clusters@.len() && 0 <= m < clusters@[j]@.len() implies #[trigger] clusters@[j]@[m]
            < results@.len() by {
            assert(whole[j] == ints(clusters@[j]@));
            assert(whole[j][m] == clusters@[j]@[m] as int);
        }
    }
    clusters
}

/// How agreement between competing answers was determined.
#[derive(Clone, Copy, Debug, PartialEq, Eq, Structural)]
pub enum ConsensusMode {
    /// The largest cluster of similar answers wins.
    Majority,
    /// The cluster with the most total confidence wins.
    ConfidenceWeighted,
}

/// What a cluster of answers weighs.
#[derive(Debug)]
pub struct Standing {
    /// The confidences of its members, added up.
    pub weight: Real32,
    /// Its share of the votes or of the weight, from zero to one.
    pub share: Real32,
    /// The share in per cent, as it is written.
    pub percent: String,
}

/// What a standing holds.
#[verifier::ext_equal]
pub struct StandingView {
    /// The confidences of its members, added up.
    pub weight: Real32,
    /// Its share.
    pub share: Real32,
    /// The share in per cent, as it is written.
    pub percent: Seq<char>,
}

impl View for Standing {
    type V = StandingView;

    open spec fn view(&self) -> StandingView {
        StandingView { weight: self.weight, share: self.share, percent: self.percent@ }
    }
}

/// What some standings hold.
pub open spec fn standing_views(list: Seq<Standing>) -> Seq<StandingView> {
    Seq::new(list.len(), |i: int| list[i]@)
}

/// The outcome of a consensus round.
#[derive(Debug)]
pub struct ConsensusReport {
    /// How the winner was chosen.
    pub mode: ConsensusMode,
    /// The winning answer.
    pub winner: String,
    /// Task that produced the winning answer.
    pub winning_task: TaskId,
    /// Share of votes (or weight) behind the winner, from zero to one.
    pub agreement_rate: Real32,
    /// The share in per cent, as it is written.
    pub agreement_percent: String,
    /// How many answers took part.
    pub votes: usize,
    /// How many distinct positions were found.
    pub distinct_positions: usize,
}

/// What a consensus report holds.
#[verifier::ext_equal]
pub struct ConsensusView {
    /// How the winner was chosen.
    pub mode: ConsensusMode,
    /// The winning answer.
    pub winner: Seq<char>,
    /// Task that produced the winning answer.
    pub winning_task: TaskId,
    /// Share behind the winner.
    pub agreement_rate: Real32,
    /// The share in per cent, as it is written.
    pub agreement_percent: Seq<char>,
    /// How many answers took part.
    pub votes: nat,
    /// How many distinct positions were found.
    pub distinct_positions: nat,
}

impl View for ConsensusReport {
    type V = ConsensusView;

    open spec fn view(&self) -> ConsensusView {
        ConsensusView {
            mode: self.mode,
            winner: self.winner@,
            winning_task: self.winning_task,
            agreement_rate: self.agreement_rate,
            agreement_percent: self.agreement_percent@,
            votes: self.votes as nat,
            distinct_positions: self.distinct_positions as nat,
        }
    }
}

/// How a cluster ranks: by its size, or by its weight.
pub open spec fn cluster_ranks(
    clusters: Seq<Seq<int>>,
    standings: Seq<StandingView>,
    mode: ConsensusMode,
) -> Seq<int> {
    Seq::new(
        clusters.len(),
        |j: int|
            match mode {
                ConsensusMode::Majority => clusters[j].len() as int,
                ConsensusMode::ConfidenceWeighted => standings[j].weight.rank(),
            },
    )
}

/// How confident the members of a cluster are.
pub open spec fn member_ranks(results: Seq<TaskResultView>, members: Seq<int>) -> Seq<int> {
    Seq::new(members.len(), |m: int| results[members[m]].confidence.rank())
}

/// The outcome of a consensus round: nothing where there is nothing to decide.
pub open spec fn decided(
    results: Seq<TaskResultView>,
    mode: ConsensusMode,
    standings: Seq<StandingView>,
) -> Option<ConsensusView> {
    if results.len() < 2 {
        None
    } else {
        let clusters = clusters_of(results);
        let w = last_highest(cluster_ranks(clusters, standings, mode));
        let best = clusters[w][last_highest(member_ranks(results, clusters[w]))];
        Some(
            ConsensusView {
                mode,
                winner: results[best].output,
                winning_task: results[best].task_id,
                agreement_rate: standings[w].share,
                agreement_percent: standings[w].percent,
                votes: results.len(),
                distinct_positions: clusters.len(),
            },
        )
    }
}

/// What a report holds, if there is one.
pub open spec fn report_view(report: Option<ConsensusReport>) -> Option<ConsensusView> {
    match report {
        Some(report) => Some(report@),
        None => None,
    }
}

/// Decide between competing answers, given the standing of each cluster that [`cluster`]
/// makes of them.
///
/// Returns `None` when there is nothing to decide (fewer than two answers). Within the winning
/// position, the most confident phrasing represents it.
pub fn consensus(results: &[&TaskResult], mode: ConsensusMode, standings: &Vec<Standing>) -> (r:
    Option<ConsensusReport>)
    requires
        results@.len() >= 2 ==> standings@.len() == clusters_of(seen_results(results@)).len(),
    ensures
        report_view(r) == decided(seen_results(results@), mode, standing_views(standings@)),
{
    if results.len() < 2 {
        return None;
    }
    let ghost all = seen_results(results@);
    let ghost spread = clusters_of(all);
    let ghost stands = standing_views(standings@);
    let clusters = cluster(results);
    assert(int_lists(clusters@).len() == clusters@.len());
    let mut ranks: Vec<i128> = Vec::new();
    for j in 0..clusters.len()
        invariant
            ranks@.len() == j,
            spread == int_lists(clusters@),
            stands == standing_views(standings@),
            standings@.len() == clusters@.len(),
            clusters@.len() <= results@.len(),
            forall|q: int, m: int|
                0 <= q < clusters@.len() && 0 <= m < clusters@[q]@.len()
                    ==> #[trigger] clusters@[q]@[m] < results@.len(),
            forall|q: int|
                0 <= q < j ==> #[trigger] ranks@[q] == cluster_ranks(spread, stands, mode)[q],
    {
        assert(spread[j as int] == ints(clusters@[j as int]@));
        assert(stands[j as int] == standings@[j as int]@);
        let rank: i128 = match mode {
            ConsensusMode::Majority => clusters[j].len() as i128,
            ConsensusMode::ConfidenceWeighted => standings[j].weight.position() as i128,
        };
        ranks.push(rank);
    }
    proof {
        assert(whole(ranks@) =~= cluster_ranks(spread, stands, mode));
    }
    let w: usize = find_last_highest(&ranks);
    let members = &clusters[w];
    assert(spread[w as int] == ints(members@));
    let mut confidences: Vec<i128> = Vec::new();
    for m in 0..members.len()
        invariant
            confidences@.len() == m,
            all == seen_results(results@),
            spread[w as int] == ints(members@),
            forall|q: int| 0 <= q < members@.len() ==> #[trigger] members@[q] < results@.len(),
            forall|q: int|
                0 <= q < m ==> #[trigger] confidences@[q] == member_ranks(all, spread[w as int])[q],
    {
        let at: usize = members[m];
        assert(spread[w as int][m as int] == at);
        assert(all[at as int] == results@[at as int]@);
        confidences.push(results[at].confidence.position() as i128);
    }
    proof {
        assert(whole(confidences@) =~= member_ranks(all, spread[w as int]));
        assert(clusters@[w as int]@.len() > 0);
    }
    let m: usize = find_last_highest(&confidences);
    let best: usize = members[m];
    proof {
        assert(spread[w as int][m as int] == best);
        assert(all[best as int] == results@[best as int]@);
        assert(stands[w as int] == standings@[w as int]@);
    }
    Some(
        ConsensusReport {
            mode,
            winner: results[best].output.clone(),
            winning_task: results[best].task_id,
            agreement_rate: standings[w].share,
            agreement_percent: standings[w].percent.clone(),
            votes: results.len(),
            distinct_positions: clusters.len(),
        },
    )
}

/// First sentence or line of an output, for compact conflict reporting.
pub open spec fn headline_of(output: Seq<char>) -> Seq<char> {
    let line = if lines(output).len() > 0 {
        lines(output)[0]
    } else {
        output
    };
    first_chars(split_on(trimmed(line), ". "@)[0], 240)
}

/// First sentence or line of an output, for compact conflict reporting.
pub fn headline(output: &str) -> (r: String)
    ensures
        r@ == headline_of(output@),
{
    let all = lines_of(output);
    assert(vec_views(all@).len() == all@.len());
    let line = if all.len() > 0 {
        assert(vec_views(all@)[0] == all@[0]@);
        trim_chars(&all[0])
    } else {
        let chars = chars_of(output);
        trim_chars(&chars)
    };
    let parts = split_str(&line, ". ");
    assert(vec_views(parts@)[0] == parts@[0]@);
    take_chars(string_of(&parts[0]).as_str(), 240)
}

/// The disagreement between two answers.
pub open spec fn conflict_between(first: TaskResultView, second: TaskResultView) -> ConflictView {
    ConflictView {
        description: "`"@ + first.title + "` and `"@ + second.title
            + "` reached materially different conclusions"@,
        claims: seq![headline_of(first.output), headline_of(second.output)],
        task_ids: seq![first.task_id, second.task_id],
        attempted_resolution: "similarity clustering"@,
    }
}

/// The answers that stand for their clusters: the first member of each.
pub open spec fn representatives(results: Seq<TaskResultView>) -> Seq<TaskResultView> {
    Seq::new(clusters_of(results).len(), |j: int| results[clusters_of(results)[j][0]])
}

/// The disagreements of the answer at `left` with those between it and `right`.
pub open spec fn conflicts_up_to(reps: Seq<TaskResultView>, left: int, right: int) -> Seq<
    ConflictView,
>
    decreases right - left,
{
    if right <= left + 1 {
        seq![]
    } else {
        let rest = conflicts_up_to(reps, left, right - 1);
        if disagree(significant(reps[left].output), significant(reps[right - 1].output)) {
            rest.push(conflict_between(reps[left], reps[right - 1]))
        } else {
            rest
        }
    }
}

/// The disagreements of the first `n` answers with those after each.
pub open spec fn conflicts_of_first(reps: Seq<TaskResultView>, n: nat) -> Seq<ConflictView>
    decreases n,
{
    if n == 0 {
        seq![]
    } else {
        conflicts_of_first(reps, (n - 1) as nat) + conflicts_up_to(
            reps,
            n - 1,
            reps.len() as int,
        )
    }
}

/// The disagreements between competing answers that consensus could not settle.
pub open spec fn conflicts_among(results: Seq<TaskResultView>) -> Seq<ConflictView> {
    conflicts_of_first(representatives(results), representatives(results).len())
}

/// Disagreements between competing answers that consensus could not settle.
pub fn conflicts(results: &[&TaskResult]) -> (r: Vec<Conflict>)
    ensures
        conflict_views(r@) == conflicts_among(seen_results(results@)),
{
    let ghost all = seen_results(results@);
    let clusters = cluster(results);
    let mut chosen: Vec<usize> = Vec::new();
    let mut words: Vec<Vec<String>> = Vec::new();
    let ghost reps = representatives(all);
    assert(int_lists(clusters@).len() == clusters@.len());
    for j in 0..clusters.len()
        invariant
            all == seen_results(results@),
            reps == representatives(all),
            int_lists(clusters@) == clusters_of(all),
            reps.len() == clusters@.len(),
            chosen@.len() == j,
            words@.len() == j,
            forall|q: int| 0 <= q < clusters@.len() ==> (#[trigger] clusters@[q])@.len() > 0,
            forall|q: int, m: int|
                0 <= q < clusters@.len() && 0 <= m < clusters@[q]@.len()
                    ==> #[trigger] clusters@[q]@[m] < results@.len(),
            forall|q: int|
                0 <= q < j ==> #[trigger] chosen@[q] < results@.len() && results@[chosen@[q] as int]@
                    == reps[q],
            forall|q: int|
                0 <= q < j ==> views((#[trigger] words@[q])@).no_duplicates() && views(
                    words@[q]@,
                ).to_set() == significant(reps[q].output),
    {
        assert(clusters@[j as int]@.len() > 0);
        let at: usize = clusters[j][0];
        proof {
            assert(int_lists(clusters@)[j as int] == ints(clusters@[j as int]@));
            assert(clusters_of(all)[j as int][0] == at);
            assert(clusters@[j as int]@[0] < results@.len());
            assert(all[at as int] == results@[at as int]@);
        }
        chosen.push(at);
        words.push(tokens(results[at].output.as_str()));
    }
    let mut r: Vec<Conflict> = Vec::new();
    assert(conflict_views(r@) =~= conflicts_of_first(reps, 0));
    for left in 0..chosen.len()
        invariant
            all == seen_results(results@),
            chosen@.len() == reps.len(),
            words@.len() == reps.len(),
            forall|q: int|
                0 <= q < reps.len() ==> #[trigger] chosen@[q] < results@.len()
                    && results@[chosen@[q] as int]@ == reps[q],
            forall|q: int|
                0 <= q < reps.len() ==> views((#[trigger] words@[q])@).no_duplicates() && views(
                    words@[q]@,
                ).to_set() == significant(reps[q].output),
            conflict_views(r@) == conflicts_of_first(reps, left as nat),
    {
        let ghost before = conflict_views(r@);
        assert(before + conflicts_up_to(reps, left as int, left as int + 1) =~= before);
        for right in (left + 1)..chosen.len()
            invariant
                left < chosen@.len(),
                chosen@.len() == reps.len(),
                words@.len() == reps.len(),
                forall|q: int|
                    0 <= q < reps.len() ==> #[trigger] chosen@[q] < results@.len()
                        && results@[chosen@[q] as int]@ == reps[q],
                forall|q: int|
                    0 <= q < reps.len() ==> views((#[trigger] words@[q])@).no_duplicates() && views(
                        words@[q]@,
                    ).to_set() == significant(reps[q].output),
                left + 1 <= right <= chosen@.len(),
                conflict_views(r@) == before + conflicts_up_to(reps, left as int, right as int),
        {
            let ghost here = conflicts_up_to(reps, left as int, right as int);
            assert(words@[left as int]@ == words@[left as int]@);
            if is_disagreement(&words[left], &words[right]) {
                let first = results[chosen[left]];
                let second = results[chosen[right]];
                let mut description = "`".to_owned();
                description.append(first.title.as_str());
                description.append("` and `");
                description.append(second.title.as_str());
                description.append("` reached materially different conclusions");
                let mut claims: Vec<String> = Vec::new();
                claims.push(headline(first.output.as_str()));
                claims.push(headline(second.output.as_str()));
                let mut task_ids: Vec<TaskId> = Vec::new();
                task_ids.push(first.task_id);
                task_ids.push(second.task_id);
                proof {
                    assert(views(claims@) =~= seq![
                        headline_of(first@.output),
                        headline_of(second@.output),
                    ]);
                    assert(task_ids@ =~= seq![first@.task_id, second@.task_id]);
                }
                let conflict = Conflict {
                    description,
                    claims,
                    task_ids,
                    attempted_resolution: "similarity clustering".to_owned(),
                };
                let ghost sofar = conflict_views(r@);
                assert(conflict@ == conflict_between(reps[left as int], reps[right as int]));
                r.push(conflict);
                proof {
                    assert(conflict_views(r@) =~= sofar.push(conflict@));
                    assert((before + here).push(conflict@) =~= before + here.push(conflict@));
                }
            }
        }
    }
    r
}

/// The results at some positions.
pub open spec fn picked(results: Seq<TaskResultView>, at: Seq<int>) -> Seq<TaskResultView> {
    Seq::new(at.len(), |k: int| results[at[k]])
}

/// Whether a result belongs in the final answer.
pub open spec fn eligible(result: TaskResultView) -> bool {
    result.passed() && result.kind.reportable()
}

/// The stage of a task, where the graph has it.
pub open spec fn stage_of(g: GraphView, task: TaskId) -> Option<u32> {
    if g.has(task) {
        Some(g.task(task).stage)
    } else {
        None
    }
}

/// Whether one stage comes before another; no stage comes before every stage.
pub open spec fn earlier_stage(one: Option<u32>, other: Option<u32>) -> bool {
    match (one, other) {
        (None, Some(_)) => true,
        (Some(a), Some(b)) => a < b,
        _ => false,
    }
}

/// Whether one result is read before another: by stage, then by title.
pub open spec fn sooner(g: GraphView, one: TaskResultView, other: TaskResultView) -> bool {
    let a = stage_of(g, one.task_id);
    let b = stage_of(g, other.task_id);
    earlier_stage(a, b) || (a == b && text_before(one.title, other.title))
}

/// The reading order of some results: by stage, then by title, then as they came.
pub open spec fn reading_order(g: GraphView, results: Seq<TaskResultView>) -> spec_fn(
    int,
    int,
) -> bool {
    |i: int, j: int|
        sooner(g, results[i], results[j]) || (!sooner(g, results[j], results[i]) && i < j)
}

/// Whether a list holds the positions of exactly the eligible results, in reading order.
pub open spec fn is_reading_list(
    g: GraphView,
    results: Seq<TaskResultView>,
    list: Seq<int>,
) -> bool {
    &&& in_order(list, reading_order(g, results))
    &&& forall|i: int| #[trigger]
        list.contains(i) <==> 0 <= i < results.len() && eligible(results[i])
}

/// The positions of the eligible results, in reading order.
pub open spec fn reading_list(g: GraphView, results: Seq<TaskResultView>) -> Seq<int> {
    choose|list: Seq<int>| #[trigger] is_reading_list(g, results, list)
}

/// There is only one reading list.
proof fn lemma_reading_list_unique(g: GraphView, results: Seq<TaskResultView>, list: Seq<int>)
    requires
        is_reading_list(g, results, list),
    ensures
        reading_list(g, results) == list,
{
    let other = reading_list(g, results);
    assert(is_reading_list(g, results, other));
    let first = reading_order(g, results);
    assert forall|x: int, y: int| #[trigger] first(x, y) implies !first(y, x) by {
        lemma_sooner_asymmetric(g, results[x], results[y]);
    }
    assert forall|x: int| #[trigger] list.contains(x) <==> other.contains(x) by {}
    lemma_order_unique(list, other, first);
}

/// No two results are read before each other.
proof fn lemma_sooner_asymmetric(g: GraphView, one: TaskResultView, other: TaskResultView)
    ensures
        sooner(g, one, other) ==> !sooner(g, other, one),
{
    if text_before(one.title, other.title) && text_before(other.title, one.title) {
        lemma_text_before_transitive(one.title, other.title, one.title);
        lemma_text_before_irreflexive(one.title);
    }
}

/// A result that is not read before another, which is not read before a third, is not read
/// before the third.
proof fn lemma_not_sooner_transitive(
    g: GraphView,
    one: TaskResultView,
    other: TaskResultView,
    third: TaskResultView,
)
    requires
        !sooner(g, one, other),
        !sooner(g, other, third),
    ensures
        !sooner(g, one, third),
{
    lemma_text_before_total(one.title, other.title);
    lemma_text_before_total(other.title, third.title);
    if text_before(one.title, third.title) {
        if text_before(other.title, one.title) {
            lemma_text_before_transitive(other.title, one.title, third.title);
        }
    }
}

/// Whether one result is read before another.
fn reads_sooner(graph: &TaskGraph, one: &TaskResult, other: &TaskResult) -> (r: bool)
    requires
        graph.wf(),
    ensures
        r == sooner(graph@, one@, other@),
{
    let a: Option<u32> = match graph.get(one.task_id) {
        Some(node) => Some(node.stage),
        None => None,
    };
    let b: Option<u32> = match graph.get(other.task_id) {
        Some(node) => Some(node.stage),
        None => None,
    };
    assert(a == stage_of(graph@, one.task_id));
    assert(b == stage_of(graph@, other.task_id));
    match (a, b) {
        (None, Some(_)) => true,
        (Some(x), Some(y)) => x < y || (x == y && comes_before(
            one.title.as_str(),
            other.title.as_str(),
        )),
        (None, None) => comes_before(one.title.as_str(), other.title.as_str()),
        (Some(_), None) => false,
    }
}

/// The positions of the eligible results, in reading order: plan, then findings, then
/// conclusions.
fn order_results(graph: &TaskGraph, results: &[TaskResult]) -> (r: Vec<usize>)
    requires
        graph.wf(),
    ensures
        ints(r@) == reading_list(graph@, result_views(results@)),
        is_reading_list(graph@, result_views(results@), ints(r@)),
        forall|k: int| 0 <= k < r@.len() ==> #[trigger] r@[k] < results@.len(),
{
    let ghost g = graph@;
    let ghost all = result_views(results@);
    let ghost first = reading_order(g, all);
    let mut r: Vec<usize> = Vec::new();
    for i in 0..results.len()
        invariant
            graph.wf(),
            g == graph@,
            all == result_views(results@),
            first == reading_order(g, all),
            forall|k: int|
                0 <= k < r@.len() ==> #[trigger] r@[k] < i && eligible(all[r@[k] as int]),
            forall|v: int|
                0 <= v < i && eligible(#[trigger] all[v]) ==> r@.contains(v as usize),
            forall|a: int, b: int|
                0 <= a < b < r@.len() ==> #[trigger] first(r@[a] as int, r@[b] as int),
    {
        assert(all[i as int] == results@[i as int]@);
        if results[i].passed_validation() && results[i].kind.is_reportable() {
            let mut at: usize = r.len();
            while at > 0 && reads_sooner(graph, &results[i], &results[r[at - 1]])
                invariant
                    graph.wf(),
                    g == graph@,
                    all == result_views(results@),
                    i < results@.len(),
                    at <= r@.len(),
                    forall|k: int| 0 <= k < r@.len() ==> #[trigger] r@[k] < i,
                    forall|k: int|
                        at <= k < r@.len() ==> sooner(g, all[i as int], all[#[trigger] r@[k] as int]),
                ensures
                    at <= r@.len(),
                    at > 0 ==> !sooner(g, all[i as int], all[r@[at - 1] as int]),
                    forall|k: int|
                        at <= k < r@.len() ==> sooner(g, all[i as int], all[#[trigger] r@[k] as int]),
                decreases at,
            {
                assert(all[i as int] == results@[i as int]@);
                assert(all[r@[at - 1] as int] == results@[r@[at - 1] as int]@);
                at = at - 1;
            }
            let ghost before = r@;
            proof {
                assert forall|a: int| 0 <= a < at implies first(
                    #[trigger] before[a] as int,
                    i as int,
                ) by {
                    if a < at - 1 {
                        assert(first(before[a] as int, before[at - 1] as int));
                        lemma_sooner_asymmetric(
                            g,
                            all[before[a] as int],
                            all[before[at - 1] as int],
                        );
                        lemma_not_sooner_transitive(
                            g,
                            all[i as int],
                            all[before[at - 1] as int],
                            all[before[a] as int],
                        );
                    }
                    assert(!sooner(g, all[i as int], all[before[a] as int]));
                }
            }
            r.insert(at, i);
            proof {
                assert forall|v: int|
                    0 <= v < i + 1 && eligible(#[trigger] all[v]) implies r@.contains(
                    v as usize,
                ) by {
                    if v == i {
                        assert(r@[at as int] == i);
                    } else {
                        let k = before.index_of(v as usize);
                        assert(before[k] == v as usize);
                        if k < at {
                            assert(r@[k] == before[k]);
                        } else {
                            assert(r@[k + 1] == before[k]);
                        }
                    }
                }
                assert forall|a: int, b: int| 0 <= a < b < r@.len() implies #[trigger] first(
                    r@[a] as int,
                    r@[b] as int,
                ) by {
                    if b == at {
                        assert(r@[a] == before[a]);
                    } else if a == at {
                        assert(r@[b] == before[b - 1]);
                        assert(sooner(g, all[i as int], all[before[b - 1] as int]));
                    } else {
                        let x = if a < at { a } else { a - 1 };
                        let y = if b < at { b } else { b - 1 };
                        assert(r@[a] == before[x] && r@[b] == before[y]);
                        assert(first(before[x] as int, before[y] as int));
                    }
                }
            }
        }
    }
    proof {
        let list = ints(r@);
        assert forall|a: int, b: int| 0 <= a < b < list.len() implies #[trigger] first(
            list[a],
            list[b],
        ) by {
            assert(list[a] == r@[a] as int && list[b] == r@[b] as int);
            assert(first(r@[a] as int, r@[b] as int));
        }
        assert forall|i: int| #[trigger] list.contains(i) <==> 0 <= i < all.len() && eligible(
            all[i],
        ) by {
            if list.contains(i) {
                let k = list.index_of(i);
                assert(r@[k] == i);
            }
            if 0 <= i < all.len() && eligible(all[i]) {
                let k = r@.index_of(i as usize);
                assert(r@[k] == i as usize);
                assert(list[k] == i);
            }
        }
        lemma_reading_list_unique(g, all, list);
    }
    r
}

/// The results at some positions.
fn gather<'a>(results: &'a [TaskResult], at: &Vec<usize>) -> (r: Vec<&'a TaskResult>)
    requires
        forall|k: int| 0 <= k < at@.len() ==> #[trigger] at@[k] < results@.len(),
    ensures
        seen_results(r@) == picked(result_views(results@), ints(at@)),
        r@.len() == at@.len(),
{
    let mut r: Vec<&'a TaskResult> = Vec::new();
    for k in 0..at.len()
        invariant
            forall|q: int| 0 <= q < at@.len() ==> #[trigger] at@[q] < results@.len(),
            r@.len() == k,
            forall|q: int| 0 <= q < k ==> (#[trigger] r@[q])@ == results@[at@[q] as int]@,
    {
        assert(at@[k as int] < results@.len());
        r.push(&results[at[k]]);
    }
    proof {
        let want = picked(result_views(results@), ints(at@));
        assert forall|q: int| 0 <= q < want.len() implies seen_results(r@)[q] == want[q] by {
            assert(r@[q]@ == results@[at@[q] as int]@);
            assert(ints(at@)[q] == at@[q] as int);
            assert(at@[q] < results@.len());
        }
        assert(seen_results(r@) =~= want);
    }
    r
}

/// Whether a result is an answer to a debate.
pub open spec fn answers_at(results: Seq<TaskResultView>) -> spec_fn(int) -> bool {
    |i: int| results[i].kind == TaskKind::Answer
}

/// The positions of the answers among the eligible results, in reading order.
pub open spec fn answer_list(g: GraphView, results: Seq<TaskResultView>) -> Seq<int> {
    reading_list(g, results).filter(answers_at(results))
}

/// Whether some result that was kept already says what another does.
pub open spec fn restates(results: Seq<TaskResultView>, kept: Seq<int>, at: int) -> bool {
    exists|k: int|
        0 <= k < kept.len() && redundant(
            significant(results[#[trigger] kept[k]].output),
            significant(results[at].output),
        )
}

/// The positions that are left when outputs that merely restate an earlier one are dropped.
pub open spec fn without_restatements(results: Seq<TaskResultView>, list: Seq<int>) -> Seq<int>
    decreases list.len(),
{
    if list.len() == 0 {
        seq![]
    } else {
        let rest = without_restatements(results, list.drop_last());
        if restates(results, rest, list.last()) {
            rest
        } else {
            rest.push(list.last())
        }
    }
}

/// The positions of the results that are reported.
pub open spec fn kept_list(g: GraphView, results: Seq<TaskResultView>) -> Seq<int> {
    without_restatements(results, reading_list(g, results))
}

/// Drop outputs that merely restate an earlier one.
fn drop_redundant(results: &[TaskResult], list: &Vec<usize>) -> (r: Vec<usize>)
    requires
        forall|k: int| 0 <= k < list@.len() ==> #[trigger] list@[k] < results@.len(),
    ensures
        ints(r@) == without_restatements(result_views(results@), ints(list@)),
        forall|k: int| 0 <= k < r@.len() ==> #[trigger] r@[k] < results@.len(),
{
    let ghost all = result_views(results@);
    let ghost order = ints(list@);
    let mut kept: Vec<usize> = Vec::new();
    let mut words: Vec<Vec<String>> = Vec::new();
    proof {
        assert(order.take(0) =~= seq![]);
        assert(ints(kept@) =~= without_restatements(all, order.take(0)));
    }
    for n in 0..list.len()
        invariant
            all == result_views(results@),
            order == ints(list@),
            forall|k: int| 0 <= k < list@.len() ==> #[trigger] list@[k] < results@.len(),
            forall|k: int| 0 <= k < kept@.len() ==> #[trigger] kept@[k] < results@.len(),
            words@.len() == kept@.len(),
            forall|k: int|
                0 <= k < words@.len() ==> views((#[trigger] words@[k])@).no_duplicates() && views(
                    words@[k]@,
                ).to_set() == significant(all[kept@[k] as int].output),
            ints(kept@) == without_restatements(all, order.take(n as int)),
    {
        let at: usize = list[n];
        proof {
            assert(list@[n as int] < results@.len());
            assert(order[n as int] == at);
            assert(all[at as int] == results@[at as int]@);
            assert(order.take(n + 1).drop_last() =~= order.take(n as int));
        }
        let own = tokens(results[at].output.as_str());
        let mut duplicate = false;
        let mut k: usize = 0;
        while k < words.len() && !duplicate
            invariant
                k <= words@.len(),
                words@.len() == kept@.len(),
                views(own@).no_duplicates(),
                views(own@).to_set() == significant(all[at as int].output),
                forall|q: int|
                    0 <= q < words@.len() ==> views((#[trigger] words@[q])@).no_duplicates()
                        && views(words@[q]@).to_set() == significant(all[kept@[q] as int].output),
                duplicate ==> restates(all, ints(kept@), at as int),
                !duplicate ==> forall|q: int|
                    0 <= q < k ==> !redundant(
                        significant(all[#[trigger] ints(kept@)[q]].output),
                        significant(all[at as int].output),
                    ),
            decreases words@.len() - k + (if duplicate {
                0int
            } else {
                1int
            }),
        {
            assert(ints(kept@)[k as int] == kept@[k as int] as int);
            if is_redundant(&words[k], &own) {
                duplicate = true;
            } else {
                k = k + 1;
            }
        }
        if !duplicate {
            let ghost before = kept@;
            kept.push(at);
            words.push(own);
            assert(ints(kept@) =~= ints(before).push(at as int));
        }
    }
    assert(order.take(order.len() as int) =~= order);
    kept
}

/// The output of the last task, of some, whose whole job was to conclude.
pub open spec fn conclusion(kept: Seq<TaskResultView>) -> Option<Seq<char>>
    decreases kept.len(),
{
    if kept.len() == 0 {
        None
    } else if concludes(kept.last().kind) {
        Some(kept.last().output)
    } else {
        conclusion(kept.drop_last())
    }
}

/// Whether tasks of a kind conclude.
pub open spec fn concludes(kind: TaskKind) -> bool {
    kind == TaskKind::Merge || kind == TaskKind::Summarize || kind == TaskKind::Reduce || kind
        == TaskKind::Judge
}

/// How confident some results are.
pub open spec fn confidence_ranks(kept: Seq<TaskResultView>) -> Seq<int> {
    Seq::new(kept.len(), |i: int| kept[i].confidence.rank())
}

/// The findings at some positions, one line each.
pub open spec fn findings(kept: Seq<TaskResultView>, at: Seq<int>) -> Seq<char>
    decreases at.len(),
{
    if at.len() == 0 {
        seq![]
    } else {
        findings(kept, at.drop_last()) + "\n- "@ + kept[at.last()].title + ": "@ + headline_of(
            kept[at.last()].output,
        )
    }
}

/// The summary of a job: what a concluding task said, else the consensus, else the three most
/// confident findings.
pub open spec fn summary_of(
    kept: Seq<TaskResultView>,
    agreement: Option<ConsensusView>,
    objective: Seq<char>,
) -> Seq<char> {
    match conclusion(kept) {
        Some(output) => output,
        None => match agreement {
            Some(report) => "Consensus ("@ + report.agreement_percent + "% agreement across "@
                + decimal(report.votes) + " answers): "@ + report.winner,
            None => if kept.len() == 0 {
                "No validated output was produced for: "@ + objective
            } else {
                let order = descending(confidence_ranks(kept));
                "Findings for: "@ + objective + "\n"@ + findings(
                    kept,
                    order.take(
                        if order.len() < 3 {
                            order.len() as int
                        } else {
                            3
                        },
                    ),
                )
            },
        },
    }
}

/// Prefer a task whose whole job was to conclude; fall back to consensus, then to the
/// most confident findings.
fn summarize(kept: &[&TaskResult], agreement: &Option<ConsensusReport>, objective: &str) -> (r:
    String)
    ensures
        r@ == summary_of(seen_results(kept@), report_view(*agreement), objective@),
{
    let ghost all = seen_results(kept@);
    let mut n: usize = kept.len();
    assert(all.take(n as int) =~= all);
    while n > 0
        invariant
            all == seen_results(kept@),
            n <= kept@.len(),
            conclusion(all.take(n as int)) == conclusion(all),
        decreases n,
    {
        proof {
            assert(all.take(n as int).last() == kept@[n - 1]@);
            assert(all.take(n as int).drop_last() =~= all.take(n - 1));
        }
        let result = kept[n - 1];
        if matches!(
            result.kind,
            TaskKind::Merge | TaskKind::Summarize | TaskKind::Reduce | TaskKind::Judge
        ) {
            return result.output.clone();
        }
        n = n - 1;
    }
    match agreement {
        Some(report) => {
            let mut r = "Consensus (".to_owned();
            r.append(report.agreement_percent.as_str());
            r.append("% agreement across ");
            r.append(decimal_text(report.votes as u64).as_str());
            r.append(" answers): ");
            r.append(report.winner.as_str());
            return r;
        },
        None => {},
    }
    if kept.len() == 0 {
        let mut r = "No validated output was produced for: ".to_owned();
        r.append(objective);
        return r;
    }
    let mut ranks: Vec<i128> = Vec::new();
    for i in 0..kept.len()
        invariant
            all == seen_results(kept@),
            ranks@.len() == i,
            forall|k: int| 0 <= k < i ==> #[trigger] ranks@[k] == confidence_ranks(all)[k],
    {
        assert(all[i as int] == kept@[i as int]@);
        ranks.push(kept[i].confidence.position() as i128);
    }
    assert(whole(ranks@) =~= confidence_ranks(all));
    let order = sort_descending(&ranks);
    let ghost best = ints(order@);
    let shown: usize = if order.len() < 3 {
        order.len()
    } else {
        3
    };
    let mut r = "Findings for: ".to_owned();
    r.append(objective);
    r.append("\n");
    let ghost head = r@;
    proof {
        assert(best.take(0) =~= seq![]);
        assert(head + findings(all, best.take(0)) =~= head);
    }
    for k in 0..shown
        invariant
            all == seen_results(kept@),
            best == ints(order@),
            is_descending(confidence_ranks(all), best),
            shown <= order@.len(),
            r@ == head + findings(all, best.take(k as int)),
    {
        let at: usize = order[k];
        proof {
            assert(best[k as int] == at);
            assert(0 <= best[k as int] < all.len());
            assert(all[at as int] == kept@[at as int]@);
            assert(best.take(k + 1).drop_last() =~= best.take(k as int));
            assert(best.take(k + 1).last() == at);
        }
        r.append("\n- ");
        r.append(kept[at].title.as_str());
        r.append(": ");
        r.append(headline(kept[at].output.as_str()).as_str());
        proof {
            let sofar = findings(all, best.take(k as int));
            let line = "\n- "@ + all[at as int].title + ": "@ + headline_of(
                all[at as int].output,
            );
            assert(r@ =~= head + findings(all, best.take(k + 1)));
        }
    }
    r
}

/// The citations of a list, each source and claim once: the first.
pub open spec fn distinct_evidence(list: Seq<EvidenceView>) -> Seq<EvidenceView>
    decreases list.len(),
{
    if list.len() == 0 {
        seq![]
    } else {
        let rest = distinct_evidence(list.drop_last());
        if cites(rest, list.last()) {
            rest
        } else {
            rest.push(list.last())
        }
    }
}

/// Whether a list holds a citation of the same source for the same claim.
pub open spec fn cites(list: Seq<EvidenceView>, item: EvidenceView) -> bool {
    exists|i: int|
        0 <= i < list.len() && (#[trigger] list[i]).source == item.source && list[i].claim
            == item.claim
}

/// The citations of some results, in order.
pub open spec fn all_evidence(kept: Seq<TaskResultView>) -> Seq<EvidenceView>
    decreases kept.len(),
{
    if kept.len() == 0 {
        seq![]
    } else {
        all_evidence(kept.drop_last()) + kept.last().evidence
    }
}

/// How well some citations are supported.
pub open spec fn support_ranks(list: Seq<EvidenceView>) -> Seq<int> {
    Seq::new(list.len(), |i: int| list[i].support.rank())
}

/// The best-supported citations of a list.
pub open spec fn best_evidence(list: Seq<EvidenceView>) -> Seq<EvidenceView> {
    let order = descending(support_ranks(list));
    Seq::new(
        if order.len() < MAX_EVIDENCE {
            order.len()
        } else {
            MAX_EVIDENCE as nat
        },
        |k: int| list[order[k]],
    )
}

/// Deduplicate evidence and keep the best-supported items.
fn merge_evidence(kept: &[&TaskResult]) -> (r: Vec<Evidence>)
    ensures
        evidence_views(r@) == best_evidence(distinct_evidence(all_evidence(seen_results(kept@)))),
{
    let ghost all = seen_results(kept@);
    let mut items: Vec<&Evidence> = Vec::new();
    let ghost mut seen: Seq<EvidenceView> = seq![];
    proof {
        assert(all.take(0) =~= seq![]);
        assert(cited(items@) =~= distinct_evidence(seen));
    }
    for n in 0..kept.len()
        invariant
            all == seen_results(kept@),
            seen == all_evidence(all.take(n as int)),
            cited(items@) == distinct_evidence(seen),
    {
        let ghost own = all[n as int].evidence;
        let ghost before = seen;
        let result = kept[n];
        proof {
            assert(all[n as int] == result@);
            assert(own.len() == result.evidence@.len());
            assert(before + own.take(0) =~= before);
        }
        for j in 0..result.evidence.len()
            invariant
                own == result@.evidence,
                own.len() == result.evidence@.len(),
                seen == before + own.take(j as int),
                cited(items@) == distinct_evidence(seen),
        {
            let item = &result.evidence[j];
            let ghost next = seen.push(own[j as int]);
            proof {
                assert(own[j as int] == item@);
                assert(next.drop_last() =~= seen);
                assert(next =~= before + own.take(j + 1));
            }
            if !is_cited(&items, item) {
                let ghost earlier = cited(items@);
                items.push(item);
                assert(cited(items@) =~= earlier.push(item@));
            }
            proof {
                seen = next;
            }
        }
        proof {
            assert(own.take(own.len() as int) =~= own);
            assert(all.take(n + 1).drop_last() =~= all.take(n as int));
        }
    }
    assert(all.take(all.len() as int) =~= all);
    let ghost list = distinct_evidence(seen);
    let mut ranks: Vec<i128> = Vec::new();
    for i in 0..items.len()
        invariant
            list == cited(items@),
            ranks@.len() == i,
            forall|k: int| 0 <= k < i ==> #[trigger] ranks@[k] == support_ranks(list)[k],
    {
        assert(list[i as int] == items@[i as int]@);
        ranks.push(items[i].support.position() as i128);
    }
    assert(whole(ranks@) =~= support_ranks(list));
    let order = sort_descending(&ranks);
    let shown: usize = if order.len() < MAX_EVIDENCE {
        order.len()
    } else {
        MAX_EVIDENCE
    };
    let mut r: Vec<Evidence> = Vec::new();
    for k in 0..shown
        invariant
            list == cited(items@),
            shown <= order@.len(),
            is_descending(support_ranks(list), ints(order@)),
            ints(order@) == descending(support_ranks(list)),
            r@.len() == k,
            forall|q: int|
                0 <= q < k ==> (#[trigger] r@[q])@ == list[descending(support_ranks(list))[q]],
    {
        let at: usize = order[k];
        proof {
            assert(ints(order@)[k as int] == at);
            assert(0 <= ints(order@)[k as int] < list.len());
            assert(list[at as int] == items@[at as int]@);
        }
        r.push(items[at].clone());
    }
    assert(ints(order@).len() == order@.len());
    assert(evidence_views(r@) =~= best_evidence(list));
    r
}

/// What some citations hold.
spec fn cited(items: Seq<&Evidence>) -> Seq<EvidenceView> {
    Seq::new(items.len(), |i: int| items[i]@)
}

/// Whether a list holds a citation of the same source for the same claim.
fn is_cited(items: &Vec<&Evidence>, item: &Evidence) -> (r: bool)
    ensures
        r == cites(cited(items@), item@),
{
    for i in 0..items.len()
        invariant
            forall|k: int|
                0 <= k < i ==> !((#[trigger] cited(items@)[k]).source == item@.source && cited(
                    items@,
                )[k].claim == item@.claim),
    {
        assert(cited(items@)[i as int] == items@[i as int]@);
        if same_text(items[i].source.as_str(), item.source.as_str()) && same_text(
            items[i].claim.as_str(),
            item.claim.as_str(),
        ) {
            return true;
        }
    }
    false
}

/// What the figures of a final result are computed from.
#[derive(Debug)]
pub struct Survey {
    /// Positions of the results that are reported, in reading order.
    pub kept: Vec<usize>,
    /// Positions of the answers that were put to consensus, in reading order.
    pub answers: Vec<usize>,
    /// The clusters of answers, by position in `answers`.
    pub positions: Vec<Vec<usize>>,
    /// How many disagreements are left.
    pub conflicts: usize,
}

/// The answers of a job.
pub open spec fn answers_of(g: GraphView, results: Seq<TaskResultView>) -> Seq<TaskResultView> {
    picked(results, answer_list(g, results))
}

/// The results of a job that are reported.
pub open spec fn kept_of(g: GraphView, results: Seq<TaskResultView>) -> Seq<TaskResultView> {
    picked(results, kept_list(g, results))
}

/// The positions of the answers among some results.
fn select_answers(results: &[TaskResult], list: &Vec<usize>) -> (r: Vec<usize>)
    requires
        forall|k: int| 0 <= k < list@.len() ==> #[trigger] list@[k] < results@.len(),
    ensures
        ints(r@) == ints(list@).filter(answers_at(result_views(results@))),
        forall|k: int| 0 <= k < r@.len() ==> #[trigger] r@[k] < results@.len(),
{
    let ghost all = result_views(results@);
    let ghost order = ints(list@);
    let mut r: Vec<usize> = Vec::new();
    proof {
        reveal(Seq::filter);
        assert(order.take(0) =~= seq![]);
        assert(ints(r@) =~= order.take(0).filter(answers_at(all)));
    }
    for k in 0..list.len()
        invariant
            all == result_views(results@),
            order == ints(list@),
            forall|q: int| 0 <= q < list@.len() ==> #[trigger] list@[q] < results@.len(),
            forall|q: int| 0 <= q < r@.len() ==> #[trigger] r@[q] < results@.len(),
            ints(r@) == order.take(k as int).filter(answers_at(all)),
    {
        let at: usize = list[k];
        proof {
            assert(list@[k as int] < results@.len());
            assert(all[at as int] == results@[at as int]@);
            assert(order.take(k + 1) =~= order.take(k as int).push(at as int));
            crate::text::lemma_filter_push(order.take(k as int), at as int, answers_at(all));
        }
        if results[at].kind == TaskKind::Answer {
            let ghost before = r@;
            r.push(at);
            assert(ints(r@) =~= ints(before).push(at as int));
        }
    }
    assert(order.take(order.len() as int) =~= order);
    r
}

/// Look over the results of a job: which are reported, which compete, and what they leave
/// open.
pub fn survey(graph: &TaskGraph, results: &[TaskResult]) -> (r: Survey)
    requires
        graph.wf(),
    ensures
        ints(r.kept@) == kept_list(graph@, result_views(results@)),
        ints(r.answers@) == answer_list(graph@, result_views(results@)),
        int_lists(r.positions@) == clusters_of(answers_of(graph@, result_views(results@))),
        r.conflicts == conflicts_among(answers_of(graph@, result_views(results@))).len(),
        forall|k: int|
            0 <= k < r.kept@.len() ==> #[trigger] r.kept@[k] < results@.len() && eligible(
                results@[r.kept@[k] as int]@,
            ),
        forall|k: int| 0 <= k < r.answers@.len() ==> #[trigger] r.answers@[k] < results@.len(),
{
    let ordered = order_results(graph, results);
    let answers = select_answers(results, &ordered);
    let kept = drop_redundant(results, &ordered);
    let competing = gather(results, &answers);
    let positions = cluster(competing.as_slice());
    let found = conflicts(competing.as_slice());
    proof {
        let all = result_views(results@);
        assert(conflict_views(found@).len() == found@.len());
        lemma_kept_is_eligible(graph@, all, ints(ordered@));
        assert forall|k: int| 0 <= k < kept@.len() implies #[trigger] kept@[k] < results@.len()
            && eligible(results@[kept@[k] as int]@) by {
            assert(kept_list(graph@, all)[k] == kept@[k] as int);
            assert(all[kept@[k] as int] == results@[kept@[k] as int]@);
        }
    }
    Survey { kept, answers, positions, conflicts: found.len() }
}

/// The figures of a final result.
#[derive(Debug)]
pub struct Figures {
    /// The standing of each cluster of answers.
    pub standings: Vec<Standing>,
    /// Confidence in the job as a whole, from zero to one: lowered by agents that were unsure,
    /// by work that never completed, and by disagreements nobody resolved.
    pub confidence: Real32,
}

/// The report on a result.
pub open spec fn output_of(result: TaskResultView) -> StructuredOutputView {
    StructuredOutputView {
        task_id: result.task_id,
        kind: result.kind.label(),
        title: result.title,
        content: result.output,
        data: result.structured,
        confidence: result.confidence,
    }
}

/// Whether an output reports a result that passed every check and is no mere scaffolding.
pub open spec fn reports(results: Seq<TaskResultView>, output: StructuredOutputView) -> bool {
    exists|i: int|
        0 <= i < results.len() && eligible(#[trigger] results[i]) && output == output_of(results[i])
}

/// The outcome of the consensus round of a job, where its strategy asks for one.
pub open spec fn agreement_of(
    job: JobView,
    answers: Seq<TaskResultView>,
    standings: Seq<StandingView>,
) -> Option<ConsensusView> {
    if job.request.execution_strategy == ExecutionStrategy::Debate
        || job.request.execution_strategy == ExecutionStrategy::Consensus {
        decided(answers, ConsensusMode::ConfidenceWeighted, standings)
    } else {
        None
    }
}

/// The final answer of a job.
pub open spec fn merged(
    job: JobView,
    g: GraphView,
    results: Seq<TaskResultView>,
    status: JobStatus,
    statistics: ExecutionStatistics,
    standings: Seq<StandingView>,
    confidence: Real32,
) -> FinalResultView {
    let kept = kept_of(g, results);
    let answers = answers_of(g, results);
    FinalResultView {
        job_id: job.id,
        status,
        summary: summary_of(kept, agreement_of(job, answers, standings), job.request.objective),
        outputs: Seq::new(kept.len(), |i: int| output_of(kept[i])),
        supporting_evidence: best_evidence(distinct_evidence(all_evidence(kept))),
        confidence_score: if kept.len() == 0 {
            Real32 { bits: ZERO_BITS }
        } else {
            confidence
        },
        unresolved_conflicts: conflicts_among(answers),
        execution_statistics: statistics,
    }
}

/// Merge every completed task result into the job's final answer, given the figures that go
/// with it.
///
/// Consensus is computed *before* deduplication: in a debate, repetition is the
/// signal. Dropping the second agent who said the same thing would erase exactly
/// the agreement we are trying to measure.
pub fn aggregate(
    job: &Job,
    graph: &TaskGraph,
    results: &[TaskResult],
    status: JobStatus,
    statistics: ExecutionStatistics,
    figures: &Figures,
) -> (r: FinalResult)
    requires
        graph.wf(),
        figures.standings@.len() == clusters_of(
            answers_of(graph@, result_views(results@)),
        ).len(),
    ensures
        r@ == merged(
            job@,
            graph@,
            result_views(results@),
            status,
            statistics,
            standing_views(figures.standings@),
            figures.confidence,
        ),
        forall|k: int|
            0 <= k < r@.outputs.len() ==> reports(
                result_views(results@),
                #[trigger] r@.outputs[k],
            ),
        forall|a: int, b: int|
            0 <= a < b < r@.outputs.len() && graph@.has((#[trigger] r@.outputs[a]).task_id)
                && graph@.has((#[trigger] r@.outputs[b]).task_id) ==> graph@.task(
                r@.outputs[a].task_id,
            ).stage <= graph@.task(r@.outputs[b].task_id).stage,
{
    let ordered = order_results(graph, results);
    let answer_places = select_answers(results, &ordered);
    let answers = gather(results, &answer_places);
    let kept_places = drop_redundant(results, &ordered);
    let kept = gather(results, &kept_places);
    let ghost shown = seen_results(kept@);
    assert(ints(kept_places@).len() == kept_places@.len());
    let unresolved_conflicts = conflicts(answers.as_slice());
    let agreement = if job.request.execution_strategy.needs_consensus() {
        consensus(
            answers.as_slice(),
            ConsensusMode::ConfidenceWeighted,
            &figures.standings,
        )
    } else {
        None
    };
    let mut outputs: Vec<StructuredOutput> = Vec::new();
    for i in 0..kept.len()
        invariant
            shown == seen_results(kept@),
            outputs@.len() == i,
            forall|k: int| 0 <= k < i ==> (#[trigger] outputs@[k])@ == output_of(shown[k]),
    {
        let result = kept[i];
        assert(shown[i as int] == result@);
        outputs.push(
            StructuredOutput {
                task_id: result.task_id,
                kind: result.kind.to_string(),
                title: result.title.clone(),
                content: result.output.clone(),
                data: clone_json(&result.structured),
                confidence: result.confidence,
            },
        );
    }
    let summary = summarize(kept.as_slice(), &agreement, job.request.objective.as_str());
    let supporting_evidence = merge_evidence(kept.as_slice());
    let confidence_score = if kept.len() == 0 {
        Real32 { bits: ZERO_BITS }
    } else {
        figures.confidence
    };
    let r = FinalResult {
        job_id: job.id,
        status,
        summary,
        outputs,
        supporting_evidence,
        confidence_score,
        unresolved_conflicts,
        execution_statistics: statistics,
    };
    proof {
        let want = merged(
            job@,
            graph@,
            result_views(results@),
            status,
            statistics,
            standing_views(figures.standings@),
            figures.confidence,
        );
        assert(r@.outputs =~= want.outputs);
        lemma_kept_is_eligible(graph@, result_views(results@), ints(ordered@));
        assert forall|k: int| 0 <= k < r@.outputs.len() implies reports(
            result_views(results@),
            #[trigger] r@.outputs[k],
        ) by {
            let at = kept_list(graph@, result_views(results@))[k];
            assert(eligible(result_views(results@)[at]));
        }
        let list = kept_list(graph@, result_views(results@));
        lemma_kept_in_order(
            result_views(results@),
            ints(ordered@),
            reading_order(graph@, result_views(results@)),
        );
        lemma_reading_list_unique(graph@, result_views(results@), ints(ordered@));
        assert forall|a: int, b: int|
            0 <= a < b < r@.outputs.len() && graph@.has((#[trigger] r@.outputs[a]).task_id)
                && graph@.has((#[trigger] r@.outputs[b]).task_id) implies graph@.task(
            r@.outputs[a].task_id,
        ).stage <= graph@.task(r@.outputs[b].task_id).stage by {
            assert(reading_order(graph@, result_views(results@))(list[a], list[b]));
        }
    }
    r
}

/// Nothing that failed a check, and nothing that is mere scaffolding, is kept.
proof fn lemma_kept_is_eligible(g: GraphView, results: Seq<TaskResultView>, list: Seq<int>)
    requires
        is_reading_list(g, results, list),
    ensures
        forall|k: int|
            0 <= k < kept_list(g, results).len() ==> 0 <= #[trigger] kept_list(g, results)[k]
                < results.len() && eligible(results[kept_list(g, results)[k]]),
{
    lemma_reading_list_unique(g, results, list);
    assert forall|k: int| 0 <= k < kept_list(g, results).len() implies 0
        <= #[trigger] kept_list(g, results)[k] < results.len() && eligible(
        results[kept_list(g, results)[k]],
    ) by {
        lemma_kept_from_list(results, list, k);
        assert(list.contains(kept_list(g, results)[k]));
    }
}

/// What is kept comes from the list.
proof fn lemma_kept_from_list(results: Seq<TaskResultView>, list: Seq<int>, k: int)
    requires
        0 <= k < without_restatements(results, list).len(),
    ensures
        list.contains(without_restatements(results, list)[k]),
    decreases list.len(),
{
    if list.len() > 0 {
        let rest = without_restatements(results, list.drop_last());
        let all = without_restatements(results, list);
        if k < rest.len() {
            assert(all[k] == rest[k]);
            lemma_kept_from_list(results, list.drop_last(), k);
            let q = list.drop_last().index_of(rest[k]);
            assert(list[q] == rest[k]);
        } else {
            assert(list[list.len() - 1] == all[k]);
        }
    }
}

/// No output in the report merely restates an earlier one in it.
pub proof fn law_no_restatement_is_reported(
    results: Seq<TaskResultView>,
    list: Seq<int>,
    first: int,
    second: int,
)
    requires
        0 <= first < second < without_restatements(results, list).len(),
    ensures
        !redundant(
            significant(results[without_restatements(results, list)[first]].output),
            significant(results[without_restatements(results, list)[second]].output),
        ),
    decreases list.len(),
{
    if list.len() > 0 {
        let rest = without_restatements(results, list.drop_last());
        let all = without_restatements(results, list);
        assert(all[first] == rest[first]);
        if second < rest.len() {
            assert(all[second] == rest[second]);
            law_no_restatement_is_reported(results, list.drop_last(), first, second);
        }
    }
}

/// An output that is dropped restates one that is reported.
pub proof fn law_nothing_new_is_dropped(results: Seq<TaskResultView>, list: Seq<int>, at: int)
    requires
        list.contains(at),
    ensures
        without_restatements(results, list).contains(at) || restates(
            results,
            without_restatements(results, list),
            at,
        ),
    decreases list.len(),
{
    let rest = without_restatements(results, list.drop_last());
    let all = without_restatements(results, list);
    let i = list.index_of(at);
    if i == list.len() - 1 {
        if !restates(results, rest, at) {
            assert(all[rest.len() as int] == at);
        }
    } else {
        assert(list.drop_last()[i] == at);
        law_nothing_new_is_dropped(results, list.drop_last(), at);
        if rest.contains(at) {
            let q = rest.index_of(at);
            assert(all[q] == at);
        } else {
            let q = choose|q: int|
                0 <= q < rest.len() && redundant(
                    significant(results[#[trigger] rest[q]].output),
                    significant(results[at].output),
                );
            assert(all[q] == rest[q]);
        }
    }
}

/// Every answer takes exactly one position: the clusters share no member and miss none.
pub proof fn law_every_answer_takes_one_position(
    prints: Seq<Set<Seq<char>>>,
    n: nat,
    answer: int,
)
    requires
        0 <= answer < n,
    ensures
        exists|j: int|
            0 <= j < clusters_to(prints, n).len() && #[trigger] clusters_to(
                prints,
                n,
            )[j].contains(answer),
        forall|i: int, j: int|
            0 <= i < j < clusters_to(prints, n).len() ==> !((#[trigger] clusters_to(
                prints,
                n,
            )[i]).contains(answer) && (#[trigger] clusters_to(prints, n)[j]).contains(answer)),
    decreases n,
{
    let before = clusters_to(prints, (n - 1) as nat);
    let after = clusters_to(prints, n);
    lemma_clusters(prints, (n - 1) as nat);
    let index = n - 1;
    if answer < index {
        law_every_answer_takes_one_position(prints, (n - 1) as nat, answer);
        let j = choose|j: int| 0 <= j < before.len() && #[trigger] before[j].contains(answer);
        let m = before[j].index_of(answer);
        assert(after[j][m] == answer);
        assert(after[j].contains(answer));
        assert forall|i: int|
            0 <= i < after.len() && (#[trigger] after[i]).contains(answer) implies i < before.len()
            && before[i].contains(answer) by {
            let q = after[i].index_of(answer);
            assert(after[i][q] == answer);
            if i < before.len() && q < before[i].len() {
                assert(before[i][q] == answer);
            }
        }
    } else {
        assert forall|i: int| 0 <= i < before.len() implies !(#[trigger] before[i]).contains(
            answer,
        ) by {
            if before[i].contains(answer) {
                let q = before[i].index_of(answer);
                assert(0 <= before[i][q] < n - 1);
            }
        }
        if exists|j: int| #[trigger] is_home(prints, before, index, j) {
            let j = choose|j: int| #[trigger] is_home(prints, before, index, j);
            assert(after[j][before[j].len() as int] == answer);
            assert(after[j].contains(answer));
            assert forall|i: int| 0 <= i < after.len() && i != j implies !(
            #[trigger] after[i]).contains(answer) by {
                assert(after[i] == before[i]);
            }
        } else {
            assert(after[before.len() as int][0] == answer);
            assert(after[before.len() as int].contains(answer));
            assert forall|i: int| 0 <= i < before.len() implies !(#[trigger] after[i]).contains(
                answer,
            ) by {
                assert(after[i] == before[i]);
            }
        }
    }
}

/// No source is cited twice for the same claim, and the report cites no more than the cap.
pub proof fn law_evidence_is_distinct_and_capped(list: Seq<EvidenceView>, i: int, j: int)
    ensures
        0 <= i < j < distinct_evidence(list).len() ==> !(distinct_evidence(list)[i].source
            == distinct_evidence(list)[j].source && distinct_evidence(list)[i].claim
            == distinct_evidence(list)[j].claim),
        best_evidence(list).len() <= MAX_EVIDENCE,
    decreases list.len(),
{
    if list.len() > 0 {
        law_evidence_is_distinct_and_capped(list.drop_last(), i, j);
    }
}

/// Whether a result is one of a task whose whole job was to conclude.
spec fn is_conclusion(result: TaskResultView) -> bool {
    ||| result.kind == TaskKind::Merge
    ||| result.kind == TaskKind::Summarize
    ||| result.kind == TaskKind::Reduce
    ||| result.kind == TaskKind::Judge
}

/// What concludes is found from the end.
proof fn lemma_conclusion(kept: Seq<TaskResultView>)
    ensures
        (forall|i: int| 0 <= i < kept.len() ==> !is_conclusion(#[trigger] kept[i])) ==> conclusion(
            kept,
        ) is None,
        forall|i: int|
            0 <= i < kept.len() && is_conclusion(#[trigger] kept[i]) && (forall|j: int|
                i < j < kept.len() ==> !is_conclusion(#[trigger] kept[j])) ==> conclusion(kept)
                == Some(kept[i].output),
    decreases kept.len(),
{
    if kept.len() > 0 {
        let front = kept.drop_last();
        lemma_conclusion(front);
        assert(kept[kept.len() - 1] == kept.last());
        if forall|i: int| 0 <= i < kept.len() ==> !is_conclusion(#[trigger] kept[i]) {
            assert forall|i: int| 0 <= i < front.len() implies !is_conclusion(
                #[trigger] front[i],
            ) by {
                assert(front[i] == kept[i]);
            }
        }
        assert forall|i: int|
            0 <= i < kept.len() && is_conclusion(#[trigger] kept[i]) && (forall|j: int|
                i < j < kept.len() ==> !is_conclusion(#[trigger] kept[j])) implies conclusion(kept)
            == Some(kept[i].output) by {
            if i < kept.len() - 1 {
                assert(front[i] == kept[i]);
                assert forall|j: int| i < j < front.len() implies !is_conclusion(
                    #[trigger] front[j],
                ) by {
                    assert(front[j] == kept[j]);
                }
            }
        }
    }
}

/// Where a task concluded, the summary is what the last such task said, whatever else there is.
pub proof fn law_the_last_conclusion_is_the_summary(
    kept: Seq<TaskResultView>,
    agreement: Option<ConsensusView>,
    objective: Seq<char>,
    i: int,
)
    requires
        0 <= i < kept.len(),
        kept[i].kind == TaskKind::Merge || kept[i].kind == TaskKind::Summarize || kept[i].kind
            == TaskKind::Reduce || kept[i].kind == TaskKind::Judge,
        forall|j: int|
            i < j < kept.len() ==> (#[trigger] kept[j]).kind != TaskKind::Merge && kept[j].kind
                != TaskKind::Summarize && kept[j].kind != TaskKind::Reduce && kept[j].kind
                != TaskKind::Judge,
    ensures
        summary_of(kept, agreement, objective) == kept[i].output,
{
    lemma_conclusion(kept);
    assert(is_conclusion(kept[i]));
}

/// Where nothing concluded but there was a consensus, the summary gives the answer that won.
pub proof fn law_a_consensus_is_summarised_by_its_winner(
    kept: Seq<TaskResultView>,
    report: ConsensusView,
    objective: Seq<char>,
)
    requires
        forall|j: int|
            0 <= j < kept.len() ==> (#[trigger] kept[j]).kind != TaskKind::Merge && kept[j].kind
                != TaskKind::Summarize && kept[j].kind != TaskKind::Reduce && kept[j].kind
                != TaskKind::Judge,
    ensures
        ({
            let summary = summary_of(kept, Some(report), objective);
            summary.skip(summary.len() - report.winner.len()) == report.winner
        }),
{
    lemma_conclusion(kept);
    let summary = summary_of(kept, Some(report), objective);
    assert(summary.skip(summary.len() - report.winner.len()) =~= report.winner);
}

/// A text with the parts of a line behind it is the text with the line behind it.
proof fn lemma_parts_of_a_line(
    before: Seq<char>,
    bullet: Seq<char>,
    title: Seq<char>,
    colon: Seq<char>,
    headline: Seq<char>,
)
    ensures
        before + bullet + title + colon + headline == before + (bullet + title + colon + headline),
{
    assert(before + bullet + title + colon + headline =~= before + (bullet + title + colon
        + headline));
}

/// The line on the last finding stands behind those on the others.
proof fn lemma_last_finding(kept: Seq<TaskResultView>, at: Seq<int>)
    requires
        at.len() > 0,
    ensures
        findings(kept, at) == findings(kept, at.drop_last()) + ("\n- "@ + kept[at.last()].title
            + ": "@ + headline_of(kept[at.last()].output)),
{
    lemma_parts_of_a_line(
        findings(kept, at.drop_last()),
        "\n- "@,
        kept[at.last()].title,
        ": "@,
        headline_of(kept[at.last()].output),
    );
}

/// The most confident results of some: as many as are asked for, where there are as many, the
/// most confident first, and none that is left out more confident than one of them.
proof fn lemma_most_confident(kept: Seq<TaskResultView>, n: int)
    requires
        0 <= n <= kept.len(),
    ensures
        ({
            let at = descending(confidence_ranks(kept)).take(n);
            &&& descending(confidence_ranks(kept)).len() == kept.len()
            &&& at.len() == n
            &&& at.no_duplicates()
            &&& forall|k: int| 0 <= k < at.len() ==> 0 <= #[trigger] at[k] < kept.len()
            &&& forall|a: int, b: int|
                0 <= a < b < at.len() ==> kept[#[trigger] at[a]].confidence.rank()
                    >= kept[#[trigger] at[b]].confidence.rank()
            &&& forall|i: int, k: int|
                0 <= i < kept.len() && !at.contains(i) && 0 <= k < at.len()
                    ==> #[trigger] kept[i].confidence.rank() <= kept[#[trigger] at[k]].confidence.rank()
        }),
{
    let ranks = confidence_ranks(kept);
    lemma_descending_exists(ranks);
    let order = descending(ranks);
    let at = order.take(n);
    assert forall|k: int| 0 <= k < at.len() implies 0 <= #[trigger] at[k] < kept.len() by {
        assert(at[k] == order[k]);
    }
    assert forall|a: int, b: int| 0 <= a < b < at.len() implies kept[#[trigger] at[a]].confidence.rank()
        >= kept[#[trigger] at[b]].confidence.rank() && at[a] != at[b] by {
        assert(at[a] == order[a] && at[b] == order[b]);
        assert(ranks[order[a]] == kept[order[a]].confidence.rank());
        assert(ranks[order[b]] == kept[order[b]].confidence.rank());
    }
    assert forall|i: int, k: int|
        0 <= i < kept.len() && !at.contains(i) && 0 <= k < at.len() implies #[trigger] kept[i].confidence.rank()
        <= kept[#[trigger] at[k]].confidence.rank() by {
        lemma_descending_complete(ranks, order, i);
        let q = order.index_of(i);
        assert(order[q] == i);
        if q < n {
            assert(at[q] == i);
        }
        assert(at[k] == order[k]);
        assert(k < q);
        assert(ranks[i] == kept[i].confidence.rank());
        assert(ranks[order[k]] == kept[order[k]].confidence.rank());
    }
}

/// Where nothing concluded and there is no consensus, the summary lists up to three findings,
/// the most confident first, and none that is left out is more confident than one that is
/// listed. Which are listed is given.
pub proof fn law_the_most_confident_findings_are_listed(
    kept: Seq<TaskResultView>,
    objective: Seq<char>,
) -> (at: Seq<int>)
    requires
        kept.len() > 0,
        forall|j: int|
            0 <= j < kept.len() ==> (#[trigger] kept[j]).kind != TaskKind::Merge && kept[j].kind
                != TaskKind::Summarize && kept[j].kind != TaskKind::Reduce && kept[j].kind
                != TaskKind::Judge,
    ensures
        at.len() == if kept.len() < 3 {
            kept.len()
        } else {
            3
        },
        at.no_duplicates(),
        forall|k: int| 0 <= k < at.len() ==> 0 <= #[trigger] at[k] < kept.len(),
        forall|a: int, b: int|
            0 <= a < b < at.len() ==> kept[#[trigger] at[a]].confidence.rank()
                >= kept[#[trigger] at[b]].confidence.rank(),
        forall|i: int, k: int|
            0 <= i < kept.len() && !at.contains(i) && 0 <= k < at.len()
                ==> #[trigger] kept[i].confidence.rank() <= kept[#[trigger] at[k]].confidence.rank(),
        summary_of(kept, None, objective) == "Findings for: "@ + objective + "\n"@ + (seq![] + (
        "\n- "@ + kept[at[0]].title + ": "@ + headline_of(kept[at[0]].output)) + (if at.len() > 1 {
            "\n- "@ + kept[at[1]].title + ": "@ + headline_of(kept[at[1]].output)
        } else {
            seq![]
        }) + (if at.len() > 2 {
            "\n- "@ + kept[at[2]].title + ": "@ + headline_of(kept[at[2]].output)
        } else {
            seq![]
        })),
{
    lemma_conclusion(kept);
    let n: int = if kept.len() < 3 {
        kept.len() as int
    } else {
        3
    };
    lemma_most_confident(kept, n);
    let at = descending(confidence_ranks(kept)).take(n);
    lemma_listed_findings(kept, at);
    at
}

/// Up to three findings, line by line.
proof fn lemma_listed_findings(kept: Seq<TaskResultView>, at: Seq<int>)
    requires
        1 <= at.len() <= 3,
    ensures
        findings(kept, at) == seq![] + ("\n- "@ + kept[at[0]].title + ": "@ + headline_of(
            kept[at[0]].output,
        )) + (if at.len() > 1 {
            "\n- "@ + kept[at[1]].title + ": "@ + headline_of(kept[at[1]].output)
        } else {
            seq![]
        }) + (if at.len() > 2 {
            "\n- "@ + kept[at[2]].title + ": "@ + headline_of(kept[at[2]].output)
        } else {
            seq![]
        }),
{
    let none: Seq<char> = seq![];
    let one = at.take(1);
    assert(one.drop_last() =~= seq![]);
    lemma_last_finding(kept, one);
    let first = findings(kept, one);
    assert(findings(kept, one.drop_last()) =~= none);
    if at.len() == 1 {
        assert(at =~= one);
        assert(first + none + none =~= first);
    } else {
        let two = at.take(2);
        assert(two.drop_last() =~= one);
        lemma_last_finding(kept, two);
        let second = findings(kept, two);
        if at.len() == 2 {
            assert(at =~= two);
            assert(second + none =~= second);
        } else {
            assert(at.drop_last() =~= two);
            lemma_last_finding(kept, at);
        }
    }
}

/// A job with nothing to report says so, and names its objective.
pub proof fn law_an_empty_report_names_the_objective(objective: Seq<char>)
    ensures
        ({
            let summary = summary_of(seq![], None, objective);
            &&& summary.len() > objective.len()
            &&& summary.skip(summary.len() - objective.len()) == objective
        }),
{
    reveal_strlit("No validated output was produced for: ");
    let summary = summary_of(seq![], None, objective);
    assert(summary.skip(summary.len() - objective.len()) =~= objective);
}

/// The best-supported citations are reported, the best first: none that is left out is better
/// supported than one that is reported.
pub proof fn law_the_best_supported_evidence_is_reported(list: Seq<EvidenceView>)
    ensures
        best_evidence(list).len() == if list.len() < MAX_EVIDENCE {
            list.len() as int
        } else {
            MAX_EVIDENCE as int
        },
        forall|a: int, b: int|
            0 <= a < b < best_evidence(list).len() ==> (#[trigger] best_evidence(
                list,
            )[a]).support.rank() >= (#[trigger] best_evidence(list)[b]).support.rank(),
        forall|k: int|
            0 <= k < best_evidence(list).len() ==> list.contains(#[trigger] best_evidence(list)[k]),
        forall|i: int, k: int|
            0 <= i < list.len() && 0 <= k < best_evidence(list).len() && !best_evidence(
                list,
            ).contains(#[trigger] list[i]) ==> list[i].support.rank() <= (#[trigger] best_evidence(
                list,
            )[k]).support.rank(),
{
    let ranks = support_ranks(list);
    let best = best_evidence(list);
    lemma_descending_exists(ranks);
    let order = descending(ranks);
    assert forall|a: int, b: int| 0 <= a < b < best.len() implies (
    #[trigger] best[a]).support.rank() >= (#[trigger] best[b]).support.rank() by {
        assert(best[a] == list[order[a]] && best[b] == list[order[b]]);
    }
    assert forall|k: int| 0 <= k < best.len() implies list.contains(#[trigger] best[k]) by {
        assert(best[k] == list[order[k]]);
    }
    assert forall|i: int, k: int|
        0 <= i < list.len() && 0 <= k < best.len() && !best.contains(
            #[trigger] list[i],
        ) implies list[i].support.rank() <= (#[trigger] best[k]).support.rank() by {
        lemma_descending_complete(ranks, order, i);
        let q = order.index_of(i);
        assert(order[q] == i);
        if q < best.len() {
            assert(best[q] == list[i]);
        }
        assert(best[k] == list[order[k]]);
    }
}

/// Nothing that was cited is lost on the way to the ranking, but for repeated citations: of
/// every source and claim that some result cites, the first citation is considered.
pub proof fn law_every_citation_is_considered(kept: Seq<TaskResultView>, i: int, j: int)
    requires
        0 <= i < kept.len(),
        0 <= j < kept[i].evidence.len(),
    ensures
        exists|k: int|
            0 <= k < distinct_evidence(all_evidence(kept)).len() && (
            #[trigger] distinct_evidence(all_evidence(kept))[k]).source
                == kept[i].evidence[j].source && distinct_evidence(all_evidence(kept))[k].claim
                == kept[i].evidence[j].claim,
{
    lemma_all_evidence(kept, i, j);
    let all = all_evidence(kept);
    let q = choose|q: int| 0 <= q < all.len() && #[trigger] all[q] == kept[i].evidence[j];
    lemma_distinct_covers(all, q);
}

/// The evidence of every result is in the whole.
proof fn lemma_all_evidence(kept: Seq<TaskResultView>, i: int, j: int)
    requires
        0 <= i < kept.len(),
        0 <= j < kept[i].evidence.len(),
    ensures
        exists|q: int|
            0 <= q < all_evidence(kept).len() && #[trigger] all_evidence(kept)[q]
                == kept[i].evidence[j],
    decreases kept.len(),
{
    let front = kept.drop_last();
    let rest = all_evidence(front);
    let all = all_evidence(kept);
    if i < kept.len() - 1 {
        assert(front[i] == kept[i]);
        lemma_all_evidence(front, i, j);
        let q = choose|q: int| 0 <= q < rest.len() && #[trigger] rest[q] == kept[i].evidence[j];
        assert(all[q] == rest[q]);
    } else {
        assert(all[rest.len() + j] == kept[i].evidence[j]);
    }
}

/// Every citation of a list is still cited once repetitions are dropped.
proof fn lemma_distinct_covers(list: Seq<EvidenceView>, q: int)
    requires
        0 <= q < list.len(),
    ensures
        exists|k: int|
            0 <= k < distinct_evidence(list).len() && (#[trigger] distinct_evidence(list)[k]).source
                == list[q].source && distinct_evidence(list)[k].claim == list[q].claim,
    decreases list.len(),
{
    let front = list.drop_last();
    let rest = distinct_evidence(front);
    let all = distinct_evidence(list);
    if q < list.len() - 1 {
        assert(front[q] == list[q]);
        lemma_distinct_covers(front, q);
        let k = choose|k: int|
            0 <= k < rest.len() && (#[trigger] rest[k]).source == list[q].source && rest[k].claim
                == list[q].claim;
        assert(all[k] == rest[k]);
    } else if cites(rest, list.last()) {
        let k = choose|k: int|
            0 <= k < rest.len() && (#[trigger] rest[k]).source == list.last().source
                && rest[k].claim == list.last().claim;
        assert(all[k] == rest[k]);
    } else {
        assert(all[rest.len() as int] == list[q]);
    }
}

/// The degrees of similarity fit together: equal answers are the same and redundant, wholly
/// different ones disagree, what is redundant is the same answer, and what is the same answer is
/// no disagreement.
pub proof fn law_degrees_of_similarity_fit_together(left: Set<Seq<char>>, right: Set<Seq<char>>)
    requires
        left.finite(),
        right.finite(),
    ensures
        left == right ==> same_answer(left, right) && redundant(left, right) && !disagree(
            left,
            right,
        ),
        left.disjoint(right) && (left.len() > 0 || right.len() > 0) ==> disagree(left, right)
            && !same_answer(left, right) && !redundant(left, right),
        redundant(left, right) ==> same_answer(left, right),
        same_answer(left, right) ==> !disagree(left, right),
        same_answer(left, right) == same_answer(right, left),
        disagree(left, right) == disagree(right, left),
{
    assert(left.intersect(right) =~= right.intersect(left));
    assert(left.union(right) =~= right.union(left));
    vstd::set_lib::lemma_len_subset(left, left.union(right));
    vstd::set_lib::lemma_len_subset(right, left.union(right));
    if left == right {
        assert(left.intersect(right) =~= left);
        assert(left.union(right) =~= left);
    }
    if left.disjoint(right) {
        assert(left.intersect(right) =~= Set::empty());
    }
}

/// Members of one position are alike: whoever joined a group agrees with a member that was
/// there before.
pub proof fn law_members_of_a_position_agree(
    prints: Seq<Set<Seq<char>>>,
    n: nat,
    j: int,
    m: int,
)
    requires
        0 <= j < clusters_to(prints, n).len(),
        0 < m < clusters_to(prints, n)[j].len(),
    ensures
        ({
            let members = clusters_to(prints, n)[j];
            exists|e: int|
                0 <= e < m && same_answer(prints[#[trigger] members[e]], prints[members[m]])
        }),
    decreases n,
{
    let before = clusters_to(prints, (n - 1) as nat);
    let after = clusters_to(prints, n);
    let index = n - 1;
    if exists|h: int| #[trigger] is_home(prints, before, index, h) {
        let h = choose|h: int| #[trigger] is_home(prints, before, index, h);
        if j == h && m == before[j].len() {
            let e = choose|e: int|
                0 <= e < before[j].len() && same_answer(
                    prints[#[trigger] before[j][e]],
                    prints[index],
                );
            assert(after[j][e] == before[j][e]);
        } else {
            law_members_of_a_position_agree(prints, (n - 1) as nat, j, m);
            let e = choose|e: int|
                0 <= e < m && same_answer(prints[#[trigger] before[j][e]], prints[before[j][m]]);
            assert(after[j][e] == before[j][e] && after[j][m] == before[j][m]);
        }
    } else {
        assert(j < before.len());
        law_members_of_a_position_agree(prints, (n - 1) as nat, j, m);
        assert(after[j] == before[j]);
    }
}

/// Whoever opens a position agrees with nobody who took an earlier position before them.
pub proof fn law_positions_differ(prints: Seq<Set<Seq<char>>>, n: nat, i: int, j: int, m: int)
    requires
        0 <= i < j < clusters_to(prints, n).len(),
        0 <= m < clusters_to(prints, n)[i].len(),
        clusters_to(prints, n)[i][m] < clusters_to(prints, n)[j][0],
    ensures
        !same_answer(
            prints[clusters_to(prints, n)[i][m]],
            prints[clusters_to(prints, n)[j][0]],
        ),
    decreases n,
{
    let before = clusters_to(prints, (n - 1) as nat);
    let after = clusters_to(prints, n);
    let index = n - 1;
    lemma_clusters(prints, (n - 1) as nat);
    lemma_clusters(prints, n);
    if exists|h: int| #[trigger] is_home(prints, before, index, h) {
        let h = choose|h: int| #[trigger] is_home(prints, before, index, h);
        assert(before[j].len() > 0);
        assert(after[j][0] == before[j][0]);
        assert(0 <= before[j][0] < n - 1);
        if i == h && m == before[i].len() {
            assert(after[i][m] == index);
        } else {
            assert(after[i][m] == before[i][m]);
            law_positions_differ(prints, (n - 1) as nat, i, j, m);
        }
    } else if j == before.len() {
        assert(after[i] == before[i]);
        if same_answer(prints[before[i][m]], prints[index]) {
            assert(belongs(prints, before[i], index));
            lemma_some_home(prints, before, index, i);
        }
    } else {
        assert(after[i] == before[i] && after[j] == before[j]);
        law_positions_differ(prints, (n - 1) as nat, i, j, m);
    }
}

/// Where there is an output there is a position.
proof fn lemma_some_position(prints: Seq<Set<Seq<char>>>, n: nat)
    requires
        n > 0,
    ensures
        clusters_to(prints, n).len() > 0,
{
    let before = clusters_to(prints, (n - 1) as nat);
    if exists|h: int| #[trigger] is_home(prints, before, n - 1, h) {
        let h = choose|h: int| #[trigger] is_home(prints, before, n - 1, h);
        assert(is_home(prints, before, n - 1, h));
    }
}

/// An output that belongs to some group has a first group it belongs to.
proof fn lemma_some_home(
    prints: Seq<Set<Seq<char>>>,
    clusters: Seq<Seq<int>>,
    index: int,
    i: int,
)
    requires
        0 <= i < clusters.len(),
        belongs(prints, clusters[i], index),
    ensures
        exists|j: int| #[trigger] is_home(prints, clusters, index, j),
    decreases i,
{
    if exists|e: int| 0 <= e < i && belongs(prints, #[trigger] clusters[e], index) {
        let e = choose|e: int| 0 <= e < i && belongs(prints, #[trigger] clusters[e], index);
        lemma_some_home(prints, clusters, index, e);
    } else {
        assert(is_home(prints, clusters, index, i));
    }
}

/// The answer that wins is the most confident one of the position that ranks highest: with a
/// majority vote no position has more members, and otherwise none weighs more. The position and
/// the place of the answer in it are given.
pub proof fn law_the_strongest_position_wins(
    results: Seq<TaskResultView>,
    mode: ConsensusMode,
    standings: Seq<StandingView>,
) -> (at: (int, int))
    requires
        results.len() >= 2,
        standings.len() == clusters_of(results).len(),
    ensures
        0 <= at.0 < clusters_of(results).len(),
        0 <= at.1 < clusters_of(results)[at.0].len(),
        decided(results, mode, standings) == Some(
            ConsensusView {
                mode,
                winner: results[clusters_of(results)[at.0][at.1]].output,
                winning_task: results[clusters_of(results)[at.0][at.1]].task_id,
                agreement_rate: standings[at.0].share,
                agreement_percent: standings[at.0].percent,
                votes: results.len(),
                distinct_positions: clusters_of(results).len(),
            },
        ),
        forall|e: int|
            0 <= e < clusters_of(results)[at.0].len() ==> results[#[trigger] clusters_of(
                results,
            )[at.0][e]].confidence.rank() <= results[clusters_of(
                results,
            )[at.0][at.1]].confidence.rank(),
        mode == ConsensusMode::Majority ==> forall|j: int|
            0 <= j < clusters_of(results).len() ==> (#[trigger] clusters_of(results)[j]).len()
                <= clusters_of(results)[at.0].len(),
        mode == ConsensusMode::ConfidenceWeighted ==> forall|j: int|
            0 <= j < clusters_of(results).len() ==> (#[trigger] standings[j]).weight.rank()
                <= standings[at.0].weight.rank(),
{
    let positions = clusters_of(results);
    lemma_clusters(prints_of(results), results.len());
    lemma_some_position(prints_of(results), results.len());
    let ranks = cluster_ranks(positions, standings, mode);
    lemma_last_highest_exists(ranks);
    let w = last_highest(ranks);
    let members = positions[w];
    let sure = member_ranks(results, members);
    assert(members.len() > 0);
    lemma_last_highest_exists(sure);
    let m = last_highest(sure);
    assert forall|e: int| 0 <= e < members.len() implies results[#[trigger] positions[w][e]].confidence.rank()
        <= results[members[m]].confidence.rank() by {
        assert(sure[e] <= sure[m]);
    }
    assert forall|j: int| 0 <= j < ranks.len() implies #[trigger] ranks[j] <= ranks[w] by {}
    if mode == ConsensusMode::Majority {
        assert forall|j: int| 0 <= j < positions.len() implies (#[trigger] positions[j]).len()
            <= positions[w].len() by {
            assert(ranks[j] <= ranks[w]);
        }
    } else {
        assert forall|j: int| 0 <= j < positions.len() implies (
        #[trigger] standings[j]).weight.rank() <= standings[w].weight.rank() by {
            assert(ranks[j] <= ranks[w]);
        }
    }
    (w, m)
}

/// Every genuine disagreement between two positions is reported, with both tasks and both
/// claims.
pub proof fn law_every_disagreement_is_reported(results: Seq<TaskResultView>, a: int, b: int)
    requires
        0 <= a < b < representatives(results).len(),
        disagree(
            significant(representatives(results)[a].output),
            significant(representatives(results)[b].output),
        ),
    ensures
        ({
            let reps = representatives(results);
            let list = conflicts_among(results);
            exists|k: int|
                0 <= k < list.len() && (#[trigger] list[k]).task_ids == seq![
                    reps[a].task_id,
                    reps[b].task_id,
                ] && list[k].claims == seq![
                    headline_of(reps[a].output),
                    headline_of(reps[b].output),
                ]
        }),
{
    let reps = representatives(results);
    let k = lemma_conflict_of_first(reps, reps.len(), a, b);
    assert(conflicts_among(results)[k] == conflict_between(reps[a], reps[b]));
}

/// Nothing but a genuine disagreement between two positions is reported.
pub proof fn law_only_disagreements_are_reported(results: Seq<TaskResultView>, k: int)
    requires
        0 <= k < conflicts_among(results).len(),
    ensures
        ({
            let reps = representatives(results);
            exists|a: int, b: int|
                0 <= a < b < reps.len() && #[trigger] disagree(
                    significant(reps[a].output),
                    significant(reps[b].output),
                ) && conflicts_among(results)[k].task_ids == seq![reps[a].task_id, reps[b].task_id]
        }),
{
    let reps = representatives(results);
    let (a, b) = lemma_conflict_is_genuine(reps, reps.len(), k);
    assert(disagree(significant(reps[a].output), significant(reps[b].output)));
}

/// Where two answers disagree, the first is among those whose disagreements are listed.
proof fn lemma_conflict_of_first(reps: Seq<TaskResultView>, n: nat, a: int, b: int) -> (k: int)
    requires
        0 <= a < n <= reps.len(),
        a < b < reps.len(),
        disagree(significant(reps[a].output), significant(reps[b].output)),
    ensures
        0 <= k < conflicts_of_first(reps, n).len(),
        conflicts_of_first(reps, n)[k] == conflict_between(reps[a], reps[b]),
    decreases n,
{
    let rest = conflicts_of_first(reps, (n - 1) as nat);
    if a == n - 1 {
        let k = lemma_conflict_up_to(reps, a, reps.len() as int, b);
        rest.len() + k
    } else {
        lemma_conflict_of_first(reps, (n - 1) as nat, a, b)
    }
}

/// Where an answer disagrees with one after it, the disagreement is listed.
proof fn lemma_conflict_up_to(reps: Seq<TaskResultView>, left: int, right: int, b: int) -> (k: int)
    requires
        left < b < right,
        disagree(significant(reps[left].output), significant(reps[b].output)),
    ensures
        0 <= k < conflicts_up_to(reps, left, right).len(),
        conflicts_up_to(reps, left, right)[k] == conflict_between(reps[left], reps[b]),
    decreases right - left,
{
    let rest = conflicts_up_to(reps, left, right - 1);
    if b == right - 1 {
        rest.len() as int
    } else {
        lemma_conflict_up_to(reps, left, right - 1, b)
    }
}

/// Every listed disagreement of the first answers is one.
proof fn lemma_conflict_is_genuine(reps: Seq<TaskResultView>, n: nat, k: int) -> (r: (int, int))
    requires
        n <= reps.len(),
        0 <= k < conflicts_of_first(reps, n).len(),
    ensures
        0 <= r.0 < r.1 < reps.len(),
        disagree(significant(reps[r.0].output), significant(reps[r.1].output)),
        conflicts_of_first(reps, n)[k] == conflict_between(reps[r.0], reps[r.1]),
    decreases n,
{
    let rest = conflicts_of_first(reps, (n - 1) as nat);
    if k < rest.len() {
        lemma_conflict_is_genuine(reps, (n - 1) as nat, k)
    } else {
        let b = lemma_conflict_up_to_is_genuine(
            reps,
            n - 1,
            reps.len() as int,
            k - rest.len(),
        );
        (n - 1, b)
    }
}

/// Every listed disagreement of one answer with those after it is one.
proof fn lemma_conflict_up_to_is_genuine(
    reps: Seq<TaskResultView>,
    left: int,
    right: int,
    k: int,
) -> (b: int)
    requires
        0 <= k < conflicts_up_to(reps, left, right).len(),
    ensures
        left < b < right,
        disagree(significant(reps[left].output), significant(reps[b].output)),
        conflicts_up_to(reps, left, right)[k] == conflict_between(reps[left], reps[b]),
    decreases right - left,
{
    let rest = conflicts_up_to(reps, left, right - 1);
    if k < rest.len() {
        lemma_conflict_up_to_is_genuine(reps, left, right - 1, k)
    } else {
        right - 1
    }
}

/// Dropping restatements keeps the order.
proof fn lemma_kept_in_order(
    results: Seq<TaskResultView>,
    list: Seq<int>,
    first: spec_fn(int, int) -> bool,
)
    requires
        in_order(list, first),
    ensures
        in_order(without_restatements(results, list), first),
    decreases list.len(),
{
    if list.len() > 0 {
        let front = list.drop_last();
        assert(in_order(front, first)) by {
            assert forall|a: int, b: int| 0 <= a < b < front.len() implies #[trigger] first(
                front[a],
                front[b],
            ) by {
                assert(first(list[a], list[b]));
            }
        }
        lemma_kept_in_order(results, front, first);
        let rest = without_restatements(results, front);
        let all = without_restatements(results, list);
        assert forall|a: int, b: int| 0 <= a < b < all.len() implies #[trigger] first(
            all[a],
            all[b],
        ) by {
            assert(all[a] == rest[a]);
            if b < rest.len() {
                assert(all[b] == rest[b]);
                assert(first(rest[a], rest[b]));
            } else {
                lemma_kept_from_list(results, front, a);
                let q = front.index_of(rest[a]);
                assert(first(list[q], list[list.len() - 1]));
            }
        }
    }
}

/// Only work that belongs in an answer is reported: plans, reviews, checks, and votes are not.
pub proof fn law_scaffolding_is_not_reported(result: TaskResultView)
    ensures
        eligible(result) ==> result.validation_failures.len() == 0,
        eligible(result) ==> result.kind != TaskKind::Plan && result.kind != TaskKind::Subplan
            && result.kind != TaskKind::Critique && result.kind != TaskKind::Verify && result.kind
            != TaskKind::Vote && result.kind != TaskKind::Supervise,
        result.validation_failures.len() == 0 && (result.kind == TaskKind::Work || result.kind
            == TaskKind::MapStep || result.kind == TaskKind::Answer || result.kind
            == TaskKind::Merge || result.kind == TaskKind::Summarize || result.kind
            == TaskKind::Reduce || result.kind == TaskKind::Judge) ==> eligible(result),
{
}

/// How alike two answers must be: those that share at most three tenths of their words disagree,
/// those that share three fifths say the same, and those that share seventeen twentieths are
/// redundant.
pub proof fn law_the_degrees_of_similarity(left: Set<Seq<char>>, right: Set<Seq<char>>)
    requires
        left.finite(),
        right.finite(),
        left.len() > 0 || right.len() > 0,
    ensures
        ({
            let shared = left.intersect(right).len();
            let all = left.union(right).len();
            &&& disagree(left, right) <==> 10 * shared <= 3 * all
            &&& same_answer(left, right) <==> 5 * shared >= 3 * all
            &&& redundant(left, right) <==> 20 * shared >= 17 * all
        }),
{
}

/// A reported output is the result's own: its task, its title, what it says, and how sure it is.
pub proof fn law_outputs_carry_their_results(result: TaskResultView)
    ensures
        output_of(result).task_id == result.task_id,
        output_of(result).title == result.title,
        output_of(result).content == result.output,
        output_of(result).confidence == result.confidence,
        output_of(result).data == result.structured,
        output_of(result).kind == result.kind.label(),
{
}

/// Only a debate or a consensus job weighs its answers against each other.
pub proof fn law_only_contests_are_decided(
    job: JobView,
    answers: Seq<TaskResultView>,
    standings: Seq<StandingView>,
)
    ensures
        agreement_of(job, answers, standings) is Some <==> (job.request.execution_strategy
            == ExecutionStrategy::Debate || job.request.execution_strategy
            == ExecutionStrategy::Consensus) && answers.len() >= 2,
        agreement_of(job, answers, standings) matches Some(report) ==> report.mode
            == ConsensusMode::ConfidenceWeighted,
{
}

/// What a job reports is nothing to be sure of where nothing is reported, is otherwise as sure as
/// was worked out, and comes with the job's own status and figures.
pub proof fn law_the_report_is_the_jobs_own(
    job: JobView,
    g: GraphView,
    results: Seq<TaskResultView>,
    status: JobStatus,
    statistics: ExecutionStatistics,
    standings: Seq<StandingView>,
    confidence: Real32,
)
    ensures
        ({
            let report = merged(job, g, results, status, statistics, standings, confidence);
            &&& report.job_id == job.id
            &&& report.status == status
            &&& report.execution_statistics == statistics
            &&& report.outputs.len() == 0 ==> report.confidence_score.bits == 0
            &&& report.outputs.len() > 0 ==> report.confidence_score == confidence
        }),
{
}

/// A text without a line break is its only line.
proof fn lemma_one_line(s: Seq<char>, current: Seq<char>)
    requires
        forall|i: int| 0 <= i < s.len() ==> #[trigger] s[i] != '\n',
        s.len() + current.len() > 0,
    ensures
        lines_from(s, current) == seq![current + s],
    decreases s.len(),
{
    if s.len() == 0 {
        assert(current + s =~= current);
    } else {
        let rest = s.skip(1);
        assert forall|i: int| 0 <= i < rest.len() implies #[trigger] rest[i] != '\n' by {
            assert(rest[i] == s[i + 1]);
        }
        lemma_one_line(rest, current.push(s[0]));
        assert(current.push(s[0]) + rest =~= current + s);
    }
}

/// A text that does not hold a separator is its only part.
proof fn lemma_one_part(s: Seq<char>, current: Seq<char>, separator: Seq<char>)
    requires
        !holds(s, separator),
    ensures
        split_from(s, current, separator) == seq![current + s],
    decreases s.len(),
{
    if s.len() == 0 {
        assert(current + s =~= current);
    } else {
        let rest = s.skip(1);
        assert(!stands_at(s, separator, 0));
        assert(!holds(rest, separator)) by {
            if holds(rest, separator) {
                let at = choose|at: int| #[trigger] stands_at(rest, separator, at);
                assert(rest.subrange(at, at + separator.len()) =~= s.subrange(
                    at + 1,
                    at + 1 + separator.len(),
                ));
                assert(stands_at(s, separator, at + 1));
            }
        }
        lemma_one_part(rest, current.push(s[0]), separator);
        assert(current.push(s[0]) + rest =~= current + s);
    }
}

/// A headline is never long, and a short sentence of one line is its own headline.
pub proof fn law_a_short_sentence_is_its_own_headline(output: Seq<char>)
    ensures
        headline_of(output).len() <= 240,
        output.len() <= 240 && output.len() > 0 && (forall|i: int|
            0 <= i < output.len() ==> #[trigger] output[i] != '\n') && trimmed(output) == output
            && !holds(output, ". "@) ==> headline_of(output) == output,
{
    let none: Seq<char> = seq![];
    if output.len() <= 240 && output.len() > 0 && (forall|i: int|
        0 <= i < output.len() ==> #[trigger] output[i] != '\n') && trimmed(output) == output
        && !holds(output, ". "@) {
        lemma_one_line(output, none);
        lemma_one_part(output, none, ". "@);
        assert(none + output =~= output);
    }
}

} // verus!
