//! Turning an objective into a task DAG.
//!
//! Decomposition is a **deterministic stage compiler**, not an LLM call: a strategy
//! maps to a list of stages, each stage has a kind and a fan-out, and stage *n* depends
//! on every task in stage *n-1*. The same objective and strategy always produce the
//! same graph, which is what makes benchmarks reproducible and stops an unparseable
//! plan from failing a whole job.

use crate::error::{ErrorView, SwarmError};
use crate::graph::{lemma_first_missing, GraphView, TaskGraph};
use crate::ids::TaskId;
use crate::job::{ExecutionStrategy, Job, JobRequest, JobRequestView, JobView};
use crate::task::{copy_ids, rule_views, RuleView, TaskKind, TaskNode, TaskState, TaskView,
    ValidationRule};
use crate::text::{
    chars_of, decimal, decimal_text, first_words, holds, lemma_decimal_injective, lemma_filter_push,
    lemma_holds_between,
    lowercase, pieces, same_text, shorten, split_on, split_pieces, split_str, string_of, trim_chars,
    trimmed, vec_views, views, word_count, words, Separator,
};
use vstd::prelude::*;

verus! {

/// One horizontal slice of a compiled strategy.
#[derive(Debug)]
pub struct Stage {
    /// What the stage's tasks do.
    pub kind: TaskKind,
    /// How many tasks run in parallel in this stage.
    pub fanout: usize,
    /// Human-readable label, used as the title prefix.
    pub label: String,
}

/// What a stage holds.
#[verifier::ext_equal]
pub struct StageView {
    /// What the stage's tasks do.
    pub kind: TaskKind,
    /// How many tasks run in parallel.
    pub fanout: nat,
    /// Human-readable label.
    pub label: Seq<char>,
}

impl View for Stage {
    type V = StageView;

    open spec fn view(&self) -> StageView {
        StageView { kind: self.kind, fanout: self.fanout as nat, label: self.label@ }
    }
}

/// What the stages of a plan hold.
pub open spec fn stage_views(plan: Seq<Stage>) -> Seq<StageView> {
    Seq::new(plan.len(), |i: int| plan[i]@)
}

/// A number, or one where it is zero.
pub open spec fn at_least_one(n: nat) -> nat {
    if n == 0 {
        1
    } else {
        n
    }
}

/// A stage; it has at least one task.
pub open spec fn stage(kind: TaskKind, fanout: nat, label: Seq<char>) -> StageView {
    StageView { kind, fanout: at_least_one(fanout), label }
}

impl Stage {
    /// A stage; it has at least one task.
    fn new(kind: TaskKind, fanout: usize, label: &str) -> (r: Self)
        ensures
            r@ == stage(kind, fanout as nat, label@),
    {
        Stage {
            kind,
            fanout: if fanout == 0 {
                1
            } else {
                fanout
            },
            label: label.to_owned(),
        }
    }
}

/// Whether a character separates the items of a list.
pub open spec fn enumerates(c: char) -> bool {
    c == ',' || c == ';' || c == '\n'
}

/// How many times an objective enumerates: by list characters and by "and".
pub open spec fn enumerations(objective: Seq<char>) -> nat {
    (objective.filter(|c: char| enumerates(c)).len() + split_on(
        lowercase(objective),
        " and "@,
    ).len() - 1) as nat
}

/// How many parallel branches an objective seems to deserve, between two and eight.
pub open spec fn complexity(objective: Seq<char>) -> nat {
    let estimate = 2 + words(objective).len() / 10 + enumerations(objective);
    if estimate > 8 {
        8
    } else {
        estimate
    }
}

/// How many parallel branches an objective seems to deserve.
///
/// Counts words and explicit enumeration (commas, semicolons, newlines, "and"), then
/// clamps hard. A heuristic, but a *stable* one — and the caller's `max_agents` is the
/// real bound.
pub fn estimate_complexity(objective: &str) -> (r: u32)
    ensures
        r == complexity(objective@),
        2 <= r <= 8,
{
    let count: usize = word_count(objective);
    let chars = chars_of(objective);
    let mut listed: usize = 0;
    for i in 0..chars.len()
        invariant
            chars@ == objective@,
            listed <= i,
            listed == objective@.take(i as int).filter(|c: char| enumerates(c)).len(),
    {
        proof {
            assert(objective@.take(i + 1) =~= objective@.take(i as int).push(objective@[i as int]));
            lemma_filter_push(
                objective@.take(i as int),
                objective@[i as int],
                |c: char| enumerates(c),
            );
        }
        let c = chars[i];
        if c == ',' || c == ';' || c == '\n' {
            listed = listed + 1;
        }
    }
    assert(objective@.take(objective@.len() as int) =~= objective@);
    let lower = objective.to_lowercase();
    let lower_chars = chars_of(lower.as_str());
    let parts = split_str(&lower_chars, " and ");
    assert(vec_views(parts@).len() == parts@.len());
    let estimate: u128 = 2 + (count / 10) as u128 + listed as u128 + (parts.len() - 1) as u128;
    if estimate > 8 {
        8
    } else {
        estimate as u32
    }
}

/// The stages a strategy is compiled into.
pub open spec fn compiled(strategy: ExecutionStrategy, fanout: nat) -> Seq<StageView> {
    let wide = at_least_one(fanout);
    let half = wide / 2;
    match strategy {
        ExecutionStrategy::Sequential => seq![stage(TaskKind::Plan, 1, "Plan"@)] + Seq::new(
            if wide < 4 {
                wide
            } else {
                4
            },
            |i: int| stage(TaskKind::Work, 1, "Step "@ + decimal((i + 1) as nat)),
        ) + seq![stage(TaskKind::Summarize, 1, "Summary"@)],
        ExecutionStrategy::Parallel => seq![
            stage(TaskKind::Plan, 1, "Plan"@),
            stage(TaskKind::Work, wide, "Investigate"@),
            stage(TaskKind::Merge, 1, "Merge"@),
        ],
        ExecutionStrategy::Hierarchical => seq![
            stage(TaskKind::Plan, 1, "Plan"@),
            stage(TaskKind::Subplan, half, "Sub-plan"@),
            stage(TaskKind::Work, wide, "Investigate"@),
            stage(TaskKind::Merge, 1, "Merge"@),
            stage(TaskKind::Verify, 1, "Verify"@),
        ],
        ExecutionStrategy::Debate => seq![
            stage(TaskKind::Answer, wide, "Answer"@),
            stage(TaskKind::Critique, wide, "Critique"@),
            stage(TaskKind::Judge, 1, "Judge"@),
        ],
        ExecutionStrategy::MapReduce => seq![
            stage(TaskKind::Plan, 1, "Partition"@),
            stage(TaskKind::MapStep, wide, "Map"@),
            stage(TaskKind::Reduce, 1, "Reduce"@),
        ],
        ExecutionStrategy::PlannerExecutor => seq![
            stage(TaskKind::Plan, 1, "Plan"@),
            stage(TaskKind::Work, wide, "Execute"@),
            stage(TaskKind::Verify, 1, "Verify"@),
        ],
        ExecutionStrategy::SupervisorWorker => seq![
            stage(TaskKind::Supervise, 1, "Assign"@),
            stage(TaskKind::Work, wide, "Work"@),
            stage(TaskKind::Critique, 1, "Review"@),
            stage(TaskKind::Merge, 1, "Merge"@),
        ],
        ExecutionStrategy::Consensus => seq![
            stage(TaskKind::Answer, wide, "Answer"@),
            stage(TaskKind::Vote, 1, "Vote"@),
            stage(TaskKind::Merge, 1, "Decide"@),
        ],
        ExecutionStrategy::Adaptive => seq![
            stage(TaskKind::Plan, 1, "Plan"@),
            stage(TaskKind::Work, half, "Explore"@),
            stage(TaskKind::Summarize, 1, "Summary"@),
        ],
    }
}

/// Three stages.
fn three(a: Stage, b: Stage, c: Stage) -> (r: Vec<Stage>)
    ensures
        stage_views(r@) == seq![a@, b@, c@],
{
    let mut r: Vec<Stage> = Vec::new();
    r.push(a);
    r.push(b);
    r.push(c);
    assert(stage_views(r@) =~= seq![a@, b@, c@]);
    r
}

/// Compile a strategy into stages.
pub fn stages(strategy: ExecutionStrategy, fanout: usize) -> (r: Vec<Stage>)
    ensures
        stage_views(r@) == compiled(strategy, fanout as nat),
        2 <= r@.len() <= 6,
        forall|i: int| 0 <= i < r@.len() ==> (#[trigger] r@[i]).fanout >= 1,
{
    let wide: usize = if fanout == 0 {
        1
    } else {
        fanout
    };
    let half: usize = wide / 2;
    let plan = match strategy {
        ExecutionStrategy::Sequential => {
            let mut plan: Vec<Stage> = Vec::new();
            plan.push(Stage::new(TaskKind::Plan, 1, "Plan"));
            let steps: usize = if wide < 4 {
                wide
            } else {
                4
            };
            for step in 0..steps
                invariant
                    steps <= 4,
                    plan@.len() == step + 1,
                    plan@[0]@ == stage(TaskKind::Plan, 1, "Plan"@),
                    forall|i: int|
                        0 < i <= step ==> (#[trigger] plan@[i])@ == stage(
                            TaskKind::Work,
                            1,
                            "Step "@ + decimal(i as nat),
                        ),
            {
                let mut label = "Step ".to_owned();
                label.append(decimal_text(step as u64 + 1).as_str());
                plan.push(Stage::new(TaskKind::Work, 1, label.as_str()));
            }
            plan.push(Stage::new(TaskKind::Summarize, 1, "Summary"));
            plan
        },
        ExecutionStrategy::Parallel => three(
            Stage::new(TaskKind::Plan, 1, "Plan"),
            Stage::new(TaskKind::Work, wide, "Investigate"),
            Stage::new(TaskKind::Merge, 1, "Merge"),
        ),
        ExecutionStrategy::Hierarchical => {
            let mut plan = three(
                Stage::new(TaskKind::Plan, 1, "Plan"),
                Stage::new(TaskKind::Subplan, half, "Sub-plan"),
                Stage::new(TaskKind::Work, wide, "Investigate"),
            );
            let ghost before = stage_views(plan@);
            plan.push(Stage::new(TaskKind::Merge, 1, "Merge"));
            plan.push(Stage::new(TaskKind::Verify, 1, "Verify"));
            assert(stage_views(plan@) =~= before.push(
                stage(TaskKind::Merge, 1, "Merge"@),
            ).push(stage(TaskKind::Verify, 1, "Verify"@)));
            plan
        },
        ExecutionStrategy::Debate => three(
            Stage::new(TaskKind::Answer, wide, "Answer"),
            Stage::new(TaskKind::Critique, wide, "Critique"),
            Stage::new(TaskKind::Judge, 1, "Judge"),
        ),
        ExecutionStrategy::MapReduce => three(
            Stage::new(TaskKind::Plan, 1, "Partition"),
            Stage::new(TaskKind::MapStep, wide, "Map"),
            Stage::new(TaskKind::Reduce, 1, "Reduce"),
        ),
        ExecutionStrategy::PlannerExecutor => three(
            Stage::new(TaskKind::Plan, 1, "Plan"),
            Stage::new(TaskKind::Work, wide, "Execute"),
            Stage::new(TaskKind::Verify, 1, "Verify"),
        ),
        ExecutionStrategy::SupervisorWorker => {
            let mut plan = three(
                Stage::new(TaskKind::Supervise, 1, "Assign"),
                Stage::new(TaskKind::Work, wide, "Work"),
                Stage::new(TaskKind::Critique, 1, "Review"),
            );
            let ghost before = stage_views(plan@);
            plan.push(Stage::new(TaskKind::Merge, 1, "Merge"));
            assert(stage_views(plan@) =~= before.push(stage(TaskKind::Merge, 1, "Merge"@)));
            plan
        },
        ExecutionStrategy::Consensus => three(
            Stage::new(TaskKind::Answer, wide, "Answer"),
            Stage::new(TaskKind::Vote, 1, "Vote"),
            Stage::new(TaskKind::Merge, 1, "Decide"),
        ),
        // Adaptive starts deliberately small: agents insert the rest of the work as
        // they discover it, via TaskGraph::insert_dynamic.
        ExecutionStrategy::Adaptive => three(
            Stage::new(TaskKind::Plan, 1, "Plan"),
            Stage::new(TaskKind::Work, half, "Explore"),
            Stage::new(TaskKind::Summarize, 1, "Summary"),
        ),
    };
    proof {
        let spec = compiled(strategy, fanout as nat);
        assert(stage_views(plan@) =~= spec);
        assert(stage_views(plan@).len() == plan@.len());
        assert forall|i: int| 0 <= i < plan@.len() implies (#[trigger] plan@[i]).fanout >= 1 by {
            assert(stage_views(plan@)[i] == plan@[i]@);
            assert(spec[i].fanout >= 1);
        }
    }
    plan
}

/// The mechanical checks a task of a kind must pass.
pub open spec fn checks_for(kind: TaskKind) -> Seq<RuleView> {
    let base = seq![
        RuleView::NonEmpty,
        RuleView::RequiredJsonKeys(seq!["summary"@, "confidence"@]),
    ];
    match kind {
        TaskKind::Plan | TaskKind::Subplan | TaskKind::Supervise => base.push(
            RuleView::MinWords(10),
        ),
        TaskKind::Work | TaskKind::MapStep | TaskKind::Answer | TaskKind::Critique => base.push(
            RuleView::MinWords(15),
        ),
        TaskKind::Merge | TaskKind::Reduce | TaskKind::Summarize | TaskKind::Judge => base.push(
            RuleView::MinWords(12),
        ),
        TaskKind::Verify | TaskKind::Vote => base,
    }
}

/// The mechanical checks a task of `kind` must pass.
///
/// Deliberately coarse: these gate obvious garbage so that critic and verifier agents
/// only spend tokens on plausible output.
pub fn validation_for(kind: TaskKind) -> (r: Vec<ValidationRule>)
    ensures
        rule_views(r@) == checks_for(kind),
{
    let mut keys: Vec<String> = Vec::new();
    keys.push("summary".to_owned());
    keys.push("confidence".to_owned());
    assert(views(keys@) =~= seq!["summary"@, "confidence"@]);
    let mut rules: Vec<ValidationRule> = Vec::new();
    rules.push(ValidationRule::NonEmpty);
    rules.push(ValidationRule::RequiredJsonKeys(keys));
    match kind {
        TaskKind::Plan | TaskKind::Subplan | TaskKind::Supervise => {
            rules.push(ValidationRule::MinWords(10));
        },
        TaskKind::Work | TaskKind::MapStep | TaskKind::Answer | TaskKind::Critique => {
            rules.push(ValidationRule::MinWords(15));
        },
        TaskKind::Merge | TaskKind::Reduce | TaskKind::Summarize | TaskKind::Judge => {
            rules.push(ValidationRule::MinWords(12));
        },
        TaskKind::Verify | TaskKind::Vote => {},
    }
    assert(rule_views(rules@) =~= checks_for(kind));
    rules
}

/// The clauses of an objective, cut at list characters and at "and", for the first `n` of its
/// pieces.
pub open spec fn cut_pieces(list: Seq<Seq<char>>) -> Seq<Seq<char>>
    decreases list.len(),
{
    if list.len() == 0 {
        seq![]
    } else {
        cut_pieces(list.drop_last()) + split_on(list.last(), " and "@)
    }
}

/// The clauses of a list that say something: those of two words or more, by their first ten.
pub open spec fn worthwhile(list: Seq<Seq<char>>) -> Seq<Seq<char>>
    decreases list.len(),
{
    if list.len() == 0 {
        seq![]
    } else {
        let rest = worthwhile(list.drop_last());
        let clause = first_words(trimmed(list.last()), 10);
        if words(clause).len() >= 2 {
            rest.push(clause)
        } else {
            rest
        }
    }
}

/// Whether a list holds a text, whatever the case.
pub open spec fn holds_any_case(list: Seq<Seq<char>>, text: Seq<char>) -> bool {
    exists|i: int| 0 <= i < list.len() && lowercase(#[trigger] list[i]) == lowercase(text)
}

/// The first of each text in a list, whatever the case.
pub open spec fn distinct_topics(list: Seq<Seq<char>>) -> Seq<Seq<char>>
    decreases list.len(),
{
    if list.len() == 0 {
        seq![]
    } else {
        let rest = distinct_topics(list.drop_last());
        if holds_any_case(rest, list.last()) {
            rest
        } else {
            rest.push(list.last())
        }
    }
}

/// The topics the author already wrote, each once.
pub open spec fn written_topics(objective: Seq<char>) -> Seq<Seq<char>> {
    distinct_topics(worthwhile(cut_pieces(pieces(objective, Separator::Clause))))
}

/// The topics the author already wrote, at most `count` of them.
pub open spec fn own_topics(objective: Seq<char>, count: nat) -> Seq<Seq<char>> {
    let all = written_topics(objective);
    all.take(
        if count < all.len() {
            count as int
        } else {
            all.len() as int
        },
    )
}

/// A numbered aspect of an objective.
pub open spec fn aspect(stem: Seq<char>, n: nat) -> Seq<char> {
    stem + " — aspect "@ + decimal(n)
}

/// The aspects up to number `n` that `taken` does not hold.
pub open spec fn free_aspects(taken: Seq<Seq<char>>, stem: Seq<char>, n: nat) -> Seq<Seq<char>>
    decreases n,
{
    if n == 0 {
        seq![]
    } else {
        let rest = free_aspects(taken, stem, (n - 1) as nat);
        if taken.contains(aspect(stem, n)) {
            rest
        } else {
            rest.push(aspect(stem, n))
        }
    }
}

/// The number of aspects to look at to find `wanted` free ones.
pub open spec fn aspects_needed(taken: Seq<Seq<char>>, stem: Seq<char>, wanted: nat) -> nat {
    choose|n: nat| #[trigger] free_aspects(taken, stem, n).len() == wanted
}

/// The subtopics of an objective: what the author wrote, padded with numbered aspects.
pub open spec fn subtopics_of(objective: Seq<char>, count: nat) -> Seq<Seq<char>> {
    let own = own_topics(objective, count);
    let stem = first_words(objective, 6);
    let wanted = (count - own.len()) as nat;
    own + free_aspects(own, stem, aspects_needed(own, stem, wanted))
}

/// Aspects of different number differ.
proof fn lemma_aspect_injective(stem: Seq<char>, a: nat, b: nat)
    requires
        aspect(stem, a) == aspect(stem, b),
    ensures
        a == b,
{
    let head = stem + " — aspect "@;
    assert(aspect(stem, a).skip(head.len() as int) =~= decimal(a));
    assert(aspect(stem, b).skip(head.len() as int) =~= decimal(b));
    lemma_decimal_injective(a, b);
}

/// Fewer aspects are a beginning of more, and lists of the same length are the same.
proof fn lemma_free_aspects_grow(taken: Seq<Seq<char>>, stem: Seq<char>, n: nat, m: nat)
    requires
        n <= m,
    ensures
        free_aspects(taken, stem, n).len() <= free_aspects(taken, stem, m).len(),
        free_aspects(taken, stem, n).len() == free_aspects(taken, stem, m).len() ==> free_aspects(
            taken,
            stem,
            n,
        ) == free_aspects(taken, stem, m),
    decreases m,
{
    if n < m {
        lemma_free_aspects_grow(taken, stem, n, (m - 1) as nat);
    }
}

/// The free aspects are those of a number up to `n`.
proof fn lemma_free_aspects_range(taken: Seq<Seq<char>>, stem: Seq<char>, n: nat)
    ensures
        forall|k: int|
            0 <= k < free_aspects(taken, stem, n).len() ==> !taken.contains(
                #[trigger] free_aspects(taken, stem, n)[k],
            ) && exists|m: nat|
                1 <= m <= n && free_aspects(taken, stem, n)[k] == #[trigger] aspect(stem, m),
        free_aspects(taken, stem, n).no_duplicates(),
    decreases n,
{
    if n > 0 {
        let m = (n - 1) as nat;
        lemma_free_aspects_range(taken, stem, m);
        let rest = free_aspects(taken, stem, m);
        let all = free_aspects(taken, stem, n);
        assert forall|k: int| 0 <= k < all.len() implies !taken.contains(#[trigger] all[k])
            && exists|q: nat| 1 <= q <= n && all[k] == #[trigger] aspect(stem, q) by {
            if k < rest.len() {
                assert(all[k] == rest[k]);
                let q = choose|q: nat| 1 <= q <= m && rest[k] == #[trigger] aspect(stem, q);
                assert(all[k] == aspect(stem, q));
            } else {
                assert(all[k] == aspect(stem, n));
            }
        }
        assert forall|a: int, b: int| 0 <= a < b < all.len() implies all[a] != all[b] by {
            assert(all[a] == rest[a]);
            if b < rest.len() {
                assert(all[b] == rest[b]);
            } else {
                let q = choose|q: nat| 1 <= q <= m && rest[a] == #[trigger] aspect(stem, q);
                if all[a] == all[b] {
                    lemma_aspect_injective(stem, q, n);
                }
            }
        }
    }
}

/// Each text that is taken rules out at most one aspect.
proof fn lemma_aspects_left(taken: Seq<Seq<char>>, stem: Seq<char>, n: nat)
    ensures
        free_aspects(taken, stem, n).len() + taken.len() >= n,
    decreases taken.len(),
{
    if taken.len() == 0 {
        lemma_all_free(taken, stem, n);
    } else {
        let fewer = taken.drop_last();
        lemma_aspects_left(fewer, stem, n);
        lemma_one_more_taken(fewer, taken.last(), stem, n);
        assert(fewer.push(taken.last()) =~= taken);
    }
}

/// Where nothing is taken every aspect is free.
proof fn lemma_all_free(taken: Seq<Seq<char>>, stem: Seq<char>, n: nat)
    requires
        taken.len() == 0,
    ensures
        free_aspects(taken, stem, n).len() == n,
    decreases n,
{
    if n > 0 {
        lemma_all_free(taken, stem, (n - 1) as nat);
    }
}

/// One more text that is taken rules out at most one more aspect.
proof fn lemma_one_more_taken(taken: Seq<Seq<char>>, text: Seq<char>, stem: Seq<char>, n: nat)
    ensures
        free_aspects(taken.push(text), stem, n).len() + 1 >= free_aspects(taken, stem, n).len(),
        (forall|m: nat| 1 <= m <= n ==> #[trigger] aspect(stem, m) != text) ==> free_aspects(
            taken.push(text),
            stem,
            n,
        ).len() == free_aspects(taken, stem, n).len(),
    decreases n,
{
    if n > 0 {
        let m = (n - 1) as nat;
        lemma_one_more_taken(taken, text, stem, m);
        let more = taken.push(text);
        let this = aspect(stem, n);
        assert(more.contains(this) <==> taken.contains(this) || this == text) by {
            if taken.contains(this) {
                let k = taken.index_of(this);
                assert(more[k] == this);
            }
            assert(more[taken.len() as int] == text);
        }
        if this == text {
            assert forall|q: nat| 1 <= q <= m implies #[trigger] aspect(stem, q) != text by {
                if aspect(stem, q) == text {
                    lemma_aspect_injective(stem, q, n);
                }
            }
        }
    }
}

/// Looking further is enough to find as many free aspects as are wanted.
proof fn lemma_aspects_exist(taken: Seq<Seq<char>>, stem: Seq<char>, wanted: nat, n: nat)
    requires
        free_aspects(taken, stem, n).len() == wanted,
    ensures
        free_aspects(taken, stem, aspects_needed(taken, stem, wanted)) == free_aspects(
            taken,
            stem,
            n,
        ),
{
    let m = aspects_needed(taken, stem, wanted);
    assert(free_aspects(taken, stem, m).len() == wanted);
    if m <= n {
        lemma_free_aspects_grow(taken, stem, m, n);
    } else {
        lemma_free_aspects_grow(taken, stem, n, m);
    }
}

/// For any number of free aspects there is a number of aspects that has them.
proof fn lemma_some_aspects(taken: Seq<Seq<char>>, stem: Seq<char>, wanted: nat, n: nat)
    requires
        free_aspects(taken, stem, n).len() >= wanted,
    ensures
        exists|m: nat| #[trigger] free_aspects(taken, stem, m).len() == wanted,
    decreases n,
{
    if free_aspects(taken, stem, n).len() > wanted {
        lemma_some_aspects(taken, stem, wanted, (n - 1) as nat);
    }
}

/// The list of distinct topics holds no text twice.
proof fn lemma_distinct_topics(list: Seq<Seq<char>>)
    ensures
        distinct_topics(list).no_duplicates(),
    decreases list.len(),
{
    if list.len() > 0 {
        lemma_distinct_topics(list.drop_last());
        let rest = distinct_topics(list.drop_last());
        let all = distinct_topics(list);
        assert forall|a: int, b: int| 0 <= a < b < all.len() implies all[a] != all[b] by {
            assert(all[a] == rest[a]);
            if b < rest.len() {
                assert(all[b] == rest[b]);
            } else if all[a] == all[b] {
                assert(lowercase(rest[a]) == lowercase(list.last()));
            }
        }
    }
}

/// Subtopics are distinct, and exactly as many as asked for.
pub proof fn law_subtopics_are_distinct(objective: Seq<char>, count: nat)
    ensures
        subtopics_of(objective, count).len() == count,
        subtopics_of(objective, count).no_duplicates(),
{
    let own = own_topics(objective, count);
    let stem = first_words(objective, 6);
    let wanted = (count - own.len()) as nat;
    lemma_aspects_left(own, stem, wanted + own.len());
    lemma_some_aspects(own, stem, wanted, wanted + own.len());
    let n = aspects_needed(own, stem, wanted);
    assert(free_aspects(own, stem, n).len() == wanted);
    lemma_free_aspects_range(own, stem, n);
    lemma_distinct_topics(worthwhile(cut_pieces(pieces(objective, Separator::Clause))));
    let all = subtopics_of(objective, count);
    let padding = free_aspects(own, stem, n);
    let written = written_topics(objective);
    assert forall|a: int, b: int| 0 <= a < b < all.len() implies all[a] != all[b] by {
        if b < own.len() {
            assert(all[a] == written[a] && all[b] == written[b]);
        } else if a < own.len() {
            assert(all[b] == padding[b - own.len()]);
            assert(own[a] == all[a]);
        } else {
            assert(all[a] == padding[a - own.len()]);
            assert(all[b] == padding[b - own.len()]);
        }
    }
}

/// Whether a list holds a text, whatever the case.
fn has_any_case(list: &Vec<String>, text: &str) -> (r: bool)
    ensures
        r == holds_any_case(views(list@), text@),
{
    let lower = text.to_lowercase();
    for i in 0..list.len()
        invariant
            lower@ == lowercase(text@),
            forall|k: int|
                0 <= k < i ==> lowercase(#[trigger] views(list@)[k]) != lowercase(text@),
    {
        let other = list[i].as_str().to_lowercase();
        assert(views(list@)[i as int] == list@[i as int]@);
        if same_text(other.as_str(), lower.as_str()) {
            assert(lowercase(views(list@)[i as int]) == lowercase(text@));
            return true;
        }
    }
    false
}

/// The topics the author already wrote.
fn topics_written(objective: &str) -> (r: Vec<String>)
    ensures
        views(r@) == written_topics(objective@),
{
    let chars = chars_of(objective);
    let list = split_pieces(&chars, Separator::Clause);
    let ghost cuts = vec_views(list@);
    let mut topics: Vec<String> = Vec::new();
    let ghost mut seen: Seq<Seq<char>> = seq![];
    proof {
        assert(cuts.take(0) =~= seq![]);
        assert(cut_pieces(cuts.take(0)) =~= seq![]);
        assert(views(topics@) =~= seq![]);
    }
    for i in 0..list.len()
        invariant
            cuts == vec_views(list@),
            cuts.len() == list@.len(),
            seen == cut_pieces(cuts.take(i as int)),
            views(topics@) == distinct_topics(worthwhile(seen)),
    {
        let parts = split_str(&list[i], " and ");
        let ghost clauses = vec_views(parts@);
        let ghost before = seen;
        proof {
            assert(clauses == split_on(cuts[i as int], " and "@));
            assert(before + clauses.take(0) =~= before);
        }
        for j in 0..parts.len()
            invariant
                clauses == vec_views(parts@),
                clauses.len() == parts@.len(),
                seen == before + clauses.take(j as int),
                views(topics@) == distinct_topics(worthwhile(seen)),
        {
            let bare = trim_chars(&parts[j]);
            let clause = shorten(string_of(&bare).as_str(), 10);
            let ghost next = seen.push(clauses[j as int]);
            proof {
                assert(next.drop_last() =~= seen);
                assert(next.last() == parts@[j as int]@);
                assert(next =~= before + clauses.take(j + 1));
            }
            if word_count(clause.as_str()) >= 2 {
                let ghost kept = worthwhile(seen);
                assert(worthwhile(next) == kept.push(clause@));
                assert(kept.push(clause@).drop_last() =~= kept);
                if !has_any_case(&topics, clause.as_str()) {
                    let ghost earlier = views(topics@);
                    topics.push(clause);
                    assert(views(topics@) =~= earlier.push(clause@));
                }
            }
            proof {
                seen = next;
            }
        }
        proof {
            assert(clauses.take(clauses.len() as int) =~= clauses);
            assert(cuts.take(i + 1).drop_last() =~= cuts.take(i as int));
            assert(cuts.take(i + 1).last() == cuts[i as int]);
        }
    }
    assert(cuts.take(cuts.len() as int) =~= cuts);
    topics
}

/// Split an objective into `count` distinct subtopics.
///
/// Prefers the structure the author already wrote (clauses, lists); pads with numbered
/// aspects when the objective is one short phrase. Results are unique, because task
/// titles feed idempotency keys and a collision would silently drop a task.
pub fn subtopics(objective: &str, count: usize) -> (r: Vec<String>)
    requires
        count <= u32::MAX,
    ensures
        views(r@) == subtopics_of(objective@, count as nat),
        r@.len() == count,
        views(r@).no_duplicates(),
{
    let mut topics = topics_written(objective);
    let ghost own = own_topics(objective@, count as nat);
    if topics.len() > count {
        topics.truncate(count);
    }
    assert(views(topics@) =~= own);
    let stem = shorten(objective, 6);
    let ghost wanted = (count - own.len()) as nat;
    let mut number: u64 = 0;
    proof {
        assert(own + free_aspects(own, stem@, 0) =~= own);
        lemma_aspects_left(own, stem@, 0);
    }
    while topics.len() < count
        invariant
            own.len() <= count <= u32::MAX,
            stem@ == first_words(objective@, 6),
            wanted == count - own.len(),
            views(topics@) == own + free_aspects(own, stem@, number as nat),
            topics@.len() <= count,
            number <= count + own.len(),
        decreases count + own.len() - number,
    {
        proof {
            lemma_aspects_left(own, stem@, number as nat);
            lemma_free_aspects_range(own, stem@, number as nat);
            assert(views(topics@).len() == topics@.len());
        }
        let mut candidate = stem.clone();
        candidate.append(" — aspect ");
        candidate.append(decimal_text(number + 1).as_str());
        let ghost before = views(topics@);
        let ghost free = free_aspects(own, stem@, number as nat);
        assert(candidate@ == aspect(stem@, (number + 1) as nat));
        let taken = crate::text::has_text(topics.as_slice(), candidate.as_str());
        proof {
            assert(taken <==> own.contains(candidate@)) by {
                if taken {
                    let k = before.index_of(candidate@);
                    assert(before[k] == candidate@);
                    if k >= own.len() {
                        assert(free[k - own.len()] == candidate@);
                        let q = choose|q: nat|
                            1 <= q <= number && free[k - own.len()] == #[trigger] aspect(stem@, q);
                        lemma_aspect_injective(stem@, q, (number + 1) as nat);
                    } else {
                        assert(own[k] == candidate@);
                    }
                }
                if own.contains(candidate@) {
                    let k = own.index_of(candidate@);
                    assert(before[k] == candidate@);
                }
            }
        }
        if !taken {
            let ghost text = candidate@;
            topics.push(candidate);
            assert(views(topics@) =~= before.push(text));
            assert((own + free).push(text) =~= own + free.push(text));
        }
        number = number + 1;
    }
    proof {
        assert(views(topics@).len() == topics@.len());
        lemma_aspects_exist(own, stem@, wanted, number as nat);
        law_subtopics_are_distinct(objective@, count as nat);
    }
    topics
}

/// The instruction handed to the agent for one task.
pub open spec fn instruction(kind: TaskKind, focus: Seq<char>, objective: Seq<char>) -> Seq<char> {
    match kind {
        TaskKind::Plan =>
            "Break the objective into independent pieces of work. Objective: "@ + objective,
        TaskKind::Subplan => "Plan the work needed for `"@ + focus + "` within: "@ + objective,
        TaskKind::Work => "Investigate `"@ + focus
            + "` and report what you established, with sources."@,
        TaskKind::MapStep => "Process the `"@ + focus
            + "` partition and return its partial result."@,
        TaskKind::Reduce => "Combine the partial results into one consistent result."@,
        TaskKind::Answer => "Answer independently, without deferring to peers: "@ + focus,
        TaskKind::Critique => "Find the weakest claim in the work on `"@ + focus
            + "` and say why."@,
        TaskKind::Verify =>
            "Check each claim against its stated evidence and flag unsupported ones."@,
        TaskKind::Judge =>
            "Compare the competing answers and choose the best-supported one, with reasons."@,
        TaskKind::Vote => "Vote for the answer best supported by evidence, with a confidence."@,
        TaskKind::Merge =>
            "Merge the validated outputs, removing duplication and surfacing conflicts."@,
        TaskKind::Summarize => "Summarise what the swarm established about: "@ + objective,
        TaskKind::Supervise => "Assign the work for `"@ + focus
            + "` and state what good output looks like."@,
    }
}

/// A text between two others.
fn around(before: &str, text: &str, after: &str) -> (r: String)
    ensures
        r@ == before@ + text@ + after@,
{
    let mut r = before.to_owned();
    r.append(text);
    r.append(after);
    r
}

/// A text behind another.
fn behind(before: &str, text: &str) -> (r: String)
    ensures
        r@ == before@ + text@,
{
    let mut r = before.to_owned();
    r.append(text);
    r
}

/// The instruction handed to the agent for one task.
fn describe(kind: TaskKind, focus: &str, objective: &str) -> (r: String)
    ensures
        r@ == instruction(kind, focus@, objective@),
{
    match kind {
        TaskKind::Plan => behind(
            "Break the objective into independent pieces of work. Objective: ",
            objective,
        ),
        TaskKind::Subplan => {
            let mut r = around("Plan the work needed for `", focus, "` within: ");
            r.append(objective);
            r
        },
        TaskKind::Work => around(
            "Investigate `",
            focus,
            "` and report what you established, with sources.",
        ),
        TaskKind::MapStep => around(
            "Process the `",
            focus,
            "` partition and return its partial result.",
        ),
        TaskKind::Reduce => "Combine the partial results into one consistent result.".to_owned(),
        TaskKind::Answer => behind("Answer independently, without deferring to peers: ", focus),
        TaskKind::Critique => around(
            "Find the weakest claim in the work on `",
            focus,
            "` and say why.",
        ),
        TaskKind::Verify =>
            "Check each claim against its stated evidence and flag unsupported ones.".to_owned(),
        TaskKind::Judge =>
            "Compare the competing answers and choose the best-supported one, with reasons."
                .to_owned(),
        TaskKind::Vote =>
            "Vote for the answer best supported by evidence, with a confidence.".to_owned(),
        TaskKind::Merge =>
            "Merge the validated outputs, removing duplication and surfacing conflicts.".to_owned(),
        TaskKind::Summarize => behind("Summarise what the swarm established about: ", objective),
        TaskKind::Supervise => around(
            "Assign the work for `",
            focus,
            "` and state what good output looks like.",
        ),
    }
}

/// The stages that a request asks for.
pub open spec fn plan_for(request: JobRequestView) -> Seq<StageView> {
    compiled(request.execution_strategy, at_least_one(request.max_agents as nat))
}

/// The stages of a job.
pub open spec fn plan_of(job: JobView) -> Seq<StageView> {
    plan_for(job.request)
}

/// The largest fan-out among some stages.
pub open spec fn widest_of(plan: Seq<StageView>) -> nat
    decreases plan.len(),
{
    if plan.len() == 0 {
        0
    } else {
        let rest = widest_of(plan.drop_last());
        if plan.last().fanout > rest {
            plan.last().fanout
        } else {
            rest
        }
    }
}

/// How many tasks some stages have.
pub open spec fn task_total(plan: Seq<StageView>) -> nat
    decreases plan.len(),
{
    if plan.len() == 0 {
        0
    } else {
        task_total(plan.drop_last()) + plan.last().fanout
    }
}

/// How many dependencies some stages have: each task waits for all of the stage before.
pub open spec fn edge_total(plan: Seq<StageView>) -> nat
    decreases plan.len(),
{
    if plan.len() <= 1 {
        0
    } else {
        edge_total(plan.drop_last()) + plan[plan.len() - 2].fanout * plan.last().fanout
    }
}

/// Whether the index types have room for the plan of a job.
pub open spec fn plan_fits(job: JobView) -> bool {
    task_total(plan_of(job)) < u32::MAX && edge_total(plan_of(job)) <= u32::MAX
}

/// What the task in a slot of a stage is about.
pub open spec fn focus_of(job: JobView, stage: StageView, slot: nat) -> Seq<char> {
    let topics = subtopics_of(job.request.objective, widest_of(plan_of(job)));
    if stage.fanout == 1 {
        first_words(job.request.objective, 8)
    } else {
        topics[(slot % topics.len()) as int]
    }
}

/// The task in a slot of a stage.
pub open spec fn planned_task(
    job: JobView,
    stage: StageView,
    index: nat,
    slot: nat,
    previous: Seq<TaskId>,
    name: TaskId,
) -> TaskView {
    let focus = focus_of(job, stage, slot);
    TaskView {
        dependencies: previous,
        validation: checks_for(stage.kind),
        ..TaskView::created(
            name,
            job.id,
            stage.kind,
            stage.label + " · "@ + focus,
            instruction(stage.kind, focus, job.request.objective),
            index as u32,
        ).sized(complexity(job.request.objective) as u32)
    }
}

/// A graph with the tasks in the first `slots` slots of a stage.
pub open spec fn with_slots(
    g: GraphView,
    job: JobView,
    stage: StageView,
    index: nat,
    previous: Seq<TaskId>,
    names: Seq<TaskId>,
    slots: nat,
) -> GraphView
    decreases slots,
{
    if slots == 0 {
        g
    } else {
        let last = (slots - 1) as nat;
        with_slots(g, job, stage, index, previous, names, last).inserted(
            planned_task(job, stage, index, last, previous, names[last as int]),
        )
    }
}

/// The names of the tasks in stage `n`.
pub open spec fn stage_names(plan: Seq<StageView>, names: Seq<TaskId>, n: int) -> Seq<TaskId> {
    let from = task_total(plan.take(n)) as int;
    names.subrange(from, from + plan[n].fanout)
}

/// The names of the tasks that stage `n` waits for.
pub open spec fn names_before(plan: Seq<StageView>, names: Seq<TaskId>, n: int) -> Seq<TaskId> {
    if n <= 0 {
        seq![]
    } else {
        stage_names(plan, names, n - 1)
    }
}

/// The graph of the first `n` stages of a job, with the given names for its tasks.
pub open spec fn with_stages(job: JobView, names: Seq<TaskId>, n: nat) -> GraphView
    decreases n,
{
    if n == 0 {
        GraphView::empty(job.id)
    } else {
        let plan = plan_of(job);
        let last = (n - 1) as nat;
        with_slots(
            with_stages(job, names, last),
            job,
            plan[last as int],
            last,
            names_before(plan, names, last as int),
            stage_names(plan, names, last as int),
            plan[last as int].fanout,
        )
    }
}

/// The graph of a job, with the given names for its tasks.
pub open spec fn planned(job: JobView, names: Seq<TaskId>) -> GraphView {
    with_stages(job, names, plan_of(job).len())
}

/// The totals of the first stages are no larger than those of all.
proof fn lemma_totals_grow(plan: Seq<StageView>, n: int)
    requires
        0 <= n <= plan.len(),
    ensures
        task_total(plan.take(n)) <= task_total(plan),
        edge_total(plan.take(n)) <= edge_total(plan),
    decreases plan.len() - n,
{
    if n == plan.len() {
        assert(plan.take(n) =~= plan);
    } else {
        lemma_totals_grow(plan, n + 1);
        assert(plan.take(n + 1).drop_last() =~= plan.take(n));
        if n >= 1 {
            assert(plan.take(n + 1)[n - 1] == plan[n - 1]);
            assert(plan[n - 1].fanout * plan[n].fanout >= 0) by (nonlinear_arith);
        }
    }
}

/// No stage is wider than the widest.
proof fn lemma_widest(plan: Seq<StageView>, i: int)
    requires
        0 <= i < plan.len(),
    ensures
        plan[i].fanout <= widest_of(plan) <= task_total(plan),
    decreases plan.len(),
{
    if i < plan.len() - 1 {
        lemma_widest(plan.drop_last(), i);
    } else if plan.len() > 1 {
        lemma_widest(plan.drop_last(), 0);
    } else {
        reveal_with_fuel(widest_of, 2);
        reveal_with_fuel(task_total, 2);
    }
}

/// Whether the tasks of a graph go by the first of the given names, in order.
spec fn named_in_order(g: GraphView, names: Seq<TaskId>) -> bool {
    &&& g.tasks.len() <= names.len()
    &&& forall|i: int| 0 <= i < g.tasks.len() ==> (#[trigger] g.tasks[i]).id == names[i]
}

/// Which names a graph has whose tasks go by the first names.
proof fn lemma_named(g: GraphView, names: Seq<TaskId>, id: TaskId)
    requires
        named_in_order(g, names),
    ensures
        g.has(id) <==> names.take(g.tasks.len() as int).contains(id),
{
    let first = names.take(g.tasks.len() as int);
    if g.has(id) {
        let i = g.at(id);
        assert(g.stands(id, i));
        assert(first[i] == id);
    }
    if first.contains(id) {
        let i = first.index_of(id);
        assert(g.tasks[i].id == names[i]);
        assert(g.stands(id, i));
    }
}

/// Fresh names for the tasks that a request asks for.
pub fn fresh_names(request: &JobRequest) -> (r: Vec<TaskId>)
    ensures
        r@.len() == task_total(plan_for(request@)),
{
    let plan = stages(
        request.execution_strategy,
        if request.max_agents == 0 {
            1
        } else {
            request.max_agents
        },
    );
    let ghost all = plan_for(request@);
    let mut names: Vec<TaskId> = Vec::new();
    for i in 0..plan.len()
        invariant
            stage_views(plan@) == all,
            names@.len() == task_total(all.take(i as int)),
    {
        proof {
            assert(all.take(i + 1).drop_last() =~= all.take(i as int));
            assert(all.take(i + 1).last() == plan@[i as int]@);
        }
        let fanout: usize = plan[i].fanout;
        for slot in 0..fanout
            invariant
                names@.len() == task_total(all.take(i as int)) + slot,
        {
            names.push(TaskId::new());
        }
    }
    assert(all.take(all.len() as int) =~= all);
    names
}

/// Compile a job into its task graph, with fresh names for its tasks.
///
/// The returned graph is acyclic: a task waits only for tasks of the stage before.
pub fn decompose(job: &Job) -> (r: Result<TaskGraph, SwarmError>)
    requires
        plan_fits(job@),
    ensures
        exists|names: Seq<TaskId>| #[trigger] compiles_to(job@, names, r),
{
    let names = fresh_names(&job.request);
    let r = decompose_named(job, &names);
    assert(compiles_to(job@, names@, r));
    r
}

/// Whether the name at `k` is the first that was used before.
pub open spec fn first_repeated(names: Seq<TaskId>, k: int) -> bool {
    &&& 0 <= k < names.len()
    &&& names.take(k).no_duplicates()
    &&& names.take(k).contains(names[k])
}

/// Why a task cannot go by a name that was used before.
pub open spec fn name_taken(id: TaskId) -> ErrorView {
    ErrorView::Internal("task "@ + id.text() + " is already in the graph"@)
}

/// Names among which one is repeated are not distinct.
pub proof fn lemma_first_repeated(names: Seq<TaskId>, k: int)
    requires
        first_repeated(names, k),
    ensures
        !names.no_duplicates(),
{
    let j = names.take(k).index_of(names[k]);
    assert(names.take(k)[j] == names[k]);
    assert(names[j] == names[k]);
}

/// Whether compiling a job with the given names comes to a result: the planned graph where
/// the names are distinct, an error about the first name that was used before otherwise.
pub open spec fn compiles_to(
    job: JobView,
    names: Seq<TaskId>,
    r: Result<TaskGraph, SwarmError>,
) -> bool {
    &&& names.len() == task_total(plan_of(job))
    &&& match r {
        Ok(graph) => names.no_duplicates() && graph.wf() && graph@ == planned(job, names),
        Err(error) => exists|k: int| #[trigger]
            first_repeated(names, k) && error@ == name_taken(names[k]),
    }
}

/// Add the tasks of one stage to a graph. Returns their names.
fn add_stage(
    job: &Job,
    graph: &mut TaskGraph,
    stage: &Stage,
    n: usize,
    topics: &Vec<String>,
    names: &Vec<TaskId>,
    used: usize,
    previous: &Vec<TaskId>,
    size: u32,
) -> (r: Result<Vec<TaskId>, SwarmError>)
    requires
        n < plan_of(job@).len() <= 6,
        stage@ == plan_of(job@)[n as int],
        size == complexity(job@.request.objective),
        topics@.len() == widest_of(plan_of(job@)),
        topics@.len() >= 1,
        views(topics@) == subtopics_of(job@.request.objective, topics@.len()),
        used == task_total(plan_of(job@).take(n as int)),
        used + stage.fanout <= names@.len() < u32::MAX,
        old(graph).wf(),
        old(graph)@.tasks.len() == used,
        old(graph)@.edges.len() + previous@.len() * stage.fanout <= u32::MAX,
        named_in_order(old(graph)@, names@),
        names@.take(used as int).no_duplicates(),
        forall|k: int| 0 <= k < previous@.len() ==> old(graph)@.has(#[trigger] previous@[k]),
    ensures
        match r {
            Ok(current) => {
                &&& final(graph).wf()
                &&& final(graph)@ == with_slots(
                    old(graph)@,
                    job@,
                    stage@,
                    n as nat,
                    previous@,
                    stage_names(plan_of(job@), names@, n as int),
                    stage.fanout as nat,
                )
                &&& final(graph)@.tasks.len() == used + stage.fanout
                &&& final(graph)@.edges.len() == old(graph)@.edges.len() + previous@.len()
                    * stage.fanout
                &&& named_in_order(final(graph)@, names@)
                &&& names@.take(used + stage.fanout).no_duplicates()
                &&& current@ == stage_names(plan_of(job@), names@, n as int)
            },
            Err(error) => exists|k: int| #[trigger]
                first_repeated(names@, k) && error@ == name_taken(names@[k]),
        },
{
    let ghost plan_view = plan_of(job@);
    let ghost stage_view = stage@;
    let ghost before = graph@;
    let ghost current_names = stage_names(plan_view, names@, n as int);
    let request = &job.request;
    assert(previous@.len() * 0 == 0) by (nonlinear_arith);
    let mut current: Vec<TaskId> = Vec::new();
    let fanout: usize = stage.fanout;
    for slot in 0..fanout
        invariant
            fanout == stage.fanout,
            plan_view == plan_of(job@),
            n < plan_view.len() <= 6,
            stage_view == stage@,
            stage_view == plan_view[n as int],
            request == job.request,
            size == complexity(job@.request.objective),
            topics@.len() == widest_of(plan_view),
            topics@.len() >= 1,
            views(topics@) == subtopics_of(job@.request.objective, topics@.len()),
            used == task_total(plan_view.take(n as int)),
            used + stage.fanout <= names@.len() < u32::MAX,
            graph.wf(),
            current_names == stage_names(plan_view, names@, n as int),
            graph@ == with_slots(
                before,
                job@,
                stage_view,
                n as nat,
                previous@,
                current_names,
                slot as nat,
            ),
            graph@.tasks.len() == used + slot,
            graph@.edges.len() == before.edges.len() + previous@.len() * slot,
            before.edges.len() + previous@.len() * stage.fanout <= u32::MAX,
            named_in_order(graph@, names@),
            names@.take(used + slot).no_duplicates(),
            before.tasks.len() == used,
            named_in_order(before, names@),
            forall|k: int| 0 <= k < previous@.len() ==> before.has(#[trigger] previous@[k]),
            current@ == current_names.take(slot as int),
    {
        let focus = if stage.fanout == 1 {
            shorten(request.objective.as_str(), 8)
        } else {
            topics[slot % topics.len()].clone()
        };
        let mut title = stage.label.clone();
        title.append(" · ");
        title.append(focus.as_str());
        let name = names[used + slot];
        let node = TaskNode::create(
            name,
            job.id,
            stage.kind,
            title.as_str(),
            describe(stage.kind, focus.as_str(), request.objective.as_str()).as_str(),
            n as u32,
        ).with_dependencies(copy_ids(previous)).with_complexity(size).with_validation(
            validation_for(stage.kind),
        );
        let ghost here = graph@;
        let ghost task = node@;
        proof {
            assert(name == current_names[slot as int]);
            assert(focus@ == focus_of(job@, stage_view, slot as nat));
            assert(task == planned_task(
                job@,
                stage_view,
                n as nat,
                slot as nat,
                previous@,
                name,
            ));
            assert forall|k: int| 0 <= k < previous@.len() implies here.has(
                #[trigger] previous@[k],
            ) by {
                lemma_named(before, names@, previous@[k]);
                lemma_named(here, names@, previous@[k]);
                let first = names@.take(used as int);
                let q = first.index_of(previous@[k]);
                assert(first[q] == previous@[k]);
                assert(names@.take(used + slot)[q] == previous@[k]);
            }
            lemma_first_missing(here, previous@);
            lemma_named(here, names@, name);
            assert(previous@.len() * slot + previous@.len() == previous@.len() * (slot + 1))
                by (nonlinear_arith);
            assert(previous@.len() * (slot + 1) <= previous@.len() * stage.fanout)
                by (nonlinear_arith)
                requires
                    slot + 1 <= stage.fanout,
            ;
        }
        match graph.insert(node) {
            Ok(id) => {
                proof {
                    let grown = names@.take(used + slot + 1);
                    assert(grown =~= names@.take(used + slot).push(name));
                    assert(graph@ == here.inserted(task));
                    assert forall|i: int| 0 <= i < graph@.tasks.len() implies (
                    #[trigger] graph@.tasks[i]).id == names@[i] by {
                        if i < here.tasks.len() {
                            assert(graph@.tasks[i] == here.tasks[i]);
                        }
                    }
                    assert(here.positions_of(previous@).len() == previous@.len());
                    assert(current_names.take(slot + 1) =~= current_names.take(
                        slot as int,
                    ).push(name));
                }
                current.push(id);
            },
            Err(error) => {
                proof {
                    let k = used + slot;
                    assert(first_repeated(names@, k));
                }
                return Err(error);
            },
        }
    }
    assert(current_names.take(current_names.len() as int) =~= current_names);
    Ok(current)
}

/// Compile a job into its task graph, with the given names for its tasks.
pub fn decompose_named(job: &Job, names: &Vec<TaskId>) -> (r: Result<TaskGraph, SwarmError>)
    requires
        plan_fits(job@),
        names@.len() == task_total(plan_of(job@)),
    ensures
        compiles_to(job@, names@, r),
{
    let ghost plan_view = plan_of(job@);
    let request = &job.request;
    let size: u32 = estimate_complexity(request.objective.as_str());
    // `max_agents` is both the ceiling and the target: someone who asks for 100 agents
    // wants 100-way parallelism, not a heuristic's opinion of how hard the objective
    // looks. Complexity still sets per-task size and token estimates.
    let fanout: usize = if request.max_agents == 0 {
        1
    } else {
        request.max_agents
    };
    let plan = stages(request.execution_strategy, fanout);
    let mut widest: usize = 0;
    for i in 0..plan.len()
        invariant
            stage_views(plan@) == plan_view,
            widest == widest_of(plan_view.take(i as int)),
    {
        proof {
            assert(plan_view.take(i + 1).drop_last() =~= plan_view.take(i as int));
            assert(plan_view.take(i + 1).last() == plan@[i as int]@);
        }
        if plan[i].fanout > widest {
            widest = plan[i].fanout;
        }
    }
    proof {
        assert(plan_view.take(plan_view.len() as int) =~= plan_view);
        assert(stage_views(plan@).len() == plan@.len());
        lemma_widest(plan_view, 0);
    }
    let topics = subtopics(request.objective.as_str(), widest);
    let ghost topic_views = views(topics@);
    let mut graph = TaskGraph::new(job.id);
    let mut previous: Vec<TaskId> = Vec::new();
    let mut used: usize = 0;
    proof {
        assert(plan_view.take(0) =~= seq![]);
        assert(names@.take(0) =~= seq![]);
        assert(previous@ =~= names_before(plan_view, names@, 0));
    }
    for n in 0..plan.len()
        invariant
            plan_fits(job@),
            plan_view == plan_of(job@),
            stage_views(plan@) == plan_view,
            plan_view.len() == plan@.len() <= 6,
            forall|i: int| 0 <= i < plan@.len() ==> (#[trigger] plan@[i]).fanout >= 1,
            request == job.request,
            size == complexity(job@.request.objective),
            widest == widest_of(plan_view),
            widest >= 1,
            topic_views == views(topics@),
            topic_views == subtopics_of(job@.request.objective, widest as nat),
            topics@.len() == widest,
            names@.len() == task_total(plan_view),
            used == task_total(plan_view.take(n as int)),
            graph.wf(),
            graph@ == with_stages(job@, names@, n as nat),
            graph@.tasks.len() == used,
            graph@.edges.len() == edge_total(plan_view.take(n as int)),
            named_in_order(graph@, names@),
            names@.take(used as int).no_duplicates(),
            previous@ == names_before(plan_view, names@, n as int),
            n > 0 ==> previous@.len() == plan_view[n - 1].fanout,
    {
        let stage = &plan[n];
        let ghost stage_view = plan_view[n as int];
        let ghost before = graph@;
        let ghost current_names = stage_names(plan_view, names@, n as int);
        proof {
            assert(stage_view == plan@[n as int]@);
            assert(plan_view.take(n + 1).drop_last() =~= plan_view.take(n as int));
            assert(plan_view.take(n + 1).last() == stage_view);
            lemma_totals_grow(plan_view, n as int + 1);
            if n > 0 {
                assert(plan_view.take(n + 1)[n - 1] == plan_view[n - 1]);
            }
            assert forall|k: int| 0 <= k < previous@.len() implies before.has(
                #[trigger] previous@[k],
            ) by {
                let from = task_total(plan_view.take(n - 1)) as int;
                assert(plan_view.take(n as int).drop_last() =~= plan_view.take(n - 1));
                assert(previous@[k] == names@[from + k]);
                lemma_named(before, names@, previous@[k]);
                assert(names@.take(used as int)[from + k] == previous@[k]);
            }
        }
        let current = match add_stage(
            job,
            &mut graph,
            stage,
            n,
            &topics,
            names,
            used,
            &previous,
            size,
        ) {
            Ok(current) => current,
            Err(error) => {
                return Err(error);
            },
        };
        proof {
            if n == 0 {
                assert(previous@.len() * stage.fanout == 0) by (nonlinear_arith)
                    requires
                        previous@.len() == 0,
                ;
            }
        }
        used = used + stage.fanout;
        previous = current;
    }
    proof {
        assert(names@.take(used as int) =~= names@);
    }
    Ok(graph)
}

/// The slots of a stage hold the planned tasks, and every earlier task stays.
proof fn lemma_slots(
    g: GraphView,
    job: JobView,
    stage: StageView,
    index: nat,
    previous: Seq<TaskId>,
    names: Seq<TaskId>,
    slots: nat,
)
    ensures
        ({
            let after = with_slots(g, job, stage, index, previous, names, slots);
            &&& after.job_id == g.job_id
            &&& after.tasks.len() == g.tasks.len() + slots
            &&& forall|i: int|
                0 <= i < g.tasks.len() ==> #[trigger] after.tasks[i] == g.tasks[i]
            &&& forall|i: int|
                g.tasks.len() <= i < after.tasks.len() ==> #[trigger] after.tasks[i]
                    == planned_task(
                    job,
                    stage,
                    index,
                    (i - g.tasks.len()) as nat,
                    previous,
                    names[i - g.tasks.len()],
                )
        }),
    decreases slots,
{
    if slots > 0 {
        let last = (slots - 1) as nat;
        lemma_slots(g, job, stage, index, previous, names, last);
        let before = with_slots(g, job, stage, index, previous, names, last);
        let after = with_slots(g, job, stage, index, previous, names, slots);
        assert forall|i: int| 0 <= i < g.tasks.len() implies #[trigger] after.tasks[i]
            == g.tasks[i] by {
            assert(after.tasks[i] == before.tasks[i]);
        }
        assert forall|i: int| g.tasks.len() <= i < after.tasks.len() implies #[trigger] after.tasks[i]
            == planned_task(
            job,
            stage,
            index,
            (i - g.tasks.len()) as nat,
            previous,
            names[i - g.tasks.len()],
        ) by {
            if i < before.tasks.len() {
                assert(after.tasks[i] == before.tasks[i]);
            }
        }
    }
}

/// Where the tasks of a stage stand in the plan, and what they are.
proof fn lemma_stage_tasks(job: JobView, names: Seq<TaskId>, n: nat, stage: nat, slot: nat)
    requires
        stage < n <= plan_of(job).len(),
        slot < plan_of(job)[stage as int].fanout,
    ensures
        ({
            let plan = plan_of(job);
            let at = task_total(plan.take(stage as int)) + slot;
            let g = with_stages(job, names, n);
            &&& at < g.tasks.len()
            &&& g.tasks[at as int] == planned_task(
                job,
                plan[stage as int],
                stage,
                slot,
                names_before(plan, names, stage as int),
                stage_names(plan, names, stage as int)[slot as int],
            )
        }),
    decreases n,
{
    let plan = plan_of(job);
    let last = (n - 1) as nat;
    lemma_stage_count(job, names, last);
    lemma_slots(
        with_stages(job, names, last),
        job,
        plan[last as int],
        last,
        names_before(plan, names, last as int),
        stage_names(plan, names, last as int),
        plan[last as int].fanout,
    );
    if stage < last {
        lemma_stage_tasks(job, names, last, stage, slot);
    }
}

/// So many tasks as the stages add up to.
proof fn lemma_stage_count(job: JobView, names: Seq<TaskId>, n: nat)
    requires
        n <= plan_of(job).len(),
    ensures
        with_stages(job, names, n).tasks.len() == task_total(plan_of(job).take(n as int)),
    decreases n,
{
    let plan = plan_of(job);
    if n > 0 {
        let last = (n - 1) as nat;
        lemma_stage_count(job, names, last);
        lemma_slots(
            with_stages(job, names, last),
            job,
            plan[last as int],
            last,
            names_before(plan, names, last as int),
            stage_names(plan, names, last as int),
            plan[last as int].fanout,
        );
        assert(plan.take(n as int).drop_last() =~= plan.take(last as int));
    }
}

/// Every task of a stage waits for exactly the tasks of the stage before, and those of the
/// first stage for none.
pub proof fn law_a_stage_waits_for_the_one_before(
    job: JobView,
    names: Seq<TaskId>,
    stage: nat,
    slot: nat,
)
    requires
        stage < plan_of(job).len(),
        slot < plan_of(job)[stage as int].fanout,
    ensures
        ({
            let plan = plan_of(job);
            let at = task_total(plan.take(stage as int)) + slot;
            let task = planned(job, names).tasks[at as int];
            &&& at < planned(job, names).tasks.len() == task_total(plan)
            &&& task == planned_task(
                job,
                plan[stage as int],
                stage,
                slot,
                task.dependencies,
                task.id,
            )
            &&& task.dependencies == names_before(plan, names, stage as int)
        }),
{
    let plan = plan_of(job);
    lemma_stage_tasks(job, names, plan.len(), stage, slot);
    lemma_stage_count(job, names, plan.len());
    assert(plan.take(plan.len() as int) =~= plan);
}

/// Tasks of one stage have different titles.
pub proof fn law_titles_in_a_stage_differ(job: JobView, stage: nat, slot: nat, other: nat)
    requires
        stage < plan_of(job).len(),
        slot < other < plan_of(job)[stage as int].fanout,
    ensures
        ({
            let s = plan_of(job)[stage as int];
            s.label + " · "@ + focus_of(job, s, slot) != s.label + " · "@ + focus_of(job, s, other)
        }),
{
    let plan = plan_of(job);
    let s = plan[stage as int];
    let widest = widest_of(plan);
    let topics = subtopics_of(job.request.objective, widest);
    lemma_widest(plan, stage as int);
    law_subtopics_are_distinct(job.request.objective, widest);
    assert(slot % topics.len() == slot) by (nonlinear_arith)
        requires
            slot < topics.len(),
    ;
    assert(other % topics.len() == other) by (nonlinear_arith)
        requires
            other < topics.len(),
    ;
    let a = focus_of(job, s, slot);
    let b = focus_of(job, s, other);
    assert(a != b);
    let head = s.label + " · "@;
    if head + a == head + b {
        assert((head + a).skip(head.len() as int) =~= a);
        assert((head + b).skip(head.len() as int) =~= b);
    }
}

/// No two tasks of a plan share an idempotency key, as long as no two titles within a stage
/// agree in both slug and hash.
pub proof fn law_plan_keys_differ(
    job: JobView,
    stage: nat,
    slot: nat,
    other_stage: nat,
    other_slot: nat,
    previous: Seq<TaskId>,
    other_previous: Seq<TaskId>,
    name: TaskId,
    other_name: TaskId,
)
    requires
        stage < plan_of(job).len(),
        other_stage < plan_of(job).len(),
        ({
            let a = planned_task(
                job,
                plan_of(job)[stage as int],
                stage,
                slot,
                previous,
                name,
            );
            let b = planned_task(
                job,
                plan_of(job)[other_stage as int],
                other_stage,
                other_slot,
                other_previous,
                other_name,
            );
            stage != other_stage || crate::task::slug_of(a.title) != crate::task::slug_of(b.title)
                || crate::hash::fnv(crate::hash::OFFSET, vstd::utf8::encode_utf8(a.title))
                != crate::hash::fnv(crate::hash::OFFSET, vstd::utf8::encode_utf8(b.title))
        }),
    ensures
        planned_task(
            job,
            plan_of(job)[stage as int],
            stage,
            slot,
            previous,
            name,
        ).idempotency_key != planned_task(
            job,
            plan_of(job)[other_stage as int],
            other_stage,
            other_slot,
            other_previous,
            other_name,
        ).idempotency_key,
{
    let a = planned_task(job, plan_of(job)[stage as int], stage, slot, previous, name);
    let b = planned_task(
        job,
        plan_of(job)[other_stage as int],
        other_stage,
        other_slot,
        other_previous,
        other_name,
    );
    assert(plan_of(job).len() <= 6);
    crate::task::law_keys_tell_tasks_apart(
        job.id,
        stage as u32,
        a.kind,
        a.title,
        other_stage as u32,
        b.kind,
        b.title,
    );
}

/// The tasks that are ready at the outset are exactly those of the first stage.
pub proof fn law_the_first_stage_is_ready(job: JobView, names: Seq<TaskId>, stage: nat, slot: nat)
    requires
        stage < plan_of(job).len(),
        slot < plan_of(job)[stage as int].fanout,
        names.len() == task_total(plan_of(job)),
    ensures
        planned(job, names).is_ready(
            (task_total(plan_of(job).take(stage as int)) + slot) as int,
        ) <==> stage == 0,
{
    let plan = plan_of(job);
    let g = planned(job, names);
    let at = (task_total(plan.take(stage as int)) + slot) as int;
    law_a_stage_waits_for_the_one_before(job, names, stage, slot);
    if stage > 0 {
        let before = (stage - 1) as nat;
        assert(plan[before as int].fanout >= 1);
        lemma_totals_grow(plan, stage as int);
        assert(plan.take(stage as int).drop_last() =~= plan.take(before as int));
        assert(g.tasks[at].dependencies.len() == plan[before as int].fanout);
        let dependency = g.tasks[at].dependencies[0];
        if g.completed(dependency) {
            let i = g.at(dependency);
            assert(g.stands(dependency, i));
            lemma_all_created(job, names, plan.len(), i);
        }
    }
}

/// No task of a plan has been worked on.
pub proof fn lemma_all_created(job: JobView, names: Seq<TaskId>, n: nat, i: int)
    requires
        n <= plan_of(job).len(),
        0 <= i < with_stages(job, names, n).tasks.len(),
    ensures
        with_stages(job, names, n).tasks[i].state == TaskState::Created,
        with_stages(job, names, n).tasks[i].attempt == 0,
    decreases n,
{
    if n > 0 {
        let plan = plan_of(job);
        let last = (n - 1) as nat;
        let before = with_stages(job, names, last);
        lemma_slots(
            before,
            job,
            plan[last as int],
            last,
            names_before(plan, names, last as int),
            stage_names(plan, names, last as int),
            plan[last as int].fanout,
        );
        if i < before.tasks.len() {
            lemma_all_created(job, names, last, i);
        }
    }
}

/// Every plan has a task.
pub proof fn lemma_plans_have_tasks(job: JobView, names: Seq<TaskId>)
    ensures
        planned(job, names).tasks.len() == task_total(plan_of(job)),
        task_total(plan_of(job)) > 0,
{
    let plan = plan_of(job);
    lemma_stage_count(job, names, plan.len());
    assert(plan.take(plan.len() as int) =~= plan);
    assert(plan.last().fanout > 0);
}

/// No stage is wider than the agent budget, and a sequential job never widens.
pub proof fn law_fanout_stays_within_the_budget(job: JobView, stage: int)
    requires
        0 <= stage < plan_of(job).len(),
    ensures
        1 <= plan_of(job)[stage].fanout <= at_least_one(job.request.max_agents as nat),
        job.request.execution_strategy == ExecutionStrategy::Sequential ==> plan_of(
            job,
        )[stage].fanout == 1,
{
}

/// The index types have room for the plan of any request that passes validation.
pub proof fn lemma_small_plans_fit(job: JobView)
    requires
        job.request.max_agents <= 1000,
    ensures
        plan_fits(job),
{
    let plan = plan_of(job);
    let wide = at_least_one(job.request.max_agents as nat);
    assert(plan.len() <= 6);
    lemma_bounded_totals(plan, plan.len() as int);
}

/// Totals of stages that are no wider than the budget of a request.
proof fn lemma_bounded_totals(plan: Seq<StageView>, n: int)
    requires
        0 <= n <= plan.len(),
        forall|i: int| 0 <= i < plan.len() ==> (#[trigger] plan[i]).fanout <= 1000,
    ensures
        task_total(plan) <= 1000 * plan.len(),
        edge_total(plan) <= 1_000_000 * plan.len(),
    decreases plan.len(),
{
    if plan.len() > 0 {
        let rest = plan.drop_last();
        lemma_bounded_totals(rest, rest.len() as int);
        if plan.len() > 1 {
            let a = plan[plan.len() - 2].fanout;
            let b = plan.last().fanout;
            assert(a * b <= 1_000_000) by (nonlinear_arith)
                requires
                    a <= 1000,
                    b <= 1000,
            ;
        }
    }
}

/// Whether a task of this kind produces something of its own to be combined.
pub open spec fn produces(kind: TaskKind) -> bool {
    kind == TaskKind::Work || kind == TaskKind::MapStep || kind == TaskKind::Answer
}

/// Whether a task of this kind works on what others produced, to combine or to conclude.
pub open spec fn combines(kind: TaskKind) -> bool {
    ||| kind == TaskKind::Reduce
    ||| kind == TaskKind::Merge
    ||| kind == TaskKind::Judge
    ||| kind == TaskKind::Vote
    ||| kind == TaskKind::Verify
    ||| kind == TaskKind::Summarize
}

/// Whether a task of this kind lays out work for others.
pub open spec fn lays_out(kind: TaskKind) -> bool {
    kind == TaskKind::Plan || kind == TaskKind::Subplan || kind == TaskKind::Supervise
}

/// Tasks that combine or conclude come after the tasks whose output they combine, under every
/// strategy; a review comes between the two; and planning comes before all of them.
pub proof fn law_combining_comes_after_producing(
    strategy: ExecutionStrategy,
    fanout: nat,
    i: int,
    j: int,
)
    requires
        0 <= i < compiled(strategy, fanout).len(),
        0 <= j < compiled(strategy, fanout).len(),
    ensures
        ({
            let early = compiled(strategy, fanout)[j].kind;
            let late = compiled(strategy, fanout)[i].kind;
            &&& combines(late) && produces(early) ==> j < i
            &&& combines(late) && early == TaskKind::Critique ==> j < i
            &&& late == TaskKind::Critique && produces(early) ==> j < i
            &&& lays_out(early) && !lays_out(late) ==> j < i
            &&& early == TaskKind::Plan && late == TaskKind::Subplan ==> j < i
        }),
{
}

/// Every plan produces something, and what is produced is combined or concluded at the end, by
/// one task.
pub proof fn law_plans_produce_and_conclude(strategy: ExecutionStrategy, fanout: nat)
    ensures
        ({
            let plan = compiled(strategy, fanout);
            &&& plan.len() >= 3
            &&& combines(plan.last().kind)
            &&& exists|j: int| 0 <= j < plan.len() && produces((#[trigger] plan[j]).kind)
            &&& forall|i: int|
                0 <= i < plan.len() && (combines((#[trigger] plan[i]).kind) || plan[i].kind
                    == TaskKind::Plan) ==> plan[i].fanout == 1
        }),
{
    let plan = compiled(strategy, fanout);
    assert(produces(plan[1].kind) || produces(plan[0].kind) || produces(plan[2].kind));
}

/// Whoever asks for so many agents gets work for so many at once. A sequential job does one
/// thing at a time, in at most four steps; an adaptive one starts with half.
pub proof fn law_the_work_is_as_wide_as_the_budget(strategy: ExecutionStrategy, agents: nat, i: int)
    requires
        agents >= 1,
        0 <= i < compiled(strategy, agents).len(),
    ensures
        ({
            let stage = compiled(strategy, agents)[i];
            &&& produces(stage.kind) && strategy != ExecutionStrategy::Sequential && strategy
                != ExecutionStrategy::Adaptive ==> stage.fanout == agents
            &&& strategy == ExecutionStrategy::Sequential ==> stage.fanout == 1
            &&& strategy == ExecutionStrategy::Sequential ==> compiled(strategy, agents).len()
                == 2 + if agents < 4 {
                agents
            } else {
                4
            }
            &&& strategy == ExecutionStrategy::Adaptive && produces(stage.kind) ==> stage.fanout
                <= agents <= 2 * stage.fanout + 1
            &&& strategy == ExecutionStrategy::Debate && stage.kind == TaskKind::Critique
                ==> stage.fanout == agents
        }),
{
}

/// In a map-reduce plan the one reduce task depends on exactly the map tasks, as many as there
/// are agents, each of which depends on the task that partitions the work and on nothing else.
pub proof fn law_reducing_waits_for_every_map(job: JobView, names: Seq<TaskId>)
    requires
        job.request.execution_strategy == ExecutionStrategy::MapReduce,
        job.request.max_agents >= 1,
        names.len() == job.request.max_agents + 2,
    ensures
        ({
            let tasks = planned(job, names).tasks;
            let n = job.request.max_agents as int;
            &&& tasks.len() == n + 2
            &&& tasks[0].kind == TaskKind::Plan
            &&& tasks[0].dependencies.len() == 0
            &&& forall|k: int|
                1 <= k <= n ==> (#[trigger] tasks[k]).kind == TaskKind::MapStep
                    && tasks[k].dependencies == seq![names[0]]
            &&& tasks[n + 1].kind == TaskKind::Reduce
            &&& tasks[n + 1].dependencies == names.subrange(1, n + 1)
            &&& forall|k: int| 0 <= k < n + 2 ==> (#[trigger] tasks[k]).id == names[k]
        }),
{
    let plan = plan_of(job);
    let n = job.request.max_agents as int;
    let tasks = planned(job, names).tasks;
    assert(plan.len() == 3 && plan[0].fanout == 1 && plan[1].fanout == n && plan[2].fanout == 1);
    assert(plan.take(0) =~= seq![]);
    assert(plan.take(1).drop_last() =~= plan.take(0) && plan.take(1).last() == plan[0]);
    assert(plan.take(2).drop_last() =~= plan.take(1) && plan.take(2).last() == plan[1]);
    assert(plan.drop_last() =~= plan.take(2));
    assert(task_total(plan.take(0)) == 0);
    assert(task_total(plan.take(1)) == 1);
    assert(task_total(plan.take(2)) == 1 + n);
    assert(task_total(plan) == n + 2);
    law_a_stage_waits_for_the_one_before(job, names, 0, 0);
    law_a_stage_waits_for_the_one_before(job, names, 2, 0);
    lemma_stage_count(job, names, plan.len());
    assert(plan.take(plan.len() as int) =~= plan);
    assert forall|k: int| 1 <= k <= n implies (#[trigger] tasks[k]).kind == TaskKind::MapStep
        && tasks[k].dependencies == seq![names[0]] by {
        law_a_stage_waits_for_the_one_before(job, names, 1, (k - 1) as nat);
        assert(names_before(plan, names, 1) =~= seq![names[0]]);
    }
    assert(names_before(plan, names, 2) =~= names.subrange(1, n + 1));
    assert forall|k: int| 0 <= k < n + 2 implies (#[trigger] tasks[k]).id == names[k] by {
        let stage: nat = if k == 0 {
            0
        } else if k <= n {
            1
        } else {
            2
        };
        lemma_named_tasks(job, names, stage, (k - task_total(plan.take(stage as int))) as nat);
    }
}

/// A planned task goes by the name given for its slot.
proof fn lemma_named_tasks(job: JobView, names: Seq<TaskId>, stage: nat, slot: nat)
    requires
        stage < plan_of(job).len(),
        slot < plan_of(job)[stage as int].fanout,
        names.len() == task_total(plan_of(job)),
    ensures
        ({
            let at = task_total(plan_of(job).take(stage as int)) + slot;
            planned(job, names).tasks[at as int].id == names[at as int]
        }),
{
    let plan = plan_of(job);
    lemma_stage_tasks(job, names, plan.len(), stage, slot);
    lemma_totals_grow(plan, stage as int + 1);
    assert(plan.take(stage as int + 1).drop_last() =~= plan.take(stage as int));
    assert(plan.take(stage as int + 1).last() == plan[stage as int]);
}

/// An instruction names what it is about: the task's own topic wherever the task has one, and
/// the objective wherever the task is about all of it.
pub proof fn law_instructions_name_their_subject(
    kind: TaskKind,
    focus: Seq<char>,
    objective: Seq<char>,
)
    ensures
        produces(kind) || kind == TaskKind::Critique || kind == TaskKind::Subplan || kind
            == TaskKind::Supervise ==> holds(instruction(kind, focus, objective), focus),
        kind == TaskKind::Plan || kind == TaskKind::Subplan || kind == TaskKind::Summarize ==> holds(
            instruction(kind, focus, objective),
            objective,
        ),
{
    let none: Seq<char> = seq![];
    match kind {
        TaskKind::Plan => {
            let head = "Break the objective into independent pieces of work. Objective: "@;
            lemma_holds_between(head, objective, none);
            assert(head + objective + none =~= head + objective);
        },
        TaskKind::Subplan => {
            let head = "Plan the work needed for `"@;
            lemma_holds_between(head, focus, "` within: "@ + objective);
            assert(head + focus + ("` within: "@ + objective) =~= head + focus + "` within: "@
                + objective);
            lemma_holds_between(head + focus + "` within: "@, objective, none);
            assert(head + focus + "` within: "@ + objective + none =~= head + focus
                + "` within: "@ + objective);
        },
        TaskKind::Work => {
            lemma_holds_between(
                "Investigate `"@,
                focus,
                "` and report what you established, with sources."@,
            );
        },
        TaskKind::MapStep => {
            lemma_holds_between(
                "Process the `"@,
                focus,
                "` partition and return its partial result."@,
            );
        },
        TaskKind::Answer => {
            let head = "Answer independently, without deferring to peers: "@;
            lemma_holds_between(head, focus, none);
            assert(head + focus + none =~= head + focus);
        },
        TaskKind::Critique => {
            lemma_holds_between(
                "Find the weakest claim in the work on `"@,
                focus,
                "` and say why."@,
            );
        },
        TaskKind::Summarize => {
            let head = "Summarise what the swarm established about: "@;
            lemma_holds_between(head, objective, none);
            assert(head + objective + none =~= head + objective);
        },
        TaskKind::Supervise => {
            lemma_holds_between(
                "Assign the work for `"@,
                focus,
                "` and state what good output looks like."@,
            );
        },
        _ => {},
    }
}

/// A task of a plan belongs to its job, says in its title which part of the objective it is
/// about, and waits to be worked on. Tasks that share a stage take the subtopics in turn.
pub proof fn law_every_task_has_its_part(
    job: JobView,
    names: Seq<TaskId>,
    stage: nat,
    slot: nat,
)
    requires
        stage < plan_of(job).len(),
        slot < plan_of(job)[stage as int].fanout,
        names.len() == task_total(plan_of(job)),
    ensures
        ({
            let plan = plan_of(job);
            let at = task_total(plan.take(stage as int)) + slot;
            let task = planned(job, names).tasks[at as int];
            let topics = subtopics_of(job.request.objective, widest_of(plan));
            &&& task.id == names[at as int]
            &&& task.job_id == job.id
            &&& task.kind == plan[stage as int].kind
            &&& task.stage == stage
            &&& task.state == TaskState::Created
            &&& task.attempt == 0
            &&& slot < topics.len()
            &&& plan[stage as int].fanout > 1 ==> holds(task.title, topics[slot as int])
            &&& plan[stage as int].fanout > 1 && produces(task.kind) ==> holds(
                task.description,
                topics[slot as int],
            )
        }),
{
    let plan = plan_of(job);
    let topics = subtopics_of(job.request.objective, widest_of(plan));
    law_a_stage_waits_for_the_one_before(job, names, stage, slot);
    lemma_named_tasks(job, names, stage, slot);
    lemma_widest(plan, stage as int);
    law_subtopics_are_distinct(job.request.objective, widest_of(plan));
    assert(plan.len() <= 6);
    assert(slot % topics.len() == slot) by (nonlinear_arith)
        requires
            slot < topics.len(),
    ;
    let focus = focus_of(job, plan[stage as int], slot);
    let head = plan[stage as int].label + " · "@;
    let none: Seq<char> = seq![];
    lemma_holds_between(head, focus, none);
    assert(head + focus + none =~= head + focus);
    law_instructions_name_their_subject(
        plan[stage as int].kind,
        focus,
        job.request.objective,
    );
}

/// The estimate of an objective's size stays between two and eight, and grows with its length
/// and with what it enumerates.
pub proof fn law_complexity_reacts_and_stays_bounded(objective: Seq<char>)
    ensures
        2 <= complexity(objective) <= 8,
        complexity(objective) == 8 || complexity(objective) >= 2 + words(objective).len() / 10,
        complexity(objective) == 8 || complexity(objective) >= 2 + objective.filter(
            |c: char| c == ',' || c == ';' || c == '\n',
        ).len(),
        objective.len() == 0 ==> complexity(objective) == 2,
{
    let listed = |c: char| c == ',' || c == ';' || c == '\n';
    assert(objective.filter(listed) == objective.filter(|c: char| enumerates(c))) by {
        lemma_same_filter(objective, listed, |c: char| enumerates(c));
    }
    lemma_split_has_pieces(lowercase(objective), seq![], " and "@);
    if objective.len() == 0 {
        reveal(Seq::filter);
        assert(lowercase(objective) =~= seq![]);
        assert(pieces(objective, Separator::Space) =~= seq![Seq::<char>::empty()]);
        let solid = |piece: Seq<char>| piece.len() > 0;
        let none: Seq<Seq<char>> = seq![];
        assert(none.push(seq![]) =~= pieces(objective, Separator::Space));
        lemma_filter_push(none, seq![], solid);
        assert(none.filter(solid).len() == 0);
    }
}

/// Filters that agree on every character keep the same.
proof fn lemma_same_filter(s: Seq<char>, one: spec_fn(char) -> bool, other: spec_fn(char) -> bool)
    requires
        forall|c: char| #[trigger] one(c) == other(c),
    ensures
        s.filter(one) == s.filter(other),
    decreases s.len(),
{
    reveal(Seq::filter);
    if s.len() > 0 {
        lemma_same_filter(s.drop_last(), one, other);
        assert(one(s.last()) == other(s.last()));
    }
}

/// Splitting leaves at least one piece.
proof fn lemma_split_has_pieces(s: Seq<char>, current: Seq<char>, separator: Seq<char>)
    ensures
        crate::text::split_from(s, current, separator).len() >= 1,
    decreases s.len(),
{
    if s.len() > 0 {
        if separator.len() > 0 && crate::text::begins_with(s, separator) {
            lemma_split_has_pieces(s.skip(separator.len() as int), seq![], separator);
        } else {
            lemma_split_has_pieces(s.skip(1), current.push(s[0]), separator);
        }
    }
}

/// Every output has to say something, in the agreed form. What is to be combined has to say
/// more than what combines it, and that more than what only lays out work.
pub proof fn law_every_kind_is_checked(kind: TaskKind)
    ensures
        checks_for(kind)[0] == RuleView::NonEmpty,
        checks_for(kind)[1] == RuleView::RequiredJsonKeys(seq!["summary"@, "confidence"@]),
        produces(kind) ==> checks_for(kind)[2] == RuleView::MinWords(15),
        kind == TaskKind::Merge || kind == TaskKind::Reduce || kind == TaskKind::Summarize || kind
            == TaskKind::Judge ==> checks_for(kind)[2] == RuleView::MinWords(12),
        lays_out(kind) ==> checks_for(kind)[2] == RuleView::MinWords(10),
{
}

} // verus!
