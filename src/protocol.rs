use vstd::prelude::*;

verus! {

/// Where a diner stands in its one acquire / eat / release cycle.
#[derive(Clone, Copy, Debug, PartialEq, Eq, Structural)]
pub enum Stage {
    /// Holds nothing yet.
    Thinking,
    /// Holds its first cell and waits for its second.
    HoldingFirst,
    /// Holds both cells.
    Eating,
    /// Has let both cells go; its cycle is over.
    Done,
}

/// How far along its cycle a diner is: each move adds one.
pub open spec fn rank(s: Stage) -> int {
    match s {
        Stage::Thinking => 0,
        Stage::HoldingFirst => 1,
        Stage::Eating => 2,
        Stage::Done => 3,
    }
}

/// How many lines a diner has spoken at a stage: one on starting to eat,
/// one on finishing.
pub open spec fn spoken(s: Stage) -> int {
    match s {
        Stage::Eating => 1,
        Stage::Done => 2,
        _ => 0,
    }
}

pub open spec fn next_stage(s: Stage) -> Stage {
    match s {
        Stage::Thinking => Stage::HoldingFirst,
        Stage::HoldingFirst => Stage::Eating,
        Stage::Eating => Stage::Done,
        Stage::Done => Stage::Done,
    }
}

/// Whether a diner at stage `s`, taking cells in the order `pair`, holds cell `c`.
pub open spec fn holds(s: Stage, pair: (int, int), c: int) -> bool {
    match s {
        Stage::HoldingFirst => c == pair.0,
        Stage::Eating => c == pair.0 || c == pair.1,
        _ => false,
    }
}

/// No cell is held by two diners at once.
pub open spec fn exclusive(pairs: Seq<(int, int)>, st: Seq<Stage>) -> bool {
    forall|a: int, b: int, c: int|
        0 <= a < st.len() && 0 <= b < st.len() && a != b && #[trigger] holds(st[a], pairs[a], c)
            ==> !#[trigger] holds(st[b], pairs[b], c)
}

/// No diner holds cell `c`.
pub open spec fn free(pairs: Seq<(int, int)>, st: Seq<Stage>, c: int) -> bool {
    forall|a: int| 0 <= a < st.len() ==> !#[trigger] holds(st[a], pairs[a], c)
}

/// Whether diner `k` can make its next move now: take its first cell, take its
/// second cell, or let both go. A wait on a held cell is no move.
pub open spec fn can_advance(pairs: Seq<(int, int)>, st: Seq<Stage>, k: int) -> bool {
    match st[k] {
        Stage::Thinking => free(pairs, st, pairs[k].0),
        Stage::HoldingFirst => free(pairs, st, pairs[k].1),
        Stage::Eating => true,
        Stage::Done => false,
    }
}

pub open spec fn advanced(st: Seq<Stage>, k: int) -> Seq<Stage> {
    st.update(k, next_stage(st[k]))
}

/// One diner makes one move.
pub open spec fn step(pairs: Seq<(int, int)>, before: Seq<Stage>, after: Seq<Stage>) -> bool {
    exists|k: int|
        0 <= k < before.len() && can_advance(pairs, before, k) && after == #[trigger] advanced(
            before,
            k,
        )
}

pub open spec fn initial(n: nat) -> Seq<Stage> {
    Seq::new(n, |k: int| Stage::Thinking)
}

pub open spec fn finished(st: Seq<Stage>) -> bool {
    forall|k: int| 0 <= k < st.len() ==> st[k] == Stage::Done
}

/// Some diner has not finished, and none can move: every one left waits.
pub open spec fn stuck(pairs: Seq<(int, int)>, st: Seq<Stage>) -> bool {
    &&& !finished(st)
    &&& forall|k: int| 0 <= k < st.len() ==> !#[trigger] can_advance(pairs, st, k)
}

/// A run of the dinner: it starts with everybody thinking, and each state
/// follows from the one before by one move.
pub open spec fn is_run(pairs: Seq<(int, int)>, run: Seq<Seq<Stage>>) -> bool {
    &&& run.len() >= 1
    &&& run[0] == initial(pairs.len())
    &&& forall|j: int| 0 <= j < run.len() - 1 ==> #[trigger] step(pairs, run[j], run[j + 1])
}

pub open spec fn reachable(pairs: Seq<(int, int)>, st: Seq<Stage>) -> bool {
    exists|run: Seq<Seq<Stage>>| is_run(pairs, run) && run.last() == st
}

/// Every diner takes the lower-numbered of its two cells first.
pub open spec fn ordered(pairs: Seq<(int, int)>) -> bool {
    forall|k: int| 0 <= k < pairs.len() ==> (#[trigger] pairs[k]).0 < pairs[k].1
}

/// The sum of `w` over the diners' stages.
pub open spec fn total(st: Seq<Stage>, w: spec_fn(Stage) -> int) -> int
    decreases st.len(),
{
    if st.len() == 0 {
        0
    } else {
        total(st.drop_last(), w) + w(st.last())
    }
}

pub open spec fn rank_weight() -> spec_fn(Stage) -> int {
    |s: Stage| rank(s)
}

pub open spec fn spoken_weight() -> spec_fn(Stage) -> int {
    |s: Stage| spoken(s)
}

/// How many moves have been made in all.
pub open spec fn progress(st: Seq<Stage>) -> int {
    total(st, rank_weight())
}

/// How many lines have been spoken in all.
pub open spec fn lines_spoken(st: Seq<Stage>) -> int {
    total(st, spoken_weight())
}

pub proof fn lemma_total_update(st: Seq<Stage>, k: int, x: Stage, w: spec_fn(Stage) -> int)
    requires
        0 <= k < st.len(),
    ensures
        total(st.update(k, x), w) == total(st, w) - w(st[k]) + w(x),
    decreases st.len(),
{
    let u = st.update(k, x);
    if k == st.len() - 1 {
        assert(u.drop_last() =~= st.drop_last());
    } else {
        assert(u.drop_last() =~= st.drop_last().update(k, x));
        lemma_total_update(st.drop_last(), k, x, w);
    }
}

/// The sum is `c` per diner when every stage weighs `c`, and at most that when
/// none weighs more.
pub proof fn lemma_total_bound(st: Seq<Stage>, w: spec_fn(Stage) -> int, c: int)
    requires
        forall|k: int| 0 <= k < st.len() ==> 0 <= #[trigger] w(st[k]) <= c,
    ensures
        0 <= total(st, w) <= c * st.len(),
        (forall|k: int| 0 <= k < st.len() ==> #[trigger] w(st[k]) == c) ==> total(st, w) == c
            * st.len(),
    decreases st.len(),
{
    if st.len() > 0 {
        let d = st.drop_last();
        assert forall|k: int| 0 <= k < d.len() implies 0 <= #[trigger] w(d[k]) <= c by {
            assert(d[k] == st[k]);
        }
        lemma_total_bound(d, w, c);
        if forall|k: int| 0 <= k < st.len() ==> #[trigger] w(st[k]) == c {
            assert forall|k: int| 0 <= k < d.len() implies #[trigger] w(d[k]) == c by {
                assert(d[k] == st[k]);
            }
        }
        assert(c * (st.len() - 1) + c == c * st.len()) by (nonlinear_arith);
    }
}

/// A move keeps every cell with at most one holder.
pub proof fn lemma_advance_keeps_exclusive(pairs: Seq<(int, int)>, st: Seq<Stage>, k: int)
    requires
        st.len() == pairs.len(),
        exclusive(pairs, st),
        0 <= k < st.len(),
        can_advance(pairs, st, k),
    ensures
        exclusive(pairs, advanced(st, k)),
{
    let n = advanced(st, k);
    assert forall|a: int, b: int, c: int|
        0 <= a < n.len() && 0 <= b < n.len() && a != b && #[trigger] holds(n[a], pairs[a], c)
            implies !#[trigger] holds(n[b], pairs[b], c) by {
        if a == k {
            assert(n[b] == st[b]);
            if holds(st[b], pairs[b], c) {
                assert(!holds(st[k], pairs[k], c));
                assert(!free(pairs, st, c));
            }
        } else if b == k {
            assert(n[a] == st[a]);
            if holds(n[b], pairs[b], c) {
                assert(!holds(st[k], pairs[k], c));
                assert(!free(pairs, st, c));
            }
        } else {
            assert(n[a] == st[a] && n[b] == st[b]);
        }
    }
}

/// Every state of a run has one stage per diner and no cell with two holders.
pub proof fn lemma_run_states(pairs: Seq<(int, int)>, run: Seq<Seq<Stage>>, j: int)
    requires
        is_run(pairs, run),
        0 <= j < run.len(),
    ensures
        run[j].len() == pairs.len(),
        exclusive(pairs, run[j]),
    decreases j,
{
    if j > 0 {
        lemma_run_states(pairs, run, j - 1);
        let i = j - 1;
        assert(step(pairs, run[i], run[i + 1]));
        let k = choose|k: int|
            0 <= k < run[j - 1].len() && can_advance(pairs, run[j - 1], k) && run[j]
                == #[trigger] advanced(run[j - 1], k);
        lemma_advance_keeps_exclusive(pairs, run[j - 1], k);
    }
}

/// A move adds exactly one to the progress.
pub proof fn lemma_advance_progress(pairs: Seq<(int, int)>, st: Seq<Stage>, k: int)
    requires
        0 <= k < st.len(),
        can_advance(pairs, st, k),
    ensures
        progress(advanced(st, k)) == progress(st) + 1,
        0 <= progress(st) <= 3 * st.len(),
{
    lemma_total_update(st, k, next_stage(st[k]), rank_weight());
    lemma_total_bound(st, rank_weight(), 3);
}

/// Mutual exclusion: in every state that the dinner can reach, whatever the
/// order of cells each diner takes, no cell is held by two diners.
pub proof fn lemma_reachable_exclusive(pairs: Seq<(int, int)>, st: Seq<Stage>)
    requires
        reachable(pairs, st),
    ensures
        exclusive(pairs, st),
        st.len() == pairs.len(),
{
    let run = choose|run: Seq<Seq<Stage>>| is_run(pairs, run) && run.last() == st;
    lemma_run_states(pairs, run, run.len() - 1);
}

/// Every run is finite: it has at most three moves per diner.
pub proof fn lemma_run_length(pairs: Seq<(int, int)>, run: Seq<Seq<Stage>>)
    requires
        is_run(pairs, run),
    ensures
        run.len() <= 3 * pairs.len() + 1,
        progress(run.last()) == run.len() - 1,
{
    lemma_run_progress(pairs, run, run.len() - 1);
    lemma_run_states(pairs, run, run.len() - 1);
    lemma_total_bound(run.last(), rank_weight(), 3);
}

proof fn lemma_run_progress(pairs: Seq<(int, int)>, run: Seq<Seq<Stage>>, j: int)
    requires
        is_run(pairs, run),
        0 <= j < run.len(),
    ensures
        progress(run[j]) == j,
    decreases j,
{
    if j == 0 {
        lemma_total_bound(run[0], rank_weight(), 0);
    } else {
        lemma_run_progress(pairs, run, j - 1);
        let i = j - 1;
        assert(step(pairs, run[i], run[i + 1]));
        let k = choose|k: int|
            0 <= k < run[j - 1].len() && can_advance(pairs, run[j - 1], k) && run[j]
                == #[trigger] advanced(run[j - 1], k);
        lemma_advance_progress(pairs, run[j - 1], k);
    }
}

/// Among diners `0..i` that hold their first cell and wait, one whose first
/// cell has the highest number; -1 where there is none.
pub open spec fn highest_waiter(pairs: Seq<(int, int)>, st: Seq<Stage>, i: int) -> int
    decreases i,
{
    if i <= 0 {
        -1
    } else {
        let t = highest_waiter(pairs, st, i - 1);
        if st[i - 1] == Stage::HoldingFirst && (t < 0 || pairs[t].0 < pairs[i - 1].0) {
            i - 1
        } else {
            t
        }
    }
}

proof fn lemma_highest_waiter(pairs: Seq<(int, int)>, st: Seq<Stage>, i: int)
    requires
        0 <= i <= st.len(),
    ensures
        ({
            let t = highest_waiter(pairs, st, i);
            ||| t == -1 && forall|j: int| 0 <= j < i ==> #[trigger] st[j] != Stage::HoldingFirst
            ||| 0 <= t < i && st[t] == Stage::HoldingFirst && forall|j: int|
                0 <= j < i && #[trigger] st[j] == Stage::HoldingFirst ==> pairs[j].0 <= pairs[t].0
        }),
    decreases i,
{
    if i > 0 {
        lemma_highest_waiter(pairs, st, i - 1);
    }
}

/// Where every diner takes its lower-numbered cell first, the dinner is never
/// stuck: while somebody has not finished, somebody can move. The diner that
/// waits on the highest-numbered cell cannot be waiting on another waiter,
/// since that one would have taken a still higher cell first.
pub proof fn lemma_ordered_never_stuck(pairs: Seq<(int, int)>, st: Seq<Stage>)
    requires
        st.len() == pairs.len(),
        ordered(pairs),
        exclusive(pairs, st),
        !finished(st),
    ensures
        exists|k: int| 0 <= k < st.len() && #[trigger] can_advance(pairs, st, k),
{
    if exists|k: int| 0 <= k < st.len() && #[trigger] st[k] == Stage::Eating {
        let k = choose|k: int| 0 <= k < st.len() && #[trigger] st[k] == Stage::Eating;
        assert(can_advance(pairs, st, k));
    } else {
        let t = highest_waiter(pairs, st, st.len() as int);
        lemma_highest_waiter(pairs, st, st.len() as int);
        if t == -1 {
            let k = choose|k: int| 0 <= k < st.len() && st[k] != Stage::Done;
            assert(st[k] != Stage::HoldingFirst);
            assert forall|a: int| 0 <= a < st.len() implies !#[trigger] holds(
                st[a],
                pairs[a],
                pairs[k].0,
            ) by {
                assert(st[a] != Stage::HoldingFirst);
            }
            assert(can_advance(pairs, st, k));
        } else {
            assert(pairs[t].0 < pairs[t].1);
            assert forall|a: int| 0 <= a < st.len() implies !#[trigger] holds(
                st[a],
                pairs[a],
                pairs[t].1,
            ) by {
                if holds(st[a], pairs[a], pairs[t].1) {
                    assert(st[a] != Stage::Eating);
                    assert(st[a] == Stage::HoldingFirst);
                    assert(pairs[a].0 <= pairs[t].0);
                }
            }
            assert(can_advance(pairs, st, t));
        }
    }
}

/// Where every diner takes its lower-numbered cell first, every run is
/// finite (at most three moves per diner) and one that cannot go on has
/// brought every diner to the end of its cycle: there is no deadlock.
pub proof fn lemma_ordered_runs_finish(pairs: Seq<(int, int)>, run: Seq<Seq<Stage>>)
    requires
        ordered(pairs),
        is_run(pairs, run),
    ensures
        run.len() <= 3 * pairs.len() + 1,
        !stuck(pairs, run.last()),
{
    lemma_run_length(pairs, run);
    lemma_run_states(pairs, run, run.len() - 1);
    if !finished(run.last()) {
        lemma_ordered_never_stuck(pairs, run.last());
    }
}

} // verus!
