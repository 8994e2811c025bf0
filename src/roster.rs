use vstd::prelude::*;
use vstd::string::StringExecFns;
use crate::philosopher::{Philosopher, roster_pairs};
use crate::protocol::{
    Stage, advanced, can_advance, holds, initial, is_run, lemma_ordered_runs_finish,
    lemma_run_states, lemma_total_bound, lines_spoken, ordered, spoken_weight, step, stuck,
};

verus! {

/// The order of diner `k` of `n` in the guarded table: each takes its own
/// cell, then the next one round the ring; the last takes cell 0 before cell
/// `n - 1`, against the ring.
pub open spec fn guarded_pair(n: int, k: int) -> (int, int) {
    if k == n - 1 {
        (0, n - 1)
    } else {
        (k, k + 1)
    }
}

/// The order of diner `k` of `n` when everybody follows the ring: its own
/// cell, then the next one, cell 0 after cell `n - 1`.
pub open spec fn ring_pair(n: int, k: int) -> (int, int) {
    (k, if k + 1 == n { 0 } else { k + 1 })
}

pub open spec fn guarded_pairs(n: nat) -> Seq<(int, int)> {
    Seq::new(n, |k: int| guarded_pair(n as int, k))
}

pub open spec fn ring_pairs(n: nat) -> Seq<(int, int)> {
    Seq::new(n, |k: int| ring_pair(n as int, k))
}

/// Seats the named diners round a ring of as many cells, the last one
/// reaching for cell 0 first.
pub fn guarded_roster(names: &Vec<String>) -> (r: Vec<Philosopher>)
    requires
        names.len() >= 2,
    ensures
        r.len() == names.len(),
        roster_pairs(r@) == guarded_pairs(names.len() as nat),
        forall|k: int| 0 <= k < r.len() ==> (#[trigger] r[k]).name@ == names[k]@,
{
    let n = names.len();
    let mut r: Vec<Philosopher> = Vec::new();
    let mut k: usize = 0;
    while k < n
        invariant
            n == names.len(),
            n >= 2,
            k <= n,
            r.len() == k,
            forall|j: int|
                0 <= j < k ==> (#[trigger] r[j]).name@ == names[j]@ && (r[j].left as int, r[j].right as int)
                    == guarded_pair(n as int, j),
        decreases n - k,
    {
        let p = if k + 1 == n {
            Philosopher::new(names[k].as_str(), 0, k)
        } else {
            Philosopher::new(names[k].as_str(), k, k + 1)
        };
        r.push(p);
        k = k + 1;
    }
    assert(roster_pairs(r@) =~= guarded_pairs(n as nat));
    r
}

/// Seats the named diners round a ring of as many cells, every one taking
/// its own cell and then the next: the table that can deadlock.
pub fn ring_roster(names: &Vec<String>) -> (r: Vec<Philosopher>)
    requires
        names.len() >= 2,
    ensures
        r.len() == names.len(),
        roster_pairs(r@) == ring_pairs(names.len() as nat),
        forall|k: int| 0 <= k < r.len() ==> (#[trigger] r[k]).name@ == names[k]@,
{
    let n = names.len();
    let mut r: Vec<Philosopher> = Vec::new();
    let mut k: usize = 0;
    while k < n
        invariant
            n == names.len(),
            k <= n,
            r.len() == k,
            forall|j: int|
                0 <= j < k ==> (#[trigger] r[j]).name@ == names[j]@ && (r[j].left as int, r[j].right as int)
                    == ring_pair(n as int, j),
        decreases n - k,
    {
        let next = if k + 1 == n {
            0
        } else {
            k + 1
        };
        r.push(Philosopher::new(names[k].as_str(), k, next));
        k = k + 1;
    }
    assert(roster_pairs(r@) =~= ring_pairs(n as nat));
    r
}

/// The five diners of the program, on a ring of five cells.
pub fn default_roster() -> (r: Vec<Philosopher>)
    ensures
        r.len() == 5,
        roster_pairs(r@) == guarded_pairs(5),
        r[0].name@ == "Judith Butler"@,
        r[1].name@ == "Gilles Deleuze"@,
        r[2].name@ == "Karl Marx"@,
        r[3].name@ == "Emma Goldman"@,
        r[4].name@ == "Michel Foucault"@,
{
    let names = vec![
        String::from_str("Judith Butler"),
        String::from_str("Gilles Deleuze"),
        String::from_str("Karl Marx"),
        String::from_str("Emma Goldman"),
        String::from_str("Michel Foucault"),
    ];
    guarded_roster(&names)
}

/// In the guarded table every diner takes the lower-numbered of its cells
/// first.
pub proof fn lemma_guarded_ordered(n: nat)
    requires
        n >= 2,
    ensures
        ordered(guarded_pairs(n)),
{
}

/// No deadlock for any ring of two or more cells with the guarded table:
/// every run ends within three moves per diner, and a run that cannot go on
/// has every diner done.
pub proof fn lemma_guarded_table_finishes(n: nat, run: Seq<Seq<Stage>>)
    requires
        n >= 2,
        is_run(guarded_pairs(n), run),
    ensures
        run.len() <= 3 * n + 1,
        !stuck(guarded_pairs(n), run.last()),
{
    lemma_guarded_ordered(n);
    lemma_ordered_runs_finish(guarded_pairs(n), run);
}

/// With the table that follows the ring and has no reversed diner, a
/// deadlock can be reached on any ring of two or more cells: each diner in
/// turn takes its own cell, and then each waits on the next one's.
pub proof fn lemma_ring_table_can_deadlock(n: nat)
    requires
        n >= 2,
    ensures
        exists|run: Seq<Seq<Stage>>| is_run(ring_pairs(n), run) && stuck(ring_pairs(n), run.last()),
{
    let pairs = ring_pairs(n);
    let run = Seq::new(n + 1, |j: int| first_taken(n, j));
    assert(run[0] =~= initial(n));
    assert forall|j: int| 0 <= j < run.len() - 1 implies #[trigger] step(pairs, run[j], run[j + 1]) by {
        let st = run[j];
        assert forall|a: int| 0 <= a < st.len() implies !#[trigger] holds(st[a], pairs[a], j) by {}
        assert(can_advance(pairs, st, j));
        assert(advanced(st, j) =~= run[j + 1]);
    }
    let last = run.last();
    assert(last[0] == Stage::HoldingFirst);
    assert forall|k: int| 0 <= k < last.len() implies !#[trigger] can_advance(pairs, last, k) by {
        let other = if k + 1 == n { 0 } else { k + 1 };
        assert(holds(last[other], pairs[other], pairs[k].1));
    }
    assert(is_run(pairs, run) && stuck(pairs, run.last()));
}

/// Whatever the interleaving, a run of the guarded table that cannot go on
/// has had every diner speak its two lines: two lines per diner in all.
pub proof fn lemma_guarded_table_speaks_twice_each(n: nat, run: Seq<Seq<Stage>>)
    requires
        n >= 2,
        is_run(guarded_pairs(n), run),
        forall|k: int| 0 <= k < n ==> !#[trigger] can_advance(guarded_pairs(n), run.last(), k),
    ensures
        lines_spoken(run.last()) == 2 * n,
{
    lemma_guarded_table_finishes(n, run);
    lemma_run_states(guarded_pairs(n), run, run.len() - 1);
    let st = run.last();
    assert forall|k: int| 0 <= k < st.len() implies 0 <= #[trigger] spoken_weight()(st[k]) <= 2
        && spoken_weight()(st[k]) == 2 by {
        assert(st[k] == Stage::Done);
    }
    lemma_total_bound(st, spoken_weight(), 2);
}

/// The state in which diners `0..j` hold their first cell and the rest think.
pub open spec fn first_taken(n: nat, j: int) -> Seq<Stage> {
    Seq::new(n, |k: int| if k < j { Stage::HoldingFirst } else { Stage::Thinking })
}

} // verus!
