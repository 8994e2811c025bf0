use vstd::prelude::*;
use crate::philosopher::{Philosopher, roster_pairs};
use crate::protocol::{
    Stage, advanced, can_advance, exclusive, finished, free, holds, initial, is_run,
    lemma_advance_progress, lemma_ordered_never_stuck, lemma_total_bound, lemma_total_update,
    lines_spoken, next_stage, ordered, progress, rank_weight, reachable, spoken, spoken_weight,
    step, stuck,
};
use crate::ring::ResourceRing;

verus! {

/// A line of narration: diner `k` starts eating, or is done eating.
#[derive(Clone, Copy, Debug, PartialEq, Eq, Structural)]
pub enum Line {
    Eating(usize),
    DoneEating(usize),
}

/// The line that diner `k` speaks on moving on from stage `s`.
pub open spec fn line_of(s: Stage, k: usize) -> Option<Line> {
    match s {
        Stage::HoldingFirst => Some(Line::Eating(k)),
        Stage::Eating => Some(Line::DoneEating(k)),
        _ => None,
    }
}

/// Diner `k` said that it was eating, and later that it was done.
pub open spec fn ate_in_order(lines: Seq<Line>, k: int) -> bool {
    exists|i: int, j: int|
        0 <= i < j < lines.len() && #[trigger] lines[i] == Line::Eating(k as usize)
            && #[trigger] lines[j] == Line::DoneEating(k as usize)
}

/// The lowest-numbered diner from `i` on that can move; -1 where none can.
pub open spec fn lowest_ready(pairs: Seq<(int, int)>, st: Seq<Stage>, i: int) -> int
    decreases st.len() - i,
{
    if i < 0 || i >= st.len() {
        -1
    } else if can_advance(pairs, st, i) {
        i
    } else {
        lowest_ready(pairs, st, i + 1)
    }
}

/// The diner that moves when `pick` is asked for: `pick` where it can move,
/// else the lowest-numbered one that can; -1 where none can.
pub open spec fn chosen(pairs: Seq<(int, int)>, st: Seq<Stage>, pick: int) -> int {
    if 0 <= pick < st.len() && can_advance(pairs, st, pick) {
        pick
    } else {
        lowest_ready(pairs, st, 0)
    }
}

/// The diner asked for at position `pos` of a schedule; with no schedule,
/// nobody in particular.
pub open spec fn pick_at(schedule: Seq<usize>, pos: int, n: int) -> int {
    if schedule.len() > 0 {
        schedule[pos] as int
    } else {
        n
    }
}

/// The position after `pos`, round and round.
pub open spec fn next_pos(schedule: Seq<usize>, pos: int) -> int {
    if schedule.len() == 0 {
        pos
    } else if pos + 1 == schedule.len() {
        0
    } else {
        pos + 1
    }
}

pub open spec fn line_seq(s: Stage, k: usize) -> Seq<Line> {
    match line_of(s, k) {
        Some(l) => seq![l],
        None => Seq::empty(),
    }
}

pub open spec fn prepend(lines: Seq<Line>, r: Result<Seq<Line>, Seq<Stage>>) -> Result<
    Seq<Line>,
    Seq<Stage>,
> {
    match r {
        Ok(rest) => Ok(lines + rest),
        Err(st) => Err(st),
    }
}

/// The dinner played from stage `st`, the schedule at position `pos`, for at
/// most `fuel` moves: the lines spoken up to the end, or the stages where
/// nobody can move.
pub open spec fn play(
    pairs: Seq<(int, int)>,
    schedule: Seq<usize>,
    pos: int,
    st: Seq<Stage>,
    fuel: nat,
) -> Result<Seq<Line>, Seq<Stage>>
    decreases fuel,
{
    if finished(st) {
        Ok(Seq::empty())
    } else {
        let k = chosen(pairs, st, pick_at(schedule, pos, st.len() as int));
        if k < 0 || fuel == 0 {
            Err(st)
        } else {
            prepend(
                line_seq(st[k], k as usize),
                play(pairs, schedule, next_pos(schedule, pos), advanced(st, k), (fuel - 1) as nat),
            )
        }
    }
}

proof fn lemma_lowest_ready(pairs: Seq<(int, int)>, st: Seq<Stage>, i: int)
    requires
        0 <= i <= st.len(),
    ensures
        ({
            let k = lowest_ready(pairs, st, i);
            ||| k == -1 && forall|j: int| i <= j < st.len() ==> !#[trigger] can_advance(pairs, st, j)
            ||| i <= k < st.len() && can_advance(pairs, st, k) && forall|j: int|
                i <= j < k ==> !#[trigger] can_advance(pairs, st, j)
        }),
    decreases st.len() - i,
{
    if i < st.len() && !can_advance(pairs, st, i) {
        lemma_lowest_ready(pairs, st, i + 1);
    }
}

/// One dinner on a ring of cells: each diner's order of cells, where each
/// diner stands, and who holds which cell.
pub struct Dinner {
    pairs: Vec<(usize, usize)>,
    stages: Vec<Stage>,
    ring: ResourceRing,
}

impl Dinner {
    /// The order in which each diner takes its cells.
    pub closed spec fn pairs_model(&self) -> Seq<(int, int)> {
        Seq::new(self.pairs@.len(), |k: int| (self.pairs@[k].0 as int, self.pairs@[k].1 as int))
    }

    /// Where each diner stands.
    pub closed spec fn stages_model(&self) -> Seq<Stage> {
        self.stages@
    }

    pub closed spec fn cells(&self) -> nat {
        self.ring@.len()
    }

    /// The ring records exactly the cells that the diners' stages say they hold.
    pub closed spec fn wf(&self) -> bool {
        let n = self.stages@.len();
        let pm = self.pairs_model();
        &&& self.pairs@.len() == n
        &&& forall|k: int|
            0 <= k < n ==> (#[trigger] self.pairs@[k]).0 < self.ring@.len() && self.pairs@[k].1
                < self.ring@.len()
        &&& forall|k: int|
            0 <= k < n && #[trigger] self.stages@[k] == Stage::Eating ==> self.pairs@[k].0
                != self.pairs@[k].1
        &&& forall|c: int|
            0 <= c < self.ring@.len() && (#[trigger] self.ring@[c]) is Some ==> {
                let a = self.ring@[c]->0 as int;
                0 <= a < n && holds(self.stages@[a], pm[a], c)
            }
        &&& forall|a: int, c: int|
            0 <= a < n && #[trigger] holds(self.stages@[a], pm[a], c) ==> 0 <= c
                < self.ring@.len() && self.ring@[c] is Some && self.ring@[c]->0 as int == a
    }

    proof fn lemma_free(&self, c: int)
        requires
            self.wf(),
            0 <= c < self.cells(),
        ensures
            free(self.pairs_model(), self.stages_model(), c) <==> self.ring@[c] is None,
    {
        if self.ring@[c] is Some {
            let a = self.ring@[c]->0 as int;
            assert(holds(self.stages@[a], self.pairs_model()[a], c));
        }
    }

    /// A well-formed dinner never has a cell with two holders.
    pub proof fn lemma_exclusive(&self)
        requires
            self.wf(),
        ensures
            exclusive(self.pairs_model(), self.stages_model()),
            self.pairs_model().len() == self.stages_model().len(),
    {
        let pm = self.pairs_model();
        let st = self.stages@;
        assert forall|a: int, b: int, c: int|
            0 <= a < st.len() && 0 <= b < st.len() && a != b && #[trigger] holds(st[a], pm[a], c)
                implies !#[trigger] holds(st[b], pm[b], c) by {
            assert(self.ring@[c]->0 as int == a);
        }
    }

    /// Everybody thinking, every cell free.
    pub fn new(roster: &Vec<Philosopher>, cells: usize) -> (d: Dinner)
        requires
            forall|k: int|
                0 <= k < roster.len() ==> (#[trigger] roster[k]).left < cells && roster[k].right
                    < cells,
        ensures
            d.wf(),
            d.pairs_model() == roster_pairs(roster@),
            d.stages_model() == initial(roster.len() as nat),
            d.cells() == cells,
    {
        let n = roster.len();
        let mut pairs: Vec<(usize, usize)> = Vec::new();
        let mut stages: Vec<Stage> = Vec::new();
        let mut k: usize = 0;
        while k < n
            invariant
                n == roster.len(),
                k <= n,
                pairs.len() == k,
                stages@ == initial(k as nat),
                forall|j: int|
                    0 <= j < k ==> #[trigger] pairs@[j] == (roster@[j].left, roster@[j].right),
            decreases n - k,
        {
            pairs.push((roster[k].left, roster[k].right));
            stages.push(Stage::Thinking);
            k = k + 1;
            assert(stages@ =~= initial(k as nat));
        }
        let d = Dinner { pairs, stages, ring: ResourceRing::new(cells) };
        assert(d.pairs_model() =~= roster_pairs(roster@));
        d
    }

    /// Whether diner `k` can move now.
    pub fn can_advance(&self, k: usize) -> (r: bool)
        requires
            self.wf(),
            k < self.stages_model().len(),
        ensures
            r == can_advance(self.pairs_model(), self.stages_model(), k as int),
    {
        let (first, second) = self.pairs[k];
        proof {
            self.lemma_free(first as int);
            self.lemma_free(second as int);
        }
        match self.stages[k] {
            Stage::Thinking => self.ring.holder(first).is_none(),
            Stage::HoldingFirst => self.ring.holder(second).is_none(),
            Stage::Eating => true,
            Stage::Done => false,
        }
    }

    /// Diner `k` makes its next move: it takes its first cell, takes its
    /// second cell and starts eating, or lets go of its second cell and then
    /// its first. Returns the line spoken, if any.
    pub fn advance(&mut self, k: usize) -> (line: Option<Line>)
        requires
            old(self).wf(),
            k < old(self).stages_model().len(),
            can_advance(old(self).pairs_model(), old(self).stages_model(), k as int),
        ensures
            final(self).wf(),
            final(self).pairs_model() == old(self).pairs_model(),
            final(self).stages_model() == advanced(old(self).stages_model(), k as int),
            final(self).cells() == old(self).cells(),
            line == line_of(old(self).stages_model()[k as int], k),
    {
        let (first, second) = self.pairs[k];
        let ghost pm = self.pairs_model();
        let ghost before = self.stages@;
        let ghost old_ring = self.ring@;
        proof {
            self.lemma_free(first as int);
            self.lemma_free(second as int);
        }
        let line = match self.stages[k] {
            Stage::Thinking => {
                self.ring.acquire(first, k);
                self.stages.set(k, Stage::HoldingFirst);
                None
            },
            Stage::HoldingFirst => {
                proof {
                    assert(holds(before[k as int], pm[k as int], first as int));
                }
                self.ring.acquire(second, k);
                self.stages.set(k, Stage::Eating);
                Some(Line::Eating(k))
            },
            _ => {
                proof {
                    assert(holds(before[k as int], pm[k as int], first as int));
                    assert(holds(before[k as int], pm[k as int], second as int));
                }
                self.ring.release(second, k);
                self.ring.release(first, k);
                self.stages.set(k, Stage::Done);
                Some(Line::DoneEating(k))
            },
        };
        proof {
            let after = self.stages@;
            assert(self.pairs_model() =~= pm);
            assert(after =~= advanced(before, k as int));
            assert forall|a: int, c: int|
                0 <= a < after.len() && #[trigger] holds(after[a], pm[a], c) implies 0 <= c
                < self.ring@.len() && self.ring@[c] is Some && self.ring@[c]->0 as int == a by {
                if a != k {
                    assert(after[a] == before[a]);
                    assert(old_ring[c]->0 as int == a);
                }
            }
            assert forall|c: int|
                0 <= c < self.ring@.len() && (#[trigger] self.ring@[c]) is Some implies {
                    let a = self.ring@[c]->0 as int;
                    0 <= a < after.len() && holds(after[a], pm[a], c)
                } by {
                if c != first && c != second {
                    let a = old_ring[c]->0 as int;
                    assert(holds(before[a], pm[a], c));
                    if a != k {
                        assert(after[a] == before[a]);
                    }
                }
            }
        }
        line
    }

    pub fn len(&self) -> (r: usize)
        ensures
            r == self.stages_model().len(),
    {
        self.stages.len()
    }

    /// Where diner `k` stands.
    pub fn stage(&self, k: usize) -> (r: Stage)
        requires
            k < self.stages_model().len(),
        ensures
            r == self.stages_model()[k as int],
    {
        self.stages[k]
    }

    /// Whether every diner is done.
    pub fn is_finished(&self) -> (r: bool)
        ensures
            r == finished(self.stages_model()),
    {
        let mut k: usize = 0;
        while k < self.stages.len()
            invariant
                k <= self.stages@.len(),
                forall|j: int| 0 <= j < k ==> self.stages@[j] == Stage::Done,
            decreases self.stages@.len() - k,
        {
            if self.stages[k] != Stage::Done {
                return false;
            }
            k = k + 1;
        }
        true
    }

    /// The lowest-numbered diner that can move, if any.
    pub fn first_ready(&self) -> (r: Option<usize>)
        requires
            self.wf(),
        ensures
            match r {
                Some(k) => {
                    &&& k < self.stages_model().len()
                    &&& can_advance(self.pairs_model(), self.stages_model(), k as int)
                    &&& forall|j: int|
                        0 <= j < k ==> !#[trigger] can_advance(
                            self.pairs_model(),
                            self.stages_model(),
                            j,
                        )
                },
                None => forall|j: int|
                    0 <= j < self.stages_model().len() ==> !#[trigger] can_advance(
                        self.pairs_model(),
                        self.stages_model(),
                        j,
                    ),
            },
    {
        let mut k: usize = 0;
        while k < self.stages.len()
            invariant
                self.wf(),
                k <= self.stages@.len(),
                forall|j: int|
                    0 <= j < k ==> !#[trigger] can_advance(
                        self.pairs_model(),
                        self.stages_model(),
                        j,
                    ),
            decreases self.stages@.len() - k,
        {
            if self.can_advance(k) {
                return Some(k);
            }
            k = k + 1;
        }
        None
    }

    /// The diner to move next: `pick` where it can move, else the
    /// lowest-numbered diner that can; `None` where nobody can.
    pub fn choose_diner(&self, pick: usize) -> (r: Option<usize>)
        requires
            self.wf(),
        ensures
            ({
                let c = chosen(self.pairs_model(), self.stages_model(), pick as int);
                &&& r is None <==> c < 0
                &&& r is Some ==> r->0 as int == c
            }),
            pick < self.stages_model().len() && can_advance(
                self.pairs_model(),
                self.stages_model(),
                pick as int,
            ) ==> r == Some(pick),
            !(pick < self.stages_model().len() && can_advance(
                self.pairs_model(),
                self.stages_model(),
                pick as int,
            )) ==> match r {
                Some(k) => {
                    &&& k < self.stages_model().len()
                    &&& can_advance(self.pairs_model(), self.stages_model(), k as int)
                    &&& forall|j: int|
                        0 <= j < k ==> !#[trigger] can_advance(
                            self.pairs_model(),
                            self.stages_model(),
                            j,
                        )
                },
                None => forall|j: int|
                    0 <= j < self.stages_model().len() ==> !#[trigger] can_advance(
                        self.pairs_model(),
                        self.stages_model(),
                        j,
                    ),
            },
    {
        proof {
            lemma_lowest_ready(self.pairs_model(), self.stages_model(), 0);
        }
        if pick < self.stages.len() && self.can_advance(pick) {
            Some(pick)
        } else {
            self.first_ready()
        }
    }

    /// Where each diner stands, as a vector.
    pub fn into_stages(self) -> (r: Vec<Stage>)
        ensures
            r@ == self.stages_model(),
    {
        self.stages
    }
}

/// Runs one dinner of `roster` on a ring of `cells` cells to its end, one
/// move at a time. Before each move the next entry of `schedule`, taken
/// round and round, names the diner to move; where that diner cannot move,
/// or the schedule is empty, the lowest-numbered diner that can move does.
///
/// Returns the lines spoken, one "eating" and one "done eating" per diner,
/// or, where the dinner deadlocks, the stages in which every diner left is
/// waiting. Where every diner takes its lower-numbered cell first, whatever
/// the schedule, there is no deadlock.
pub fn simulate(roster: &Vec<Philosopher>, cells: usize, schedule: &Vec<usize>) -> (r: Result<
    Vec<Line>,
    Vec<Stage>,
>)
    requires
        forall|k: int|
            0 <= k < roster.len() ==> (#[trigger] roster[k]).left < cells && roster[k].right
                < cells,
    ensures
        ({
            let p = play(
                roster_pairs(roster@),
                schedule@,
                0,
                initial(roster.len() as nat),
                (3 * roster.len()) as nat,
            );
            match r {
                Ok(lines) => p == Ok::<Seq<Line>, Seq<Stage>>(lines@),
                Err(st) => p == Err::<Seq<Line>, Seq<Stage>>(st@),
            }
        }),
        ordered(roster_pairs(roster@)) ==> r is Ok,
        match r {
            Ok(lines) => {
                &&& lines.len() == 2 * roster.len()
                &&& forall|k: int| 0 <= k < roster.len() ==> #[trigger] ate_in_order(lines@, k)
            },
            Err(st) => {
                &&& stuck(roster_pairs(roster@), st@)
                &&& reachable(roster_pairs(roster@), st@)
            },
        },
{
    let n = roster.len();
    let ghost pairs = roster_pairs(roster@);
    let mut d = Dinner::new(roster, cells);
    let mut lines: Vec<Line> = Vec::new();
    let mut pos: usize = 0;
    let ghost mut run: Seq<Seq<Stage>> = seq![d.stages_model()];
    let ghost mut eat_at: Seq<int> = Seq::new(n as nat, |k: int| 0);
    let ghost mut done_at: Seq<int> = Seq::new(n as nat, |k: int| 0);
    let ghost whole = play(pairs, schedule@, 0, initial(n as nat), (3 * n) as nat);
    proof {
        match whole {
            Ok(rest) => assert(Seq::<Line>::empty() + rest =~= rest),
            Err(_) => {},
        }
        lemma_total_bound(d.stages_model(), spoken_weight(), 0);
        lemma_total_bound(d.stages_model(), rank_weight(), 0);
    }
    loop
        invariant
            n == roster.len(),
            pairs == roster_pairs(roster@),
            pairs.len() == n,
            d.wf(),
            d.pairs_model() == pairs,
            d.stages_model().len() == n,
            is_run(pairs, run),
            run.last() == d.stages_model(),
            schedule.len() > 0 ==> pos < schedule.len(),
            lines.len() == lines_spoken(d.stages_model()),
            whole == play(pairs, schedule@, 0, initial(n as nat), (3 * n) as nat),
            schedule.len() == 0 ==> pos == 0,
            whole == prepend(
                lines@,
                play(
                    pairs,
                    schedule@,
                    pos as int,
                    d.stages_model(),
                    (3 * n - progress(d.stages_model())) as nat,
                ),
            ),
            0 <= progress(d.stages_model()) <= 3 * n,
            eat_at.len() == n,
            done_at.len() == n,
            forall|k: int|
                0 <= k < n && spoken(#[trigger] d.stages_model()[k]) >= 1 ==> 0 <= eat_at[k]
                    < lines.len() && lines[eat_at[k]] == Line::Eating(k as usize),
            forall|k: int|
                0 <= k < n && #[trigger] d.stages_model()[k] == Stage::Done ==> eat_at[k]
                    < done_at[k] < lines.len() && lines[done_at[k]] == Line::DoneEating(k as usize),
        decreases 3 * n - progress(d.stages_model()),
    {
        if d.is_finished() {
            proof {
                let st = d.stages_model();
                assert forall|k: int| 0 <= k < st.len() implies #[trigger] spoken_weight()(st[k])
                    == 2 by {
                    assert(st[k] == Stage::Done);
                }
                lemma_total_bound(st, spoken_weight(), 2);
                assert(lines@ + Seq::<Line>::empty() =~= lines@);
                assert forall|k: int| 0 <= k < n implies #[trigger] ate_in_order(lines@, k) by {
                    assert(st[k] == Stage::Done);
                    assert(lines[eat_at[k]] == Line::Eating(k as usize));
                    assert(lines[done_at[k]] == Line::DoneEating(k as usize));
                }
            }
            return Ok(lines);
        }
        let ghost pos_before = pos as int;
        let pick = if schedule.len() > 0 {
            let p = schedule[pos];
            pos = if pos + 1 == schedule.len() {
                0
            } else {
                pos + 1
            };
            p
        } else {
            n
        };
        let k = match d.choose_diner(pick) {
            Some(k) => k,
            None => {
                proof {
                    let st = d.stages_model();
                    if ordered(pairs) {
                        d.lemma_exclusive();
                        lemma_ordered_never_stuck(pairs, st);
                    }
                    assert(reachable(pairs, st));
                }
                return Err(d.into_stages());
            },
        };
        let ghost before = d.stages_model();
        let ghost lines_before = lines@;
        proof {
            assert(pos as int == next_pos(schedule@, pos_before));
            lemma_advance_progress(pairs, before, k as int);
            lemma_total_update(before, k as int, next_stage(before[k as int]), spoken_weight());
        }
        let line = d.advance(k);
        match line {
            Some(l) => {
                lines.push(l);
            },
            None => {},
        }
        proof {
            let after = d.stages_model();
            assert forall|j: int| 0 <= j < after.len() implies 0 <= #[trigger] rank_weight()(
                after[j],
            ) <= 3 by {}
            lemma_total_bound(after, rank_weight(), 3);
            let ls = line_seq(before[k as int], k);
            assert(lines@ =~= lines_before + ls);
            let rest = play(
                pairs,
                schedule@,
                pos as int,
                after,
                (3 * n - progress(after)) as nat,
            );
            assert(play(
                pairs,
                schedule@,
                pos_before,
                before,
                (3 * n - progress(before)) as nat,
            ) == prepend(ls, rest));
            match rest {
                Ok(t) => assert(lines_before + (ls + t) =~= (lines_before + ls) + t),
                Err(_) => {},
            }
            assert(step(pairs, run.last(), after));
            let old_run = run;
            run = run.push(after);
            assert forall|j: int| 0 <= j < run.len() - 1 implies #[trigger] step(
                pairs,
                run[j],
                run[j + 1],
            ) by {
                if j < old_run.len() - 1 {
                    assert(run[j] == old_run[j] && run[j + 1] == old_run[j + 1]);
                }
            }
            if before[k as int] == Stage::HoldingFirst {
                eat_at = eat_at.update(k as int, lines.len() - 1);
            } else if before[k as int] == Stage::Eating {
                done_at = done_at.update(k as int, lines.len() - 1);
            }
            assert forall|j: int|
                0 <= j < n && spoken(#[trigger] after[j]) >= 1 implies 0 <= eat_at[j]
                < lines.len() && lines[eat_at[j]] == Line::Eating(j as usize) by {
                if j != k {
                    assert(after[j] == before[j]);
                }
            }
            assert forall|j: int|
                0 <= j < n && #[trigger] after[j] == Stage::Done implies eat_at[j] < done_at[j]
                < lines.len() && lines[done_at[j]] == Line::DoneEating(j as usize) by {
                if j != k {
                    assert(after[j] == before[j]);
                }
            }
        }
    }
}

} // verus!
