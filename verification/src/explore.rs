use vstd::prelude::*;

verus! {

use crate::puzzle::{Cell, in_domain};
use crate::constraint::{Constraint, holds};

/// A complete assignment of the 81 grid cells, row-major, as extracted from
/// one model of the solving engine.
pub struct Grid {
    pub cells: Vec<u64>,
}

impl View for Grid {
    type V = Seq<u64>;

    open spec fn view(&self) -> Seq<u64> {
        self.cells@
    }
}

impl Grid {
    /// The grid covers all 81 cells.
    pub open spec fn wf(self) -> bool {
        self.cells@.len() == 81
    }

    /// Decide whether every cell holds a digit in [1,9].
    pub fn check_domain(&self) -> (r: bool)
        requires
            self.wf(),
        ensures
            r == in_domain(self@),
    {
        let mut i: usize = 0;
        while i < 81
            invariant
                self.wf(),
                i <= 81,
                forall|m: int| 0 <= m < i ==> 1 <= #[trigger] self.cells@[m] && self.cells@[m]
                    <= 9,
            decreases 81 - i,
        {
            let v = self.cells[i];
            if v < 1 || v > 9 {
                return false;
            }
            i += 1;
        }
        true
    }
}

/// One verdict of the solving engine for a single satisfiability check,
/// with the extracted model when the check succeeded.
pub enum EngineReply {
    Sat(Grid),
    Unsat,
    Unknown,
}

/// Outcome of the single-solution strategy.
pub enum SolveOutcome {
    /// The engine produced this complete assignment.
    Solution(Grid),
    /// No assignment satisfies the compiled constraints.
    NoSolution,
    /// The engine could not decide; fatal for this run.
    Indeterminate,
}

/// Single-solution strategy: one satisfiability check decides everything.
/// Maps the engine's verdict onto the structured outcome.
pub fn solution_outcome(reply: EngineReply) -> (r: SolveOutcome)
    ensures
        (reply matches EngineReply::Sat(g) ==> r == SolveOutcome::Solution(g)),
        (reply matches EngineReply::Unsat ==> r == SolveOutcome::NoSolution),
        (reply matches EngineReply::Unknown ==> r == SolveOutcome::Indeterminate),
{
    match reply {
        EngineReply::Sat(g) => SolveOutcome::Solution(g),
        EngineReply::Unsat => SolveOutcome::NoSolution,
        EngineReply::Unknown => SolveOutcome::Indeterminate,
    }
}

/// Build the blocking clause for one found model: it holds of exactly the
/// assignments that differ from the model in at least one cell, so asserting
/// it forbids that model and nothing else.
pub fn blocking_constraint(model: &Grid) -> (c: Constraint)
    requires
        model.wf(),
    ensures
        c.wf(),
        forall|h: Seq<u64>| h.len() == 81 ==> (holds(c, h) <==> h != model@),
{
    let mut vals: Vec<u64> = Vec::new();
    let mut i: usize = 0;
    while i < 81
        invariant
            model.wf(),
            i <= 81,
            vals@.len() == i,
            forall|m: int| 0 <= m < i ==> vals@[m] == model.cells@[m],
        decreases 81 - i,
    {
        vals.push(model.cells[i]);
        i += 1;
    }
    proof {
        assert(vals@ =~= model.cells@);
    }
    let c = Constraint::DiffersFrom(vals);
    proof {
        let cv = c->DiffersFrom_0;
        assert(cv@ =~= model.cells@);
        assert forall|h: Seq<u64>| h.len() == 81 implies (holds(c, h) <==> h != model@) by {
            if holds(c, h) {
                let i = choose|i: int| 0 <= i < 81 && h[i] != cv[i];
                assert(h[i] != model@[i]);
                assert(h != model@);
            } else {
                assert forall|m: int| 0 <= m < 81 implies h[m] == model@[m] by {
                    if h[m] != model@[m] {
                        assert(h[m] != cv[m]);
                        assert(holds(c, h));
                    }
                }
                assert(h =~= model@);
            }
        }
    }
    c
}

/// Outcome of the counting strategy.
pub enum CountOutcome {
    /// The solution space was exhausted: exactly this many assignments.
    Exact(u32),
    /// The iteration cap was reached while still satisfiable: a lower bound.
    MoreThan(u32),
    /// The engine could not decide; fatal for this run.
    Indeterminate,
}

/// What the counting strategy asks of its driver after one check.
pub enum CountAction {
    /// Assert this blocking clause into the engine and check again.
    AddBlocking(Constraint),
    /// Stop with this outcome.
    Finished(CountOutcome),
}

/// State of the counting strategy: bounded model enumeration through
/// blocking clauses.
pub struct CountState {
    /// Maximum number of models to enumerate.
    pub cap: u32,
    /// Models found so far.
    pub found: u32,
}

impl CountState {
    pub open spec fn wf(self) -> bool {
        self.found <= self.cap
    }

    pub fn new(cap: u32) -> (s: CountState)
        ensures
            s.cap == cap,
            s.found == 0,
            s.wf(),
    {
        CountState { cap, found: 0 }
    }

    /// The strategy still has budget for another satisfiability check.
    pub fn wants_check(&self) -> (r: bool)
        ensures
            r == (self.found < self.cap),
    {
        self.found < self.cap
    }

    /// Consume one engine verdict. A found model is counted and blocked;
    /// exhaustion yields the exact count; an undecided check is fatal.
    pub fn step(&mut self, reply: &EngineReply) -> (r: CountAction)
        requires
            old(self).wf(),
            old(self).found < old(self).cap,
            (reply matches EngineReply::Sat(g) ==> g.wf()),
        ensures
            final(self).wf(),
            final(self).cap == old(self).cap,
            (reply matches EngineReply::Unsat ==> *final(self) == *old(self) && r
                == CountAction::Finished(CountOutcome::Exact(old(self).found))),
            (reply matches EngineReply::Unknown ==> *final(self) == *old(self) && r
                == CountAction::Finished(CountOutcome::Indeterminate)),
            (reply matches EngineReply::Sat(g) ==> {
                &&& final(self).found == old(self).found + 1
                &&& (final(self).found < final(self).cap ==> (r matches CountAction::AddBlocking(c)
                    && c.wf() && forall|h: Seq<u64>|
                    h.len() == 81 ==> (holds(c, h) <==> h != g@)))
                &&& (final(self).found == final(self).cap ==> r == CountAction::Finished(
                    CountOutcome::MoreThan(old(self).cap),
                ))
            }),
    {
        match reply {
            EngineReply::Sat(g) => {
                self.found = self.found + 1;
                if self.found < self.cap {
                    CountAction::AddBlocking(blocking_constraint(g))
                } else {
                    CountAction::Finished(CountOutcome::MoreThan(self.cap))
                }
            },
            EngineReply::Unsat => CountAction::Finished(CountOutcome::Exact(self.found)),
            EngineReply::Unknown => CountAction::Finished(CountOutcome::Indeterminate),
        }
    }
}

/// The digit value discouraged for one cell: the candidate-set refinement
/// adds one such low-weight soft constraint per cell and iteration.
pub struct SoftConstraint {
    pub constraint: Constraint,
    pub weight: u32,
}

/// The soft constraint discourages repeating value `v` in cell `c`
/// (row-major position) with weight one.
pub open spec fn is_discourage(s: SoftConstraint, c: int, v: u64) -> bool {
    s.weight == 1 && s.constraint == Constraint::NeqConst(
        Cell { row: (c / 9) as usize, col: (c % 9) as usize },
        v,
    )
}

/// The candidate table records (cell, value) as seen: cell is the row-major
/// position in [0,81), value a digit in [1,9].
pub open spec fn marked(clues: Seq<bool>, cell: int, v: int) -> bool {
    clues[cell * 9 + (v - 1)]
}

/// How many of the first `n` cells of model `g` carry a value not yet
/// recorded in the candidate table.
pub open spec fn new_marks(clues: Seq<bool>, g: Seq<u64>, n: int) -> int
    decreases n,
{
    if n <= 0 {
        0
    } else if marked(clues, n - 1, g[n - 1] as int) {
        new_marks(clues, g, n - 1)
    } else {
        new_marks(clues, g, n - 1) + 1
    }
}

/// The count of new marks lies in [0, n], and is zero exactly when every
/// value of the model is already recorded.
pub proof fn lemma_new_marks_bounds(clues: Seq<bool>, g: Seq<u64>, n: int)
    requires
        n >= 0,
    ensures
        0 <= new_marks(clues, g, n) <= n,
        (new_marks(clues, g, n) == 0) <==> (forall|c: int|
            0 <= c < n ==> marked(clues, c, g[c] as int)),
    decreases n,
{
    if n > 0 {
        lemma_new_marks_bounds(clues, g, n - 1);
    }
}

/// What the refinement strategy asks of its driver after one check.
pub enum HintAction {
    /// Assert these 81 weighted soft constraints and check again; the count
    /// says how many candidate marks the model added.
    Refine(Vec<SoftConstraint>, u32),
    /// The candidate table is complete: no model can add a new mark.
    Fixpoint,
    /// No assignment satisfies the compiled constraints at all.
    NoCompletion,
    /// The engine could not decide; fatal for this run.
    Indeterminate,
}

/// State of the candidate-set refinement strategy: a per-cell, per-value
/// seen table driven toward a fixpoint by maximally divergent models.
pub struct HintState {
    /// Maximum number of refinement rounds.
    pub cap: u32,
    /// Refinement rounds completed.
    pub rounds: u32,
    /// The 81 x 9 seen table, flattened as cell * 9 + (value - 1).
    pub clues: Vec<bool>,
    /// The models folded into the table so far.
    pub models: Ghost<Seq<Seq<u64>>>,
}

impl HintState {
    /// The table has its full shape, rounds respect the cap, and a mark is
    /// set exactly when some processed model put that value in that cell.
    pub open spec fn wf(self) -> bool {
        &&& self.clues@.len() == 729
        &&& self.rounds <= self.cap
        &&& (forall|m: int|
            0 <= m < self.models@.len() ==> (#[trigger] self.models@[m]).len() == 81 && in_domain(
                self.models@[m],
            ))
        &&& (forall|cell: int, v: int|
            0 <= cell < 81 && 1 <= v <= 9 ==> (#[trigger] marked(self.clues@, cell, v)
                <==> exists|m: int|
                0 <= m < self.models@.len() && (#[trigger] self.models@[m])[cell] == v))
    }

    pub fn new(cap: u32) -> (s: HintState)
        ensures
            s.wf(),
            s.cap == cap,
            s.rounds == 0,
            s.models@ == Seq::<Seq<u64>>::empty(),
            forall|idx: int| 0 <= idx < 729 ==> !(#[trigger] s.clues@[idx]),
    {
        let mut clues: Vec<bool> = Vec::new();
        let mut i: usize = 0;
        while i < 729
            invariant
                i <= 729,
                clues@.len() == i,
                forall|idx: int| 0 <= idx < i ==> !(#[trigger] clues@[idx]),
            decreases 729 - i,
        {
            clues.push(false);
            i += 1;
        }
        let s = HintState { cap, rounds: 0, clues, models: Ghost(Seq::empty()) };
        proof {
            assert forall|cell: int, v: int|
                0 <= cell < 81 && 1 <= v <= 9 implies (#[trigger] marked(s.clues@, cell, v)
                <==> exists|m: int|
                0 <= m < s.models@.len() && (#[trigger] s.models@[m])[cell] == v) by {
                assert(!s.clues@[cell * 9 + (v - 1)]);
            }
        }
        s
    }

    /// The strategy still has budget for another refinement round.
    pub fn wants_check(&self) -> (r: bool)
        ensures
            r == (self.rounds < self.cap),
    {
        self.rounds < self.cap
    }

    /// The distinct candidate digits recorded for one cell, in increasing
    /// order.
    pub fn candidates(&self, row: usize, col: usize) -> (vals: Vec<u64>)
        requires
            self.wf(),
            row < 9,
            col < 9,
        ensures
            forall|i: int|
                0 <= i < vals@.len() ==> 1 <= #[trigger] vals@[i] <= 9 && marked(
                    self.clues@,
                    row * 9 + col,
                    vals@[i] as int,
                ),
            forall|v: int|
                #![trigger marked(self.clues@, row * 9 + col, v)]
                1 <= v <= 9 && marked(self.clues@, row * 9 + col, v) ==> exists|i: int|
                    0 <= i < vals@.len() && vals@[i] == v,
            forall|i: int, j: int| 0 <= i < j < vals@.len() ==> vals@[i] < vals@[j],
    {
        let cell = row * 9 + col;
        let mut vals: Vec<u64> = Vec::new();
        let mut v: usize = 1;
        while v <= 9
            invariant
                self.wf(),
                cell == row * 9 + col,
                row < 9,
                col < 9,
                1 <= v <= 10,
                forall|i: int|
                    0 <= i < vals@.len() ==> 1 <= #[trigger] vals@[i] < v && marked(
                        self.clues@,
                        cell as int,
                        vals@[i] as int,
                    ),
                forall|v2: int|
                    #![trigger marked(self.clues@, cell as int, v2)]
                    1 <= v2 < v && marked(self.clues@, cell as int, v2) ==> exists|i: int|
                        0 <= i < vals@.len() && vals@[i] == v2,
                forall|i: int, j: int| 0 <= i < j < vals@.len() ==> vals@[i] < vals@[j],
            decreases 10 - v,
        {
            let ghost pre = vals@;
            let has = self.clues[cell * 9 + v - 1];
            if has {
                vals.push(v as u64);
            }
            proof {
                assert(marked(self.clues@, cell as int, v as int) == has);
                assert forall|v2: int|
                    #![trigger marked(self.clues@, cell as int, v2)]
                    1 <= v2 < v + 1 && marked(self.clues@, cell as int, v2) implies exists|i: int|
                    0 <= i < vals@.len() && vals@[i] == v2 by {
                    if v2 < v {
                        let i = choose|i: int| 0 <= i < pre.len() && pre[i] == v2;
                        assert(vals@[i] == v2);
                    } else {
                        assert(has);
                        assert(vals@[vals@.len() - 1] == v2);
                    }
                }
                assert forall|i: int, j: int| 0 <= i < j < vals@.len() implies vals@[i]
                    < vals@[j] by {
                    if has && j == vals@.len() - 1 {
                        assert(vals@[i] == pre[i]);
                        assert(pre[i] < v);
                    } else {
                        assert(vals@[i] == pre[i] && vals@[j] == pre[j]);
                    }
                }
            }
            v += 1;
        }
        vals
    }

    /// Consume one engine verdict. A found model marks its values in the
    /// table; a round that adds no mark is the fixpoint; otherwise the
    /// driver asserts one discouraging soft constraint per cell and checks
    /// again. Infeasibility and an undecided check both end the run.
    pub fn step(&mut self, reply: &EngineReply) -> (r: HintAction)
        requires
            old(self).wf(),
            old(self).rounds < old(self).cap,
            (reply matches EngineReply::Sat(g) ==> g.wf() && in_domain(g@)),
        ensures
            final(self).wf(),
            final(self).cap == old(self).cap,
            (reply matches EngineReply::Unsat ==> *final(self) == *old(self) && r
                == HintAction::NoCompletion),
            (reply matches EngineReply::Unknown ==> *final(self) == *old(self) && r
                == HintAction::Indeterminate),
            (reply matches EngineReply::Sat(g) ==> {
                &&& final(self).rounds == old(self).rounds + 1
                &&& final(self).models@ == old(self).models@.push(g@)
                &&& ((r matches HintAction::Fixpoint) <==> (forall|c: int|
                    0 <= c < 81 ==> marked(old(self).clues@, c, g@[c] as int)))
                &&& ((r matches HintAction::Fixpoint) ==> final(self).clues@ == old(self).clues@)
                &&& (r matches HintAction::Refine(softs, n) ==> softs@.len() == 81 && (forall|
                    c: int,
                |
                    0 <= c < 81 ==> is_discourage(#[trigger] softs@[c], c, g@[c])) && n
                    == new_marks(old(self).clues@, g@, 81) && n > 0)
                &&& (r matches HintAction::Refine(softs, n) || r matches HintAction::Fixpoint)
            }),
    {
        match reply {
            EngineReply::Sat(g) => {
                let mut new_info: u32 = 0;
                let mut c: usize = 0;
                while c < 81
                    invariant
                        self.cap == old(self).cap,
                        self.rounds == old(self).rounds,
                        self.models == old(self).models,
                        old(self).wf(),
                        g.wf(),
                        in_domain(g@),
                        c <= 81,
                        new_info <= c,
                        self.clues@.len() == 729,
                        forall|idx: int|
                            0 <= idx < 729 ==> #[trigger] self.clues@[idx] == (old(
                                self,
                            ).clues@[idx] || exists|c2: int|
                                0 <= c2 < c && idx == c2 * 9 + (#[trigger] g@[c2]) - 1),
                        new_info == new_marks(old(self).clues@, g@, c as int),
                    decreases 81 - c,
                {
                    let v = g.cells[c];
                    proof {
                        assert(1 <= g@[c as int] <= 9);
                    }
                    let idx = c * 9 + (v as usize) - 1;
                    let ghost pre = self.clues@;
                    if !self.clues[idx] {
                        self.clues.set(idx, true);
                        new_info = new_info + 1;
                        proof {
                            assert forall|idx2: int| 0 <= idx2 < 729 implies #[trigger] self
                                .clues@[idx2] == (old(self).clues@[idx2] || exists|c2: int|
                                0 <= c2 < c + 1 && idx2 == c2 * 9 + (#[trigger] g@[c2]) - 1) by {
                                if idx2 == idx {
                                    assert(idx2 == c * 9 + g@[c as int] - 1);
                                } else {
                                    assert(self.clues@[idx2] == pre[idx2]);
                                }
                            }
                            assert(!marked(old(self).clues@, c as int, g@[c as int] as int)) by {
                                assert(!pre[idx as int]);
                                assert forall|c2: int|
                                    0 <= c2 < c implies idx as int != c2 * 9 + (
                                #[trigger] g@[c2]) - 1 by {
                                    assert(c2 * 9 + g@[c2] - 1 < c * 9);
                                }
                            }
                        }
                    } else {
                        proof {
                            assert forall|idx2: int| 0 <= idx2 < 729 implies #[trigger] self
                                .clues@[idx2] == (old(self).clues@[idx2] || exists|c2: int|
                                0 <= c2 < c + 1 && idx2 == c2 * 9 + (#[trigger] g@[c2]) - 1) by {
                                if idx2 == idx {
                                    assert(idx2 == c * 9 + g@[c as int] - 1);
                                }
                            }
                            assert(marked(old(self).clues@, c as int, g@[c as int] as int)) by {
                                assert(pre[idx as int]);
                                assert forall|c2: int|
                                    0 <= c2 < c implies idx as int != c2 * 9 + (
                                #[trigger] g@[c2]) - 1 by {
                                    assert(c2 * 9 + g@[c2] - 1 < c * 9);
                                }
                            }
                        }
                    }
                    c += 1;
                }
                self.rounds = self.rounds + 1;
                proof {
                    self.models@ = old(self).models@.push(g@);
                }
                proof {
                    assert forall|cell: int, v: int|
                        0 <= cell < 81 && 1 <= v <= 9 implies (#[trigger] marked(
                        self.clues@,
                        cell,
                        v,
                    ) <==> exists|m: int|
                        0 <= m < self.models@.len() && (#[trigger] self.models@[m])[cell]
                            == v) by {
                        let idx = cell * 9 + (v - 1);
                        assert(self.clues@[idx] == (old(self).clues@[idx] || exists|c2: int|
                            0 <= c2 < 81 && idx == c2 * 9 + (#[trigger] g@[c2]) - 1));
                        if exists|c2: int| 0 <= c2 < 81 && idx == c2 * 9 + (#[trigger] g@[c2]) - 1 {
                            let c2 = choose|c2: int|
                                0 <= c2 < 81 && idx == c2 * 9 + (#[trigger] g@[c2]) - 1;
                            assert(1 <= g@[c2] <= 9);
                            assert(c2 == cell && g@[c2] == v);
                        }
                        if marked(old(self).clues@, cell, v) {
                            let m = choose|m: int|
                                0 <= m < old(self).models@.len() && (#[trigger] old(
                                    self,
                                ).models@[m])[cell] == v;
                            assert(self.models@[m][cell] == v);
                        }
                        if g@[cell] == v {
                            assert(self.models@[self.models@.len() - 1][cell] == v);
                        }
                        if exists|m: int|
                            0 <= m < self.models@.len() && (#[trigger] self.models@[m])[cell]
                                == v {
                            let m = choose|m: int|
                                0 <= m < self.models@.len() && (#[trigger] self.models@[m])[cell]
                                    == v;
                            if m < old(self).models@.len() {
                                assert(old(self).models@[m][cell] == v);
                            } else {
                                assert(self.models@[m] == g@);
                                assert(idx == cell * 9 + g@[cell] - 1);
                            }
                        }
                    }
                }
                proof {
                    lemma_new_marks_bounds(old(self).clues@, g@, 81);
                }
                if new_info == 0 {
                    proof {
                        assert forall|idx: int| 0 <= idx < 729 implies #[trigger] self.clues@[idx]
                            == old(self).clues@[idx] by {
                            if exists|c2: int| 0 <= c2 < 81 && idx == c2 * 9 + (#[trigger] g@[c2])
                                - 1 {
                                let c2 = choose|c2: int|
                                    0 <= c2 < 81 && idx == c2 * 9 + (#[trigger] g@[c2]) - 1;
                                assert(marked(old(self).clues@, c2, g@[c2] as int));
                            }
                        }
                        assert(self.clues@ =~= old(self).clues@);
                    }
                    HintAction::Fixpoint
                } else {
                    proof {
                        assert(!(forall|c2: int|
                            0 <= c2 < 81 ==> marked(old(self).clues@, c2, g@[c2] as int)));
                    }
                    let mut softs: Vec<SoftConstraint> = Vec::new();
                    let mut c: usize = 0;
                    while c < 81
                        invariant
                            g.wf(),
                            c <= 81,
                            softs@.len() == c,
                            forall|c2: int|
                                0 <= c2 < c ==> is_discourage(#[trigger] softs@[c2], c2, g@[c2]),
                        decreases 81 - c,
                    {
                        softs.push(
                            SoftConstraint {
                                constraint: Constraint::NeqConst(
                                    Cell::new(c / 9, c % 9),
                                    g.cells[c],
                                ),
                                weight: 1,
                            },
                        );
                        c += 1;
                    }
                    HintAction::Refine(softs, new_info)
                }
            },
            EngineReply::Unsat => HintAction::NoCompletion,
            EngineReply::Unknown => HintAction::Indeterminate,
        }
    }
}

/// The probe rejects a target square off the grid before any engine
/// interaction.
#[derive(Clone, Copy, PartialEq, Eq, Structural, Debug)]
pub enum ProbeError {
    InvalidSquare,
}

/// Feasibility verdict for one digit in the probed square.
#[derive(Clone, Copy, PartialEq, Eq, Structural, Debug)]
pub enum ProbeAnswer {
    Feasible,
    Infeasible,
    Undecided,
}

/// Square-probe strategy, compilation half: one equality constraint per
/// candidate digit, in increasing order. The driver asserts each inside a
/// fresh engine scope, checks, and retracts the scope, so probes cannot
/// corrupt one another.
pub fn probe_constraints(row: usize, col: usize) -> (r: Result<Vec<Constraint>, ProbeError>)
    ensures
        (r matches Ok(_)) <==> (row < 9 && col < 9),
        (r matches Err(e) ==> e == ProbeError::InvalidSquare),
        (r matches Ok(cs) ==> cs@.len() == 9 && (forall|d: int|
            0 <= d < 9 ==> #[trigger] cs@[d] == Constraint::EqConst(
                Cell { row, col },
                (d + 1) as u64,
            )) && forall|d: int| 0 <= d < 9 ==> (#[trigger] cs@[d]).wf()),
{
    if 9 <= row || 9 <= col {
        return Err(ProbeError::InvalidSquare);
    }
    let cell = Cell::new(row, col);
    let mut cs: Vec<Constraint> = Vec::new();
    let mut d: usize = 0;
    while d < 9
        invariant
            cell == (Cell { row, col }),
            row < 9,
            col < 9,
            d <= 9,
            cs@.len() == d,
            forall|d2: int|
                0 <= d2 < d ==> #[trigger] cs@[d2] == Constraint::EqConst(
                    Cell { row, col },
                    (d2 + 1) as u64,
                ),
        decreases 9 - d,
    {
        cs.push(Constraint::EqConst(cell, (d as u64) + 1));
        d += 1;
    }
    Ok(cs)
}

/// Square-probe strategy, verdict half: record the engine's answer for one
/// digit.
pub fn probe_answer(reply: &EngineReply) -> (r: ProbeAnswer)
    ensures
        (reply matches EngineReply::Sat(_) ==> r == ProbeAnswer::Feasible),
        (reply matches EngineReply::Unsat ==> r == ProbeAnswer::Infeasible),
        (reply matches EngineReply::Unknown ==> r == ProbeAnswer::Undecided),
{
    match reply {
        EngineReply::Sat(_) => ProbeAnswer::Feasible,
        EngineReply::Unsat => ProbeAnswer::Infeasible,
        EngineReply::Unknown => ProbeAnswer::Undecided,
    }
}

} // verus!
