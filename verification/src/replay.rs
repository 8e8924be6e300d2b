//! The replay engine: a state machine that applies synchronized turns to the
//! grid values and the two agents, and stops at the first illegal move.

use crate::energy::{is_permutation, is_square, GridValues};
use crate::grid::{neighbour, Direction, GridTopology, Position, Walls};
use vstd::prelude::*;

verus! {

/// One of the two agents. Within a turn the first agent moves before the
/// second.
#[derive(Clone, Copy, Debug, PartialEq, Eq, Structural)]
pub enum Agent {
    First,
    Second,
}

/// One step of a solution: an optional exchange of the values under the two
/// agents, then at most one step of each agent.
#[derive(Clone, Copy, Debug, PartialEq, Eq)]
pub struct Turn {
    pub do_swap: bool,
    pub dir1: Option<Direction>,
    pub dir2: Option<Direction>,
}

/// The grid values and both agents at one point of a replay.
#[derive(Clone, Debug, PartialEq, Eq)]
pub struct Snapshot {
    pub values: GridValues,
    pub p1: Position,
    pub p2: Position,
}

/// Mathematical model of a [`Snapshot`].
pub struct State {
    pub values: Seq<Seq<u32>>,
    pub p1: Position,
    pub p2: Position,
}

impl View for Snapshot {
    type V = State;

    open spec fn view(&self) -> State {
        State { values: self.values@, p1: self.p1, p2: self.p2 }
    }
}

/// The table that agrees with `a` everywhere but on the cells `p` and `q`,
/// which hold each other's values.
pub open spec fn exchanged(a: Seq<Seq<u32>>, p: Position, q: Position) -> Seq<Seq<u32>> {
    Seq::new(
        a.len(),
        |i: int|
            Seq::new(
                a[i].len(),
                |j: int|
                    if i == p.row && j == p.col {
                        a[q.row as int][q.col as int]
                    } else if i == q.row && j == q.col {
                        a[p.row as int][p.col as int]
                    } else {
                        a[i][j]
                    },
            ),
    )
}

/// How a turn ends: it is applied as a whole, or it is refused because of
/// the move of one agent.
#[derive(Clone, Copy, Debug, PartialEq, Eq, Structural)]
pub enum TurnOutcome {
    Continue,
    Halted { agent: Agent, direction: Direction },
}

impl State {
    /// The values form a permutation table of the grid's size and both
    /// agents stand on the grid.
    pub open spec fn wf(self, w: Walls) -> bool {
        &&& is_permutation(self.values, w.size)
        &&& w.contains(self.p1.row as int, self.p1.col as int)
        &&& w.contains(self.p2.row as int, self.p2.col as int)
    }

    /// Whether `turn` can be applied: the first agent's move is examined
    /// before the second's, and the first illegal one is reported.
    pub open spec fn outcome(self, w: Walls, turn: Turn) -> TurnOutcome {
        if turn.dir1 is Some && !w.can_move(self.p1, turn.dir1->0) {
            TurnOutcome::Halted { agent: Agent::First, direction: turn.dir1->0 }
        } else if turn.dir2 is Some && !w.can_move(self.p2, turn.dir2->0) {
            TurnOutcome::Halted { agent: Agent::Second, direction: turn.dir2->0 }
        } else {
            TurnOutcome::Continue
        }
    }

    /// The state after a turn whose moves are legal: the values under the
    /// agents are exchanged if the turn asks for it, then each agent that
    /// moves takes its step.
    pub open spec fn applied(self, turn: Turn) -> State {
        State {
            values: if turn.do_swap {
                exchanged(self.values, self.p1, self.p2)
            } else {
                self.values
            },
            p1: match turn.dir1 {
                Some(d) => neighbour(self.p1, d),
                None => self.p1,
            },
            p2: match turn.dir2 {
                Some(d) => neighbour(self.p2, d),
                None => self.p2,
            },
        }
    }

    /// The state that `turn` leaves behind: a refused turn changes nothing.
    pub open spec fn after(self, w: Walls, turn: Turn) -> State {
        if self.outcome(w, turn) is Continue {
            self.applied(turn)
        } else {
            self
        }
    }
}

/// Exchanging the values of two cells of a permutation table gives a
/// permutation table.
pub proof fn lemma_exchange_keeps_permutation(a: Seq<Seq<u32>>, n: nat, p: Position, q: Position)
    requires
        is_permutation(a, n),
        p.row < n && p.col < n,
        q.row < n && q.col < n,
    ensures
        is_permutation(exchanged(a, p, q), n),
{
    let b = exchanged(a, p, q);
    assert(is_square(b, n));
    assert forall|i: int, j: int| 0 <= i < n && 0 <= j < n implies 1 <= #[trigger] b[i][j] <= n
        * n by {
        assert(1 <= a[i][j] <= n * n);
        assert(1 <= a[p.row as int][p.col as int] <= n * n);
        assert(1 <= a[q.row as int][q.col as int] <= n * n);
    }
    assert forall|i: int, j: int, k: int, l: int|
        0 <= i < n && 0 <= j < n && 0 <= k < n && 0 <= l < n && (i != k || j != l) implies (
    #[trigger] b[i][j]) != #[trigger] b[k][l] by {
        let src = |r: int, c: int|
            if r == p.row && c == p.col {
                (q.row as int, q.col as int)
            } else if r == q.row && c == q.col {
                (p.row as int, p.col as int)
            } else {
                (r, c)
            };
        let (i0, j0) = src(i, j);
        let (k0, l0) = src(k, l);
        assert(b[i][j] == a[i0][j0]);
        assert(b[k][l] == a[k0][l0]);
        assert(i0 != k0 || j0 != l0);
        assert(a[i0][j0] != a[k0][l0]);
    }
}

/// A turn takes a well-formed state to a well-formed state.
pub proof fn lemma_turn_keeps_wf(s: State, w: Walls, turn: Turn)
    requires
        w.wf(),
        s.wf(w),
    ensures
        s.after(w, turn).wf(w),
{
    if s.outcome(w, turn) is Continue {
        if turn.do_swap {
            lemma_exchange_keeps_permutation(s.values, w.size, s.p1, s.p2);
        }
    }
}

impl Snapshot {
    /// Checks that the snapshot belongs to the grid `topology`: the values
    /// form a permutation table of its size and both agents stand on it.
    pub fn fits(&self, topology: &GridTopology) -> (ok: bool)
        requires
            topology@.wf(),
        ensures
            ok == self@.wf(topology@),
    {
        let n = topology.size;
        self.p1.row < n && self.p1.col < n && self.p2.row < n && self.p2.col < n
            && self.values.is_permutation_of_side(n)
    }
}

/// Exchanges the values of the cells `p` and `q`.
fn exchange(values: &mut GridValues, p: Position, q: Position, Ghost(n): Ghost<nat>)
    requires
        is_square(old(values)@, n),
        p.row < n && p.col < n,
        q.row < n && q.col < n,
    ensures
        final(values)@ == exchanged(old(values)@, p, q),
{
    assert(values.cells[p.row as int].len() == n) by {
        assert(values@[p.row as int].len() == n);
    }
    assert(values.cells[q.row as int].len() == n) by {
        assert(values@[q.row as int].len() == n);
    }
    let at_p = values.cells[p.row][p.col];
    let at_q = values.cells[q.row][q.col];
    values.cells[p.row][p.col] = at_q;
    assert(values.cells[q.row as int].len() == n);
    values.cells[q.row][q.col] = at_p;
    assert(values@ =~~= exchanged(old(values)@, p, q));
}

/// Applies one turn to `snapshot`. The moves are checked first, the first
/// agent's before the second's; if one of them is illegal the turn is
/// refused, the snapshot stays as it was, and the outcome names the agent
/// and the direction. Otherwise the values under the agents are exchanged
/// if the turn asks for it, and the agents move.
pub fn apply_turn(topology: &GridTopology, snapshot: &mut Snapshot, turn: &Turn) -> (outcome:
    TurnOutcome)
    requires
        topology@.wf(),
        old(snapshot)@.wf(topology@),
    ensures
        outcome == old(snapshot)@.outcome(topology@, *turn),
        final(snapshot)@ == old(snapshot)@.after(topology@, *turn),
        final(snapshot)@.wf(topology@),
{
    proof {
        lemma_turn_keeps_wf(snapshot@, topology@, *turn);
    }
    let mut next1 = snapshot.p1;
    if let Some(d) = turn.dir1 {
        match topology.step(snapshot.p1, d) {
            Some(p) => {
                next1 = p;
            },
            None => {
                return TurnOutcome::Halted { agent: Agent::First, direction: d };
            },
        }
    }
    let mut next2 = snapshot.p2;
    if let Some(d) = turn.dir2 {
        match topology.step(snapshot.p2, d) {
            Some(p) => {
                next2 = p;
            },
            None => {
                return TurnOutcome::Halted { agent: Agent::Second, direction: d };
            },
        }
    }
    if turn.do_swap {
        exchange(&mut snapshot.values, snapshot.p1, snapshot.p2, Ghost(topology@.size));
    }
    snapshot.p1 = next1;
    snapshot.p2 = next2;
    TurnOutcome::Continue
}

/// Where a replay stands: still running, stopped by an illegal move, or
/// through with the whole sequence of turns.
#[derive(Clone, Copy, Debug, PartialEq, Eq, Structural)]
pub enum Phase {
    Running,
    Halted { turn: usize, agent: Agent, direction: Direction },
    Completed,
}

/// What a replay hands back: the snapshot it reached and the phase it is
/// in. After a halt the snapshot is the one before the refused turn.
#[derive(Clone, Debug, PartialEq, Eq)]
pub struct Replay {
    pub snapshot: Snapshot,
    pub phase: Phase,
}

/// The first refused move of a replay: the index of its turn, the agent and
/// the direction.
pub struct Halt {
    pub turn: nat,
    pub agent: Agent,
    pub direction: Direction,
}

/// Mathematical model of a replay in progress.
pub struct Trace {
    pub state: State,
    pub halt: Option<Halt>,
}

/// The replay of the first `t` turns of `turns` from `start`. Turns are
/// applied in order; the first refused turn halts the replay, and nothing
/// after it is looked at.
pub open spec fn replayed(w: Walls, start: State, turns: Seq<Turn>, t: nat) -> Trace
    decreases t,
{
    if t == 0 {
        Trace { state: start, halt: None }
    } else {
        let before = replayed(w, start, turns, (t - 1) as nat);
        if before.halt is Some {
            before
        } else {
            match before.state.outcome(w, turns[t - 1]) {
                TurnOutcome::Continue => Trace {
                    state: before.state.applied(turns[t - 1]),
                    halt: None,
                },
                TurnOutcome::Halted { agent, direction } => Trace {
                    state: before.state,
                    halt: Some(Halt { turn: (t - 1) as nat, agent, direction }),
                },
            }
        }
    }
}

/// The phase of a replay that was asked for `upto` turns of a sequence of
/// `len` turns and reached `trace`.
pub open spec fn phase_of(trace: Trace, len: nat, upto: nat) -> Phase {
    match trace.halt {
        Some(h) => Phase::Halted { turn: h.turn as usize, agent: h.agent, direction: h.direction },
        None => if upto < len {
            Phase::Running
        } else {
            Phase::Completed
        },
    }
}

/// The number of turns that a replay asked for `upto` turns of a sequence
/// of `len` turns looks at.
pub open spec fn prefix_len(len: nat, upto: nat) -> nat {
    if upto < len {
        upto
    } else {
        len
    }
}

/// Once a replay has halted, further turns change nothing.
pub proof fn lemma_halt_is_final(w: Walls, start: State, turns: Seq<Turn>, t: nat, later: nat)
    requires
        t <= later,
        replayed(w, start, turns, t).halt is Some,
    ensures
        replayed(w, start, turns, later) == replayed(w, start, turns, t),
    decreases later,
{
    if later > t {
        lemma_halt_is_final(w, start, turns, t, (later - 1) as nat);
    }
}

/// A replay keeps the state well formed, and a halt names a turn among
/// those looked at.
pub proof fn lemma_replay_keeps_wf(w: Walls, start: State, turns: Seq<Turn>, t: nat)
    requires
        w.wf(),
        start.wf(w),
    ensures
        replayed(w, start, turns, t).state.wf(w),
        replayed(w, start, turns, t).halt matches Some(h) ==> h.turn < t,
    decreases t,
{
    if t > 0 {
        lemma_replay_keeps_wf(w, start, turns, (t - 1) as nat);
        let before = replayed(w, start, turns, (t - 1) as nat);
        if before.halt is None {
            lemma_turn_keeps_wf(before.state, w, turns[t - 1]);
        }
    }
}

/// Replays the first `upto` turns of `turns` from `start`, or all of them
/// where there are fewer. The replay owns the snapshot it is given and hands
/// back the one it reached, so a caller that wants several prefixes replays
/// each from a copy of the initial snapshot.
pub fn replay(topology: &GridTopology, start: Snapshot, turns: &Vec<Turn>, upto: usize) -> (r:
    Replay)
    requires
        topology@.wf(),
        start@.wf(topology@),
    ensures
        r.snapshot@ == replayed(
            topology@,
            start@,
            turns@,
            prefix_len(turns@.len(), upto as nat),
        ).state,
        r.phase == phase_of(
            replayed(topology@, start@, turns@, prefix_len(turns@.len(), upto as nat)),
            turns@.len(),
            upto as nat,
        ),
        r.snapshot@.wf(topology@),
{
    let ghost w = topology@;
    let ghost s0 = start@;
    let limit = if upto < turns.len() {
        upto
    } else {
        turns.len()
    };
    let mut snapshot = start;
    let mut k: usize = 0;
    while k < limit
        invariant
            k <= limit <= turns.len(),
            limit == prefix_len(turns@.len(), upto as nat),
            w == topology@,
            s0 == start@,
            w.wf(),
            snapshot@.wf(w),
            replayed(w, s0, turns@, k as nat) == (Trace { state: snapshot@, halt: None }),
        decreases limit - k,
    {
        let outcome = apply_turn(topology, &mut snapshot, &turns[k]);
        match outcome {
            TurnOutcome::Continue => {},
            TurnOutcome::Halted { agent, direction } => {
                proof {
                    lemma_halt_is_final(w, s0, turns@, (k + 1) as nat, limit as nat);
                }
                return Replay { snapshot, phase: Phase::Halted { turn: k, agent, direction } };
            },
        }
        k += 1;
    }
    let phase = if upto < turns.len() {
        Phase::Running
    } else {
        Phase::Completed
    };
    Replay { snapshot, phase }
}

/// A turn that moves no agent is never refused: it leaves both agents where
/// they are, and exchanges the values under them if it asks for the swap.
pub proof fn lemma_swap_only_never_halts(s: State, w: Walls, turn: Turn)
    requires
        turn.dir1 is None,
        turn.dir2 is None,
    ensures
        s.outcome(w, turn) is Continue,
        s.after(w, turn).p1 == s.p1,
        s.after(w, turn).p2 == s.p2,
        s.after(w, turn).values == (if turn.do_swap {
            exchanged(s.values, s.p1, s.p2)
        } else {
            s.values
        }),
{
}

/// The replay of a prefix reads nothing but that prefix: cutting the
/// sequence after the turns that are replayed changes nothing.
pub proof fn lemma_replay_reads_prefix(w: Walls, start: State, turns: Seq<Turn>, t: nat)
    requires
        t <= turns.len(),
    ensures
        replayed(w, start, turns.take(t as int), t) == replayed(w, start, turns, t),
{
    lemma_replay_of_equal_prefixes(w, start, turns.take(t as int), turns, t);
}

/// Two sequences that agree on their first `t` turns replay alike that far.
pub proof fn lemma_replay_of_equal_prefixes(
    w: Walls,
    start: State,
    first: Seq<Turn>,
    second: Seq<Turn>,
    t: nat,
)
    requires
        t <= first.len(),
        t <= second.len(),
        forall|k: int| 0 <= k < t ==> first[k] == second[k],
    ensures
        replayed(w, start, first, t) == replayed(w, start, second, t),
    decreases t,
{
    if t > 0 {
        lemma_replay_of_equal_prefixes(w, start, first, second, (t - 1) as nat);
    }
}

/// Replays of growing prefixes agree with one pass over the sequence: the
/// replay of `t + 1` turns from the initial state ends where the replay of
/// `t` turns, followed by turn `t` alone from the state it reached, ends.
/// A replay that has halted stays as it is.
pub proof fn lemma_prefix_extends(w: Walls, start: State, turns: Seq<Turn>, t: nat)
    requires
        t < turns.len(),
    ensures
        ({
            let shorter = replayed(w, start, turns, t);
            let longer = replayed(w, start, turns, t + 1);
            let resumed = replayed(w, shorter.state, turns.skip(t as int), 1);
            if shorter.halt is Some {
                longer == shorter
            } else {
                &&& longer.state == resumed.state
                &&& longer.state == shorter.state.after(w, turns[t as int])
                &&& longer.halt is Some <==> resumed.halt is Some
                &&& longer.halt matches Some(h) ==> h.turn == t && resumed.halt is Some
                    && resumed.halt->0.turn == 0 && resumed.halt->0.agent == h.agent
                    && resumed.halt->0.direction == h.direction
            }
        }),
{
    let shorter = replayed(w, start, turns, t);
    assert(turns.skip(t as int)[0] == turns[t as int]);
    assert(replayed(w, shorter.state, turns.skip(t as int), 0) == (Trace {
        state: shorter.state,
        halt: None,
    }));
}

} // verus!
