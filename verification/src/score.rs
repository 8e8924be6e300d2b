//! The scorer: it replays a solution, measures the energy before and after,
//! and turns the two into a score.
//!
//! The score of a legal replay is the gain
//! `round(1_000_000 * (log2(before) - log2(after)))`, clamped to at least 1.
//! The logarithm is the one step this crate leaves to its caller: an
//! [`Evaluation`] carries both energies, the caller computes the gain from
//! them, and [`Evaluation::score`] applies the clamp and the error policy.

use crate::energy::{all_walled, energy, energy_of, lemma_energy_zero_iff_all_walled};
use crate::grid::{Direction, GridTopology, Walls};
use crate::replay::{
    lemma_replay_keeps_wf, prefix_len, replay, replayed, Agent, Phase, Snapshot, State, Turn,
    TurnOutcome,
};
use vstd::prelude::*;
use vstd::string::StringExecFns;

verus! {

/// The largest number of turns a solution for a grid of side `n` may hold.
pub open spec fn turn_limit(n: nat) -> nat {
    4 * n * n
}

/// What the scorer found.
#[derive(Clone, Debug, PartialEq, Eq)]
pub enum Evaluation {
    /// The solution holds more turns than the grid allows. Nothing was
    /// replayed.
    TooManyActions { given: usize, limit: usize },
    /// The turn with index `turn` asked `agent` for an illegal step in
    /// `direction`. The snapshot is the one before that turn.
    IllegalMove { turn: usize, agent: Agent, direction: Direction, snapshot: Snapshot },
    /// The replay went through. `before` is the energy of the initial
    /// values, `after` that of the values in `snapshot`.
    Scored { before: u64, after: u64, snapshot: Snapshot },
}

/// Mathematical model of an [`Evaluation`].
pub enum Verdict {
    TooManyActions { given: nat, limit: nat },
    IllegalMove { turn: nat, agent: Agent, direction: Direction, state: State },
    Scored { before: int, after: int, state: State },
}

impl View for Evaluation {
    type V = Verdict;

    open spec fn view(&self) -> Verdict {
        match *self {
            Evaluation::TooManyActions { given, limit } => Verdict::TooManyActions {
                given: given as nat,
                limit: limit as nat,
            },
            Evaluation::IllegalMove { turn, agent, direction, snapshot } => Verdict::IllegalMove {
                turn: turn as nat,
                agent,
                direction,
                state: snapshot@,
            },
            Evaluation::Scored { before, after, snapshot } => Verdict::Scored {
                before: before as int,
                after: after as int,
                state: snapshot@,
            },
        }
    }
}

/// The verdict on the first `upto` turns of the solution `turns`, replayed
/// from `start` on the grid `w`. The length of the whole solution is held
/// against the limit before anything is replayed.
pub open spec fn evaluated(w: Walls, start: State, turns: Seq<Turn>, upto: nat) -> Verdict {
    if turns.len() > turn_limit(w.size) {
        Verdict::TooManyActions { given: turns.len(), limit: turn_limit(w.size) }
    } else {
        let trace = replayed(w, start, turns, prefix_len(turns.len(), upto));
        match trace.halt {
            Some(h) => Verdict::IllegalMove {
                turn: h.turn,
                agent: h.agent,
                direction: h.direction,
                state: trace.state,
            },
            None => Verdict::Scored {
                before: energy_of(w, start.values),
                after: energy_of(w, trace.state.values),
                state: trace.state,
            },
        }
    }
}

impl Verdict {
    /// The score. An error scores `0`. A legal replay scores at least `1`:
    /// the gain, where the energy went down from one positive value to
    /// another and the gain is larger than `1`, and `1` in every other
    /// case, among them that of a grid without any open edge, whose energy
    /// is `0` before and after.
    pub open spec fn score(self, gain: i64) -> i64 {
        match self {
            Verdict::Scored { before, after, .. } => if 0 < after < before && gain > 1 {
                gain
            } else {
                1
            },
            _ => 0,
        }
    }

    /// The error message: empty for a legal replay.
    pub open spec fn message(self) -> Seq<char> {
        match self {
            Verdict::TooManyActions { .. } => "Too many actions"@,
            Verdict::IllegalMove { agent, direction, .. } => "Illegal move: "@ + direction_name(
                direction,
            ) + " by agent "@ + agent_name(agent),
            Verdict::Scored { .. } => Seq::empty(),
        }
    }
}

/// The name of a direction in messages.
pub open spec fn direction_name(d: Direction) -> Seq<char> {
    match d {
        Direction::Up => "Up"@,
        Direction::Down => "Down"@,
        Direction::Left => "Left"@,
        Direction::Right => "Right"@,
    }
}

/// The name of an agent in messages.
pub open spec fn agent_name(a: Agent) -> Seq<char> {
    match a {
        Agent::First => "1"@,
        Agent::Second => "2"@,
    }
}

/// Scores the first `upto` turns of the solution `turns` (all of them where
/// there are fewer), replayed from `start`.
pub fn evaluate(topology: &GridTopology, start: Snapshot, turns: &Vec<Turn>, upto: usize) -> (r:
    Evaluation)
    requires
        topology@.wf(),
        start@.wf(topology@),
    ensures
        r@ == evaluated(topology@, start@, turns@, upto as nat),
{
    let n = topology.size;
    assert(n * n <= 1024 * 1024) by (nonlinear_arith)
        requires
            n <= 1024,
    ;
    assert(4 * n * n == 4 * (n * n)) by (nonlinear_arith);
    let limit = 4 * (n * n);
    if turns.len() > limit {
        return Evaluation::TooManyActions { given: turns.len(), limit };
    }
    let before = energy(topology, &start.values);
    let ghost s0 = start@;
    let done = replay(topology, start, turns, upto);
    match done.phase {
        Phase::Halted { turn, agent, direction } => {
            proof {
                lemma_replay_keeps_wf(
                    topology@,
                    s0,
                    turns@,
                    prefix_len(turns@.len(), upto as nat),
                );
            }
            Evaluation::IllegalMove { turn, agent, direction, snapshot: done.snapshot }
        },
        _ => {
            let after = energy(topology, &done.snapshot.values);
            Evaluation::Scored { before, after, snapshot: done.snapshot }
        },
    }
}

impl Evaluation {
    /// The score, given the gain
    /// `round(1_000_000 * (log2(before) - log2(after)))` that the caller
    /// computed from the two energies of a legal replay. The gain is read
    /// only where both energies are positive and the energy went down.
    pub fn score(&self, gain: i64) -> (s: i64)
        ensures
            s == self@.score(gain),
    {
        match self {
            Evaluation::Scored { before, after, .. } => {
                if 0 < *after && *after < *before && gain > 1 {
                    gain
                } else {
                    1
                }
            },
            _ => 0,
        }
    }

    /// The error message, empty for a legal replay.
    pub fn message(&self) -> (m: String)
        ensures
            m@ == self@.message(),
    {
        match self {
            Evaluation::TooManyActions { .. } => String::from_str("Too many actions"),
            Evaluation::IllegalMove { agent, direction, .. } => {
                let mut m = String::from_str("Illegal move: ");
                m.append(
                    match direction {
                        Direction::Up => "Up",
                        Direction::Down => "Down",
                        Direction::Left => "Left",
                        Direction::Right => "Right",
                    },
                );
                m.append(" by agent ");
                m.append(
                    match agent {
                        Agent::First => "1",
                        Agent::Second => "2",
                    },
                );
                m
            },
            Evaluation::Scored { .. } => String::new(),
        }
    }

    /// The snapshot that the replay reached, where one was made.
    pub fn snapshot(&self) -> (s: Option<&Snapshot>)
        ensures
            match *self {
                Evaluation::TooManyActions { .. } => s is None,
                Evaluation::IllegalMove { snapshot, .. } => s == Some(&snapshot),
                Evaluation::Scored { snapshot, .. } => s == Some(&snapshot),
            },
    {
        match self {
            Evaluation::TooManyActions { .. } => None,
            Evaluation::IllegalMove { snapshot, .. } => Some(snapshot),
            Evaluation::Scored { snapshot, .. } => Some(snapshot),
        }
    }
}

/// Every legal replay scores at least `1`, whatever gain the caller hands
/// in; every error scores `0`.
pub proof fn lemma_score_of_legal_replay(
    w: Walls,
    start: State,
    turns: Seq<Turn>,
    upto: nat,
    gain: i64,
)
    ensures
        evaluated(w, start, turns, upto) is Scored ==> evaluated(w, start, turns, upto).score(gain)
            >= 1,
        !(evaluated(w, start, turns, upto) is Scored) ==> evaluated(w, start, turns, upto).score(
            gain,
        ) == 0,
        evaluated(w, start, turns, upto) is Scored <==> turns.len() <= turn_limit(w.size)
            && replayed(w, start, turns, prefix_len(turns.len(), upto)).halt is None,
{
}

/// Replaying no turn leaves the initial state, so the energy is the same
/// before and after and the score is `1`.
pub proof fn lemma_no_turns_scores_one(w: Walls, start: State, turns: Seq<Turn>, gain: i64)
    requires
        turns.len() <= turn_limit(w.size),
    ensures
        evaluated(w, start, turns, 0) == (Verdict::Scored {
            before: energy_of(w, start.values),
            after: energy_of(w, start.values),
            state: start,
        }),
        evaluated(w, start, turns, 0).score(gain) == 1,
{
}

/// A solution with more turns than the limit scores `0` with the message
/// "Too many actions", whether or not its moves are legal.
pub proof fn lemma_too_many_actions(
    w: Walls,
    start: State,
    turns: Seq<Turn>,
    upto: nat,
    gain: i64,
)
    requires
        turns.len() > turn_limit(w.size),
    ensures
        evaluated(w, start, turns, upto) == (Verdict::TooManyActions {
            given: turns.len(),
            limit: turn_limit(w.size),
        }),
        evaluated(w, start, turns, upto).score(gain) == 0,
        evaluated(w, start, turns, upto).message() == "Too many actions"@,
{
}

/// The energy of a legal replay is `0` before exactly if it is `0` after,
/// and that is the case on exactly the grids that have no open edge: the
/// one case in which the gain has no value.
pub proof fn lemma_energies_vanish_together(w: Walls, start: State, turns: Seq<Turn>, upto: nat)
    requires
        w.wf(),
        start.wf(w),
    ensures
        evaluated(w, start, turns, upto) matches Verdict::Scored { before, after, .. } ==> (before
            == 0 <==> all_walled(w)) && (after == 0 <==> all_walled(w)),
{
    let t = prefix_len(turns.len(), upto);
    lemma_replay_keeps_wf(w, start, turns, t);
    lemma_energy_zero_iff_all_walled(w, start.values);
    lemma_energy_zero_iff_all_walled(w, replayed(w, start, turns, t).state.values);
}

/// Scoring one turn more agrees with scoring in one pass: the verdict on
/// `t + 1` turns is the verdict on `t` turns where that is an illegal move,
/// and otherwise it follows from turn `t` alone, applied to the state that
/// the shorter replay reached. Nothing else is carried from one prefix to
/// the next.
pub proof fn lemma_scoring_extends(w: Walls, start: State, turns: Seq<Turn>, t: nat)
    requires
        t < turns.len() <= turn_limit(w.size),
    ensures
        match evaluated(w, start, turns, t) {
            Verdict::TooManyActions { .. } => false,
            Verdict::IllegalMove { .. } => evaluated(w, start, turns, t + 1) == evaluated(
                w,
                start,
                turns,
                t,
            ),
            Verdict::Scored { before, state, .. } => match state.outcome(w, turns[t as int]) {
                TurnOutcome::Continue => evaluated(w, start, turns, t + 1) == (Verdict::Scored {
                    before,
                    after: energy_of(w, state.applied(turns[t as int]).values),
                    state: state.applied(turns[t as int]),
                }),
                TurnOutcome::Halted { agent, direction } => evaluated(w, start, turns, t + 1) == (
                Verdict::IllegalMove { turn: t, agent, direction, state }),
            },
        },
{
    assert(prefix_len(turns.len(), t) == t);
    assert(prefix_len(turns.len(), t + 1) == t + 1);
}

} // verus!
