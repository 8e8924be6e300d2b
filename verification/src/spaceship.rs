//! The back end of the spaceship puzzle: a ship starts at rest in the
//! origin, each action accelerates it by at most one unit per axis, and the
//! ship is to pass over a list of targets.

use crate::minmax::SetMinMax;
use crate::text::{chars_of, trimmed, trimmed_range};
use vstd::math::abs;
use vstd::prelude::*;
use vstd::string::StringExecFns;

verus! {

/// A problem instance: the targets that the ship is to visit.
#[derive(Clone, Debug, PartialEq, Eq)]
pub struct Input {
    pub target: Vec<(i32, i32)>,
}

/// A solution: the acceleration of each turn.
#[derive(Clone, Debug, PartialEq, Eq)]
pub struct Output {
    pub acc: Vec<(i32, i32)>,
}

/// Whether `c` encodes an action: one of the digits `1` to `9`.
pub open spec fn is_action(c: char) -> bool {
    '1' <= c <= '9'
}

/// The acceleration that the action `c` stands for. The digits are laid out
/// as on a keypad: the column gives the horizontal part, the row the
/// vertical part, and `5` in the middle leaves the velocity as it is.
pub open spec fn acceleration(c: char) -> (i32, i32) {
    let key = c as u32 - '1' as u32;
    ((key % 3 - 1) as i32, (key / 3 - 1) as i32)
}

/// The index of the first character of `s` at or after `from` that encodes
/// no action, or the length of `s` where there is none.
pub open spec fn first_invalid(s: Seq<char>, from: int) -> int
    decreases s.len() - from,
{
    if 0 <= from < s.len() && is_action(s[from]) {
        first_invalid(s, from + 1)
    } else {
        from
    }
}

/// What a solution text decodes to: white space around it is dropped, then
/// every character must be an action. The first that is not is reported.
pub open spec fn decoded(text: Seq<char>) -> Result<Seq<(i32, i32)>, Seq<char>> {
    let s = trimmed(text);
    let bad = first_invalid(s, 0);
    if bad < s.len() {
        Err("Invalid action: "@.push(s[bad]))
    } else {
        Ok(Seq::new(s.len(), |i: int| acceleration(s[i])))
    }
}

/// Decodes one action.
fn decode_action(c: char) -> (r: Option<(i32, i32)>)
    ensures
        r == (if is_action(c) {
            Some(acceleration(c))
        } else {
            None
        }),
{
    match c {
        '1' => Some((-1, -1)),
        '2' => Some((0, -1)),
        '3' => Some((1, -1)),
        '4' => Some((-1, 0)),
        '5' => Some((0, 0)),
        '6' => Some((1, 0)),
        '7' => Some((-1, 1)),
        '8' => Some((0, 1)),
        '9' => Some((1, 1)),
        _ => None,
    }
}

/// Decodes a solution text: one digit per turn, with white space allowed
/// before and after.
pub fn parse_output(f: &str) -> (r: Result<Output, String>)
    ensures
        match r {
            Ok(out) => decoded(f@) == Ok::<Seq<(i32, i32)>, Seq<char>>(out.acc@),
            Err(msg) => decoded(f@) == Err::<Seq<(i32, i32)>, Seq<char>>(msg@),
        },
{
    let chars = chars_of(f);
    let (start, end) = trimmed_range(&chars);
    let ghost t = trimmed(f@);
    let mut acc: Vec<(i32, i32)> = Vec::new();
    let mut i: usize = start;
    while i < end
        invariant
            start <= i <= end <= chars.len(),
            t == chars@.subrange(start as int, end as int),
            t == trimmed(f@),
            first_invalid(t, 0) == first_invalid(t, i - start),
            acc@ == Seq::new((i - start) as nat, |k: int| acceleration(t[k])),
        decreases end - i,
    {
        let c = chars[i];
        assert(t[i - start] == c);
        match decode_action(c) {
            Some(a) => {
                acc.push(a);
                assert(acc@ =~= Seq::new((i + 1 - start) as nat, |k: int| acceleration(t[k])));
            },
            None => {
                let mut msg = String::from_str("Invalid action: ");
                msg.push(c);
                return Err(msg);
            },
        }
        i += 1;
    }
    Ok(Output { acc })
}

/// The score of a solution: the number of its turns. There is nothing to
/// report beside it, so the message is empty.
pub fn compute_score(out: &Output) -> (r: (i64, String))
    ensures
        r.0 == out.acc@.len() as i64,
        out.acc@.len() <= i64::MAX ==> r.0 == out.acc@.len(),
        r.1@ == Seq::<char>::empty(),
{
    let score = out.acc.len() as i64;
    (score, String::new())
}

/// The velocity of the ship after the first `t` accelerations of `acc`.
/// The ship starts at rest.
pub open spec fn velocity(acc: Seq<(i32, i32)>, t: nat) -> (int, int)
    decreases t,
{
    if t == 0 {
        (0, 0)
    } else {
        let v = velocity(acc, (t - 1) as nat);
        (v.0 + acc[t - 1].0, v.1 + acc[t - 1].1)
    }
}

/// The position of the ship after `t` turns. The ship starts in the origin;
/// in each turn it first accelerates and then moves by its new velocity.
pub open spec fn position(acc: Seq<(i32, i32)>, t: nat) -> (int, int)
    decreases t,
{
    if t == 0 {
        (0, 0)
    } else {
        let p = position(acc, (t - 1) as nat);
        let v = velocity(acc, t);
        (p.0 + v.0, p.1 + v.1)
    }
}

/// Whether `x` is a value of `i32`.
pub open spec fn fits_i32(x: int) -> bool {
    i32::MIN <= x <= i32::MAX
}

/// Whether the flight of the first `t` turns stays within `i32`: every
/// velocity and every position on the way does.
pub open spec fn flight_fits(acc: Seq<(i32, i32)>, t: nat) -> bool {
    forall|k: nat|
        k <= t ==> {
            &&& fits_i32(#[trigger] velocity(acc, k).0)
            &&& fits_i32(velocity(acc, k).1)
            &&& fits_i32(position(acc, k).0)
            &&& fits_i32(position(acc, k).1)
        }
}

/// A flight that stays within `i32` does so after each of its turns.
pub proof fn lemma_flight_fits_at(acc: Seq<(i32, i32)>, t: nat, k: nat)
    requires
        flight_fits(acc, t),
        k <= t,
    ensures
        fits_i32(velocity(acc, k).0),
        fits_i32(velocity(acc, k).1),
        fits_i32(position(acc, k).0),
        fits_i32(position(acc, k).1),
{
    assert(fits_i32(velocity(acc, k).0));
}

/// Whether the ship is on `target` at the end of one of the first `t`
/// turns. Where the ship starts does not count.
pub open spec fn visited_by(acc: Seq<(i32, i32)>, target: (i32, i32), t: nat) -> bool {
    exists|k: nat|
        1 <= k <= t && (#[trigger] position(acc, k)).0 == target.0 && position(acc, k).1
            == target.1
}

/// The segment that the ship flies in turn `i`: from where it was before
/// the turn to where it is after it.
pub open spec fn segment(acc: Seq<(i32, i32)>, i: nat) -> (int, int, int, int) {
    (position(acc, i).0, position(acc, i).1, position(acc, i + 1).0, position(acc, i + 1).1)
}

/// Replays the first `turn` turns of `out`. The result holds, in this
/// order: the position of the ship, its velocity, the segment flown in each
/// turn, and for each target of `input` whether the ship has been on it.
pub fn compute_state(input: &Input, out: &Output, turn: usize) -> (r: (
    (i32, i32),
    (i32, i32),
    Vec<(i32, i32, i32, i32)>,
    Vec<bool>,
))
    requires
        turn <= out.acc@.len(),
        flight_fits(out.acc@, turn as nat),
    ensures
        r.0.0 == position(out.acc@, turn as nat).0,
        r.0.1 == position(out.acc@, turn as nat).1,
        r.1.0 == velocity(out.acc@, turn as nat).0,
        r.1.1 == velocity(out.acc@, turn as nat).1,
        r.2@.len() == turn,
        forall|i: nat|
            i < turn ==> {
                &&& (#[trigger] r.2@[i as int]).0 == segment(out.acc@, i).0
                &&& r.2@[i as int].1 == segment(out.acc@, i).1
                &&& r.2@[i as int].2 == segment(out.acc@, i).2
                &&& r.2@[i as int].3 == segment(out.acc@, i).3
            },
        r.3@.len() == input.target@.len(),
        forall|j: int|
            0 <= j < input.target@.len() ==> #[trigger] r.3@[j] == visited_by(
                out.acc@,
                input.target@[j],
                turn as nat,
            ),
{
    let n = input.target.len();
    let ghost acc = out.acc@;
    let mut x: i32 = 0;
    let mut y: i32 = 0;
    let mut vx: i32 = 0;
    let mut vy: i32 = 0;
    let mut lines: Vec<(i32, i32, i32, i32)> = Vec::new();
    let mut visited: Vec<bool> = vec![false; n];
    let mut i: usize = 0;
    while i < turn
        invariant
            i <= turn <= out.acc@.len(),
            acc == out.acc@,
            n == input.target@.len(),
            flight_fits(acc, turn as nat),
            x == position(acc, i as nat).0,
            y == position(acc, i as nat).1,
            vx == velocity(acc, i as nat).0,
            vy == velocity(acc, i as nat).1,
            lines@.len() == i,
            forall|k: nat|
                k < i ==> {
                    &&& (#[trigger] lines@[k as int]).0 == segment(acc, k).0
                    &&& lines@[k as int].1 == segment(acc, k).1
                    &&& lines@[k as int].2 == segment(acc, k).2
                    &&& lines@[k as int].3 == segment(acc, k).3
                },
            visited@.len() == n,
            forall|j: int|
                0 <= j < n ==> #[trigger] visited@[j] == visited_by(
                    acc,
                    input.target@[j],
                    i as nat,
                ),
        decreases turn - i,
    {
        let (ax, ay) = out.acc[i];
        proof {
            lemma_flight_fits_at(acc, turn as nat, (i + 1) as nat);
        }
        vx += ax;
        vy += ay;
        let nx = x + vx;
        let ny = y + vy;
        let mut j: usize = 0;
        while j < n
            invariant
                j <= n,
                i < turn,
                n == input.target@.len(),
                nx == position(acc, (i + 1) as nat).0,
                ny == position(acc, (i + 1) as nat).1,
                visited@.len() == n,
                forall|k: int|
                    0 <= k < j ==> #[trigger] visited@[k] == visited_by(
                        acc,
                        input.target@[k],
                        (i + 1) as nat,
                    ),
                forall|k: int|
                    j <= k < n ==> #[trigger] visited@[k] == visited_by(
                        acc,
                        input.target@[k],
                        i as nat,
                    ),
            decreases n - j,
        {
            let hit = nx == input.target[j].0 && ny == input.target[j].1;
            proof {
                lemma_visited_step(acc, input.target@[j as int], i as nat);
            }
            if hit {
                visited.set(j, true);
            }
            j += 1;
        }
        lines.push((x, y, nx, ny));
        x = nx;
        y = ny;
        i += 1;
    }
    ((x, y), (vx, vy), lines, visited)
}

/// A target has been visited by the end of turn `t + 1` if it had been
/// visited by the end of turn `t` or the ship ends turn `t + 1` on it.
pub proof fn lemma_visited_step(acc: Seq<(i32, i32)>, target: (i32, i32), t: nat)
    ensures
        visited_by(acc, target, t + 1) <==> visited_by(acc, target, t) || (position(acc, t + 1).0
            == target.0 && position(acc, t + 1).1 == target.1),
{
    if visited_by(acc, target, t) {
        let k = choose|k: nat|
            1 <= k <= t && (#[trigger] position(acc, k)).0 == target.0 && position(acc, k).1
                == target.1;
        assert(1 <= k <= t + 1 && position(acc, k).0 == target.0);
    }
    if position(acc, t + 1).0 == target.0 && position(acc, t + 1).1 == target.1 {
        let k = t + 1;
        assert(1 <= k <= t + 1 && position(acc, k).0 == target.0);
    }
    if visited_by(acc, target, t + 1) {
        let k = choose|k: nat|
            1 <= k <= t + 1 && (#[trigger] position(acc, k)).0 == target.0 && position(acc, k).1
                == target.1;
        if k <= t {
            assert(visited_by(acc, target, t));
        }
    }
}

/// Whether every acceleration of `acc` changes the velocity by at most one
/// unit per axis, as every decoded action does.
pub open spec fn is_unit(acc: Seq<(i32, i32)>) -> bool {
    forall|k: int|
        0 <= k < acc.len() ==> -1 <= (#[trigger] acc[k]).0 <= 1 && -1 <= acc[k].1 <= 1
}

/// The longest flight of unit accelerations that is sure to stay within
/// `i32`: after `t` turns the ship is at most `t * (t + 1) / 2` away from
/// the origin on each axis.
pub const UNIT_FLIGHT_MAX: usize = 65535;

/// [`first_invalid`] finds the first character from `from` on that is no
/// action: every character before it is one.
pub proof fn lemma_first_invalid(s: Seq<char>, from: int)
    requires
        0 <= from <= s.len(),
    ensures
        from <= first_invalid(s, from) <= s.len(),
        forall|k: int| from <= k < first_invalid(s, from) ==> is_action(#[trigger] s[k]),
        first_invalid(s, from) < s.len() ==> !is_action(s[first_invalid(s, from)]),
    decreases s.len() - from,
{
    if from < s.len() && is_action(s[from]) {
        lemma_first_invalid(s, from + 1);
    }
}

/// What a solution text decodes to consists of unit accelerations.
pub proof fn lemma_decoded_is_unit(text: Seq<char>)
    ensures
        decoded(text) matches Ok(acc) ==> is_unit(acc),
{
    let s = trimmed(text);
    lemma_first_invalid(s, 0);
    if decoded(text) is Ok {
        let acc = decoded(text)->Ok_0;
        assert forall|k: int| 0 <= k < acc.len() implies -1 <= (#[trigger] acc[k]).0 <= 1 && -1
            <= acc[k].1 <= 1 by {
            assert(is_action(s[k]));
        }
    }
}

/// With unit accelerations the speed grows by at most one per turn, and the
/// distance from the origin by at most the speed.
proof fn lemma_unit_flight_bounds(acc: Seq<(i32, i32)>, t: nat)
    requires
        is_unit(acc),
        t <= acc.len(),
    ensures
        -t <= velocity(acc, t).0 <= t,
        -t <= velocity(acc, t).1 <= t,
        -(t * (t + 1)) <= 2 * position(acc, t).0 <= t * (t + 1),
        -(t * (t + 1)) <= 2 * position(acc, t).1 <= t * (t + 1),
    decreases t,
{
    if t > 0 {
        lemma_unit_flight_bounds(acc, (t - 1) as nat);
        assert(-1 <= acc[t - 1].0 <= 1 && -1 <= acc[t - 1].1 <= 1);
        assert((t - 1) * t + 2 * t == t * (t + 1)) by (nonlinear_arith);
    }
}

/// A flight of at most [`UNIT_FLIGHT_MAX`] turns of unit accelerations
/// stays within `i32`.
pub proof fn lemma_unit_flight_fits(acc: Seq<(i32, i32)>, t: nat)
    requires
        is_unit(acc),
        t <= acc.len(),
        t <= UNIT_FLIGHT_MAX,
    ensures
        flight_fits(acc, t),
{
    assert forall|k: nat| k <= t implies {
        &&& fits_i32(#[trigger] velocity(acc, k).0)
        &&& fits_i32(velocity(acc, k).1)
        &&& fits_i32(position(acc, k).0)
        &&& fits_i32(position(acc, k).1)
    } by {
        lemma_unit_flight_bounds(acc, k);
        assert(k * (k + 1) <= 65535 * 65536) by (nonlinear_arith)
            requires
                k <= 65535,
        ;
    }
}

/// Whether [`compute_state`] can replay the first `turn` turns of `out`:
/// there are that many turns, and the flight stays within `i32`.
pub fn can_fly(out: &Output, turn: usize) -> (ok: bool)
    ensures
        ok == (turn <= out.acc@.len() && flight_fits(out.acc@, turn as nat)),
{
    if turn > out.acc.len() {
        return false;
    }
    let ghost acc = out.acc@;
    let mut x: i32 = 0;
    let mut y: i32 = 0;
    let mut vx: i32 = 0;
    let mut vy: i32 = 0;
    let mut i: usize = 0;
    while i < turn
        invariant
            i <= turn <= out.acc@.len(),
            acc == out.acc@,
            x == position(acc, i as nat).0,
            y == position(acc, i as nat).1,
            vx == velocity(acc, i as nat).0,
            vy == velocity(acc, i as nat).1,
            flight_fits(acc, i as nat),
        decreases turn - i,
    {
        let (ax, ay) = out.acc[i];
        let ghost next = (i + 1) as nat;
        let step = match (vx.checked_add(ax), vy.checked_add(ay)) {
            (Some(nvx), Some(nvy)) => match (x.checked_add(nvx), y.checked_add(nvy)) {
                (Some(nx), Some(ny)) => Some((nvx, nvy, nx, ny)),
                _ => None,
            },
            _ => None,
        };
        match step {
            Some((nvx, nvy, nx, ny)) => {
                vx = nvx;
                vy = nvy;
                x = nx;
                y = ny;
            },
            None => {
                assert(!(fits_i32(velocity(acc, next).0) && fits_i32(velocity(acc, next).1)
                    && fits_i32(position(acc, next).0) && fits_i32(position(acc, next).1)));
                return false;
            },
        }
        assert forall|k: nat| k <= next implies {
            &&& fits_i32(#[trigger] velocity(acc, k).0)
            &&& fits_i32(velocity(acc, k).1)
            &&& fits_i32(position(acc, k).0)
            &&& fits_i32(position(acc, k).1)
        } by {
            if k <= i {
                assert(fits_i32(velocity(acc, k).0));
            }
        }
        i += 1;
    }
    true
}

/// The half width of the square around the origin that a drawing of the
/// instance has to show: the largest distance of a target from the origin
/// along an axis, and at least `1`.
pub fn draw_range(input: &Input) -> (range: i32)
    requires
        forall|k: int|
            0 <= k < input.target@.len() ==> (#[trigger] input.target@[k]).0 > i32::MIN
                && input.target@[k].1 > i32::MIN,
    ensures
        range >= 1,
        forall|k: int|
            0 <= k < input.target@.len() ==> abs((#[trigger] input.target@[k]).0 as int) <= range
                && abs(input.target@[k].1 as int) <= range,
        range == 1 || exists|k: int|
            0 <= k < input.target@.len() && (abs((#[trigger] input.target@[k]).0 as int) == range
                || abs(input.target@[k].1 as int) == range),
{
    let mut range: i32 = 1;
    let mut i: usize = 0;
    while i < input.target.len()
        invariant
            i <= input.target@.len(),
            forall|k: int|
                0 <= k < input.target@.len() ==> (#[trigger] input.target@[k]).0 > i32::MIN
                    && input.target@[k].1 > i32::MIN,
            range >= 1,
            forall|k: int|
                0 <= k < i ==> abs((#[trigger] input.target@[k]).0 as int) <= range && abs(
                    input.target@[k].1 as int,
                ) <= range,
            range == 1 || exists|k: int|
                0 <= k < i && (abs((#[trigger] input.target@[k]).0 as int) == range || abs(
                    input.target@[k].1 as int,
                ) == range),
        decreases input.target@.len() - i,
    {
        let (x, y) = input.target[i];
        let ghost before = range;
        let ax = if x < 0 {
            -x
        } else {
            x
        };
        let ay = if y < 0 {
            -y
        } else {
            y
        };
        range.setmax(ax);
        range.setmax(ay);
        proof {
            let t = input.target@[i as int];
            assert(range == before || range == abs(t.0 as int) || range == abs(t.1 as int));
            assert(range >= before);
            if range != before {
                assert(abs(t.0 as int) == range || abs(t.1 as int) == range);
            } else if before != 1 {
                let k = choose|k: int|
                    0 <= k < i && (abs((#[trigger] input.target@[k]).0 as int) == before || abs(
                        input.target@[k].1 as int,
                    ) == before);
                assert(abs(input.target@[k].0 as int) == range || abs(input.target@[k].1 as int)
                    == range);
            }
        }
        i += 1;
    }
    range
}

} // verus!
