//! The states of the entities of the maze game.
use vstd::prelude::*;

verus! {

/// What an entity of the maze is.
#[derive(Clone, Copy, Debug, PartialEq, Eq, Structural)]
pub enum EntityType {
    Player,
    Enemy,
    Passage,
}

/// An entity that waits.
#[derive(Clone, Copy, Debug, PartialEq, Eq, Structural)]
pub struct WaitState;

/// The way an entity moves, one cell at a time.
#[derive(Clone, Copy, Debug, PartialEq, Eq, Structural)]
pub enum DirectionState {
    Right,
    Left,
    Up,
    Down,
    Stay,
}

/// The step of a direction, in cells; `y` grows downwards.
pub open spec fn spec_vec2(d: DirectionState) -> (i32, i32) {
    match d {
        DirectionState::Right => (1i32, 0i32),
        DirectionState::Left => (-1i32, 0i32),
        DirectionState::Up => (0i32, -1i32),
        DirectionState::Down => (0i32, 1i32),
        DirectionState::Stay => (0i32, 0i32),
    }
}

/// The direction of a move by `(x, y)`: right, else down, else left, else up.
pub open spec fn spec_from_diff(x: i32, y: i32) -> DirectionState {
    if x > 0 {
        DirectionState::Right
    } else if y > 0 {
        DirectionState::Down
    } else if x < 0 {
        DirectionState::Left
    } else {
        DirectionState::Up
    }
}

impl DirectionState {
    /// The step of this direction, in cells.
    pub fn get_vec2(&self) -> (r: (i32, i32))
        ensures
            r == spec_vec2(*self),
    {
        match self {
            DirectionState::Right => (1, 0),
            DirectionState::Left => (-1, 0),
            DirectionState::Up => (0, -1),
            DirectionState::Down => (0, 1),
            DirectionState::Stay => (0, 0),
        }
    }

    /// The direction of a move by `(x, y)`.
    pub fn from_diff(x: i32, y: i32) -> (r: DirectionState)
        ensures
            r == spec_from_diff(x, y),
    {
        if x > 0 {
            DirectionState::Right
        } else if y > 0 {
            DirectionState::Down
        } else if x < 0 {
            DirectionState::Left
        } else {
            DirectionState::Up
        }
    }
}

/// Where an entity stands, along one axis, relative to the centre of its cell.
#[derive(Clone, Copy, Debug, PartialEq, Eq, Structural)]
pub enum AxisOffset {
    Before,
    Centered,
    After,
}

/// The cell an entity in `cell` heads for when it goes in `direction`: off the
/// centre along `x` (checked first) or `y`, a move along that axis finishes at the
/// neighbouring cell on the side it goes to, and a move across it stays in the cell;
/// at the centre it steps to the next cell.
pub open spec fn spec_destination(cell: (i32, i32), direction: DirectionState, x: AxisOffset, y: AxisOffset) -> (int, int) {
    if x != AxisOffset::Centered {
        match direction {
            DirectionState::Right => if x == AxisOffset::Before {
                (cell.0 as int, cell.1 as int)
            } else {
                (cell.0 + 1, cell.1 as int)
            },
            DirectionState::Left => if x == AxisOffset::Before {
                (cell.0 - 1, cell.1 as int)
            } else {
                (cell.0 as int, cell.1 as int)
            },
            _ => (cell.0 as int, cell.1 as int),
        }
    } else if y != AxisOffset::Centered {
        match direction {
            DirectionState::Up => if y == AxisOffset::Before {
                (cell.0 as int, cell.1 - 1)
            } else {
                (cell.0 as int, cell.1 as int)
            },
            DirectionState::Down => if y == AxisOffset::Before {
                (cell.0 as int, cell.1 as int)
            } else {
                (cell.0 as int, cell.1 + 1)
            },
            _ => (cell.0 as int, cell.1 as int),
        }
    } else {
        (cell.0 + spec_vec2(direction).0, cell.1 + spec_vec2(direction).1)
    }
}

/// Both coordinates of `p` fit in an `i32`.
pub open spec fn fits_i32(p: (int, int)) -> bool {
    i32::MIN <= p.0 <= i32::MAX && i32::MIN <= p.1 <= i32::MAX
}

/// How far, in cells along each axis, the cell an entity heads for lies from its
/// own; see `spec_destination`.
pub fn destination_step(direction: DirectionState, x: AxisOffset, y: AxisOffset) -> (r: (i32, i32))
    ensures
        -1 <= r.0 <= 1,
        -1 <= r.1 <= 1,
        forall|cell: (i32, i32)|
            #[trigger] spec_destination(cell, direction, x, y) == (cell.0 + r.0, cell.1 + r.1),
{
    match x {
        AxisOffset::Before => {
            return match direction {
                DirectionState::Left => (-1, 0),
                _ => (0, 0),
            };
        },
        AxisOffset::After => {
            return match direction {
                DirectionState::Right => (1, 0),
                _ => (0, 0),
            };
        },
        AxisOffset::Centered => {},
    }
    match y {
        AxisOffset::Before => match direction {
            DirectionState::Up => (0, -1),
            _ => (0, 0),
        },
        AxisOffset::After => match direction {
            DirectionState::Down => (0, 1),
            _ => (0, 0),
        },
        AxisOffset::Centered => direction.get_vec2(),
    }
}

/// Whether the cell an entity heads for can be written with `i32` coordinates.
pub fn destination_fits(cell: (i32, i32), direction: DirectionState, x: AxisOffset, y: AxisOffset) -> (r: bool)
    ensures
        r == fits_i32(spec_destination(cell, direction, x, y)),
{
    let step = destination_step(direction, x, y);
    let tx: i64 = cell.0 as i64 + step.0 as i64;
    let ty: i64 = cell.1 as i64 + step.1 as i64;
    i32::MIN as i64 <= tx && tx <= i32::MAX as i64 && i32::MIN as i64 <= ty && ty <= i32::MAX as i64
}

/// The cell an entity heads for; see `spec_destination`.
pub fn destination_cell(cell: (i32, i32), direction: DirectionState, x: AxisOffset, y: AxisOffset) -> (r: (i32, i32))
    requires
        fits_i32(spec_destination(cell, direction, x, y)),
    ensures
        (r.0 as int, r.1 as int) == spec_destination(cell, direction, x, y),
{
    let step = destination_step(direction, x, y);
    (cell.0 + step.0, cell.1 + step.1)
}

/// Where an entity going in `direction` moves to: nowhere when it stays put or no
/// path leads from its cell to the cell it heads for (`paths` holds the cells the
/// paths from its cell lead to), else that cell.
pub fn next_move(
    cell: (i32, i32),
    direction: DirectionState,
    x: AxisOffset,
    y: AxisOffset,
    paths: &Vec<(i32, i32)>,
) -> (r: Option<(i32, i32)>)
    requires
        direction != DirectionState::Stay ==> fits_i32(spec_destination(cell, direction, x, y)),
    ensures
        direction == DirectionState::Stay ==> r is None,
        direction != DirectionState::Stay ==> ({
            let d = spec_destination(cell, direction, x, y);
            match r {
                Some(t) => (t.0 as int, t.1 as int) == d && paths@.contains(t),
                None => forall|i: int| 0 <= i < paths@.len() ==> (paths@[i].0 as int, paths@[i].1 as int) != d,
            }
        }),
{
    if direction == DirectionState::Stay {
        return None;
    }
    let to = destination_cell(cell, direction, x, y);
    let mut i: usize = 0;
    while i < paths.len()
        invariant
            direction != DirectionState::Stay,
            i <= paths@.len(),
            (to.0 as int, to.1 as int) == spec_destination(cell, direction, x, y),
            forall|j: int| 0 <= j < i ==> (paths@[j].0 as int, paths@[j].1 as int) != spec_destination(cell, direction, x, y),
        decreases paths@.len() - i,
    {
        let p = paths[i];
        if p.0 == to.0 && p.1 == to.1 {
            assert(paths@[i as int] == to);
            return Some(to);
        }
        i = i + 1;
    }
    None
}

/// The steps of the directions: each direction but `Stay` moves one cell along one
/// axis, `Right` towards larger `x`, `Down` towards larger `y` (`y` grows
/// downwards), and opposite directions step opposite ways; `Stay` does not move.
/// The direction of a move by a step is the direction of that step.
pub proof fn lemma_direction_steps(d: DirectionState)
    ensures
        d != DirectionState::Stay ==> spec_vec2(d).0 * spec_vec2(d).0 + spec_vec2(d).1 * spec_vec2(d).1 == 1,
        spec_vec2(DirectionState::Stay) == (0i32, 0i32),
        spec_vec2(DirectionState::Right).0 > 0,
        spec_vec2(DirectionState::Down).1 > 0,
        spec_vec2(DirectionState::Left).0 == -spec_vec2(DirectionState::Right).0,
        spec_vec2(DirectionState::Left).1 == -spec_vec2(DirectionState::Right).1,
        spec_vec2(DirectionState::Up).0 == -spec_vec2(DirectionState::Down).0,
        spec_vec2(DirectionState::Up).1 == -spec_vec2(DirectionState::Down).1,
        d != DirectionState::Stay ==> spec_from_diff(spec_vec2(d).0, spec_vec2(d).1) == d,
{
}

/// Which side of the centre of its cell an entity stands on, along one axis: `-1`
/// before it (left or above), `1` after it, `0` at it.
pub open spec fn axis_side(o: AxisOffset) -> int {
    match o {
        AxisOffset::Before => -1,
        AxisOffset::Centered => 0,
        AxisOffset::After => 1,
    }
}

/// A move never goes against its direction, and goes at most one cell: the cell an
/// entity heads for is its own cell or the next one in the direction. It is the next
/// one exactly when the entity stands at the centre of its cell, or stands off the
/// centre along the direction's axis on the side the direction points to (it has
/// passed the centre on its way and goes on to the next centre); standing on the
/// other side it finishes the move at the centre of its own cell. Off the centre
/// across the direction (the left-right offset is the one looked at first), it
/// stays in its cell.
pub proof fn lemma_destination_follows_direction(cell: (i32, i32), d: DirectionState, x: AxisOffset, y: AxisOffset)
    ensures
        ({
            let dest = spec_destination(cell, d, x, y);
            let step = spec_vec2(d);
            let next = (cell.0 + step.0, cell.1 + step.1);
            let here = (cell.0 as int, cell.1 as int);
            let horizontal = step.1 == 0 && step.0 != 0;
            let vertical = step.0 == 0 && step.1 != 0;
            &&& dest == next || dest == here
            &&& x == AxisOffset::Centered && y == AxisOffset::Centered ==> dest == next
            &&& horizontal && x != AxisOffset::Centered ==> (dest == next <==> axis_side(x) == step.0)
            &&& vertical && x == AxisOffset::Centered && y != AxisOffset::Centered ==> (dest == next
                <==> axis_side(y) == step.1)
            &&& vertical && x != AxisOffset::Centered ==> dest == here
            &&& horizontal && x == AxisOffset::Centered && y != AxisOffset::Centered ==> dest == here
            &&& d == DirectionState::Stay ==> dest == here
        }),
{
}

/// A move by the step of a direction goes in that direction; staying put reads
/// as a move up.
pub proof fn lemma_direction_round_trip(d: DirectionState)
    ensures
        d != DirectionState::Stay ==> spec_from_diff(spec_vec2(d).0, spec_vec2(d).1) == d,
        d == DirectionState::Stay ==> spec_from_diff(spec_vec2(d).0, spec_vec2(d).1) == DirectionState::Up,
{
}

} // verus!
