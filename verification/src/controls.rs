//! The keyboard policy of the viewer: what the keys of one frame ask for.
//!
//! The frame loop samples the keyboard, hands the sample to [`plan_frame`] and
//! carries out the plan it gets back. Nothing here touches a window or a
//! vector: a move names the basis vector to follow and the sign to follow it
//! with, and the loop does the arithmetic.

use vstd::prelude::*;

verus! {

/// One of the six ways the observer can be moved.
#[derive(Clone, Copy, PartialEq, Eq, Debug, Structural)]
pub enum Direction {
    Forward,
    Back,
    Left,
    Right,
    Up,
    Down,
}

/// The vector along which a move displaces the observer.
#[derive(Clone, Copy, PartialEq, Eq, Debug, Structural)]
pub enum Axis {
    /// The camera's front vector.
    Front,
    /// The camera's right vector.
    Right,
    /// The world's fixed up vector, not the camera's: looking up or down
    /// does not tilt vertical movement.
    WorldUp,
}

/// The keyboard as sampled for one frame.
#[derive(Clone, Copy, PartialEq, Eq, Debug, Structural)]
pub struct Keys {
    /// Q went down during this frame.
    pub q: bool,
    /// Escape went down during this frame.
    pub escape: bool,
    /// Tab went down during this frame.
    pub tab: bool,
    /// W is held.
    pub w: bool,
    /// S is held.
    pub s: bool,
    /// A is held.
    pub a: bool,
    /// D is held.
    pub d: bool,
    /// Space is held.
    pub space: bool,
    /// Left Control is held.
    pub left_control: bool,
}

/// How the window treats the pointer.
#[derive(Clone, Copy, PartialEq, Eq, Debug, Structural)]
pub struct Cursor {
    /// The pointer is confined to the window.
    pub grab: bool,
    /// The pointer is drawn.
    pub show_pointer: bool,
}

/// What the frame loop does with one frame.
#[derive(Debug)]
pub enum FramePlan {
    /// Leave the loop; nothing else happens in this frame.
    Quit,
    /// Run the frame.
    Advance {
        /// Whether the pointer is grabbed from this frame on.
        grabbed: bool,
        /// The cursor mode to set, when this frame changes it.
        cursor: Option<Cursor>,
        /// The moves to apply to the observer, in this order.
        moves: Vec<Direction>,
    },
}

impl Direction {
    /// The six directions in the order in which a frame applies them.
    pub open spec fn in_order() -> Seq<Direction> {
        seq![
            Direction::Forward,
            Direction::Back,
            Direction::Left,
            Direction::Right,
            Direction::Up,
            Direction::Down,
        ]
    }

    /// The place of this direction in [`Direction::in_order`].
    pub open spec fn rank(self) -> int {
        match self {
            Direction::Forward => 0,
            Direction::Back => 1,
            Direction::Left => 2,
            Direction::Right => 3,
            Direction::Up => 4,
            Direction::Down => 5,
        }
    }

    /// The vector that a move in this direction follows.
    pub open spec fn axis_of(self) -> Axis {
        match self {
            Direction::Forward | Direction::Back => Axis::Front,
            Direction::Left | Direction::Right => Axis::Right,
            Direction::Up | Direction::Down => Axis::WorldUp,
        }
    }

    /// Whether a move in this direction adds its vector (1) or subtracts it
    /// (-1).
    pub open spec fn sign_of(self) -> int {
        match self {
            Direction::Forward | Direction::Right | Direction::Up => 1,
            Direction::Back | Direction::Left | Direction::Down => -1,
        }
    }

    /// The vector that a move in this direction follows.
    pub fn axis(self) -> (axis: Axis)
        ensures
            axis == self.axis_of(),
    {
        match self {
            Direction::Forward | Direction::Back => Axis::Front,
            Direction::Left | Direction::Right => Axis::Right,
            Direction::Up | Direction::Down => Axis::WorldUp,
        }
    }

    /// The factor of a move in this direction: 1 to add the vector, -1 to
    /// subtract it.
    pub fn sign(self) -> (sign: i8)
        ensures
            sign == self.sign_of(),
    {
        match self {
            Direction::Forward | Direction::Right | Direction::Up => 1,
            Direction::Back | Direction::Left | Direction::Down => -1,
        }
    }
}

/// The six directions pair up: two follow each vector, one adding it and one
/// subtracting it, so a vector and a sign name one direction.
pub proof fn lemma_directions_pair_up(first: Direction, second: Direction)
    ensures
        first.sign_of() == 1 || first.sign_of() == -1,
        first.axis_of() == second.axis_of() && first != second ==> first.sign_of()
            == -second.sign_of(),
        first.axis_of() == second.axis_of() && first.sign_of() == second.sign_of() ==> first
            == second,
{
}

/// The moves of a frame are the held directions, each once and in the fixed
/// order: a direction is among them exactly when its key is held, none comes
/// twice, and a later move has a higher rank than an earlier one.
pub proof fn lemma_moves_are_the_held_directions(keys: Keys, direction: Direction)
    ensures
        keys.moves().contains(direction) <==> keys.holds(direction),
        keys.moves().no_duplicates(),
        keys.moves().len() <= 6,
        forall|i: int, j: int|
            0 <= i < j < keys.moves().len() ==> (#[trigger] keys.moves()[i]).rank() < (
            #[trigger] keys.moves()[j]).rank(),
{
    let order = Direction::in_order();
    let wanted = |d: Direction| keys.holds(d);
    let moves = keys.moves();
    assert(moves == order.filter(wanted));
    order.lemma_filter_len(wanted);
    if keys.holds(direction) {
        assert(order[direction.rank()] == direction);
        order.lemma_filter_contains(wanted, direction.rank());
    }
    if moves.contains(direction) {
        let i = choose|i: int| 0 <= i < moves.len() && moves[i] == direction;
        order.lemma_filter_pred(wanted, i);
    }
    lemma_moves_ascend(keys, 6);
    assert(order.take(6) =~= order);
    assert forall|i: int, j: int| 0 <= i < j < moves.len() implies moves[i] != moves[j] by {
        assert(moves[i].rank() < moves[j].rank());
    }
}

/// Among the first `count` directions of the order, the held ones come with
/// strictly growing ranks, all below `count`.
proof fn lemma_moves_ascend(keys: Keys, count: int)
    requires
        0 <= count <= 6,
    ensures
        ({
            let found = Direction::in_order().take(count).filter(
                |d: Direction| keys.holds(d),
            );
            &&& forall|i: int| 0 <= i < found.len() ==> (#[trigger] found[i]).rank() < count
            &&& forall|i: int, j: int|
                0 <= i < j < found.len() ==> (#[trigger] found[i]).rank() < (
                #[trigger] found[j]).rank()
        }),
    decreases count,
{
    reveal(Seq::filter);
    let order = Direction::in_order();
    let wanted = |d: Direction| keys.holds(d);
    let found = order.take(count).filter(wanted);
    if count > 0 {
        lemma_moves_ascend(keys, count - 1);
        let before = order.take(count - 1).filter(wanted);
        let last = order[count - 1];
        assert(order.take(count).drop_last() =~= order.take(count - 1));
        assert(order.take(count).last() == last);
        assert(last.rank() == count - 1);
        assert(found == if wanted(last) {
            before.push(last)
        } else {
            before
        });
        assert forall|i: int| 0 <= i < found.len() implies (#[trigger] found[i]).rank()
            < count by {
            if i < before.len() {
                assert(found[i] == before[i]);
            }
        }
        assert forall|i: int, j: int| 0 <= i < j < found.len() implies (#[trigger] found[i]).rank()
            < (#[trigger] found[j]).rank() by {
            assert(found[i] == before[i]);
            if j < before.len() {
                assert(found[j] == before[j]);
            }
        }
    } else {
        assert(found.len() == 0);
    }
}

impl Keys {
    /// Whether the key bound to `direction` is held: W and S move forward and
    /// back, A and D left and right, Space and Left Control up and down.
    pub open spec fn holds(self, direction: Direction) -> bool {
        match direction {
            Direction::Forward => self.w,
            Direction::Back => self.s,
            Direction::Left => self.a,
            Direction::Right => self.d,
            Direction::Up => self.space,
            Direction::Down => self.left_control,
        }
    }

    /// Whether a key that ends the program went down: Q or Escape.
    pub open spec fn asks_quit(self) -> bool {
        self.q || self.escape
    }

    /// The moves that the held keys ask for: the held directions, each once,
    /// in the order of [`Direction::in_order`].
    pub open spec fn moves(self) -> Seq<Direction> {
        Direction::in_order().filter(|direction: Direction| self.holds(direction))
    }

    /// Whether the key bound to `direction` is held.
    pub fn is_held(&self, direction: Direction) -> (held: bool)
        ensures
            held == self.holds(direction),
    {
        match direction {
            Direction::Forward => self.w,
            Direction::Back => self.s,
            Direction::Left => self.a,
            Direction::Right => self.d,
            Direction::Up => self.space,
            Direction::Down => self.left_control,
        }
    }

    /// Whether a key that ends the program went down.
    pub fn quit_requested(&self) -> (quit: bool)
        ensures
            quit == self.asks_quit(),
    {
        self.q || self.escape
    }

    /// The moves that the held keys ask for, in the order in which the frame
    /// applies them.
    pub fn held_moves(&self) -> (moves: Vec<Direction>)
        ensures
            moves@ == self.moves(),
    {
        let order: [Direction; 6] = [
            Direction::Forward,
            Direction::Back,
            Direction::Left,
            Direction::Right,
            Direction::Up,
            Direction::Down,
        ];
        let ghost wanted = |direction: Direction| self.holds(direction);
        let mut moves: Vec<Direction> = Vec::new();
        assert(order@ =~= Direction::in_order());
        assert(order@.take(0).filter(wanted) =~= Seq::<Direction>::empty()) by {
            reveal(Seq::filter);
        }
        for i in 0..6usize
            invariant
                order@ == Direction::in_order(),
                wanted == |direction: Direction| self.holds(direction),
                moves@ == order@.take(i as int).filter(wanted),
        {
            let direction: Direction = order[i];
            proof {
                reveal(Seq::filter);
                assert(order@.take(i + 1).drop_last() =~= order@.take(i as int));
                assert(order@.take(i + 1).last() == direction);
            }
            if self.is_held(direction) {
                moves.push(direction);
            }
        }
        assert(order@.take(6) =~= order@);
        moves
    }
}

impl Cursor {
    /// The cursor mode that goes with a grab state: a grabbed pointer is
    /// hidden, a free one is drawn.
    pub open spec fn of_mode(grabbed: bool) -> Cursor {
        Cursor { grab: grabbed, show_pointer: !grabbed }
    }

    /// The cursor mode that goes with a grab state.
    pub fn for_mode(grabbed: bool) -> (cursor: Cursor)
        ensures
            cursor == Cursor::of_mode(grabbed),
    {
        Cursor { grab: grabbed, show_pointer: !grabbed }
    }
}

/// Whether `plan` is the plan for a frame that starts with the pointer
/// grabbed or not and samples `keys`.
///
/// Q or Escape ends the program before anything else is looked at. Otherwise
/// Tab flips the grab state and has the cursor set to match, and the held
/// movement keys give the moves.
pub open spec fn plans(grabbed: bool, keys: Keys, plan: FramePlan) -> bool {
    if keys.asks_quit() {
        plan is Quit
    } else {
        &&& plan matches FramePlan::Advance { grabbed: next, cursor, moves }
        &&& next == (grabbed != keys.tab)
        &&& cursor == if keys.tab {
            Some(Cursor::of_mode(next))
        } else {
            None
        }
        &&& moves@ == keys.moves()
    }
}

/// Decides what one frame does, from the grab state it starts with and the
/// keys sampled for it.
pub fn plan_frame(grabbed: bool, keys: &Keys) -> (plan: FramePlan)
    ensures
        plans(grabbed, *keys, plan),
{
    if keys.quit_requested() {
        return FramePlan::Quit;
    }
    let next: bool = if keys.tab {
        !grabbed
    } else {
        grabbed
    };
    let cursor: Option<Cursor> = if keys.tab {
        Some(Cursor::for_mode(next))
    } else {
        None
    };
    FramePlan::Advance { grabbed: next, cursor, moves: keys.held_moves() }
}

} // verus!
