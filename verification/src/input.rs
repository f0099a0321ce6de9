//! Player input for the falling piece: sideways moves with key-hold repeat,
//! quarter turns and hard drops.
use vstd::prelude::*;
use crate::board::BoardGrid;
use crate::piece::{
    any_off_board, can_drop_spec, can_shift, drop_rows, can_shift_spec, can_turn_spec, dropped_by, grain_on_board, hard_drop,
    is_drop_distance, lock_cells, occupied_by, target_ok, try_rotate, turn_fits, turned_piece,
};
use crate::resources::GameStatus;

verus! {

/// Delay, in microseconds, between the first sideways move of a held key and its first repeat.
pub const HORIZONTAL_HOLD_INITIAL_DELAY_US: u64 = 160_000;

/// Delay, in microseconds, between later repeats of a held sideways key.
pub const HORIZONTAL_HOLD_REPEAT_INTERVAL_US: u64 = 50_000;

/// Which sideways direction is held (-1 left, 1 right, 0 none) and when, in
/// microseconds of game time, the next repeat is due.
#[derive(Clone, Copy, Debug, PartialEq, Eq, Structural)]
pub struct HorizontalHoldState {
    pub direction: i32,
    pub next_move_time_us: u64,
}

impl Default for HorizontalHoldState {
    /// No direction held.
    fn default() -> (h: HorizontalHoldState)
        ensures
            h.direction == 0,
            h.next_move_time_us == 0,
    {
        HorizontalHoldState { direction: 0, next_move_time_us: 0 }
    }
}

/// `a + b`, or `u64::MAX` where the sum would not fit.
pub open spec fn saturating_sum(a: u64, b: u64) -> u64 {
    if a + b > u64::MAX { u64::MAX } else { (a + b) as u64 }
}

/// The hold state after a frame in which the player wants direction `desired`
/// at time `now`, and whether the piece should move this frame: a new direction
/// moves at once and schedules the first repeat; the same direction moves again
/// once its repeat is due; no direction resets the held direction.
pub open spec fn hold_step(h: HorizontalHoldState, desired: i32, now: u64) -> (HorizontalHoldState, bool) {
    if desired == 0 {
        (HorizontalHoldState { direction: 0, next_move_time_us: h.next_move_time_us }, false)
    } else if desired != h.direction {
        (HorizontalHoldState { direction: desired, next_move_time_us: saturating_sum(now, HORIZONTAL_HOLD_INITIAL_DELAY_US) }, true)
    } else if now >= h.next_move_time_us {
        (HorizontalHoldState { direction: desired, next_move_time_us: saturating_sum(now, HORIZONTAL_HOLD_REPEAT_INTERVAL_US) }, true)
    } else {
        (h, false)
    }
}

impl HorizontalHoldState {
    /// Advances the hold state (see `hold_step`) and says whether to move now.
    pub fn update(&mut self, desired: i32, now_us: u64) -> (should_move: bool)
        ensures
            (*final(self), should_move) == hold_step(*old(self), desired, now_us),
    {
        if desired == 0 {
            self.direction = 0;
            return false;
        }
        if desired != self.direction {
            self.direction = desired;
            self.next_move_time_us = now_us.saturating_add(HORIZONTAL_HOLD_INITIAL_DELAY_US);
            true
        } else if now_us >= self.next_move_time_us {
            self.next_move_time_us = now_us.saturating_add(HORIZONTAL_HOLD_REPEAT_INTERVAL_US);
            true
        } else {
            false
        }
    }
}

/// The key states of one frame and the game time, in microseconds.
#[derive(Clone, Copy, Debug)]
pub struct InputFrame {
    pub left_just_pressed: bool,
    pub right_just_pressed: bool,
    pub left_pressed: bool,
    pub right_pressed: bool,
    pub rotate_just_pressed: bool,
    pub hard_drop_just_pressed: bool,
    pub now_us: u64,
}

/// The sideways direction the keys ask for: a fresh press wins (left before
/// right); otherwise a key held alone; otherwise none.
pub open spec fn desired_dir_spec(left_just: bool, right_just: bool, left: bool, right: bool) -> i32 {
    if left_just { -1i32 } else if right_just { 1i32 } else if left && !right { -1i32 } else if right && !left { 1i32 } else { 0i32 }
}

/// The sideways direction the keys ask for: -1 left, 1 right, 0 none.
pub fn desired_direction(left_just_pressed: bool, right_just_pressed: bool, left_pressed: bool, right_pressed: bool) -> (d: i32)
    ensures
        d == desired_dir_spec(left_just_pressed, right_just_pressed, left_pressed, right_pressed),
{
    if left_just_pressed {
        -1
    } else if right_just_pressed {
        1
    } else if left_pressed && !right_pressed {
        -1
    } else if right_pressed && !left_pressed {
        1
    } else {
        0
    }
}

/// The piece moved `dc` columns sideways.
pub open spec fn shifted_by(grains: Seq<(u64, i32, i32)>, dc: int) -> Seq<(u64, i32, i32)> {
    Seq::new(grains.len(), |i: int| (grains[i].0, (grains[i].1 + dc) as i32, grains[i].2))
}

/// The piece moved `dc` columns sideways, a move the board allows.
fn shift_piece(board: &BoardGrid, grains: &Vec<(u64, i32, i32)>, dc: i32) -> (res: Vec<(u64, i32, i32)>)
    requires
        board.wf(),
        can_shift_spec(board@, grains@, dc as int),
    ensures
        res@ == shifted_by(grains@, dc as int),
{
    let mut res: Vec<(u64, i32, i32)> = Vec::new();
    let mut i: usize = 0;
    while i < grains.len()
        invariant
            i <= grains@.len(),
            can_shift_spec(board@, grains@, dc as int),
            res@.len() == i,
            forall|j: int| 0 <= j < i ==> #[trigger] res@[j] == shifted_by(grains@, dc as int)[j],
        decreases grains@.len() - i,
    {
        let (e, c, r) = grains[i];
        assert(target_ok(board@, grains@, grains@[i as int].1 + dc, grains@[i as int].2 as int));
        proof {
            if occupied_by(grains@, c + dc as int, r as int) {
                let j = choose|j: int| 0 <= j < grains@.len() && #[trigger] grains@[j].1 == c + dc && grains@[j].2 == r;
            }
        }
        res.push((e, (c as i64 + dc as i64) as i32, r));
        i = i + 1;
    }
    assert(res@ =~= shifted_by(grains@, dc as int));
    res
}

/// A copy of the piece.
fn copy_piece(grains: &Vec<(u64, i32, i32)>) -> (res: Vec<(u64, i32, i32)>)
    ensures
        res@ == grains@,
{
    let mut res: Vec<(u64, i32, i32)> = Vec::new();
    let mut i: usize = 0;
    while i < grains.len()
        invariant
            i <= grains@.len(),
            res@ == grains@.take(i as int),
        decreases grains@.len() - i,
    {
        res.push(grains[i]);
        i = i + 1;
        assert(res@ =~= grains@.take(i as int));
    }
    assert(grains@.take(grains@.len() as int) =~= grains@);
    res
}

/// The piece after the sideways part of a frame.
pub open spec fn after_shift(cells: Seq<Option<u64>>, hold: HorizontalHoldState, f: InputFrame, grains: Seq<(u64, i32, i32)>) -> Seq<(u64, i32, i32)> {
    let dir = desired_dir_spec(f.left_just_pressed, f.right_just_pressed, f.left_pressed, f.right_pressed);
    if hold_step(hold, dir, f.now_us).1 && can_shift_spec(cells, grains, dir as int) {
        shifted_by(grains, dir as int)
    } else {
        grains
    }
}

/// The piece after the turning part of a frame.
pub open spec fn after_turn(cells: Seq<Option<u64>>, f: InputFrame, grains: Seq<(u64, i32, i32)>) -> Seq<(u64, i32, i32)> {
    if f.rotate_just_pressed && grains.len() > 0 && turn_fits(grains) && can_turn_spec(cells, grains) {
        turned_piece(grains)
    } else {
        grains
    }
}

/// What a frame of input did to the falling piece.
#[derive(Debug)]
pub struct InputOutcome {
    /// The piece's grains at their new positions.
    pub grains: Vec<(u64, i32, i32)>,
    /// After a hard drop, per grain, whether it was placed on the board.
    pub locked: Option<Vec<bool>>,
}

/// One frame of input for the falling piece, in order: a sideways move (as the
/// hold state allows, and only if every grain can move), a clockwise quarter
/// turn (see `try_rotate`), and a hard drop that locks the piece (see
/// `hard_drop`). Nothing happens when the game is over or there is no piece.
pub fn input_system(
    board: &mut BoardGrid,
    status: &mut GameStatus,
    hold: &mut HorizontalHoldState,
    frame: &InputFrame,
    grains: &Vec<(u64, i32, i32)>,
) -> (out: InputOutcome)
    requires
        old(board).wf(),
    ensures
        final(board).wf(),
        final(status).score == old(status).score,
        if old(status).is_game_over || grains@.len() == 0 {
            &&& out.grains@ == grains@
            &&& out.locked is None
            &&& final(board)@ == old(board)@
            &&& *final(status) == *old(status)
            &&& *final(hold) == *old(hold)
        } else {
            let dir = desired_dir_spec(frame.left_just_pressed, frame.right_just_pressed, frame.left_pressed, frame.right_pressed);
            let moved = after_turn(old(board)@, *frame, after_shift(old(board)@, *old(hold), *frame, grains@));
            &&& *final(hold) == hold_step(*old(hold), dir, frame.now_us).0
            &&& if frame.hard_drop_just_pressed {
                exists|d: int| #[trigger] is_drop_distance(old(board)@, moved, d)
                    && out.grains@ == dropped_by(moved, d)
                    && final(board)@ == lock_cells(old(board)@, dropped_by(moved, d))
                    && (out.locked matches Some(placed) && placed@.len() == moved.len()
                        && forall|i: int| 0 <= i < moved.len() ==> #[trigger] placed@[i] == grain_on_board(dropped_by(moved, d)[i]))
                    && final(status).is_game_over == (old(status).is_game_over || any_off_board(dropped_by(moved, d)))
            } else {
                &&& out.grains@ == moved
                &&& out.locked is None
                &&& final(board)@ == old(board)@
                &&& *final(status) == *old(status)
            }
        },
{
    if status.is_game_over || grains.len() == 0 {
        return InputOutcome { grains: copy_piece(grains), locked: None };
    }
    let ghost hold_before = *hold;
    let dir = desired_direction(frame.left_just_pressed, frame.right_just_pressed, frame.left_pressed, frame.right_pressed);
    let should_move = hold.update(dir, frame.now_us);
    let mut current: Vec<(u64, i32, i32)> = copy_piece(grains);
    if should_move && can_shift(board, &current, dir) {
        current = shift_piece(board, &current, dir);
    }
    let ghost shifted = current@;
    assert(shifted == after_shift(board@, hold_before, *frame, grains@));
    if frame.rotate_just_pressed {
        match try_rotate(board, &current) {
            Some(turned) => {
                current = turned;
            },
            None => {},
        }
    }
    assert(current@ == after_turn(board@, *frame, shifted));
    if frame.hard_drop_just_pressed {
        let (d, placed) = hard_drop(board, status, &current);
        assert forall|i: int| 0 <= i < current@.len() implies #[trigger] current@[i].2 - d >= i32::MIN by {
            if d > 0 {
                assert(can_drop_spec(old(board)@, current@, d as int));
            }
        }
        let dropped = drop_rows(&current, d);
        assert(is_drop_distance(old(board)@, current@, d as int));
        return InputOutcome { grains: dropped, locked: Some(placed) };
    }
    InputOutcome { grains: current, locked: None }
}

} // verus!
