//! `stack up`, `down`, `top`, `bottom`: move within a stack.

use vstd::prelude::*;

use crate::domain::error::{Fault, StackError};
use crate::domain::stack::{
    law_ends_are_outermost, law_step_goes_by_place, open_at, stands_at, BranchView, Stack,
    StackView,
};
use crate::text;

verus! {

#[derive(Debug, Clone, Copy, PartialEq, Eq, Structural)]
pub enum Direction {
    Up,
    Down,
    Top,
    Bottom,
}

/// A count of steps, as far as it can be taken.
pub open spec fn steps(count: usize) -> int {
    if count > isize::MAX {
        isize::MAX as int
    } else {
        count as int
    }
}

/// The branch that a move leads to.
pub open spec fn destination(
    stack: StackView,
    current: Seq<char>,
    direction: Direction,
    count: usize,
) -> Option<BranchView> {
    match direction {
        Direction::Up => stack.step(current, steps(count)),
        Direction::Down => stack.step(current, -steps(count)),
        Direction::Top => stack.top(),
        Direction::Bottom => stack.bottom(),
    }
}

/// What a move comes to: `None` where it stays on the current branch.
pub fn navigate(stack: &Stack, current: &str, direction: Direction, count: usize) -> (r: Result<
    Option<String>,
    StackError,
>)
    ensures
        match destination(stack@, current@, direction, count) {
            Some(b) => r matches Ok(target) && text::opt_view(target) == (if b.branch == current@ {
                None
            } else {
                Some(b.branch)
            }),
            None => r matches Err(e) && e@ == Fault::Other("no active branches in stack"@),
        },
{
    let n: isize = if count > isize::MAX as usize {
        isize::MAX
    } else {
        count as isize
    };
    let target = match direction {
        Direction::Up => stack.step_active(current, n),
        Direction::Down => stack.step_active(current, -n),
        Direction::Top => stack.top_active(),
        Direction::Bottom => stack.bottom_active(),
    };
    match target {
        Some(b) => if text::same(b.branch.as_str(), current) {
            Ok(None)
        } else {
            Ok(Some(b.branch.clone()))
        },
        None => Err(StackError::Other("no active branches in stack".to_string())),
    }
}

/// A move up leads to a branch that is not below the current one, a move down to
/// one that is not above it, by one to the next that is not merged; the top and
/// the bottom are the outermost that are not merged.
pub proof fn law_moves_go_their_way(stack: StackView, current: Seq<char>, count: usize)
    ensures
        destination(stack, current, Direction::Up, count) matches Some(b) ==> exists|
            i: int,
            k: int,
        |
            #[trigger] stands_at(stack, current, i) && #[trigger] open_at(stack, k) && i <= k
                && stack.branches[k] == b && (count == 1 ==> forall|j: int|
                i < j < k ==> !#[trigger] open_at(stack, j)) && (count > 0 && k == i ==> forall|
                j: int,
            |
                i < j ==> !#[trigger] open_at(stack, j)),
        destination(stack, current, Direction::Down, count) matches Some(b) ==> exists|
            i: int,
            k: int,
        |
            #[trigger] stands_at(stack, current, i) && #[trigger] open_at(stack, k) && k <= i
                && stack.branches[k] == b && (count == 1 ==> forall|j: int|
                k < j < i ==> !#[trigger] open_at(stack, j)) && (count > 0 && k == i ==> forall|
                j: int,
            |
                j < i ==> !#[trigger] open_at(stack, j)),
        destination(stack, current, Direction::Top, count) matches Some(b) ==> exists|i: int|
            #[trigger] open_at(stack, i) && stack.branches[i] == b && forall|j: int|
                i < j ==> !#[trigger] open_at(stack, j),
        destination(stack, current, Direction::Bottom, count) matches Some(b) ==> exists|i: int|
            #[trigger] open_at(stack, i) && stack.branches[i] == b && forall|j: int|
                j < i ==> !#[trigger] open_at(stack, j),
        destination(stack, current, Direction::Up, count) is None
            || destination(stack, current, Direction::Down, count) is None <==> forall|i: int|
            #[trigger] open_at(stack, i) ==> stack.branches[i].branch != current,
{
    law_step_goes_by_place(stack, current, steps(count));
    law_step_goes_by_place(stack, current, -steps(count));
    law_ends_are_outermost(stack);
}

} // verus!
