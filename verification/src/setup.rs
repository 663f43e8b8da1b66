//! The first population: where a new object is put.
use vstd::prelude::*;

use crate::rect::{clamp, clamp_coordinate, Point, Rect};

verus! {

/// Draws a whole number from `low` to `high`, both included, with
/// `rand::random_range`, which samples the thread's generator. Only the
/// range of the result is claimed: every other property is left to chance.
/// The outside function panics on an empty range, which `requires` excludes.
#[verifier::external_body]
fn random_between(low: i64, high: i64) -> (value: i64)
    requires
        low <= high,
    ensures
        low <= value <= high,
{
    rand::random_range(low..=high)
}

/// A rectangle for a new object, drawn at random: its center lies in
/// `root`, as far as coordinates reach, and each of its extents lies between
/// `smallest` and `largest`.
pub fn random_rect(root: &Rect, smallest: u32, largest: u32) -> (rect: Rect)
    requires
        smallest <= largest,
    ensures
        clamp_coordinate(root.min_x()) <= rect.center.x <= clamp_coordinate(root.max_x()),
        clamp_coordinate(root.min_y()) <= rect.center.y <= clamp_coordinate(root.max_y()),
        root.in_range() ==> root.covers(rect.center.x as int, rect.center.y as int),
        smallest <= rect.width <= largest,
        smallest <= rect.height <= largest,
{
    let low = root.min();
    let high = root.max();
    let left: i32 = clamp(low.x);
    let right: i32 = clamp(high.x);
    let bottom: i32 = clamp(low.y);
    let top: i32 = clamp(high.y);
    let width: i64 = random_between(smallest as i64, largest as i64);
    let height: i64 = random_between(smallest as i64, largest as i64);
    let x: i64 = random_between(left as i64, right as i64);
    let y: i64 = random_between(bottom as i64, top as i64);
    Rect { center: Point { x: x as i32, y: y as i32 }, width: width as u32, height: height as u32 }
}

} // verus!
