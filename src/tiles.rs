//! From tile codes to bricks.
//!
//! Code 0 is empty space, code 1 a solid (indestructible) block, and every
//! code from 2 up a destructible block whose colour the code selects.

use vstd::prelude::*;
use vstd::arithmetic::div_mod::{
    lemma_fundamental_div_mod_converse_div, lemma_fundamental_div_mod_converse_mod,
};
use crate::level::LevelGrid;

verus! {

/// A colour, each channel in thousandths (0 is none, 1000 is full).
#[derive(Debug, Clone, Copy, PartialEq, Eq, Structural)]
pub struct Color {
    pub red: u32,
    pub green: u32,
    pub blue: u32,
}

/// A brick of a level: where it stands in the grid and how it looks.
#[derive(Debug, Clone, Copy, PartialEq, Eq, Structural)]
pub struct Brick {
    pub column: u32,
    pub row: u32,
    pub solid: bool,
    pub destroyed: bool,
    pub color: Color,
}

/// `x` thousandths, capped at 1000.
pub open spec fn capped(x: int) -> u32 {
    if x > 1000 {
        1000
    } else {
        x as u32
    }
}

/// The colour of a non-empty tile code. Codes 1 to 5 have fixed colours;
/// from 6 on, red is `0.2 * code`, green `0.6 / code` and blue `1.0 * code`,
/// each capped at 1.
pub open spec fn tile_color(code: u32) -> Color {
    if code == 1 {
        Color { red: 800, green: 800, blue: 700 }
    } else if code == 2 {
        Color { red: 200, green: 600, blue: 1000 }
    } else if code == 3 {
        Color { red: 0, green: 700, blue: 0 }
    } else if code == 4 {
        Color { red: 800, green: 800, blue: 400 }
    } else if code == 5 {
        Color { red: 1000, green: 500, blue: 0 }
    } else {
        Color {
            red: capped(200 * code),
            green: capped(600int / (code as int)),
            blue: capped(1000 * code),
        }
    }
}

/// From code 6 on, every channel stays within 0 to 1000, red and blue never
/// fall and green never rises as the code grows.
pub proof fn lemma_tile_color_bounded_monotonic(a: u32, b: u32)
    requires
        6 <= a <= b,
    ensures
        tile_color(a).red <= 1000 && tile_color(a).green <= 1000 && tile_color(a).blue <= 1000,
        tile_color(a).red <= tile_color(b).red,
        tile_color(a).green >= tile_color(b).green,
        tile_color(a).blue <= tile_color(b).blue,
{
    assert(600int / (b as int) <= 600int / (a as int)) by (nonlinear_arith)
        requires
            6 <= a <= b,
    ;
    assert(600int / (a as int) <= 100) by (nonlinear_arith)
        requires
            6 <= a,
    ;
}

/// The brick that tile `code` puts at `(column, row)`, if any.
pub open spec fn brick_for(code: u32, column: u32, row: u32) -> Option<Brick> {
    if code == 0 {
        None
    } else {
        Some(
            Brick { column, row, solid: code == 1, destroyed: false, color: tile_color(code) },
        )
    }
}

/// The bricks of the first `n` cells of a grid `width` cells wide, in
/// row-major order.
pub open spec fn bricks_upto(cells: Seq<u32>, width: u32, n: nat) -> Seq<Brick>
    decreases n,
{
    if n == 0 {
        Seq::empty()
    } else {
        let i = n - 1;
        let prev = bricks_upto(cells, width, (n - 1) as nat);
        match brick_for(cells[i], (i % (width as int)) as u32, (i / (width as int)) as u32) {
            Some(b) => prev.push(b),
            None => prev,
        }
    }
}

/// The colour of a non-empty tile code.
pub fn color_for_code(code: u32) -> (r: Color)
    requires
        code >= 1,
    ensures
        r == tile_color(code),
{
    if code == 1 {
        Color { red: 800, green: 800, blue: 700 }
    } else if code == 2 {
        Color { red: 200, green: 600, blue: 1000 }
    } else if code == 3 {
        Color { red: 0, green: 700, blue: 0 }
    } else if code == 4 {
        Color { red: 800, green: 800, blue: 400 }
    } else if code == 5 {
        Color { red: 1000, green: 500, blue: 0 }
    } else {
        let c = code as u64;
        let red = if 200 * c > 1000 {
            1000
        } else {
            (200 * c) as u32
        };
        let g = 600 / c;
        let green = if g > 1000 {
            1000
        } else {
            g as u32
        };
        let blue = if 1000 * c > 1000 {
            1000
        } else {
            (1000 * c) as u32
        };
        Color { red, green, blue }
    }
}

/// The brick that tile `code` puts at `(column, row)`: none for an empty
/// tile, a solid block for code 1, a destructible block otherwise.
pub fn brick_for_code(code: u32, column: u32, row: u32) -> (r: Option<Brick>)
    ensures
        r == brick_for(code, column, row),
{
    if code == 0 {
        None
    } else {
        let color = color_for_code(code);
        Some(Brick { column, row, solid: code == 1, destroyed: false, color })
    }
}

/// The bricks of a level, in row-major order: one for each non-empty cell.
pub fn level_bricks(level: &LevelGrid) -> (r: Vec<Brick>)
    requires
        level.wf(),
    ensures
        r@ == bricks_upto(level@.0, level@.1, level@.0.len()),
{
    let cells = level.cells();
    let width = level.width();
    let height = level.height();
    let mut out: Vec<Brick> = Vec::new();
    if width == 0 {
        return out;
    }
    let len = cells.len();
    let mut idx: usize = 0;
    let mut column: u32 = 0;
    let mut row: u32 = 0;
    while idx < len
        invariant
            cells@ == level@.0,
            width == level@.1,
            height == level@.2,
            len == cells@.len(),
            cells@.len() == width * height,
            width > 0,
            idx <= len,
            column < width,
            idx == row * width + column,
            out@ == bricks_upto(cells@, width, idx as nat),
        decreases len - idx,
    {
        proof {
            assert(row < height) by (nonlinear_arith)
                requires
                    idx == row * width + column,
                    idx < width * height,
                    column < width,
            ;
            lemma_fundamental_div_mod_converse_div(idx as int, width as int, row as int, column as int);
            lemma_fundamental_div_mod_converse_mod(idx as int, width as int, row as int, column as int);
        }
        match brick_for_code(cells[idx], column, row) {
            Some(b) => out.push(b),
            None => {},
        }
        idx += 1;
        if column + 1 == width {
            assert((row + 1) * width == row * width + width) by (nonlinear_arith);
            column = 0;
            row += 1;
        } else {
            column += 1;
        }
    }
    out
}

impl Brick {
    /// A brick no longer stands in the way of finishing the level once it
    /// is destroyed; a solid one never does.
    pub fn is_completed(&self) -> (r: bool)
        ensures
            r == (self.solid || self.destroyed),
    {
        self.solid || self.destroyed
    }
}

/// Whether every brick of a level is solid or destroyed.
pub fn level_is_completed(bricks: &Vec<Brick>) -> (r: bool)
    ensures
        r == forall|i: int| 0 <= i < bricks@.len() ==> (#[trigger] bricks@[i]).solid || bricks@[i].destroyed,
{
    let mut i: usize = 0;
    while i < bricks.len()
        invariant
            i <= bricks@.len(),
            forall|k: int| 0 <= k < i ==> (#[trigger] bricks@[k]).solid || bricks@[k].destroyed,
        decreases bricks@.len() - i,
    {
        if !bricks[i].is_completed() {
            return false;
        }
        i += 1;
    }
    true
}

} // verus!
