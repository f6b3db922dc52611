//! Geometry primitives and the pluggable text-measurement device.

use vstd::prelude::*;
use crate::text::{count_lines, line_count, max_line_len};

verus! {

/// One measurement unit: the width of a character and the height of a line
/// under the reference measurement device, and the fixed row step of the
/// layout pass.
pub const MEASURE_UNIT: u32 = 20;

/// The longest text the measurement device accepts: anything longer could not
/// be measured within a 32-bit size.
pub const MAX_MEASURE_LEN: usize = (4294967295 - 20) / 20;

/// A width and a height, in measurement units.
#[derive(Clone, Copy, PartialEq, Eq, Structural, Debug)]
pub struct Size {
    pub width: u32,
    pub height: u32,
}

impl Size {
    /// The zero size.
    pub fn new() -> (s: Self)
        ensures
            s.width == 0,
            s.height == 0,
    {
        Size { width: 0, height: 0 }
    }
}

/// A position.
#[derive(Clone, Copy, PartialEq, Eq, Structural, Debug)]
pub struct Point {
    pub x: i32,
    pub y: i32,
}

impl Point {
    /// The origin.
    pub fn new() -> (p: Self)
        ensures
            p.x == 0,
            p.y == 0,
    {
        Point { x: 0, y: 0 }
    }
}

/// A rectangle: a position and a size.
pub struct Region {
    pub pos: Point,
    pub size: Size,
}

impl Region {
    /// The empty region at the origin.
    pub fn new() -> (r: Self)
        ensures
            r.pos.x == 0,
            r.pos.y == 0,
            r.size.width == 0,
            r.size.height == 0,
    {
        Region { pos: Point::new(), size: Size::new() }
    }
}

/// Size constraints of a block that may grow.
pub struct Resizable {
    pub size: Size,
    pub min_size: Size,
    pub max_size: Size,
    pub expand_h: bool,
    pub expand_v: bool,
}

impl Resizable {
    /// No size, no constraints, no growth.
    pub fn new() -> (r: Self)
        ensures
            r.size.width == 0,
            r.size.height == 0,
            r.min_size.width == 0,
            r.min_size.height == 0,
            r.max_size.width == 0,
            r.max_size.height == 0,
            !r.expand_h,
            !r.expand_v,
    {
        Resizable {
            size: Size::new(),
            min_size: Size { width: 0, height: 0 },
            max_size: Size { width: 0, height: 0 },
            expand_h: false,
            expand_v: false,
        }
    }
}

/// A direction.
pub enum Orient {
    H,
    V,
}

/// The payload of a layout block.
pub enum BlockData {
    Space,
    Sizer { orient: Orient },
    Text { text: String },
}

/// A node of a layout-block tree: a payload, owned children in order, and
/// geometry to be assigned by a layout pass. Children are owned outright, so
/// no back-reference to a parent is kept.
pub struct Block {
    pub children: Vec<Block>,
    pub data: BlockData,
    pub pos: Point,
    pub size: Resizable,
}

impl Block {
    /// A childless block around `data`, at the origin, with no size and no
    /// constraints.
    pub fn new_from(data: BlockData) -> (b: Self)
        ensures
            b.children@ == Seq::<Block>::empty(),
            b.data == data,
            b.pos.x == 0,
            b.pos.y == 0,
            b.size.size.width == 0,
            b.size.size.height == 0,
            b.size.min_size.width == 0,
            b.size.min_size.height == 0,
            b.size.max_size.width == 0,
            b.size.max_size.height == 0,
            !b.size.expand_h,
            !b.size.expand_v,
    {
        Block { children: Vec::new(), data, pos: Point::new(), size: Resizable::new() }
    }
}

/// A capability that turns a string into a width and a height. Each device
/// states what it requires of the text and what the returned size means.
pub trait DeviceContext {
    /// What the device asks of a text before it can measure it.
    spec fn measure_req(&self, text: Seq<char>) -> bool;

    /// What the returned size says about the text.
    spec fn measure_ens(&self, text: Seq<char>, size: Size) -> bool;

    /// Measures `text`.
    fn measure_text(&self, text: &str) -> (size: Size)
        requires
            self.measure_req(text@),
        ensures
            self.measure_ens(text@, size),
    ;
}

/// The reference measurement device: a fixed-pitch grid of measurement units.
pub struct TestDC {}

impl TestDC {
    pub fn new() -> (dc: Self)
        ensures
            dc == (TestDC {  }),
    {
        TestDC {  }
    }
}

impl DeviceContext for TestDC {
    open spec fn measure_req(&self, text: Seq<char>) -> bool {
        text.len() <= MAX_MEASURE_LEN
    }

    /// Width: one unit per character of the longest line. Height: one unit
    /// per line, where lines are separated by newline characters.
    open spec fn measure_ens(&self, text: Seq<char>, size: Size) -> bool {
        &&& size.width == MEASURE_UNIT * max_line_len(text)
        &&& size.height == MEASURE_UNIT * line_count(text)
    }

    fn measure_text(&self, text: &str) -> (size: Size) {
        let (max_len, lines) = count_lines(text);
        Size { width: MEASURE_UNIT * (max_len as u32), height: MEASURE_UNIT * (lines as u32) }
    }
}

} // verus!
