//! Shared data shapes every adapter, the runtime and the UI agree on.

use vstd::prelude::*;

verus! {

/// Polarity of a click or stroke: foreground or background hint.
#[derive(Debug, Clone, Copy, PartialEq, Eq, Structural)]
pub enum Polarity {
    Positive,
    Negative,
}

/// The opposite polarity (secondary mouse button uses it).
pub fn opposite(p: Polarity) -> (r: Polarity)
    ensures
        r != p,
        p == Polarity::Positive ==> r == Polarity::Negative,
        p == Polarity::Negative ==> r == Polarity::Positive,
{
    match p {
        Polarity::Positive => Polarity::Negative,
        Polarity::Negative => Polarity::Positive,
    }
}

/// Whole-pixel 2D point `(x, y)`, generic over the coordinate type so the
/// same prompt shapes carry integer test points and floating point clicks.
#[derive(Debug, Clone, Copy, PartialEq)]
pub struct Point2<C> {
    pub x: C,
    pub y: C,
}

impl<C: Copy> Point2<C> {
    pub fn new(x: C, y: C) -> (p: Self)
        ensures
            p.x == x,
            p.y == y,
    {
        Point2 { x, y }
    }
}

/// Axis-aligned bounding box prompt `(x0, y0)`–`(x1, y1)`.
#[derive(Debug, Clone, Copy, PartialEq)]
pub struct BBox<C> {
    pub x0: C,
    pub y0: C,
    pub x1: C,
    pub y1: C,
}

/// One user interaction. Order matters for models that condition on the
/// click history.
#[derive(Debug, Clone, PartialEq)]
pub enum Prompt<C> {
    Click { point: Point2<C>, polarity: Polarity },
    Box(BBox<C>),
    Scribble { points: Vec<Point2<C>>, polarity: Polarity },
}

/// Accumulated user input for one segmentation pass.
#[derive(Debug)]
pub struct PromptSession<C> {
    pub prompts: Vec<Prompt<C>>,
}

impl<C> PromptSession<C> {
    /// An empty session.
    pub fn new() -> (s: Self)
        ensures
            s.prompts@.len() == 0,
    {
        PromptSession { prompts: Vec::new() }
    }

    /// Append a prompt.
    pub fn push(&mut self, prompt: Prompt<C>)
        ensures
            final(self).prompts@ == old(self).prompts@.push(prompt),
    {
        self.prompts.push(prompt);
    }

    /// Drop every prompt.
    pub fn clear(&mut self)
        ensures
            final(self).prompts@.len() == 0,
    {
        self.prompts.clear();
    }

    /// No prompt yet.
    pub fn is_empty(&self) -> (b: bool)
        ensures
            b == (self.prompts@.len() == 0),
    {
        self.prompts.len() == 0
    }
}

/// What kinds of input a segmenter supports.
#[derive(Debug, Clone, Copy, PartialEq, Eq)]
pub struct Capabilities {
    pub positive_clicks: bool,
    pub negative_clicks: bool,
    pub bbox: bool,
    pub scribble: bool,
    /// Whether the model accepts a prior mask / previous logits.
    pub mask_input: bool,
    /// Native input resolution the model was trained for.
    pub recommended_input_size: (u32, u32),
}

impl Capabilities {
    /// Does this segmenter accept any form of click input?
    pub fn supports_clicks(&self) -> (b: bool)
        ensures
            b == (self.positive_clicks || self.negative_clicks),
    {
        self.positive_clicks || self.negative_clicks
    }
}

/// Unified segmentation error.
#[derive(Debug)]
pub enum SegError {
    NoImage,
    UnsupportedPrompt(&'static str),
    InvalidInput(String),
    Backend(String),
    Io(String),
}

/// A grayscale image stored row-major as `u8`.
#[derive(Debug)]
pub struct GrayImage {
    pub width: u32,
    pub height: u32,
    pub data: Vec<u8>,
}

impl GrayImage {
    /// The buffer holds exactly `width * height` pixels.
    pub open spec fn wf(&self) -> bool {
        self.data@.len() == self.height * self.width
    }

    /// Build from a row-major buffer of shape `[height, width]`.
    pub fn from_rows(height: u32, width: u32, data: Vec<u8>) -> (img: Self)
        requires
            data@.len() == height * width,
        ensures
            img.wf(),
            img.width == width,
            img.height == height,
            img.data@ == data@,
    {
        GrayImage { width, height, data }
    }
}

} // verus!

verus! {

/// A binary mask of shape `[height, width]`, stored row-major.
#[derive(Debug)]
pub struct BoolMask {
    pub height: usize,
    pub width: usize,
    pub data: Vec<bool>,
}

impl BoolMask {
    /// The buffer holds exactly `height * width` pixels.
    pub open spec fn wf(&self) -> bool {
        self.data@.len() == self.height * self.width
    }

    /// Pixel `(row, col)`.
    pub open spec fn at(&self, row: int, col: int) -> bool {
        self.data@[row * (self.width as int) + col]
    }

    /// An all-`value` mask of the given shape.
    pub fn filled(height: usize, width: usize, value: bool) -> (m: BoolMask)
        requires
            height * width <= usize::MAX,
        ensures
            m.wf(),
            m.height == height,
            m.width == width,
            forall|i: int| 0 <= i < m.data@.len() ==> m.data@[i] == value,
    {
        let n = height * width;
        let mut data: Vec<bool> = Vec::new();
        let mut i: usize = 0;
        while i < n
            invariant
                i <= n,
                data@.len() == i,
                forall|j: int| 0 <= j < i ==> data@[j] == value,
            decreases n - i,
        {
            data.push(value);
            i = i + 1;
        }
        BoolMask { height, width, data }
    }

    /// Read pixel `(row, col)`.
    pub fn get(&self, row: usize, col: usize) -> (v: bool)
        requires
            self.wf(),
            row < self.height,
            col < self.width,
        ensures
            v == self.at(row as int, col as int),
    {
        let len = self.data.len();
        proof {
            assert(row * self.width + col < self.height * self.width) by (nonlinear_arith)
                requires
                    row < self.height,
                    col < self.width,
            ;
        }
        assert(row * self.width + col < len);
        self.data[row * self.width + col]
    }

    /// Set pixel `(row, col)` to `v`.
    pub fn set(&mut self, row: usize, col: usize, v: bool)
        requires
            old(self).wf(),
            row < old(self).height,
            col < old(self).width,
        ensures
            final(self).wf(),
            final(self).height == old(self).height,
            final(self).width == old(self).width,
            final(self).data@ == old(self).data@.update(row * old(self).width + col, v),
    {
        let len = self.data.len();
        proof {
            assert(row * self.width + col < self.height * self.width) by (nonlinear_arith)
                requires
                    row < self.height,
                    col < self.width,
            ;
        }
        assert(row * self.width + col < len);
        let i = row * self.width + col;
        self.data.set(i, v);
    }
}

} // verus!
