//! Intra prediction.
//!
//! Every intra mode predicts a block from already reconstructed neighbouring
//! samples: the row above, the column to the left, and the corner between them.
//! The nine modes of 4x4 and 8x8 blocks are the same formulas over blocks of
//! different size; 8x8 blocks smooth the neighbouring samples first.
//!
//! Which neighbours are available is for the caller to say.
use vstd::prelude::*;
use super::math::{clip1, clip3, clip_sample, lemma_shr_i32};

verus! {

/// The nine prediction modes of 4x4 and 8x8 blocks.
#[derive(Debug, Clone, Copy, PartialEq, Eq, Structural)]
pub enum IntraNxNMode {
    Vertical,
    Horizontal,
    Dc,
    DiagonalDownLeft,
    DiagonalDownRight,
    VerticalRight,
    HorizontalDown,
    VerticalLeft,
    HorizontalUp,
}

impl IntraNxNMode {
    /// What a mode is called.
    pub open spec fn called(self) -> Seq<char> {
        match self {
            IntraNxNMode::Vertical => "Vertical"@,
            IntraNxNMode::Horizontal => "Horizontal"@,
            IntraNxNMode::Dc => "Dc"@,
            IntraNxNMode::DiagonalDownLeft => "DiagonalDownLeft"@,
            IntraNxNMode::DiagonalDownRight => "DiagonalDownRight"@,
            IntraNxNMode::VerticalRight => "VerticalRight"@,
            IntraNxNMode::HorizontalDown => "HorizontalDown"@,
            IntraNxNMode::VerticalLeft => "VerticalLeft"@,
            IntraNxNMode::HorizontalUp => "HorizontalUp"@,
        }
    }

    /// What a mode is called.
    pub fn name(self) -> (r: &'static str)
        ensures
            r@ == self.called(),
    {
        match self {
            IntraNxNMode::Vertical => "Vertical",
            IntraNxNMode::Horizontal => "Horizontal",
            IntraNxNMode::Dc => "Dc",
            IntraNxNMode::DiagonalDownLeft => "DiagonalDownLeft",
            IntraNxNMode::DiagonalDownRight => "DiagonalDownRight",
            IntraNxNMode::VerticalRight => "VerticalRight",
            IntraNxNMode::HorizontalDown => "HorizontalDown",
            IntraNxNMode::VerticalLeft => "VerticalLeft",
            IntraNxNMode::HorizontalUp => "HorizontalUp",
        }
    }

    /// The number a mode is coded as.
    pub open spec fn id(self) -> int {
        match self {
            IntraNxNMode::Vertical => 0,
            IntraNxNMode::Horizontal => 1,
            IntraNxNMode::Dc => 2,
            IntraNxNMode::DiagonalDownLeft => 3,
            IntraNxNMode::DiagonalDownRight => 4,
            IntraNxNMode::VerticalRight => 5,
            IntraNxNMode::HorizontalDown => 6,
            IntraNxNMode::VerticalLeft => 7,
            IntraNxNMode::HorizontalUp => 8,
        }
    }

    /// The mode a number stands for.
    pub fn from_id(id: u8) -> (mode: Option<Self>)
        ensures
            mode is Some <==> id <= 8,
            mode is Some ==> mode->0.id() == id,
    {
        match id {
            0 => Some(IntraNxNMode::Vertical),
            1 => Some(IntraNxNMode::Horizontal),
            2 => Some(IntraNxNMode::Dc),
            3 => Some(IntraNxNMode::DiagonalDownLeft),
            4 => Some(IntraNxNMode::DiagonalDownRight),
            5 => Some(IntraNxNMode::VerticalRight),
            6 => Some(IntraNxNMode::HorizontalDown),
            7 => Some(IntraNxNMode::VerticalLeft),
            8 => Some(IntraNxNMode::HorizontalUp),
            _ => None,
        }
    }
}

/// The four modes of a whole luma macroblock.
#[derive(Debug, Clone, Copy, PartialEq, Eq, Structural)]
pub enum Intra16x16Mode {
    Vertical,
    Horizontal,
    Dc,
    Plane,
}

impl Intra16x16Mode {
    /// What a mode is called.
    pub open spec fn called(self) -> Seq<char> {
        match self {
            Intra16x16Mode::Vertical => "Vertical"@,
            Intra16x16Mode::Horizontal => "Horizontal"@,
            Intra16x16Mode::Dc => "Dc"@,
            Intra16x16Mode::Plane => "Plane"@,
        }
    }

    /// What a mode is called.
    pub fn name(self) -> (r: &'static str)
        ensures
            r@ == self.called(),
    {
        match self {
            Intra16x16Mode::Vertical => "Vertical",
            Intra16x16Mode::Horizontal => "Horizontal",
            Intra16x16Mode::Dc => "Dc",
            Intra16x16Mode::Plane => "Plane",
        }
    }
}

/// The four chroma modes. Their numbering is not that of [`Intra16x16Mode`].
#[derive(Debug, Clone, Copy, PartialEq, Eq, Structural)]
pub enum IntraChromaMode {
    Dc,
    Horizontal,
    Vertical,
    Plane,
}

impl IntraChromaMode {
    /// What a mode is called.
    pub open spec fn called(self) -> Seq<char> {
        match self {
            IntraChromaMode::Dc => "Dc"@,
            IntraChromaMode::Horizontal => "Horizontal"@,
            IntraChromaMode::Vertical => "Vertical"@,
            IntraChromaMode::Plane => "Plane"@,
        }
    }

    /// What a mode is called.
    pub fn name(self) -> (r: &'static str)
        ensures
            r@ == self.called(),
    {
        match self {
            IntraChromaMode::Dc => "Dc",
            IntraChromaMode::Horizontal => "Horizontal",
            IntraChromaMode::Vertical => "Vertical",
            IntraChromaMode::Plane => "Plane",
        }
    }

    /// The number a mode is coded as.
    pub open spec fn id(self) -> int {
        match self {
            IntraChromaMode::Dc => 0,
            IntraChromaMode::Horizontal => 1,
            IntraChromaMode::Vertical => 2,
            IntraChromaMode::Plane => 3,
        }
    }

    /// The mode a number stands for.
    pub fn from_id(id: u8) -> (mode: Option<Self>)
        ensures
            mode is Some <==> id <= 3,
            mode is Some ==> mode->0.id() == id,
    {
        match id {
            0 => Some(IntraChromaMode::Dc),
            1 => Some(IntraChromaMode::Horizontal),
            2 => Some(IntraChromaMode::Vertical),
            3 => Some(IntraChromaMode::Plane),
            _ => None,
        }
    }
}

/// Neighbouring reconstructed samples, as the caller has them.
///
/// For a block of `N` samples a side `top` may carry `N` samples or `2 * N`:
/// the upper half is the group above and to the right that the diagonal modes
/// read. Where it is absent, the last sample of the row above stands for it.
#[derive(Debug, Clone, Copy)]
pub struct Neighbours<'a> {
    pub top: Option<&'a [u8]>,
    pub left: Option<&'a [u8]>,
    pub top_left: Option<u8>,
}

impl<'a> Default for Neighbours<'a> {
    fn default() -> (n: Self)
        ensures
            n.top is None,
            n.left is None,
            n.top_left is None,
    {
        Neighbours { top: None, left: None, top_left: None }
    }
}

/// Neighbouring samples as a mathematical value.
#[verifier::ext_equal]
pub struct Edges {
    pub top: Option<Seq<u8>>,
    pub left: Option<Seq<u8>>,
    pub top_left: Option<u8>,
}

/// The samples of an edge, if there is one.
pub open spec fn edge_samples(edge: Option<&[u8]>) -> Option<Seq<u8>> {
    match edge {
        Some(s) => Some(s@),
        None => None,
    }
}

impl<'a> View for Neighbours<'a> {
    type V = Edges;

    open spec fn view(&self) -> Edges {
        Edges {
            top: edge_samples(self.top),
            left: edge_samples(self.left),
            top_left: self.top_left,
        }
    }
}

impl Edges {
    /// Whatever edge there is has at least `size` samples.
    pub open spec fn covers(self, size: int) -> bool {
        self.top_covers(size) && self.left_covers(size)
    }

    /// The row above, if there is one, has at least `size` samples.
    pub open spec fn top_covers(self, size: int) -> bool {
        self.top is Some ==> self.top->0.len() >= size
    }

    /// The column to the left, if there is one, has at least `size` samples.
    pub open spec fn left_covers(self, size: int) -> bool {
        self.left is Some ==> self.left->0.len() >= size
    }

    /// Both edges and the corner between them are there.
    pub open spec fn complete(self) -> bool {
        self.top is Some && self.left is Some && self.top_left is Some
    }

    /// Sample `x` of the row above, 0 where there is none.
    pub open spec fn top_at(self, x: int) -> int {
        if self.top is Some {
            self.top->0[x] as int
        } else {
            0
        }
    }

    /// Sample `y` of the column to the left, 0 where there is none.
    pub open spec fn left_at(self, y: int) -> int {
        if self.left is Some {
            self.left->0[y] as int
        } else {
            0
        }
    }
}

impl<'a> Neighbours<'a> {
    fn t(&self, x: usize) -> (v: i32)
        requires
            self@.top_covers(x + 1),
        ensures
            v == self@.top_at(x as int),
            0 <= v <= 255,
    {
        match self.top {
            Some(s) => s[x] as i32,
            None => 0,
        }
    }

    fn l(&self, y: usize) -> (v: i32)
        requires
            self@.left_covers(y + 1),
        ensures
            v == self@.left_at(y as int),
            0 <= v <= 255,
    {
        match self.left {
            Some(s) => s[y] as i32,
            None => 0,
        }
    }
}

/// The samples around a block of `size` samples a side, as one line that runs
/// up the left column, through the corner and along the row above: position 0
/// is the corner, `-1 - y` sample `y` of the left column, `1 + x` sample `x` of
/// the row above. Samples that are not available are 0.
#[verifier::ext_equal]
pub struct Border {
    pub size: int,
    pub line: Seq<u8>,
    pub has_top: bool,
    pub has_left: bool,
    pub has_corner: bool,
}

impl Border {
    /// The sample at a position of the line.
    pub open spec fn at(self, k: int) -> int {
        self.line[self.size + k] as int
    }

    /// Whether the sample at a position is available.
    pub open spec fn has(self, k: int) -> bool {
        if k == 0 {
            self.has_corner
        } else if k > 0 {
            self.has_top && k <= 2 * self.size
        } else {
            self.has_left && -k <= self.size
        }
    }

    /// The sample at a position weighted with its two neighbours.
    pub open spec fn smooth(self, k: int) -> int {
        (self.at(k - 1) + 2 * self.at(k) + self.at(k + 1) + 2) / 4
    }

    /// The rounded mean of the samples at a position and the one after it.
    pub open spec fn mean(self, k: int) -> int {
        (self.at(k) + self.at(k + 1) + 1) / 2
    }

    /// A position's sample smoothed as 8x8 blocks need it: a neighbour that is
    /// not available is replaced by the sample itself.
    pub open spec fn filtered_at(self, k: int) -> int {
        if self.has(k) {
            let before = if self.has(k - 1) {
                self.at(k - 1)
            } else {
                self.at(k)
            };
            let after = if self.has(k + 1) {
                self.at(k + 1)
            } else {
                self.at(k)
            };
            (before + 2 * self.at(k) + after + 2) / 4
        } else {
            self.at(k)
        }
    }

    /// The line with every available sample smoothed.
    pub open spec fn filtered(self) -> Border {
        Border {
            line: Seq::new(
                (3 * self.size + 1) as nat,
                |i: int| self.filtered_at(i - self.size) as u8,
            ),
            ..self
        }
    }

    /// The mean of the edges that are available, mid-grey without any.
    pub open spec fn dc(self) -> int {
        let n = self.size;
        let top = sum(self.line, n + 1, n as nat);
        let left = sum(self.line, 0, n as nat);
        if self.has_top && self.has_left {
            (top + left + n) / (2 * n)
        } else if self.has_top {
            (top + n / 2) / n
        } else if self.has_left {
            (left + n / 2) / n
        } else {
            128
        }
    }
}

/// The sum of `count` samples from position `from` on.
pub open spec fn sum(samples: Seq<u8>, from: int, count: nat) -> int
    decreases count,
{
    if count == 0 {
        0
    } else {
        sum(samples, from, (count - 1) as nat) + samples[from + count - 1]
    }
}

/// The mean of `count` samples that come to `total`, rounded.
fn mean(total: i32, count: i32) -> (r: i32)
    requires
        count == 4 || count == 8 || count == 16,
        0 <= total <= 255 * count,
    ensures
        r == (total + count as int / 2) / (count as int),
        0 <= r <= 255,
{
    if count == 4 {
        (total + 2) / 4
    } else if count == 8 {
        (total + 4) / 8
    } else {
        (total + 8) / 16
    }
}

/// What the caller's samples put at a position of the line.
pub open spec fn border_at(n: Edges, size: int, k: int) -> u8 {
    if k == 0 {
        if n.top_left is Some {
            n.top_left->0
        } else {
            0
        }
    } else if k < 0 {
        n.left_at(-1 - k) as u8
    } else if k <= size || (n.top is Some && n.top->0.len() >= 2 * size) {
        n.top_at(k - 1) as u8
    } else {
        n.top_at(size - 1) as u8
    }
}

/// The line of samples around a block.
pub open spec fn border(n: Edges, size: int) -> Border {
    Border {
        size,
        line: Seq::new((3 * size + 1) as nat, |i: int| border_at(n, size, i - size)),
        has_top: n.top is Some,
        has_left: n.left is Some,
        has_corner: n.top_left is Some,
    }
}

/// Whether a mode has the samples it predicts from. Only [`IntraNxNMode::Dc`]
/// works with any.
pub open spec fn nxn_possible(mode: IntraNxNMode, b: Border) -> bool {
    match mode {
        IntraNxNMode::Dc => true,
        IntraNxNMode::Vertical
        | IntraNxNMode::DiagonalDownLeft
        | IntraNxNMode::VerticalLeft => b.has_top,
        IntraNxNMode::Horizontal | IntraNxNMode::HorizontalUp => b.has_left,
        IntraNxNMode::DiagonalDownRight
        | IntraNxNMode::VerticalRight
        | IntraNxNMode::HorizontalDown => b.has_top && b.has_left && b.has_corner,
    }
}

/// Sample `(x, y)` of a predicted block.
pub open spec fn nxn_sample(mode: IntraNxNMode, b: Border, x: int, y: int) -> int {
    let n = b.size;
    match mode {
        IntraNxNMode::Vertical => b.at(1 + x),
        IntraNxNMode::Horizontal => b.at(-1 - y),
        IntraNxNMode::Dc => b.dc(),
        IntraNxNMode::DiagonalDownLeft => if x == n - 1 && y == n - 1 {
            (b.at(2 * n - 1) + 3 * b.at(2 * n) + 2) / 4
        } else {
            b.smooth(x + y + 2)
        },
        IntraNxNMode::DiagonalDownRight => b.smooth(x - y),
        IntraNxNMode::VerticalRight => {
            let z = 2 * x - y;
            if z < 0 {
                b.smooth(z + 1)
            } else if z % 2 == 0 {
                b.mean(x - y / 2)
            } else {
                b.smooth(x - y / 2)
            }
        },
        IntraNxNMode::HorizontalDown => {
            let z = 2 * y - x;
            if z < 0 {
                b.smooth(-z - 1)
            } else if z % 2 == 0 {
                b.mean(x / 2 - y - 1)
            } else {
                b.smooth(x / 2 - y)
            }
        },
        IntraNxNMode::VerticalLeft => if y % 2 == 0 {
            b.mean(1 + x + y / 2)
        } else {
            b.smooth(2 + x + y / 2)
        },
        IntraNxNMode::HorizontalUp => {
            let z = x + 2 * y;
            if z > 2 * n - 3 {
                b.at(-n)
            } else if z == 2 * n - 3 {
                (b.at(1 - n) + 3 * b.at(-n) + 2) / 4
            } else if z % 2 == 0 {
                b.mean(-2 - (y + x / 2))
            } else {
                b.smooth(-2 - (y + x / 2))
            }
        },
    }
}

/// The samples around a block, laid out as [`Border`] says.
struct Refs {
    size: usize,
    line: [u8; 25],
    has_top: bool,
    has_left: bool,
    has_corner: bool,
}

impl Refs {
    spec fn wf(self) -> bool {
        self.size == 4 || self.size == 8
    }

    spec fn model(self) -> Border {
        Border {
            size: self.size as int,
            line: self.line@.take(3 * self.size + 1),
            has_top: self.has_top,
            has_left: self.has_left,
            has_corner: self.has_corner,
        }
    }

    fn new(n: &Neighbours<'_>, size: usize) -> (refs: Self)
        requires
            size == 4 || size == 8,
            n@.covers(size as int),
        ensures
            refs.wf(),
            refs.model() == border(n@, size as int),
    {
        let mut line: [u8; 25] = [0u8;25];
        let top_right: bool = match n.top {
            Some(top) => top.len() >= 2 * size,
            None => false,
        };
        let len: usize = 3 * size + 1;
        for i in 0..len
            invariant
                size == 4 || size == 8,
                len == 3 * size + 1,
                n@.covers(size as int),
                top_right == (n@.top is Some && n@.top->0.len() >= 2 * size),
                forall|j: int| 0 <= j < i ==> line@[j] == border_at(n@, size as int, j - size),
        {
            line[i] = if i == size {
                match n.top_left {
                    Some(corner) => corner,
                    None => 0,
                }
            } else if i < size {
                n.l(size - 1 - i) as u8
            } else if i <= 2 * size || top_right {
                n.t(i - size - 1) as u8
            } else {
                n.t(size - 1) as u8
            };
        }
        let refs = Refs {
            size,
            line,
            has_top: n.top.is_some(),
            has_left: n.left.is_some(),
            has_corner: n.top_left.is_some(),
        };
        assert(refs.model().line =~= border(n@, size as int).line);
        refs
    }

    /// The sample at a position of the line.
    fn at(&self, k: i32) -> (v: i32)
        requires
            self.wf(),
            -self.size <= k <= 2 * self.size,
        ensures
            v == self.model().at(k as int),
            0 <= v <= 255,
    {
        self.line[(self.size as i32 + k) as usize] as i32
    }

    fn has(&self, k: i32) -> (r: bool)
        requires
            self.wf(),
            -self.size - 1 <= k <= 2 * self.size + 1,
        ensures
            r == self.model().has(k as int),
    {
        if k == 0 {
            self.has_corner
        } else if k > 0 {
            self.has_top && k <= 2 * self.size as i32
        } else {
            self.has_left && -k <= self.size as i32
        }
    }

    fn smooth(&self, k: i32) -> (v: i32)
        requires
            self.wf(),
            -self.size < k < 2 * self.size,
        ensures
            v == self.model().smooth(k as int),
            0 <= v <= 255,
    {
        (self.at(k - 1) + 2 * self.at(k) + self.at(k + 1) + 2) / 4
    }

    fn mean(&self, k: i32) -> (v: i32)
        requires
            self.wf(),
            -self.size <= k < 2 * self.size,
        ensures
            v == self.model().mean(k as int),
            0 <= v <= 255,
    {
        (self.at(k) + self.at(k + 1) + 1) / 2
    }

    /// The reference samples of an 8x8 block: unfiltered ones would show as
    /// edges.
    fn filter_8x8(&self) -> (out: Refs)
        requires
            self.wf(),
            self.size == 8,
        ensures
            out.wf(),
            out.model() == self.model().filtered(),
    {
        let mut line: [u8; 25] = self.line;
        for i in 0..25usize
            invariant
                self.wf(),
                self.size == 8,
                forall|j: int| 0 <= j < i ==> line@[j] == self.model().filtered_at(j - 8) as u8,
        {
            let k: i32 = i as i32 - 8;
            let own: i32 = self.at(k);
            line[i] = if self.has(k) {
                let before: i32 = if self.has(k - 1) {
                    self.at(k - 1)
                } else {
                    own
                };
                let after: i32 = if self.has(k + 1) {
                    self.at(k + 1)
                } else {
                    own
                };
                ((before + 2 * own + after + 2) / 4) as u8
            } else {
                own as u8
            };
        }
        let out = Refs {
            size: self.size,
            line,
            has_top: self.has_top,
            has_left: self.has_left,
            has_corner: self.has_corner,
        };
        assert(out.model().line =~= self.model().filtered().line);
        out
    }

    /// The sum of a block's side of samples from position `from` of the line.
    fn side_sum(&self, from: usize) -> (s: i32)
        requires
            self.wf(),
            from <= 2 * self.size + 1,
        ensures
            s == sum(self.model().line, from as int, self.size as nat),
            0 <= s <= 255 * self.size,
    {
        let mut s: i32 = 0;
        for i in 0..self.size
            invariant
                self.wf(),
                from <= 2 * self.size + 1,
                s == sum(self.model().line, from as int, i as nat),
                0 <= s <= 255 * i,
        {
            assert(self.model().line[from + i] == self.line@[from + i]);
            s = s + self.line[from + i] as i32;
        }
        s
    }

    fn dc(&self) -> (v: i32)
        requires
            self.wf(),
        ensures
            v == self.model().dc(),
            0 <= v <= 255,
    {
        let n: i32 = self.size as i32;
        let top: i32 = self.side_sum(self.size + 1);
        let left: i32 = self.side_sum(0);
        let four: bool = n == 4;
        assert(four ==> 0 <= top <= 1020 && 0 <= left <= 1020);
        assert(!four ==> n == 8 && 0 <= top <= 2040 && 0 <= left <= 2040);
        if self.has_top && self.has_left {
            if four {
                assert(self.model().size == 4);
                mean(top + left, 8)
            } else {
                assert(self.model().size == 8);
                mean(top + left, 16)
            }
        } else if self.has_top {
            if four {
                mean(top, 4)
            } else {
                mean(top, 8)
            }
        } else if self.has_left {
            if four {
                mean(left, 4)
            } else {
                mean(left, 8)
            }
        } else {
            128
        }
    }

    /// One sample of a predicted block; `dc` is the mean of the edges.
    fn sample(&self, mode: IntraNxNMode, dc: i32, x: i32, y: i32) -> (v: i32)
        requires
            self.wf(),
            0 <= x < self.size,
            0 <= y < self.size,
            dc == self.model().dc(),
            0 <= dc <= 255,
        ensures
            v == nxn_sample(mode, self.model(), x as int, y as int),
            0 <= v <= 255,
    {
        let n: i32 = self.size as i32;
        match mode {
            IntraNxNMode::Vertical => self.at(1 + x),
            IntraNxNMode::Horizontal => self.at(-1 - y),
            IntraNxNMode::Dc => dc,
            IntraNxNMode::DiagonalDownLeft => {
                if x == n - 1 && y == n - 1 {
                    (self.at(2 * n - 1) + 3 * self.at(2 * n) + 2) / 4
                } else {
                    self.smooth(x + y + 2)
                }
            },
            IntraNxNMode::DiagonalDownRight => self.smooth(x - y),
            IntraNxNMode::VerticalRight => {
                let z: i32 = 2 * x - y;
                if z < 0 {
                    self.smooth(z + 1)
                } else if z % 2 == 0 {
                    self.mean(x - y / 2)
                } else {
                    self.smooth(x - y / 2)
                }
            },
            IntraNxNMode::HorizontalDown => {
                let z: i32 = 2 * y - x;
                if z < 0 {
                    self.smooth(-z - 1)
                } else if z % 2 == 0 {
                    self.mean(x / 2 - y - 1)
                } else {
                    self.smooth(x / 2 - y)
                }
            },
            IntraNxNMode::VerticalLeft => {
                if y % 2 == 0 {
                    self.mean(1 + x + y / 2)
                } else {
                    self.smooth(2 + x + y / 2)
                }
            },
            IntraNxNMode::HorizontalUp => {
                let z: i32 = x + 2 * y;
                if z > 2 * n - 3 {
                    self.at(-n)
                } else if z == 2 * n - 3 {
                    (self.at(1 - n) + 3 * self.at(-n) + 2) / 4
                } else if z % 2 == 0 {
                    self.mean(-2 - (y + x / 2))
                } else {
                    self.smooth(-2 - (y + x / 2))
                }
            },
        }
    }
}

/// The nine modes, over a block of `r.size` samples a side.
fn predict_nxn(mode: IntraNxNMode, r: &Refs, out: &mut [u8]) -> (ok: bool)
    requires
        r.wf(),
        old(out)@.len() == r.size * r.size,
    ensures
        ok == nxn_possible(mode, r.model()),
        final(out)@.len() == old(out)@.len(),
        ok ==> forall|i: int|
            0 <= i < final(out)@.len() ==> (#[trigger] final(out)@[i]) == nxn_sample(
                mode,
                r.model(),
                i % r.size as int,
                i / r.size as int,
            ),
        !ok ==> final(out)@ == old(out)@,
{
    let ok: bool = match mode {
        IntraNxNMode::Dc => true,
        IntraNxNMode::Vertical
        | IntraNxNMode::DiagonalDownLeft
        | IntraNxNMode::VerticalLeft => r.has_top,
        IntraNxNMode::Horizontal | IntraNxNMode::HorizontalUp => r.has_left,
        IntraNxNMode::DiagonalDownRight
        | IntraNxNMode::VerticalRight
        | IntraNxNMode::HorizontalDown => r.has_top && r.has_left && r.has_corner,
    };
    if !ok {
        return false;
    }
    let n: usize = r.size;
    let dc: i32 = r.dc();
    let len: usize = out.len();
    assert(4 * 4 == 16 && 8 * 8 == 64);
    assert(len == if n == 4 {
        16int
    } else {
        64
    });
    for i in 0..len
        invariant
            r.wf(),
            n == r.size,
            len == if n == 4 {
                16int
            } else {
                64
            },
            out@.len() == len,
            dc == r.model().dc(),
            0 <= dc <= 255,
            forall|j: int|
                0 <= j < i ==> (#[trigger] out@[j]) == nxn_sample(
                    mode,
                    r.model(),
                    j % n as int,
                    j / n as int,
                ),
    {
        assert(i / n < n && i % n < n) by {
            if n == 4 {
                assert(i / 4 < 4);
            } else {
                assert(i / 8 < 8);
            }
        }
        out[i] = r.sample(mode, dc, (i % n) as i32, (i / n) as i32) as u8;
    }
    true
}

/// Predict a 4x4 luma block, in raster order. Writes nothing and returns
/// `false` if the mode needs a neighbour that is not there.
pub fn predict_4x4(mode: IntraNxNMode, n: &Neighbours<'_>, out: &mut [u8; 16]) -> (ok: bool)
    requires
        n@.covers(4),
    ensures
        ok == nxn_possible(mode, border(n@, 4)),
        ok ==> forall|i: int|
            0 <= i < 16 ==> (#[trigger] final(out)@[i]) == nxn_sample(
                mode,
                border(n@, 4),
                i % 4,
                i / 4,
            ),
        !ok ==> final(out)@ == old(out)@,
{
    let refs = Refs::new(n, 4);
    predict_nxn(mode, &refs, out)
}

/// Predict an 8x8 luma block from its smoothed border.
pub fn predict_8x8(mode: IntraNxNMode, n: &Neighbours<'_>, out: &mut [u8; 64]) -> (ok: bool)
    requires
        n@.covers(8),
    ensures
        ok == nxn_possible(mode, border(n@, 8)),
        ok ==> forall|i: int|
            0 <= i < 64 ==> (#[trigger] final(out)@[i]) == nxn_sample(
                mode,
                border(n@, 8).filtered(),
                i % 8,
                i / 8,
            ),
        !ok ==> final(out)@ == old(out)@,
{
    let refs = Refs::new(n, 8);
    let refs = refs.filter_8x8();
    predict_nxn(mode, &refs, out)
}

/// The sum of `count` samples of an edge from position `from` on; 0 where there
/// is no edge.
pub open spec fn edge_sum(edge: Option<Seq<u8>>, from: int, count: nat) -> int {
    if edge is Some {
        sum(edge->0, from, count)
    } else {
        0
    }
}

fn sum_of(edge: Option<&[u8]>, from: usize, count: usize) -> (s: i32)
    requires
        count <= 16,
        from <= 16,
        edge is Some ==> edge->0@.len() >= from + count,
    ensures
        s == edge_sum(edge_samples(edge), from as int, count as nat),
        0 <= s <= 255 * count,
{
    let mut s: i32 = 0;
    if let Some(edge) = edge {
        for i in 0..count
            invariant
                count <= 16,
                from <= 16,
                edge@.len() >= from + count,
                s == sum(edge@, from as int, i as nat),
                0 <= s <= 255 * i,
        {
            s = s + edge[from + i] as i32;
        }
    }
    s
}

/// The rounded mean of `count` samples of each of two edges: of both, of the
/// one there is, or mid-grey.
pub open spec fn mean_of_edges(top: Option<Seq<u8>>, left: Option<Seq<u8>>, x: int, y: int, count: int) -> int {
    let t = edge_sum(top, x, count as nat);
    let l = edge_sum(left, y, count as nat);
    if top is Some && left is Some {
        (t + l + count) / (2 * count)
    } else if top is Some {
        (t + count / 2) / count
    } else if left is Some {
        (l + count / 2) / count
    } else {
        128
    }
}

/// How steeply an edge rises about its middle: differences of samples at equal
/// distances from it, weighted by the distance, the first `k` of them. One step
/// before the edge lies the corner.
pub open spec fn slope(corner: int, edge: Seq<u8>, half: int, k: nat) -> int
    decreases k,
{
    if k == 0 {
        0
    } else {
        let i = k - 1;
        let low = half - 2 - i;
        slope(corner, edge, half, i as nat) + (i + 1) * (edge[half + i] - if low < 0 {
            corner
        } else {
            edge[low] as int
        })
    }
}

fn slope_of(corner: u8, edge: &[u8], half: usize) -> (s: i32)
    requires
        half == 4 || half == 8,
        edge@.len() >= 2 * half,
    ensures
        s == slope(corner as int, edge@, half as int, half as nat),
        -9180 <= s <= 9180,
{
    let mut s: i32 = 0;
    for i in 0..half
        invariant
            half == 4 || half == 8,
            edge@.len() >= 2 * half,
            s == slope(corner as int, edge@, half as int, i as nat),
            -255 * (i * (i + 1) / 2) <= s <= 255 * (i * (i + 1) / 2),
    {
        let low: i32 = if i + 2 <= half {
            edge[half - 2 - i] as i32
        } else {
            corner as i32
        };
        let diff: i32 = edge[half + i] as i32 - low;
        assert(-255 * (i + 1) <= (i + 1) * diff <= 255 * (i + 1)) by (nonlinear_arith)
            requires
                -255 <= diff <= 255,
                0 <= i,
        ;
        assert((i + 1) * (i + 2) / 2 == i * (i + 1) / 2 + (i + 1)) by (nonlinear_arith)
            requires
                0 <= i,
        ;
        assert(i * (i + 1) / 2 <= 28) by (nonlinear_arith)
            requires
                0 <= i <= 7,
        ;
        s = s + (i as i32 + 1) * diff;
    }
    assert(8 * 9 / 2 == 36int && 4 * 5 / 2 == 10int);
    s
}

/// Sample `(x, y)` of the plane through two edges: `weight` scales the slopes,
/// `half` is half the side of the block.
pub open spec fn plane_sample(
    n: Edges,
    half: int,
    weight: int,
    x: int,
    y: int,
) -> int {
    let corner = n.top_left->0 as int;
    let a = 16 * (n.left_at(2 * half - 1) + n.top_at(2 * half - 1));
    let b = (weight * slope(corner, n.top->0, half, half as nat) + 32) / 64;
    let c = (weight * slope(corner, n.left->0, half, half as nat) + 32) / 64;
    clip_sample((a + b * (x - (half - 1)) + c * (y - (half - 1)) + 16) / 32)
}

/// One sample of a plane whose coefficients are known.
fn plane_at(a: i32, b: i32, c: i32, dx: i32, dy: i32) -> (v: u8)
    requires
        0 <= a <= 8160,
        -5000 <= b <= 5000,
        -5000 <= c <= 5000,
        -8 <= dx <= 8,
        -8 <= dy <= 8,
    ensures
        v as int == clip_sample((a + b * dx + c * dy + 16) / 32),
{
    assert(-40000 <= b * dx <= 40000) by (nonlinear_arith)
        requires
            -5000 <= b <= 5000,
            -8 <= dx <= 8,
    ;
    assert(-40000 <= c * dy <= 40000) by (nonlinear_arith)
        requires
            -5000 <= c <= 5000,
            -8 <= dy <= 8,
    ;
    let p: i32 = a + b * dx + c * dy + 16;
    proof {
        lemma_shr_i32(p);
    }
    clip1(p >> 5)
}

/// Whether a mode has the edges it predicts from.
pub open spec fn mb_possible(mode: Intra16x16Mode, n: Edges) -> bool {
    match mode {
        Intra16x16Mode::Vertical => n.top is Some,
        Intra16x16Mode::Horizontal => n.left is Some,
        Intra16x16Mode::Dc => true,
        Intra16x16Mode::Plane => n.complete(),
    }
}

/// The edges a mode reads have at least `size` samples.
pub open spec fn mb_covered(mode: Intra16x16Mode, n: Edges, size: int) -> bool {
    match mode {
        Intra16x16Mode::Vertical => n.top_covers(size),
        Intra16x16Mode::Horizontal => n.left_covers(size),
        Intra16x16Mode::Dc => n.covers(size),
        Intra16x16Mode::Plane => n.complete() ==> n.covers(size),
    }
}

/// Sample `(x, y)` of a predicted luma macroblock.
pub open spec fn mb_sample(mode: Intra16x16Mode, n: Edges, x: int, y: int) -> int {
    match mode {
        Intra16x16Mode::Vertical => n.top_at(x),
        Intra16x16Mode::Horizontal => n.left_at(y),
        Intra16x16Mode::Dc => mean_of_edges(n.top, n.left, 0, 0, 16),
        Intra16x16Mode::Plane => plane_sample(n, 8, 5, x, y),
    }
}

/// Predict a 16x16 luma macroblock, in raster order. Writes nothing and returns
/// `false` if the mode needs an edge that is not there.
pub fn predict_16x16(mode: Intra16x16Mode, n: &Neighbours<'_>, out: &mut [u8; 256]) -> (ok: bool)
    requires
        mb_covered(mode, n@, 16),
    ensures
        ok == mb_possible(mode, n@),
        ok ==> forall|i: int|
            0 <= i < 256 ==> (#[trigger] final(out)@[i]) == mb_sample(mode, n@, i % 16, i / 16),
        !ok ==> final(out)@ == old(out)@,
{
    match mode {
        Intra16x16Mode::Vertical => {
            let Some(top) = n.top else {
                return false;
            };
            for i in 0..256usize
                invariant
                    n.top == Some(top),
                    top@.len() >= 16,
                    forall|j: int| 0 <= j < i ==> (#[trigger] out@[j]) == n@.top_at(j % 16),
            {
                out[i] = top[i % 16];
            }
        },
        Intra16x16Mode::Horizontal => {
            let Some(left) = n.left else {
                return false;
            };
            for i in 0..256usize
                invariant
                    n.left == Some(left),
                    left@.len() >= 16,
                    forall|j: int| 0 <= j < i ==> (#[trigger] out@[j]) == n@.left_at(j / 16),
            {
                out[i] = left[i / 16];
            }
        },
        Intra16x16Mode::Dc => {
            let top: i32 = sum_of(n.top, 0, 16);
            let left: i32 = sum_of(n.left, 0, 16);
            let dc: i32 = if n.top.is_some() && n.left.is_some() {
                (top + left + 16) / 32
            } else if n.top.is_some() {
                (top + 8) / 16
            } else if n.left.is_some() {
                (left + 8) / 16
            } else {
                128
            };
            for i in 0..256usize
                invariant
                    dc == mean_of_edges(n@.top, n@.left, 0, 0, 16),
                    0 <= dc <= 255,
                    forall|j: int| 0 <= j < i ==> (#[trigger] out@[j]) == dc,
            {
                out[i] = dc as u8;
            }
        },
        Intra16x16Mode::Plane => {
            let (Some(top), Some(left), Some(corner)) = (n.top, n.left, n.top_left) else {
                return false;
            };
            let h: i32 = slope_of(corner, top, 8);
            let v: i32 = slope_of(corner, left, 8);
            let a: i32 = 16 * (left[15] as i32 + top[15] as i32);
            proof {
                lemma_shr_i32((5 * h + 32) as i32);
                lemma_shr_i32((5 * v + 32) as i32);
            }
            let b: i32 = (5 * h + 32) >> 6;
            let c: i32 = (5 * v + 32) >> 6;
            for i in 0..256usize
                invariant
                    n@.complete(),
                    0 <= a <= 8160,
                    -5000 <= b <= 5000,
                    -5000 <= c <= 5000,
                    a == 16 * (n@.left_at(15) + n@.top_at(15)),
                    b == (5 * slope(n@.top_left->0 as int, n@.top->0, 8, 8) + 32) / 64,
                    c == (5 * slope(n@.top_left->0 as int, n@.left->0, 8, 8) + 32) / 64,
                    forall|j: int|
                        0 <= j < i ==> (#[trigger] out@[j]) == plane_sample(
                            n@,
                            8,
                            5,
                            j % 16,
                            j / 16,
                        ),
            {
                out[i] = plane_at(a, b, c, (i % 16) as i32 - 7, (i / 16) as i32 - 7);
            }
        },
    }
    true
}

/// Whether a chroma mode has the edges it predicts from.
pub open spec fn chroma_possible(mode: IntraChromaMode, n: Edges) -> bool {
    match mode {
        IntraChromaMode::Vertical => n.top is Some,
        IntraChromaMode::Horizontal => n.left is Some,
        IntraChromaMode::Dc => true,
        IntraChromaMode::Plane => n.complete(),
    }
}

/// The edges a chroma mode reads have at least `size` samples.
pub open spec fn chroma_covered(mode: IntraChromaMode, n: Edges, size: int) -> bool {
    match mode {
        IntraChromaMode::Vertical => n.top_covers(size),
        IntraChromaMode::Horizontal => n.left_covers(size),
        IntraChromaMode::Dc => n.covers(size),
        IntraChromaMode::Plane => n.complete() ==> n.covers(size),
    }
}

/// The mean of a 4x4 part of a chroma block whose corner is at `(bx, by)`. The
/// parts on the diagonal average both edges; the others take the edge they
/// touch and only fall back to the other.
pub open spec fn chroma_dc(n: Edges, bx: int, by: int) -> int {
    let top = if bx == 0 && by > 0 && n.left is Some {
        None
    } else {
        n.top
    };
    let left = if bx > 0 && by == 0 && n.top is Some {
        None
    } else {
        n.left
    };
    mean_of_edges(top, left, bx, by, 4)
}

/// Sample `(x, y)` of a predicted chroma block.
pub open spec fn chroma_sample(mode: IntraChromaMode, n: Edges, x: int, y: int) -> int {
    match mode {
        IntraChromaMode::Vertical => n.top_at(x),
        IntraChromaMode::Horizontal => n.left_at(y),
        IntraChromaMode::Dc => chroma_dc(n, 4 * (x / 4), 4 * (y / 4)),
        IntraChromaMode::Plane => plane_sample(n, 4, 34, x, y),
    }
}

fn chroma_mean(n: &Neighbours<'_>, bx: usize, by: usize) -> (dc: u8)
    requires
        n@.covers(8),
        bx == 0 || bx == 4,
        by == 0 || by == 4,
    ensures
        dc as int == chroma_dc(n@, bx as int, by as int),
{
    let top: i32 = sum_of(n.top, bx, 4);
    let left: i32 = sum_of(n.left, by, 4);
    let use_top: bool = n.top.is_some() && !(bx == 0 && by > 0 && n.left.is_some());
    let use_left: bool = n.left.is_some() && !(bx > 0 && by == 0 && n.top.is_some());
    if use_top && use_left {
        ((top + left + 4) / 8) as u8
    } else if use_top {
        ((top + 2) / 4) as u8
    } else if use_left {
        ((left + 2) / 4) as u8
    } else {
        128
    }
}

/// Predict one 8x8 chroma plane, in raster order. Writes nothing and returns
/// `false` if the mode needs an edge that is not there.
pub fn predict_chroma_8x8(mode: IntraChromaMode, n: &Neighbours<'_>, out: &mut [u8; 64]) -> (ok:
    bool)
    requires
        chroma_covered(mode, n@, 8),
    ensures
        ok == chroma_possible(mode, n@),
        ok ==> forall|i: int|
            0 <= i < 64 ==> (#[trigger] final(out)@[i]) == chroma_sample(mode, n@, i % 8, i / 8),
        !ok ==> final(out)@ == old(out)@,
{
    match mode {
        IntraChromaMode::Vertical => {
            let Some(top) = n.top else {
                return false;
            };
            for i in 0..64usize
                invariant
                    n.top == Some(top),
                    top@.len() >= 8,
                    forall|j: int| 0 <= j < i ==> (#[trigger] out@[j]) == n@.top_at(j % 8),
            {
                out[i] = top[i % 8];
            }
        },
        IntraChromaMode::Horizontal => {
            let Some(left) = n.left else {
                return false;
            };
            for i in 0..64usize
                invariant
                    n.left == Some(left),
                    left@.len() >= 8,
                    forall|j: int| 0 <= j < i ==> (#[trigger] out@[j]) == n@.left_at(j / 8),
            {
                out[i] = left[i / 8];
            }
        },
        IntraChromaMode::Dc => {
            let dc: [u8; 4] = [
                chroma_mean(n, 0, 0),
                chroma_mean(n, 4, 0),
                chroma_mean(n, 0, 4),
                chroma_mean(n, 4, 4),
            ];
            for i in 0..64usize
                invariant
                    dc@[0] == chroma_dc(n@, 0, 0),
                    dc@[1] == chroma_dc(n@, 4, 0),
                    dc@[2] == chroma_dc(n@, 0, 4),
                    dc@[3] == chroma_dc(n@, 4, 4),
                    forall|j: int|
                        0 <= j < i ==> (#[trigger] out@[j]) == chroma_sample(
                            IntraChromaMode::Dc,
                            n@,
                            j % 8,
                            j / 8,
                        ),
            {
                let part: usize = 2 * (i / 32) + (i % 8) / 4;
                assert(i / 32 == (i / 8) / 4);
                out[i] = dc[part];
            }
        },
        IntraChromaMode::Plane => {
            let (Some(top), Some(left), Some(corner)) = (n.top, n.left, n.top_left) else {
                return false;
            };
            let h: i32 = slope_of(corner, top, 4);
            let v: i32 = slope_of(corner, left, 4);
            let a: i32 = 16 * (left[7] as i32 + top[7] as i32);
            proof {
                lemma_shr_i32((34 * h + 32) as i32);
                lemma_shr_i32((34 * v + 32) as i32);
            }
            let b: i32 = (34 * h + 32) >> 6;
            let c: i32 = (34 * v + 32) >> 6;
            for i in 0..64usize
                invariant
                    n@.complete(),
                    0 <= a <= 8160,
                    -5000 <= b <= 5000,
                    -5000 <= c <= 5000,
                    a == 16 * (n@.left_at(7) + n@.top_at(7)),
                    b == (34 * slope(n@.top_left->0 as int, n@.top->0, 4, 4) + 32) / 64,
                    c == (34 * slope(n@.top_left->0 as int, n@.left->0, 4, 4) + 32) / 64,
                    forall|j: int|
                        0 <= j < i ==> (#[trigger] out@[j]) == plane_sample(
                            n@,
                            4,
                            34,
                            j % 8,
                            j / 8,
                        ),
            {
                out[i] = plane_at(a, b, c, (i % 8) as i32 - 3, (i / 8) as i32 - 3);
            }
        },
    }
    true
}

/// Every sample the caller supplies is `v`.
pub open spec fn flat(n: Edges, v: u8) -> bool {
    &&& n.top is Some ==> forall|i: int| 0 <= i < n.top->0.len() ==> n.top->0[i] == v
    &&& n.left is Some ==> forall|i: int| 0 <= i < n.left->0.len() ==> n.left->0[i] == v
    &&& n.top_left is Some ==> n.top_left->0 == v
}

proof fn lemma_flat_sum(samples: Seq<u8>, from: int, count: nat, v: u8)
    requires
        forall|i: int| from <= i < from + count ==> samples[i] == v,
    ensures
        sum(samples, from, count) == count * v,
    decreases count,
{
    if count > 0 {
        lemma_flat_sum(samples, from, (count - 1) as nat, v);
        assert(count * v == (count - 1) * v + v) by (nonlinear_arith);
    } else {
        assert(count * v == 0) by (nonlinear_arith)
            requires
                count == 0,
        ;
    }
}

proof fn lemma_flat_slope(corner: int, edge: Seq<u8>, half: int, k: nat, v: u8)
    requires
        corner == v,
        0 <= k <= half,
        edge.len() >= 2 * half,
        forall|i: int| 0 <= i < edge.len() ==> edge[i] == v,
    ensures
        slope(corner, edge, half, k) == 0,
    decreases k,
{
    if k > 0 {
        lemma_flat_slope(corner, edge, half, (k - 1) as nat, v);
        let i = k - 1;
        let low = half - 2 - i;
        let diff = edge[half + i] - if low < 0 {
            corner
        } else {
            edge[low] as int
        };
        assert(diff == 0);
        assert((i + 1) * diff == 0) by (nonlinear_arith)
            requires
                diff == 0,
        ;
    }
}

/// Flat neighbours give a flat 4x4 or 8x8 prediction, whatever the mode, as
/// soon as the mode has anything to predict from.
pub proof fn law_flat_neighbours_predict_flat_nxn(
    mode: IntraNxNMode,
    n: Edges,
    size: int,
    v: u8,
    x: int,
    y: int,
)
    requires
        size == 4 || size == 8,
        n.covers(size),
        flat(n, v),
        nxn_possible(mode, border(n, size)),
        n.top is Some || n.left is Some,
        0 <= x < size,
        0 <= y < size,
    ensures
        nxn_sample(mode, border(n, size), x, y) == v,
        size == 8 ==> nxn_sample(mode, border(n, size).filtered(), x, y) == v,
{
    let b = border(n, size);
    let f = b.filtered();
    assert forall|k: int| -size <= k <= 2 * size && #[trigger] b.has(k) implies b.at(k) == v by {}
    assert forall|k: int| -size <= k <= 2 * size && #[trigger] b.has(k) implies f.at(k) == v by {
        assert(b.has(k - 1) ==> -size <= k - 1);
        assert(b.has(k + 1) ==> k + 1 <= 2 * size);
        assert(b.at(k) == v);
    }
    lemma_flat_border(mode, b, v, x, y);
    if size == 8 {
        assert forall|k: int| -size <= k <= 2 * size && #[trigger] f.has(k) implies f.at(k)
            == v by {
            assert(b.has(k));
        }
        lemma_flat_border(mode, f, v, x, y);
    }
}

proof fn lemma_flat_border(mode: IntraNxNMode, b: Border, v: u8, x: int, y: int)
    requires
        b.size == 4 || b.size == 8,
        b.line.len() == 3 * b.size + 1,
        forall|k: int| -b.size <= k <= 2 * b.size && #[trigger] b.has(k) ==> b.at(k) == v,
        nxn_possible(mode, b),
        b.has_top || b.has_left,
        0 <= x < b.size,
        0 <= y < b.size,
    ensures
        nxn_sample(mode, b, x, y) == v,
{
    let n = b.size;
    if mode is Dc {
        if b.has_top {
            assert forall|i: int| n + 1 <= i < 2 * n + 1 implies b.line[i] == v by {
                assert(b.has(i - n));
                assert(b.at(i - n) == v);
            }
            lemma_flat_sum(b.line, n + 1, n as nat, v);
        }
        if b.has_left {
            assert forall|i: int| 0 <= i < n implies b.line[i] == v by {
                assert(b.has(i - n));
                assert(b.at(i - n) == v);
            }
            lemma_flat_sum(b.line, 0, n as nat, v);
        }
    } else {
        assert forall|k: int|
            -n <= k <= 2 * n && (b.has_top || k <= 0) && (b.has_left || k >= 0) && (b.has_corner
                || k != 0) implies #[trigger] b.at(k) == v by {
            assert(b.has(k));
        }
    }
}

proof fn lemma_flat_mean(
    top: Option<Seq<u8>>,
    left: Option<Seq<u8>>,
    x: int,
    y: int,
    count: int,
    v: u8,
)
    requires
        count == 4 || count == 16,
        top is Some ==> edge_sum(top, x, count as nat) == count * v,
        left is Some ==> edge_sum(left, y, count as nat) == count * v,
    ensures
        top is Some || left is Some ==> mean_of_edges(top, left, x, y, count) == v,
{
    if count == 4 {
        assert(count * v == 4 * v);
        assert((4 * v + 4 * v + 4) / 8 == v && (4 * v + 2) / 4 == v);
    } else {
        assert(count * v == 16 * v);
        assert((16 * v + 16 * v + 16) / 32 == v && (16 * v + 8) / 16 == v);
    }
}

proof fn lemma_flat_plane(n: Edges, half: int, weight: int, x: int, y: int, v: u8)
    requires
        half > 0,
        n.complete(),
        n.covers(2 * half),
        flat(n, v),
    ensures
        plane_sample(n, half, weight, x, y) == v,
{
    lemma_flat_slope(v as int, n.top->0, half, half as nat, v);
    lemma_flat_slope(v as int, n.left->0, half, half as nat, v);
    assert(weight * 0 == 0);
    let dx = x - (half - 1);
    let dy = y - (half - 1);
    let flat_slope = (weight * 0 + 32) / 64;
    assert(flat_slope == 0);
    assert(flat_slope * dx == 0 && flat_slope * dy == 0) by (nonlinear_arith)
        requires
            flat_slope == 0,
    ;
}

/// Flat neighbours give a flat macroblock, whatever the mode, as soon as the mode
/// has anything to predict from.
pub proof fn law_flat_neighbours_predict_a_flat_macroblock(
    mode: Intra16x16Mode,
    n: Edges,
    v: u8,
    x: int,
    y: int,
)
    requires
        n.covers(16),
        flat(n, v),
        mb_possible(mode, n),
        n.top is Some || n.left is Some,
        0 <= x < 16,
        0 <= y < 16,
    ensures
        mb_sample(mode, n, x, y) == v,
{
    if mode is Dc {
        if n.top is Some {
            lemma_flat_sum(n.top->0, 0, 16, v);
        }
        if n.left is Some {
            lemma_flat_sum(n.left->0, 0, 16, v);
        }
        lemma_flat_mean(n.top, n.left, 0, 0, 16, v);
    }
    if mode is Plane {
        lemma_flat_plane(n, 8, 5, x, y, v);
    }
}

/// Flat neighbours give a flat chroma block, whatever the mode, as soon as the
/// mode has anything to predict from.
pub proof fn law_flat_neighbours_predict_a_flat_chroma_block(
    mode: IntraChromaMode,
    n: Edges,
    v: u8,
    x: int,
    y: int,
)
    requires
        n.covers(8),
        flat(n, v),
        chroma_possible(mode, n),
        n.top is Some || n.left is Some,
        0 <= x < 8,
        0 <= y < 8,
    ensures
        chroma_sample(mode, n, x, y) == v,
{
    if mode is Dc {
        if n.top is Some {
            lemma_flat_sum(n.top->0, 4 * (x / 4), 4, v);
        }
        if n.left is Some {
            lemma_flat_sum(n.left->0, 4 * (y / 4), 4, v);
        }
        lemma_flat_mean(n.top, n.left, 4 * (x / 4), 4 * (y / 4), 4, v);
        lemma_flat_mean(None, n.left, 4 * (x / 4), 4 * (y / 4), 4, v);
        lemma_flat_mean(n.top, None, 4 * (x / 4), 4 * (y / 4), 4, v);
    }
    if mode is Plane {
        lemma_flat_plane(n, 4, 34, x, y, v);
    }
}

// ---- What the modes do ------------------------------------------------------

/// Edges with everything a block of a size can use: the row above and as much
/// again to the right of it, the column to the left, and the corner.
pub open spec fn whole_edges(n: Edges, size: int) -> bool {
    &&& size == 4 || size == 8
    &&& n.top is Some && n.top->0.len() >= 2 * size
    &&& n.left is Some && n.left->0.len() >= size
    &&& n.top_left is Some
}

/// Three samples in a row, the middle one counted twice, as a rounded mean.
pub open spec fn weighed(a: u8, b: u8, c: u8) -> int {
    (a + 2 * b + c + 2) / 4
}

/// Two samples as a rounded mean.
pub open spec fn halved(a: u8, b: u8) -> int {
    (a + b + 1) / 2
}

/// The modes by their numbers.
pub proof fn law_modes_by_number(mode: IntraNxNMode, chroma: IntraChromaMode)
    ensures
        mode.id() == 0 <==> mode == IntraNxNMode::Vertical,
        mode.id() == 1 <==> mode == IntraNxNMode::Horizontal,
        mode.id() == 2 <==> mode == IntraNxNMode::Dc,
        mode.id() == 3 <==> mode == IntraNxNMode::DiagonalDownLeft,
        mode.id() == 4 <==> mode == IntraNxNMode::DiagonalDownRight,
        mode.id() == 5 <==> mode == IntraNxNMode::VerticalRight,
        mode.id() == 6 <==> mode == IntraNxNMode::HorizontalDown,
        mode.id() == 7 <==> mode == IntraNxNMode::VerticalLeft,
        mode.id() == 8 <==> mode == IntraNxNMode::HorizontalUp,
        chroma.id() == 0 <==> chroma == IntraChromaMode::Dc,
        chroma.id() == 1 <==> chroma == IntraChromaMode::Horizontal,
        chroma.id() == 2 <==> chroma == IntraChromaMode::Vertical,
        chroma.id() == 3 <==> chroma == IntraChromaMode::Plane,
{
}

/// Vertical prediction repeats the row above in every row, horizontal prediction
/// the column to the left in every column, whatever the size of the block.
pub proof fn law_straight_modes_repeat_an_edge(n: Edges, size: int, x: int, y: int)
    requires
        size == 4 || size == 8,
        n.top is Some && n.top->0.len() >= size,
        n.left is Some && n.left->0.len() >= size,
        0 <= x < size,
        0 <= y < size,
    ensures
        nxn_sample(IntraNxNMode::Vertical, border(n, size), x, y) == n.top->0[x],
        nxn_sample(IntraNxNMode::Horizontal, border(n, size), x, y) == n.left->0[y],
        chroma_sample(IntraChromaMode::Vertical, n, x, y) == n.top->0[x],
        chroma_sample(IntraChromaMode::Horizontal, n, x, y) == n.left->0[y],
        mb_sample(Intra16x16Mode::Vertical, n, x, y) == n.top->0[x],
        mb_sample(Intra16x16Mode::Horizontal, n, x, y) == n.left->0[y],
{
}

/// The same of a whole macroblock.
pub proof fn law_straight_modes_repeat_a_macroblock_edge(n: Edges, x: int, y: int)
    requires
        n.top is Some && n.top->0.len() >= 16,
        n.left is Some && n.left->0.len() >= 16,
        0 <= x < 16,
        0 <= y < 16,
    ensures
        mb_sample(Intra16x16Mode::Vertical, n, x, y) == n.top->0[x],
        mb_sample(Intra16x16Mode::Horizontal, n, x, y) == n.left->0[y],
{
}

/// Down to the left, a sample is three of the row above, as far to the right as
/// the sample is right and down; the end of the row is repeated.
pub proof fn law_down_left_follows_the_diagonal(n: Edges, size: int, x: int, y: int)
    requires
        whole_edges(n, size),
        0 <= x < size,
        0 <= y < size,
    ensures
        ({
            let t = n.top->0;
            let k = x + y;
            nxn_sample(IntraNxNMode::DiagonalDownLeft, border(n, size), x, y) == weighed(
                t[k],
                t[k + 1],
                t[if k + 2 < 2 * size {
                    k + 2
                } else {
                    k + 1
                }],
            )
        }),
{
}

/// Down to the right, a sample is three of the edge where the diagonal through it
/// meets it: of the row above, of the column to the left, or around the corner.
pub proof fn law_down_right_follows_the_diagonal(n: Edges, size: int, x: int, y: int)
    requires
        whole_edges(n, size),
        0 <= x < size,
        0 <= y < size,
    ensures
        ({
            let (t, l, corner) = (n.top->0, n.left->0, n.top_left->0);
            let k = if x > y {
                x - y
            } else {
                y - x
            };
            nxn_sample(IntraNxNMode::DiagonalDownRight, border(n, size), x, y) == (if x == y {
                weighed(l[0], corner, t[0])
            } else if x > y {
                weighed(if k == 1 {
                    corner
                } else {
                    t[k - 2]
                }, t[k - 1], t[k])
            } else {
                weighed(if k == 1 {
                    corner
                } else {
                    l[k - 2]
                }, l[k - 1], l[k])
            })
        }),
{
}

/// Steeply to the right: every second row down moves one to the left along the
/// row above, means of two and of three taking turns; what would begin left of
/// the corner comes from the column to the left.
pub proof fn law_vertical_right_is_steep(n: Edges, size: int, x: int, y: int)
    requires
        whole_edges(n, size),
        0 <= x < size,
        0 <= y < size,
    ensures
        ({
            let (t, l, corner) = (n.top->0, n.left->0, n.top_left->0);
            let k = x - y / 2;
            let back = y - 2 * x;
            nxn_sample(IntraNxNMode::VerticalRight, border(n, size), x, y) == (if back > 1 {
                weighed(if back == 2 {
                    corner
                } else {
                    l[back - 3]
                }, l[back - 2], l[back - 1])
            } else if back == 1 {
                weighed(l[0], corner, t[0])
            } else if y % 2 == 0 {
                halved(if k == 0 {
                    corner
                } else {
                    t[k - 1]
                }, t[k])
            } else if k == 1 {
                weighed(corner, t[0], t[1])
            } else {
                weighed(t[k - 2], t[k - 1], t[k])
            })
        }),
{
}

/// Flat to the right is steep to the right with the edges exchanged.
pub proof fn law_horizontal_down_mirrors_vertical_right(
    n: Edges,
    m: Edges,
    size: int,
    x: int,
    y: int,
)
    requires
        whole_edges(n, size),
        whole_edges(m, size),
        m.top_left == n.top_left,
        forall|i: int| 0 <= i < size ==> (#[trigger] m.top->0[i]) == n.left->0[i],
        forall|i: int| 0 <= i < size ==> (#[trigger] m.left->0[i]) == n.top->0[i],
        0 <= x < size,
        0 <= y < size,
    ensures
        nxn_sample(IntraNxNMode::HorizontalDown, border(n, size), x, y) == nxn_sample(
            IntraNxNMode::VerticalRight,
            border(m, size),
            y,
            x,
        ),
{
    assert forall|k: int| -size <= k <= size implies #[trigger] border_at(n, size, k) == border_at(
        m,
        size,
        -k,
    ) by {
        if k > 0 {
            assert(m.left->0[k - 1] == n.top->0[k - 1]);
        } else if k < 0 {
            assert(m.top->0[-k - 1] == n.left->0[-k - 1]);
        }
    }
    let (b, d) = (border(n, size), border(m, size));
    assert forall|k: int| -size <= k <= size implies #[trigger] b.at(k) == d.at(-k) by {
        assert(border_at(n, size, k) == border_at(m, size, -k));
    }
    let z = 2 * y - x;
    if z < 0 {
        assert(b.at(-z - 2) == d.at(z + 2));
        assert(b.at(-z - 1) == d.at(z + 1));
        assert(b.at(-z) == d.at(z));
    } else {
        let k = x / 2 - y;
        assert(b.at(k - 1) == d.at(1 - k));
        assert(b.at(k) == d.at(-k));
        assert(b.at(k + 1) == d.at(-k - 1));
    }
}

/// Steeply to the left: every second row down moves one to the right along the
/// row above, means of two and of three taking turns.
pub proof fn law_vertical_left_is_steep(n: Edges, size: int, x: int, y: int)
    requires
        whole_edges(n, size),
        0 <= x < size,
        0 <= y < size,
    ensures
        ({
            let t = n.top->0;
            let k = x + y / 2;
            nxn_sample(IntraNxNMode::VerticalLeft, border(n, size), x, y) == (if y % 2 == 0 {
                halved(t[k], t[k + 1])
            } else {
                weighed(t[k], t[k + 1], t[k + 2])
            })
        }),
{
}

/// Flat upwards: every second column to the right moves one down along the column
/// to the left, means of two and of three taking turns; the end of the column is
/// repeated.
pub proof fn law_horizontal_up_is_flat(n: Edges, size: int, x: int, y: int)
    requires
        whole_edges(n, size),
        0 <= x < size,
        0 <= y < size,
    ensures
        ({
            let l = n.left->0;
            let end = |k: int|
                l[if k < size {
                    k
                } else {
                    size - 1
                }];
            let k = y + x / 2;
            nxn_sample(IntraNxNMode::HorizontalUp, border(n, size), x, y) == (if x % 2 == 0 {
                halved(end(k), end(k + 1))
            } else {
                weighed(end(k), end(k + 1), end(k + 2))
            })
        }),
{
}

/// Where nothing is to the right of the row above, its last sample is taken
/// there.
pub proof fn law_short_rows_are_continued(n: Edges, m: Edges, size: int, mode: IntraNxNMode, x: int, y: int)
    requires
        size == 4 || size == 8,
        n.top is Some && n.top->0.len() == size,
        m.top is Some && m.top->0.len() == 2 * size,
        forall|i: int|
            0 <= i < 2 * size ==> (#[trigger] m.top->0[i]) == n.top->0[if i < size {
                i
            } else {
                size - 1
            }],
        m.left == n.left,
        m.top_left == n.top_left,
    ensures
        nxn_sample(mode, border(n, size), x, y) == nxn_sample(mode, border(m, size), x, y),
{
    assert(border(n, size).line =~= border(m, size).line);
}

/// Without direction, every sample is the mean of the edges that are there,
/// rounded to the nearest and up from the middle, and grey without any.
pub proof fn law_dc_is_the_mean_of_the_edges(n: Edges, size: int, x: int, y: int)
    requires
        size == 4 || size == 8,
        n.top is Some ==> n.top->0.len() >= size,
        n.left is Some ==> n.left->0.len() >= size,
    ensures
        ({
            let r = nxn_sample(IntraNxNMode::Dc, border(n, size), x, y);
            let t = sum(n.top->0, 0, size as nat);
            let l = sum(n.left->0, 0, size as nat);
            &&& n.top is Some && n.left is Some ==> is_mean(r, t + l, 2 * size)
            &&& n.top is Some && n.left is None ==> is_mean(r, t, size)
            &&& n.top is None && n.left is Some ==> is_mean(r, l, size)
            &&& n.top is None && n.left is None ==> r == 128
        }),
{
    let b = border(n, size);
    if n.top is Some {
        lemma_same_sum(b.line, size + 1, n.top->0, 0, size as nat);
    }
    if n.left is Some {
        lemma_mirrored_sum(b.line, n.left->0, size, size as nat);
    }
    lemma_mean();
}

/// The rounded mean of `count` numbers that add up to `total`.
pub open spec fn is_mean(r: int, total: int, count: int) -> bool {
    2 * count * r - count <= 2 * total < 2 * count * r + count
}

proof fn lemma_mean()
    ensures
        forall|t: int| #[trigger] is_mean((t + 4) / 8, t, 8),
        forall|t: int| #[trigger] is_mean((t + 2) / 4, t, 4),
        forall|t: int| #[trigger] is_mean((t + 8) / 16, t, 16),
        forall|t: int| #[trigger] is_mean((t + 16) / 32, t, 32),
{
    assert forall|t: int| #[trigger] is_mean((t + 4) / 8, t, 8) by {
        lemma_one_mean((t + 4) / 8, t, 8);
    }
    assert forall|t: int| #[trigger] is_mean((t + 2) / 4, t, 4) by {
        lemma_one_mean((t + 2) / 4, t, 4);
    }
    assert forall|t: int| #[trigger] is_mean((t + 8) / 16, t, 16) by {
        lemma_one_mean((t + 8) / 16, t, 16);
    }
    assert forall|t: int| #[trigger] is_mean((t + 16) / 32, t, 32) by {
        lemma_one_mean((t + 16) / 32, t, 32);
    }
}

proof fn lemma_one_mean(r: int, t: int, count: int)
    by (nonlinear_arith)
    requires
        count * r <= t + count / 2 < count * r + count,
        count == 4 || count == 8 || count == 16 || count == 32,
    ensures
        is_mean(r, t, count),
{
}

proof fn lemma_same_sum(a: Seq<u8>, i: int, b: Seq<u8>, j: int, count: nat)
    requires
        forall|k: int| 0 <= k < count ==> (#[trigger] a[i + k]) == b[j + k],
    ensures
        sum(a, i, count) == sum(b, j, count),
    decreases count,
{
    if count > 0 {
        lemma_same_sum(a, i, b, j, (count - 1) as nat);
        assert(a[i + (count - 1)] == b[j + (count - 1)]);
    }
}

/// The same samples the other way round add up to the same.
proof fn lemma_mirrored_sum(a: Seq<u8>, b: Seq<u8>, size: int, count: nat)
    requires
        count <= size,
        size == 4 || size == 8,
        count == size,
        forall|k: int| 0 <= k < size ==> (#[trigger] a[k]) == b[size - 1 - k],
    ensures
        sum(a, 0, count) == sum(b, 0, count),
{
    reveal_with_fuel(sum, 9);
}

/// Without direction, a macroblock is the mean of its edges.
pub proof fn law_macroblock_dc_is_the_mean_of_the_edges(n: Edges, x: int, y: int)
    requires
        n.top is Some ==> n.top->0.len() >= 16,
        n.left is Some ==> n.left->0.len() >= 16,
    ensures
        ({
            let r = mb_sample(Intra16x16Mode::Dc, n, x, y);
            let t = sum(n.top->0, 0, 16);
            let l = sum(n.left->0, 0, 16);
            &&& n.top is Some && n.left is Some ==> is_mean(r, t + l, 32)
            &&& n.top is Some && n.left is None ==> is_mean(r, t, 16)
            &&& n.top is None && n.left is Some ==> is_mean(r, l, 16)
            &&& n.top is None && n.left is None ==> r == 128
        }),
{
    lemma_mean();
}

/// Without direction, each quarter of a chroma block is the mean of the edges
/// beside it: of both for the upper left and the lower right, of the row above
/// for the upper right and of the column to the left for the lower left, or of
/// the other one where that is not there.
pub proof fn law_chroma_dc_goes_by_quarters(n: Edges, x: int, y: int)
    requires
        n.top is Some ==> n.top->0.len() >= 8,
        n.left is Some ==> n.left->0.len() >= 8,
        0 <= x < 8,
        0 <= y < 8,
    ensures
        ({
            let r = chroma_sample(IntraChromaMode::Dc, n, x, y);
            let (right, low) = (x >= 4, y >= 4);
            let t = sum(n.top->0, if right {
                4
            } else {
                0
            }, 4);
            let l = sum(n.left->0, if low {
                4
            } else {
                0
            }, 4);
            let by_row = n.top is Some && (n.left is None || right && !low);
            let by_column = n.left is Some && (n.top is None || !right && low);
            &&& n.top is None && n.left is None ==> r == 128
            &&& by_row ==> is_mean(r, t, 4)
            &&& by_column ==> is_mean(r, l, 4)
            &&& n.top is Some && n.left is Some && right == low ==> is_mean(r, t + l, 8)
        }),
{
    lemma_mean();
    assert(4 * (x / 4) == if x >= 4 {
        4int
    } else {
        0
    });
    assert(4 * (y / 4) == if y >= 4 {
        4int
    } else {
        0
    });
}

/// Edges that rise evenly away from the corner, by `g` to the right and by `h`
/// downwards.
pub open spec fn even_slope(n: Edges, size: int, g: int, h: int) -> bool {
    &&& n.complete()
    &&& n.top->0.len() >= size
    &&& n.left->0.len() >= size
    &&& forall|i: int| 0 <= i < size ==> (#[trigger] n.top->0[i]) == n.top_left->0 + g * (i + 1)
    &&& forall|i: int| 0 <= i < size ==> (#[trigger] n.left->0[i]) == n.top_left->0 + h * (i + 1)
}

/// Plane prediction continues a gentle even slope of the edges.
pub proof fn law_plane_continues_an_even_slope(n: Edges, g: int, h: int, x: int, y: int)
    requires
        even_slope(n, 16, g, h),
        -3 <= g <= 4,
        -3 <= h <= 4,
        0 <= x < 16,
        0 <= y < 16,
    ensures
        mb_sample(Intra16x16Mode::Plane, n, x, y) == clip3(
            0,
            255,
            n.top_left->0 + g * (x + 1) + h * (y + 1),
        ),
{
    let corner = n.top_left->0 as int;
    lemma_even_slope(corner, n.top->0, 8, g, 8);
    lemma_even_slope(corner, n.left->0, 8, h, 8);
    let b = (5 * slope(corner, n.top->0, 8, 8) + 32) / 64;
    let c = (5 * slope(corner, n.left->0, 8, 8) + 32) / 64;
    assert(b == 32 * g && c == 32 * h);
    assert(n.left->0[15] == corner + h * 16 && n.top->0[15] == corner + g * 16);
    assert(b * (x - 7) == 32 * (g * (x - 7)) && g * (x - 7) == g * (x + 1) - 8 * g) by (nonlinear_arith)
        requires
            b == 32 * g,
    ;
    assert(c * (y - 7) == 32 * (h * (y - 7)) && h * (y - 7) == h * (y + 1) - 8 * h) by (nonlinear_arith)
        requires
            c == 32 * h,
    ;
}

/// The same of chroma.
pub proof fn law_chroma_plane_continues_an_even_slope(n: Edges, g: int, h: int, x: int, y: int)
    requires
        even_slope(n, 8, g, h),
        -3 <= g <= 4,
        -3 <= h <= 4,
        0 <= x < 8,
        0 <= y < 8,
    ensures
        chroma_sample(IntraChromaMode::Plane, n, x, y) == clip3(
            0,
            255,
            n.top_left->0 + g * (x + 1) + h * (y + 1),
        ),
{
    let corner = n.top_left->0 as int;
    lemma_even_slope(corner, n.top->0, 4, g, 4);
    lemma_even_slope(corner, n.left->0, 4, h, 4);
    let b = (34 * slope(corner, n.top->0, 4, 4) + 32) / 64;
    let c = (34 * slope(corner, n.left->0, 4, 4) + 32) / 64;
    assert(b == 32 * g && c == 32 * h);
    assert(n.left->0[7] == corner + h * 8 && n.top->0[7] == corner + g * 8);
    assert(b * (x - 3) == 32 * (g * (x - 3)) && g * (x - 3) == g * (x + 1) - 4 * g) by (nonlinear_arith)
        requires
            b == 32 * g,
    ;
    assert(c * (y - 3) == 32 * (h * (y - 3)) && h * (y - 3) == h * (y + 1) - 4 * h) by (nonlinear_arith)
        requires
            c == 32 * h,
    ;
}

/// Twice the sum of the first squares.
spec fn squares(k: nat) -> int
    decreases k,
{
    if k == 0 {
        0
    } else {
        squares((k - 1) as nat) + 2 * (k * k)
    }
}

proof fn lemma_even_slope(corner: int, edge: Seq<u8>, half: int, g: int, k: nat)
    requires
        half == 4 || half == 8,
        k <= half,
        forall|i: int| 0 <= i < 2 * half ==> (#[trigger] edge[i]) == corner + g * (i + 1),
    ensures
        slope(corner, edge, half, k) == squares(k) * g,
        squares(4) == 60,
        squares(8) == 408,
    decreases k,
{
    reveal_with_fuel(squares, 9);
    if k > 0 {
        lemma_even_slope(corner, edge, half, g, (k - 1) as nat);
        let i = k - 1;
        let low = half - 2 - i;
        assert(edge[half + i] == corner + g * (half + i + 1));
        if low >= 0 {
            assert(edge[low] == corner + g * (low + 1));
        }
        let before = if low < 0 {
            corner
        } else {
            edge[low] as int
        };
        assert(before == corner + g * (low + 1)) by (nonlinear_arith)
            requires
                low < 0 ==> low == -1 && before == corner,
                low >= 0 ==> before == corner + g * (low + 1),
                low >= -1,
        ;
        assert(k * ((corner + g * (half + i + 1)) - (corner + g * (low + 1))) == 2 * (k * k) * g)
            by (nonlinear_arith)
            requires
                i == k - 1,
                low == half - 2 - i,
        ;
        assert((squares((k - 1) as nat) + 2 * (k * k)) * g == squares((k - 1) as nat) * g + 2 * (k
            * k) * g) by (nonlinear_arith);
    }
}

/// For an 8x8 block every sample of the edges is first weighed with the two beside
/// it; at the ends of what is there, it stands in for the one that is missing.
pub proof fn law_edges_of_8x8_blocks_are_smoothed(n: Edges, k: int)
    requires
        whole_edges(n, 8),
        0 <= k < 16,
    ensures
        ({
            let (t, l, corner) = (n.top->0, n.left->0, n.top_left->0);
            let f = border(n, 8).filtered();
            &&& f.at(0) == weighed(l[0], corner, t[0])
            &&& f.at(k + 1) == weighed(if k == 0 {
                corner
            } else {
                t[k - 1]
            }, t[k], if k == 15 {
                t[15]
            } else {
                t[k + 1]
            })
            &&& k < 8 ==> f.at(-1 - k) == weighed(if k == 0 {
                corner
            } else {
                l[k - 1]
            }, l[k], if k == 7 {
                l[7]
            } else {
                l[k + 1]
            })
        }),
{
}

} // verus!
