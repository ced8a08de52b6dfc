use vstd::math::min;
use vstd::prelude::*;

verus! {

/// A position or a size on the terminal, in columns (`x`) and rows (`y`).
#[derive(Clone, Copy, PartialEq, Eq, Structural, Debug)]
pub struct Vector2 {
    pub x: usize,
    pub y: usize,
}

impl Vector2 {
    pub fn add(self, other: Vector2) -> (r: Vector2)
        requires
            self.x + other.x <= usize::MAX,
            self.y + other.y <= usize::MAX,
        ensures
            r.x == self.x + other.x,
            r.y == self.y + other.y,
    {
        Vector2 { x: self.x + other.x, y: self.y + other.y }
    }

    pub fn add_assign(&mut self, other: Vector2)
        requires
            old(self).x + other.x <= usize::MAX,
            old(self).y + other.y <= usize::MAX,
        ensures
            final(self).x == old(self).x + other.x,
            final(self).y == old(self).y + other.y,
    {
        *self = Vector2 { x: self.x + other.x, y: self.y + other.y };
    }

    pub fn sub(self, other: Vector2) -> (r: Vector2)
        requires
            other.x <= self.x,
            other.y <= self.y,
        ensures
            r.x == self.x - other.x,
            r.y == self.y - other.y,
    {
        Vector2 { x: self.x - other.x, y: self.y - other.y }
    }
}

/// The colours that the views use.
#[derive(Clone, Copy, PartialEq, Eq, Structural, Debug)]
pub enum Color {
    Blue,
    Red,
    Green,
    DarkGray,
    Cyan,
}

/// A run of text in one colour, or in the terminal's own colour.
pub struct ColoredString {
    pub string: Vec<char>,
    pub color: Option<Color>,
}

impl ColoredString {
    pub fn normal(string: Vec<char>) -> (r: ColoredString)
        ensures
            r.string@ == string@,
            r.color is None,
    {
        ColoredString { string, color: None }
    }

    pub fn colored(string: Vec<char>, color: Color) -> (r: ColoredString)
        ensures
            r.string@ == string@,
            r.color == Some(color),
    {
        ColoredString { string, color: Some(color) }
    }
}

/// The characters of a line, left to right.
pub open spec fn flat_text(line: Seq<ColoredString>) -> Seq<char>
    decreases line.len(),
{
    if line.len() == 0 {
        Seq::empty()
    } else {
        flat_text(line.drop_last()) + line.last().string@
    }
}

/// The colour of each character of a line, left to right.
pub open spec fn flat_colors(line: Seq<ColoredString>) -> Seq<Option<Color>>
    decreases line.len(),
{
    if line.len() == 0 {
        Seq::empty()
    } else {
        flat_colors(line.drop_last()) + Seq::new(
            line.last().string@.len(),
            |i: int| line.last().color,
        )
    }
}

pub proof fn lemma_flat_lengths(line: Seq<ColoredString>)
    ensures
        flat_text(line).len() == flat_colors(line).len(),
    decreases line.len(),
{
    if line.len() > 0 {
        lemma_flat_lengths(line.drop_last());
    }
}

/// The part of `s` from position `lo` up to `hi`, cut at its end.
pub open spec fn window<A>(s: Seq<A>, lo: int, hi: int) -> Seq<A> {
    let a = if lo < s.len() {
        lo
    } else {
        s.len() as int
    };
    let b = if hi < s.len() {
        hi
    } else {
        s.len() as int
    };
    s.subrange(a, b)
}

pub open spec fn clamp(v: int, n: int) -> int {
    if v < 0 {
        0
    } else if v > n {
        n
    } else {
        v
    }
}

proof fn lemma_window_push<A>(a: Seq<A>, b: Seq<A>, lo: int, hi: int)
    requires
        0 <= lo <= hi,
    ensures
        window(a + b, lo, hi) == window(a, lo, hi) + b.subrange(
            clamp(lo - a.len(), b.len() as int),
            clamp(hi - a.len(), b.len() as int),
        ),
{
    assert(window(a + b, lo, hi) =~= window(a, lo, hi) + b.subrange(
        clamp(lo - a.len(), b.len() as int),
        clamp(hi - a.len(), b.len() as int),
    ));
}

/// The characters `from..to` of `v`.
pub fn slice_chars(v: &Vec<char>, from: usize, to: usize) -> (r: Vec<char>)
    requires
        from <= to <= v.len(),
    ensures
        r@ == v@.subrange(from as int, to as int),
{
    let mut r: Vec<char> = Vec::new();
    let mut i = from;
    while i < to
        invariant
            from <= i <= to <= v.len(),
            r@ == v@.subrange(from as int, i as int),
        decreases to - i,
    {
        r.push(v[i]);
        assert(r@ =~= v@.subrange(from as int, i + 1));
        i = i + 1;
    }
    r
}

/// The part of `line` that shows in a window `width` characters wide that starts `skip`
/// characters into it: the same characters in the same colours.
pub fn clip_line(line: &Vec<ColoredString>, skip: usize, width: usize) -> (r: Vec<ColoredString>)
    requires
        skip + width <= usize::MAX,
    ensures
        flat_text(r@) == window(flat_text(line@), skip as int, skip + width),
        flat_colors(r@) == window(flat_colors(line@), skip as int, skip + width),
{
    let hi = skip + width;
    let mut out: Vec<ColoredString> = Vec::new();
    let mut begin: usize = 0;
    let mut m: usize = 0;
    proof {
        assert(line@.subrange(0, 0) =~= Seq::<ColoredString>::empty());
        assert(flat_text(out@) =~= window(flat_text(line@.subrange(0, 0)), skip as int, hi as int));
        assert(flat_colors(out@) =~= window(flat_colors(line@.subrange(0, 0)), skip as int, hi as int));
    }
    while m < line.len()
        invariant
            hi == skip + width,
            m <= line.len(),
            begin == if flat_text(line@.subrange(0, m as int)).len() < hi {
                flat_text(line@.subrange(0, m as int)).len() as int
            } else {
                hi as int
            },
            flat_text(out@) == window(flat_text(line@.subrange(0, m as int)), skip as int, hi as int),
            flat_colors(out@) == window(flat_colors(line@.subrange(0, m as int)), skip as int, hi as int),
        decreases line.len() - m,
    {
        let piece = &line[m];
        let len = piece.string.len();
        let rem = hi - begin;
        let a: usize = if skip > begin {
            if skip - begin < len {
                skip - begin
            } else {
                len
            }
        } else {
            0
        };
        let b: usize = if len < rem {
            len
        } else {
            rem
        };
        let ghost pre = line@.subrange(0, m as int);
        let ghost next = line@.subrange(0, m + 1);
        proof {
            assert(next.drop_last() =~= pre);
            assert(next.last() == *piece);
            lemma_flat_lengths(pre);
            lemma_window_push(flat_text(pre), piece.string@, skip as int, hi as int);
            lemma_window_push(
                flat_colors(pre),
                Seq::new(piece.string@.len(), |i: int| piece.color),
                skip as int,
                hi as int,
            );
        }
        let ghost full = flat_text(pre).len();
        if a < b {
            let part = ColoredString { string: slice_chars(&piece.string, a, b), color: piece.color };
            let ghost before = out@;
            out.push(part);
            proof {
                assert(out@.drop_last() =~= before);
                assert(full >= hi ==> false);
                assert(flat_text(out@) =~= window(flat_text(next), skip as int, hi as int));
                assert(flat_colors(out@) =~= window(flat_colors(next), skip as int, hi as int));
            }
        } else {
            proof {
                assert(flat_text(out@) =~= window(flat_text(next), skip as int, hi as int));
                assert(flat_colors(out@) =~= window(flat_colors(next), skip as int, hi as int));
            }
        }
        if len >= rem {
            begin = hi;
        } else {
            begin = begin + len;
        }
        m = m + 1;
    }
    assert(line@.subrange(0, m as int) =~= line@);
    out
}

/// Columns between two indicator glyphs on a horizontal edge.
pub const X_EVERY: usize = 5;

/// Rows between two indicator glyphs on a vertical edge.
pub const Y_EVERY: usize = 3;

/// How many glyphs fit on an edge whose inner span is `s` long, at one every `k`.
pub open spec fn run_count(s: int, k: int) -> int {
    (s - 1) / k + 1
}

/// Offset of the first glyph, which centres the run on the span.
pub open spec fn run_first(s: int, k: int) -> int {
    1 + (s - (run_count(s, k) * k - (k - 1))) / 2
}

proof fn lemma_run_fits(s: int, k: int)
    requires
        s >= 1,
        k >= 1,
    ensures
        run_count(s, k) >= 1,
        run_first(s, k) >= 1,
        run_first(s, k) + (run_count(s, k) - 1) * k <= s,
        run_count(s, k) * k <= s - 1 + k,
{
    let q = (s - 1) / k;
    assert(q * k <= s - 1) by (nonlinear_arith)
        requires
            q == (s - 1) / k,
            s >= 1,
            k >= 1,
    ;
    assert(q >= 0) by (nonlinear_arith)
        requires
            q == (s - 1) / k,
            s >= 1,
            k >= 1,
    ;
    assert(run_count(s, k) * k == q * k + k) by (nonlinear_arith)
        requires
            run_count(s, k) == q + 1,
    ;
    assert((run_count(s, k) - 1) * k == q * k) by (nonlinear_arith)
        requires
            run_count(s, k) == q + 1,
    ;
}

/// Where the glyphs of an edge go: the offset of the first and their number.
pub fn arrow_run(s: usize, k: usize) -> (r: (usize, usize))
    requires
        s >= 1,
        k >= 1,
    ensures
        r.0 == run_first(s as int, k as int),
        r.1 == run_count(s as int, k as int),
{
    let q = (s - 1) / k;
    proof {
        lemma_run_fits(s as int, k as int);
        assert((q + 1) * k - (k - 1) == q * k + 1) by (nonlinear_arith);
        assert(q * k <= s - 1);
    }
    let span = q * k + 1;
    let first = 1 + (s - span) / 2;
    (first, q + 1)
}

/// An edge of an area.
#[derive(Clone, Copy, PartialEq, Eq, Structural, Debug)]
pub enum Edge {
    Top,
    Right,
    Bottom,
    Left,
}

/// Which edges show that more content lies beyond them.
#[derive(Clone, Copy, PartialEq, Eq, Structural, Debug)]
pub struct Indicators {
    pub top: bool,
    pub right: bool,
    pub bottom: bool,
    pub left: bool,
}

/// One indicator glyph, at a terminal position.
#[derive(Clone, Copy, PartialEq, Eq, Structural, Debug)]
pub struct Mark {
    pub x: usize,
    pub y: usize,
    pub edge: Edge,
}

/// One line of content, clipped, and where it starts on the terminal.
pub struct Row {
    pub x: usize,
    pub y: usize,
    pub pieces: Vec<ColoredString>,
}

/// What an area shows: its rectangle is blanked, then the marks and the rows are written.
pub struct Frame {
    pub origin: Vector2,
    pub size: Vector2,
    pub marks: Vec<Mark>,
    pub rows: Vec<Row>,
}

/// The width of a line in characters, or `usize::MAX` where it is wider.
pub open spec fn width_of(line: Seq<ColoredString>) -> int {
    if flat_text(line).len() < usize::MAX {
        flat_text(line).len() as int
    } else {
        usize::MAX as int
    }
}

/// The width of the widest line.
pub open spec fn widest(c: Seq<Vec<ColoredString>>) -> int
    decreases c.len(),
{
    if c.len() == 0 {
        0
    } else {
        let w = widest(c.drop_last());
        let l = width_of(c.last()@);
        if w < l {
            l
        } else {
            w
        }
    }
}

/// Width of a line, in characters.
pub fn line_width(line: &Vec<ColoredString>) -> (r: usize)
    ensures
        r == width_of(line@),
{
    let mut w: usize = 0;
    let mut m: usize = 0;
    assert(line@.subrange(0, 0) =~= Seq::<ColoredString>::empty());
    while m < line.len()
        invariant
            m <= line.len(),
            w == width_of(line@.subrange(0, m as int)),
        decreases line.len() - m,
    {
        let ghost next = line@.subrange(0, m + 1);
        assert(next.drop_last() =~= line@.subrange(0, m as int));
        let len = line[m].string.len();
        if w == usize::MAX || len >= usize::MAX - w {
            w = usize::MAX;
        } else {
            w = w + len;
        }
        m = m + 1;
    }
    assert(line@.subrange(0, m as int) =~= line@);
    w
}

/// A scrolled rectangle of the terminal that shows part of a buffer of lines.
pub struct ScrollableArea {
    /// Where the top left corner of the area is on the terminal.
    pub screen_offset: Vector2,
    pub size: Vector2,
    /// How far the view is scrolled into the content.
    pub curr_pos: Vector2,
    pub contents: Vec<Vec<ColoredString>>,
    /// The width of the widest line of `contents`.
    pub longest_line_len: usize,
}

impl ScrollableArea {
    /// The area's invariant: room for a border, the cached width right, and every position
    /// that the area works out within the range of `usize`.
    pub open spec fn wf(self) -> bool {
        &&& self.size.x >= 4
        &&& self.size.y >= 3
        &&& self.screen_offset.x + self.size.x <= usize::MAX
        &&& self.screen_offset.y + self.size.y <= usize::MAX
        &&& self.curr_pos.x + self.size.x <= usize::MAX
        &&& self.curr_pos.y + self.size.y <= usize::MAX
        &&& self.longest_line_len == widest(self.contents@)
    }

    /// Columns and rows left for content inside the border.
    pub open spec fn inner(self) -> Vector2 {
        Vector2 { x: (self.size.x - 4) as usize, y: (self.size.y - 2) as usize }
    }

    pub fn contents_size(&self) -> (r: Vector2)
        requires
            self.wf(),
        ensures
            r == self.inner(),
    {
        self.size.sub(Vector2 { x: 4, y: 2 })
    }

    /// Each edge shows an indicator where content lies beyond it.
    pub open spec fn indicators_spec(self) -> Indicators {
        Indicators {
            top: self.curr_pos.y > 0,
            right: self.inner().x + self.curr_pos.x < self.longest_line_len,
            bottom: self.inner().y + self.curr_pos.y < self.contents@.len(),
            left: self.curr_pos.x > 0,
        }
    }

    pub fn indicators(&self) -> (r: Indicators)
        requires
            self.wf(),
        ensures
            r == self.indicators_spec(),
    {
        let cs = self.contents_size();
        Indicators {
            top: self.curr_pos.y > 0,
            right: cs.x + self.curr_pos.x < self.longest_line_len,
            bottom: cs.y + self.curr_pos.y < self.contents.len(),
            left: self.curr_pos.x > 0,
        }
    }

    /// The glyphs along one edge, from the top left.
    pub open spec fn edge_marks(self, e: Edge) -> Seq<Mark> {
        let sx = self.size.x - 2;
        let sy = self.size.y - 2;
        let o = self.screen_offset;
        match e {
            Edge::Top => Seq::new(
                run_count(sx, X_EVERY as int) as nat,
                |i: int| Mark { x: (o.x + run_first(sx, X_EVERY as int) + i * X_EVERY) as usize, y: o.y, edge: e },
            ),
            Edge::Bottom => Seq::new(
                run_count(sx, X_EVERY as int) as nat,
                |i: int|
                    Mark {
                        x: (o.x + run_first(sx, X_EVERY as int) + i * X_EVERY) as usize,
                        y: (o.y + sy + 1) as usize,
                        edge: e,
                    },
            ),
            Edge::Right => Seq::new(
                run_count(sy, Y_EVERY as int) as nat,
                |i: int|
                    Mark {
                        x: (o.x + sx + 1) as usize,
                        y: (o.y + run_first(sy, Y_EVERY as int) + i * Y_EVERY) as usize,
                        edge: e,
                    },
            ),
            Edge::Left => Seq::new(
                run_count(sy, Y_EVERY as int) as nat,
                |i: int| Mark { x: o.x, y: (o.y + run_first(sy, Y_EVERY as int) + i * Y_EVERY) as usize, edge: e },
            ),
        }
    }

    /// All indicator glyphs: top, right, bottom, then left, each where it qualifies.
    pub open spec fn marks_spec(self) -> Seq<Mark> {
        let ind = self.indicators_spec();
        (if ind.top { self.edge_marks(Edge::Top) } else { Seq::empty() }) + (if ind.right {
            self.edge_marks(Edge::Right)
        } else {
            Seq::empty()
        }) + (if ind.bottom { self.edge_marks(Edge::Bottom) } else { Seq::empty() }) + (
        if ind.left {
            self.edge_marks(Edge::Left)
        } else {
            Seq::empty()
        })
    }

    /// Appends the glyphs of edge `e`.
    fn push_edge_marks(&self, e: Edge, out: &mut Vec<Mark>)
        requires
            self.wf(),
        ensures
            final(out)@ == old(out)@ + self.edge_marks(e),
    {
        let sx = self.size.x - 2;
        let sy = self.size.y - 2;
        let o = self.screen_offset;
        let horizontal = match e {
            Edge::Top => true,
            Edge::Bottom => true,
            _ => false,
        };
        let span = if horizontal { sx } else { sy };
        let stride = if horizontal { X_EVERY } else { Y_EVERY };
        let (first, count) = arrow_run(span, stride);
        proof {
            lemma_run_fits(span as int, stride as int);
        }
        let ghost start = out@;
        let mut i: usize = 0;
        while i < count
            invariant
                self.wf(),
                sx == self.size.x - 2,
                sy == self.size.y - 2,
                o == self.screen_offset,
                span == if horizontal { sx } else { sy },
                stride == if horizontal { X_EVERY } else { Y_EVERY },
                horizontal == (e == Edge::Top || e == Edge::Bottom),
                first == run_first(span as int, stride as int),
                count == run_count(span as int, stride as int),
                first + (count - 1) * stride <= span,
                i <= count,
                out@.len() == start.len() + i,
                out@.subrange(0, start.len() as int) == start,
                forall|j: int| 0 <= j < i ==> out@[start.len() + j] == #[trigger] self.edge_marks(e)[j],
            decreases count - i,
        {
            proof {
                assert(i * stride <= (count - 1) * stride) by (nonlinear_arith)
                    requires
                        i < count,
                        stride >= 1,
                ;
            }
            let along = first + i * stride;
            let m = match e {
                Edge::Top => Mark { x: o.x + along, y: o.y, edge: e },
                Edge::Bottom => Mark { x: o.x + along, y: o.y + sy + 1, edge: e },
                Edge::Right => Mark { x: o.x + sx + 1, y: o.y + along, edge: e },
                Edge::Left => Mark { x: o.x, y: o.y + along, edge: e },
            };
            let ghost prev = out@;
            out.push(m);
            proof {
                assert(out@.subrange(0, start.len() as int) =~= prev.subrange(0, start.len() as int));
            }
            i = i + 1;
        }
        assert(out@ =~= start + self.edge_marks(e));
    }
}

/// How far one key press scrolls.
pub const SCROLL_STEP: usize = 5;

/// The farthest offset at which a window of `visible` still shows content `total` long.
pub open spec fn limit(total: int, visible: int) -> int {
    if total > visible {
        total - visible
    } else {
        0
    }
}

impl ScrollableArea {
    /// An empty area at `screen_offset`, `size` large.
    pub fn new(screen_offset: Vector2, size: Vector2) -> (r: ScrollableArea)
        requires
            size.x >= 4,
            size.y >= 3,
            screen_offset.x + size.x <= usize::MAX,
            screen_offset.y + size.y <= usize::MAX,
        ensures
            r.wf(),
            r.screen_offset == screen_offset,
            r.size == size,
            r.curr_pos == (Vector2 { x: 0, y: 0 }),
            r.contents@.len() == 0,
    {
        ScrollableArea {
            screen_offset,
            size,
            curr_pos: Vector2 { x: 0, y: 0 },
            contents: Vec::new(),
            longest_line_len: 0,
        }
    }

    /// How many lines of content show.
    pub open spec fn visible_rows(self) -> int {
        if self.curr_pos.y < self.contents@.len() {
            let left = self.contents@.len() - self.curr_pos.y;
            if left < self.inner().y {
                left
            } else {
                self.inner().y as int
            }
        } else {
            0
        }
    }

    /// What the area shows: the indicator glyphs, then each visible line clipped to the
    /// inner width at the scroll offset, one row below the other inside the border.
    pub fn draw(&self) -> (f: Frame)
        requires
            self.wf(),
        ensures
            f.origin == self.screen_offset,
            f.size == self.size,
            f.marks@ == self.marks_spec(),
            f.rows@.len() == self.visible_rows(),
            forall|i: int|
                0 <= i < f.rows@.len() ==> {
                    let row = #[trigger] f.rows@[i];
                    let line = self.contents@[self.curr_pos.y + i]@;
                    let lo = self.curr_pos.x as int;
                    let hi = self.curr_pos.x + self.inner().x;
                    &&& row.x == self.screen_offset.x + 2
                    &&& row.y == self.screen_offset.y + 1 + i
                    &&& flat_text(row.pieces@) == window(flat_text(line), lo, hi)
                    &&& flat_colors(row.pieces@) == window(flat_colors(line), lo, hi)
                },
    {
        let ind = self.indicators();
        let mut marks: Vec<Mark> = Vec::new();
        if ind.top {
            self.push_edge_marks(Edge::Top, &mut marks);
        }
        if ind.right {
            self.push_edge_marks(Edge::Right, &mut marks);
        }
        if ind.bottom {
            self.push_edge_marks(Edge::Bottom, &mut marks);
        }
        if ind.left {
            self.push_edge_marks(Edge::Left, &mut marks);
        }
        assert(marks@ =~= self.marks_spec());
        let cs = self.contents_size();
        let mut rows: Vec<Row> = Vec::new();
        let mut i: usize = 0;
        while i < cs.y && self.curr_pos.y + i < self.contents.len()
            invariant
                self.wf(),
                cs == self.inner(),
                i <= cs.y,
                self.curr_pos.y + i <= self.contents@.len() || i == 0,
                rows@.len() == i,
                forall|j: int|
                    0 <= j < i ==> {
                        let row = #[trigger] rows@[j];
                        let line = self.contents@[self.curr_pos.y + j]@;
                        let lo = self.curr_pos.x as int;
                        let hi = self.curr_pos.x + self.inner().x;
                        &&& row.x == self.screen_offset.x + 2
                        &&& row.y == self.screen_offset.y + 1 + j
                        &&& flat_text(row.pieces@) == window(flat_text(line), lo, hi)
                        &&& flat_colors(row.pieces@) == window(flat_colors(line), lo, hi)
                    },
            decreases cs.y - i,
        {
            let line = &self.contents[self.curr_pos.y + i];
            let pieces = clip_line(line, self.curr_pos.x, cs.x);
            rows.push(
                Row { x: self.screen_offset.x + 2, y: self.screen_offset.y + 1 + i, pieces },
            );
            i = i + 1;
        }
        Frame { origin: self.screen_offset, size: self.size, marks, rows }
    }

    /// The scroll offset pulled back, on each axis, to the farthest one at which `contents`
    /// still shows.
    pub open spec fn clamped(self, contents: Seq<Vec<ColoredString>>) -> Vector2 {
        let lx = limit(widest(contents), self.inner().x as int);
        let ly = limit(contents.len() as int, self.inner().y as int);
        Vector2 {
            x: if self.curr_pos.x < lx { self.curr_pos.x } else { lx as usize },
            y: if self.curr_pos.y < ly { self.curr_pos.y } else { ly as usize },
        }
    }

    /// Replaces the content, then pulls the scroll offset back on each axis where the new
    /// content would leave the view past its end.
    pub fn set_contents(&mut self, contents: Vec<Vec<ColoredString>>)
        requires
            old(self).wf(),
        ensures
            final(self).wf(),
            final(self).contents@ == contents@,
            final(self).screen_offset == old(self).screen_offset,
            final(self).size == old(self).size,
            final(self).longest_line_len == widest(contents@),
            final(self).curr_pos == old(self).clamped(contents@),
    {
        let mut width: usize = 0;
        let mut m: usize = 0;
        assert(contents@.subrange(0, 0) =~= Seq::<Vec<ColoredString>>::empty());
        while m < contents.len()
            invariant
                m <= contents.len(),
                width == widest(contents@.subrange(0, m as int)),
            decreases contents.len() - m,
        {
            let ghost next = contents@.subrange(0, m + 1);
            assert(next.drop_last() =~= contents@.subrange(0, m as int));
            let w = line_width(&contents[m]);
            if width < w {
                width = w;
            }
            m = m + 1;
        }
        assert(contents@.subrange(0, m as int) =~= contents@);
        let cs = self.contents_size();
        let far_x = if width > cs.x { width - cs.x } else { 0 };
        let far_y = if contents.len() > cs.y { contents.len() - cs.y } else { 0 };
        if self.curr_pos.x > far_x {
            self.curr_pos.x = far_x;
        }
        if self.curr_pos.y > far_y {
            self.curr_pos.y = far_y;
        }
        self.longest_line_len = width;
        self.contents = contents;
    }

    /// Where one step towards edge `e` takes the scroll offset: back towards the origin no
    /// further than it, forwards no further than the farthest offset at which content still
    /// shows, nor past what the invariant's range allows.
    pub open spec fn scrolled(self, e: Edge) -> Vector2 {
        let p = self.curr_pos;
        let cs = self.inner();
        let len = self.contents@.len() as int;
        let w = self.longest_line_len as int;
        match e {
            Edge::Top => Vector2 { x: p.x, y: if p.y < SCROLL_STEP { 0 } else { (p.y - SCROLL_STEP) as usize } },
            Edge::Left => Vector2 { x: if p.x < SCROLL_STEP { 0 } else { (p.x - SCROLL_STEP) as usize }, y: p.y },
            Edge::Bottom => Vector2 {
                x: p.x,
                y: if cs.y + p.y < len {
                    min(p.y + min(len - cs.y - p.y, SCROLL_STEP as int), usize::MAX - self.size.y) as usize
                } else {
                    p.y
                },
            },
            Edge::Right => Vector2 {
                x: if cs.x + p.x < w {
                    min(p.x + min(w - cs.x - p.x, SCROLL_STEP as int), usize::MAX - self.size.x) as usize
                } else {
                    p.x
                },
                y: p.y,
            },
        }
    }

    /// Scrolls one step towards edge `e`.
    pub fn scroll(&mut self, e: Edge)
        requires
            old(self).wf(),
        ensures
            final(self).wf(),
            final(self).contents@ == old(self).contents@,
            final(self).screen_offset == old(self).screen_offset,
            final(self).size == old(self).size,
            final(self).longest_line_len == old(self).longest_line_len,
            final(self).curr_pos == old(self).scrolled(e),
    {
        let cs = self.contents_size();
        match e {
            Edge::Top => {
                self.curr_pos.y = if self.curr_pos.y < SCROLL_STEP {
                    0
                } else {
                    self.curr_pos.y - SCROLL_STEP
                };
            },
            Edge::Left => {
                self.curr_pos.x = if self.curr_pos.x < SCROLL_STEP {
                    0
                } else {
                    self.curr_pos.x - SCROLL_STEP
                };
            },
            Edge::Bottom => {
                if cs.y + self.curr_pos.y < self.contents.len() {
                    let avail = self.contents.len() - cs.y - self.curr_pos.y;
                    let step = if avail < SCROLL_STEP { avail } else { SCROLL_STEP };
                    let room = usize::MAX - self.size.y - self.curr_pos.y;
                    let step = if step < room { step } else { room };
                    self.curr_pos.y = self.curr_pos.y + step;
                }
            },
            Edge::Right => {
                if cs.x + self.curr_pos.x < self.longest_line_len {
                    let avail = self.longest_line_len - cs.x - self.curr_pos.x;
                    let step = if avail < SCROLL_STEP { avail } else { SCROLL_STEP };
                    let room = usize::MAX - self.size.x - self.curr_pos.x;
                    let step = if step < room { step } else { room };
                    self.curr_pos.x = self.curr_pos.x + step;
                }
            },
        }
    }
}

/// At the farthest offset on an axis the far edge shows no indicator. At offset zero the near
/// edge shows none, and the far edge shows one exactly where the content does not fit.
pub proof fn law_indicators_at_limits(a: ScrollableArea)
    requires
        a.wf(),
    ensures
        a.curr_pos.y == limit(a.contents@.len() as int, a.inner().y as int)
            ==> !a.indicators_spec().bottom,
        a.curr_pos.x == limit(a.longest_line_len as int, a.inner().x as int)
            ==> !a.indicators_spec().right,
        a.curr_pos.y == 0 ==> !a.indicators_spec().top && (a.indicators_spec().bottom
            <==> a.contents@.len() > a.inner().y),
        a.curr_pos.x == 0 ==> !a.indicators_spec().left && (a.indicators_spec().right
            <==> a.longest_line_len > a.inner().x),
{
}

/// Scrolling never carries the view past the farthest offset at which content still shows,
/// once it is within it.
pub proof fn law_scroll_stays_within_limit(a: ScrollableArea, b: ScrollableArea, e: Edge)
    requires
        a.wf(),
        a.curr_pos.x <= limit(a.longest_line_len as int, a.inner().x as int),
        a.curr_pos.y <= limit(a.contents@.len() as int, a.inner().y as int),
        b.contents@ == a.contents@,
        b.size == a.size,
        b.longest_line_len == a.longest_line_len,
        b.curr_pos == a.scrolled(e),
    ensures
        b.curr_pos.x <= limit(b.longest_line_len as int, b.inner().x as int),
        b.curr_pos.y <= limit(b.contents@.len() as int, b.inner().y as int),
{
}

/// The part of the screen that has the keyboard.
#[derive(Clone, Copy, PartialEq, Eq, Structural, Debug)]
pub enum CurrentArea {
    Command,
    Tree,
    Contents,
}

/// The lines of the double-panel border, left to right.
pub struct Outline {
    /// The row under the title.
    pub top: Vec<ColoredString>,
    /// The separator that each row between top and bottom shows at column `line_x`.
    pub divider: ColoredString,
    /// The row above the command line.
    pub bottom: Vec<ColoredString>,
    /// The column of the separator.
    pub line_x: usize,
    /// How many rows the separator spans.
    pub rows: usize,
}

/// `n` copies of `c`.
pub open spec fn repeat(c: char, n: nat) -> Seq<char> {
    Seq::new(n, |i: int| c)
}

/// A piece that is red where the selected area is one of those it borders.
pub open spec fn edge_piece(s: Seq<char>, lit: bool) -> (Seq<char>, Option<Color>) {
    (s, if lit { Some(Color::Red) } else { None })
}

pub open spec fn outline_view(line: Seq<ColoredString>) -> Seq<(Seq<char>, Option<Color>)> {
    line.map_values(|p: ColoredString| (p.string@, p.color))
}

fn repeat_chars(c: char, n: usize) -> (r: Vec<char>)
    ensures
        r@ == repeat(c, n as nat),
{
    let mut r: Vec<char> = Vec::new();
    let mut i: usize = 0;
    while i < n
        invariant
            i <= n,
            r@ == repeat(c, i as nat),
        decreases n - i,
    {
        r.push(c);
        assert(r@ =~= repeat(c, (i + 1) as nat));
        i = i + 1;
    }
    r
}

fn edge(s: Vec<char>, lit: bool) -> (r: ColoredString)
    ensures
        (r.string@, r.color) == edge_piece(s@, lit),
{
    ColoredString { string: s, color: if lit { Some(Color::Red) } else { None } }
}

/// The border between the title, the two panels and the command line of a terminal `width`
/// columns wide and `height` rows high: the separator stands at half the width, and each
/// stretch is red where it borders the selected area.
pub fn draw_outline(width: usize, height: usize, selected: CurrentArea) -> (r: Outline)
    requires
        width >= 2,
        height >= 4,
    ensures
        r.line_x == width / 2,
        r.rows == height - 4,
        outline_view(r.top@) == seq![
            edge_piece(repeat('━', (width / 2) as nat), selected == CurrentArea::Tree),
            edge_piece(seq!['┳'], selected != CurrentArea::Command),
            edge_piece(repeat('━', (width - width / 2 - 1) as nat), selected == CurrentArea::Contents),
        ],
        (r.divider.string@, r.divider.color) == edge_piece(seq!['┃'], selected != CurrentArea::Command),
        outline_view(r.bottom@) == seq![
            edge_piece(repeat('━', (width / 2) as nat), selected != CurrentArea::Contents),
            edge_piece(seq!['┻'], true),
            edge_piece(repeat('━', (width - width / 2 - 1) as nat), selected != CurrentArea::Tree),
        ],
{
    let line_x = width / 2;
    let right = width - line_x - 1;
    let tree = match selected {
        CurrentArea::Tree => true,
        _ => false,
    };
    let contents = match selected {
        CurrentArea::Contents => true,
        _ => false,
    };
    let mut top: Vec<ColoredString> = Vec::new();
    top.push(edge(repeat_chars('━', line_x), tree));
    top.push(edge(repeat_chars('┳', 1), tree || contents));
    top.push(edge(repeat_chars('━', right), contents));
    let mut bottom: Vec<ColoredString> = Vec::new();
    bottom.push(edge(repeat_chars('━', line_x), !contents));
    bottom.push(edge(repeat_chars('┻', 1), true));
    bottom.push(edge(repeat_chars('━', right), !tree));
    let divider = edge(repeat_chars('┃', 1), tree || contents);
    assert(repeat('┳', 1) =~= seq!['┳']);
    assert(repeat('┻', 1) =~= seq!['┻']);
    assert(repeat('┃', 1) =~= seq!['┃']);
    assert(outline_view(top@) =~= seq![
        edge_piece(repeat('━', (width / 2) as nat), selected == CurrentArea::Tree),
        edge_piece(seq!['┳'], selected != CurrentArea::Command),
        edge_piece(repeat('━', (width - width / 2 - 1) as nat), selected == CurrentArea::Contents),
    ]);
    assert(outline_view(bottom@) =~= seq![
        edge_piece(repeat('━', (width / 2) as nat), selected != CurrentArea::Contents),
        edge_piece(seq!['┻'], true),
        edge_piece(repeat('━', (width - width / 2 - 1) as nat), selected != CurrentArea::Tree),
    ]);
    Outline { top, divider, bottom, line_x, rows: height - 4 }
}

} // verus!
