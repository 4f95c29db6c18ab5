use crate::coef::Scalar;
use crate::display::{expr_text, has_minus_sign, starts_with_minus};
use crate::expr::{lemma_prefix_step, views, Expr, SExpr};
use crate::text::string_of;
use unicode_width::UnicodeWidthStr;
use vstd::prelude::*;

verus! {

broadcast use vstd::std_specs::vec::group_vec_axioms;

/// The columns `unicode_width` gives a string.
pub uninterp spec fn display_width(s: Seq<char>) -> nat;

/// Whether every character is printable ASCII (space to `~`).
pub open spec fn printable_ascii(s: Seq<char>) -> bool {
    forall|i: int| 0 <= i < s.len() ==> ' ' <= #[trigger] s[i] && s[i] <= '~'
}

/// The columns a text takes: one per character for printable ASCII, what
/// `unicode_width` gives otherwise.
pub open spec fn text_columns(s: Seq<char>) -> nat {
    if printable_ascii(s) {
        s.len()
    } else {
        display_width(s)
    }
}

/// `UnicodeWidthStr::width`: how many terminal columns the string takes.
/// A string of printable ASCII characters takes one column per character
/// (the empty string none); what other strings take is left to
/// `display_width`.
#[verifier::external_body]
fn text_width(s: &String) -> (r: usize)
    ensures
        printable_ascii(s@) ==> r == s@.len(),
        !printable_ascii(s@) ==> r == display_width(s@),
{
    s.as_str().width()
}

/// A rectangle of characters, as its rows.
pub struct Canvas(Vec<Vec<char>>);

impl View for Canvas {
    type V = Seq<Seq<char>>;

    closed spec fn view(&self) -> Seq<Seq<char>> {
        Seq::new(self.0@.len(), |i: int| self.0@[i]@)
    }
}

/// `height` rows of `width` spaces.
pub open spec fn blank(width: nat, height: nat) -> Seq<Seq<char>> {
    Seq::new(height, |i: int| Seq::new(width, |j: int| ' '))
}

/// Whether `s`, placed with its top-left corner at column `x` of row `y`,
/// lies within `c`.
pub open spec fn fits(c: Seq<Seq<char>>, s: Seq<Seq<char>>, x: int, y: int) -> bool {
    &&& x >= 0
    &&& y >= 0
    &&& y + s.len() <= c.len()
    &&& forall|i: int| 0 <= i < s.len() ==> x + (#[trigger] s[i]).len() <= c[y + i].len()
}

/// `c` with `s` written over it, top-left corner at column `x` of row `y`.
pub open spec fn overlay(c: Seq<Seq<char>>, s: Seq<Seq<char>>, x: int, y: int) -> Seq<Seq<char>> {
    Seq::new(
        c.len(),
        |i: int|
            Seq::new(
                c[i].len(),
                |j: int|
                    if y <= i < y + s.len() && x <= j < x + s[i - y].len() {
                        s[i - y][j - x]
                    } else {
                        c[i][j]
                    },
            ),
    )
}

/// A two-dimensional arrangement of text.
#[derive(Debug)]
pub enum Layout {
    Text(String),
    Column(Vec<Layout>),
    SuperScript(Box<Layout>, Box<Layout>),
    Parentheses(Box<Layout>),
}

/// The model of a layout.
pub enum SLayout {
    Text(Seq<char>),
    Column(Seq<SLayout>),
    SuperScript(Box<SLayout>, Box<SLayout>),
    Parentheses(Box<SLayout>),
}

pub open spec fn layout_view(l: Layout) -> SLayout
    decreases l,
{
    match l {
        Layout::Text(t) => SLayout::Text(t@),
        Layout::Column(t) => SLayout::Column(layout_views(t@)),
        Layout::SuperScript(a, b) => SLayout::SuperScript(Box::new(layout_view(*a)), Box::new(layout_view(*b))),
        Layout::Parentheses(a) => SLayout::Parentheses(Box::new(layout_view(*a))),
    }
}

pub open spec fn layout_views(t: Seq<Layout>) -> Seq<SLayout>
    decreases t,
{
    Seq::new(
        t.len(),
        |i: int|
            if 0 <= i < t.len() {
                layout_view(t[i])
            } else {
                SLayout::Text(Seq::empty())
            },
    )
}

impl View for Layout {
    type V = SLayout;

    open spec fn view(&self) -> SLayout {
        layout_view(*self)
    }
}

/// The columns a layout takes: a text's display width, the sum across a
/// column, base and superscript side by side, two more for parentheses.
pub open spec fn width_s(l: SLayout) -> nat
    decreases l, 0nat,
{
    match l {
        SLayout::Text(t) => text_columns(t),
        SLayout::Column(t) => width_sum(t),
        SLayout::SuperScript(a, b) => width_s(*a) + width_s(*b),
        SLayout::Parentheses(a) => width_s(*a) + 2,
    }
}

pub open spec fn width_sum(t: Seq<SLayout>) -> nat
    decreases t, 0nat,
{
    if t.len() == 0 {
        0
    } else {
        width_sum(t.subrange(0, t.len() - 1)) + width_s(t[t.len() - 1])
    }
}

/// The rows a layout takes: one for a text, the tallest item of a column
/// (none for an empty one), the base below the superscript, and the inner
/// height for parentheses.
pub open spec fn height_s(l: SLayout) -> nat
    decreases l, 0nat,
{
    match l {
        SLayout::Text(_) => 1,
        SLayout::Column(t) => height_max(t),
        SLayout::SuperScript(a, b) => height_s(*a) + height_s(*b),
        SLayout::Parentheses(a) => height_s(*a),
    }
}

pub open spec fn height_max(t: Seq<SLayout>) -> nat
    decreases t, 0nat,
{
    if t.len() == 0 {
        0
    } else {
        let m = height_max(t.subrange(0, t.len() - 1));
        let h = height_s(t[t.len() - 1]);
        if m < h {
            h
        } else {
            m
        }
    }
}

/// Whether a layout can be painted: every text is at least as many
/// characters long as it is wide, no parentheses enclose an empty height,
/// and the sizes fit in `usize`.
pub open spec fn paintable(l: SLayout) -> bool
    decreases l, 0nat,
{
    &&& width_s(l) <= usize::MAX
    &&& height_s(l) <= usize::MAX
    &&& match l {
        SLayout::Text(t) => text_columns(t) <= t.len(),
        SLayout::Column(t) => all_paintable(t),
        SLayout::SuperScript(a, b) => paintable(*a) && paintable(*b),
        SLayout::Parentheses(a) => paintable(*a) && height_s(*a) >= 1,
    }
}

pub open spec fn all_paintable(t: Seq<SLayout>) -> bool
    decreases t, 0nat,
{
    t.len() == 0 || (all_paintable(t.subrange(0, t.len() - 1)) && paintable(t[t.len() - 1]))
}

/// The blank canvas with the parentheses drawn: `(` and `)` for one row,
/// and for more the corners `⎛ ⎝ ⎞ ⎠` with `|` between them.
pub open spec fn parentheses_frame(width: nat, height: nat) -> Seq<Seq<char>> {
    Seq::new(
        height,
        |i: int|
            Seq::new(
                width,
                |j: int|
                    if height == 1 {
                        if j == 0 {
                            '('
                        } else if j == width - 1 {
                            ')'
                        } else {
                            ' '
                        }
                    } else if j == 0 {
                        if i == 0 {
                            '⎛'
                        } else if i == height - 1 {
                            '⎝'
                        } else {
                            '|'
                        }
                    } else if j == width - 1 {
                        if i == 0 {
                            '⎞'
                        } else if i == height - 1 {
                            '⎠'
                        } else {
                            '|'
                        }
                    } else {
                        ' '
                    },
            ),
    )
}

/// The painted layout: a text's first characters, as many as it is wide;
/// the items of a column side by side, aligned at the bottom; the base at
/// the bottom left and the superscript at the top right; and the inside of
/// parentheses within their frame.
pub open spec fn paint_s(l: SLayout) -> Seq<Seq<char>>
    decreases l, 1nat,
{
    let w = width_s(l);
    let h = height_s(l);
    match l {
        SLayout::Text(t) => seq![t.subrange(0, w as int)],
        SLayout::Column(t) => column_canvas(t, t.len() as int, w, h),
        SLayout::SuperScript(a, b) => overlay(
            overlay(blank(w, h), paint_s(*a), 0, h - height_s(*a)),
            paint_s(*b),
            width_s(*a) as int,
            0,
        ),
        SLayout::Parentheses(a) => overlay(parentheses_frame(w, h), paint_s(*a), 1, 0),
    }
}

/// The first `k` items of a column painted onto a blank `w` by `h` canvas.
pub open spec fn column_canvas(t: Seq<SLayout>, k: int, w: nat, h: nat) -> Seq<Seq<char>>
    decreases t, 0nat, k,
{
    if k <= 0 || k > t.len() {
        blank(w, h)
    } else {
        overlay(
            column_canvas(t, k - 1, w, h),
            paint_s(t[k - 1]),
            width_sum(t.subrange(0, k - 1)) as int,
            h - height_s(t[k - 1]),
        )
    }
}

proof fn lemma_width_prefix(t: Seq<SLayout>, k: int)
    requires
        0 <= k <= t.len(),
    ensures
        width_sum(t.subrange(0, k)) <= width_sum(t),
        k < t.len() ==> width_sum(t.subrange(0, k + 1)) == width_sum(t.subrange(0, k)) + width_s(t[k]),
    decreases t.len() - k,
{
    if k < t.len() {
        lemma_prefix_step(t, k);
        lemma_width_prefix(t, k + 1);
    } else {
        assert(t.subrange(0, k) =~= t);
    }
}

proof fn lemma_height_elem(t: Seq<SLayout>, k: int)
    requires
        0 <= k < t.len(),
    ensures
        height_s(t[k]) <= height_max(t),
    decreases t.len(),
{
    if k < t.len() - 1 {
        let init = t.subrange(0, t.len() - 1);
        lemma_height_elem(init, k);
        assert(init[k] == t[k]);
    }
}

proof fn lemma_height_prefix(t: Seq<SLayout>, k: int)
    requires
        0 <= k <= t.len(),
    ensures
        height_max(t.subrange(0, k)) <= height_max(t),
    decreases t.len() - k,
{
    if k < t.len() {
        lemma_prefix_step(t, k);
        lemma_height_prefix(t, k + 1);
    } else {
        assert(t.subrange(0, k) =~= t);
    }
}

proof fn lemma_all_paintable_elem(t: Seq<SLayout>, k: int)
    requires
        all_paintable(t),
        0 <= k < t.len(),
    ensures
        paintable(t[k]),
    decreases t.len(),
{
    if k < t.len() - 1 {
        let init = t.subrange(0, t.len() - 1);
        lemma_all_paintable_elem(init, k);
        assert(init[k] == t[k]);
    }
}

/// Writing over a canvas keeps its shape.
proof fn lemma_overlay_shape(c: Seq<Seq<char>>, s: Seq<Seq<char>>, x: int, y: int)
    ensures
        overlay(c, s, x, y).len() == c.len(),
        forall|i: int| 0 <= i < c.len() ==> #[trigger] overlay(c, s, x, y)[i].len() == c[i].len(),
{
}

/// Whether a canvas has `h` rows of `w` characters.
pub open spec fn has_shape(c: Seq<Seq<char>>, w: nat, h: nat) -> bool {
    c.len() == h && forall|i: int| 0 <= i < h ==> (#[trigger] c[i]).len() == w
}

proof fn lemma_column_canvas_shape(t: Seq<SLayout>, k: int, w: nat, h: nat)
    ensures
        has_shape(column_canvas(t, k, w, h), w, h),
    decreases k,
{
    if 0 < k <= t.len() {
        lemma_column_canvas_shape(t, k - 1, w, h);
        let c = column_canvas(t, k - 1, w, h);
        lemma_overlay_shape(c, paint_s(t[k - 1]), width_sum(t.subrange(0, k - 1)) as int, h - height_s(t[k - 1]));
    }
}

/// A paintable layout paints as `height_s` rows of `width_s` characters.
pub proof fn lemma_paint_shape(l: SLayout)
    requires
        paintable(l),
    ensures
        has_shape(paint_s(l), width_s(l), height_s(l)),
    decreases l,
{
    let w = width_s(l);
    let h = height_s(l);
    match l {
        SLayout::Text(t) => {},
        SLayout::Column(t) => {
            lemma_column_canvas_shape(t, t.len() as int, w, h);
        },
        SLayout::SuperScript(a, b) => {
            let c1 = overlay(blank(w, h), paint_s(*a), 0, h - height_s(*a));
            lemma_overlay_shape(blank(w, h), paint_s(*a), 0, h - height_s(*a));
            lemma_overlay_shape(c1, paint_s(*b), width_s(*a) as int, 0);
        },
        SLayout::Parentheses(a) => {
            lemma_overlay_shape(parentheses_frame(w, h), paint_s(*a), 1, 0);
        },
    }
}

impl Layout {
    /// The columns the layout takes.
    #[verifier::loop_isolation(false)]
    pub fn width(&self) -> (r: usize)
        requires
            width_s(self@) <= usize::MAX,
        ensures
            r == width_s(self@),
        decreases self,
    {
        match self {
            Layout::Text(t) => text_width(t),
            Layout::Column(t) => {
                let ghost tv = layout_views(t@);
                let mut sum: usize = 0;
                for i in 0..t.len()
                    invariant
                        tv == layout_views(t@),
                        width_sum(tv) <= usize::MAX,
                        sum == width_sum(tv.subrange(0, i as int)),
                {
                    proof {
                        lemma_width_prefix(tv, i as int);
                        lemma_width_prefix(tv, i + 1);
                    }
                    sum = sum + t[i].width();
                }
                proof {
                    assert(tv.subrange(0, t@.len() as int) =~= tv);
                }
                sum
            },
            Layout::SuperScript(a, b) => a.width() + b.width(),
            Layout::Parentheses(a) => a.width() + 2,
        }
    }

    /// The rows the layout takes.
    #[verifier::loop_isolation(false)]
    pub fn height(&self) -> (r: usize)
        requires
            height_s(self@) <= usize::MAX,
        ensures
            r == height_s(self@),
        decreases self,
    {
        match self {
            Layout::Text(_) => 1,
            Layout::Column(t) => {
                let ghost tv = layout_views(t@);
                let mut best: usize = 0;
                for i in 0..t.len()
                    invariant
                        tv == layout_views(t@),
                        height_max(tv) <= usize::MAX,
                        best == height_max(tv.subrange(0, i as int)),
                {
                    proof {
                        lemma_prefix_step(tv, i as int);
                        lemma_height_elem(tv, i as int);
                    }
                    let h = t[i].height();
                    if best < h {
                        best = h;
                    }
                }
                proof {
                    assert(tv.subrange(0, t@.len() as int) =~= tv);
                }
                best
            },
            Layout::SuperScript(a, b) => a.height() + b.height(),
            Layout::Parentheses(a) => a.height(),
        }
    }

    /// Whether the layout can be painted.
    pub fn is_paintable(&self) -> (r: bool)
        ensures
            r == paintable(self@),
        decreases self,
    {
        self.check_paintable().is_some()
    }

    /// The width and height where the layout can be painted.
    #[verifier::loop_isolation(false)]
    fn check_paintable(&self) -> (r: Option<(usize, usize)>)
        ensures
            r is Some <==> paintable(self@),
            r matches Some(p) ==> p.0 == width_s(self@) && p.1 == height_s(self@),
        decreases self,
    {
        match self {
            Layout::Text(t) => {
                let w = text_width(t);
                if w <= t.as_str().unicode_len() {
                    Some((w, 1))
                } else {
                    None
                }
            },
            Layout::Column(t) => {
                let ghost tv = layout_views(t@);
                let mut sum: usize = 0;
                let mut best: usize = 0;
                for i in 0..t.len()
                    invariant
                        tv == layout_views(t@),
                        all_paintable(tv.subrange(0, i as int)),
                        sum == width_sum(tv.subrange(0, i as int)),
                        best == height_max(tv.subrange(0, i as int)),
                {
                    proof {
                        lemma_prefix_step(tv, i as int);
                    }
                    match t[i].check_paintable() {
                        None => {
                            proof {
                                lemma_all_paintable_prefix(tv, i + 1);
                            }
                            return None;
                        },
                        Some((w, h)) => {
                            if sum > usize::MAX - w {
                                proof {
                                    lemma_width_prefix(tv, i + 1);
                                    lemma_width_prefix(tv, i as int);
                                }
                                return None;
                            }
                            sum = sum + w;
                            if best < h {
                                best = h;
                            }
                        },
                    }
                }
                proof {
                    assert(tv.subrange(0, t@.len() as int) =~= tv);
                }
                Some((sum, best))
            },
            Layout::SuperScript(a, b) => match (a.check_paintable(), b.check_paintable()) {
                (Some((wa, ha)), Some((wb, hb))) => {
                    if wa > usize::MAX - wb || ha > usize::MAX - hb {
                        None
                    } else {
                        Some((wa + wb, ha + hb))
                    }
                },
                _ => None,
            },
            Layout::Parentheses(a) => match a.check_paintable() {
                Some((w, h)) => {
                    if w > usize::MAX - 2 || h == 0 {
                        None
                    } else {
                        Some((w + 2, h))
                    }
                },
                None => None,
            },
        }
    }

    /// The canvas of this layout, or `None` where it cannot be painted (see
    /// `paintable`).
    pub fn try_paint(&self) -> (r: Option<Canvas>)
        ensures
            r is Some <==> paintable(self@),
            r matches Some(c) ==> c@ == paint_s(self@),
    {
        if self.is_paintable() {
            Some(self.paint())
        } else {
            None
        }
    }

    /// Paints the layout onto a canvas of its width and height.
    #[verifier::loop_isolation(false)]
    pub fn paint(&self) -> (r: Canvas)
        requires
            paintable(self@),
        ensures
            r@ == paint_s(self@),
        decreases self,
    {
        let width = self.width();
        let height = self.height();
        let ghost l = self@;
        match self {
            Layout::Text(t) => {
                let s = t.as_str();
                let mut row: Vec<char> = Vec::new();
                for i in 0..width
                    invariant
                        width == text_columns(t@),
                        width <= t@.len(),
                        s@ == t@,
                        row@ == t@.subrange(0, i as int),
                {
                    row.push(s.get_char(i));
                    assert(row@ =~= t@.subrange(0, i + 1));
                }
                let mut rows: Vec<Vec<char>> = Vec::new();
                rows.push(row);
                let c = Canvas(rows);
                assert(c@ =~= seq![t@.subrange(0, width as int)]);
                c
            },
            Layout::Column(t) => {
                let ghost tv = layout_views(t@);
                let mut canvas = Canvas::new(width, height);
                let mut x: usize = 0;
                for i in 0..t.len()
                    invariant
                        tv == layout_views(t@),
                        all_paintable(tv),
                        width == width_sum(tv),
                        height == height_max(tv),
                        x == width_sum(tv.subrange(0, i as int)),
                        canvas@ == column_canvas(tv, i as int, width as nat, height as nat),
                {
                    proof {
                        lemma_all_paintable_elem(tv, i as int);
                        lemma_width_prefix(tv, i as int);
                        lemma_width_prefix(tv, i + 1);
                        lemma_height_elem(tv, i as int);
                        lemma_paint_shape(tv[i as int]);
                        lemma_column_canvas_shape(tv, i as int, width as nat, height as nat);
                    }
                    let p = t[i].paint();
                    let h = t[i].height();
                    let w = t[i].width();
                    canvas.paint_at(&p, x, height - h);
                    x = x + w;
                }
                canvas
            },
            Layout::SuperScript(a, b) => {
                proof {
                    lemma_paint_shape(a@);
                    lemma_paint_shape(b@);
                }
                let mut canvas = Canvas::new(width, height);
                let pa = a.paint();
                let ha = a.height();
                let wa = a.width();
                canvas.paint_at(&pa, 0, height - ha);
                proof {
                    lemma_overlay_shape(blank(width as nat, height as nat), pa@, 0, height - ha);
                }
                let pb = b.paint();
                canvas.paint_at(&pb, wa, 0);
                canvas
            },
            Layout::Parentheses(a) => {
                proof {
                    lemma_paint_shape(a@);
                }
                let mut canvas = parentheses_canvas(width, height);
                let pa = a.paint();
                canvas.paint_at(&pa, 1, 0);
                canvas
            },
        }
    }
}

proof fn lemma_all_paintable_prefix(t: Seq<SLayout>, n: int)
    requires
        0 <= n <= t.len(),
        !all_paintable(t.subrange(0, n)),
    ensures
        !all_paintable(t),
    decreases t.len() - n,
{
    if n < t.len() {
        lemma_prefix_step(t, n);
        lemma_all_paintable_prefix(t, n + 1);
    } else {
        assert(t.subrange(0, n) =~= t);
    }
}

/// The frame of parentheses of the given size.
fn parentheses_canvas(width: usize, height: usize) -> (r: Canvas)
    requires
        width >= 2,
        height >= 1,
    ensures
        r@ == parentheses_frame(width as nat, height as nat),
{
    let ghost f = parentheses_frame(width as nat, height as nat);
    let mut rows: Vec<Vec<char>> = Vec::new();
    for i in 0..height
        invariant
            f == parentheses_frame(width as nat, height as nat),
            width >= 2,
            rows@.len() == i,
            forall|k: int| 0 <= k < i ==> (#[trigger] rows@[k])@ == f[k],
    {
        let mut row: Vec<char> = Vec::new();
        for j in 0..width
            invariant
                f == parentheses_frame(width as nat, height as nat),
                width >= 2,
                i < height,
                row@ == f[i as int].subrange(0, j as int),
        {
            let c = if height == 1 {
                if j == 0 {
                    '('
                } else if j == width - 1 {
                    ')'
                } else {
                    ' '
                }
            } else if j == 0 {
                if i == 0 {
                    '⎛'
                } else if i == height - 1 {
                    '⎝'
                } else {
                    '|'
                }
            } else if j == width - 1 {
                if i == 0 {
                    '⎞'
                } else if i == height - 1 {
                    '⎠'
                } else {
                    '|'
                }
            } else {
                ' '
            };
            row.push(c);
            assert(row@ =~= f[i as int].subrange(0, j + 1));
        }
        assert(row@ =~= f[i as int]);
        rows.push(row);
    }
    let r = Canvas(rows);
    assert(r@ =~= f);
    r
}

/// Something that lays itself out for printing.
pub trait Print {
    /// Whether the value can be laid out.
    spec fn can_lay_out(&self) -> bool;

    fn to_layout(&self) -> (r: Layout)
        requires
            self.can_lay_out(),
    ;
}

/// The layout of an expression: constants and symbols as text, the
/// operands of a sum in a row with `+` before every operand after the first
/// whose text does not start with `-`, the factors of a product in a row
/// separated by `⋅` (sums in parentheses, the first constant `-1` shown as a
/// leading `-`), and a power as a superscript (a sum or product base in
/// parentheses).
pub open spec fn layout_of<C: Scalar>(e: SExpr<C::V>) -> SLayout
    decreases e, 0nat,
{
    match e {
        SExpr::Const(c) => SLayout::Text(C::text_v(c)),
        SExpr::Symbol(s) => SLayout::Text(s),
        SExpr::Add(t) => SLayout::Column(sum_layouts::<C>(t)),
        SExpr::Mul(t) => {
            let (neg, items) = product_layouts::<C>(t);
            let row = interleave_dots(items);
            SLayout::Column(
                if neg {
                    seq![SLayout::Text(seq!['-'])] + row
                } else {
                    row
                },
            )
        },
        SExpr::Pow(a, b) => match *a {
            SExpr::Add(_) => SLayout::SuperScript(
                Box::new(SLayout::Parentheses(Box::new(layout_of::<C>(*a)))),
                Box::new(layout_of::<C>(*b)),
            ),
            SExpr::Mul(_) => SLayout::SuperScript(
                Box::new(SLayout::Parentheses(Box::new(layout_of::<C>(*a)))),
                Box::new(layout_of::<C>(*b)),
            ),
            _ => SLayout::SuperScript(Box::new(layout_of::<C>(*a)), Box::new(layout_of::<C>(*b))),
        },
    }
}

/// The items of a sum's row.
pub open spec fn sum_layouts<C: Scalar>(t: Seq<SExpr<C::V>>) -> Seq<SLayout>
    decreases t, 0nat,
{
    if t.len() == 0 {
        Seq::empty()
    } else {
        let v = t[t.len() - 1];
        let init = sum_layouts::<C>(t.subrange(0, t.len() - 1));
        (if t.len() > 1 && !starts_with_minus(expr_text::<C>(v)) {
            init.push(SLayout::Text(seq!['+']))
        } else {
            init
        }).push(layout_of::<C>(v))
    }
}

/// The factors' layouts of a product, and whether a `-1` was taken as the
/// sign.
pub open spec fn product_layouts<C: Scalar>(t: Seq<SExpr<C::V>>) -> (bool, Seq<SLayout>)
    decreases t, 0nat,
{
    if t.len() == 0 {
        (false, Seq::empty())
    } else {
        let (neg, items) = product_layouts::<C>(t.subrange(0, t.len() - 1));
        let v = t[t.len() - 1];
        match v {
            SExpr::Const(c) => if !neg && C::text_v(c) == seq!['-', '1'] {
                (true, items)
            } else {
                (neg, items.push(layout_of::<C>(v)))
            },
            SExpr::Add(_) => (neg, items.push(SLayout::Parentheses(Box::new(layout_of::<C>(v))))),
            _ => (neg, items.push(layout_of::<C>(v))),
        }
    }
}

/// The items with a `⋅` between each two.
pub open spec fn interleave_dots(items: Seq<SLayout>) -> Seq<SLayout>
    decreases items.len(),
{
    if items.len() <= 1 {
        items
    } else {
        interleave_dots(items.subrange(0, items.len() - 1)).push(SLayout::Text(seq!['⋅'])).push(
            items[items.len() - 1],
        )
    }
}

/// Whether an expression can be laid out: every product keeps at least one
/// factor once a leading `-1` is taken as its sign.
pub open spec fn layout_defined<C: Scalar>(e: SExpr<C::V>) -> bool
    decreases e, 0nat,
{
    match e {
        SExpr::Add(t) => all_layout_defined::<C>(t),
        SExpr::Mul(t) => all_layout_defined::<C>(t) && product_layouts::<C>(t).1.len() > 0,
        SExpr::Pow(a, b) => layout_defined::<C>(*a) && layout_defined::<C>(*b),
        _ => true,
    }
}

pub open spec fn all_layout_defined<C: Scalar>(t: Seq<SExpr<C::V>>) -> bool
    decreases t, 0nat,
{
    t.len() == 0 || (all_layout_defined::<C>(t.subrange(0, t.len() - 1)) && layout_defined::<C>(t[t.len() - 1]))
}

proof fn lemma_all_layout_defined_elem<C: Scalar>(t: Seq<SExpr<C::V>>, k: int)
    requires
        all_layout_defined::<C>(t),
        0 <= k < t.len(),
    ensures
        layout_defined::<C>(t[k]),
    decreases t.len(),
{
    if k < t.len() - 1 {
        let init = t.subrange(0, t.len() - 1);
        lemma_all_layout_defined_elem::<C>(init, k);
        assert(init[k] == t[k]);
    }
}

/// A text layout.
fn text_layout(s: &str) -> (r: Layout)
    ensures
        r@ == SLayout::Text(s@),
{
    Layout::Text(s.to_owned())
}

impl<C: Scalar> Print for Expr<C> {
    open spec fn can_lay_out(&self) -> bool {
        layout_defined::<C>(self@)
    }

    #[verifier::loop_isolation(false)]
    fn to_layout(&self) -> (r: Layout)
        ensures
            r@ == layout_of::<C>(self@),
        decreases self,
    {
        match self {
            Expr::Const(c) => Layout::Text(c.text()),
            Expr::Symbol(s) => Layout::Text(s.name().clone()),
            Expr::Add(t) => {
                let ghost tv = views(t@);
                let mut a: Vec<Layout> = Vec::new();
                for i in 0..t.len()
                    invariant
                        tv == views(t@),
                        all_layout_defined::<C>(tv),
                        layout_views(a@) == sum_layouts::<C>(tv.subrange(0, i as int)),
                {
                    proof {
                        lemma_prefix_step(tv, i as int);
                        lemma_all_layout_defined_elem::<C>(tv, i as int);
                    }
                    let ghost before = layout_views(a@);
                    if i > 0 && !has_minus_sign(&t[i].to_text()) {
                        let plus = text_layout("+");
                        proof {
                            reveal_strlit("+");
                            assert("+"@ =~= seq!['+']);
                            assert(plus@ == SLayout::Text(seq!['+']));
                            assert(layout_views(a@.push(plus)) =~= before.push(plus@));
                        }
                        a.push(plus);
                    }
                    let ghost mid = layout_views(a@);
                    let item = t[i].to_layout();
                    proof {
                        assert(layout_views(a@.push(item)) =~= mid.push(item@));
                    }
                    a.push(item);
                }
                proof {
                    assert(tv.subrange(0, t@.len() as int) =~= tv);
                }
                Layout::Column(a)
            },
            Expr::Mul(t) => {
                let ghost tv = views(t@);
                let mut neg = false;
                let mut a: Vec<Layout> = Vec::new();
                for i in 0..t.len()
                    invariant
                        tv == views(t@),
                        all_layout_defined::<C>(tv),
                        (neg, layout_views(a@)) == product_layouts::<C>(tv.subrange(0, i as int)),
                {
                    proof {
                        lemma_prefix_step(tv, i as int);
                        lemma_all_layout_defined_elem::<C>(tv, i as int);
                    }
                    let ghost before = layout_views(a@);
                    match &t[i] {
                        Expr::Const(c) => {
                            let txt = c.text();
                            if !neg && is_minus_one(&txt) {
                                neg = true;
                            } else {
                                let item = t[i].to_layout();
                                proof {
                                    assert(layout_views(a@.push(item)) =~= before.push(item@));
                                }
                                a.push(item);
                            }
                        },
                        Expr::Add(_) => {
                            let item = Layout::Parentheses(Box::new(t[i].to_layout()));
                            proof {
                                assert(layout_views(a@.push(item)) =~= before.push(item@));
                            }
                            a.push(item);
                        },
                        _ => {
                            let item = t[i].to_layout();
                            proof {
                                assert(layout_views(a@.push(item)) =~= before.push(item@));
                            }
                            a.push(item);
                        },
                    }
                }
                proof {
                    assert(tv.subrange(0, t@.len() as int) =~= tv);
                }
                let ghost items = layout_views(a@);
                let mut row: Vec<Layout> = Vec::new();
                if neg {
                    let minus = text_layout("-");
                    proof {
                        reveal_strlit("-");
                        assert("-"@ =~= seq!['-']);
                        assert(layout_views(row@.push(minus)) =~= seq![SLayout::Text(seq!['-'])]);
                    }
                    row.push(minus);
                } else {
                    assert(layout_views(row@) =~= Seq::<SLayout>::empty());
                }
                let ghost pre = layout_views(row@);
                let mut k: usize = 0;
                let n = a.len();
                let mut rest = a;
                proof {
                    assert(items.subrange(0, 0) =~= Seq::<SLayout>::empty());
                }
                while k < n
                    invariant
                        n == items.len(),
                        n >= 1,
                        k <= n,
                        layout_views(rest@) == items,
                        layout_views(row@) == pre + interleave_dots(items.subrange(0, k as int)),
                    decreases n - k,
                {
                    proof {
                        lemma_prefix_step(items, k as int);
                    }
                    let ghost before = layout_views(row@);
                    if k > 0 {
                        let dot = text_layout("⋅");
                        proof {
                            reveal_strlit("⋅");
                            assert("⋅"@ =~= seq!['⋅']);
                            assert(dot@ == SLayout::Text(seq!['⋅']));
                            assert(layout_views(row@.push(dot)) =~= before.push(dot@));
                        }
                        row.push(dot);
                    }
                    let ghost mid = layout_views(row@);
                    let item = take_layout(&mut rest, k);
                    proof {
                        assert(layout_views(row@.push(item)) =~= mid.push(item@));
                        if k == 0 {
                            assert(items.subrange(0, 1) =~= seq![items[0]]);
                        }
                        assert(pre + interleave_dots(items.subrange(0, k + 1)) =~= layout_views(row@.push(item)));
                    }
                    row.push(item);
                    k = k + 1;
                }
                proof {
                    assert(items.subrange(0, n as int) =~= items);
                    if !neg {
                        assert(pre + interleave_dots(items) =~= interleave_dots(items));
                    }
                }
                Layout::Column(row)
            },
            Expr::Pow(a, b) => {
                let la = a.to_layout();
                let lb = b.to_layout();
                proof {
                    reveal_with_fuel(layout_view, 2);
                }
                match &**a {
                    Expr::Add(_) | Expr::Mul(_) => Layout::SuperScript(
                        Box::new(Layout::Parentheses(Box::new(la))),
                        Box::new(lb),
                    ),
                    _ => Layout::SuperScript(Box::new(la), Box::new(lb)),
                }
            },
        }
    }
}

impl<C: Scalar> Expr<C> {
    /// Whether the expression can be laid out: every product keeps a factor
    /// once a leading `-1` is taken as its sign.
    #[verifier::loop_isolation(false)]
    pub fn is_printable(&self) -> (r: bool)
        ensures
            r == layout_defined::<C>(self@),
        decreases self,
    {
        match self {
            Expr::Add(t) => all_printable(t),
            Expr::Mul(t) => {
                if !all_printable(t) {
                    return false;
                }
                let ghost tv = views(t@);
                let mut neg = false;
                let mut count: usize = 0;
                for i in 0..t.len()
                    invariant
                        tv == views(t@),
                        count <= i,
                        neg == product_layouts::<C>(tv.subrange(0, i as int)).0,
                        count == product_layouts::<C>(tv.subrange(0, i as int)).1.len(),
                {
                    proof {
                        lemma_prefix_step(tv, i as int);
                    }
                    match &t[i] {
                        Expr::Const(c) => {
                            let txt = c.text();
                            if !neg && is_minus_one(&txt) {
                                neg = true;
                            } else {
                                count = count + 1;
                            }
                        },
                        _ => {
                            count = count + 1;
                        },
                    }
                }
                proof {
                    assert(tv.subrange(0, t@.len() as int) =~= tv);
                }
                count > 0
            },
            Expr::Pow(a, b) => a.is_printable() && b.is_printable(),
            _ => true,
        }
    }
}

/// Whether every operand can be laid out.
fn all_printable<C: Scalar>(t: &Vec<Expr<C>>) -> (r: bool)
    ensures
        r == all_layout_defined::<C>(views(t@)),
    decreases t,
{
    let ghost tv = views(t@);
    for i in 0..t.len()
        invariant
            tv == views(t@),
            all_layout_defined::<C>(tv.subrange(0, i as int)),
    {
        proof {
            lemma_prefix_step(tv, i as int);
        }
        if !t[i].is_printable() {
            proof {
                if all_layout_defined::<C>(tv) {
                    lemma_all_defined_prefix::<C>(tv, i as int + 1);
                }
            }
            return false;
        }
    }
    proof {
        assert(tv.subrange(0, t@.len() as int) =~= tv);
    }
    true
}

/// Every prefix of operands that can all be laid out can be laid out.
proof fn lemma_all_defined_prefix<C: Scalar>(t: Seq<SExpr<C::V>>, k: int)
    requires
        0 <= k <= t.len(),
        all_layout_defined::<C>(t),
    ensures
        all_layout_defined::<C>(t.subrange(0, k)),
    decreases t.len() - k,
{
    if k < t.len() {
        lemma_all_defined_prefix::<C>(t.subrange(0, t.len() - 1), k);
        assert(t.subrange(0, t.len() - 1).subrange(0, k) =~= t.subrange(0, k));
    } else {
        assert(t.subrange(0, k) =~= t);
    }
}

/// Whether the text is `-1`.
fn is_minus_one(s: &String) -> (r: bool)
    ensures
        r == (s@ == seq!['-', '1']),
{
    let t = s.as_str();
    if t.unicode_len() != 2 {
        false
    } else {
        let r = t.get_char(0) == '-' && t.get_char(1) == '1';
        assert(r ==> t@ =~= seq!['-', '1']);
        r
    }
}

/// Takes the layout at `k` out of `v`, leaving a placeholder of the same
/// model.
fn take_layout(v: &mut Vec<Layout>, k: usize) -> (r: Layout)
    requires
        k < old(v)@.len(),
    ensures
        r@ == layout_views(old(v)@)[k as int],
        layout_views(final(v)@) == layout_views(old(v)@),
{
    let ghost m = old(v)@[k as int]@;
    let ghost before = layout_views(v@);
    let mut item = Layout::Column(Vec::new());
    std::mem::swap(&mut item, &mut v[k]);
    let copy = item.copy_layout();
    let ghost c2 = copy@;
    v.set(k, copy);
    proof {
        assert(layout_views(v@) =~= before);
    }
    item
}

impl Layout {
    /// A copy of the layout.
    #[verifier::loop_isolation(false)]
    pub fn copy_layout(&self) -> (r: Layout)
        ensures
            r@ == self@,
        decreases self,
    {
        match self {
            Layout::Text(t) => Layout::Text(t.clone()),
            Layout::Column(t) => {
                let mut v: Vec<Layout> = Vec::new();
                for i in 0..t.len()
                    invariant
                        v@.len() == i,
                        forall|j: int| 0 <= j < i ==> (#[trigger] v@[j])@ == t@[j]@,
                {
                    v.push(t[i].copy_layout());
                }
                assert(layout_views(v@) =~= layout_views(t@));
                Layout::Column(v)
            },
            Layout::SuperScript(a, b) => Layout::SuperScript(Box::new(a.copy_layout()), Box::new(b.copy_layout())),
            Layout::Parentheses(a) => Layout::Parentheses(Box::new(a.copy_layout())),
        }
    }
}

impl Canvas {
    /// `height` rows of `width` spaces.
    pub fn new(width: usize, height: usize) -> (r: Canvas)
        ensures
            r@ == blank(width as nat, height as nat),
    {
        let mut rows: Vec<Vec<char>> = Vec::new();
        for i in 0..height
            invariant
                rows@.len() == i,
                forall|k: int| 0 <= k < i ==> (#[trigger] rows@[k])@ == Seq::new(width as nat, |j: int| ' '),
        {
            let mut row: Vec<char> = Vec::new();
            for j in 0..width
                invariant
                    row@ == Seq::new(j as nat, |q: int| ' '),
            {
                row.push(' ');
                assert(row@ =~= Seq::new((j + 1) as nat, |q: int| ' '));
            }
            rows.push(row);
        }
        let r = Canvas(rows);
        assert(r@ =~= blank(width as nat, height as nat));
        r
    }

    /// Writes `canvas` over this one, its top-left corner at column `x` of
    /// row `y`; it must lie within this canvas.
    pub fn paint_at(&mut self, canvas: &Canvas, x: usize, y: usize)
        requires
            fits(old(self)@, canvas@, x as int, y as int),
        ensures
            final(self)@ == overlay(old(self)@, canvas@, x as int, y as int),
    {
        let ghost c0 = self@;
        let ghost s = canvas@;
        let n = canvas.0.len();
        for i in 0..n
            invariant
                c0 == old(self)@,
                s == canvas@,
                n == s.len(),
                fits(c0, s, x as int, y as int),
                self@.len() == c0.len(),
                forall|r: int| 0 <= r < c0.len() ==> (#[trigger] self@[r]).len() == c0[r].len(),
                forall|r: int, q: int|
                    0 <= r < c0.len() && 0 <= q < c0[r].len() ==> #[trigger] self@[r][q] == if y <= r < y
                        + i && x <= q < x + s[r - y].len() {
                        s[r - y][q - x]
                    } else {
                        c0[r][q]
                    },
        {
            let src = &canvas.0[i];
            assert(src@ == s[i as int]);
            let m = src.len();
            let total = self.0.len();
            assert(total == c0.len());
            let yi = y + i;
            let ghost cur = self@;
            let mut row: Vec<char> = Vec::new();
            std::mem::swap(&mut row, &mut self.0[yi]);
            let ghost before = row@;
            assert(before == cur[yi as int]);
            assert(x + s[i as int].len() <= c0[y + i].len());
            let rl = row.len();
            assert(rl == before.len());
            for j in 0..m
                invariant
                    row@.len() == before.len(),
                    rl == before.len(),
                    x + m <= before.len(),
                    src@ == s[i as int],
                    m == src@.len(),
                    forall|q: int| 0 <= q < before.len() ==> #[trigger] row@[q] == if x <= q < x + j {
                        s[i as int][q - x]
                    } else {
                        before[q]
                    },
            {
                row.set(x + j, src[j]);
            }
            self.0.set(yi, row);
            proof {
                assert forall|r: int| 0 <= r < c0.len() implies (#[trigger] self@[r]).len() == c0[r].len() by {
                    if r == yi {
                        assert(self@[r] == row@);
                    } else {
                        assert(self@[r] == cur[r]);
                    }
                }
                assert forall|r: int, q: int|
                    0 <= r < c0.len() && 0 <= q < c0[r].len() implies #[trigger] self@[r][q] == if y <= r < y
                        + i + 1 && x <= q < x + s[r - y].len() {
                        s[r - y][q - x]
                    } else {
                        c0[r][q]
                    } by {
                    if r == yi {
                        assert(self@[r] == row@);
                    } else {
                        assert(self@[r] == cur[r]);
                    }
                }
            }
        }
        proof {
            let o = overlay(c0, s, x as int, y as int);
            assert forall|r: int| 0 <= r < c0.len() implies #[trigger] self@[r] == o[r] by {
                assert(self@[r] =~= o[r]);
            }
            assert(self@ =~= o);
        }
    }

    /// The rows, each as a string.
    pub fn lines(&self) -> (r: Vec<String>)
        ensures
            r@.len() == self@.len(),
            forall|i: int| 0 <= i < r@.len() ==> (#[trigger] r@[i])@ == self@[i],
    {
        let mut out: Vec<String> = Vec::new();
        for i in 0..self.0.len()
            invariant
                out@.len() == i,
                forall|k: int| 0 <= k < i ==> (#[trigger] out@[k])@ == self@[k],
        {
            out.push(string_of(&self.0[i]));
        }
        out
    }
}

} // verus!
