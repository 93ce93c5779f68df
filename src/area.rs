//! Rectangular areas of the screen, and how sections share them.
use vstd::prelude::*;
use crate::layout::{part_height, section_height, stack_height, padding_spec};
use crate::section::{INDENT, Section, Sections};
use crate::wrap::clamp16;

verus! {

/// A rectangle of character cells.
#[derive(Clone, Copy, Debug, PartialEq, Eq, Structural)]
pub struct Rect {
    pub x: u16,
    pub y: u16,
    pub width: u16,
    pub height: u16,
}

impl Rect {
    /// The rectangle lies on the `u16` grid.
    pub open spec fn wf(self) -> bool {
        self.x + self.width <= u16::MAX && self.y + self.height <= u16::MAX
    }

    /// The row below the rectangle.
    pub open spec fn bottom(self) -> int {
        self.y + self.height
    }

    /// Whether `inner` lies within this rectangle.
    pub open spec fn holds(self, inner: Rect) -> bool {
        &&& self.x <= inner.x
        &&& inner.x + inner.width <= self.x + self.width
        &&& self.y <= inner.y
        &&& inner.bottom() <= self.bottom()
    }

    pub fn new(x: u16, y: u16, width: u16, height: u16) -> (r: Rect)
        ensures
            r == (Rect { x, y, width, height }),
    {
        Rect { x, y, width, height }
    }
}

/// The rows given to the first `k` of the siblings `secs`.
pub open spec fn parts_sum(secs: Seq<Section>, margin: nat, w: nat, k: int) -> nat
    decreases k,
{
    if k <= 0 {
        0
    } else {
        parts_sum(secs, margin, w, k - 1) + part_height(secs, margin, k - 1, w)
    }
}

proof fn lemma_parts_sum(secs: Seq<Section>, margin: nat, w: nat, k: int)
    requires
        0 < k <= secs.len(),
    ensures
        parts_sum(secs, margin, w, k) == stack_height(secs.subrange(0, k), margin, w) + if k < secs.len() {
            padding_spec(secs[k - 1]).1 + margin
        } else {
            0
        },
    decreases k,
{
    let p = secs.subrange(0, k);
    assert(p.drop_last() =~= secs.subrange(0, k - 1));
    assert(p.last() == secs[k - 1]);
    assert(parts_sum(secs, margin, w, k) == parts_sum(secs, margin, w, k - 1) + part_height(secs, margin, k - 1, w));
    if k > 1 {
        lemma_parts_sum(secs, margin, w, k - 1);
        assert(p[p.len() - 2] == secs[k - 2]);
        assert(stack_height(p, margin, w) == stack_height(p.drop_last(), margin, w) + (padding_spec(secs[k - 2]).1
            + margin + padding_spec(secs[k - 1]).0) + section_height(secs[k - 1], w));
    } else {
        assert(p.drop_last() =~= Seq::<Section>::empty());
        assert(stack_height(Seq::<Section>::empty(), margin, w) == 0);
        assert(parts_sum(secs, margin, w, 0) == 0);
        assert(stack_height(p, margin, w) == section_height(secs[0], w));
    }
}

/// The rows given to the siblings together are the rows they take.
pub proof fn lemma_parts_fill_stack(secs: Seq<Section>, margin: nat, w: nat)
    ensures
        parts_sum(secs, margin, w, secs.len() as int) == stack_height(secs, margin, w),
{
    if secs.len() > 0 {
        lemma_parts_sum(secs, margin, w, secs.len() as int);
        assert(secs.subrange(0, secs.len() as int) =~= secs);
    }
}

proof fn lemma_parts_sum_mono(secs: Seq<Section>, margin: nat, w: nat, j: int, k: int)
    requires
        j <= k,
    ensures
        parts_sum(secs, margin, w, j) <= parts_sum(secs, margin, w, k),
    decreases k - j,
{
    if j < k {
        lemma_parts_sum_mono(secs, margin, w, j, k - 1);
    }
}

/// The rectangle that section `i` of the siblings is drawn in when `area`
/// is tall enough for all: below the rows of those before it and its own
/// top padding, as tall as the section.
pub open spec fn placed(secs: Seq<Section>, margin: nat, area: Rect, i: int) -> Rect {
    let top: nat = if i > 0 {
        padding_spec(secs[i]).0
    } else {
        0
    };
    Rect {
        x: area.x,
        y: (area.y + parts_sum(secs, margin, area.width as nat, i) + top) as u16,
        width: area.width,
        height: section_height(secs[i], area.width as nat) as u16,
    }
}

/// The row below the rows given to the first `i` siblings in `area`,
/// stopping at the bottom of the area.
pub open spec fn cursor_at(secs: Seq<Section>, margin: nat, area: Rect, i: int) -> int
    decreases i,
{
    if i <= 0 {
        area.y as int
    } else {
        let c = cursor_at(secs, margin, area, i - 1) + clamp16(part_height(secs, margin, i - 1, area.width as nat) as int);
        if c <= area.bottom() {
            c
        } else {
            area.bottom()
        }
    }
}

/// The rectangle that section `i` of the siblings is drawn in, in any
/// area: below the rows of those before it and its own top padding, as tall
/// as the section, clipped where the area ends.
pub open spec fn rect_at(secs: Seq<Section>, margin: nat, area: Rect, i: int) -> Rect {
    let top: int = if i > 0 {
        padding_spec(secs[i]).0 as int
    } else {
        0
    };
    let c = cursor_at(secs, margin, area, i) + top;
    let start = if c <= area.bottom() {
        c
    } else {
        area.bottom()
    };
    let own = clamp16(section_height(secs[i], area.width as nat) as int);
    let h = if own <= area.bottom() - start {
        own
    } else {
        area.bottom() - start
    };
    Rect { x: area.x, y: start as u16, width: area.width, height: h as u16 }
}

impl Sections {
    /// The rectangles that the sections are drawn in, within `area`, one
    /// for each. Each section gets the rows it takes below those before it,
    /// clipped where `area` ends.
    pub fn layout(&self, area: Rect) -> (r: Vec<Rect>)
        requires
            area.wf(),
        ensures
            r@.len() == self.sections@.len(),
            forall|i: int| 0 <= i < r@.len() ==> area.holds(#[trigger] r@[i]),
            forall|i: int| 0 <= i < r@.len() ==> #[trigger] r@[i] == rect_at(self.sections@, self.inner_margin as nat, area, i),
            stack_height(self.sections@, self.inner_margin as nat, area.width as nat) <= area.height ==> forall|i: int|
                0 <= i < r@.len() ==> #[trigger] r@[i] == placed(self.sections@, self.inner_margin as nat, area, i),
    {
        let ghost secs = self.sections@;
        let ghost m = self.inner_margin as nat;
        let ghost w = area.width as nat;
        let ghost fits = stack_height(secs, m, w) <= area.height;
        let bottom: u32 = area.y as u32 + area.height as u32;
        let mut cursor: u32 = area.y as u32;
        let mut out: Vec<Rect> = Vec::new();
        let n = self.sections.len();
        let mut i: usize = 0;
        proof {
            lemma_parts_fill_stack(secs, m, w);
        }
        while i < n
            invariant
                n == secs.len(),
                secs == self.sections@,
                m == self.inner_margin as nat,
                w == area.width as nat,
                fits == (stack_height(secs, m, w) <= area.height),
                parts_sum(secs, m, w, n as int) == stack_height(secs, m, w),
                area.wf(),
                bottom == area.y + area.height,
                i <= n,
                area.y <= cursor <= bottom,
                cursor == cursor_at(secs, m, area, i as int),
                forall|t: int| 0 <= t < i ==> #[trigger] out@[t] == rect_at(secs, m, area, t),
                fits ==> cursor == area.y + parts_sum(secs, m, w, i as int),
                out@.len() == i,
                forall|t: int| 0 <= t < i ==> area.holds(#[trigger] out@[t]),
                fits ==> forall|t: int| 0 <= t < i ==> #[trigger] out@[t] == placed(secs, m, area, t),
            decreases n - i,
        {
            let part = self.height_of(i, area.width);
            let own = self.sections[i].height(area.width);
            let top: u16 = if i > 0 {
                self.sections[i].padding().0
            } else {
                0
            };
            let start = if cursor + top as u32 <= bottom {
                cursor + top as u32
            } else {
                bottom
            };
            let h = if own as u32 <= bottom - start {
                own as u32
            } else {
                bottom - start
            };
            let rect = Rect { x: area.x, y: start as u16, width: area.width, height: h as u16 };
            proof {
                if fits {
                    lemma_parts_sum_mono(secs, m, w, i + 1, n as int);
                    let ps = part_height(secs, m, i as int, w);
                    assert(parts_sum(secs, m, w, i + 1) == parts_sum(secs, m, w, i as int) + ps);
                    assert(ps <= u16::MAX);
                    assert(part as int == ps);
                    assert(own as int == section_height(secs[i as int], w));
                    assert(rect == placed(secs, m, area, i as int));
                }
            }
            out.push(rect);
            cursor = if cursor + part as u32 <= bottom {
                cursor + part as u32
            } else {
                bottom
            };
            i += 1;
        }
        out
    }
}

/// Drawn with room for all siblings, the sections fill the rows from the
/// top of the area down to exactly as many rows as `height` gives: the
/// first starts at the top (or below nothing), and the last ends where the
/// siblings' height ends.
pub proof fn lemma_layout_fills_height(secs: Seq<Section>, margin: nat, area: Rect)
    requires
        secs.len() > 0,
        area.wf(),
        stack_height(secs, margin, area.width as nat) <= area.height,
    ensures
        placed(secs, margin, area, 0).y == area.y,
        placed(secs, margin, area, secs.len() - 1).bottom() == area.y + stack_height(secs, margin, area.width as nat),
{
    let w = area.width as nat;
    let n = secs.len() as int;
    lemma_parts_fill_stack(secs, margin, w);
    lemma_parts_sum_mono(secs, margin, w, n - 1, n);
    assert(parts_sum(secs, margin, w, n) == parts_sum(secs, margin, w, n - 1) + part_height(secs, margin, n - 1, w));
}

proof fn lemma_cursor_fits(secs: Seq<Section>, margin: nat, area: Rect, i: int)
    requires
        0 <= i <= secs.len(),
        area.wf(),
        stack_height(secs, margin, area.width as nat) <= area.height,
    ensures
        cursor_at(secs, margin, area, i) == area.y + parts_sum(secs, margin, area.width as nat, i),
    decreases i,
{
    let w = area.width as nat;
    lemma_parts_fill_stack(secs, margin, w);
    lemma_parts_sum_mono(secs, margin, w, i, secs.len() as int);
    if i > 0 {
        lemma_cursor_fits(secs, margin, area, i - 1);
    }
}

/// With room for all siblings, each section is drawn in the rectangle
/// `placed` gives it: below the rows of those before it and its own top
/// padding, exactly as many rows tall as the section takes.
pub proof fn lemma_rect_at_placed(secs: Seq<Section>, margin: nat, area: Rect, i: int)
    requires
        0 <= i < secs.len(),
        area.wf(),
        stack_height(secs, margin, area.width as nat) <= area.height,
    ensures
        rect_at(secs, margin, area, i) == placed(secs, margin, area, i),
        rect_at(secs, margin, area, i).height == section_height(secs[i], area.width as nat),
{
    let w = area.width as nat;
    lemma_cursor_fits(secs, margin, area, i);
    lemma_parts_fill_stack(secs, margin, w);
    lemma_parts_sum_mono(secs, margin, w, i + 1, secs.len() as int);
    assert(parts_sum(secs, margin, w, i + 1) == parts_sum(secs, margin, w, i) + part_height(secs, margin, i, w));
}

/// The rows of a block quote's mark, and the area of its content: below
/// the mark, right of a gutter of half an indent.
pub fn block_quote_areas(area: Rect) -> (r: (Rect, Rect))
    requires
        area.wf(),
    ensures
        r.0 == (Rect { x: area.x, y: area.y, width: area.width, height: if area.height > 0 { 1 } else { 0 } }),
        r.1 == ({
            let g: u16 = if area.width > INDENT / 2 { INDENT / 2 } else { area.width };
            let h: u16 = if area.height > 0 { 1 } else { 0 };
            Rect { x: (area.x + g) as u16, y: (area.y + h) as u16, width: (area.width - g) as u16, height: (area.height - h) as u16 }
        }),
        area.holds(r.0),
        area.holds(r.1),
{
    let g: u16 = if area.width > INDENT / 2 { INDENT / 2 } else { area.width };
    let h: u16 = if area.height > 0 { 1 } else { 0 };
    (
        Rect { x: area.x, y: area.y, width: area.width, height: h },
        Rect { x: area.x + g, y: area.y + h, width: area.width - g, height: area.height - h },
    )
}

/// The column of a list item's marker, and the area of its content right
/// of it.
pub fn list_item_areas(area: Rect) -> (r: (Rect, Rect))
    requires
        area.wf(),
    ensures
        r.0 == (Rect { x: area.x, y: area.y, width: if area.width > INDENT { INDENT } else { area.width }, height: area.height }),
        r.1 == ({
            let g: u16 = if area.width > INDENT { INDENT } else { area.width };
            Rect { x: (area.x + g) as u16, y: area.y, width: (area.width - g) as u16, height: area.height }
        }),
        area.holds(r.0),
        area.holds(r.1),
{
    let g: u16 = if area.width > INDENT { INDENT } else { area.width };
    (
        Rect { x: area.x, y: area.y, width: g, height: area.height },
        Rect { x: area.x + g, y: area.y, width: area.width - g, height: area.height },
    )
}

/// The rows of `area` below content of `content_height` rows, if any are
/// left.
pub fn footnote_area(area: Rect, content_height: u16) -> (r: Option<Rect>)
    requires
        area.wf(),
    ensures
        r is Some <==> area.height > content_height,
        r is Some ==> r->0 == (Rect {
            x: area.x,
            y: (area.y + content_height) as u16,
            width: area.width,
            height: (area.height - content_height) as u16,
        }),
{
    if area.height > content_height {
        Some(Rect { x: area.x, y: area.y + content_height, width: area.width, height: area.height - content_height })
    } else {
        None
    }
}

} // verus!
