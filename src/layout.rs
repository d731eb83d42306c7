//! Placing realized primitives on lines and pages.
use vstd::prelude::*;

use crate::content::{width, width_of, Inline};
use crate::frame::{Document, Placed};

verus! {

/// The room offered to layout: the number of lines per page, or `None` for
/// a single region of unbounded extent that never breaks.
#[derive(Clone, Copy, Debug, PartialEq, Eq, Structural)]
pub struct Region {
    pub lines: Option<usize>,
}

/// A width and a height in lines.
#[derive(Clone, Copy, Debug, PartialEq, Eq, Structural)]
pub struct Size {
    pub width: u64,
    pub height: usize,
}

/// Where layout stands: the current page, line and offset, and the extent of
/// what was placed so far.
#[derive(Clone, Copy, Debug, PartialEq, Eq, Structural)]
pub struct Cursor {
    pub page: usize,
    pub line: usize,
    pub x: u64,
    pub right: u64,
    pub bottom: usize,
}

pub open spec fn start() -> Cursor {
    Cursor { page: 0, line: 0, x: 0, right: 0, bottom: 0 }
}

pub open spec fn clamped(n: int) -> u64 {
    if n > u64::MAX {
        u64::MAX
    } else {
        n as u64
    }
}

pub open spec fn sat(n: int) -> usize {
    if n > usize::MAX {
        usize::MAX
    } else {
        n as usize
    }
}

/// Moves to the start of the next line, on a new page where this one is full.
pub open spec fn next_line(c: Cursor, r: Region) -> Cursor {
    match r.lines {
        Some(n) if c.line + 1 >= n => Cursor { page: sat(c.page + 1), line: 0, x: 0, ..c },
        _ => Cursor { line: sat(c.line + 1), x: 0, ..c },
    }
}

/// Moves to the start of the next page; without pages, to the next line.
pub open spec fn next_page(c: Cursor, r: Region) -> Cursor {
    match r.lines {
        Some(_) => Cursor { page: sat(c.page + 1), line: 0, x: 0, ..c },
        None => next_line(c, r),
    }
}

/// Places one primitive at the cursor and moves past it.
pub open spec fn place(c: Cursor, i: Inline) -> (Cursor, Placed) {
    let x = clamped(c.x + width_of(i));
    (
        Cursor {
            x,
            right: if x > c.right { x } else { c.right },
            bottom: if c.line + 1 > c.bottom { sat(c.line + 1) } else { c.bottom },
            ..c
        },
        Placed { page: c.page, line: c.line, x: c.x, item: i },
    )
}

/// One step of layout: the new cursor and what was placed, if anything.
/// A heading stands on a line of its own.
pub open spec fn step(c: Cursor, i: Inline, r: Region) -> (Cursor, Option<Placed>) {
    match i {
        Inline::Linebreak => (next_line(c, r), None),
        Inline::Pagebreak => (next_page(c, r), None),
        Inline::Anchor(_, _) => {
            let c1 = if c.x > 0 { next_line(c, r) } else { c };
            let (c2, p) = place(c1, i);
            (next_line(c2, r), Some(p))
        },
        _ => {
            let (c2, p) = place(c, i);
            (c2, Some(p))
        },
    }
}

/// Layout of a whole sequence of primitives: the final cursor and every
/// placed primitive in order.
pub open spec fn run(items: Seq<Inline>, r: Region) -> (Cursor, Seq<Placed>)
    decreases items.len(),
{
    if items.len() == 0 {
        (start(), Seq::empty())
    } else {
        let (c, ps) = run(items.drop_last(), r);
        let (c2, p) = step(c, items.last(), r);
        match p {
            Some(p) => (c2, ps.push(p)),
            None => (c2, ps),
        }
    }
}

pub open spec fn size_of(c: Cursor) -> Size {
    Size { width: c.right, height: c.bottom }
}

fn next_line_exec(c: Cursor, r: Region) -> (n: Cursor)
    ensures
        n == next_line(c, r),
{
    let line = c.line.saturating_add(1);
    match r.lines {
        Some(n) if line >= n && c.line < usize::MAX => Cursor {
            page: c.page.saturating_add(1),
            line: 0,
            x: 0,
            ..c
        },
        Some(n) if c.line == usize::MAX => Cursor { page: c.page.saturating_add(1), line: 0, x: 0, ..c },
        _ => Cursor { line, x: 0, ..c },
    }
}

fn place_exec(c: Cursor, i: &Inline) -> (r: (Cursor, Placed))
    ensures
        r == place(c, *i),
{
    let x = c.x.saturating_add(width(i));
    let right = if x > c.right {
        x
    } else {
        c.right
    };
    let bottom = if c.line >= c.bottom {
        c.line.saturating_add(1)
    } else {
        c.bottom
    };
    (Cursor { x, right, bottom, ..c }, Placed { page: c.page, line: c.line, x: c.x, item: i.clone() })
}

/// Lays out primitives into the region: the document and the extent of
/// what was placed.
pub fn layout(items: &Vec<Inline>, region: Region) -> (r: (Document, Size))
    ensures
        r.0.items@ == run(items@, region).1,
        r.0.pages == sat(run(items@, region).0.page + 1),
        r.1 == size_of(run(items@, region).0),
{
    let n = items.len();
    let mut c = Cursor { page: 0, line: 0, x: 0, right: 0, bottom: 0 };
    let mut placed: Vec<Placed> = Vec::new();
    let mut i: usize = 0;
    while i < n
        invariant
            i <= n == items@.len(),
            (c, placed@) == run(items@.subrange(0, i as int), region),
        decreases n - i,
    {
        assert(items@.subrange(0, i + 1).drop_last() =~= items@.subrange(0, i as int));
        let it = &items[i];
        match it {
            Inline::Linebreak => {
                c = next_line_exec(c, region);
            },
            Inline::Pagebreak => {
                c = match region.lines {
                    Some(_) => Cursor { page: c.page.saturating_add(1), line: 0, x: 0, ..c },
                    None => next_line_exec(c, region),
                };
            },
            Inline::Anchor(_, _) => {
                let c1 = if c.x > 0 {
                    next_line_exec(c, region)
                } else {
                    c
                };
                let (c2, p) = place_exec(c1, it);
                placed.push(p);
                c = next_line_exec(c2, region);
            },
            _ => {
                let (c2, p) = place_exec(c, it);
                placed.push(p);
                c = c2;
            },
        }
        i = i + 1;
    }
    assert(items@.subrange(0, n as int) =~= items@);
    (Document { pages: c.page.saturating_add(1), items: placed }, Size { width: c.right, height: c.bottom })
}

} // verus!
