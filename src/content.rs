//! Content nodes, the primitives they realize into, and their widths.
use vstd::prelude::*;

use crate::introspect::Location;

verus! {

/// The kinds of content node; a style setting names the kind it applies to.
#[derive(Clone, Copy, Debug, PartialEq, Eq, Structural)]
pub enum NodeKind {
    Text,
    Heading,
    Outline,
    PageRef,
}

/// A section heading.
#[derive(Debug, PartialEq)]
pub struct Heading {
    pub title: String,
    /// Nesting depth, starting at 1.
    pub level: usize,
    /// Whether outlines list this heading.
    pub outlined: bool,
    /// The heading's rendered numbering, if it is numbered.
    pub numbers: Option<String>,
}

impl Clone for Heading {
    fn clone(&self) -> (r: Self)
        ensures
            r == *self,
    {
        let numbers = match &self.numbers {
            Some(s) => Some(s.clone()),
            None => None,
        };
        Heading { title: self.title.clone(), level: self.level, outlined: self.outlined, numbers }
    }
}

/// A table of contents. Preparing it attaches the outlined headings found
/// so far.
#[derive(Debug, PartialEq)]
pub struct OutlineNode {
    pub headings: Option<Vec<Heading>>,
}

/// A node of the content tree. A document is a sequence of them.
#[derive(Debug, PartialEq)]
pub enum Content {
    Text(String),
    Space,
    Linebreak,
    Pagebreak,
    Heading(Heading),
    Outline(OutlineNode),
    /// Displays the page number on which the content at a location landed.
    PageRef(Location),
}

/// A primitive that layout places. Realization turns content into these.
#[derive(Debug, PartialEq)]
pub enum Inline {
    Text(String),
    /// Text that takes its room but is not drawn.
    Hidden(String),
    Space,
    /// A filler pattern repeated across the free room of a line.
    Filler(String),
    /// Fractional spacing that takes the free room of a line.
    HFill,
    /// Text linked to a location.
    Link(String, Location),
    /// A page number, linked to a location if it names one.
    Number(u64, Option<Location>),
    Linebreak,
    Pagebreak,
    /// A located heading; it stands on a line of its own.
    Anchor(Location, Heading),
}

impl Clone for Inline {
    fn clone(&self) -> (r: Self)
        ensures
            r == *self,
    {
        match self {
            Inline::Text(s) => Inline::Text(s.clone()),
            Inline::Hidden(s) => Inline::Hidden(s.clone()),
            Inline::Space => Inline::Space,
            Inline::Filler(s) => Inline::Filler(s.clone()),
            Inline::HFill => Inline::HFill,
            Inline::Link(s, l) => Inline::Link(s.clone(), *l),
            Inline::Number(n, l) => Inline::Number(*n, *l),
            Inline::Linebreak => Inline::Linebreak,
            Inline::Pagebreak => Inline::Pagebreak,
            Inline::Anchor(l, h) => Inline::Anchor(*l, h.clone()),
        }
    }
}

/// The number of decimal digits of `n`.
pub open spec fn digits(n: u64) -> nat
    decreases n,
{
    if n < 10 {
        1
    } else {
        1 + digits(n / 10)
    }
}

/// The room a heading's text takes: its numbering and a space, then its title.
pub open spec fn heading_width(h: Heading) -> nat {
    match h.numbers {
        Some(s) => s@.len() + 1 + h.title@.len(),
        None => h.title@.len(),
    }
}

/// The horizontal room a primitive takes.
pub open spec fn width_of(i: Inline) -> nat {
    match i {
        Inline::Text(s) => s@.len(),
        Inline::Hidden(s) => s@.len(),
        Inline::Space => 1,
        Inline::Filler(s) => s@.len(),
        Inline::HFill => 0,
        Inline::Link(s, _) => s@.len(),
        Inline::Number(n, _) => digits(n),
        Inline::Linebreak => 0,
        Inline::Pagebreak => 0,
        Inline::Anchor(_, h) => heading_width(h),
    }
}

pub fn digit_count(n: u64) -> (r: u64)
    ensures
        r == digits(n),
{
    let mut m = n;
    let mut r: u64 = 1;
    while m >= 10
        invariant
            r + digits(m) == digits(n) + 1,
            r <= 20,
        decreases m,
    {
        proof {
            lemma_digits_bound(n);
            lemma_digits_bound(m);
        }
        m = m / 10;
        r = r + 1;
    }
    r
}

spec fn pow10(k: nat) -> nat
    decreases k,
{
    if k == 0 {
        1
    } else {
        10 * pow10((k - 1) as nat)
    }
}

proof fn lemma_digits_below(n: u64, k: nat)
    requires
        k >= 1,
        n < pow10(k),
    ensures
        1 <= digits(n) <= k,
    decreases k,
{
    if n >= 10 {
        if k == 1 {
            reveal_with_fuel(pow10, 2);
            assert(false);
        }
        lemma_digits_below(n / 10, (k - 1) as nat);
    }
}

proof fn lemma_digits_bound(n: u64)
    ensures
        1 <= digits(n) <= 20,
{
    reveal_with_fuel(pow10, 21);
    assert(pow10(20) == 100000000000000000000);
    lemma_digits_below(n, 20);
}

fn str_width(s: &String) -> (r: u64)
    ensures
        r == s@.len(),
{
    let n = s.unicode_len();
    n as u64
}

/// The room a primitive takes, saturating at the largest width.
pub fn width(i: &Inline) -> (r: u64)
    ensures
        r == if width_of(*i) > u64::MAX { u64::MAX as nat } else { width_of(*i) },
{
    match i {
        Inline::Text(s) => str_width(s),
        Inline::Hidden(s) => str_width(s),
        Inline::Space => 1,
        Inline::Filler(s) => str_width(s),
        Inline::HFill => 0,
        Inline::Link(s, _) => str_width(s),
        Inline::Number(n, _) => digit_count(*n),
        Inline::Linebreak => 0,
        Inline::Pagebreak => 0,
        Inline::Anchor(_, h) => {
            let t = str_width(&h.title);
            match &h.numbers {
                Some(s) => str_width(s).saturating_add(1).saturating_add(t),
                None => t,
            }
        },
    }
}

} // verus!
