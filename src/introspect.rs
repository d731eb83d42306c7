//! Stable locations, the introspector built from a finished pass, and the
//! constraint that records what a pass asked of it.
use vstd::prelude::*;

use crate::content::{Heading, Inline};
use crate::frame::Document;

verus! {

/// The stable identity of a node instance within a pass.
#[derive(Clone, Copy, Debug, PartialEq, Eq, Structural)]
pub struct Location {
    pub frame_id: u64,
    pub disambiguator: u32,
}

/// How often `base` occurs in `s`.
pub open spec fn occurrences(s: Seq<u64>, base: u64) -> nat
    decreases s.len(),
{
    if s.len() == 0 {
        0
    } else {
        occurrences(s.drop_last(), base) + if s.last() == base { 1nat } else { 0nat }
    }
}

/// Hands out locations during one pass: the base id that the caller derived
/// from a node, disambiguated by how often that base was seen before.
pub struct StabilityProvider {
    pub seen: Vec<u64>,
}

impl View for StabilityProvider {
    type V = Seq<u64>;

    open spec fn view(&self) -> Seq<u64> {
        self.seen@
    }
}

impl StabilityProvider {
    pub fn new() -> (r: StabilityProvider)
        ensures
            r@ == Seq::<u64>::empty(),
    {
        StabilityProvider { seen: Vec::new() }
    }

    pub fn identify(&mut self, base: u64) -> (r: Location)
        requires
            old(self)@.len() < u32::MAX,
        ensures
            r.frame_id == base,
            r.disambiguator == occurrences(old(self)@, base),
            final(self)@ == old(self)@.push(base),
    {
        let n = self.seen.len();
        let mut i: usize = 0;
        let mut count: u32 = 0;
        while i < n
            invariant
                i <= n == self.seen@.len() < u32::MAX,
                count == occurrences(self@.subrange(0, i as int), base),
                count <= i,
            decreases n - i,
        {
            assert(self@.subrange(0, i + 1).drop_last() =~= self@.subrange(0, i as int));
            if self.seen[i] == base {
                count = count + 1;
            }
            i = i + 1;
        }
        assert(self@.subrange(0, n as int) =~= self@);
        self.seen.push(base);
        Location { frame_id: base, disambiguator: count }
    }
}

/// A located heading and where it landed.
#[derive(Debug, PartialEq)]
pub struct Entry {
    pub loc: Location,
    pub heading: Heading,
    pub page: usize,
    pub line: usize,
}

impl Clone for Entry {
    fn clone(&self) -> (r: Self)
        ensures
            r == *self,
    {
        Entry { loc: self.loc, heading: self.heading.clone(), page: self.page, line: self.line }
    }
}

/// Which located headings a query asks for.
#[derive(Clone, Copy, Debug, PartialEq, Eq, Structural)]
pub enum Selector {
    Headings,
    Level(usize),
    Outlined,
}

pub open spec fn selects(sel: Selector, h: Heading) -> bool {
    match sel {
        Selector::Headings => true,
        Selector::Level(l) => h.level == l,
        Selector::Outlined => h.outlined,
    }
}

/// The entries a selector picks, in document order.
pub open spec fn select(s: Seq<Entry>, sel: Selector) -> Seq<Entry>
    decreases s.len(),
{
    if s.len() == 0 {
        s
    } else if selects(sel, s.last().heading) {
        select(s.drop_last(), sel).push(s.last())
    } else {
        select(s.drop_last(), sel)
    }
}

pub open spec fn facts(s: Seq<Entry>) -> Seq<Fact> {
    s.map_values(|e: Entry| Fact { loc: e.loc, page: Some(e.page) })
}

/// The page of the first entry at `loc`, if any.
pub open spec fn page_lookup(s: Seq<Entry>, loc: Location) -> Option<usize>
    decreases s.len(),
{
    if s.len() == 0 {
        None
    } else if s[0].loc == loc {
        Some(s[0].page)
    } else {
        page_lookup(s.drop_first(), loc)
    }
}

/// The page and line of the first entry at `loc`, if any.
pub open spec fn position_lookup(s: Seq<Entry>, loc: Location) -> Option<(usize, usize)>
    decreases s.len(),
{
    if s.len() == 0 {
        None
    } else if s[0].loc == loc {
        Some((s[0].page, s[0].line))
    } else {
        position_lookup(s.drop_first(), loc)
    }
}

/// The located headings of a document, in document order.
pub open spec fn entries_of(items: Seq<crate::frame::Placed>) -> Seq<Entry>
    decreases items.len(),
{
    if items.len() == 0 {
        Seq::empty()
    } else {
        let p = items.last();
        match p.item {
            Inline::Anchor(loc, heading) => entries_of(items.drop_last()).push(
                Entry { loc, heading, page: p.page, line: p.line },
            ),
            _ => entries_of(items.drop_last()),
        }
    }
}

/// A location and the page it was found on; `None` where it was unresolved.
#[derive(Clone, Copy, Debug, PartialEq, Eq, Structural)]
pub struct Fact {
    pub loc: Location,
    pub page: Option<usize>,
}

/// A query a pass issued, with the locations and pages it returned. A
/// location stands for the node placed there, which the unchanged input
/// fixes from pass to pass.
#[derive(Debug, PartialEq)]
pub struct Query {
    pub selector: Selector,
    pub result: Vec<Fact>,
}

/// The log of a pass's introspection.
#[derive(Debug, PartialEq)]
pub struct Constraint {
    pub queries: Vec<Query>,
    pub facts: Vec<Fact>,
}

impl View for Constraint {
    type V = (Seq<(Selector, Seq<Fact>)>, Seq<Fact>);

    open spec fn view(&self) -> (Seq<(Selector, Seq<Fact>)>, Seq<Fact>) {
        (self.queries@.map_values(|q: Query| (q.selector, q.result@)), self.facts@)
    }
}

impl Constraint {
    pub fn new() -> (r: Constraint)
        ensures
            r@ == (Seq::<(Selector, Seq<Fact>)>::empty(), Seq::<Fact>::empty()),
    {
        let r = Constraint { queries: Vec::new(), facts: Vec::new() };
        assert(r@.0 =~= Seq::<(Selector, Seq<Fact>)>::empty());
        r
    }
}

/// An introspector over `s` answers every query recorded in `c` as it was
/// answered when it was recorded.
pub open spec fn compatible(s: Seq<Entry>, c: (Seq<(Selector, Seq<Fact>)>, Seq<Fact>)) -> bool {
    &&& forall|i: int| 0 <= i < c.0.len() ==> facts(select(s, c.0[i].0)) == #[trigger] c.0[i].1
    &&& forall|i: int| 0 <= i < c.1.len() ==> page_lookup(s, c.1[i].loc) == #[trigger] c.1[i].page
}

/// The error of a location that no pass has placed yet.
#[derive(Clone, Copy, Debug, PartialEq, Eq, Structural)]
pub enum IntrospectError {
    UnresolvedLocation,
}

/// An index over the located headings of a finished pass.
#[derive(Debug, PartialEq)]
pub struct Introspector {
    pub entries: Vec<Entry>,
}

impl View for Introspector {
    type V = Seq<Entry>;

    open spec fn view(&self) -> Seq<Entry> {
        self.entries@
    }
}

impl Introspector {
    /// Indexes the located headings of a document.
    pub fn new(doc: &Document) -> (r: Introspector)
        ensures
            r@ == entries_of(doc.items@),
    {
        let n = doc.items.len();
        let mut entries: Vec<Entry> = Vec::new();
        let mut i: usize = 0;
        while i < n
            invariant
                i <= n == doc.items@.len(),
                entries@ == entries_of(doc.items@.subrange(0, i as int)),
            decreases n - i,
        {
            assert(doc.items@.subrange(0, i + 1).drop_last() =~= doc.items@.subrange(0, i as int));
            let p = &doc.items[i];
            match &p.item {
                Inline::Anchor(loc, heading) => {
                    entries.push(
                        Entry { loc: *loc, heading: heading.clone(), page: p.page, line: p.line },
                    );
                },
                _ => {},
            }
            i = i + 1;
        }
        assert(doc.items@.subrange(0, n as int) =~= doc.items@);
        Introspector { entries }
    }

    /// The entries that `sel` picks, without recording the query.
    pub fn query(&self, sel: Selector) -> (r: Vec<Entry>)
        ensures
            r@ == select(self@, sel),
    {
        let n = self.entries.len();
        let mut r: Vec<Entry> = Vec::new();
        let mut i: usize = 0;
        while i < n
            invariant
                i <= n == self@.len(),
                r@ == select(self@.subrange(0, i as int), sel),
            decreases n - i,
        {
            assert(self@.subrange(0, i + 1).drop_last() =~= self@.subrange(0, i as int));
            let e = &self.entries[i];
            let hit = match sel {
                Selector::Headings => true,
                Selector::Level(l) => e.heading.level == l,
                Selector::Outlined => e.heading.outlined,
            };
            if hit {
                r.push(e.clone());
            }
            i = i + 1;
        }
        assert(self@.subrange(0, n as int) =~= self@);
        r
    }

    /// The entries that `sel` picks, in document order; the query and its
    /// answer are recorded in `c`.
    pub fn locate(&self, sel: Selector, c: &mut Constraint) -> (r: Vec<Entry>)
        ensures
            r@ == select(self@, sel),
            final(c)@ == (old(c)@.0.push((sel, facts(select(self@, sel)))), old(c)@.1),
    {
        let r = self.query(sel);
        let result = fact_list(&r);
        c.queries.push(Query { selector: sel, result });
        assert(final(c)@.0 =~= old(c)@.0.push((sel, facts(select(self@, sel)))));
        r
    }

    /// The page of the content at `loc`, without recording the question.
    pub fn lookup_page(&self, loc: Location) -> (r: Option<usize>)
        ensures
            r == page_lookup(self@, loc),
    {
        let n = self.entries.len();
        let mut i = n;
        let mut r: Option<usize> = None;
        while i > 0
            invariant
                i <= n == self@.len(),
                r == page_lookup(self@.subrange(i as int, n as int), loc),
            decreases i,
        {
            i = i - 1;
            assert(self@.subrange(i as int, n as int).drop_first() =~= self@.subrange(
                i + 1,
                n as int,
            ));
            if self.entries[i].loc == loc {
                r = Some(self.entries[i].page);
            }
        }
        assert(self@.subrange(0, n as int) =~= self@);
        r
    }

    /// The page on which the content at `loc` landed in the indexed pass;
    /// the question and its answer are recorded in `c`.
    pub fn page_of(&self, loc: Location, c: &mut Constraint) -> (r: Result<usize, IntrospectError>)
        ensures
            r == match page_lookup(self@, loc) {
                Some(p) => Ok::<usize, IntrospectError>(p),
                None => Err(IntrospectError::UnresolvedLocation),
            },
            final(c)@ == (old(c)@.0, old(c)@.1.push(Fact { loc, page: page_lookup(self@, loc) })),
    {
        let page = self.lookup_page(loc);
        c.facts.push(Fact { loc, page });
        match page {
            Some(p) => Ok(p),
            None => Err(IntrospectError::UnresolvedLocation),
        }
    }

    /// The page and the line on it where the content at `loc` landed in the
    /// indexed pass. The question is not recorded in a constraint.
    pub fn position_of(&self, loc: Location) -> (r: Result<(usize, usize), IntrospectError>)
        ensures
            r == match position_lookup(self@, loc) {
                Some(p) => Ok::<(usize, usize), IntrospectError>(p),
                None => Err(IntrospectError::UnresolvedLocation),
            },
    {
        let n = self.entries.len();
        let mut i = n;
        let mut r: Option<(usize, usize)> = None;
        while i > 0
            invariant
                i <= n == self@.len(),
                r == position_lookup(self@.subrange(i as int, n as int), loc),
            decreases i,
        {
            i = i - 1;
            assert(self@.subrange(i as int, n as int).drop_first() =~= self@.subrange(
                i + 1,
                n as int,
            ));
            if self.entries[i].loc == loc {
                r = Some((self.entries[i].page, self.entries[i].line));
            }
        }
        assert(self@.subrange(0, n as int) =~= self@);
        match r {
            Some(p) => Ok(p),
            None => Err(IntrospectError::UnresolvedLocation),
        }
    }

    /// Whether this introspector answers every query and fact recorded in
    /// `c` as it was answered then.
    pub fn valid(&self, c: &Constraint) -> (r: bool)
        ensures
            r == compatible(self@, c@),
    {
        let nq = c.queries.len();
        let mut i: usize = 0;
        while i < nq
            invariant
                i <= nq == c.queries@.len(),
                forall|j: int| 0 <= j < i ==> facts(select(self@, c@.0[j].0)) == #[trigger] c@.0[j].1,
            decreases nq - i,
        {
            let q = &c.queries[i];
            assert(c@.0[i as int] == (q.selector, q.result@));
            let now = self.query(q.selector);
            let locs = fact_list(&now);
            if !same_facts(&locs, &q.result) {
                assert(facts(select(self@, c@.0[i as int].0)) != c@.0[i as int].1);
                return false;
            }
            i = i + 1;
        }
        let nf = c.facts.len();
        let mut k: usize = 0;
        while k < nf
            invariant
                k <= nf == c.facts@.len(),
                forall|j: int|
                    0 <= j < k ==> page_lookup(self@, c@.1[j].loc) == #[trigger] c@.1[j].page,
            decreases nf - k,
        {
            let f = c.facts[k];
            let now = self.lookup_page(f.loc);
            if now != f.page {
                assert(page_lookup(self@, c@.1[k as int].loc) != c@.1[k as int].page);
                return false;
            }
            k = k + 1;
        }
        true
    }
}

fn fact_list(es: &Vec<Entry>) -> (r: Vec<Fact>)
    ensures
        r@ == facts(es@),
{
    let n = es.len();
    let mut r: Vec<Fact> = Vec::new();
    let mut i: usize = 0;
    while i < n
        invariant
            i <= n == es@.len(),
            r@ == facts(es@.subrange(0, i as int)),
        decreases n - i,
    {
        r.push(Fact { loc: es[i].loc, page: Some(es[i].page) });
        i = i + 1;
        assert(r@ =~= facts(es@.subrange(0, i as int)));
    }
    assert(es@.subrange(0, n as int) =~= es@);
    r
}

fn same_facts(a: &Vec<Fact>, b: &Vec<Fact>) -> (r: bool)
    ensures
        r == (a@ == b@),
{
    if a.len() != b.len() {
        return false;
    }
    let n = a.len();
    let mut i: usize = 0;
    while i < n
        invariant
            i <= n == a@.len() == b@.len(),
            forall|j: int| 0 <= j < i ==> a@[j] == b@[j],
        decreases n - i,
    {
        if a[i] != b[i] {
            return false;
        }
        i = i + 1;
    }
    assert(a@ =~= b@);
    true
}

} // verus!
