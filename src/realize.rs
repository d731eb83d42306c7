//! Realization: one pass over the content, turning every node into
//! primitives with the help of the introspector and the stability provider.
use vstd::prelude::*;

use crate::content::{Content, Inline, NodeKind};
use crate::frame::Document;
use crate::introspect::{
    facts, occurrences, page_lookup, select, Constraint, Entry, Fact, Introspector, Location,
    Selector, StabilityProvider,
};
use crate::layout::{layout, run, sat, Region};
use crate::outline::{outline_items, page_number, resolve_spec, OutlineStyle};
use crate::style::StyleChain;

verus! {

pub open spec fn kind_code(k: NodeKind) -> u64 {
    match k {
        NodeKind::Text => 0,
        NodeKind::Heading => 1,
        NodeKind::Outline => 2,
        NodeKind::PageRef => 3,
    }
}

/// The location of the node of kind `k` at position `i` of the content: it
/// depends on the position and the kind alone.
pub open spec fn loc_at(i: int, k: NodeKind) -> Location {
    Location { frame_id: (i * 4 + kind_code(k)) as u64, disambiguator: 0 }
}

/// The page number a page reference displays: 0 while unresolved.
pub open spec fn displayed_page(es: Seq<Entry>, l: Location) -> u64 {
    match page_lookup(es, l) {
        Some(p) => page_number(p),
        None => 0,
    }
}

/// The primitives the node at position `i` realizes to.
pub open spec fn realize_node(c: Content, i: int, st: OutlineStyle, es: Seq<Entry>) -> Seq<Inline> {
    match c {
        Content::Text(s) => seq![Inline::Text(s)],
        Content::Space => seq![Inline::Space],
        Content::Linebreak => seq![Inline::Linebreak],
        Content::Pagebreak => seq![Inline::Pagebreak],
        Content::Heading(h) => seq![Inline::Anchor(loc_at(i, NodeKind::Heading), h)],
        Content::Outline(_) => outline_items(es, st, loc_at(i, NodeKind::Outline)),
        Content::PageRef(l) => seq![Inline::Number(displayed_page(es, l), Some(l))],
    }
}

/// The queries a node issues: an outline asks for all located headings
/// twice, when prepared and when shown.
pub open spec fn node_queries(c: Content, es: Seq<Entry>) -> Seq<(Selector, Seq<Fact>)> {
    match c {
        Content::Outline(_) => {
            let q = (Selector::Headings, facts(select(es, Selector::Headings)));
            seq![q, q]
        },
        _ => Seq::empty(),
    }
}

/// The page facts a node resolves.
pub open spec fn node_facts(c: Content, es: Seq<Entry>) -> Seq<Fact> {
    match c {
        Content::PageRef(l) => seq![Fact { loc: l, page: page_lookup(es, l) }],
        _ => Seq::empty(),
    }
}

/// Realization of a content sequence against the entries of the previous
/// pass: the primitives, and the constraint recorded along the way.
pub open spec fn realize(content: Seq<Content>, st: OutlineStyle, es: Seq<Entry>) -> (
    Seq<Inline>,
    (Seq<(Selector, Seq<Fact>)>, Seq<Fact>),
)
    decreases content.len(),
{
    if content.len() == 0 {
        (Seq::empty(), (Seq::empty(), Seq::empty()))
    } else {
        let (items, (qs, fs)) = realize(content.drop_last(), st, es);
        let i = content.len() - 1;
        let c = content.last();
        (items + realize_node(c, i, st, es), (qs + node_queries(c, es), fs + node_facts(c, es)))
    }
}

proof fn lemma_unseen(s: Seq<u64>, b: u64)
    requires
        forall|j: int| 0 <= j < s.len() ==> s[j] < b,
    ensures
        occurrences(s, b) == 0,
    decreases s.len(),
{
    if s.len() > 0 {
        lemma_unseen(s.drop_last(), b);
    }
}

fn identify_at(p: &mut StabilityProvider, i: usize, k: NodeKind) -> (r: Location)
    requires
        i < u32::MAX,
        old(p)@.len() <= i,
        forall|j: int| 0 <= j < old(p)@.len() ==> old(p)@[j] < i * 4,
    ensures
        r == loc_at(i as int, k),
        final(p)@.len() == old(p)@.len() + 1,
        forall|j: int| 0 <= j < final(p)@.len() ==> final(p)@[j] < (i + 1) * 4,
{
    let code: u64 = match k {
        NodeKind::Text => 0,
        NodeKind::Heading => 1,
        NodeKind::Outline => 2,
        NodeKind::PageRef => 3,
    };
    let base = (i as u64) * 4 + code;
    proof {
        lemma_unseen(old(p)@, base);
    }
    p.identify(base)
}

fn push_all(v: &mut Vec<Inline>, more: Vec<Inline>)
    ensures
        final(v)@ == old(v)@ + more@,
{
    let mut more = more;
    v.append(&mut more);
}

/// Realizes the content against `intro`, recording its introspection in `c`.
pub fn realize_content(
    content: &Vec<Content>,
    styles: &StyleChain,
    intro: &Introspector,
    c: &mut Constraint,
) -> (r: Vec<Inline>)
    requires
        content@.len() < u32::MAX,
        old(c)@ == (Seq::<(Selector, Seq<Fact>)>::empty(), Seq::<Fact>::empty()),
    ensures
        (r@, final(c)@) == realize(content@, resolve_spec(styles@), intro@),
{
    let ghost st = resolve_spec(styles@);
    let mut provider = StabilityProvider::new();
    let n = content.len();
    let mut out: Vec<Inline> = Vec::new();
    let mut i: usize = 0;
    while i < n
        invariant
            i <= n == content@.len() < u32::MAX,
            st == resolve_spec(styles@),
            (out@, c@) == realize(content@.subrange(0, i as int), st, intro@),
            provider@.len() <= i,
            forall|j: int| 0 <= j < provider@.len() ==> provider@[j] < i * 4,
        decreases n - i,
    {
        assert(content@.subrange(0, i + 1).drop_last() =~= content@.subrange(0, i as int));
        let ghost prev = c@;
        let ghost prev_out = out@;
        match &content[i] {
            Content::Text(s) => {
                out.push(Inline::Text(s.clone()));
            },
            Content::Space => {
                out.push(Inline::Space);
            },
            Content::Linebreak => {
                out.push(Inline::Linebreak);
            },
            Content::Pagebreak => {
                out.push(Inline::Pagebreak);
            },
            Content::Heading(h) => {
                let loc = identify_at(&mut provider, i, NodeKind::Heading);
                out.push(Inline::Anchor(loc, h.clone()));
            },
            Content::Outline(o) => {
                let loc = identify_at(&mut provider, i, NodeKind::Outline);
                let prepared = o.prepare(intro, c);
                let shown = prepared.show(intro, styles, loc, c);
                assert(shown@ == outline_items(intro@, resolve_spec(styles@), loc));
                assert(st == resolve_spec(styles@));
                assert(realize_node(content@[i as int], i as int, st, intro@) == outline_items(intro@, st, loc));
                push_all(&mut out, shown);
            },
            Content::PageRef(l) => {
                let shown = match intro.page_of(*l, c) {
                    Ok(p) => (p as u64).saturating_add(1),
                    Err(_) => 0,
                };
                out.push(Inline::Number(shown, Some(*l)));
            },
        }
        assert(out@ =~= prev_out + realize_node(content@[i as int], i as int, st, intro@));
        assert(c@.0 =~= prev.0 + node_queries(content@[i as int], intro@));
        assert(c@.1 =~= prev.1 + node_facts(content@[i as int], intro@));
        i = i + 1;
        assert(forall|j: int| 0 <= j < provider@.len() ==> provider@[j] < i * 4);
    }
    assert(content@.subrange(0, n as int) =~= content@);
    out
}

/// One full layout pass against the introspector of the previous one: the
/// document it produces and the constraint recorded while producing it.
pub fn pass(content: &Vec<Content>, styles: &StyleChain, region: Region, intro: &Introspector) -> (r: (
    Document,
    Constraint,
))
    requires
        content@.len() < u32::MAX,
    ensures
        r.0.items@ == run(realize(content@, resolve_spec(styles@), intro@).0, region).1,
        r.0.pages == sat(run(realize(content@, resolve_spec(styles@), intro@).0, region).0.page + 1),
        r.1@ == realize(content@, resolve_spec(styles@), intro@).1,
{
    let mut c = Constraint::new();
    let items = realize_content(content, styles, intro, &mut c);
    let (doc, _) = layout(&items, region);
    (doc, c)
}

} // verus!
