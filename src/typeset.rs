//! The fixed-point driver: relayout until every introspection agrees with
//! the document it produced, or give up after five attempts.
use vstd::prelude::*;

use crate::content::{Content, Inline, NodeKind};
use crate::frame::{Document, Placed};
use crate::introspect::{
    compatible, entries_of, page_lookup, select, Entry, Fact, Introspector, Location, Selector,
};
use crate::layout::{run, sat, step, Region};
use crate::outline::{
    entries_items, entry_items, hidden_numbers, indent_items, resolve_spec, OutlineStyle,
};
use crate::realize::{displayed_page, loc_at, pass, realize, realize_node};
use crate::style::StyleChain;

verus! {

/// The most layout passes the driver runs.
pub const MAX_ATTEMPTS: usize = 5;

/// The entries of the introspector after `k` passes; the first pass sees none.
pub open spec fn entries_after(content: Seq<Content>, st: OutlineStyle, region: Region, k: nat) -> Seq<
    Entry,
>
    decreases k,
{
    if k == 0 {
        Seq::empty()
    } else {
        let prev = entries_after(content, st, region, (k - 1) as nat);
        entries_of(run(realize(content, st, prev).0, region).1)
    }
}

/// Pass `k` (from 1) reached a fixed point: the document it produced answers
/// every introspection of that pass as it was answered.
pub open spec fn settled(content: Seq<Content>, st: OutlineStyle, region: Region, k: nat) -> bool {
    compatible(
        entries_after(content, st, region, k),
        realize(content, st, entries_after(content, st, region, (k - 1) as nat)).1,
    )
}

/// The outcome of typesetting.
#[derive(Debug, PartialEq)]
pub struct Typeset {
    pub document: Document,
    /// How many passes ran.
    pub attempts: usize,
    /// Whether the last pass reached a fixed point; if not, the document is
    /// the best effort of the last pass and may hold stale references.
    pub converged: bool,
}

/// Typesets content into a fully laid-out document, relaying it out until
/// all introspections stabilize, for at most five passes.
pub fn typeset(content: &Vec<Content>, styles: &StyleChain, region: Region) -> (r: Typeset)
    requires
        content@.len() < u32::MAX,
    ensures
        1 <= r.attempts <= MAX_ATTEMPTS,
        r.converged == settled(content@, resolve_spec(styles@), region, r.attempts as nat),
        r.converged || r.attempts == MAX_ATTEMPTS,
        forall|k: nat| 1 <= k < r.attempts ==> !settled(content@, resolve_spec(styles@), region, k),
        r.document.items@ == run(
            realize(
                content@,
                resolve_spec(styles@),
                entries_after(content@, resolve_spec(styles@), region, (r.attempts - 1) as nat),
            ).0,
            region,
        ).1,
        r.document.pages == sat(
            run(
                realize(
                    content@,
                    resolve_spec(styles@),
                    entries_after(content@, resolve_spec(styles@), region, (r.attempts - 1) as nat),
                ).0,
                region,
            ).0.page + 1,
        ),
{
    let ghost st = resolve_spec(styles@);
    let blank = Document::empty();
    assert(blank.items@ =~= Seq::empty());
    let mut intro = Introspector::new(&blank);
    let mut iter: usize = 0;
    loop
        invariant
            content@.len() < u32::MAX,
            st == resolve_spec(styles@),
            iter < MAX_ATTEMPTS,
            intro@ == entries_after(content@, st, region, iter as nat),
            forall|k: nat| 1 <= k <= iter ==> !settled(content@, st, region, k),
        decreases MAX_ATTEMPTS - iter,
    {
        let (document, constraint) = pass(content, styles, region, &intro);
        iter = iter + 1;
        intro = Introspector::new(&document);
        let converged = intro.valid(&constraint);
        if iter >= MAX_ATTEMPTS || converged {
            return Typeset { document, attempts: iter, converged };
        }
    }
}

/// Content that issues no introspection: no outline and no page reference.
pub open spec fn static_content(content: Seq<Content>) -> bool {
    forall|i: int|
        0 <= i < content.len() ==> !(#[trigger] content[i] is Outline) && !(content[i] is PageRef)
}

proof fn lemma_static_realize(content: Seq<Content>, st: OutlineStyle, es1: Seq<Entry>, es2: Seq<Entry>)
    requires
        static_content(content),
    ensures
        realize(content, st, es1) == realize(content, st, es2),
        realize(content, st, es1).1.0.len() == 0,
        realize(content, st, es1).1.1.len() == 0,
    decreases content.len(),
{
    if content.len() > 0 {
        let rest = content.drop_last();
        assert(static_content(rest)) by {
            assert forall|i: int| 0 <= i < rest.len() implies !(#[trigger] rest[i] is Outline)
                && !(rest[i] is PageRef) by {
                assert(rest[i] == content[i]);
            }
        }
        lemma_static_realize(rest, st, es1, es2);
        assert(!(content[content.len() - 1] is Outline) && !(content[content.len() - 1] is PageRef));
        let (qs, fs) = realize(content, st, es1).1;
        assert(qs =~= Seq::empty());
        assert(fs =~= Seq::empty());
    }
}

/// Content without introspection realizes the same against any
/// introspector and records nothing, so the first pass is already a fixed
/// point and every pass yields the same document.
pub proof fn lemma_static_content_settles(
    content: Seq<Content>,
    st: OutlineStyle,
    region: Region,
    es1: Seq<Entry>,
    es2: Seq<Entry>,
)
    requires
        static_content(content),
    ensures
        realize(content, st, es1) == realize(content, st, es2),
        run(realize(content, st, es1).0, region) == run(realize(content, st, es2).0, region),
        settled(content, st, region, 1),
{
    lemma_static_realize(content, st, es1, es2);
    lemma_static_realize(content, st, entries_after(content, st, region, 0), es1);
}

/// A heading's location depends on its position and nothing else: in every
/// pass, whatever the introspector holds, the heading at position `i` is
/// placed at `loc_at(i, Heading)`; and nodes at different positions, or of
/// different kinds, get different locations.
pub proof fn lemma_location_by_position(
    content: Seq<Content>,
    st: OutlineStyle,
    es: Seq<Entry>,
    i: int,
    j: int,
    k1: NodeKind,
    k2: NodeKind,
)
    requires
        0 <= i < content.len() < u32::MAX,
        0 <= j < content.len(),
        content[i] is Heading,
    ensures
        realize_node(content[i], i, st, es) == seq![
            Inline::Anchor(loc_at(i, NodeKind::Heading), content[i]->Heading_0),
        ],
        loc_at(i, k1) == loc_at(j, k2) ==> i == j && k1 == k2,
{
}

proof fn lemma_fact_recorded(content: Seq<Content>, st: OutlineStyle, es: Seq<Entry>, i: int)
    requires
        0 <= i < content.len(),
        content[i] is PageRef,
    ensures
        exists|j: int|
            0 <= j < realize(content, st, es).1.1.len() && #[trigger] realize(content, st, es).1.1[j]
                == (Fact { loc: content[i]->PageRef_0, page: page_lookup(es, content[i]->PageRef_0) }),
    decreases content.len(),
{
    let rest = content.drop_last();
    let fs = realize(content, st, es).1.1;
    let prev = realize(rest, st, es).1.1;
    if i == content.len() - 1 {
        assert(fs[prev.len() as int] == (Fact {
            loc: content[i]->PageRef_0,
            page: page_lookup(es, content[i]->PageRef_0),
        }));
    } else {
        assert(rest[i] == content[i]);
        lemma_fact_recorded(rest, st, es, i);
        let j = choose|j: int|
            0 <= j < prev.len() && #[trigger] prev[j] == (Fact {
                loc: rest[i]->PageRef_0,
                page: page_lookup(es, rest[i]->PageRef_0),
            });
        assert(fs[j] == prev[j]);
    }
}

/// At a fixed point every page reference shows the page number of the page
/// on which the referenced content landed in the document of that pass.
pub proof fn lemma_settled_references(
    content: Seq<Content>,
    st: OutlineStyle,
    region: Region,
    k: nat,
    i: int,
)
    requires
        k >= 1,
        settled(content, st, region, k),
        0 <= i < content.len(),
        content[i] is PageRef,
    ensures
        displayed_page(entries_after(content, st, region, (k - 1) as nat), content[i]->PageRef_0)
            == displayed_page(entries_after(content, st, region, k), content[i]->PageRef_0),
{
    let prev = entries_after(content, st, region, (k - 1) as nat);
    lemma_fact_recorded(content, st, prev, i);
    let fs = realize(content, st, prev).1.1;
    let j = choose|j: int|
        0 <= j < fs.len() && #[trigger] fs[j] == (Fact {
            loc: content[i]->PageRef_0,
            page: page_lookup(prev, content[i]->PageRef_0),
        });
    assert(fs[j].page == page_lookup(prev, content[i]->PageRef_0));
}

/// The locations of the headings among primitives, in order.
pub open spec fn anchor_locs(items: Seq<Inline>) -> Seq<Location>
    decreases items.len(),
{
    if items.len() == 0 {
        Seq::empty()
    } else {
        match items.last() {
            Inline::Anchor(l, _) => anchor_locs(items.drop_last()).push(l),
            _ => anchor_locs(items.drop_last()),
        }
    }
}

/// Locations whose frame ids strictly increase.
pub open spec fn increasing(ls: Seq<Location>) -> bool {
    forall|a: int, b: int|
        0 <= a < b < ls.len() ==> (#[trigger] ls[a]).frame_id < (#[trigger] ls[b]).frame_id
}

proof fn lemma_anchor_locs_append(a: Seq<Inline>, b: Seq<Inline>)
    ensures
        anchor_locs(a + b) == anchor_locs(a) + anchor_locs(b),
    decreases b.len(),
{
    if b.len() == 0 {
        assert(a + b =~= a);
        assert(anchor_locs(a) + anchor_locs(b) =~= anchor_locs(a));
    } else {
        lemma_anchor_locs_append(a, b.drop_last());
        assert((a + b).drop_last() =~= a + b.drop_last());
        assert((a + b).last() == b.last());
        match b.last() {
            Inline::Anchor(l, _) => {
                assert(anchor_locs(a) + anchor_locs(b) =~= (anchor_locs(a) + anchor_locs(
                    b.drop_last(),
                )).push(l));
            },
            _ => {},
        }
    }
}

proof fn lemma_no_anchors(items: Seq<Inline>)
    requires
        forall|m: int| 0 <= m < items.len() ==> !(#[trigger] items[m] is Anchor),
    ensures
        anchor_locs(items) == Seq::<Location>::empty(),
    decreases items.len(),
{
    if items.len() > 0 {
        assert(!(items[items.len() - 1] is Anchor));
        lemma_no_anchors(items.drop_last());
    }
}

proof fn lemma_hidden_no_anchors(anc: Seq<Entry>)
    ensures
        forall|m: int| 0 <= m < hidden_numbers(anc).len() ==> !(#[trigger] hidden_numbers(anc)[m] is Anchor),
    decreases anc.len(),
{
    if anc.len() > 0 {
        lemma_hidden_no_anchors(anc.drop_last());
    }
}

proof fn lemma_entries_no_anchors(es: Seq<Entry>, st: OutlineStyle)
    ensures
        forall|m: int|
            0 <= m < entries_items(es, st).0.len() ==> !(#[trigger] entries_items(es, st).0[m] is Anchor),
    decreases es.len(),
{
    if es.len() > 0 {
        lemma_entries_no_anchors(es.drop_last(), st);
        let (items, stack) = entries_items(es.drop_last(), st);
        let e = es.last();
        let anc = pop_deeper_of(stack, e);
        lemma_hidden_no_anchors(anc);
        let ei = entry_items(e, anc, st);
        assert forall|m: int| 0 <= m < ei.len() implies !(#[trigger] ei[m] is Anchor) by {
            let ind = indent_items(anc, st.indent);
            if m < ind.len() && st.indent && hidden_numbers(anc).len() > 0 {
                if m < hidden_numbers(anc).len() {
                    assert(!(hidden_numbers(anc)[m] is Anchor));
                }
            }
        }
    }
}

spec fn pop_deeper_of(stack: Seq<Entry>, e: Entry) -> Seq<Entry> {
    crate::outline::pop_deeper(stack, e.heading.level)
}

proof fn lemma_node_anchors(c: Content, i: int, st: OutlineStyle, es: Seq<Entry>)
    requires
        0 <= i,
        i * 4 + 4 <= u64::MAX,
    ensures
        anchor_locs(realize_node(c, i, st, es)).len() <= 1,
        forall|m: int|
            0 <= m < anchor_locs(realize_node(c, i, st, es)).len() ==> i * 4 <= (
            #[trigger] anchor_locs(realize_node(c, i, st, es))[m]).frame_id < i * 4 + 4,
{
    reveal_with_fuel(anchor_locs, 2);
    let n = realize_node(c, i, st, es);
    match c {
        Content::Heading(h) => {
            assert(n.drop_last() =~= Seq::<Inline>::empty());
        },
        Content::Outline(_) => {
            let sel = crate::outline::outlined_of(es);
            let rest = entries_items(sel, st).0;
            lemma_entries_no_anchors(sel, st);
            lemma_no_anchors(rest);
            let title = match st.title {
                Some(t) => seq![
                    Inline::Anchor(
                        loc_at(i, NodeKind::Outline),
                        crate::content::Heading { title: t, level: 1, outlined: false, numbers: None },
                    ),
                ],
                None => Seq::empty(),
            };
            assert(n == title + rest);
            lemma_anchor_locs_append(title, rest);
            if title.len() == 1 {
                assert(title.drop_last() =~= Seq::<Inline>::empty());
            }
        },
        Content::PageRef(_) => {
            assert(n.drop_last() =~= Seq::<Inline>::empty());
        },
        Content::Text(_) => {
            assert(n.drop_last() =~= Seq::<Inline>::empty());
        },
        Content::Space => {
            assert(n.drop_last() =~= Seq::<Inline>::empty());
        },
        Content::Linebreak => {
            assert(n.drop_last() =~= Seq::<Inline>::empty());
        },
        Content::Pagebreak => {
            assert(n.drop_last() =~= Seq::<Inline>::empty());
        },
    }
}

proof fn lemma_realize_order(content: Seq<Content>, st: OutlineStyle, es: Seq<Entry>)
    requires
        content.len() < u32::MAX,
    ensures
        increasing(anchor_locs(realize(content, st, es).0)),
        forall|m: int|
            0 <= m < anchor_locs(realize(content, st, es).0).len() ==> (
            #[trigger] anchor_locs(realize(content, st, es).0)[m]).frame_id < content.len() * 4,
    decreases content.len(),
{
    if content.len() > 0 {
        let rest = content.drop_last();
        let i = content.len() - 1;
        lemma_realize_order(rest, st, es);
        let r = realize(rest, st, es).0;
        let n = realize_node(content.last(), i, st, es);
        lemma_anchor_locs_append(r, n);
        lemma_node_anchors(content.last(), i, st, es);
        let all = anchor_locs(r) + anchor_locs(n);
        assert forall|a: int, b: int| 0 <= a < b < all.len() implies all[a].frame_id
            < all[b].frame_id by {
            if b >= anchor_locs(r).len() {
                assert(all[b] == anchor_locs(n)[b - anchor_locs(r).len()]);
                if a >= anchor_locs(r).len() {
                    assert(false);
                } else {
                    assert(all[a] == anchor_locs(r)[a]);
                }
            } else {
                assert(all[a] == anchor_locs(r)[a]);
                assert(all[b] == anchor_locs(r)[b]);
            }
        }
        assert forall|m: int| 0 <= m < all.len() implies (#[trigger] all[m]).frame_id
            < content.len() * 4 by {
            if m >= anchor_locs(r).len() {
                assert(all[m] == anchor_locs(n)[m - anchor_locs(r).len()]);
            } else {
                assert(all[m] == anchor_locs(r)[m]);
            }
        }
    }
}

proof fn lemma_run_anchors(items: Seq<Inline>, region: Region)
    ensures
        entries_of(run(items, region).1).map_values(|e: Entry| e.loc) == anchor_locs(items),
    decreases items.len(),
{
    if items.len() > 0 {
        lemma_run_anchors(items.drop_last(), region);
        let (c, ps) = run(items.drop_last(), region);
        let (c2, p) = step(c, items.last(), region);
        match p {
            Some(p) => {
                assert(ps.push(p).drop_last() =~= ps);
                match items.last() {
                    Inline::Anchor(l, h) => {
                        assert(entries_of(ps.push(p)).map_values(|e: Entry| e.loc) =~= entries_of(
                            ps,
                        ).map_values(|e: Entry| e.loc).push(l));
                    },
                    _ => {},
                }
            },
            None => {},
        }
    }
}

proof fn lemma_select_ordered(es: Seq<Entry>, sel: Selector)
    requires
        ordered(es),
    ensures
        ordered(select(es, sel)),
        forall|m: int|
            0 <= m < select(es, sel).len() ==> exists|j: int|
                0 <= j < es.len() && #[trigger] select(es, sel)[m] == es[j],
    decreases es.len(),
{
    if es.len() > 0 {
        let rest = es.drop_last();
        assert(ordered(rest)) by {
            assert forall|a: int, b: int| 0 <= a < b < rest.len() implies (#[trigger] rest[a]).loc.frame_id
                < (#[trigger] rest[b]).loc.frame_id by {
                assert(rest[a] == es[a] && rest[b] == es[b]);
            }
        }
        lemma_select_ordered(rest, sel);
        let s = select(rest, sel);
        assert forall|m: int| 0 <= m < s.len() implies exists|j: int|
            0 <= j < es.len() && #[trigger] s[m] == es[j] by {
            let j = choose|j: int| 0 <= j < rest.len() && #[trigger] s[m] == rest[j];
            assert(s[m] == es[j]);
        }
        if selects_last(es, sel) {
            let t = s.push(es.last());
            assert forall|a: int, b: int| 0 <= a < b < t.len() implies (#[trigger] t[a]).loc.frame_id
                < (#[trigger] t[b]).loc.frame_id by {
                if b == t.len() - 1 {
                    let j = choose|j: int| 0 <= j < rest.len() && #[trigger] s[a] == rest[j];
                    assert(es[j] == s[a]);
                    assert(t[b] == es[es.len() - 1]);
                } else {
                    assert(t[a] == s[a] && t[b] == s[b]);
                }
            }
            assert forall|m: int| 0 <= m < t.len() implies exists|j: int|
                0 <= j < es.len() && #[trigger] t[m] == es[j] by {
                if m == t.len() - 1 {
                    assert(t[m] == es[es.len() - 1]);
                } else {
                    assert(t[m] == s[m]);
                }
            }
        }
    }
}

/// Entries whose locations' frame ids strictly increase.
pub open spec fn ordered(es: Seq<Entry>) -> bool {
    forall|a: int, b: int|
        0 <= a < b < es.len() ==> (#[trigger] es[a]).loc.frame_id < (#[trigger] es[b]).loc.frame_id
}

spec fn selects_last(es: Seq<Entry>, sel: Selector) -> bool {
    crate::introspect::selects(sel, es.last().heading)
}

/// In every pass the located headings come in document order with strictly
/// increasing, hence distinct, locations; so does whatever a selector
/// picks from them.
pub proof fn lemma_document_order(
    content: Seq<Content>,
    st: OutlineStyle,
    region: Region,
    k: nat,
    sel: Selector,
)
    requires
        content.len() < u32::MAX,
    ensures
        ordered(entries_after(content, st, region, k)),
        ordered(select(entries_after(content, st, region, k), sel)),
{
    let es = entries_after(content, st, region, k);
    if k > 0 {
        let prev = entries_after(content, st, region, (k - 1) as nat);
        lemma_realize_order(content, st, prev);
        lemma_run_anchors(realize(content, st, prev).0, region);
        let ls = es.map_values(|e: Entry| e.loc);
        assert forall|a: int, b: int| 0 <= a < b < es.len() implies (#[trigger] es[a]).loc.frame_id
            < (#[trigger] es[b]).loc.frame_id by {
            assert(ls[a] == es[a].loc && ls[b] == es[b].loc);
        }
    }
    lemma_select_ordered(es, sel);
}

proof fn lemma_entries_placed(ps: Seq<Placed>)
    ensures
        forall|m: int|
            0 <= m < entries_of(ps).len() ==> exists|j: int|
                0 <= j < ps.len() && ps[j].item == Inline::Anchor(
                    (#[trigger] entries_of(ps)[m]).loc,
                    entries_of(ps)[m].heading,
                ) && ps[j].page == entries_of(ps)[m].page,
    decreases ps.len(),
{
    if ps.len() > 0 {
        let rest = ps.drop_last();
        lemma_entries_placed(rest);
        let e = entries_of(ps);
        let er = entries_of(rest);
        assert forall|m: int| 0 <= m < e.len() implies exists|j: int|
            0 <= j < ps.len() && ps[j].item == Inline::Anchor((#[trigger] e[m]).loc, e[m].heading)
                && ps[j].page == e[m].page by {
            if m < er.len() {
                assert(e[m] == er[m]);
                let j = choose|j: int|
                    0 <= j < rest.len() && rest[j].item == Inline::Anchor(
                        (#[trigger] er[m]).loc,
                        er[m].heading,
                    ) && rest[j].page == er[m].page;
                assert(ps[j] == rest[j]);
            } else {
                assert(ps[ps.len() - 1] == ps.last());
            }
        }
    }
}

proof fn lemma_run_pages(items: Seq<Inline>, region: Region)
    ensures
        forall|j: int|
            0 <= j < run(items, region).1.len() ==> (#[trigger] run(items, region).1[j]).page
                <= run(items, region).0.page,
        forall|a: int, b: int|
            0 <= a < b < run(items, region).1.len() ==> (#[trigger] run(items, region).1[a]).page
                <= (#[trigger] run(items, region).1[b]).page,
    decreases items.len(),
{
    if items.len() > 0 {
        lemma_run_pages(items.drop_last(), region);
    }
}

proof fn lemma_entries_pages(ps: Seq<Placed>)
    requires
        forall|a: int, b: int| 0 <= a < b < ps.len() ==> (#[trigger] ps[a]).page <= (#[trigger] ps[b]).page,
    ensures
        forall|a: int, b: int|
            0 <= a < b < entries_of(ps).len() ==> (#[trigger] entries_of(ps)[a]).page
                <= (#[trigger] entries_of(ps)[b]).page,
    decreases ps.len(),
{
    if ps.len() > 0 {
        let rest = ps.drop_last();
        lemma_entries_pages(rest);
        lemma_entries_placed(rest);
        let e = entries_of(ps);
        let er = entries_of(rest);
        assert forall|a: int, b: int| 0 <= a < b < e.len() implies (#[trigger] e[a]).page
            <= (#[trigger] e[b]).page by {
            assert(e[a] == er[a]);
            if b < er.len() {
                assert(e[b] == er[b]);
            } else {
                let j = choose|j: int|
                    0 <= j < rest.len() && rest[j].item == Inline::Anchor(
                        (#[trigger] er[a]).loc,
                        er[a].heading,
                    ) && rest[j].page == er[a].page;
                assert(rest[j] == ps[j]);
                assert(ps[j].page <= ps[ps.len() - 1].page);
            }
        }
    }
}

proof fn lemma_page_lookup_ordered(es: Seq<Entry>, m: int)
    requires
        ordered(es),
        0 <= m < es.len(),
    ensures
        page_lookup(es, es[m].loc) == Some(es[m].page),
    decreases m,
{
    if m > 0 {
        let rest = es.drop_first();
        assert(es[0].loc.frame_id < es[m].loc.frame_id);
        assert(ordered(rest)) by {
            assert forall|a: int, b: int| 0 <= a < b < rest.len() implies (#[trigger] rest[a]).loc.frame_id
                < (#[trigger] rest[b]).loc.frame_id by {
                assert(rest[a] == es[a + 1] && rest[b] == es[b + 1]);
            }
        }
        assert(rest[m - 1] == es[m]);
        lemma_page_lookup_ordered(rest, m - 1);
    }
}

/// In every pass, each located heading is recorded with the page on which
/// layout placed it, the introspector's page lookup answers exactly that
/// page for its location, and pages never decrease in document order.
pub proof fn lemma_heading_pages(content: Seq<Content>, st: OutlineStyle, region: Region, k: nat)
    requires
        content.len() < u32::MAX,
        k >= 1,
    ensures
        forall|m: int|
            0 <= m < entries_after(content, st, region, k).len() ==> page_lookup(
                entries_after(content, st, region, k),
                (#[trigger] entries_after(content, st, region, k)[m]).loc,
            ) == Some(entries_after(content, st, region, k)[m].page),
        forall|m: int|
            0 <= m < entries_after(content, st, region, k).len() ==> exists|j: int|
                0 <= j < placed_in(content, st, region, k).len() && placed_in(
                    content,
                    st,
                    region,
                    k,
                )[j].item == Inline::Anchor(
                    (#[trigger] entries_after(content, st, region, k)[m]).loc,
                    entries_after(content, st, region, k)[m].heading,
                ) && placed_in(content, st, region, k)[j].page == entries_after(
                    content,
                    st,
                    region,
                    k,
                )[m].page,
        forall|a: int, b: int|
            0 <= a < b < entries_after(content, st, region, k).len() ==> (
            #[trigger] entries_after(content, st, region, k)[a]).page <= (
            #[trigger] entries_after(content, st, region, k)[b]).page,
{
    let es = entries_after(content, st, region, k);
    let prev = entries_after(content, st, region, (k - 1) as nat);
    let items = realize(content, st, prev).0;
    let ps = run(items, region).1;
    assert(ps == placed_in(content, st, region, k));
    lemma_document_order(content, st, region, k, Selector::Headings);
    assert forall|m: int| 0 <= m < es.len() implies page_lookup(es, (#[trigger] es[m]).loc) == Some(
        es[m].page,
    ) by {
        lemma_page_lookup_ordered(es, m);
    }
    lemma_entries_placed(ps);
    lemma_run_pages(items, region);
    lemma_entries_pages(ps);
}

/// What pass `k` (from 1) placed, in document order.
pub open spec fn placed_in(content: Seq<Content>, st: OutlineStyle, region: Region, k: nat) -> Seq<
    Placed,
> {
    run(realize(content, st, entries_after(content, st, region, (k - 1) as nat)).0, region).1
}

} // verus!
