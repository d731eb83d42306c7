//! The outline: a table of contents of the outlined headings.
use vstd::prelude::*;
use vstd::string::StringExecFns;

use crate::content::{Content, Heading, Inline, NodeKind, OutlineNode};
use crate::introspect::{facts, select, Constraint, Entry, Introspector, Location, Selector};
use crate::layout::clamped;
use crate::style::{chain_lookup, map_lookup, Style, StyleChain, StyleMap, Value};

verus! {

/// The outline's title: `Empty` for none, `Auto` (the default) for the
/// title of the text language, or a custom text.
pub const TITLE: u32 = 0;

/// The deepest heading level listed; unset lists every level.
pub const DEPTH: u32 = 1;

/// Whether entries are indented by their ancestors' numberings.
pub const INDENT: u32 = 2;

/// The filler between an entry's title and its page number: `Empty` for
/// none, by default a single dot.
pub const FILL: u32 = 3;

/// The automatic title for English and other languages, read from the
/// static defaults.
pub const TITLE_EN: u32 = 4;

/// The automatic title for German, read from the static defaults.
pub const TITLE_DE: u32 = 5;

/// The text language, a property of text.
pub const LANG: u32 = 0;

/// An outline's settings, resolved from a style chain.
#[derive(Debug, PartialEq)]
pub struct OutlineStyle {
    pub title: Option<String>,
    pub depth: Option<usize>,
    pub indent: bool,
    pub fill: Option<String>,
}

pub open spec fn german(styles: Seq<Seq<Style>>) -> bool {
    chain_lookup(styles, NodeKind::Text, LANG) matches Some(Value::Str(l)) && l@ == "de"@
}

/// The text a property holds, if it holds one.
pub open spec fn text_value(v: Option<Value>) -> Option<String> {
    match v {
        Some(Value::Str(s)) => Some(s),
        _ => None,
    }
}

/// The static defaults of a chain: its outermost map.
pub open spec fn defaults_of(styles: Seq<Seq<Style>>) -> Seq<Style> {
    styles.last()
}

/// The settings a style chain gives an outline. An automatic title takes
/// the title of the text language from the static defaults; a filler that
/// is neither `Empty` nor a text takes the default filler.
pub open spec fn resolve_spec(styles: Seq<Seq<Style>>) -> OutlineStyle {
    let local = if german(styles) {
        TITLE_DE
    } else {
        TITLE_EN
    };
    OutlineStyle {
        title: match chain_lookup(styles, NodeKind::Outline, TITLE) {
            Some(Value::Empty) => None,
            Some(Value::Str(s)) => Some(s),
            _ => text_value(map_lookup(defaults_of(styles), NodeKind::Outline, local)),
        },
        depth: match chain_lookup(styles, NodeKind::Outline, DEPTH) {
            Some(Value::Int(d)) if 1 <= d <= usize::MAX => Some(d as usize),
            _ => None,
        },
        indent: match chain_lookup(styles, NodeKind::Outline, INDENT) {
            Some(Value::Bool(b)) => b,
            _ => false,
        },
        fill: match chain_lookup(styles, NodeKind::Outline, FILL) {
            Some(Value::Empty) => None,
            Some(Value::Str(s)) => Some(s),
            _ => text_value(map_lookup(defaults_of(styles), NodeKind::Outline, FILL)),
        },
    }
}

/// The automatic title: "Inhaltsverzeichnis" for German, else "Contents".
pub open spec fn auto_title(styles: Seq<Seq<Style>>) -> Seq<char> {
    if german(styles) {
        "Inhaltsverzeichnis"@
    } else {
        "Contents"@
    }
}

/// Whether `o` holds a text of the given characters.
pub open spec fn text_is(o: Option<String>, t: Seq<char>) -> bool {
    match o {
        Some(s) => s@ == t,
        None => false,
    }
}

/// Whether a setting is neither `Empty` nor a text, so that the static
/// default stands in for it.
pub open spec fn defaulted(v: Option<Value>) -> bool {
    match v {
        Some(Value::Empty) => false,
        Some(Value::Str(_)) => false,
        _ => true,
    }
}

/// A map that holds the outline's static defaults.
pub open spec fn static_defaults(m: Seq<Style>) -> bool {
    &&& map_lookup(m, NodeKind::Outline, TITLE) == Some(Value::Auto)
    &&& text_is(text_value(map_lookup(m, NodeKind::Outline, TITLE_EN)), "Contents"@)
    &&& text_is(text_value(map_lookup(m, NodeKind::Outline, TITLE_DE)), "Inhaltsverzeichnis"@)
    &&& text_is(text_value(map_lookup(m, NodeKind::Outline, FILL)), "."@)
    &&& map_lookup(m, NodeKind::Outline, DEPTH) is None
    &&& map_lookup(m, NodeKind::Outline, INDENT) == Some(Value::Bool(false))
    &&& map_lookup(m, NodeKind::Text, LANG) is None
}

/// Over the static defaults, an outline whose title is neither `Empty` nor
/// a text gets the automatic title of its language, and one whose filler is
/// neither `Empty` nor a text gets a single dot.
pub proof fn lemma_static_fallbacks(styles: Seq<Seq<Style>>)
    requires
        styles.len() >= 1,
        static_defaults(defaults_of(styles)),
    ensures
        defaulted(chain_lookup(styles, NodeKind::Outline, TITLE)) ==> text_is(
            resolve_spec(styles).title,
            auto_title(styles),
        ),
        defaulted(chain_lookup(styles, NodeKind::Outline, FILL)) ==> text_is(
            resolve_spec(styles).fill,
            "."@,
        ),
{
}

fn text_exec(v: Option<Value>) -> (r: Option<String>)
    ensures
        r == text_value(v),
{
    match v {
        Some(Value::Str(s)) => Some(s),
        _ => None,
    }
}

/// Resolves the outline's settings from a style chain.
pub fn resolve(styles: &StyleChain) -> (r: OutlineStyle)
    ensures
        r == resolve_spec(styles@),
        static_defaults(styles.defaults@) && defaulted(
            chain_lookup(styles@, NodeKind::Outline, TITLE),
        ) ==> text_is(r.title, auto_title(styles@)),
        static_defaults(styles.defaults@) && defaulted(chain_lookup(styles@, NodeKind::Outline, FILL))
            ==> text_is(r.fill, "."@),
{
    assert(defaults_of(styles@) == styles.defaults@);
    proof {
        if static_defaults(styles.defaults@) {
            lemma_static_fallbacks(styles@);
        }
    }
    let german = match styles.lookup(NodeKind::Text, LANG) {
        Some(Value::Str(l)) => {
            let de = String::from_str("de");
            l == de
        },
        _ => false,
    };
    let local = if german {
        TITLE_DE
    } else {
        TITLE_EN
    };
    let title = match styles.lookup(NodeKind::Outline, TITLE) {
        Some(Value::Empty) => None,
        Some(Value::Str(s)) => Some(s),
        _ => text_exec(styles.defaults.lookup(NodeKind::Outline, local)),
    };
    let depth = match styles.lookup(NodeKind::Outline, DEPTH) {
        Some(Value::Int(d)) => {
            if 1 <= d && d <= usize::MAX as u64 {
                Some(d as usize)
            } else {
                None
            }
        },
        _ => None,
    };
    let indent = match styles.lookup(NodeKind::Outline, INDENT) {
        Some(Value::Bool(b)) => b,
        _ => false,
    };
    let fill = match styles.lookup(NodeKind::Outline, FILL) {
        Some(Value::Empty) => None,
        Some(Value::Str(s)) => Some(s),
        _ => text_exec(styles.defaults.lookup(NodeKind::Outline, FILL)),
    };
    OutlineStyle { title, depth, indent, fill }
}

/// The static defaults: an automatic title, whose text is "Contents" in
/// English and "Inhaltsverzeichnis" in German, and a single dot as filler.
pub fn default_styles() -> (r: StyleMap)
    ensures
        static_defaults(r@),
{
    let mut m = StyleMap::new();
    m.set(NodeKind::Outline, INDENT, Value::Bool(false));
    m.set(NodeKind::Outline, FILL, Value::Str(String::from_str(".")));
    m.set(NodeKind::Outline, TITLE_DE, Value::Str(String::from_str("Inhaltsverzeichnis")));
    m.set(NodeKind::Outline, TITLE_EN, Value::Str(String::from_str("Contents")));
    m.set(NodeKind::Outline, TITLE, Value::Auto);
    proof {
        reveal_with_fuel(map_lookup, 6);
    }
    m
}

/// Drops from the top of an ancestor stack every heading at `level` or deeper.
pub open spec fn pop_deeper(stack: Seq<Entry>, level: usize) -> Seq<Entry>
    decreases stack.len(),
{
    if stack.len() > 0 && stack.last().heading.level >= level {
        pop_deeper(stack.drop_last(), level)
    } else {
        stack
    }
}

/// The ancestors' numberings, each hidden and followed by a space.
pub open spec fn hidden_numbers(anc: Seq<Entry>) -> Seq<Inline>
    decreases anc.len(),
{
    if anc.len() == 0 {
        Seq::empty()
    } else {
        match anc.last().heading.numbers {
            Some(n) => hidden_numbers(anc.drop_last()) + seq![Inline::Hidden(n), Inline::Space],
            None => hidden_numbers(anc.drop_last()),
        }
    }
}

/// The indentation of an entry with the given ancestors.
pub open spec fn indent_items(anc: Seq<Entry>, indent: bool) -> Seq<Inline> {
    if indent && hidden_numbers(anc).len() > 0 {
        hidden_numbers(anc).push(Inline::Space)
    } else {
        Seq::empty()
    }
}

/// The page number displayed for a 0-based page index.
pub open spec fn page_number(page: usize) -> u64 {
    clamped(page + 1)
}

/// One entry: indentation, linked numbering and title, filler, linked page
/// number and a line break.
pub open spec fn entry_items(e: Entry, anc: Seq<Entry>, st: OutlineStyle) -> Seq<Inline> {
    let numbering = match e.heading.numbers {
        Some(n) => seq![Inline::Link(n, e.loc), Inline::Space],
        None => Seq::empty(),
    };
    let filler = match st.fill {
        Some(f) => seq![Inline::Space, Inline::Filler(f), Inline::Space],
        None => seq![Inline::HFill],
    };
    indent_items(anc, st.indent) + numbering + seq![Inline::Link(e.heading.title, e.loc)] + filler
        + seq![Inline::Number(page_number(e.page), Some(e.loc)), Inline::Linebreak]
}

/// Whether an outline with the given maximum depth lists a heading.
pub open spec fn listed(h: Heading, depth: Option<usize>) -> bool {
    match depth {
        Some(d) => h.level <= d,
        None => true,
    }
}

/// The entries for the located headings `es`, and the ancestor stack after
/// them.
pub open spec fn entries_items(es: Seq<Entry>, st: OutlineStyle) -> (Seq<Inline>, Seq<Entry>)
    decreases es.len(),
{
    if es.len() == 0 {
        (Seq::empty(), Seq::empty())
    } else {
        let (items, stack) = entries_items(es.drop_last(), st);
        let e = es.last();
        if listed(e.heading, st.depth) {
            let anc = pop_deeper(stack, e.heading.level);
            (items + entry_items(e, anc, st), anc.push(e))
        } else {
            (items, stack)
        }
    }
}

/// The outlined headings among all located ones, in document order.
pub open spec fn outlined_of(es: Seq<Entry>) -> Seq<Entry> {
    select(select(es, Selector::Headings), Selector::Outlined)
}

/// Keeps the outlined headings of a located list, in order.
fn keep_outlined(all: &Vec<Entry>) -> (r: Vec<Entry>)
    ensures
        r@ == select(all@, Selector::Outlined),
{
    let n = all.len();
    let mut r: Vec<Entry> = Vec::new();
    let mut i: usize = 0;
    while i < n
        invariant
            i <= n == all@.len(),
            r@ == select(all@.subrange(0, i as int), Selector::Outlined),
        decreases n - i,
    {
        assert(all@.subrange(0, i + 1).drop_last() =~= all@.subrange(0, i as int));
        if all[i].heading.outlined {
            r.push(all[i].clone());
        }
        i = i + 1;
    }
    assert(all@.subrange(0, n as int) =~= all@);
    r
}

/// What an outline shows: its title as an unnumbered, unlisted heading at
/// `title_loc`, then one entry per listed outlined heading in document order.
/// The headings come from the query for all located headings.
pub open spec fn outline_items(es: Seq<Entry>, st: OutlineStyle, title_loc: Location) -> Seq<
    Inline,
> {
    let title = match st.title {
        Some(t) => seq![
            Inline::Anchor(
                title_loc,
                Heading { title: t, level: 1, outlined: false, numbers: None },
            ),
        ],
        None => Seq::empty(),
    };
    title + entries_items(outlined_of(es), st).0
}

fn clone_opt(s: &Option<String>) -> (r: Option<String>)
    ensures
        r == *s,
{
    match s {
        Some(s) => Some(s.clone()),
        None => None,
    }
}

fn push_all(v: &mut Vec<Inline>, more: Vec<Inline>)
    ensures
        final(v)@ == old(v)@ + more@,
{
    let mut more = more;
    v.append(&mut more);
}

fn hidden_exec(anc: &Vec<Entry>) -> (r: Vec<Inline>)
    ensures
        r@ == hidden_numbers(anc@),
{
    let n = anc.len();
    let mut r: Vec<Inline> = Vec::new();
    let mut i: usize = 0;
    while i < n
        invariant
            i <= n == anc@.len(),
            r@ == hidden_numbers(anc@.subrange(0, i as int)),
        decreases n - i,
    {
        assert(anc@.subrange(0, i + 1).drop_last() =~= anc@.subrange(0, i as int));
        match &anc[i].heading.numbers {
            Some(num) => {
                r.push(Inline::Hidden(num.clone()));
                r.push(Inline::Space);
                assert(r@ =~= hidden_numbers(anc@.subrange(0, i + 1)));
            },
            None => {},
        }
        i = i + 1;
    }
    assert(anc@.subrange(0, n as int) =~= anc@);
    r
}

fn entry_exec(e: &Entry, anc: &Vec<Entry>, st: &OutlineStyle) -> (r: Vec<Inline>)
    ensures
        r@ == entry_items(*e, anc@, *st),
{
    let mut r: Vec<Inline> = Vec::new();
    if st.indent {
        let hidden = hidden_exec(anc);
        if hidden.len() > 0 {
            push_all(&mut r, hidden);
            r.push(Inline::Space);
        }
    }
    let ghost ind = r@;
    assert(ind == indent_items(anc@, st.indent));
    match &e.heading.numbers {
        Some(n) => {
            r.push(Inline::Link(n.clone(), e.loc));
            r.push(Inline::Space);
        },
        None => {},
    }
    let ghost num = r@;
    r.push(Inline::Link(e.heading.title.clone(), e.loc));
    match &st.fill {
        Some(f) => {
            r.push(Inline::Space);
            r.push(Inline::Filler(f.clone()));
            r.push(Inline::Space);
        },
        None => {
            r.push(Inline::HFill);
        },
    }
    r.push(Inline::Number((e.page as u64).saturating_add(1), Some(e.loc)));
    r.push(Inline::Linebreak);
    assert(r@ =~= entry_items(*e, anc@, *st));
    r
}

impl OutlineNode {
    /// A fresh, unprepared outline.
    pub fn construct() -> (r: Content)
        ensures
            r == Content::Outline(OutlineNode { headings: None }),
    {
        Content::Outline(OutlineNode { headings: None })
    }

    /// Attaches the outlined headings located so far, in document order.
    /// The query is recorded in `c`.
    pub fn prepare(&self, intro: &Introspector, c: &mut Constraint) -> (r: OutlineNode)
        ensures
            r.headings matches Some(hs) && hs@ == outlined_of(intro@).map_values(
                |e: Entry| e.heading,
            ),
            final(c)@ == (
                old(c)@.0.push((Selector::Headings, facts(select(intro@, Selector::Headings)))),
                old(c)@.1,
            ),
    {
        let all = intro.locate(Selector::Headings, c);
        let found = keep_outlined(&all);
        let n = found.len();
        let mut hs: Vec<Heading> = Vec::new();
        let mut i: usize = 0;
        while i < n
            invariant
                i <= n == found@.len(),
                found@ == outlined_of(intro@),
                hs@ == found@.subrange(0, i as int).map_values(|e: Entry| e.heading),
            decreases n - i,
        {
            hs.push(found[i].heading.clone());
            i = i + 1;
            assert(hs@ =~= found@.subrange(0, i as int).map_values(|e: Entry| e.heading));
        }
        assert(found@.subrange(0, n as int) =~= found@);
        OutlineNode { headings: Some(hs) }
    }

    /// Expands the outline into primitives. The outlined headings come from
    /// a recorded query; the title, if any, is placed at `title_loc`.
    pub fn show(
        &self,
        intro: &Introspector,
        styles: &StyleChain,
        title_loc: Location,
        c: &mut Constraint,
    ) -> (r: Vec<Inline>)
        ensures
            r@ == outline_items(intro@, resolve_spec(styles@), title_loc),
            final(c)@ == (
                old(c)@.0.push((Selector::Headings, facts(select(intro@, Selector::Headings)))),
                old(c)@.1,
            ),
    {
        let st = resolve(styles);
        show_with(&st, intro, title_loc, c)
    }
}

/// Expands an outline with resolved settings.
pub fn show_with(st: &OutlineStyle, intro: &Introspector, title_loc: Location, c: &mut Constraint) -> (r: Vec<Inline>)
    ensures
        r@ == outline_items(intro@, *st, title_loc),
        final(c)@ == (
            old(c)@.0.push((Selector::Headings, facts(select(intro@, Selector::Headings)))),
            old(c)@.1,
        ),
{
    let mut seq: Vec<Inline> = Vec::new();
    match &st.title {
        Some(t) => {
            seq.push(
                Inline::Anchor(
                    title_loc,
                    Heading { title: t.clone(), level: 1, outlined: false, numbers: None },
                ),
            );
        },
        None => {},
    }
    let ghost head = seq@;
    let all = intro.locate(Selector::Headings, c);
    let found = keep_outlined(&all);
    let n = found.len();
    let mut stack: Vec<Entry> = Vec::new();
    let mut i: usize = 0;
    while i < n
        invariant
            i <= n == found@.len(),
            found@ == outlined_of(intro@),
            (seq@.subrange(head.len() as int, seq@.len() as int), stack@) == entries_items(
                found@.subrange(0, i as int),
                *st,
            ),
            seq@.subrange(0, head.len() as int) == head,
            head.len() <= seq@.len(),
        decreases n - i,
    {
        assert(found@.subrange(0, i + 1).drop_last() =~= found@.subrange(0, i as int));
        let e = &found[i];
        let keep = match st.depth {
            Some(d) => e.heading.level <= d,
            None => true,
        };
        if keep {
            let ghost before = stack@;
            while stack.len() > 0 && stack[stack.len() - 1].heading.level >= e.heading.level
                invariant
                    pop_deeper(stack@, e.heading.level) == pop_deeper(before, e.heading.level),
                decreases stack@.len(),
            {
                let ghost s0 = stack@;
                stack.pop();
                assert(stack@ =~= s0.drop_last());
            }
            let ghost prev = seq@;
            let items = entry_exec(e, &stack, st);
            push_all(&mut seq, items);
            assert(seq@.subrange(head.len() as int, seq@.len() as int) =~= prev.subrange(
                head.len() as int,
                prev.len() as int,
            ) + entry_items(*e, stack@, *st));
            assert(seq@.subrange(0, head.len() as int) =~= prev.subrange(0, head.len() as int));
            stack.push(e.clone());
        }
        i = i + 1;
    }
    assert(found@.subrange(0, n as int) =~= found@);
    assert(seq@ =~= head + seq@.subrange(head.len() as int, seq@.len() as int));
    seq
}

/// The page numbers among primitives, in order.
pub open spec fn page_numbers(items: Seq<Inline>) -> Seq<Inline>
    decreases items.len(),
{
    if items.len() == 0 {
        Seq::empty()
    } else if items.last() is Number {
        page_numbers(items.drop_last()).push(items.last())
    } else {
        page_numbers(items.drop_last())
    }
}

/// The page number an outline entry shows for a located heading.
pub open spec fn entry_number(e: Entry) -> Inline {
    Inline::Number(page_number(e.page), Some(e.loc))
}

proof fn lemma_page_numbers_append(a: Seq<Inline>, b: Seq<Inline>)
    ensures
        page_numbers(a + b) == page_numbers(a) + page_numbers(b),
    decreases b.len(),
{
    if b.len() == 0 {
        assert(a + b =~= a);
        assert(page_numbers(a) + page_numbers(b) =~= page_numbers(a));
    } else {
        lemma_page_numbers_append(a, b.drop_last());
        assert((a + b).drop_last() =~= a + b.drop_last());
        assert((a + b).last() == b.last());
        if b.last() is Number {
            assert(page_numbers(a) + page_numbers(b) =~= (page_numbers(a) + page_numbers(
                b.drop_last(),
            )).push(b.last()));
        }
    }
}

proof fn lemma_no_numbers(items: Seq<Inline>)
    requires
        forall|m: int| 0 <= m < items.len() ==> !(#[trigger] items[m] is Number),
    ensures
        page_numbers(items) == Seq::<Inline>::empty(),
    decreases items.len(),
{
    if items.len() > 0 {
        assert(!(items[items.len() - 1] is Number));
        lemma_no_numbers(items.drop_last());
    }
}

proof fn lemma_hidden_no_numbers(anc: Seq<Entry>)
    ensures
        forall|m: int| 0 <= m < hidden_numbers(anc).len() ==> !(#[trigger] hidden_numbers(anc)[m] is Number),
    decreases anc.len(),
{
    if anc.len() > 0 {
        lemma_hidden_no_numbers(anc.drop_last());
    }
}

proof fn lemma_entry_numbers(e: Entry, anc: Seq<Entry>, st: OutlineStyle)
    ensures
        page_numbers(entry_items(e, anc, st)) == seq![entry_number(e)],
{
    let numbering = match e.heading.numbers {
        Some(n) => seq![Inline::Link(n, e.loc), Inline::Space],
        None => Seq::empty(),
    };
    let filler = match st.fill {
        Some(f) => seq![Inline::Space, Inline::Filler(f), Inline::Space],
        None => seq![Inline::HFill],
    };
    let head = indent_items(anc, st.indent) + numbering + seq![Inline::Link(e.heading.title, e.loc)]
        + filler;
    let tail = seq![entry_number(e), Inline::Linebreak];
    assert(entry_items(e, anc, st) == head + tail);
    lemma_hidden_no_numbers(anc);
    assert forall|m: int| 0 <= m < head.len() implies !(#[trigger] head[m] is Number) by {
        if st.indent && hidden_numbers(anc).len() > 0 && m < hidden_numbers(anc).len() {
            assert(!(hidden_numbers(anc)[m] is Number));
        }
    }
    lemma_no_numbers(head);
    lemma_page_numbers_append(head, tail);
    reveal_with_fuel(page_numbers, 3);
    assert(tail.drop_last() =~= seq![entry_number(e)]);
    assert(tail.drop_last().drop_last() =~= Seq::<Inline>::empty());
    assert(page_numbers(tail) =~= seq![entry_number(e)]);
}

proof fn lemma_entries_numbers(es: Seq<Entry>, st: OutlineStyle)
    requires
        st.depth is None,
    ensures
        page_numbers(entries_items(es, st).0) == es.map_values(|e: Entry| entry_number(e)),
    decreases es.len(),
{
    if es.len() > 0 {
        lemma_entries_numbers(es.drop_last(), st);
        let (items, stack) = entries_items(es.drop_last(), st);
        let e = es.last();
        let anc = pop_deeper(stack, e.heading.level);
        lemma_entry_numbers(e, anc, st);
        lemma_page_numbers_append(items, entry_items(e, anc, st));
        assert(es.map_values(|e: Entry| entry_number(e)) =~= es.drop_last().map_values(
            |e: Entry| entry_number(e),
        ).push(entry_number(e)));
    } else {
        assert(es.map_values(|e: Entry| entry_number(e)) =~= Seq::<Inline>::empty());
    }
}

/// An outline without a depth limit shows, in document order, one page
/// number per outlined heading, linked to that heading's location.
pub proof fn lemma_outline_lists_in_order(es: Seq<Entry>, st: OutlineStyle, title_loc: Location)
    requires
        st.depth is None,
    ensures
        page_numbers(outline_items(es, st, title_loc)) == outlined_of(es).map_values(
            |e: Entry| entry_number(e),
        ),
{
    let title = match st.title {
        Some(t) => seq![
            Inline::Anchor(
                title_loc,
                Heading { title: t, level: 1, outlined: false, numbers: None },
            ),
        ],
        None => Seq::empty(),
    };
    let rest = entries_items(outlined_of(es), st).0;
    assert(outline_items(es, st, title_loc) == title + rest);
    lemma_page_numbers_append(title, rest);
    assert forall|m: int| 0 <= m < title.len() implies !(#[trigger] title[m] is Number) by {}
    lemma_no_numbers(title);
    lemma_entries_numbers(outlined_of(es), st);
    assert(Seq::<Inline>::empty() + page_numbers(rest) =~= page_numbers(rest));
}

} // verus!
