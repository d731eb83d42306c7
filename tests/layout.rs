use typst::content::{Content, Heading, Inline, NodeKind, OutlineNode};
use typst::frame::Document;
use typst::introspect::{
    Constraint, Fact, IntrospectError, Introspector, Location, Selector, StabilityProvider,
};
use typst::layout::{Region, Size};
use typst::measure::measure;
use typst::outline::{DEPTH, FILL, LANG, TITLE};
use typst::realize::pass;
use typst::style::{StyleChain, StyleMap, Value};
use typst::typeset::{typeset, MAX_ATTEMPTS};

fn heading(title: &str, level: usize) -> Content {
    Content::Heading(Heading { title: title.to_string(), level, outlined: true, numbers: None })
}

fn root() -> StyleChain {
    StyleChain::new(StyleMap::new())
}

fn loc(frame_id: u64) -> Location {
    Location { frame_id, disambiguator: 0 }
}

fn links(doc: &Document) -> Vec<String> {
    let mut out = vec![];
    for p in &doc.items {
        if let Inline::Link(s, _) = &p.item {
            out.push(s.clone());
        }
    }
    out
}

fn numbers(doc: &Document) -> Vec<u64> {
    let mut out = vec![];
    for p in &doc.items {
        if let Inline::Number(n, _) = &p.item {
            out.push(*n);
        }
    }
    out
}

fn outline_doc() -> Vec<Content> {
    vec![
        OutlineNode::construct(),
        heading("Intro", 1),
        Content::Text("a".to_string()),
        heading("Sub", 2),
        heading("Work", 1),
    ]
}

#[test]
fn innermost_style_wins() {
    let mut b = StyleMap::new();
    b.set(NodeKind::Text, 7, Value::Int(2));
    let mut a = StyleMap::new();
    a.set(NodeKind::Text, 7, Value::Int(1));
    let chain = StyleChain::new(StyleMap::new()).chain(b).chain(a);
    assert_eq!(chain.lookup(NodeKind::Text, 7), Some(Value::Int(1)));
}

#[test]
fn unset_inner_style_falls_through() {
    let mut b = StyleMap::new();
    b.set(NodeKind::Text, 7, Value::Int(2));
    let mut a = StyleMap::new();
    a.set(NodeKind::Text, 8, Value::Int(1));
    let chain = StyleChain::new(StyleMap::new()).chain(b).chain(a);
    assert_eq!(chain.lookup(NodeKind::Text, 7), Some(Value::Int(2)));
    assert_eq!(chain.get(NodeKind::Text, 9, Value::Auto), Value::Auto);
}

#[test]
fn newer_setting_overrides_in_one_map() {
    let mut m = StyleMap::new();
    m.set(NodeKind::Outline, 1, Value::Int(3));
    m.set(NodeKind::Outline, 1, Value::Int(4));
    assert_eq!(m.lookup(NodeKind::Outline, 1), Some(Value::Int(4)));
}

#[test]
fn provider_disambiguates_repeated_ids() {
    let mut p = StabilityProvider::new();
    assert_eq!(p.identify(9), Location { frame_id: 9, disambiguator: 0 });
    assert_eq!(p.identify(4), Location { frame_id: 4, disambiguator: 0 });
    assert_eq!(p.identify(9), Location { frame_id: 9, disambiguator: 1 });
}

#[test]
fn outline_scenario() {
    let r = typeset(&outline_doc(), &root(), Region { lines: Some(3) });
    assert!(r.converged);
    assert_eq!(r.attempts, 3);
    assert_eq!(r.document.pages, 3);
    let intro = Introspector::new(&r.document);
    let mut c = Constraint::new();
    let found = intro.locate(Selector::Outlined, &mut c);
    let titles: Vec<String> = found.iter().map(|e| e.heading.title.clone()).collect();
    assert_eq!(titles, vec!["Intro", "Sub", "Work"]);
    let ids: Vec<u64> = found.iter().map(|e| e.loc.frame_id).collect();
    assert_eq!(ids, vec![5, 13, 17]);
    let pages: Vec<usize> =
        found.iter().map(|e| intro.page_of(e.loc, &mut c).unwrap()).collect();
    assert_eq!(pages, vec![1, 2, 2]);
    for e in &found {
        let placed = r
            .document
            .items
            .iter()
            .find(|p| matches!(&p.item, Inline::Anchor(l, _) if *l == e.loc))
            .unwrap();
        assert_eq!(placed.page, e.page);
    }
    assert_eq!(links(&r.document), vec!["Intro", "Sub", "Work"]);
    assert_eq!(numbers(&r.document), vec![2, 3, 3]);
    assert_eq!(c.queries.len(), 1);
    assert_eq!(c.facts.len(), 3);
}

#[test]
fn outline_title_follows_language() {
    let mut lang = StyleMap::new();
    lang.set(NodeKind::Text, LANG, Value::Str("de".to_string()));
    let styles = root().chain(lang);
    let r = typeset(&outline_doc(), &styles, Region { lines: Some(3) });
    match &r.document.items[0].item {
        Inline::Anchor(l, h) => {
            assert_eq!(*l, loc(2));
            assert_eq!(h.title, "Inhaltsverzeichnis");
            assert!(!h.outlined);
        }
        other => panic!("expected the title, got {:?}", other),
    }
}

#[test]
fn outline_without_title() {
    let mut m = StyleMap::new();
    m.set(NodeKind::Outline, TITLE, Value::Empty);
    let styles = root().chain(m);
    let r = typeset(&outline_doc(), &styles, Region { lines: None });
    assert!(r.converged);
    assert!(matches!(&r.document.items[0].item, Inline::Link(s, _) if s == "Intro"));
}

#[test]
fn depth_filter_keeps_top_level() {
    let mut m = StyleMap::new();
    m.set(NodeKind::Outline, DEPTH, Value::Int(1));
    let styles = root().chain(m);
    let content = vec![
        OutlineNode::construct(),
        heading("A", 1),
        heading("B", 2),
        heading("C", 1),
    ];
    let r = typeset(&content, &styles, Region { lines: None });
    assert!(r.converged);
    assert_eq!(links(&r.document), vec!["A", "C"]);
}

#[test]
fn forward_reference_resolves() {
    let target = loc(2 * 4 + 1);
    let content = vec![Content::PageRef(target), Content::Pagebreak, heading("Work", 1)];
    let styles = root();
    let region = Region { lines: Some(10) };
    let (first, c) = pass(&content, &styles, region, &Introspector::new(&Document::empty()));
    assert_eq!(first.items[0].item, Inline::Number(0, Some(target)));
    assert_eq!(c.facts, vec![Fact { loc: target, page: None }]);
    let r = typeset(&content, &styles, region);
    assert!(r.converged);
    assert_eq!(r.attempts, 2);
    assert_eq!(r.document.items[0].item, Inline::Number(2, Some(target)));
}

#[test]
fn unresolved_location_is_reported() {
    let intro = Introspector::new(&Document::empty());
    let mut c = Constraint::new();
    assert_eq!(intro.page_of(loc(1), &mut c), Err(IntrospectError::UnresolvedLocation));
    assert!(intro.valid(&c));
    let blank = Introspector::new(&Document::empty());
    assert!(blank.valid(&Constraint::new()));
}

#[test]
fn changed_answer_breaks_compatibility() {
    let content = vec![heading("Work", 1)];
    let (doc, _) = pass(&content, &root(), Region { lines: None }, &Introspector::new(&Document::empty()));
    let intro = Introspector::new(&doc);
    let mut c = Constraint::new();
    let _ = Introspector::new(&Document::empty()).locate(Selector::Headings, &mut c);
    assert!(!intro.valid(&c));
}

#[test]
fn typesetting_is_deterministic() {
    let a = typeset(&outline_doc(), &root(), Region { lines: Some(3) });
    let b = typeset(&outline_doc(), &root(), Region { lines: Some(3) });
    assert_eq!(a, b);
}

#[test]
fn static_content_converges_at_once() {
    let content = vec![
        Content::Text("Hello".to_string()),
        Content::Space,
        heading("Work", 1),
    ];
    let r = typeset(&content, &root(), Region { lines: Some(2) });
    assert!(r.converged);
    assert_eq!(r.attempts, 1);
    assert!(r.attempts <= MAX_ATTEMPTS);
}

#[test]
fn measure_is_exact_and_repeatable() {
    let content = vec![
        Content::Text("Hello".to_string()),
        Content::Space,
        Content::Text("World".to_string()),
        Content::Linebreak,
        Content::Text("abc".to_string()),
    ];
    let intro = Introspector::new(&Document::empty());
    let a = measure(&content, &root(), &intro);
    let b = measure(&content, &root(), &intro);
    assert_eq!(a, Size { width: 11, height: 2 });
    assert_eq!(a, b);
    assert_eq!(intro, Introspector::new(&Document::empty()));
}

#[test]
fn measure_of_empty_content() {
    let intro = Introspector::new(&Document::empty());
    assert_eq!(measure(&vec![], &root(), &intro), Size { width: 0, height: 0 });
}

#[test]
fn automatic_title_without_root_settings() {
    let mut m = StyleMap::new();
    m.set(NodeKind::Outline, TITLE, Value::Auto);
    let styles = StyleChain::new(m);
    let r = typeset(&vec![OutlineNode::construct()], &styles, Region { lines: None });
    assert_eq!(r.document.items.len(), 1);
    match &r.document.items[0].item {
        Inline::Anchor(_, h) => assert_eq!(h.title, "Contents"),
        other => panic!("expected the title, got {:?}", other),
    }
}

#[test]
fn custom_title_and_filler() {
    let mut m = StyleMap::new();
    m.set(NodeKind::Outline, TITLE, Value::Str("Index".to_string()));
    m.set(NodeKind::Outline, FILL, Value::Str("-".to_string()));
    let styles = StyleChain::new(m);
    let r = typeset(&vec![OutlineNode::construct(), heading("A", 1)], &styles, Region { lines: None });
    assert!(matches!(&r.document.items[0].item, Inline::Anchor(_, h) if h.title == "Index"));
    assert!(r.document.items.iter().any(|p| p.item == Inline::Filler("-".to_string())));
}

#[test]
fn filler_defaults_to_a_dot() {
    let r = typeset(&vec![OutlineNode::construct(), heading("A", 1)], &root(), Region { lines: None });
    assert!(r.document.items.iter().any(|p| p.item == Inline::Filler(".".to_string())));
    let mut m = StyleMap::new();
    m.set(NodeKind::Outline, FILL, Value::Empty);
    let r = typeset(&vec![OutlineNode::construct(), heading("A", 1)], &root().chain(m), Region { lines: None });
    assert!(r.document.items.iter().any(|p| p.item == Inline::HFill));
    assert!(!r.document.items.iter().any(|p| matches!(p.item, Inline::Filler(_))));
}

#[test]
fn position_of_gives_page_and_line() {
    let r = typeset(&outline_doc(), &root(), Region { lines: Some(3) });
    let intro = Introspector::new(&r.document);
    assert_eq!(intro.position_of(loc(5)), Ok((1, 1)));
    assert_eq!(intro.position_of(loc(17)), Ok((2, 1)));
    assert_eq!(intro.position_of(loc(99)), Err(IntrospectError::UnresolvedLocation));
}

#[test]
fn outline_records_the_all_headings_query() {
    let r = typeset(&outline_doc(), &root(), Region { lines: Some(3) });
    let intro = Introspector::new(&r.document);
    let (_, c) = pass(&outline_doc(), &root(), Region { lines: Some(3) }, &intro);
    assert_eq!(c.queries.len(), 2);
    for q in &c.queries {
        assert_eq!(q.selector, Selector::Headings);
        assert_eq!(q.result.len(), 4);
    }
}
