//! Values and cascading style chains.
use vstd::prelude::*;

use crate::content::NodeKind;
use crate::outline::{default_styles, static_defaults};

verus! {

/// A typed style value; `Empty` is the absent value.
#[derive(Debug, PartialEq)]
pub enum Value {
    Empty,
    Auto,
    Bool(bool),
    Int(u64),
    Str(String),
}

impl Clone for Value {
    fn clone(&self) -> (r: Self)
        ensures
            r == *self,
    {
        match self {
            Value::Empty => Value::Empty,
            Value::Auto => Value::Auto,
            Value::Bool(b) => Value::Bool(*b),
            Value::Int(i) => Value::Int(*i),
            Value::Str(s) => Value::Str(s.clone()),
        }
    }
}

/// One property setting: the node kind it belongs to, the property's key
/// within that kind, and the value.
#[derive(Debug, PartialEq)]
pub struct Style {
    pub node: NodeKind,
    pub key: u32,
    pub value: Value,
}

impl Style {
    pub open spec fn sets(self, node: NodeKind, key: u32) -> bool {
        self.node == node && self.key == key
    }
}

/// What a style map says of a property: its newest (first) setting.
pub open spec fn map_lookup(m: Seq<Style>, node: NodeKind, key: u32) -> Option<Value>
    decreases m.len(),
{
    if m.len() == 0 {
        None
    } else if m[0].sets(node, key) {
        Some(m[0].value)
    } else {
        map_lookup(m.drop_first(), node, key)
    }
}

/// What a chain says of a property: the innermost map that sets it wins.
pub open spec fn chain_lookup(c: Seq<Seq<Style>>, node: NodeKind, key: u32) -> Option<Value>
    decreases c.len(),
{
    if c.len() == 0 {
        None
    } else {
        match map_lookup(c[0], node, key) {
            Some(v) => Some(v),
            None => chain_lookup(c.drop_first(), node, key),
        }
    }
}

/// A set of property settings, newest first.
#[derive(Debug, PartialEq)]
pub struct StyleMap {
    pub entries: Vec<Style>,
}

impl View for StyleMap {
    type V = Seq<Style>;

    open spec fn view(&self) -> Seq<Style> {
        self.entries@
    }
}

impl StyleMap {
    pub fn new() -> (r: StyleMap)
        ensures
            r@ == Seq::<Style>::empty(),
    {
        StyleMap { entries: Vec::new() }
    }

    /// Sets a property, overriding any earlier setting of it in this map.
    pub fn set(&mut self, node: NodeKind, key: u32, value: Value)
        ensures
            final(self)@ == seq![Style { node, key, value }] + old(self)@,
            map_lookup(final(self)@, node, key) == Some(value),
    {
        self.entries.insert(0, Style { node, key, value });
        assert(final(self)@.drop_first() =~= old(self)@);
    }

    /// The newest setting of a property in this map.
    pub fn lookup(&self, node: NodeKind, key: u32) -> (r: Option<Value>)
        ensures
            r == map_lookup(self@, node, key),
    {
        let n = self.entries.len();
        let mut i = n;
        let mut found: Option<usize> = None;
        while i > 0
            invariant
                i <= n == self.entries@.len(),
                match found {
                    Some(j) => j < n && self@[j as int].sets(node, key) && map_lookup(
                        self@.subrange(i as int, n as int),
                        node,
                        key,
                    ) == Some(self@[j as int].value),
                    None => map_lookup(self@.subrange(i as int, n as int), node, key) == None::<
                        Value,
                    >,
                },
            decreases i,
        {
            i = i - 1;
            assert(self@.subrange(i as int, n as int).drop_first() =~= self@.subrange(
                i + 1,
                n as int,
            ));
            if self.entries[i].node == node && self.entries[i].key == key {
                found = Some(i);
            }
        }
        assert(self@.subrange(0, n as int) =~= self@);
        match found {
            Some(j) => Some(self.entries[j].value.clone()),
            None => None,
        }
    }
}

/// A cascade of style maps, innermost first, ending at the root styles.
/// Behind them all stand the static defaults, which answer for every
/// property that no map sets.
#[derive(Debug, PartialEq)]
pub struct StyleChain {
    pub maps: Vec<StyleMap>,
    pub defaults: StyleMap,
}

impl View for StyleChain {
    type V = Seq<Seq<Style>>;

    /// The maps, innermost first, then the static defaults.
    open spec fn view(&self) -> Seq<Seq<Style>> {
        self.maps@.map_values(|m: StyleMap| m@).push(self.defaults@)
    }
}

impl StyleChain {
    /// A chain of the root styles over the static defaults.
    pub fn new(root: StyleMap) -> (r: StyleChain)
        ensures
            r@ == seq![root@, r.defaults@],
            static_defaults(r.defaults@),
    {
        let mut maps = Vec::new();
        maps.push(root);
        let r = StyleChain { maps, defaults: default_styles() };
        assert(r@ =~= seq![root@, r.defaults@]);
        r
    }

    /// Extends the chain with a new innermost map; the old chain is the tail.
    pub fn chain(self, inner: StyleMap) -> (r: StyleChain)
        ensures
            r@ == seq![inner@] + self@,
            r.defaults == self.defaults,
    {
        let mut maps = self.maps;
        maps.insert(0, inner);
        let r = StyleChain { maps, defaults: self.defaults };
        assert(r@ =~= seq![inner@] + self@);
        r
    }

    /// Resolves a property: the innermost setting, or `None` if neither a map
    /// nor the static defaults set it.
    pub fn lookup(&self, node: NodeKind, key: u32) -> (r: Option<Value>)
        ensures
            r == chain_lookup(self@, node, key),
    {
        let n = self.maps.len();
        let mut i = n;
        let mut r: Option<Value> = self.defaults.lookup(node, key);
        assert(self@.subrange(n as int, n + 1).drop_first() =~= Seq::<Seq<Style>>::empty());
        assert(self@.subrange(n as int, n + 1)[0] == self.defaults@);
        proof {
            reveal_with_fuel(chain_lookup, 2);
        }
        while i > 0
            invariant
                i <= n == self.maps@.len(),
                self@.len() == n + 1,
                r == chain_lookup(self@.subrange(i as int, n + 1), node, key),
            decreases i,
        {
            i = i - 1;
            assert(self@.subrange(i as int, n + 1).drop_first() =~= self@.subrange(
                i + 1,
                n + 1,
            ));
            let here = self.maps[i].lookup(node, key);
            if here.is_some() {
                r = here;
            }
        }
        assert(self@.subrange(0, n + 1) =~= self@);
        r
    }

    /// Resolves a property, falling back to its default.
    pub fn get(&self, node: NodeKind, key: u32, default: Value) -> (r: Value)
        ensures
            r == match chain_lookup(self@, node, key) {
                Some(v) => v,
                None => default,
            },
    {
        match self.lookup(node, key) {
            Some(v) => v,
            None => default,
        }
    }
}

/// In a chain `[a, b, ..root]`, a property set in `a` resolves to `a`'s
/// value; one that `a` leaves unset resolves as it would in `[b, ..root]`.
pub proof fn lemma_innermost_wins(
    a: Seq<Style>,
    b: Seq<Style>,
    root: Seq<Seq<Style>>,
    node: NodeKind,
    key: u32,
)
    ensures
        map_lookup(a, node, key) is Some ==> chain_lookup(seq![a, b] + root, node, key)
            == map_lookup(a, node, key),
        map_lookup(a, node, key) is None ==> chain_lookup(seq![a, b] + root, node, key)
            == chain_lookup(seq![b] + root, node, key),
{
    assert((seq![a, b] + root).drop_first() =~= seq![b] + root);
    assert((seq![a, b] + root)[0] == a);
}

} // verus!
