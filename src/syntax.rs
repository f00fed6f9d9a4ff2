//! The parts of an object literal that decide whether two of its properties
//! name the same key, and the canonical key of each property.
use vstd::prelude::*;

verus! {

/// A source range, as byte offsets into the linted file.
#[derive(Clone, Copy, Debug, PartialEq, Eq, Structural)]
pub struct Span {
    pub lo: u32,
    pub hi: u32,
}

/// How a property spells its key.
#[derive(Clone, Debug)]
pub enum PropName {
    /// `foo: ..`: the identifier's name.
    Ident(String),
    /// `"foo": ..`: the string's value.
    Str(String),
    /// `0x1: ..`: the canonical decimal text of the number's value (`"1"`).
    Num(String),
    /// `[expr]: ..`: not known without evaluating the expression.
    Computed,
}

/// One property of an object literal, reduced to its key.
#[derive(Clone, Debug)]
pub enum Prop {
    KeyValue(PropName),
    Getter(PropName),
    Setter(PropName),
    Method(PropName),
    Shorthand,
    Assign,
}

/// One entry of an object literal's property list.
#[derive(Clone, Debug)]
pub enum PropOrSpread {
    Prop(Prop),
    Spread,
}

/// An object literal: its own span and its direct entries, in source order.
#[derive(Clone, Debug)]
pub struct ObjectLit {
    pub span: Span,
    pub props: Vec<PropOrSpread>,
}

/// The canonical key that a key spelling denotes, if any.
pub open spec fn name_key(n: PropName) -> Option<Seq<char>> {
    match n {
        PropName::Ident(s) => Some(s@),
        PropName::Str(s) => Some(s@),
        PropName::Num(s) => Some(s@),
        PropName::Computed => None,
    }
}

/// The canonical key of a property; shorthands and assignment patterns have none.
pub open spec fn prop_key(p: Prop) -> Option<Seq<char>> {
    match p {
        Prop::KeyValue(n) => name_key(n),
        Prop::Getter(n) => name_key(n),
        Prop::Setter(n) => name_key(n),
        Prop::Method(n) => name_key(n),
        Prop::Shorthand => None,
        Prop::Assign => None,
    }
}

/// The canonical key of an entry; a spread has none.
pub open spec fn entry_key(e: PropOrSpread) -> Option<Seq<char>> {
    match e {
        PropOrSpread::Prop(p) => prop_key(p),
        PropOrSpread::Spread => None,
    }
}

/// The keys that are present, in order, with every absent one dropped.
pub open spec fn present_keys(s: Seq<Option<Seq<char>>>) -> Seq<Seq<char>>
    decreases s.len(),
{
    if s.len() == 0 {
        Seq::empty()
    } else {
        let init = present_keys(s.drop_last());
        match s.last() {
            Some(k) => init.push(k),
            None => init,
        }
    }
}

/// The canonical keys of the entries, in source order, skipping those without one.
pub open spec fn entries_keys(entries: Seq<PropOrSpread>) -> Seq<Seq<char>> {
    present_keys(entries.map_values(|e: PropOrSpread| entry_key(e)))
}

/// The canonical keys of a literal's own entries, in source order.
pub open spec fn lit_keys(lit: ObjectLit) -> Seq<Seq<char>> {
    entries_keys(lit.props@)
}

impl PropName {
    pub fn get_key(&self) -> (r: Option<String>)
        ensures
            r.deep_view() == name_key(*self),
    {
        match self {
            PropName::Ident(s) => Some(s.clone()),
            PropName::Str(s) => Some(s.clone()),
            PropName::Num(s) => Some(s.clone()),
            PropName::Computed => None,
        }
    }
}

impl Prop {
    pub fn get_key(&self) -> (r: Option<String>)
        ensures
            r.deep_view() == prop_key(*self),
    {
        match self {
            Prop::KeyValue(n) => n.get_key(),
            Prop::Getter(n) => n.get_key(),
            Prop::Setter(n) => n.get_key(),
            Prop::Method(n) => n.get_key(),
            Prop::Shorthand => None,
            Prop::Assign => None,
        }
    }
}

impl PropOrSpread {
    pub fn get_key(&self) -> (r: Option<String>)
        ensures
            r.deep_view() == entry_key(*self),
    {
        match self {
            PropOrSpread::Prop(p) => p.get_key(),
            PropOrSpread::Spread => None,
        }
    }
}

impl ObjectLit {
    /// The canonical keys of the literal's own entries, in source order.
    pub fn keys(&self) -> (r: Vec<String>)
        ensures
            r.deep_view() == lit_keys(*self),
    {
        let mut r: Vec<String> = Vec::new();
        let n = self.props.len();
        let mut i: usize = 0;
        while i < n
            invariant
                n == self.props@.len(),
                i <= n,
                r.deep_view() == present_keys(
                    self.props@.map_values(|e: PropOrSpread| entry_key(e)).take(i as int),
                ),
            decreases n - i,
        {
            let ghost ks = self.props@.map_values(|e: PropOrSpread| entry_key(e));
            assert(ks.take(i + 1).drop_last() =~= ks.take(i as int));
            match self.props[i].get_key() {
                Some(k) => {
                    r.push(k);
                },
                None => {},
            }
            proof {
                assert(r.deep_view() =~= present_keys(ks.take(i + 1)));
            }
            i = i + 1;
        }
        proof {
            let ks = self.props@.map_values(|e: PropOrSpread| entry_key(e));
            assert(ks.take(n as int) =~= ks);
        }
        r
    }
}

} // verus!
