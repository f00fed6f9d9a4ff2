//! The rule: one diagnostic for each duplicated key of each object literal,
//! placed at the literal's own span.
use vstd::prelude::*;
use crate::duplicates::{duplicate_report, find_duplicates};
use crate::syntax::{lit_keys, ObjectLit, Span};

verus! {

/// A finding of the rule.
#[derive(Clone, Debug)]
pub struct Diagnostic {
    pub span: Span,
    pub code: String,
    pub message: String,
}

impl View for Diagnostic {
    type V = (Span, Seq<char>, Seq<char>);

    open spec fn view(&self) -> (Span, Seq<char>, Seq<char>) {
        (self.span, self.code@, self.message@)
    }
}

/// The code under which the rule reports.
pub open spec fn rule_code() -> Seq<char> {
    "noDupeKeys"@
}

/// The message for a duplicated key: `Duplicate key '<key>'`.
pub open spec fn message_of(key: Seq<char>) -> Seq<char> {
    "Duplicate key '"@ + key + "'"@
}

/// The finding for duplicated `key` in the literal at `span`.
pub open spec fn finding(span: Span, key: Seq<char>) -> (Span, Seq<char>, Seq<char>) {
    (span, rule_code(), message_of(key))
}

/// The findings for one literal: one per duplicated key, in key order.
pub open spec fn lit_findings(lit: ObjectLit) -> Seq<(Span, Seq<char>, Seq<char>)> {
    duplicate_report(lit_keys(lit)).map_values(|k: Seq<char>| finding(lit.span, k))
}

/// The findings for literals visited in the given order.
pub open spec fn findings_of(lits: Seq<ObjectLit>) -> Seq<(Span, Seq<char>, Seq<char>)>
    decreases lits.len(),
{
    if lits.len() == 0 {
        Seq::empty()
    } else {
        findings_of(lits.drop_last()) + lit_findings(lits.last())
    }
}

/// The views of a list of diagnostics.
pub open spec fn views(ds: Seq<Diagnostic>) -> Seq<(Span, Seq<char>, Seq<char>)> {
    ds.map_values(|d: Diagnostic| d@)
}

/// Builds `Duplicate key '<key>'`.
pub fn duplicate_message(key: &String) -> (r: String)
    ensures
        r@ == message_of(key@),
{
    let mut m = "Duplicate key '".to_owned();
    m.append(key.as_str());
    m.append("'");
    m
}

/// Walks object literals and collects the rule's diagnostics for each.
pub struct NoDupeKeysVisitor {
    diagnostics: Vec<Diagnostic>,
}

impl View for NoDupeKeysVisitor {
    type V = Seq<(Span, Seq<char>, Seq<char>)>;

    closed spec fn view(&self) -> Seq<(Span, Seq<char>, Seq<char>)> {
        views(self.diagnostics@)
    }
}

impl NoDupeKeysVisitor {
    /// A visitor that has found nothing yet.
    pub fn new() -> (r: Self)
        ensures
            r@ == Seq::<(Span, Seq<char>, Seq<char>)>::empty(),
    {
        let r = NoDupeKeysVisitor { diagnostics: Vec::new() };
        proof {
            assert(r@ =~= Seq::<(Span, Seq<char>, Seq<char>)>::empty());
        }
        r
    }

    /// The diagnostics found so far, in the order they were reported.
    pub fn diagnostics(&self) -> (r: &Vec<Diagnostic>)
        ensures
            views(r@) == self@,
    {
        &self.diagnostics
    }

    /// Checks one literal's own entries and reports each duplicated key once,
    /// in key order, at the literal's span.
    pub fn visit_object_lit(&mut self, obj_lit: &ObjectLit)
        ensures
            final(self)@ == old(self)@ + lit_findings(*obj_lit),
    {
        let keys = obj_lit.keys();
        let dups = find_duplicates(&keys);
        let ghost start = self@;
        let ghost f = |k: Seq<char>| finding(obj_lit.span, k);
        let n = dups.len();
        let mut i: usize = 0;
        proof {
            assert(dups.deep_view().take(0).map_values(f) =~= Seq::empty());
            assert(start + Seq::empty() =~= start);
        }
        while i < n
            invariant
                n == dups@.len(),
                i <= n,
                dups.deep_view() == duplicate_report(lit_keys(*obj_lit)),
                f == (|k: Seq<char>| finding(obj_lit.span, k)),
                self@ == start + dups.deep_view().take(i as int).map_values(f),
            decreases n - i,
        {
            let d = Diagnostic {
                span: obj_lit.span,
                code: "noDupeKeys".to_owned(),
                message: duplicate_message(&dups[i]),
            };
            let ghost prev = self.diagnostics@;
            let ghost dview = d@;
            self.diagnostics.push(d);
            proof {
                let dv = dups.deep_view();
                assert(dview == f(dv[i as int]));
                assert(views(prev.push(d)) =~= views(prev).push(dview));
                assert(dv.take(i + 1).map_values(f) =~= dv.take(i as int).map_values(f).push(
                    f(dv[i as int]),
                ));
                assert(self@ =~= start + dv.take(i + 1).map_values(f));
            }
            i = i + 1;
        }
        proof {
            assert(dups.deep_view().take(n as int) =~= dups.deep_view());
        }
    }
}

/// The rule that reports keys given more than once in one object literal.
pub struct NoDupeKeys;

impl NoDupeKeys {
    pub fn new() -> (r: Box<NoDupeKeys>) {
        Box::new(NoDupeKeys)
    }

    /// Checks a module's object literals, given in traversal order (an
    /// enclosing literal before those nested in it), each on its own.
    pub fn lint_module(&self, object_lits: &Vec<ObjectLit>) -> (r: Vec<Diagnostic>)
        ensures
            views(r@) == findings_of(object_lits@),
    {
        let mut visitor = NoDupeKeysVisitor::new();
        let n = object_lits.len();
        let mut i: usize = 0;
        while i < n
            invariant
                n == object_lits@.len(),
                i <= n,
                visitor@ == findings_of(object_lits@.take(i as int)),
            decreases n - i,
        {
            visitor.visit_object_lit(&object_lits[i]);
            proof {
                assert(object_lits@.take(i + 1).drop_last() =~= object_lits@.take(i as int));
            }
            i = i + 1;
        }
        proof {
            assert(object_lits@.take(n as int) =~= object_lits@);
        }
        visitor.diagnostics
    }
}

} // verus!
