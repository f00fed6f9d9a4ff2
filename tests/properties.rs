use no_dupe_keys::{
    duplicate_message, find_duplicates, key_less, NoDupeKeys, NoDupeKeysVisitor, ObjectLit, Prop,
    PropName, PropOrSpread, Span,
};

fn kv(name: &str) -> PropOrSpread {
    PropOrSpread::Prop(Prop::KeyValue(PropName::Ident(name.to_string())))
}

fn lit(lo: u32, props: Vec<PropOrSpread>) -> ObjectLit {
    ObjectLit { span: Span { lo, hi: lo + 20 }, props }
}

fn strings(v: &[&str]) -> Vec<String> {
    v.iter().map(|s| s.to_string()).collect()
}

fn messages(lits: Vec<ObjectLit>) -> Vec<String> {
    NoDupeKeys::new()
        .lint_module(&lits)
        .into_iter()
        .map(|d| d.message)
        .collect()
}

#[test]
fn distinct_keys_give_no_findings() {
    let l = lit(0, vec![kv("a"), kv("b"), kv("c"), PropOrSpread::Spread]);
    assert!(messages(vec![l]).is_empty());
}

#[test]
fn empty_and_single_property_literals_give_no_findings() {
    assert!(messages(vec![lit(0, vec![]), lit(5, vec![kv("a")])]).is_empty());
}

#[test]
fn nested_and_outer_duplicates_are_separate_findings() {
    let outer = lit(0, vec![kv("x"), kv("x"), kv("inner")]);
    let inner = lit(30, vec![kv("x"), kv("y"), kv("y")]);
    let found = NoDupeKeys::new().lint_module(&vec![outer, inner]);
    assert_eq!(found.len(), 2);
    assert_eq!(found[0].message, "Duplicate key 'x'");
    assert_eq!(found[0].span, Span { lo: 0, hi: 20 });
    assert_eq!(found[1].message, "Duplicate key 'y'");
    assert_eq!(found[1].span, Span { lo: 30, hi: 50 });
}

#[test]
fn duplicates_are_reported_in_key_order() {
    let l = lit(0, vec![kv("quux"), kv("bar"), kv("quux"), kv("bar")]);
    assert_eq!(
        messages(vec![l]),
        strings(&["Duplicate key 'bar'", "Duplicate key 'quux'"])
    );
}

#[test]
fn a_key_given_three_times_is_reported_once() {
    let l = lit(0, vec![kv("bar"), kv("bar"), kv("bar")]);
    assert_eq!(messages(vec![l]), strings(&["Duplicate key 'bar'"]));
}

#[test]
fn adding_another_occurrence_adds_no_finding() {
    let two = lit(0, vec![kv("a"), kv("b"), kv("a")]);
    let three = lit(0, vec![kv("a"), kv("a"), kv("b"), kv("a")]);
    assert_eq!(messages(vec![two]), messages(vec![three]));
}

#[test]
fn running_twice_gives_the_same_findings() {
    let make = || lit(3, vec![kv("b"), kv("a"), kv("b"), kv("a")]);
    let first = NoDupeKeys::new().lint_module(&vec![make()]);
    let second = NoDupeKeys::new().lint_module(&vec![make()]);
    assert_eq!(first.len(), second.len());
    for (x, y) in first.iter().zip(second.iter()) {
        assert_eq!(x.span, y.span);
        assert_eq!(x.code, y.code);
        assert_eq!(x.message, y.message);
    }
}

#[test]
fn visiting_twice_reports_the_literal_again() {
    let l = lit(0, vec![kv("a"), kv("a")]);
    let mut v = NoDupeKeysVisitor::new();
    assert!(v.diagnostics().is_empty());
    v.visit_object_lit(&l);
    v.visit_object_lit(&l);
    let found = v.diagnostics();
    assert_eq!(found.len(), 2);
    assert_eq!(found[0].message, found[1].message);
}

#[test]
fn keys_without_a_name_never_collide_or_break_tracking() {
    let l = lit(
        0,
        vec![
            kv("a"),
            PropOrSpread::Prop(Prop::KeyValue(PropName::Computed)),
            PropOrSpread::Prop(Prop::KeyValue(PropName::Computed)),
            PropOrSpread::Spread,
            PropOrSpread::Spread,
            PropOrSpread::Prop(Prop::Shorthand),
            PropOrSpread::Prop(Prop::Shorthand),
            PropOrSpread::Prop(Prop::Assign),
            PropOrSpread::Prop(Prop::Assign),
            kv("a"),
        ],
    );
    assert_eq!(messages(vec![l]), strings(&["Duplicate key 'a'"]));
}

#[test]
fn method_number_and_string_keys_collide_by_text() {
    let l = lit(
        0,
        vec![
            PropOrSpread::Prop(Prop::Method(PropName::Ident("f".to_string()))),
            PropOrSpread::Prop(Prop::KeyValue(PropName::Str("f".to_string()))),
            PropOrSpread::Prop(Prop::KeyValue(PropName::Num("2".to_string()))),
            PropOrSpread::Prop(Prop::KeyValue(PropName::Str("2".to_string()))),
        ],
    );
    assert_eq!(
        messages(vec![l]),
        strings(&["Duplicate key '2'", "Duplicate key 'f'"])
    );
}

#[test]
fn string_keys_differing_in_case_do_not_collide() {
    let l = lit(0, vec![kv("a"), kv("A")]);
    assert!(messages(vec![l]).is_empty());
}

#[test]
fn get_key_of_each_form() {
    let p = PropOrSpread::Prop(Prop::Setter(PropName::Str("s".to_string())));
    assert_eq!(p.get_key(), Some("s".to_string()));
    assert_eq!(PropOrSpread::Spread.get_key(), None);
    assert_eq!(Prop::Shorthand.get_key(), None);
    assert_eq!(PropName::Computed.get_key(), None);
    assert_eq!(PropName::Num("10".to_string()).get_key(), Some("10".to_string()));
}

#[test]
fn object_keys_drop_absent_ones() {
    let l = lit(0, vec![kv("a"), PropOrSpread::Spread, kv("b")]);
    assert_eq!(l.keys(), strings(&["a", "b"]));
}

#[test]
fn find_duplicates_sorts_by_bytes() {
    let keys = strings(&["é", "b", "ab", "a", "é", "ab", "b", "a", "b"]);
    assert_eq!(find_duplicates(&keys), strings(&["a", "ab", "b", "é"]));
    assert!(find_duplicates(&Vec::new()).is_empty());
}

#[test]
fn key_less_is_byte_order() {
    let s = |x: &str| x.to_string();
    assert!(key_less(&s("a"), &s("ab")));
    assert!(!key_less(&s("ab"), &s("a")));
    assert!(!key_less(&s("a"), &s("a")));
    assert!(key_less(&s("Z"), &s("a")));
    assert!(key_less(&s("z"), &s("é")));
    assert!(key_less(&s(""), &s("a")));
}

#[test]
fn duplicate_message_text() {
    assert_eq!(duplicate_message(&"quux".to_string()), "Duplicate key 'quux'");
}
