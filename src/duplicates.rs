//! Which canonical keys of one literal occur more than once, listed once each
//! in key order.
use vstd::prelude::*;
use crate::order::{key_less, key_lt, lemma_key_lt_strict_total, lemma_key_lt_transitive};

verus! {

/// `k` occurs at two different positions of `keys`.
pub open spec fn is_duplicated(keys: Seq<Seq<char>>, k: Seq<char>) -> bool {
    exists|i: int, j: int|
        0 <= i < j < keys.len() && #[trigger] keys[i] == k && #[trigger] keys[j] == k
}

/// The keys that occur more than once.
pub open spec fn duplicate_keys(keys: Seq<Seq<char>>) -> Set<Seq<char>> {
    Set::new(|k: Seq<char>| is_duplicated(keys, k))
}

/// Each key of `s` sorts strictly before every later one.
pub open spec fn strictly_sorted(s: Seq<Seq<char>>) -> bool {
    forall|i: int, j: int| 0 <= i < j < s.len() ==> key_lt(#[trigger] s[i], #[trigger] s[j])
}

/// `s` lists the keys of `set`, each once, in key order.
pub open spec fn lists_in_order(s: Seq<Seq<char>>, set: Set<Seq<char>>) -> bool {
    strictly_sorted(s) && s.to_set() == set
}

/// The keys of `set` in key order.
pub open spec fn in_key_order(set: Set<Seq<char>>) -> Seq<Seq<char>> {
    choose|s: Seq<Seq<char>>| lists_in_order(s, set)
}

/// The duplicated keys of `keys`, each once, in key order.
pub open spec fn duplicate_report(keys: Seq<Seq<char>>) -> Seq<Seq<char>> {
    in_key_order(duplicate_keys(keys))
}

/// There is only one way to list a set of keys in strict key order.
pub proof fn lemma_listing_unique(s1: Seq<Seq<char>>, s2: Seq<Seq<char>>, set: Set<Seq<char>>)
    requires
        lists_in_order(s1, set),
        lists_in_order(s2, set),
    ensures
        s1 == s2,
    decreases s1.len(),
{
    if s1.len() == 0 {
        if s2.len() > 0 {
            assert(s2.to_set().contains(s2[0]));
        }
        assert(s1 =~= s2);
    } else {
        assert(s1.to_set().contains(s1[0]));
        assert(s2.contains(s1[0]));
        assert(s1.contains(s2[0])) by {
            assert(s2.to_set().contains(s2[0]));
        }
        let x = s1[0];
        let m = choose|m: int| 0 <= m < s2.len() && s2[m] == x;
        let k = choose|k: int| 0 <= k < s1.len() && s1[k] == s2[0];
        if m > 0 && k > 0 {
            assert(key_lt(s2[0], s2[m]));
            assert(key_lt(s1[0], s1[k]));
            lemma_key_lt_strict_total(s1[0], s2[0]);
        }
        assert(s2[0] == x);
        let r1 = s1.drop_first();
        let r2 = s2.drop_first();
        let rest = set.remove(x);
        assert forall|y: Seq<char>| r1.contains(y) <==> rest.contains(y) by {
            if r1.contains(y) {
                let a = choose|a: int| 0 <= a < r1.len() && r1[a] == y;
                assert(key_lt(s1[0], s1[a + 1]));
                lemma_key_lt_strict_total(x, y);
                assert(s1.contains(y));
            }
            if rest.contains(y) {
                assert(s1.contains(y));
                let a = choose|a: int| 0 <= a < s1.len() && s1[a] == y;
                assert(r1[a - 1] == y);
            }
        }
        assert forall|y: Seq<char>| r2.contains(y) <==> rest.contains(y) by {
            if r2.contains(y) {
                let a = choose|a: int| 0 <= a < r2.len() && r2[a] == y;
                assert(key_lt(s2[0], s2[a + 1]));
                lemma_key_lt_strict_total(x, y);
                assert(s2.contains(y));
            }
            if rest.contains(y) {
                assert(s2.contains(y));
                let a = choose|a: int| 0 <= a < s2.len() && s2[a] == y;
                assert(r2[a - 1] == y);
            }
        }
        assert(r1.to_set() =~= rest);
        assert(r2.to_set() =~= rest);
        lemma_listing_unique(r1, r2, rest);
        assert(s1 =~= seq![x] + r1);
        assert(s2 =~= seq![x] + r2);
    }
}

/// A sorted listing of a set is the one that `in_key_order` names.
pub proof fn lemma_in_key_order(s: Seq<Seq<char>>, set: Set<Seq<char>>)
    requires
        lists_in_order(s, set),
    ensures
        in_key_order(set) == s,
{
    lemma_listing_unique(in_key_order(set), s, set);
}

/// How one more key at the end changes the duplicated keys.
pub proof fn lemma_duplicate_keys_push(keys: Seq<Seq<char>>, k: Seq<char>)
    ensures
        duplicate_keys(keys.push(k)) == (if keys.contains(k) {
            duplicate_keys(keys).insert(k)
        } else {
            duplicate_keys(keys)
        }),
{
    let p = keys.push(k);
    assert forall|x: Seq<char>|
        is_duplicated(p, x) <==> (is_duplicated(keys, x) || (x == k && keys.contains(k))) by {
        if is_duplicated(p, x) {
            let (i, j) = choose|i: int, j: int|
                0 <= i < j < p.len() && #[trigger] p[i] == x && #[trigger] p[j] == x;
            if j < keys.len() {
                assert(keys[i] == x && keys[j] == x);
            } else {
                assert(keys[i] == k);
            }
        }
        if is_duplicated(keys, x) {
            let (i, j) = choose|i: int, j: int|
                0 <= i < j < keys.len() && #[trigger] keys[i] == x && #[trigger] keys[j] == x;
            assert(p[i] == x && p[j] == x);
        }
        if x == k && keys.contains(k) {
            let i = choose|i: int| 0 <= i < keys.len() && keys[i] == k;
            assert(p[i] == x && p[keys.len() as int] == x);
        }
    }
    if keys.contains(k) {
        assert(duplicate_keys(p) =~= duplicate_keys(keys).insert(k));
    } else {
        assert(duplicate_keys(p) =~= duplicate_keys(keys));
    }
}

/// Whether the key at position `i` also occurs before it.
fn occurs_before(keys: &Vec<String>, i: usize) -> (r: bool)
    requires
        i < keys@.len(),
    ensures
        r == keys.deep_view().take(i as int).contains(keys.deep_view()[i as int]),
{
    let ghost kv = keys.deep_view();
    let mut j: usize = 0;
    while j < i
        invariant
            i < keys@.len(),
            kv == keys.deep_view(),
            j <= i,
            forall|m: int| 0 <= m < j ==> kv[m] != kv[i as int],
        decreases i - j,
    {
        if keys[j] == keys[i] {
            proof {
                assert(kv.take(i as int)[j as int] == kv[i as int]);
            }
            return true;
        }
        j = j + 1;
    }
    proof {
        if kv.take(i as int).contains(kv[i as int]) {
            let m = choose|m: int|
                0 <= m < kv.take(i as int).len() && kv.take(i as int)[m] == kv[i as int];
            assert(kv[m] == kv[i as int]);
        }
    }
    false
}

/// Adds `k` to a strictly sorted list of keys, at its place, unless it is there.
fn insert_sorted(dups: &mut Vec<String>, k: String)
    requires
        strictly_sorted(old(dups).deep_view()),
    ensures
        strictly_sorted(final(dups).deep_view()),
        final(dups).deep_view().to_set() == old(dups).deep_view().to_set().insert(k@),
{
    let ghost d = dups.deep_view();
    let n = dups.len();
    let mut p: usize = 0;
    while p < n && key_less(&dups[p], &k)
        invariant
            n == dups@.len(),
            d == dups.deep_view(),
            p <= n,
            forall|m: int| 0 <= m < p ==> key_lt(#[trigger] d[m], k@),
        decreases n - p,
    {
        p = p + 1;
    }
    if p < n && dups[p] == k {
        proof {
            assert(d.to_set().insert(k@) =~= d.to_set()) by {
                assert(d.contains(k@)) by {
                    assert(d[p as int] == k@);
                }
            }
        }
        return;
    }
    proof {
        if p < n {
            lemma_key_lt_strict_total(d[p as int], k@);
            assert forall|m: int| p <= m < n implies key_lt(k@, #[trigger] d[m]) by {
                if m > p {
                    lemma_key_lt_transitive(k@, d[p as int], d[m]);
                }
            }
        }
    }
    let ghost kv = k@;
    dups.insert(p, k);
    proof {
        let e = dups.deep_view();
        assert(e =~= d.insert(p as int, kv));
        assert forall|i: int, j: int| 0 <= i < j < e.len() implies key_lt(
            #[trigger] e[i],
            #[trigger] e[j],
        ) by {
            if j < p {
            } else if j == p {
            } else if i < p {
                lemma_key_lt_transitive(d[i], kv, d[j - 1]);
            } else if i == p {
            } else {
            }
        }
        assert forall|y: Seq<char>| e.contains(y) <==> d.to_set().insert(kv).contains(y) by {
            if e.contains(y) {
                let a = choose|a: int| 0 <= a < e.len() && e[a] == y;
                if a < p {
                    assert(d[a] == y);
                } else if a > p {
                    assert(d[a - 1] == y);
                }
            }
            if d.contains(y) {
                let a = choose|a: int| 0 <= a < d.len() && d[a] == y;
                if a < p {
                    assert(e[a] == y);
                } else {
                    assert(e[a + 1] == y);
                }
            }
            if y == kv {
                assert(e[p as int] == y);
            }
        }
        assert(e.to_set() =~= d.to_set().insert(kv));
    }
}

/// The keys that occur more than once in `keys`, each once, in key order.
pub fn find_duplicates(keys: &Vec<String>) -> (r: Vec<String>)
    ensures
        r.deep_view() == duplicate_report(keys.deep_view()),
{
    let ghost kv = keys.deep_view();
    let mut dups: Vec<String> = Vec::new();
    let n = keys.len();
    let mut i: usize = 0;
    proof {
        assert(dups.deep_view().to_set() =~= duplicate_keys(kv.take(0)));
    }
    while i < n
        invariant
            n == keys@.len(),
            kv == keys.deep_view(),
            i <= n,
            strictly_sorted(dups.deep_view()),
            dups.deep_view().to_set() == duplicate_keys(kv.take(i as int)),
        decreases n - i,
    {
        proof {
            assert(kv.take(i + 1) =~= kv.take(i as int).push(kv[i as int]));
            lemma_duplicate_keys_push(kv.take(i as int), kv[i as int]);
        }
        if occurs_before(keys, i) {
            insert_sorted(&mut dups, keys[i].clone());
        }
        i = i + 1;
    }
    proof {
        assert(kv.take(n as int) =~= kv);
        lemma_in_key_order(dups.deep_view(), duplicate_keys(kv));
    }
    dups
}

} // verus!
