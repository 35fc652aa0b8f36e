//! Lists of names in order, each once.
use crate::text::{
    is_less, lemma_text_less_transitive, lemma_text_order, text_eq, text_less,
};
use vstd::prelude::*;
use vstd::string::*;

verus! {

pub open spec fn name_views(v: Seq<String>) -> Seq<Seq<char>> {
    v.map_values(|s: String| s@)
}

/// Strictly ascending, so that no name stands twice.
pub open spec fn in_order(s: Seq<Seq<char>>) -> bool {
    forall|i: int, j: int| 0 <= i < j < s.len() ==> text_less(#[trigger] s[i], #[trigger] s[j])
}

/// The names of a set in order.
pub open spec fn listed_in_order(s: Seq<Seq<char>>, names: Set<Seq<char>>) -> bool {
    in_order(s) && s.to_set() == names
}

/// A set of names has one list in order.
pub proof fn order_is_unique(a: Seq<Seq<char>>, b: Seq<Seq<char>>)
    requires
        in_order(a),
        in_order(b),
        a.to_set() == b.to_set(),
    ensures
        a == b,
    decreases a.len(),
{
    if a.len() == 0 {
        if b.len() > 0 {
            assert(b.to_set().contains(b[0]));
            assert(a.to_set().contains(b[0]));
        }
        assert(a =~= b);
    } else {
        assert(a.to_set().contains(a[0]));
        assert(b.contains(a[0]));
        assert(b.to_set().contains(b[0]));
        assert(a.contains(b[0]));
        let j = choose|j: int| 0 <= j < b.len() && b[j] == a[0];
        let i = choose|i: int| 0 <= i < a.len() && a[i] == b[0];
        lemma_text_order(a[0], b[0]);
        if i > 0 && j > 0 {
            assert(text_less(a[0], a[i]));
            assert(text_less(b[0], b[j]));
        }
        assert(a[0] == b[0]);
        let a1 = a.drop_first();
        let b1 = b.drop_first();
        assert forall|k: Seq<char>| #[trigger] a1.to_set().contains(k) == b1.to_set().contains(k) by {
            lemma_text_order(a[0], a[0]);
            if a1.contains(k) {
                let x = choose|x: int| 0 <= x < a1.len() && a1[x] == k;
                assert(a[x + 1] == k);
                assert(text_less(a[0], a[x + 1]));
                assert(a.to_set().contains(k));
                assert(b.contains(k));
                let y = choose|y: int| 0 <= y < b.len() && b[y] == k;
                assert(y > 0);
                assert(b1[y - 1] == k);
            }
            if b1.contains(k) {
                let y = choose|y: int| 0 <= y < b1.len() && b1[y] == k;
                assert(b[y + 1] == k);
                assert(text_less(b[0], b[y + 1]));
                assert(b.to_set().contains(k));
                assert(a.contains(k));
                let x = choose|x: int| 0 <= x < a.len() && a[x] == k;
                assert(x > 0);
                assert(a1[x - 1] == k);
            }
        }
        assert(a1.to_set() =~= b1.to_set());
        order_is_unique(a1, b1);
        assert(a =~= seq![a[0]] + a1);
        assert(b =~= seq![b[0]] + b1);
    }
}

/// The names of a set in order.
pub open spec fn ordered(names: Set<Seq<char>>) -> Seq<Seq<char>> {
    choose|s: Seq<Seq<char>>| #[trigger] listed_in_order(s, names)
}

/// A list of a set's names in order is the list.
pub proof fn lemma_ordered(s: Seq<Seq<char>>, names: Set<Seq<char>>)
    requires
        listed_in_order(s, names),
    ensures
        s == ordered(names),
        s.len() == names.len(),
        s.no_duplicates(),
{
    assert(listed_in_order(ordered(names), names));
    order_is_unique(s, ordered(names));
    lemma_order_len(s);
}

/// A list in order has as many names as its set.
pub proof fn lemma_order_len(s: Seq<Seq<char>>)
    requires
        in_order(s),
    ensures
        s.no_duplicates(),
        s.to_set().len() == s.len(),
        s.to_set().finite(),
{
    assert forall|i: int, j: int| 0 <= i < s.len() && 0 <= j < s.len() && i != j implies s[i]
        != s[j] by {
        lemma_text_order(s[i], s[i]);
        if i < j {
            assert(text_less(s[i], s[j]));
        } else {
            assert(text_less(s[j], s[i]));
        }
    }
    s.unique_seq_to_set();
}

/// Puts a name in its place, unless it is there.
pub fn add_name(list: &mut Vec<String>, name: &str)
    requires
        in_order(name_views(old(list)@)),
    ensures
        listed_in_order(
            name_views(final(list)@),
            name_views(old(list)@).to_set().insert(name@),
        ),
{
    let ghost before = name_views(list@);
    let n: usize = list.len();
    let mut i: usize = 0;
    while i < n && is_less(list[i].as_str(), name)
        invariant
            n == list@.len(),
            i <= n,
            before == name_views(list@),
            forall|j: int| 0 <= j < i ==> text_less(#[trigger] before[j], name@),
        decreases n - i,
    {
        assert(before[i as int] == list@[i as int]@);
        i = i + 1;
    }
    if i < n {
        assert(before[i as int] == list@[i as int]@);
        if text_eq(list[i].as_str(), name) {
            proof {
                assert(before[i as int] == name@);
                assert(before.to_set().insert(name@) =~= before.to_set());
            }
            return;
        }
    }
    list.insert(i, name.to_owned());
    proof {
        let after = name_views(list@);
        assert(after =~= before.insert(i as int, name@));
        assert forall|a: int, b: int| 0 <= a < b < after.len() implies text_less(
            #[trigger] after[a],
            #[trigger] after[b],
        ) by {
            if b < i {
                assert(after[a] == before[a] && after[b] == before[b]);
            } else if b == i {
                assert(after[a] == before[a]);
            } else if a < i {
                assert(after[a] == before[a] && after[b] == before[b - 1]);
            } else if a == i {
                assert(after[b] == before[b - 1]);
                lemma_text_order(before[i as int], name@);
                assert(text_less(name@, before[i as int]));
                if b - 1 > i {
                    assert(text_less(before[i as int], before[b - 1]));
                    lemma_text_less_transitive(name@, before[i as int], before[b - 1]);
                }
            } else {
                assert(after[a] == before[a - 1] && after[b] == before[b - 1]);
            }
        }
        assert forall|k: Seq<char>| #[trigger] after.to_set().contains(k)
            == before.to_set().insert(name@).contains(k) by {
            if after.contains(k) {
                let a = choose|a: int| 0 <= a < after.len() && after[a] == k;
                if a < i {
                    assert(before[a] == k);
                } else if a > i {
                    assert(before[a - 1] == k);
                }
            }
            if before.contains(k) {
                let a = choose|a: int| 0 <= a < before.len() && before[a] == k;
                if a < i {
                    assert(after[a] == k);
                } else {
                    assert(after[a + 1] == k);
                }
            }
            if k == name@ {
                assert(after[i as int] == k);
            }
        }
        assert(after.to_set() =~= before.to_set().insert(name@));
    }
}

/// Puts several names in their places.
pub fn add_names(list: &mut Vec<String>, names: &Vec<String>)
    requires
        in_order(name_views(old(list)@)),
    ensures
        listed_in_order(
            name_views(final(list)@),
            name_views(old(list)@).to_set().union(name_views(names@).to_set()),
        ),
{
    let ghost before = name_views(list@).to_set();
    let ghost added = name_views(names@);
    let n: usize = names.len();
    let mut i: usize = 0;
    assert(before.union(added.take(0).to_set()) =~= before);
    while i < n
        invariant
            n == names@.len(),
            i <= n,
            added == name_views(names@),
            listed_in_order(name_views(list@), before.union(added.take(i as int).to_set())),
        decreases n - i,
    {
        let ghost prior = added.take(i as int);
        add_name(list, names[i].as_str());
        proof {
            let next = added.take(i + 1);
            assert(next =~= prior.push(names@[i as int]@));
            assert forall|k: Seq<char>| #[trigger] next.to_set().contains(k)
                == prior.to_set().insert(names@[i as int]@).contains(k) by {
                if next.contains(k) {
                    let a = choose|a: int| 0 <= a < next.len() && next[a] == k;
                    if a < i {
                        assert(prior[a] == k);
                    }
                }
                if prior.contains(k) {
                    let a = choose|a: int| 0 <= a < prior.len() && prior[a] == k;
                    assert(next[a] == k);
                }
                if k == names@[i as int]@ {
                    assert(next[i as int] == k);
                }
            }
            assert(before.union(next.to_set()) =~= before.union(prior.to_set()).insert(
                names@[i as int]@,
            ));
        }
        i = i + 1;
    }
    assert(added.take(n as int) =~= added);
}

} // verus!
