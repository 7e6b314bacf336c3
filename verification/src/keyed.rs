//! Lists of entries, each under a key of its own, seen as maps.
use vstd::prelude::*;

verus! {

/// An entry of a list: the key it stands under, and what it stands for.
pub trait Keyed: Sized {
    type Key;

    type Value;

    spec fn key(&self) -> Self::Key;

    spec fn value(&self) -> Self::Value;
}

pub open spec fn holds<E: Keyed>(s: Seq<E>, k: E::Key) -> bool {
    exists|i: int| 0 <= i < s.len() && #[trigger] s[i].key() == k
}

pub open spec fn place<E: Keyed>(s: Seq<E>, k: E::Key) -> int {
    choose|i: int| 0 <= i < s.len() && #[trigger] s[i].key() == k
}

/// No two entries stand under one key.
pub open spec fn distinct<E: Keyed>(s: Seq<E>) -> bool {
    forall|i: int, j: int|
        0 <= i < j < s.len() ==> #[trigger] s[i].key() != #[trigger] s[j].key()
}

pub open spec fn table<E: Keyed>(s: Seq<E>) -> Map<E::Key, E::Value> {
    Map::new(|k: E::Key| holds(s, k), |k: E::Key| s[place(s, k)].value())
}

pub proof fn lemma_table_at<E: Keyed>(s: Seq<E>, i: int)
    requires
        distinct(s),
        0 <= i < s.len(),
    ensures
        table(s).contains_key(s[i].key()),
        table(s)[s[i].key()] == s[i].value(),
        place(s, s[i].key()) == i,
{
    assert(holds(s, s[i].key()));
    let p = place(s, s[i].key());
    assert(p == i);
}

pub proof fn lemma_table_len<E: Keyed>(s: Seq<E>)
    requires
        distinct(s),
    ensures
        table(s).dom().len() == s.len(),
        table(s).dom().finite(),
{
    let keys = Seq::new(s.len(), |i: int| s[i].key());
    assert(keys.no_duplicates());
    keys.unique_seq_to_set();
    vstd::seq_lib::seq_to_set_is_finite(keys);
    assert forall|k: E::Key| #[trigger] table(s).dom().contains(k) <==> keys.to_set().contains(
        k,
    ) by {
        if holds(s, k) {
            let i = place(s, k);
            assert(keys[i] == k);
        }
        if keys.to_set().contains(k) {
            let i = choose|i: int| 0 <= i < keys.len() && keys[i] == k;
            assert(s[i].key() == k);
        }
    }
    assert(table(s).dom() =~= keys.to_set());
}

pub proof fn lemma_table_push<E: Keyed>(s: Seq<E>, e: E)
    requires
        distinct(s),
        !holds(s, e.key()),
    ensures
        distinct(s.push(e)),
        table(s.push(e)) == table(s).insert(e.key(), e.value()),
{
    let t = s.push(e);
    assert forall|i: int, j: int| 0 <= i < j < t.len() implies #[trigger] t[i].key()
        != #[trigger] t[j].key() by {
        if j == s.len() {
            assert(s[i].key() != e.key());
        }
    }
    assert forall|k: E::Key| #[trigger] holds(t, k) <==> (holds(s, k) || k == e.key()) by {
        if holds(s, k) {
            let i = place(s, k);
            assert(t[i].key() == k);
        }
        if k == e.key() {
            assert(t[s.len() as int].key() == k);
        }
        if holds(t, k) {
            let i = place(t, k);
            if i < s.len() {
                assert(s[i].key() == k);
            }
        }
    }
    assert forall|k: E::Key| holds(t, k) implies #[trigger] table(t)[k] == table(s).insert(
        e.key(),
        e.value(),
    )[k] by {
        let i = place(t, k);
        lemma_table_at(t, i);
        if i < s.len() {
            lemma_table_at(s, i);
        }
    }
    assert(table(t) =~= table(s).insert(e.key(), e.value()));
}

pub proof fn lemma_table_swap_remove<E: Keyed>(s: Seq<E>, i: int)
    requires
        distinct(s),
        0 <= i < s.len(),
    ensures
        ({
            let t = s.update(i, s.last()).drop_last();
            &&& distinct(t)
            &&& !holds(t, s[i].key())
            &&& table(t) == table(s).remove(s[i].key())
        }),
{
    let t = s.update(i, s.last()).drop_last();
    let n = s.len() - 1;
    let src = |k: int|
        if k == i {
            n
        } else {
            k
        };
    assert forall|k: int| 0 <= k < n implies #[trigger] t[k] == s[src(k)] by {}
    assert forall|a: int, b: int| 0 <= a < b < t.len() implies #[trigger] t[a].key()
        != #[trigger] t[b].key() by {
        assert(t[a] == s[src(a)] && t[b] == s[src(b)] && src(a) != src(b));
    }
    assert forall|k: E::Key| #[trigger] holds(t, k) <==> (holds(s, k) && k != s[i].key()) by {
        if holds(t, k) {
            let p = place(t, k);
            assert(s[src(p)].key() == k);
        }
        if holds(s, k) && k != s[i].key() {
            let p = place(s, k);
            let x = if p == n {
                i
            } else {
                p
            };
            assert(t[x].key() == k);
        }
    }
    assert forall|k: E::Key| holds(t, k) implies #[trigger] table(t)[k] == table(s)[k] by {
        let p = place(t, k);
        lemma_table_at(t, p);
        lemma_table_at(s, src(p));
    }
    assert(table(t) =~= table(s).remove(s[i].key()));
}

} // verus!
