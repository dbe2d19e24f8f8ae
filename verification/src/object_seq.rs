//! Facts about the sequence operations of `model`: each edit that a
//! command makes can be taken back by the matching edit, and none of them
//! breaks the uniqueness of ids.

use vstd::prelude::*;

use crate::model::{
    contains_id, find_index, ids_unique, inserted_at, is_first_index, lemma_find_unique, moved, with_object,
    without, DesignObject, ObjectId,
};

verus! {

/// Every object of `t` is an object of `s`.
pub open spec fn drawn_from<F>(t: Seq<DesignObject<F>>, s: Seq<DesignObject<F>>) -> bool {
    forall|j: int| 0 <= j < t.len() ==> s.contains(#[trigger] t[j])
}

pub proof fn lemma_find_some<F>(s: Seq<DesignObject<F>>, id: ObjectId)
    requires
        find_index(s, id) is Some,
    ensures
        is_first_index(s, id, find_index(s, id)->0),
{
}

pub proof fn lemma_find_none<F>(s: Seq<DesignObject<F>>, id: ObjectId)
    requires
        find_index(s, id) is None,
    ensures
        !contains_id(s, id),
{
    if contains_id(s, id) {
        let i = choose|i: int| 0 <= i < s.len() && s[i].id == id;
        lemma_exists_first(s, id, i);
    }
}

/// If some object has id `id`, a first one does.
pub proof fn lemma_exists_first<F>(s: Seq<DesignObject<F>>, id: ObjectId, i: int)
    requires
        0 <= i < s.len(),
        s[i].id == id,
    ensures
        exists|k: int| is_first_index(s, id, k),
    decreases i,
{
    if exists|j: int| 0 <= j < i && s[j].id == id {
        let j = choose|j: int| 0 <= j < i && s[j].id == id;
        lemma_exists_first(s, id, j);
    } else {
        assert(is_first_index(s, id, i));
    }
}

/// Changing one object in place with an id-preserving `f`, then with a `g`
/// that undoes `f`, gives the sequence back.
pub proof fn lemma_with_object_inverse<F>(
    s: Seq<DesignObject<F>>,
    id: ObjectId,
    f: spec_fn(DesignObject<F>) -> DesignObject<F>,
    g: spec_fn(DesignObject<F>) -> DesignObject<F>,
)
    requires
        ids_unique(s),
        forall|o: DesignObject<F>| #[trigger] f(o).id == o.id,
        find_index(s, id) matches Some(i) ==> g(f(s[i])) == s[i],
    ensures
        ids_unique(with_object(s, id, f)),
        drawn_from(with_object(s, id, f), s) || find_index(s, id) is Some,
        with_object(with_object(s, id, f), id, g) == s,
{
    match find_index(s, id) {
        Some(i) => {
            let t = s.update(i, f(s[i]));
            assert(f(s[i]).id == s[i].id);
            assert(ids_unique(t)) by {
                assert forall|a: int, b: int| 0 <= a < t.len() && 0 <= b < t.len() && a != b implies t[a].id != t[b].id by {
                    assert(t[a].id == s[a].id);
                    assert(t[b].id == s[b].id);
                }
            }
            lemma_find_unique(t, i);
            assert(with_object(t, id, g) =~= s);
        },
        None => {},
    }
}

/// Changing the object `id` by `f` and then by `g`, where `g` overrides
/// whatever `f` did, is changing it by `g` alone.
pub proof fn lemma_with_object_twice<F>(
    s: Seq<DesignObject<F>>,
    id: ObjectId,
    f: spec_fn(DesignObject<F>) -> DesignObject<F>,
    g: spec_fn(DesignObject<F>) -> DesignObject<F>,
)
    requires
        ids_unique(s),
        forall|o: DesignObject<F>| #[trigger] f(o).id == o.id,
        find_index(s, id) matches Some(i) ==> g(f(s[i])) == g(s[i]),
    ensures
        with_object(with_object(s, id, f), id, g) == with_object(s, id, g),
{
    match find_index(s, id) {
        Some(i) => {
            let t = s.update(i, f(s[i]));
            assert(f(s[i]).id == s[i].id);
            assert(ids_unique(t)) by {
                assert forall|a: int, b: int| 0 <= a < t.len() && 0 <= b < t.len() && a != b implies t[a].id != t[b].id by {
                    assert(t[a].id == s[a].id);
                    assert(t[b].id == s[b].id);
                }
            }
            lemma_find_unique(t, i);
            assert(with_object(t, id, g) =~= with_object(s, id, g));
        },
        None => {},
    }
}

/// Positions keep their ids under `with_object` with an id-preserving `f`.
pub proof fn lemma_with_object_ids<F>(
    s: Seq<DesignObject<F>>,
    id: ObjectId,
    f: spec_fn(DesignObject<F>) -> DesignObject<F>,
)
    requires
        forall|o: DesignObject<F>| #[trigger] f(o).id == o.id,
    ensures
        with_object(s, id, f).len() == s.len(),
        forall|j: int| 0 <= j < s.len() ==> (#[trigger] with_object(s, id, f)[j]).id == s[j].id,
{
    match find_index(s, id) {
        Some(i) => {
            assert(f(s[i]).id == s[i].id);
        },
        None => {},
    }
}

/// Appending an object with a fresh id keeps ids unique, and removing that
/// id afterwards gives the sequence back.
pub proof fn lemma_push_then_without<F>(s: Seq<DesignObject<F>>, o: DesignObject<F>)
    requires
        ids_unique(s),
        !contains_id(s, o.id),
    ensures
        ids_unique(s.push(o)),
        without(s.push(o), o.id) == s,
{
    let t = s.push(o);
    assert(ids_unique(t)) by {
        assert forall|a: int, b: int| 0 <= a < t.len() && 0 <= b < t.len() && a != b implies t[a].id != t[b].id by {
            if a < s.len() && b < s.len() {
                assert(t[a] == s[a] && t[b] == s[b]);
            } else if a < s.len() {
                assert(t[a] == s[a]);
            } else {
                assert(t[b] == s[b]);
            }
        }
    }
    lemma_find_unique(t, s.len() as int);
    assert(t.remove(s.len() as int) =~= s);
}

/// Removing one element keeps ids unique.
pub proof fn lemma_remove_unique<F>(s: Seq<DesignObject<F>>, i: int)
    requires
        ids_unique(s),
        0 <= i < s.len(),
    ensures
        ids_unique(s.remove(i)),
        drawn_from(s.remove(i), s),
{
    let t = s.remove(i);
    assert forall|a: int, b: int| 0 <= a < t.len() && 0 <= b < t.len() && a != b implies t[a].id != t[b].id by {
        let sa = if a < i { a } else { a + 1 };
        let sb = if b < i { b } else { b + 1 };
        assert(t[a] == s[sa]);
        assert(t[b] == s[sb]);
    }
    assert forall|j: int| 0 <= j < t.len() implies s.contains(#[trigger] t[j]) by {
        if j < i {
            assert(t[j] == s[j]);
        } else {
            assert(t[j] == s[j + 1]);
        }
    }
}

/// Moving an object keeps ids unique and the objects the same, and moving it
/// back to where it was gives the sequence back.
pub proof fn lemma_move_back<F>(s: Seq<DesignObject<F>>, id: ObjectId, before_index: int, after_index: int)
    requires
        ids_unique(s),
        find_index(s, id) == Some(before_index),
        0 <= after_index,
    ensures
        ids_unique(moved(s, id, after_index)),
        drawn_from(moved(s, id, after_index), s),
        moved(moved(s, id, after_index), id, before_index) == s,
{
    let o = s[before_index];
    let r = s.remove(before_index);
    lemma_remove_unique(s, before_index);
    let k = if after_index <= r.len() { after_index } else { r.len() as int };
    let t = inserted_at(r, after_index, o);
    assert(t =~= r.insert(k, o));
    assert(!contains_id(r, id)) by {
        assert forall|j: int| 0 <= j < r.len() implies r[j].id != id by {
            if j < before_index {
                assert(r[j] == s[j]);
            } else {
                assert(r[j] == s[j + 1]);
            }
        }
    }
    assert(ids_unique(t)) by {
        assert forall|a: int, b: int| 0 <= a < t.len() && 0 <= b < t.len() && a != b implies t[a].id != t[b].id by {
            if a != k && b != k {
                let ra = if a < k { a } else { a - 1 };
                let rb = if b < k { b } else { b - 1 };
                assert(t[a] == r[ra]);
                assert(t[b] == r[rb]);
                assert(ra != rb);
            } else if a == k {
                let rb = if b < k { b } else { b - 1 };
                assert(t[b] == r[rb]);
            } else {
                let ra = if a < k { a } else { a - 1 };
                assert(t[a] == r[ra]);
            }
        }
    }
    assert(drawn_from(t, s)) by {
        assert forall|j: int| 0 <= j < t.len() implies s.contains(#[trigger] t[j]) by {
            if j == k {
                assert(s[before_index] == t[j]);
            } else {
                let rj = if j < k { j } else { j - 1 };
                assert(t[j] == r[rj]);
                assert(r.contains(r[rj]));
            }
        }
    }
    assert(t[k] == o);
    lemma_find_unique(t, k);
    assert(t.remove(k) =~= r);
    assert(r.insert(before_index, o) =~= s);
}


/// The objects of `s` at the positions not in `gone`, in order.
pub open spec fn keep<F>(s: Seq<DesignObject<F>>, gone: Set<int>) -> Seq<DesignObject<F>>
    decreases s.len(),
{
    if s.len() == 0 {
        s
    } else {
        let t = keep(s.drop_last(), gone);
        if gone.contains(s.len() - 1) {
            t
        } else {
            t.push(s.last())
        }
    }
}

/// How many positions below `i` are not in `gone`.
pub open spec fn kept_below(gone: Set<int>, i: int) -> int
    decreases i,
{
    if i <= 0 {
        0
    } else {
        kept_below(gone, i - 1) + if gone.contains(i - 1) { 0int } else { 1int }
    }
}

pub proof fn lemma_kept_below_mono(gone: Set<int>, i: int, j: int)
    requires
        0 <= i <= j,
    ensures
        kept_below(gone, i) <= kept_below(gone, j),
        kept_below(gone, j) - kept_below(gone, i) <= j - i,
        !gone.contains(i) && i < j ==> kept_below(gone, i) < kept_below(gone, j),
    decreases j,
{
    if i < j {
        lemma_kept_below_mono(gone, i, j - 1);
    }
}

/// With nothing gone below `i`, every position below it is kept.
pub proof fn lemma_kept_below_none_gone(gone: Set<int>, i: int)
    requires
        0 <= i,
        forall|p: int| gone.contains(p) ==> p >= i,
    ensures
        kept_below(gone, i) == i,
    decreases i,
{
    if i > 0 {
        lemma_kept_below_none_gone(gone, i - 1);
    }
}

pub proof fn lemma_keep_len<F>(s: Seq<DesignObject<F>>, gone: Set<int>)
    ensures
        keep(s, gone).len() == kept_below(gone, s.len() as int),
    decreases s.len(),
{
    if s.len() > 0 {
        lemma_keep_len(s.drop_last(), gone);
    }
}

/// The object at a kept position `i` is at position `kept_below(gone, i)`.
pub proof fn lemma_keep_index<F>(s: Seq<DesignObject<F>>, gone: Set<int>, i: int)
    requires
        0 <= i < s.len(),
        !gone.contains(i),
    ensures
        kept_below(gone, i) < keep(s, gone).len(),
        keep(s, gone)[kept_below(gone, i)] == s[i],
    decreases s.len(),
{
    let n = s.len() as int;
    lemma_keep_len(s.drop_last(), gone);
    lemma_keep_len(s, gone);
    let t = keep(s.drop_last(), gone);
    lemma_kept_below_mono(gone, 0, i);
    if i == n - 1 {
        assert(t.len() == kept_below(gone, i));
    } else {
        lemma_keep_index(s.drop_last(), gone, i);
        lemma_kept_below_mono(gone, i, n - 1);
        assert(t[kept_below(gone, i)] == s[i]);
    }
}

/// Every kept object comes from a kept position.
pub proof fn lemma_keep_source<F>(s: Seq<DesignObject<F>>, gone: Set<int>, t: int)
    requires
        0 <= t < keep(s, gone).len(),
    ensures
        exists|i: int| 0 <= i < s.len() && !gone.contains(i) && kept_below(gone, i) == t,
    decreases s.len(),
{
    let n = s.len() as int;
    lemma_keep_len(s.drop_last(), gone);
    if t < keep(s.drop_last(), gone).len() {
        lemma_keep_source(s.drop_last(), gone, t);
        let i = choose|i: int| 0 <= i < n - 1 && !gone.contains(i) && kept_below(gone, i) == t;
        assert(0 <= i < s.len() && !gone.contains(i) && kept_below(gone, i) == t);
    } else {
        assert(!gone.contains(n - 1));
        assert(kept_below(gone, n - 1) == t);
    }
}

/// A kept sequence holds objects of `s`, and keeps ids unique.
pub proof fn lemma_keep_unique<F>(s: Seq<DesignObject<F>>, gone: Set<int>)
    requires
        ids_unique(s),
    ensures
        ids_unique(keep(s, gone)),
        drawn_from(keep(s, gone), s),
{
    let k = keep(s, gone);
    assert forall|a: int, b: int| 0 <= a < k.len() && 0 <= b < k.len() && a != b implies k[a].id != k[b].id by {
        lemma_keep_source(s, gone, a);
        lemma_keep_source(s, gone, b);
        let ia = choose|i: int| 0 <= i < s.len() && !gone.contains(i) && kept_below(gone, i) == a;
        let ib = choose|i: int| 0 <= i < s.len() && !gone.contains(i) && kept_below(gone, i) == b;
        lemma_keep_index(s, gone, ia);
        lemma_keep_index(s, gone, ib);
        assert(ia != ib);
    }
    assert forall|j: int| 0 <= j < k.len() implies s.contains(#[trigger] k[j]) by {
        lemma_keep_source(s, gone, j);
        let i = choose|i: int| 0 <= i < s.len() && !gone.contains(i) && kept_below(gone, i) == j;
        lemma_keep_index(s, gone, i);
    }
}

/// `keep` only looks at positions inside `s`.
pub proof fn lemma_keep_same<F>(s: Seq<DesignObject<F>>, a: Set<int>, b: Set<int>)
    requires
        forall|j: int| 0 <= j < s.len() ==> (a.contains(j) <==> b.contains(j)),
    ensures
        keep(s, a) == keep(s, b),
    decreases s.len(),
{
    if s.len() > 0 {
        lemma_keep_same(s.drop_last(), a, b);
    }
}

pub proof fn lemma_keep_nothing<F>(s: Seq<DesignObject<F>>)
    ensures
        keep(s, Set::empty()) == s,
    decreases s.len(),
{
    if s.len() > 0 {
        lemma_keep_nothing(s.drop_last());
        assert(s.drop_last().push(s.last()) =~= s);
    }
}

/// Dropping one more kept position removes its object.
pub proof fn lemma_keep_remove<F>(s: Seq<DesignObject<F>>, gone: Set<int>, i: int)
    requires
        0 <= i < s.len(),
        !gone.contains(i),
    ensures
        keep(s, gone.insert(i)) == keep(s, gone).remove(kept_below(gone, i)),
    decreases s.len(),
{
    let n = s.len() as int;
    let s1 = s.drop_last();
    lemma_keep_len(s1, gone);
    if i == n - 1 {
        lemma_keep_same(s1, gone.insert(i), gone);
        assert(keep(s, gone).remove(kept_below(gone, i)) =~= keep(s1, gone));
    } else {
        lemma_keep_remove(s1, gone, i);
        lemma_keep_index(s1, gone, i);
        if gone.contains(n - 1) {
        } else {
            let t = keep(s1, gone);
            let c = kept_below(gone, i);
            lemma_kept_below_mono(gone, 0, i);
            assert(0 <= c < t.len());
            assert(keep(s, gone) == t.push(s.last()));
            assert(keep(s, gone.insert(i)) == keep(s1, gone.insert(i)).push(s.last()));
            assert(t.remove(c).push(s.last()) =~= t.push(s.last()).remove(c));
        }
    }
}

} // verus!
