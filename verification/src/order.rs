//! The order of texts, and maps from texts listed in that order.

use vstd::prelude::*;

use crate::text::chars_of;

verus! {

/// Whether `a` comes before `b`: the order of `str`, character by character.
pub open spec fn text_less(a: Seq<char>, b: Seq<char>) -> bool
    decreases a.len(),
{
    if b.len() == 0 {
        false
    } else if a.len() == 0 {
        true
    } else if a[0] != b[0] {
        a[0] < b[0]
    } else {
        text_less(a.drop_first(), b.drop_first())
    }
}

/// No text comes before itself.
pub proof fn lemma_text_irreflexive(a: Seq<char>)
    ensures
        !text_less(a, a),
    decreases a.len(),
{
    if a.len() > 0 {
        lemma_text_irreflexive(a.drop_first());
    }
}

/// What comes before a text comes before what is behind it.
pub proof fn lemma_text_transitive(a: Seq<char>, b: Seq<char>, c: Seq<char>)
    requires
        text_less(a, b),
        text_less(b, c),
    ensures
        text_less(a, c),
    decreases a.len(),
{
    if a.len() > 0 && a[0] == b[0] && b[0] == c[0] {
        lemma_text_transitive(a.drop_first(), b.drop_first(), c.drop_first());
    }
}

/// Of two different texts one comes before the other.
pub proof fn lemma_text_total(a: Seq<char>, b: Seq<char>)
    ensures
        a == b || text_less(a, b) || text_less(b, a),
    decreases a.len(),
{
    if a.len() == 0 || b.len() == 0 {
        if a.len() == b.len() {
            assert(a =~= b);
        }
    } else if a[0] == b[0] {
        lemma_text_total(a.drop_first(), b.drop_first());
        if a.drop_first() == b.drop_first() {
            assert(a =~= seq![a[0]] + a.drop_first());
            assert(b =~= seq![b[0]] + b.drop_first());
        }
    }
}

/// Whether `a` comes before `b`.
pub(crate) fn comes_before(a: &str, b: &str) -> (r: bool)
    ensures
        r == text_less(a@, b@),
{
    let x = chars_of(a);
    let y = chars_of(b);
    let mut i: usize = 0;
    assert(a@.skip(0) =~= a@);
    assert(b@.skip(0) =~= b@);
    while i < x.len() && i < y.len()
        invariant
            x@ == a@,
            y@ == b@,
            i <= x@.len(),
            i <= y@.len(),
            text_less(a@.skip(i as int), b@.skip(i as int)) == text_less(a@, b@),
        decreases x@.len() - i,
    {
        if x[i] != y[i] {
            return x[i] < y[i];
        }
        assert(a@.skip(i as int).drop_first() =~= a@.skip(i + 1));
        assert(b@.skip(i as int).drop_first() =~= b@.skip(i + 1));
        i += 1;
    }
    i < y.len()
}

/// Whether `v` lists what a map holds, each key once, in the order of the keys.
pub open spec fn lists<T>(v: Seq<(Seq<char>, T)>, m: Map<Seq<char>, T>) -> bool {
    &&& forall|i: int, j: int|
        #![trigger v[i], v[j]]
        0 <= i < j < v.len() ==> text_less(v[i].0, v[j].0)
    &&& forall|i: int|
        #![trigger v[i]]
        0 <= i < v.len() ==> m.contains_key(v[i].0) && m[v[i].0] == v[i].1
    &&& forall|k: Seq<char>| #[trigger] m.contains_key(k) ==> has_key(v, k)
}

/// Whether a list has an entry with that key.
pub open spec fn has_key<T>(v: Seq<(Seq<char>, T)>, k: Seq<char>) -> bool {
    exists|i: int| #![trigger v[i]] 0 <= i < v.len() && v[i].0 == k
}

/// What a map holds, in the order of the keys.
pub open spec fn listing<T>(m: Map<Seq<char>, T>) -> Seq<(Seq<char>, T)> {
    choose|v: Seq<(Seq<char>, T)>| lists(v, m)
}

/// There is one way to list a map.
pub proof fn lemma_lists_unique<T>(
    v: Seq<(Seq<char>, T)>,
    w: Seq<(Seq<char>, T)>,
    m: Map<Seq<char>, T>,
)
    requires
        lists(v, m),
        lists(w, m),
    ensures
        v == w,
    decreases v.len(),
{
    if v.len() == 0 {
        if w.len() > 0 {
            assert(m.contains_key(w[0].0));
            assert(has_key(v, w[0].0));
        }
        assert(v =~= w);
    } else {
        assert(m.contains_key(v[0].0));
        assert(has_key(w, v[0].0));
        let i = choose|i: int| 0 <= i < w.len() && w[i].0 == v[0].0;
        assert(m.contains_key(w[0].0));
        assert(has_key(v, w[0].0));
        let j = choose|j: int| 0 <= j < v.len() && v[j].0 == w[0].0;
        if i > 0 {
            assert(text_less(w[0].0, w[i].0));
            if j > 0 {
                assert(text_less(v[0].0, v[j].0));
                lemma_text_transitive(w[0].0, v[0].0, w[0].0);
                lemma_text_irreflexive(w[0].0);
            } else {
                lemma_text_irreflexive(w[0].0);
            }
        }
        assert(v[0] == w[0]);
        let less = m.remove(v[0].0);
        lemma_lists_rest(v, m);
        lemma_lists_rest(w, m);
        lemma_lists_unique(v.drop_first(), w.drop_first(), less);
        assert(v =~= seq![v[0]] + v.drop_first());
        assert(w =~= seq![w[0]] + w.drop_first());
    }
}

proof fn lemma_lists_rest<T>(v: Seq<(Seq<char>, T)>, m: Map<Seq<char>, T>)
    requires
        lists(v, m),
        v.len() > 0,
    ensures
        lists(v.drop_first(), m.remove(v[0].0)),
{
    let rest = v.drop_first();
    let less = m.remove(v[0].0);
    assert forall|i: int| #![trigger rest[i]] 0 <= i < rest.len() implies less.contains_key(
        rest[i].0,
    ) && less[rest[i].0] == rest[i].1 by {
        assert(rest[i] == v[i + 1]);
        assert(text_less(v[0].0, v[i + 1].0));
        lemma_text_irreflexive(v[0].0);
    }
    assert forall|i: int, j: int|
        #![trigger rest[i], rest[j]]
        0 <= i < j < rest.len() implies text_less(rest[i].0, rest[j].0) by {
        assert(rest[i] == v[i + 1] && rest[j] == v[j + 1]);
    }
    assert forall|k: Seq<char>| #[trigger] less.contains_key(k) implies has_key(rest, k) by {
        assert(m.contains_key(k));
        let i = choose|i: int| 0 <= i < v.len() && v[i].0 == k;
        assert(rest[i - 1] == v[i]);
    }
}

/// A list of a map is the listing of it.
pub proof fn lemma_listing<T>(v: Seq<(Seq<char>, T)>, m: Map<Seq<char>, T>)
    requires
        lists(v, m),
    ensures
        listing(m) == v,
{
    lemma_lists_unique(v, listing(m), m);
}

/// The empty map is listed by the empty list.
pub proof fn lemma_lists_empty<T>()
    ensures
        lists(Seq::<(Seq<char>, T)>::empty(), Map::<Seq<char>, T>::empty()),
{
}

/// A new key goes in between the smaller and the greater ones.
pub proof fn lemma_lists_insert<T>(
    v: Seq<(Seq<char>, T)>,
    m: Map<Seq<char>, T>,
    p: int,
    k: Seq<char>,
    x: T,
)
    requires
        lists(v, m),
        0 <= p <= v.len(),
        p > 0 ==> text_less(v[p - 1].0, k),
        p < v.len() ==> text_less(k, v[p].0),
    ensures
        lists(v.insert(p, (k, x)), m.insert(k, x)),
        !m.contains_key(k),
{
    let w = v.insert(p, (k, x));
    let n = m.insert(k, x);
    assert forall|i: int| #![trigger v[i]] 0 <= i < v.len() implies v[i].0 != k && (i < p
        ==> text_less(v[i].0, k)) && (i >= p ==> text_less(k, v[i].0)) by {
        if i < p - 1 {
            assert(text_less(v[i].0, v[p - 1].0));
            lemma_text_transitive(v[i].0, v[p - 1].0, k);
        }
        if i > p {
            assert(text_less(v[p].0, v[i].0));
            lemma_text_transitive(k, v[p].0, v[i].0);
        }
        lemma_text_irreflexive(k);
    }
    assert forall|i: int, j: int| #![trigger w[i], w[j]] 0 <= i < j < w.len() implies text_less(
        w[i].0,
        w[j].0,
    ) by {
        if i < p {
            assert(w[i] == v[i]);
        } else if i > p {
            assert(w[i] == v[i - 1]);
        }
        if j < p {
            assert(w[j] == v[j]);
        } else if j > p {
            assert(w[j] == v[j - 1]);
        }
    }
    assert forall|i: int| #![trigger w[i]] 0 <= i < w.len() implies n.contains_key(w[i].0)
        && n[w[i].0] == w[i].1 by {
        if i < p {
            assert(w[i] == v[i]);
        } else if i > p {
            assert(w[i] == v[i - 1]);
        }
    }
    assert forall|q: Seq<char>| #[trigger] n.contains_key(q) implies has_key(w, q) by {
        if q == k {
            assert(w[p].0 == q);
        } else {
            assert(m.contains_key(q));
            let i = choose|i: int| 0 <= i < v.len() && v[i].0 == q;
            if i < p {
                assert(w[i] == v[i]);
            } else {
                assert(w[i + 1] == v[i]);
            }
        }
    }
    if m.contains_key(k) {
        let i = choose|i: int| 0 <= i < v.len() && v[i].0 == k;
        assert(v[i].0 != k);
    }
}

/// A key that is there gets a new value in place.
pub proof fn lemma_lists_update<T>(v: Seq<(Seq<char>, T)>, m: Map<Seq<char>, T>, p: int, x: T)
    requires
        lists(v, m),
        0 <= p < v.len(),
    ensures
        lists(v.update(p, (v[p].0, x)), m.insert(v[p].0, x)),
{
    let k = v[p].0;
    let w = v.update(p, (k, x));
    let n = m.insert(k, x);
    assert forall|i: int, j: int| #![trigger w[i], w[j]] 0 <= i < j < w.len() implies text_less(
        w[i].0,
        w[j].0,
    ) by {
        assert(w[i].0 == v[i].0 && w[j].0 == v[j].0);
    }
    assert forall|i: int| #![trigger w[i]] 0 <= i < w.len() implies n.contains_key(w[i].0)
        && n[w[i].0] == w[i].1 by {
        assert(w[i].0 == v[i].0);
        if i < p {
            assert(text_less(v[i].0, v[p].0));
            lemma_text_irreflexive(k);
        } else if i > p {
            assert(text_less(v[p].0, v[i].0));
            lemma_text_irreflexive(k);
        }
    }
    assert forall|q: Seq<char>| #[trigger] n.contains_key(q) implies has_key(w, q) by {
        if q == k {
            assert(w[p].0 == q);
        } else {
            assert(m.contains_key(q));
            let i = choose|i: int| 0 <= i < v.len() && v[i].0 == q;
            assert(w[i].0 == q);
        }
    }
}

// ---------------------------------------------------------------------------
// Sorting
// ---------------------------------------------------------------------------

/// An ordered list with one item more, behind those that it does not come before.
pub open spec fn slotted<T>(list: Seq<T>, x: T, less: spec_fn(T, T) -> bool) -> Seq<T>
    decreases list.len(),
{
    if list.len() > 0 && less(x, list.last()) {
        slotted(list.drop_last(), x, less).push(list.last())
    } else {
        list.push(x)
    }
}

/// A list in order; items of which neither comes before the other keep their order.
pub open spec fn sorted_by<T>(list: Seq<T>, less: spec_fn(T, T) -> bool) -> Seq<T>
    decreases list.len(),
{
    if list.len() == 0 {
        list
    } else {
        slotted(sorted_by(list.drop_last(), less), list.last(), less)
    }
}

/// Whether `less` orders things: what comes before another does not come behind
/// it, and not to come before is passed on.
pub open spec fn is_order<T>(less: spec_fn(T, T) -> bool) -> bool {
    &&& forall|a: T, b: T| #[trigger] less(a, b) ==> !less(b, a)
    &&& forall|a: T, b: T, c: T|
        #![trigger less(b, a), less(c, b)]
        !less(b, a) && !less(c, b) ==> !less(c, a)
}

/// Whether nothing in a list comes before what stands in front of it.
pub open spec fn in_order<T>(list: Seq<T>, less: spec_fn(T, T) -> bool) -> bool {
    forall|i: int, j: int|
        #![trigger list[i], list[j]]
        0 <= i < j < list.len() ==> !less(list[j], list[i])
}

proof fn lemma_slotted<T>(list: Seq<T>, x: T, less: spec_fn(T, T) -> bool)
    requires
        is_order(less),
        in_order(list, less),
    ensures
        in_order(slotted(list, x, less), less),
        slotted(list, x, less).to_multiset() == list.to_multiset().insert(x),
        forall|k: int|
            0 <= k < slotted(list, x, less).len() ==> (#[trigger] slotted(list, x, less)[k]) == x
                || list.contains(slotted(list, x, less)[k]),
    decreases list.len(),
{
    list.to_multiset_ensures();
    if list.len() > 0 && less(x, list.last()) {
        let shorter = list.drop_last();
        assert forall|i: int, j: int|
            #![trigger shorter[i], shorter[j]]
            0 <= i < j < shorter.len() implies !less(shorter[j], shorter[i]) by {
            assert(shorter[i] == list[i] && shorter[j] == list[j]);
        }
        lemma_slotted(shorter, x, less);
        let front = slotted(shorter, x, less);
        let last = list.last();
        assert(last == list[list.len() - 1]);
        let all = front.push(last);
        front.to_multiset_ensures();
        shorter.to_multiset_ensures();
        assert(list =~= shorter.push(last));
        assert(all.to_multiset() =~= list.to_multiset().insert(x));
        assert forall|k: int| 0 <= k < all.len() implies (#[trigger] all[k]) == x || list.contains(
            all[k],
        ) by {
            if k < front.len() {
                assert(all[k] == front[k]);
                if front[k] != x {
                    let m = choose|m: int| 0 <= m < shorter.len() && shorter[m] == front[k];
                    assert(list[m] == all[k]);
                }
            } else {
                assert(list[list.len() - 1] == all[k]);
            }
        }
        assert forall|i: int, j: int|
            #![trigger all[i], all[j]]
            0 <= i < j < all.len() implies !less(all[j], all[i]) by {
            assert(all[i] == front[i]);
            if j < front.len() {
                assert(all[j] == front[j]);
            } else if front[i] != x {
                let m = choose|m: int| 0 <= m < shorter.len() && shorter[m] == front[i];
                assert(list[m] == front[i]);
            }
        }
    } else {
        let all = list.push(x);
        assert forall|k: int| 0 <= k < all.len() implies (#[trigger] all[k]) == x || list.contains(
            all[k],
        ) by {
            if k < list.len() {
                assert(list[k] == all[k]);
            }
        }
        assert forall|i: int, j: int|
            #![trigger all[i], all[j]]
            0 <= i < j < all.len() implies !less(all[j], all[i]) by {
            assert(all[i] == list[i]);
            if j < list.len() {
                assert(all[j] == list[j]);
            } else {
                let last = list[list.len() - 1];
                if i < list.len() - 1 {
                    assert(!less(last, list[i]));
                    assert(!less(x, last));
                }
            }
        }
    }
}

/// Sorting loses nothing and adds nothing, and leaves nothing in front of what
/// comes before it.
pub proof fn lemma_sorted_by<T>(list: Seq<T>, less: spec_fn(T, T) -> bool)
    requires
        is_order(less),
    ensures
        in_order(sorted_by(list, less), less),
        sorted_by(list, less).to_multiset() == list.to_multiset(),
    decreases list.len(),
{
    if list.len() > 0 {
        let shorter = list.drop_last();
        lemma_sorted_by(shorter, less);
        lemma_slotted(sorted_by(shorter, less), list.last(), less);
        shorter.to_multiset_ensures();
        assert(list =~= shorter.push(list.last()));
    }
}

/// Where a new key goes between the keys of an ordered list.
proof fn lemma_gap<T>(v: Seq<(Seq<char>, T)>, k: Seq<char>) -> (p: int)
    requires
        forall|i: int, j: int|
            #![trigger v[i], v[j]]
            0 <= i < j < v.len() ==> text_less(v[i].0, v[j].0),
        !has_key(v, k),
    ensures
        0 <= p <= v.len(),
        p > 0 ==> text_less(v[p - 1].0, k),
        p < v.len() ==> text_less(k, v[p].0),
    decreases v.len(),
{
    if v.len() == 0 || text_less(v.last().0, k) {
        v.len() as int
    } else {
        let shorter = v.drop_last();
        assert forall|i: int, j: int|
            #![trigger shorter[i], shorter[j]]
            0 <= i < j < shorter.len() implies text_less(shorter[i].0, shorter[j].0) by {
            assert(shorter[i] == v[i] && shorter[j] == v[j]);
        }
        assert(!has_key(shorter, k)) by {
            if has_key(shorter, k) {
                let i = choose|i: int| 0 <= i < shorter.len() && shorter[i].0 == k;
                assert(v[i].0 == k);
            }
        }
        let p = lemma_gap(shorter, k);
        assert(v.last() == v[v.len() - 1]);
        lemma_text_total(v.last().0, k);
        if p < shorter.len() {
            assert(shorter[p] == v[p]);
        }
        if p > 0 {
            assert(shorter[p - 1] == v[p - 1]);
        }
        p
    }
}

/// A map with finitely many keys is listed by its listing.
pub proof fn lemma_listed<T>(m: Map<Seq<char>, T>)
    requires
        m.dom().finite(),
    ensures
        lists(listing(m), m),
    decreases m.dom().len(),
{
    if m.dom().len() == 0 {
        assert(m =~= Map::<Seq<char>, T>::empty());
        lemma_lists_empty::<T>();
    } else {
        let k = m.dom().choose();
        let less = m.remove(k);
        assert(less.dom() =~= m.dom().remove(k));
        lemma_listed(less);
        let v = listing(less);
        assert(!has_key(v, k)) by {
            if has_key(v, k) {
                let i = choose|i: int| 0 <= i < v.len() && v[i].0 == k;
                assert(less.contains_key(v[i].0));
            }
        }
        let p = lemma_gap(v, k);
        lemma_lists_insert(v, less, p, k, m[k]);
        assert(less.insert(k, m[k]) =~= m);
        assert(lists(v.insert(p, (k, m[k])), m));
    }
}

/// Two texts are ordered by the first character in which they differ; and a text comes
/// before every longer one that begins with it.
pub proof fn lemma_text_first_difference(
    common: Seq<char>,
    a: char,
    b: char,
    x: Seq<char>,
    y: Seq<char>,
)
    ensures
        text_less(common + seq![a] + x, common + seq![b] + y) <==> a < b || a == b && text_less(
            x,
            y,
        ),
        text_less(common, common + seq![a] + x),
    decreases common.len(),
{
    let s = common + seq![a] + x;
    let t = common + seq![b] + y;
    if common.len() > 0 {
        let c = common.drop_first();
        assert(s.drop_first() =~= c + seq![a] + x);
        assert(t.drop_first() =~= c + seq![b] + y);
        lemma_text_first_difference(c, a, b, x, y);
    } else {
        assert(s.drop_first() =~= x);
        assert(t.drop_first() =~= y);
    }
}

} // verus!
