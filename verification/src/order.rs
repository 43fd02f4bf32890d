//! The order in which results are reported: strings ascending by code
//! point, each once.

use vstd::prelude::*;
use crate::text::{byte_len, byte_length, rows, to_chars, views};

verus! {

/// `a` comes before `b` when both are read as sequences of code points.
/// This is the order of the strings' UTF-8 bytes.
pub open spec fn lex_less(a: Seq<char>, b: Seq<char>) -> bool
    decreases a.len(),
{
    if b.len() == 0 {
        false
    } else if a.len() == 0 {
        true
    } else if a[0] != b[0] {
        a[0] < b[0]
    } else {
        lex_less(a.drop_first(), b.drop_first())
    }
}

/// Every element comes before every later one.
pub open spec fn strictly_sorted(s: Seq<Seq<char>>) -> bool {
    forall|i: int, j: int| 0 <= i < j < s.len() ==> lex_less(s[i], s[j])
}

/// `r` lists the distinct elements of `src` in ascending order.
pub open spec fn is_sorted_set_of(r: Seq<Seq<char>>, src: Seq<Seq<char>>) -> bool {
    &&& strictly_sorted(r)
    &&& forall|x: Seq<char>| r.contains(x) <==> src.contains(x)
}

/// The distinct elements of `src` in ascending order.
pub open spec fn sorted_set(src: Seq<Seq<char>>) -> Seq<Seq<char>> {
    choose|r: Seq<Seq<char>>| is_sorted_set_of(r, src)
}

/// No sequence comes before itself.
pub proof fn lemma_lex_irreflexive(a: Seq<char>)
    ensures
        !lex_less(a, a),
    decreases a.len(),
{
    if a.len() > 0 {
        lemma_lex_irreflexive(a.drop_first());
    }
}

/// The order is transitive.
pub proof fn lemma_lex_transitive(a: Seq<char>, b: Seq<char>, c: Seq<char>)
    requires
        lex_less(a, b),
        lex_less(b, c),
    ensures
        lex_less(a, c),
    decreases a.len(),
{
    if a.len() > 0 && b.len() > 0 && c.len() > 0 {
        if a[0] == b[0] && b[0] == c[0] {
            lemma_lex_transitive(a.drop_first(), b.drop_first(), c.drop_first());
        }
    }
}

/// Of two different sequences one comes before the other.
pub proof fn lemma_lex_total(a: Seq<char>, b: Seq<char>)
    ensures
        lex_less(a, b) || lex_less(b, a) || a == b,
    decreases a.len(),
{
    if a.len() == 0 || b.len() == 0 {
        if a.len() == 0 && b.len() == 0 {
            assert(a =~= b);
        }
    } else if a[0] == b[0] {
        lemma_lex_total(a.drop_first(), b.drop_first());
        if a.drop_first() == b.drop_first() {
            assert(a =~= seq![a[0]] + a.drop_first());
            assert(b =~= seq![b[0]] + b.drop_first());
        }
    }
}

/// Two ascending lists of distinct elements with the same elements are the
/// same list: the order pins the result.
pub proof fn lemma_sorted_set_unique(r1: Seq<Seq<char>>, r2: Seq<Seq<char>>, src: Seq<Seq<char>>)
    requires
        is_sorted_set_of(r1, src),
        is_sorted_set_of(r2, src),
    ensures
        r1 == r2,
    decreases r1.len(),
{
    if r1.len() == 0 {
        if r2.len() > 0 {
            assert(r2.contains(r2[0]));
            assert(r1.contains(r2[0]));
        }
        assert(r1 =~= r2);
    } else if r2.len() == 0 {
        assert(r1.contains(r1[0]));
        assert(r2.contains(r1[0]));
    } else {
        // the least elements agree
        assert(r1.contains(r1[0]));
        assert(r2.contains(r2[0]));
        assert(r2.contains(r1[0]));
        assert(r1.contains(r2[0]));
        let i2 = choose|i: int| 0 <= i < r2.len() && r2[i] == r1[0];
        let i1 = choose|i: int| 0 <= i < r1.len() && r1[i] == r2[0];
        if i2 > 0 {
            assert(lex_less(r2[0], r2[i2]));
            if i1 > 0 {
                assert(lex_less(r1[0], r1[i1]));
                lemma_lex_transitive(r1[0], r2[0], r1[0]);
                lemma_lex_irreflexive(r1[0]);
            } else {
                lemma_lex_irreflexive(r1[0]);
            }
        }
        assert(r1[0] == r2[0]);
        let t1 = r1.drop_first();
        let t2 = r2.drop_first();
        let rest = t1;
        assert forall|x: Seq<char>| t2.contains(x) <==> rest.contains(x) by {
            if t2.contains(x) {
                let j = choose|j: int| 0 <= j < t2.len() && t2[j] == x;
                assert(r2[j + 1] == x);
                assert(r2.contains(x));
                assert(lex_less(r2[0], r2[j + 1]));
                let k = choose|k: int| 0 <= k < r1.len() && r1[k] == x;
                if k == 0 {
                    lemma_lex_irreflexive(x);
                }
                assert(t1[k - 1] == x);
            }
            if t1.contains(x) {
                let j = choose|j: int| 0 <= j < t1.len() && t1[j] == x;
                assert(r1[j + 1] == x);
                assert(r1.contains(x));
                assert(lex_less(r1[0], r1[j + 1]));
                let k = choose|k: int| 0 <= k < r2.len() && r2[k] == x;
                if k == 0 {
                    lemma_lex_irreflexive(x);
                }
                assert(t2[k - 1] == x);
            }
        }
        assert(strictly_sorted(t1)) by {
            assert forall|i: int, j: int| 0 <= i < j < t1.len() implies lex_less(t1[i], t1[j]) by {
                assert(lex_less(r1[i + 1], r1[j + 1]));
            }
        }
        assert(strictly_sorted(t2)) by {
            assert forall|i: int, j: int| 0 <= i < j < t2.len() implies lex_less(t2[i], t2[j]) by {
                assert(lex_less(r2[i + 1], r2[j + 1]));
            }
        }
        lemma_sorted_set_unique(t1, t2, rest);
        assert(r1 =~= seq![r1[0]] + t1);
        assert(r2 =~= seq![r2[0]] + t2);
    }
}

/// `sorted` with `x` put in its place, unless it is there already.
pub open spec fn insert_once(sorted: Seq<Seq<char>>, x: Seq<char>) -> Seq<Seq<char>>
    decreases sorted.len(),
{
    if sorted.len() == 0 {
        seq![x]
    } else if sorted.last() == x {
        sorted
    } else if lex_less(sorted.last(), x) {
        sorted.push(x)
    } else {
        insert_once(sorted.drop_last(), x).push(sorted.last())
    }
}

proof fn lemma_insert_once(sorted: Seq<Seq<char>>, x: Seq<char>)
    requires
        strictly_sorted(sorted),
    ensures
        strictly_sorted(insert_once(sorted, x)),
        forall|w: Seq<char>|
            #![trigger insert_once(sorted, x).contains(w)]
            #![trigger sorted.contains(w)]
            insert_once(sorted, x).contains(w) <==> (w == x || sorted.contains(w)),
        insert_once(sorted, x).len() > 0,
        sorted.len() > 0 ==> insert_once(sorted, x).last() == sorted.last() || insert_once(
            sorted,
            x,
        ).last() == x,
    decreases sorted.len(),
{
    let r = insert_once(sorted, x);
    if sorted.len() == 0 {
        assert(r[0] == x);
    } else if sorted.last() == x {
        assert(sorted[sorted.len() - 1] == x);
    } else if lex_less(sorted.last(), x) {
        assert forall|i: int, j: int| 0 <= i < j < r.len() implies lex_less(r[i], r[j]) by {
            if j == sorted.len() {
                if i < sorted.len() - 1 {
                    assert(lex_less(sorted[i], sorted[sorted.len() - 1]));
                    lemma_lex_transitive(sorted[i], sorted.last(), x);
                }
            }
        }
        assert forall|w: Seq<char>| r.contains(w) <==> (w == x || sorted.contains(w)) by {
            if r.contains(w) {
                let j = choose|j: int| 0 <= j < r.len() && r[j] == w;
                if j < sorted.len() {
                    assert(sorted[j] == w);
                }
            }
            if w == x {
                assert(r[sorted.len() as int] == w);
            }
            if sorted.contains(w) {
                let j = choose|j: int| 0 <= j < sorted.len() && sorted[j] == w;
                assert(r[j] == w);
            }
        }
    } else {
        let init = sorted.drop_last();
        let last = sorted.last();
        assert(strictly_sorted(init)) by {
            assert forall|i: int, j: int| 0 <= i < j < init.len() implies lex_less(
                init[i],
                init[j],
            ) by {
                assert(lex_less(sorted[i], sorted[j]));
            }
        }
        lemma_insert_once(init, x);
        let ri = insert_once(init, x);
        lemma_lex_total(last, x);
        assert(lex_less(x, last));
        assert forall|i: int, j: int| 0 <= i < j < r.len() implies lex_less(r[i], r[j]) by {
            if j < ri.len() {
                assert(lex_less(ri[i], ri[j]));
            } else {
                assert(r[i] == ri[i]);
                assert(ri.contains(ri[i]));
                if ri[i] == x {
                } else {
                    assert(init.contains(ri[i]));
                    let k = choose|k: int| 0 <= k < init.len() && init[k] == ri[i];
                    assert(lex_less(sorted[k], sorted[sorted.len() - 1]));
                }
            }
        }
        assert forall|w: Seq<char>| r.contains(w) <==> (w == x || sorted.contains(w)) by {
            if r.contains(w) {
                let j = choose|j: int| 0 <= j < r.len() && r[j] == w;
                if j < ri.len() {
                    assert(ri[j] == w);
                    assert(ri.contains(w));
                    if w != x {
                        let k = choose|k: int| 0 <= k < init.len() && init[k] == w;
                        assert(sorted[k] == w);
                    }
                } else {
                    assert(sorted[sorted.len() - 1] == w);
                }
            }
            if w == x {
                assert(ri.contains(x) <==> (x == x || init.contains(x)));
                assert(ri.contains(x));
                let j = choose|j: int| 0 <= j < ri.len() && ri[j] == x;
                assert(r[j] == x);
            }
            if sorted.contains(w) {
                let k = choose|k: int| 0 <= k < sorted.len() && sorted[k] == w;
                if k < init.len() {
                    assert(init[k] == w);
                    assert(init.contains(w));
                    assert(ri.contains(w));
                    let j = choose|j: int| 0 <= j < ri.len() && ri[j] == w;
                    assert(r[j] == w);
                } else {
                    assert(r[r.len() - 1] == w);
                }
            }
        }
    }
}

/// Every list has a list of its distinct elements in ascending order.
pub proof fn lemma_sorted_set_exists(src: Seq<Seq<char>>)
    ensures
        is_sorted_set_of(sorted_set(src), src),
    decreases src.len(),
{
    if src.len() == 0 {
        let r = Seq::<Seq<char>>::empty();
        assert(is_sorted_set_of(r, src));
    } else {
        let init = src.drop_last();
        lemma_sorted_set_exists(init);
        let ri = sorted_set(init);
        lemma_insert_once(ri, src.last());
        let r = insert_once(ri, src.last());
        assert forall|x: Seq<char>| r.contains(x) <==> src.contains(x) by {
            if src.contains(x) {
                let j = choose|j: int| 0 <= j < src.len() && src[j] == x;
                if j < init.len() {
                    assert(init[j] == x);
                    assert(init.contains(x));
                }
            }
            if init.contains(x) {
                let j = choose|j: int| 0 <= j < init.len() && init[j] == x;
                assert(src[j] == x);
            }
            if x == src.last() {
                assert(src[src.len() - 1] == x);
            }
        }
        assert(is_sorted_set_of(r, src));
    }
}

/// A list that is ascending, distinct and has the elements of `src` is
/// [`sorted_set`] of `src`.
pub proof fn lemma_is_sorted_set(r: Seq<Seq<char>>, src: Seq<Seq<char>>)
    requires
        is_sorted_set_of(r, src),
    ensures
        r == sorted_set(src),
{
    lemma_sorted_set_unique(r, sorted_set(src), src);
}

/// Whether `a` comes before `b`.
pub fn less(a: &Vec<char>, b: &Vec<char>) -> (r: bool)
    ensures
        r == lex_less(a@, b@),
{
    let mut i: usize = 0;
    assert(a@.skip(0) == a@ && b@.skip(0) == b@);
    while i < a.len() && i < b.len()
        invariant
            i <= a.len(),
            i <= b.len(),
            lex_less(a@, b@) == lex_less(a@.skip(i as int), b@.skip(i as int)),
        decreases a.len() - i,
    {
        let ghost ra = a@.skip(i as int);
        let ghost rb = b@.skip(i as int);
        assert(ra[0] == a@[i as int] && rb[0] == b@[i as int]);
        if a[i] != b[i] {
            return a[i] < b[i];
        }
        assert(ra.drop_first() == a@.skip(i + 1));
        assert(rb.drop_first() == b@.skip(i + 1));
        i += 1;
    }
    i < b.len()
}

/// Whether `a` and `b` hold the same characters.
pub fn same(a: &Vec<char>, b: &Vec<char>) -> (r: bool)
    ensures
        r == (a@ == b@),
{
    if a.len() != b.len() {
        return false;
    }
    let mut i: usize = 0;
    while i < a.len()
        invariant
            i <= a.len(),
            a.len() == b.len(),
            forall|j: int| 0 <= j < i ==> a@[j] == b@[j],
        decreases a.len() - i,
    {
        if a[i] != b[i] {
            return false;
        }
        i += 1;
    }
    assert(a@ =~= b@);
    true
}

/// The list of the keys behind `order`.
pub open spec fn picked(keys: Seq<Seq<char>>, order: Seq<usize>) -> Seq<Seq<char>> {
    Seq::new(order.len(), |j: int| keys[order[j] as int])
}

/// Every index of `order` is the first place at which its key stands in
/// `keys`.
pub open spec fn first_places(keys: Seq<Seq<char>>, order: Seq<usize>) -> bool {
    forall|j: int, i: int|
        0 <= j < order.len() && 0 <= i < order[j] ==> #[trigger] keys[i] != keys[
            #[trigger] order[j] as int
        ]
}

/// Indices into `keys` that list its distinct elements in ascending order,
/// each element by the first place at which it stands.
pub fn sorted_indices(keys: &Vec<Vec<char>>) -> (order: Vec<usize>)
    ensures
        forall|j: int| 0 <= j < order@.len() ==> order@[j] < keys@.len(),
        is_sorted_set_of(picked(rows(keys@), order@), rows(keys@)),
        first_places(rows(keys@), order@),
{
    let ghost kv = rows(keys@);
    let mut order: Vec<usize> = Vec::new();
    let mut n: usize = 0;
    assert(picked(kv, order@).len() == 0);
    while n < keys.len()
        invariant
            n <= keys.len(),
            kv == rows(keys@),
            forall|j: int| 0 <= j < order@.len() ==> order@[j] < n,
            strictly_sorted(picked(kv, order@)),
            forall|x: Seq<char>| picked(kv, order@).contains(x) <==> kv.take(n as int).contains(x),
            first_places(kv, order@),
        decreases keys.len() - n,
    {
        let key = &keys[n];
        assert(kv[n as int] == key@);
        let ghost before = order@;
        let ghost pb = picked(kv, before);
        // the first place whose key does not come before `key`
        let mut at: usize = 0;
        while at < order.len() && less(&keys[order[at]], key)
            invariant
                at <= order@.len(),
                order@ == before,
                n < keys.len(),
                key@ == kv[n as int],
                kv == rows(keys@),
                forall|j: int| 0 <= j < order@.len() ==> order@[j] < n,
                forall|j: int| 0 <= j < at ==> lex_less(pb[j], key@),
                pb == picked(kv, before),
            decreases order@.len() - at,
        {
            assert(pb[at as int] == kv[order@[at as int] as int]);
            assert(kv[order@[at as int] as int] == keys@[order@[at as int] as int]@);
            at += 1;
        }
        let present = at < order.len() && same(&keys[order[at]], key);
        proof {
            if at < order@.len() {
                assert(pb[at as int] == kv[order@[at as int] as int]);
                assert(kv[order@[at as int] as int] == keys@[order@[at as int] as int]@);
            }
        }
        if !present {
            order.insert(at, n);
        }
        proof {
            if !present {
                assert(!pb.contains(key@)) by {
                    if pb.contains(key@) {
                        let q = choose|q: int| 0 <= q < pb.len() && pb[q] == key@;
                        lemma_lex_irreflexive(key@);
                        if q < at {
                            assert(lex_less(pb[q], key@));
                        } else if q > at {
                            assert(lex_less(pb[at as int], pb[q]));
                        }
                    }
                }
                assert forall|j: int, i: int|
                    0 <= j < order@.len() && 0 <= i < order@[j] implies #[trigger] kv[i] != kv[
                    #[trigger] order@[j] as int
                ] by {
                    if j == at {
                        assert(kv.take(n as int)[i] == kv[i]);
                        if kv[i] == key@ {
                            assert(kv.take(n as int).contains(key@));
                        }
                    } else {
                        let jb = if j < at {
                            j
                        } else {
                            j - 1
                        };
                        assert(order@[j] == before[jb]);
                    }
                }
            }
            let pa = picked(kv, order@);
            let tn = kv.take(n as int);
            let tm = kv.take(n + 1);
            assert(tm =~= tn.push(key@));
            if present {
                assert(pa == pb);
                assert(pb.contains(key@));
                assert forall|x: Seq<char>| pa.contains(x) <==> tm.contains(x) by {
                    if tm.contains(x) {
                        let j = choose|j: int| 0 <= j < tm.len() && tm[j] == x;
                        if j < n {
                            assert(tn[j] == x);
                        }
                    }
                    if pa.contains(x) {
                        let j = choose|j: int| 0 <= j < tn.len() && tn[j] == x;
                        assert(tm[j] == x);
                    }
                }
            } else {
                assert(pa =~= pb.take(at as int).push(key@) + pb.skip(at as int));
                assert forall|i: int, j: int| 0 <= i < j < pa.len() implies lex_less(
                    pa[i],
                    pa[j],
                ) by {
                    if j < at {
                        assert(pa[i] == pb[i] && pa[j] == pb[j]);
                    } else if j == at {
                        assert(pa[i] == pb[i]);
                    } else if i > at {
                        assert(pa[i] == pb[i - 1] && pa[j] == pb[j - 1]);
                    } else {
                        // pa[j] is pb[j - 1] with j - 1 >= at, which does not come before key
                        assert(pa[j] == pb[j - 1]);
                        lemma_lex_total(pb[at as int], key@);
                        if j - 1 > at {
                            assert(lex_less(pb[at as int], pb[j - 1]));
                            lemma_lex_transitive(key@, pb[at as int], pb[j - 1]);
                        }
                        if i < at {
                            assert(pa[i] == pb[i]);
                            lemma_lex_transitive(pb[i], key@, pb[j - 1]);
                        }
                    }
                }
                assert forall|x: Seq<char>| pa.contains(x) <==> tm.contains(x) by {
                    if pa.contains(x) {
                        let j = choose|j: int| 0 <= j < pa.len() && pa[j] == x;
                        if j == at {
                            assert(tm[n as int] == x);
                        } else {
                            let jb = if j < at {
                                j
                            } else {
                                j - 1
                            };
                            assert(pb[jb] == x);
                            assert(pb.contains(x));
                            let k = choose|k: int| 0 <= k < tn.len() && tn[k] == x;
                            assert(tm[k] == x);
                        }
                    }
                    if tm.contains(x) {
                        let k = choose|k: int| 0 <= k < tm.len() && tm[k] == x;
                        if k == n {
                            assert(pa[at as int] == x);
                        } else {
                            assert(tn[k] == x);
                            assert(pb.contains(x));
                            let j = choose|j: int| 0 <= j < pb.len() && pb[j] == x;
                            if j < at {
                                assert(pa[j] == x);
                            } else {
                                assert(pa[j + 1] == x);
                            }
                        }
                    }
                }
            }
        }
        n += 1;
    }
    assert(kv.take(keys.len() as int) == kv);
    order
}

/// The character sequences of a list of string slices.
pub open spec fn str_views(v: Seq<&str>) -> Seq<Seq<char>> {
    Seq::new(v.len(), |i: int| v[i]@)
}

/// The distinct strings of `items`, ascending.
pub fn sort_dedup_strs<'a>(items: &Vec<&'a str>) -> (r: Vec<&'a str>)
    ensures
        is_sorted_set_of(str_views(r@), str_views(items@)),
        str_views(r@) == sorted_set(str_views(items@)),
{
    let mut keys: Vec<Vec<char>> = Vec::new();
    let mut i: usize = 0;
    while i < items.len()
        invariant
            i <= items.len(),
            keys@.len() == i,
            forall|j: int| 0 <= j < i ==> keys@[j]@ == items@[j]@,
        decreases items.len() - i,
    {
        keys.push(to_chars(items[i]));
        i += 1;
    }
    assert(rows(keys@) =~= str_views(items@));
    let order = sorted_indices(&keys);
    let mut out: Vec<&'a str> = Vec::new();
    let mut j: usize = 0;
    while j < order.len()
        invariant
            j <= order.len(),
            out@.len() == j,
            keys@.len() == items@.len(),
            forall|k: int| 0 <= k < order@.len() ==> order@[k] < keys@.len(),
            forall|k: int| 0 <= k < j ==> out@[k]@ == items@[order@[k] as int]@,
        decreases order.len() - j,
    {
        out.push(items[order[j]]);
        j += 1;
    }
    assert(str_views(out@) =~= picked(rows(keys@), order@));
    proof {
        lemma_is_sorted_set(str_views(out@), str_views(items@));
    }
    out
}

/// The distinct strings of `items`, ascending.
pub fn sort_dedup_strings(items: &Vec<String>) -> (r: Vec<String>)
    ensures
        is_sorted_set_of(views(r@), views(items@)),
        views(r@) == sorted_set(views(items@)),
{
    let mut keys: Vec<Vec<char>> = Vec::new();
    let mut i: usize = 0;
    while i < items.len()
        invariant
            i <= items.len(),
            keys@.len() == i,
            forall|j: int| 0 <= j < i ==> keys@[j]@ == items@[j]@,
        decreases items.len() - i,
    {
        keys.push(to_chars(items[i].as_str()));
        i += 1;
    }
    assert(rows(keys@) =~= views(items@));
    let order = sorted_indices(&keys);
    let mut out: Vec<String> = Vec::new();
    let mut j: usize = 0;
    while j < order.len()
        invariant
            j <= order.len(),
            out@.len() == j,
            keys@.len() == items@.len(),
            forall|k: int| 0 <= k < order@.len() ==> order@[k] < keys@.len(),
            forall|k: int| 0 <= k < j ==> out@[k]@ == items@[order@[k] as int]@,
        decreases order.len() - j,
    {
        out.push(items[order[j]].clone());
        j += 1;
    }
    assert(views(out@) =~= picked(rows(keys@), order@));
    proof {
        lemma_is_sorted_set(views(out@), views(items@));
    }
    out
}

/// `sorted` with `x` put behind the last element that is at least as long
/// in bytes as `x`.
pub open spec fn insert_by_length(sorted: Seq<Seq<char>>, x: Seq<char>) -> Seq<Seq<char>>
    decreases sorted.len(),
{
    if sorted.len() == 0 {
        seq![x]
    } else if byte_len(sorted.last()) >= byte_len(x) {
        sorted.push(x)
    } else {
        insert_by_length(sorted.drop_last(), x).push(sorted.last())
    }
}

/// `s` ordered by descending byte length; elements of equal length keep
/// their order.
pub open spec fn longest_first(s: Seq<Seq<char>>) -> Seq<Seq<char>>
    decreases s.len(),
{
    if s.len() == 0 {
        s
    } else {
        insert_by_length(longest_first(s.drop_last()), s.last())
    }
}

/// Ordering longest first keeps the number of elements and brings in no
/// element that was not there.
pub proof fn lemma_longest_first_members(s: Seq<Seq<char>>)
    ensures
        forall|w: Seq<char>| #[trigger] longest_first(s).contains(w) ==> s.contains(w),
        longest_first(s).len() == s.len(),
    decreases s.len(),
{
    if s.len() > 0 {
        let init = s.drop_last();
        lemma_longest_first_members(init);
        lemma_insert_members(longest_first(init), s.last());
        assert forall|w: Seq<char>| longest_first(s).contains(w) implies s.contains(w) by {
            if w == s.last() {
                assert(s[s.len() - 1] == w);
            } else {
                assert(longest_first(init).contains(w));
                let j = choose|j: int| 0 <= j < init.len() && init[j] == w;
                assert(s[j] == w);
            }
        }
    }
}

proof fn lemma_insert_members(sorted: Seq<Seq<char>>, x: Seq<char>)
    ensures
        forall|w: Seq<char>| #[trigger]
            insert_by_length(sorted, x).contains(w) ==> w == x || sorted.contains(w),
        insert_by_length(sorted, x).len() == sorted.len() + 1,
    decreases sorted.len(),
{
    let r = insert_by_length(sorted, x);
    if sorted.len() == 0 {
    } else if byte_len(sorted.last()) >= byte_len(x) {
        assert forall|w: Seq<char>| r.contains(w) implies w == x || sorted.contains(w) by {
            let j = choose|j: int| 0 <= j < r.len() && r[j] == w;
            if j < sorted.len() {
                assert(sorted[j] == w);
            }
        }
    } else {
        let init = sorted.drop_last();
        lemma_insert_members(init, x);
        let ri = insert_by_length(init, x);
        assert forall|w: Seq<char>| r.contains(w) implies w == x || sorted.contains(w) by {
            let j = choose|j: int| 0 <= j < r.len() && r[j] == w;
            if j < ri.len() {
                assert(ri[j] == w);
                assert(ri.contains(w));
                if w != x {
                    let k = choose|k: int| 0 <= k < init.len() && init[k] == w;
                    assert(sorted[k] == w);
                }
            } else {
                assert(sorted[sorted.len() - 1] == w);
            }
        }
    }
}

/// Ordered longest first, no element is shorter in bytes than one behind
/// it.
pub proof fn lemma_longest_first_sorted(s: Seq<Seq<char>>)
    ensures
        forall|i: int, j: int|
            0 <= i < j < longest_first(s).len() ==> byte_len(#[trigger] longest_first(s)[i])
                >= byte_len(#[trigger] longest_first(s)[j]),
    decreases s.len(),
{
    if s.len() > 0 {
        lemma_longest_first_sorted(s.drop_last());
        lemma_insert_sorted(longest_first(s.drop_last()), s.last());
    }
}

proof fn lemma_insert_sorted(sorted: Seq<Seq<char>>, x: Seq<char>)
    requires
        forall|i: int, j: int|
            0 <= i < j < sorted.len() ==> byte_len(#[trigger] sorted[i]) >= byte_len(
                #[trigger] sorted[j],
            ),
    ensures
        forall|i: int, j: int|
            0 <= i < j < insert_by_length(sorted, x).len() ==> byte_len(
                #[trigger] insert_by_length(sorted, x)[i],
            ) >= byte_len(#[trigger] insert_by_length(sorted, x)[j]),
        insert_by_length(sorted, x).len() == sorted.len() + 1,
        byte_len(insert_by_length(sorted, x).last()) == byte_len(x) || (sorted.len() > 0
            && insert_by_length(sorted, x).last() == sorted.last()),
        forall|i: int|
            0 <= i < insert_by_length(sorted, x).len() ==> byte_len(
                #[trigger] insert_by_length(sorted, x)[i],
            ) >= byte_len(x) || (sorted.len() > 0 && byte_len(insert_by_length(sorted, x)[i])
                >= byte_len(sorted.last())),
    decreases sorted.len(),
{
    let r = insert_by_length(sorted, x);
    if sorted.len() == 0 {
    } else if byte_len(sorted.last()) >= byte_len(x) {
        assert forall|i: int, j: int| 0 <= i < j < r.len() implies byte_len(#[trigger] r[i])
            >= byte_len(#[trigger] r[j]) by {
            if j == sorted.len() {
                if i < sorted.len() - 1 {
                    assert(byte_len(sorted[i]) >= byte_len(sorted[sorted.len() - 1]));
                }
            }
        }
        assert forall|i: int| 0 <= i < r.len() implies byte_len(#[trigger] r[i]) >= byte_len(x)
            || (sorted.len() > 0 && byte_len(r[i]) >= byte_len(sorted.last())) by {
            if i < sorted.len() - 1 {
                assert(byte_len(sorted[i]) >= byte_len(sorted[sorted.len() - 1]));
            }
        }
    } else {
        let init = sorted.drop_last();
        assert forall|i: int, j: int| 0 <= i < j < init.len() implies byte_len(#[trigger] init[i])
            >= byte_len(#[trigger] init[j]) by {
            assert(byte_len(sorted[i]) >= byte_len(sorted[j]));
        }
        lemma_insert_sorted(init, x);
        let ri = insert_by_length(init, x);
        assert forall|i: int| 0 <= i < ri.len() implies byte_len(#[trigger] ri[i]) >= byte_len(
            sorted.last(),
        ) by {
            if byte_len(ri[i]) >= byte_len(x) {
            } else {
                assert(init.len() > 0 && byte_len(ri[i]) >= byte_len(init.last()));
                assert(byte_len(sorted[init.len() - 1]) >= byte_len(sorted[sorted.len() - 1]));
            }
        }
        assert forall|i: int, j: int| 0 <= i < j < r.len() implies byte_len(#[trigger] r[i])
            >= byte_len(#[trigger] r[j]) by {
            if j < ri.len() {
                assert(byte_len(ri[i]) >= byte_len(ri[j]));
            } else {
                assert(r[i] == ri[i]);
            }
        }
        assert forall|i: int| 0 <= i < r.len() implies byte_len(#[trigger] r[i]) >= byte_len(x)
            || (sorted.len() > 0 && byte_len(r[i]) >= byte_len(sorted.last())) by {
            if i < ri.len() {
                assert(r[i] == ri[i]);
            }
        }
    }
}

/// Putting `x` at index `at` is [`insert_by_length`] when everything from
/// `at` on is shorter than `x` and the element before `at`, if any, is not.
proof fn lemma_insert_at(sorted: Seq<Seq<char>>, x: Seq<char>, at: int)
    requires
        0 <= at <= sorted.len(),
        forall|j: int| at <= j < sorted.len() ==> byte_len(sorted[j]) < byte_len(x),
        at > 0 ==> byte_len(sorted[at - 1]) >= byte_len(x),
    ensures
        sorted.insert(at, x) == insert_by_length(sorted, x),
    decreases sorted.len(),
{
    if sorted.len() == 0 {
        assert(sorted.insert(at, x) =~= seq![x]);
    } else if at == sorted.len() {
        assert(sorted.insert(at, x) =~= sorted.push(x));
    } else {
        lemma_insert_at(sorted.drop_last(), x, at);
        assert(sorted.insert(at, x) =~= sorted.drop_last().insert(at, x).push(sorted.last()));
    }
}

/// `items` ordered by descending byte length; strings of equal length keep
/// their order.
pub fn sort_longest_first(items: &[String]) -> (r: Vec<String>)
    ensures
        views(r@) == longest_first(views(items@)),
{
    let ghost iv = views(items@);
    let mut out: Vec<String> = Vec::new();
    let mut sizes: Vec<usize> = Vec::new();
    let mut n: usize = 0;
    assert(views(out@) =~= longest_first(iv.take(0)));
    while n < items.len()
        invariant
            n <= items.len(),
            iv == views(items@),
            sizes@.len() == out@.len(),
            forall|j: int| 0 <= j < out@.len() ==> sizes@[j] == byte_len(out@[j]@),
            views(out@) == longest_first(iv.take(n as int)),
        decreases items.len() - n,
    {
        let item = items[n].clone();
        let size = byte_length(item.as_str());
        let mut at: usize = out.len();
        while at > 0 && sizes[at - 1] < size
            invariant
                at <= out@.len(),
                sizes@.len() == out@.len(),
                forall|j: int| 0 <= j < out@.len() ==> sizes@[j] == byte_len(out@[j]@),
                forall|j: int| at <= j < out@.len() ==> sizes@[j] < size,
            decreases at,
        {
            at -= 1;
        }
        let ghost before = views(out@);
        proof {
            assert(iv.take(n + 1).drop_last() == iv.take(n as int));
            assert(iv.take(n + 1).last() == item@);
            assert forall|j: int| at <= j < before.len() implies byte_len(before[j]) < byte_len(
                item@,
            ) by {
                assert(before[j] == out@[j]@);
                assert(sizes@[j] < size);
                assert(sizes@[j] == byte_len(out@[j]@));
            }
            if at > 0 {
                assert(before[at - 1] == out@[at - 1]@);
                assert(sizes@[at - 1] == byte_len(out@[at - 1]@));
            }
            lemma_insert_at(before, item@, at as int);
        }
        out.insert(at, item);
        sizes.insert(at, size);
        assert(views(out@) =~= before.insert(at as int, iv[n as int]));
        n += 1;
    }
    assert(iv.take(items.len() as int) == iv);
    out
}

} // verus!
