//! A stable sort by keys that compare like words in a dictionary.

use vstd::prelude::*;

verus! {

/// An item beside the key that it is sorted by.
pub struct Keyed<T> {
    pub key: Vec<u16>,
    pub item: T,
}

/// Dictionary order: the first difference decides, and a key stands before
/// its own continuations.
pub open spec fn key_lt(a: Seq<u16>, b: Seq<u16>) -> bool
    decreases a.len(),
{
    if b.len() == 0 {
        false
    } else if a.len() == 0 {
        true
    } else if a[0] != b[0] {
        a[0] < b[0]
    } else {
        key_lt(a.drop_first(), b.drop_first())
    }
}

/// No key stands behind a greater one.
pub open spec fn in_order<T>(s: Seq<Keyed<T>>) -> bool {
    forall|i: int, j: int|
        0 <= i < j < s.len() ==> !key_lt(#[trigger] s[j].key@, #[trigger] s[i].key@)
}

/// The items with key `k`, in their order.
pub open spec fn with_key<T>(s: Seq<Keyed<T>>, k: Seq<u16>) -> Seq<T>
    decreases s.len(),
{
    if s.len() == 0 {
        Seq::empty()
    } else {
        let before = with_key(s.drop_last(), k);
        if s.last().key@ == k {
            before.push(s.last().item)
        } else {
            before
        }
    }
}

/// The same items under the same keys, those with equal keys in the same order.
pub open spec fn same_by_key<T>(a: Seq<Keyed<T>>, b: Seq<Keyed<T>>) -> bool {
    forall|k: Seq<u16>| #[trigger] with_key(a, k) == with_key(b, k)
}

pub proof fn lemma_key_irreflexive(a: Seq<u16>)
    ensures
        !key_lt(a, a),
    decreases a.len(),
{
    if a.len() > 0 {
        lemma_key_irreflexive(a.drop_first());
    }
}

pub proof fn lemma_key_transitive(a: Seq<u16>, b: Seq<u16>, c: Seq<u16>)
    requires
        key_lt(a, b),
        key_lt(b, c),
    ensures
        key_lt(a, c),
    decreases a.len(),
{
    if a.len() > 0 && a[0] == b[0] && b[0] == c[0] {
        lemma_key_transitive(a.drop_first(), b.drop_first(), c.drop_first());
    }
}

pub proof fn lemma_key_total(a: Seq<u16>, b: Seq<u16>)
    ensures
        a == b || key_lt(a, b) || key_lt(b, a),
    decreases a.len(),
{
    if a.len() > 0 && b.len() > 0 && a[0] == b[0] {
        lemma_key_total(a.drop_first(), b.drop_first());
        if a.drop_first() == b.drop_first() {
            assert(a =~= seq![a[0]] + a.drop_first());
            assert(b =~= seq![b[0]] + b.drop_first());
        }
    } else if a.len() == 0 && b.len() == 0 {
        assert(a =~= b);
    }
}

/// What is not less than something not less than `a` is not less than `a`.
proof fn lemma_key_chain(a: Seq<u16>, b: Seq<u16>, c: Seq<u16>)
    requires
        !key_lt(b, a),
        !key_lt(c, b),
    ensures
        !key_lt(c, a),
{
    lemma_key_total(a, b);
    lemma_key_total(b, c);
    lemma_key_irreflexive(a);
    if key_lt(c, a) {
        if a != b && b != c {
            lemma_key_transitive(a, b, c);
            lemma_key_transitive(a, c, a);
        }
    }
}

/// `a < b` and `b <= c` give `a < c`.
proof fn lemma_key_before(a: Seq<u16>, b: Seq<u16>, c: Seq<u16>)
    requires
        key_lt(a, b),
        !key_lt(c, b),
    ensures
        key_lt(a, c),
{
    lemma_key_total(b, c);
    if b != c {
        lemma_key_transitive(a, b, c);
    }
}

proof fn lemma_with_key_add<T>(a: Seq<Keyed<T>>, b: Seq<Keyed<T>>, k: Seq<u16>)
    ensures
        with_key(a + b, k) == with_key(a, k) + with_key(b, k),
    decreases b.len(),
{
    if b.len() == 0 {
        assert(a + b =~= a);
        assert(with_key(a, k) + with_key(b, k) =~= with_key(a, k));
    } else {
        assert((a + b).drop_last() =~= a + b.drop_last());
        lemma_with_key_add(a, b.drop_last(), k);
        assert(with_key(a + b, k) =~= with_key(a, k) + with_key(b, k));
    }
}

/// No key of an ordered list is greater than the last.
proof fn lemma_beyond_last<T>(s: Seq<Keyed<T>>, k: Seq<u16>)
    requires
        in_order(s),
        s.len() > 0 ==> key_lt(s.last().key@, k),
    ensures
        with_key(s, k) == Seq::<T>::empty(),
    decreases s.len(),
{
    if s.len() > 0 {
        lemma_key_irreflexive(k);
        if s.len() > 1 {
            lemma_key_total(s[s.len() - 2].key@, s.last().key@);
            if s[s.len() - 2].key@ != s.last().key@ {
                lemma_key_transitive(s[s.len() - 2].key@, s.last().key@, k);
            }
        }
        lemma_beyond_last(s.drop_last(), k);
    }
}

/// Whether key `a` stands before key `b`.
pub fn key_less(a: &Vec<u16>, b: &Vec<u16>) -> (r: bool)
    ensures
        r == key_lt(a@, b@),
{
    let mut i: usize = 0;
    assert(a@.skip(0) =~= a@ && b@.skip(0) =~= b@);
    while i < a.len() && i < b.len()
        invariant
            i <= a@.len(),
            i <= b@.len(),
            key_lt(a@, b@) == key_lt(a@.skip(i as int), b@.skip(i as int)),
        decreases a@.len() - i,
    {
        if a[i] != b[i] {
            return a[i] < b[i];
        }
        assert(a@.skip(i as int).drop_first() =~= a@.skip(i + 1));
        assert(b@.skip(i as int).drop_first() =~= b@.skip(i + 1));
        i = i + 1;
    }
    i < b.len()
}

/// `s` from its end to its start.
pub fn reversed<T>(s: Vec<T>) -> (r: Vec<T>)
    ensures
        r@ == s@.reverse(),
{
    let ghost all = s@;
    let mut rest = s;
    let mut r: Vec<T> = Vec::new();
    while rest.len() > 0
        invariant
            rest@.len() + r@.len() == all.len(),
            rest@ == all.take(rest@.len() as int),
            r@ == all.skip(rest@.len() as int).reverse(),
        decreases rest@.len(),
    {
        let ghost n = rest@.len();
        let x = rest.pop().unwrap();
        r.push(x);
        assert(rest@ =~= all.take(n - 1));
        assert(r@ =~= all.skip(n - 1).reverse());
    }
    assert(all.skip(0) =~= all);
    r
}

/// Merges two ordered lists; of equal keys those of `a` come first.
fn merge<T>(a: Vec<Keyed<T>>, b: Vec<Keyed<T>>) -> (r: Vec<Keyed<T>>)
    requires
        in_order(a@),
        in_order(b@),
    ensures
        in_order(r@),
        same_by_key(r@, a@ + b@),
{
    let ghost a0 = a@;
    let ghost b0 = b@;
    let mut a = a;
    let mut b = b;
    let mut out: Vec<Keyed<T>> = Vec::new();
    proof {
        assert forall|k: Seq<u16>| #[trigger]
            with_key(a0 + b0, k) == with_key(a@, k) + with_key(b@, k) + with_key(
                out@.reverse(),
                k,
            ) by {
            lemma_with_key_add(a0, b0, k);
            assert(with_key(out@.reverse(), k) =~= Seq::<T>::empty());
            assert(with_key(a@, k) + with_key(b@, k) + Seq::<T>::empty() =~= with_key(a@, k)
                + with_key(b@, k));
        }
    }
    while a.len() > 0 || b.len() > 0
        invariant
            in_order(a@),
            in_order(b@),
            in_order(out@.reverse()),
            a@.len() > 0 && out@.len() > 0 ==> !key_lt(out@.last().key@, a@.last().key@),
            b@.len() > 0 && out@.len() > 0 ==> !key_lt(out@.last().key@, b@.last().key@),
            forall|k: Seq<u16>| #[trigger]
                with_key(a0 + b0, k) == with_key(a@, k) + with_key(b@, k) + with_key(
                    out@.reverse(),
                    k,
                ),
        decreases a@.len() + b@.len(),
    {
        let ghost a1 = a@;
        let ghost b1 = b@;
        let ghost out1 = out@;
        let from_a = if b.len() == 0 {
            true
        } else if a.len() == 0 {
            false
        } else {
            key_less(&b[b.len() - 1].key, &a[a.len() - 1].key)
        };
        let x = if from_a {
            a.pop().unwrap()
        } else {
            b.pop().unwrap()
        };
        out.push(x);
        proof {
            let ghost rev = out@.reverse();
            assert(rev =~= seq![x] + out1.reverse());
            assert forall|i: int, j: int| 0 <= i < j < rev.len() implies !key_lt(
                #[trigger] rev[j].key@,
                #[trigger] rev[i].key@,
            ) by {
                let old_rev = out1.reverse();
                assert(rev[j] == old_rev[j - 1]);
                if i > 0 {
                    assert(rev[i] == old_rev[i - 1]);
                } else {
                    assert(old_rev[0] == out1.last());
                    if j > 1 {
                        lemma_key_chain(x.key@, old_rev[0].key@, old_rev[j - 1].key@);
                    }
                }
            }
            if from_a {
                lemma_key_irreflexive(x.key@);
                if b1.len() > 0 {
                    lemma_key_before(b1.last().key@, x.key@, x.key@);
                    if key_lt(x.key@, b1.last().key@) {
                        lemma_key_transitive(x.key@, b1.last().key@, x.key@);
                    }
                }
            }
            assert forall|k: Seq<u16>| #[trigger]
                with_key(a0 + b0, k) == with_key(a@, k) + with_key(b@, k) + with_key(rev, k) by {
                lemma_with_key_add(seq![x], out1.reverse(), k);
                assert(seq![x].drop_last() =~= Seq::<Keyed<T>>::empty());
                assert(with_key(seq![x].drop_last(), k) =~= Seq::<T>::empty());
                let one = with_key(seq![x], k);
                assert(one =~= if x.key@ == k {
                    seq![x.item]
                } else {
                    Seq::empty()
                });
                if from_a {
                    assert(a1.drop_last() =~= a@);
                    assert(with_key(a1, k) =~= with_key(a@, k) + one);
                    if x.key@ == k {
                        lemma_beyond_last(b@, k);
                    }
                } else {
                    assert(b1.drop_last() =~= b@);
                    assert(with_key(b1, k) =~= with_key(b@, k) + one);
                }
                assert(with_key(a1, k) + with_key(b1, k) + with_key(out1.reverse(), k) =~= with_key(
                    a@,
                    k,
                ) + with_key(b@, k) + (one + with_key(out1.reverse(), k)));
            }
        }
    }
    proof {
        assert forall|k: Seq<u16>| #[trigger]
            with_key(out@.reverse(), k) == with_key(a0 + b0, k) by {
            assert(with_key(a@, k) =~= Seq::<T>::empty());
            assert(with_key(b@, k) =~= Seq::<T>::empty());
            assert(Seq::<T>::empty() + Seq::<T>::empty() + with_key(out@.reverse(), k) =~= with_key(
                out@.reverse(),
                k,
            ));
        }
    }
    reversed(out)
}

/// Sorts by key; items with equal keys keep their order.
pub fn sort_by_key<T>(v: Vec<Keyed<T>>) -> (r: Vec<Keyed<T>>)
    ensures
        in_order(r@),
        same_by_key(r@, v@),
    decreases v@.len(),
{
    let ghost all = v@;
    if v.len() <= 1 {
        return v;
    }
    let mut v = v;
    let mid: usize = v.len() / 2;
    let back = v.split_off(mid);
    let ghost front0 = v@;
    let ghost back0 = back@;
    assert(all =~= front0 + back0);
    let a = sort_by_key(v);
    let b = sort_by_key(back);
    let r = merge(a, b);
    proof {
        assert forall|k: Seq<u16>| #[trigger] with_key(r@, k) == with_key(all, k) by {
            lemma_with_key_add(a@, b@, k);
            lemma_with_key_add(front0, back0, k);
            assert(with_key(a@, k) == with_key(front0, k));
            assert(with_key(b@, k) == with_key(back0, k));
            assert(with_key(r@, k) == with_key(a@ + b@, k));
        }
    }
    r
}

/// The items of `s` that have key `k`, in their order.
pub open spec fn having_key<T>(s: Seq<T>, key: spec_fn(T) -> Seq<u16>, k: Seq<u16>) -> Seq<T> {
    s.filter(|x: T| key(x) == k)
}

/// Whether `output` holds the items of `input` in the order of their keys,
/// those with equal keys as they stood.
pub open spec fn sorted_from<T>(
    input: Seq<T>,
    output: Seq<T>,
    key: spec_fn(T) -> Seq<u16>,
) -> bool {
    &&& forall|i: int, j: int|
        0 <= i < j < output.len() ==> !key_lt(key(#[trigger] output[j]), key(#[trigger] output[i]))
    &&& forall|k: Seq<u16>| #[trigger]
        having_key(output, key, k) == having_key(input, key, k)
}

/// The items alone.
pub open spec fn items_of<T>(s: Seq<Keyed<T>>) -> Seq<T> {
    s.map_values(|x: Keyed<T>| x.item)
}

pub proof fn lemma_items_with_key<T>(
    s: Seq<Keyed<T>>,
    key: spec_fn(T) -> Seq<u16>,
    k: Seq<u16>,
)
    requires
        forall|i: int| 0 <= i < s.len() ==> (#[trigger] s[i]).key@ == key(s[i].item),
    ensures
        with_key(s, k) == having_key(items_of(s), key, k),
    decreases s.len(),
{
    reveal(Seq::filter);
    if s.len() > 0 {
        lemma_items_with_key(s.drop_last(), key, k);
        assert(items_of(s).drop_last() =~= items_of(s.drop_last()));
        assert(s.last().key@ == key(s.last().item));
    }
}

proof fn lemma_with_key_holds<T>(s: Seq<Keyed<T>>, i: int)
    requires
        0 <= i < s.len(),
    ensures
        with_key(s, s[i].key@).contains(s[i].item),
    decreases s.len(),
{
    let k = s[i].key@;
    let before = with_key(s.drop_last(), k);
    if i == s.len() - 1 {
        assert(with_key(s, k)[before.len() as int] == s[i].item);
    } else {
        lemma_with_key_holds(s.drop_last(), i);
        let j = choose|j: int| 0 <= j < before.len() && before[j] == s[i].item;
        assert(with_key(s, k)[j] == s[i].item);
    }
}

proof fn lemma_with_key_from<T>(s: Seq<Keyed<T>>, k: Seq<u16>, x: T) -> (i: int)
    requires
        with_key(s, k).contains(x),
    ensures
        0 <= i < s.len(),
        s[i].key@ == k,
        s[i].item == x,
    decreases s.len(),
{
    let j = choose|j: int| 0 <= j < with_key(s, k).len() && with_key(s, k)[j] == x;
    let before = with_key(s.drop_last(), k);
    if j < before.len() {
        assert(before[j] == x);
        lemma_with_key_from(s.drop_last(), k, x)
    } else {
        s.len() - 1
    }
}

/// Keys that belong to their items still do after sorting.
pub proof fn lemma_keys_kept<T>(a: Seq<Keyed<T>>, b: Seq<Keyed<T>>, key: spec_fn(T) -> Seq<u16>)
    requires
        same_by_key(b, a),
        forall|i: int| 0 <= i < a.len() ==> (#[trigger] a[i]).key@ == key(a[i].item),
    ensures
        forall|i: int| 0 <= i < b.len() ==> (#[trigger] b[i]).key@ == key(b[i].item),
{
    assert forall|i: int| 0 <= i < b.len() implies (#[trigger] b[i]).key@ == key(b[i].item) by {
        lemma_with_key_holds(b, i);
        assert(with_key(b, b[i].key@) == with_key(a, b[i].key@));
        let j = lemma_with_key_from(a, b[i].key@, b[i].item);
    }
}

/// Sorting neither drops nor adds items.
pub proof fn lemma_same_items<T>(a: Seq<Keyed<T>>, b: Seq<Keyed<T>>, x: T)
    requires
        same_by_key(a, b),
    ensures
        items_of(a).contains(x) <==> items_of(b).contains(x),
{
    if items_of(a).contains(x) {
        let i = choose|i: int| 0 <= i < a.len() && items_of(a)[i] == x;
        lemma_with_key_holds(a, i);
        assert(with_key(a, a[i].key@) == with_key(b, a[i].key@));
        let j = lemma_with_key_from(b, a[i].key@, x);
        assert(items_of(b)[j] == x);
    }
    if items_of(b).contains(x) {
        let i = choose|i: int| 0 <= i < b.len() && items_of(b)[i] == x;
        lemma_with_key_holds(b, i);
        assert(with_key(a, b[i].key@) == with_key(b, b[i].key@));
        let j = lemma_with_key_from(a, b[i].key@, x);
        assert(items_of(a)[j] == x);
    }
}

/// The items alone, in their order.
pub fn unkeyed<T>(v: Vec<Keyed<T>>) -> (r: Vec<T>)
    ensures
        r@ == items_of(v@),
{
    let ghost all = v@;
    let mut rest = v;
    let mut back: Vec<T> = Vec::new();
    while rest.len() > 0
        invariant
            rest@.len() + back@.len() == all.len(),
            rest@ == all.take(rest@.len() as int),
            back@ == items_of(all.skip(rest@.len() as int)).reverse(),
        decreases rest@.len(),
    {
        let ghost n = rest@.len();
        let x = rest.pop().unwrap();
        back.push(x.item);
        assert(rest@ =~= all.take(n - 1));
        assert(back@ =~= items_of(all.skip(n - 1)).reverse());
    }
    assert(all.skip(0) =~= all);
    let r = reversed(back);
    assert(r@ =~= items_of(all));
    r
}

proof fn lemma_filter_last<T>(s: Seq<T>, key: spec_fn(T) -> Seq<u16>, k: Seq<u16>)
    requires
        s.len() > 0,
    ensures
        having_key(s, key, k) == if key(s.last()) == k {
            having_key(s.drop_last(), key, k).push(s.last())
        } else {
            having_key(s.drop_last(), key, k)
        },
{
    reveal(Seq::filter);
}

/// A key that some item of `s` has.
proof fn lemma_key_occurs<T>(s: Seq<T>, key: spec_fn(T) -> Seq<u16>, k: Seq<u16>) -> (i: int)
    requires
        having_key(s, key, k).len() > 0,
    ensures
        0 <= i < s.len(),
        key(s[i]) == k,
    decreases s.len(),
{
    reveal(Seq::filter);
    lemma_filter_last(s, key, k);
    if key(s.last()) == k {
        s.len() - 1
    } else {
        lemma_key_occurs(s.drop_last(), key, k)
    }
}

/// Keys, items and the order of equals determine a sorted list.
pub proof fn law_sorted_list_unique<T>(a: Seq<T>, b: Seq<T>, key: spec_fn(T) -> Seq<u16>)
    requires
        sorted_from(a, b, key),
        sorted_from(b, a, key),
    ensures
        a == b,
    decreases a.len(),
{
    if a.len() == 0 {
        if b.len() > 0 {
            let k = key(b.last());
            lemma_filter_last(b, key, k);
            let i = lemma_key_occurs(a, key, k);
        }
        assert(a =~= b);
    } else {
        let k = key(a.last());
        lemma_filter_last(a, key, k);
        assert(having_key(a, key, k) == having_key(b, key, k));
        let i = lemma_key_occurs(b, key, k);
        let k2 = key(b.last());
        lemma_filter_last(b, key, k2);
        assert(having_key(b, key, k2) == having_key(a, key, k2));
        let j = lemma_key_occurs(a, key, k2);
        lemma_key_total(k, k2);
        if k != k2 {
            assert(key(b[i]) == k && key(b[b.len() - 1]) == k2);
            assert(key(a[j]) == k2 && key(a[a.len() - 1]) == k);
        }
        assert(a.last() == having_key(a, key, k).last());
        assert(b.last() == having_key(b, key, k).last());
        let (a1, b1) = (a.drop_last(), b.drop_last());
        assert forall|q: Seq<u16>| #[trigger] having_key(a1, key, q) == having_key(b1, key, q) by {
            lemma_filter_last(a, key, q);
            lemma_filter_last(b, key, q);
            assert(having_key(a, key, q) == having_key(b, key, q));
            if q == k {
                assert(having_key(a1, key, q) =~= having_key(a, key, q).drop_last());
                assert(having_key(b1, key, q) =~= having_key(b, key, q).drop_last());
            }
        }
        law_sorted_list_unique(a1, b1, key);
        assert(a =~= a1.push(a.last()));
        assert(b =~= b1.push(b.last()));
    }
}

/// Whether no two items share a key.
pub open spec fn keys_distinct<T>(s: Seq<T>, key: spec_fn(T) -> Seq<u16>) -> bool {
    forall|i: int, j: int|
        0 <= i < j < s.len() ==> key(#[trigger] s[i]) != key(#[trigger] s[j])
}

/// With distinct keys, at most one item has a key.
proof fn lemma_sole_item<T>(s: Seq<T>, key: spec_fn(T) -> Seq<u16>, i: int)
    requires
        keys_distinct(s, key),
        0 <= i < s.len(),
    ensures
        having_key(s, key, key(s[i])) == seq![s[i]],
    decreases s.len(),
{
    let k = key(s[i]);
    lemma_filter_last(s, key, k);
    if i == s.len() - 1 {
        if having_key(s.drop_last(), key, k).len() > 0 {
            let j = lemma_key_occurs(s.drop_last(), key, k);
            assert(key(s[j]) != key(s[i]));
        }
        assert(having_key(s, key, k) =~= seq![s[i]]);
    } else {
        assert(key(s[i]) != key(s[s.len() - 1]));
        lemma_sole_item(s.drop_last(), key, i);
    }
}

/// Sorting does not depend on the order in which the items came: where no two
/// share a key, any two listings of the same items sort to the same list.
pub proof fn law_sort_ignores_arrival_order<T>(
    a: Seq<T>,
    b: Seq<T>,
    sorted_a: Seq<T>,
    sorted_b: Seq<T>,
    key: spec_fn(T) -> Seq<u16>,
)
    requires
        keys_distinct(a, key),
        keys_distinct(b, key),
        forall|x: T| a.contains(x) <==> b.contains(x),
        sorted_from(a, sorted_a, key),
        sorted_from(b, sorted_b, key),
    ensures
        sorted_a == sorted_b,
{
    assert forall|k: Seq<u16>| #[trigger] having_key(a, key, k) == having_key(b, key, k) by {
        if having_key(a, key, k).len() > 0 {
            let i = lemma_key_occurs(a, key, k);
            assert(a.contains(a[i]));
            let j = choose|j: int| 0 <= j < b.len() && b[j] == a[i];
            lemma_sole_item(a, key, i);
            lemma_sole_item(b, key, j);
        } else if having_key(b, key, k).len() > 0 {
            let j = lemma_key_occurs(b, key, k);
            assert(b.contains(b[j]));
            let i = choose|i: int| 0 <= i < a.len() && a[i] == b[j];
            lemma_sole_item(a, key, i);
        } else {
            assert(having_key(a, key, k) =~= having_key(b, key, k));
        }
    }
    assert forall|k: Seq<u16>| #[trigger]
        having_key(sorted_a, key, k) == having_key(sorted_b, key, k) by {
        assert(having_key(sorted_a, key, k) == having_key(a, key, k));
        assert(having_key(sorted_b, key, k) == having_key(b, key, k));
    }
    law_sorted_list_unique(sorted_a, sorted_b, key);
}

/// Keys are compared by the first letter in which they differ, and a front of
/// a key comes before the key. `k` is where the two part.
pub proof fn law_keys_compare_where_they_part(a: Seq<u16>, b: Seq<u16>, k: int)
    requires
        0 <= k <= a.len(),
        k <= b.len(),
        forall|i: int| 0 <= i < k ==> #[trigger] a[i] == b[i],
        k == a.len() || k == b.len() || a[k] != b[k],
    ensures
        key_lt(a, b) <==> k < b.len() && (k == a.len() || a[k] < b[k]),
    decreases k,
{
    if k > 0 {
        assert(a[0] == b[0]);
        let (c, d) = (a.drop_first(), b.drop_first());
        assert forall|i: int| 0 <= i < k - 1 implies #[trigger] c[i] == d[i] by {
            assert(a[i + 1] == b[i + 1]);
        }
        law_keys_compare_where_they_part(c, d, k - 1);
    }
}

proof fn lemma_count_by_key<T>(s: Seq<T>, key: spec_fn(T) -> Seq<u16>, x: T)
    ensures
        s.to_multiset().count(x) == s.filter(|y: T| key(y) == key(x)).to_multiset().count(x),
    decreases s.len(),
{
    broadcast use vstd::seq_lib::group_to_multiset_ensures;

    reveal(Seq::filter);
    if s.len() > 0 {
        let d = s.drop_last();
        lemma_count_by_key(d, key, x);
        assert(s =~= d.push(s.last()));
        assert(s.to_multiset() =~= d.to_multiset().insert(s.last()));
    }
}

/// A sorted list holds what the list held before, as often as before; nothing
/// in it stands behind something with a higher key; and things with the same
/// key stay in the order they were in.
pub proof fn law_sorted_list_keeps_everything<T>(
    input: Seq<T>,
    output: Seq<T>,
    key: spec_fn(T) -> Seq<u16>,
    k: Seq<u16>,
)
    requires
        sorted_from(input, output, key),
    ensures
        output.to_multiset() == input.to_multiset(),
        output.len() == input.len(),
        forall|i: int, j: int|
            0 <= i < j < output.len() ==> !key_lt(
                key(#[trigger] output[j]),
                key(#[trigger] output[i]),
            ),
        having_key(output, key, k) == having_key(input, key, k),
{
    broadcast use vstd::seq_lib::group_to_multiset_ensures;

    assert forall|x: T| output.to_multiset().count(x) == input.to_multiset().count(x) by {
        lemma_count_by_key(output, key, x);
        lemma_count_by_key(input, key, x);
        assert(having_key(output, key, key(x)) == having_key(input, key, key(x)));
    }
    assert(output.to_multiset() =~= input.to_multiset());
    assert(output.to_multiset().len() == output.len());
    assert(input.to_multiset().len() == input.len());
}

/// What a list holds of a key is what it held before, and the thing put behind
/// it where that has the key.
pub proof fn law_having_a_key<T>(s: Seq<T>, x: T, key: spec_fn(T) -> Seq<u16>, k: Seq<u16>)
    ensures
        having_key(Seq::<T>::empty(), key, k).len() == 0,
        key(x) == k ==> having_key(s.push(x), key, k) == having_key(s, key, k).push(x),
        key(x) != k ==> having_key(s.push(x), key, k) == having_key(s, key, k),
{
    reveal(Seq::filter);
    assert(s.push(x).drop_last() =~= s);
}

/// What a list holds under one key, in the order of the list.
pub proof fn law_items_under_a_key<T>(s: Seq<Keyed<T>>, k: Seq<u16>)
    ensures
        with_key(s, k) == s.filter(|x: Keyed<T>| x.key@ == k).map_values(|x: Keyed<T>| x.item),
        items_of(s) == s.map_values(|x: Keyed<T>| x.item),
    decreases s.len(),
{
    reveal(Seq::filter);
    if s.len() > 0 {
        law_items_under_a_key(s.drop_last(), k);
        let f = |x: Keyed<T>| x.key@ == k;
        let g = |x: Keyed<T>| x.item;
        let d = s.drop_last().filter(f);
        assert(d.push(s.last()).map_values(g) =~= d.map_values(g).push(s.last().item));
    }
    assert(with_key(s, k) =~= s.filter(|x: Keyed<T>| x.key@ == k).map_values(
        |x: Keyed<T>| x.item,
    ));
}

/// Sorting by key: no key stands behind a higher one, and what a list holds
/// under each key is what it held before.
pub proof fn law_sorting_by_key<T>(v: Seq<Keyed<T>>, r: Seq<Keyed<T>>)
    requires
        in_order(r),
        same_by_key(r, v),
    ensures
        forall|i: int, j: int|
            0 <= i < j < r.len() ==> !key_lt(#[trigger] r[j].key@, #[trigger] r[i].key@),
        forall|k: Seq<u16>| #[trigger] with_key(r, k) == with_key(v, k),
{
}

} // verus!
