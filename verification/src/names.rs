//! Names in the order of their bytes.

use vstd::prelude::*;
#[allow(unused_imports)]
use vstd::utf8::encode_utf8;

use crate::sort::{sort_by_key, Keyed};
#[allow(unused_imports)]
use crate::sort::{
    in_order, items_of, key_lt, law_keys_compare_where_they_part, lemma_key_irreflexive,
    lemma_key_total, lemma_key_transitive, lemma_keys_kept, lemma_same_items,
};
#[allow(unused_imports)]
use crate::text::string_views;

verus! {

/// A name as a key: names compare byte by byte.
pub open spec fn name_key_of(name: Seq<char>) -> Seq<u16> {
    encode_utf8(name).map_values(|b: u8| b as u16)
}

/// Names with the same key are the same.
pub proof fn lemma_name_key_injective(a: Seq<char>, b: Seq<char>)
    requires
        name_key_of(a) == name_key_of(b),
    ensures
        a == b,
{
    let (x, y) = (encode_utf8(a), encode_utf8(b));
    assert(x =~= y) by {
        assert(x.len() == name_key_of(a).len() && y.len() == name_key_of(b).len());
        assert forall|i: int| 0 <= i < x.len() implies x[i] == y[i] by {
            assert(name_key_of(a)[i] == x[i] as u16);
            assert(name_key_of(b)[i] == y[i] as u16);
        }
    }
    vstd::utf8::encode_utf8_decode_utf8(a);
    vstd::utf8::encode_utf8_decode_utf8(b);
}

/// The key of a name.
pub fn name_key(name: &str) -> (key: Vec<u16>)
    ensures
        key@ == name_key_of(name@),
{
    let b = name.as_bytes();
    let mut key: Vec<u16> = Vec::new();
    let mut i: usize = 0;
    while i < b.len()
        invariant
            i <= b@.len(),
            key@ == b@.take(i as int).map_values(|x: u8| x as u16),
        decreases b@.len() - i,
    {
        key.push(b[i] as u16);
        i = i + 1;
        assert(key@ =~= b@.take(i as int).map_values(|x: u8| x as u16));
    }
    assert(b@.take(b@.len() as int) =~= b@);
    key
}

/// Whether names stand in strictly rising order.
pub open spec fn rising(names: Seq<String>) -> bool {
    forall|i: int, j: int|
        0 <= i < j < names.len() ==> key_lt(
            name_key_of((#[trigger] names[i])@),
            name_key_of((#[trigger] names[j])@),
        )
}

/// The distinct names of a list, in order.
pub fn sorted_names(names: &Vec<String>) -> (r: Vec<String>)
    ensures
        rising(r@),
        forall|t: Seq<char>| #[trigger]
            string_views(r@).contains(t) <==> string_views(names@).contains(t),
{
    let mut keyed: Vec<Keyed<String>> = Vec::new();
    let mut i: usize = 0;
    while i < names.len()
        invariant
            i <= names@.len(),
            keyed@.len() == i,
            forall|k: int|
                0 <= k < i ==> (#[trigger] keyed@[k]).item@ == names@[k]@ && keyed@[k].key@
                    == name_key_of(keyed@[k].item@),
        decreases names@.len() - i,
    {
        let name = names[i].clone();
        keyed.push(Keyed { key: name_key(name.as_str()), item: name });
        i = i + 1;
    }
    let ghost all = keyed@;
    let sorted = sort_by_key(keyed);
    proof {
        lemma_keys_kept(all, sorted@, |s: String| name_key_of(s@));
    }
    let r = without_repeats(&sorted);
    proof {
        let views = string_views(names@);
        assert forall|t: Seq<char>| #[trigger]
            string_views(r@).contains(t) <==> views.contains(t) by {
            if views.contains(t) {
                let k = choose|k: int| 0 <= k < views.len() && views[k] == t;
                let x = all[k].item;
                assert(items_of(all)[k] == x);
                lemma_same_items(sorted@, all, x);
                let j = choose|j: int| 0 <= j < sorted@.len() && items_of(sorted@)[j] == x;
                assert(sorted@[j].item@ == t);
            }
            if string_views(r@).contains(t) {
                let j = choose|j: int| 0 <= j < sorted@.len() && (#[trigger] sorted@[j]).item@ == t;
                let x = sorted@[j].item;
                assert(items_of(sorted@)[j] == x);
                lemma_same_items(sorted@, all, x);
                let k = choose|k: int| 0 <= k < all.len() && items_of(all)[k] == x;
                assert(all[k].item@ == t);
                assert(views[k] == t);
            }
        }
    }
    r
}

/// The names of an ordered list, each once.
fn without_repeats(sorted: &Vec<Keyed<String>>) -> (r: Vec<String>)
    requires
        in_order(sorted@),
        forall|i: int|
            0 <= i < sorted@.len() ==> (#[trigger] sorted@[i]).key@ == name_key_of(
                sorted@[i].item@,
            ),
    ensures
        rising(r@),
        forall|t: Seq<char>| #[trigger]
            string_views(r@).contains(t) <==> exists|j: int|
                0 <= j < sorted@.len() && (#[trigger] sorted@[j]).item@ == t,
{
    let mut r: Vec<String> = Vec::new();
    let mut i: usize = 0;
    assert(string_views(r@).len() == 0);
    while i < sorted.len()
        invariant
            i <= sorted@.len(),
            in_order(sorted@),
            forall|k: int|
                0 <= k < sorted@.len() ==> (#[trigger] sorted@[k]).key@ == name_key_of(
                    sorted@[k].item@,
                ),
            rising(r@),
            i > 0 ==> r@.len() > 0 && r@.last()@ == sorted@[i - 1].item@,
            i == 0 ==> r@.len() == 0,
            forall|t: Seq<char>| #[trigger]
                string_views(r@).contains(t) <==> exists|j: int|
                    0 <= j < i && (#[trigger] sorted@[j]).item@ == t,
        decreases sorted@.len() - i,
    {
        let name = sorted[i].item.clone();
        let ghost before = r@;
        let repeated = r.len() > 0 && r[r.len() - 1] == name;
        if !repeated {
            proof {
                if before.len() > 0 {
                    let a = name_key_of(before.last()@);
                    let b = name_key_of(name@);
                    assert(sorted@[i - 1].key@ == a && sorted@[i as int].key@ == b);
                    lemma_key_total(a, b);
                    if a == b {
                        lemma_name_key_injective(before.last()@, name@);
                    }
                    assert(key_lt(a, b));
                    assert forall|k: int| 0 <= k < before.len() implies key_lt(
                        name_key_of((#[trigger] before[k])@),
                        b,
                    ) by {
                        if k < before.len() - 1 {
                            lemma_key_transitive(name_key_of(before[k]@), a, b);
                        }
                    }
                }
            }
            r.push(name);
            assert(string_views(r@) =~= string_views(before).push(name@));
        }
        proof {
            let (old_views, new_views) = (string_views(before), string_views(r@));
            assert forall|t: Seq<char>| #[trigger]
                new_views.contains(t) <==> exists|j: int|
                    0 <= j < i + 1 && (#[trigger] sorted@[j]).item@ == t by {
                if new_views.contains(t) {
                    if old_views.contains(t) {
                        let j = choose|j: int| 0 <= j < i && (#[trigger] sorted@[j]).item@ == t;
                        assert(0 <= j < i + 1 && sorted@[j].item@ == t);
                    } else {
                        let k = choose|k: int| 0 <= k < new_views.len() && new_views[k] == t;
                        if k < old_views.len() {
                            assert(old_views[k] == t);
                        }
                        assert(sorted@[i as int].item@ == t);
                    }
                }
                if exists|j: int| 0 <= j < i + 1 && (#[trigger] sorted@[j]).item@ == t {
                    let j = choose|j: int| 0 <= j < i + 1 && (#[trigger] sorted@[j]).item@ == t;
                    if j < i {
                        assert(old_views.contains(t));
                        let k = choose|k: int| 0 <= k < old_views.len() && old_views[k] == t;
                        assert(new_views[k] == t);
                    } else {
                        assert(new_views[new_views.len() - 1] == name@);
                    }
                }
            }
        }
        i = i + 1;
    }
    r
}

/// Names are compared by the first byte of their UTF-8 in which they differ,
/// and a front of a name comes before the name. `k` is where the two part.
pub proof fn law_names_compare_where_they_part(a: Seq<char>, b: Seq<char>, k: int)
    requires
        0 <= k <= encode_utf8(a).len(),
        k <= encode_utf8(b).len(),
        forall|i: int| 0 <= i < k ==> #[trigger] encode_utf8(a)[i] == encode_utf8(b)[i],
        k == encode_utf8(a).len() || k == encode_utf8(b).len() || encode_utf8(a)[k]
            != encode_utf8(b)[k],
    ensures
        key_lt(name_key_of(a), name_key_of(b)) <==> k < encode_utf8(b).len() && (k == encode_utf8(
            a,
        ).len() || encode_utf8(a)[k] < encode_utf8(b)[k]),
{
    let (x, y) = (name_key_of(a), name_key_of(b));
    assert forall|i: int| 0 <= i < k implies #[trigger] x[i] == y[i] by {
        assert(encode_utf8(a)[i] == encode_utf8(b)[i]);
    }
    law_keys_compare_where_they_part(x, y, k);
}

/// Sorted names go up strictly, so that none stands there twice.
pub proof fn law_sorted_names_go_up(names: Seq<String>, i: int, j: int)
    requires
        rising(names),
        0 <= i < j < names.len(),
    ensures
        key_lt(name_key_of(names[i]@), name_key_of(names[j]@)),
        names[i]@ != names[j]@,
{
    lemma_key_irreflexive(name_key_of(names[i]@));
}

} // verus!
