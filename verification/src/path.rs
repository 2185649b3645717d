//! Paths as the bytes that the file system has for them.

use vstd::prelude::*;

#[allow(unused_imports)]
use crate::sort::key_lt;

verus! {

/// What separates the components of a path.
pub const SLASH: u8 = 47;

/// The dot of `.`, `..` and of extensions.
pub const DOT: u8 = 46;

/// The component that stands for the root directory.
pub open spec fn root_component() -> Seq<u8> {
    seq![SLASH]
}

/// The component that stands for the directory itself.
pub open spec fn here() -> Seq<u8> {
    seq![DOT]
}

/// The component that stands for the directory above.
pub open spec fn above() -> Seq<u8> {
    seq![DOT, DOT]
}

/// Position of the first slash, or the length of the path.
pub open spec fn first_slash(p: Seq<u8>) -> nat
    decreases p.len(),
{
    if p.len() == 0 || p[0] == SLASH {
        0
    } else {
        1 + first_slash(p.drop_first())
    }
}

/// Whether the part of a path between two slashes is a component: empty parts
/// are not, and `.` only at the very front.
pub open spec fn counts(piece: Seq<u8>, first: bool) -> bool {
    piece.len() > 0 && (first || piece != here())
}

/// The components of the rest of a path.
pub open spec fn names_in(p: Seq<u8>, first: bool) -> Seq<Seq<u8>>
    decreases p.len(),
{
    let n = first_slash(p);
    let piece = if n < p.len() {
        p.take(n as int)
    } else {
        p
    };
    let rest = if n < p.len() {
        names_in(p.skip(n as int + 1), false)
    } else {
        Seq::empty()
    };
    if counts(piece, first) {
        seq![piece] + rest
    } else {
        rest
    }
}

/// The components of a path, the root first where it is absolute.
pub open spec fn components_of(p: Seq<u8>) -> Seq<Seq<u8>> {
    if p.len() > 0 && p[0] == SLASH {
        seq![root_component()] + names_in(p, true)
    } else {
        names_in(p, true)
    }
}

/// Where the components of the rest of a path stand, from `at` on.
pub open spec fn spans_in(p: Seq<u8>, first: bool, at: int) -> Seq<(int, int)>
    decreases p.len(),
{
    let n = first_slash(p);
    let piece = if n < p.len() {
        p.take(n as int)
    } else {
        p
    };
    let rest = if n < p.len() {
        spans_in(p.skip(n as int + 1), false, at + n + 1)
    } else {
        Seq::empty()
    };
    if counts(piece, first) {
        seq![(at, at + piece.len())] + rest
    } else {
        rest
    }
}

/// Where the components of a path stand: first byte, and the one behind the
/// last.
pub open spec fn spans_of(p: Seq<u8>) -> Seq<(int, int)> {
    if p.len() > 0 && p[0] == SLASH {
        seq![(0int, 1int)] + spans_in(p, true, 0)
    } else {
        spans_in(p, true, 0)
    }
}

/// The bytes of a path from its component `from` to the end of the one before
/// `to`, as they stand.
pub open spec fn stretch(p: Seq<u8>, from: int, to: int) -> Seq<u8> {
    if from < to {
        p.subrange(spans_of(p)[from].0, spans_of(p)[to - 1].1)
    } else {
        Seq::empty()
    }
}

/// Whether a component is the name of something.
pub open spec fn is_name(c: Seq<u8>) -> bool {
    c != root_component() && c != here() && c != above()
}

/// The last component, where it is a name.
pub open spec fn file_name_of(p: Seq<u8>) -> Option<Seq<u8>> {
    let c = components_of(p);
    if c.len() > 0 && is_name(c.last()) {
        Some(c.last())
    } else {
        None
    }
}

/// `name` below `dir`; an absolute `name` stands for itself.
pub open spec fn with_name(dir: Seq<u8>, name: Seq<u8>) -> Seq<u8> {
    if name.len() > 0 && name[0] == SLASH {
        name
    } else if dir.len() == 0 || dir.last() == SLASH {
        dir + name
    } else {
        dir.push(SLASH) + name
    }
}

/// The directory that a path lies in, `.` where the path names none.
pub open spec fn directory_of(p: Seq<u8>) -> Seq<u8> {
    let c = components_of(p);
    if c.len() <= 1 {
        here()
    } else {
        stretch(p, 0, c.len() - 1)
    }
}

/// Whether the first components of `p` are those of `base`.
pub open spec fn lies_below(p: Seq<u8>, base: Seq<u8>) -> bool {
    components_of(base).len() <= components_of(p).len() && components_of(p).take(
        components_of(base).len() as int,
    ) == components_of(base)
}

/// `p` as seen from `base`: what stands behind the components of `base`,
/// without slashes and dots at its ends. `p` itself where it does not lie
/// below.
pub open spec fn relative_path(p: Seq<u8>, base: Seq<u8>) -> Seq<u8> {
    if lies_below(p, base) {
        stretch(p, components_of(base).len() as int, components_of(p).len() as int)
    } else {
        p
    }
}

/// Position of the last dot, or -1.
pub open spec fn last_dot(name: Seq<u8>) -> int
    decreases name.len(),
{
    if name.len() == 0 {
        -1
    } else if name.last() == DOT {
        name.len() - 1
    } else {
        last_dot(name.drop_last())
    }
}

/// What follows the last dot of the file name, unless the name starts with it.
pub open spec fn extension_of(p: Seq<u8>) -> Option<Seq<u8>> {
    match file_name_of(p) {
        None => None,
        Some(name) => if last_dot(name) <= 0 {
            None
        } else {
            Some(name.skip(last_dot(name) + 1))
        },
    }
}

/// Components rank: the root, the directory itself, the one above, names.
pub open spec fn rank(c: Seq<u8>) -> u16 {
    if c == root_component() {
        0
    } else if c == here() {
        1
    } else if c == above() {
        2
    } else {
        3
    }
}

/// A component as a word that ends below all letters.
pub open spec fn component_key(c: Seq<u8>) -> Seq<u16> {
    seq![rank(c)] + c.map_values(|b: u8| (b + 1) as u16) + seq![0u16]
}

/// The key by which paths are sorted: component by component, a directory
/// before what lies in it.
pub open spec fn components_key(c: Seq<Seq<u8>>) -> Seq<u16>
    decreases c.len(),
{
    if c.len() == 0 {
        Seq::empty()
    } else {
        components_key(c.drop_last()) + component_key(c.last())
    }
}

pub open spec fn path_key_of(p: Seq<u8>) -> Seq<u16> {
    components_key(components_of(p))
}

pub open spec fn byte_views(v: Seq<Vec<u8>>) -> Seq<Seq<u8>> {
    v.map_values(|x: Vec<u8>| x@)
}

proof fn lemma_first_slash(p: Seq<u8>, n: nat)
    requires
        n <= p.len(),
        forall|i: int| 0 <= i < n ==> #[trigger] p[i] != SLASH,
        n == p.len() || p[n as int] == SLASH,
    ensures
        first_slash(p) == n,
    decreases n,
{
    if n > 0 {
        lemma_first_slash(p.drop_first(), (n - 1) as nat);
    }
}

pub fn same_bytes(a: &[u8], b: &[u8]) -> (r: bool)
    ensures
        r == (a@ == b@),
{
    if a.len() != b.len() {
        return false;
    }
    let mut i: usize = 0;
    while i < a.len()
        invariant
            i <= a@.len(),
            a@.len() == b@.len(),
            forall|j: int| 0 <= j < i ==> a@[j] == b@[j],
        decreases a@.len() - i,
    {
        if a[i] != b[i] {
            return false;
        }
        i = i + 1;
    }
    assert(a@ =~= b@);
    true
}

/// A copy of the part `from..to`.
pub fn copy_bytes(p: &[u8], from: usize, to: usize) -> (v: Vec<u8>)
    requires
        from <= to <= p@.len(),
    ensures
        v@ == p@.subrange(from as int, to as int),
{
    let mut v: Vec<u8> = Vec::new();
    v.extend_from_slice(&p[from..to]);
    assert(v@ =~= p@.subrange(from as int, to as int));
    v
}

fn is_root(c: &[u8]) -> (r: bool)
    ensures
        r == (c@ == root_component()),
{
    let r = c.len() == 1 && c[0] == SLASH;
    assert(r ==> c@ =~= root_component());
    r
}

fn is_here(c: &[u8]) -> (r: bool)
    ensures
        r == (c@ == here()),
{
    let r = c.len() == 1 && c[0] == DOT;
    assert(r ==> c@ =~= here());
    r
}

fn is_above(c: &[u8]) -> (r: bool)
    ensures
        r == (c@ == above()),
{
    let r = c.len() == 2 && c[0] == DOT && c[1] == DOT;
    assert(r ==> c@ =~= above());
    r
}

/// The spans are those of the components, one behind the other.
proof fn lemma_spans_in(whole: Seq<u8>, p: Seq<u8>, first: bool, at: int)
    requires
        0 <= at <= whole.len(),
        p == whole.skip(at),
    ensures
        spans_in(p, first, at).len() == names_in(p, first).len(),
        forall|i: int|
            0 <= i < names_in(p, first).len() ==> {
                let s = #[trigger] spans_in(p, first, at)[i];
                at <= s.0 < s.1 <= whole.len() && names_in(p, first)[i] == whole.subrange(s.0, s.1)
            },
        forall|i: int, j: int|
            0 <= i < j < names_in(p, first).len() ==> (#[trigger] spans_in(p, first, at)[i]).1 < (
            #[trigger] spans_in(p, first, at)[j]).0,
    decreases p.len(),
{
    let n = first_slash(p) as int;
    lemma_first_slash_bound(p);
    let piece = if n < p.len() {
        p.take(n)
    } else {
        p
    };
    assert(piece =~= whole.subrange(at, at + piece.len()));
    if n < p.len() {
        let q = p.skip(n + 1);
        assert(q =~= whole.skip(at + n + 1));
        lemma_spans_in(whole, q, false, at + n + 1);
        let rest = spans_in(q, false, at + n + 1);
        if counts(piece, first) {
            let all = spans_in(p, first, at);
            assert(all =~= seq![(at, at + piece.len())] + rest);
            assert forall|i: int| 0 <= i < names_in(p, first).len() implies {
                let s = #[trigger] all[i];
                at <= s.0 < s.1 <= whole.len() && names_in(p, first)[i] == whole.subrange(s.0, s.1)
            } by {
                if i > 0 {
                    assert(all[i] == rest[i - 1]);
                    assert(names_in(p, first)[i] == names_in(q, false)[i - 1]);
                }
            }
            assert forall|i: int, j: int| 0 <= i < j < names_in(p, first).len() implies (
            #[trigger] all[i]).1 < (#[trigger] all[j]).0 by {
                assert(all[j] == rest[j - 1]);
                if i > 0 {
                    assert(all[i] == rest[i - 1]);
                }
            }
        }
    }
}

proof fn lemma_first_slash_bound(p: Seq<u8>)
    ensures
        first_slash(p) <= p.len(),
    decreases p.len(),
{
    if p.len() > 0 && p[0] != SLASH {
        lemma_first_slash_bound(p.drop_first());
    }
}

/// Each span holds its component, and the spans follow each other.
proof fn lemma_spans(p: Seq<u8>)
    ensures
        spans_of(p).len() == components_of(p).len(),
        forall|i: int|
            0 <= i < components_of(p).len() ==> {
                let s = #[trigger] spans_of(p)[i];
                0 <= s.0 < s.1 <= p.len() && components_of(p)[i] == p.subrange(s.0, s.1)
            },
        forall|i: int, j: int|
            0 <= i < j < components_of(p).len() ==> (#[trigger] spans_of(p)[i]).1 <= (
            #[trigger] spans_of(p)[j]).0,
{
    assert(p.skip(0) =~= p);
    lemma_spans_in(p, p, true, 0);
    if p.len() > 0 && p[0] == SLASH {
        let names = names_in(p, true);
        let rest = spans_in(p, true, 0);
        let all = spans_of(p);
        assert(first_slash(p) == 0);
        assert(p.take(0) =~= Seq::<u8>::empty());
        lemma_spans_in(p, p.skip(1), false, 1);
        assert(rest == spans_in(p.skip(1), false, 1));
        assert(p.subrange(0, 1) =~= root_component());
        assert forall|i: int| 0 <= i < components_of(p).len() implies {
            let s = #[trigger] all[i];
            0 <= s.0 < s.1 <= p.len() && components_of(p)[i] == p.subrange(s.0, s.1)
        } by {
            if i > 0 {
                assert(all[i] == rest[i - 1]);
                assert(components_of(p)[i] == names[i - 1]);
            }
        }
        assert forall|i: int, j: int| 0 <= i < j < components_of(p).len() implies (
        #[trigger] all[i]).1 <= (#[trigger] all[j]).0 by {
            assert(all[j] == rest[j - 1]);
            if i > 0 {
                assert(all[i] == rest[i - 1]);
            }
        }
    }
}

pub open spec fn span_views(v: Seq<(usize, usize)>) -> Seq<(int, int)> {
    v.map_values(|s: (usize, usize)| (s.0 as int, s.1 as int))
}

/// Where the components of a path stand.
fn spans(p: &[u8]) -> (v: Vec<(usize, usize)>)
    ensures
        span_views(v@) == spans_of(p@),
{
    let len: usize = p.len();
    let mut v: Vec<(usize, usize)> = Vec::new();
    if len > 0 && p[0] == SLASH {
        v.push((0, 1));
    }
    let mut at: usize = 0;
    let mut done = false;
    assert(p@.skip(0) =~= p@);
    assert(span_views(v@) + spans_in(p@, true, 0) =~= spans_of(p@));
    while !done
        invariant
            at <= len,
            len == p@.len(),
            done ==> span_views(v@) == spans_of(p@),
            !done ==> span_views(v@) + spans_in(p@.skip(at as int), at == 0, at as int) == spans_of(
                p@,
            ),
        decreases (if done { 0int } else { 1 + len - at }),
    {
        let ghost rest = p@.skip(at as int);
        let ghost before = span_views(v@);
        let mut n: usize = 0;
        while n < len - at && p[at + n] != SLASH
            invariant
                at + n <= len,
                len == p@.len(),
                forall|i: int| at <= i < at + n ==> #[trigger] p@[i] != SLASH,
            decreases len - at - n,
        {
            n = n + 1;
        }
        proof {
            lemma_first_slash(rest, n as nat);
        }
        let piece = &p[at..at + n];
        assert(piece@ =~= if n < rest.len() {
            rest.take(n as int)
        } else {
            rest
        });
        let ghost tail = if n < rest.len() {
            spans_in(rest.skip(n + 1), false, at + n + 1)
        } else {
            Seq::empty()
        };
        if n > 0 && (at == 0 || !is_here(piece)) {
            v.push((at, at + n));
            assert(span_views(v@) =~= before.push((at as int, at + n)));
            assert(before + (seq![(at as int, at + n)] + tail) =~= span_views(v@) + tail);
        }
        assert(span_views(v@) + tail == spans_of(p@));
        if at + n == len {
            done = true;
            assert(span_views(v@) + Seq::<(int, int)>::empty() =~= span_views(v@));
        } else {
            assert(rest.skip(n + 1) =~= p@.skip(at + n + 1));
            at = at + n + 1;
        }
    }
    v
}

pub fn components(p: &[u8]) -> (v: Vec<Vec<u8>>)
    ensures
        byte_views(v@) == components_of(p@),
{
    let places = spans(p);
    let ghost all = spans_of(p@);
    proof {
        lemma_spans(p@);
    }
    let mut v: Vec<Vec<u8>> = Vec::new();
    let mut i: usize = 0;
    while i < places.len()
        invariant
            i <= places@.len(),
            span_views(places@) == all,
            all == spans_of(p@),
            all.len() == components_of(p@).len(),
            forall|k: int|
                0 <= k < components_of(p@).len() ==> {
                    let s = #[trigger] all[k];
                    0 <= s.0 < s.1 <= p@.len() && components_of(p@)[k] == p@.subrange(s.0, s.1)
                },
            v@.len() == i,
            forall|k: int| 0 <= k < i ==> (#[trigger] v@[k])@ == components_of(p@)[k],
        decreases places@.len() - i,
    {
        assert(all[i as int] == (places@[i as int].0 as int, places@[i as int].1 as int));
        v.push(copy_bytes(p, places[i].0, places[i].1));
        i = i + 1;
    }
    assert(byte_views(v@) =~= components_of(p@));
    v
}

/// The bytes from one component of a path to the end of another.
fn copy_stretch(p: &[u8], from: usize, to: usize) -> (r: Vec<u8>)
    requires
        to <= components_of(p@).len(),
    ensures
        r@ == stretch(p@, from as int, to as int),
{
    if from >= to {
        let r: Vec<u8> = Vec::new();
        assert(r@ =~= Seq::<u8>::empty());
        return r;
    }
    let places = spans(p);
    let ghost all = spans_of(p@);
    proof {
        lemma_spans(p@);
        assert(all.len() == places@.len());
        assert(all[from as int] == (places@[from as int].0 as int, places@[from as int].1 as int));
        assert(all[to - 1] == (places@[to - 1].0 as int, places@[to - 1].1 as int));
    }
    copy_bytes(p, places[from].0, places[to - 1].1)
}

pub fn file_name(p: &[u8]) -> (r: Option<Vec<u8>>)
    ensures
        match file_name_of(p@) {
            Some(name) => r is Some && r->0@ == name,
            None => r is None,
        },
{
    let mut c = components(p);
    assert(byte_views(c@).len() == c@.len());
    if c.len() == 0 {
        return None;
    }
    let last = c.pop().unwrap();
    assert(last@ == components_of(p@).last());
    if is_root(last.as_slice()) || is_here(last.as_slice()) || is_above(last.as_slice()) {
        None
    } else {
        Some(last)
    }
}

/// `name` below `dir`.
pub fn join(dir: &[u8], name: &[u8]) -> (r: Vec<u8>)
    ensures
        r@ == with_name(dir@, name@),
{
    let mut r: Vec<u8> = Vec::new();
    if name.len() > 0 && name[0] == SLASH {
        r.extend_from_slice(name);
        assert(r@ =~= name@);
        return r;
    }
    r.extend_from_slice(dir);
    if dir.len() > 0 && dir[dir.len() - 1] != SLASH {
        r.push(SLASH);
    }
    r.extend_from_slice(name);
    assert(r@ =~= with_name(dir@, name@));
    r
}

/// The directory that a file is created in.
pub fn directory(p: &[u8]) -> (r: Vec<u8>)
    ensures
        r@ == directory_of(p@),
{
    let c = components(p);
    assert(byte_views(c@).len() == c@.len());
    if c.len() <= 1 {
        let mut here_dir: Vec<u8> = Vec::new();
        here_dir.push(DOT);
        assert(here_dir@ =~= here());
        return here_dir;
    }
    copy_stretch(p, 0, c.len() - 1)
}

/// Whether two paths have the same components.
pub fn same_path(a: &[u8], b: &[u8]) -> (r: bool)
    ensures
        r == (components_of(a@) == components_of(b@)),
{
    let x = components(a);
    let y = components(b);
    let ghost xs = byte_views(x@);
    let ghost ys = byte_views(y@);
    assert(xs.len() == x@.len() && ys.len() == y@.len());
    if x.len() != y.len() {
        return false;
    }
    let mut i: usize = 0;
    while i < x.len()
        invariant
            i <= x@.len(),
            x@.len() == y@.len(),
            xs == byte_views(x@),
            ys == byte_views(y@),
            xs == components_of(a@),
            ys == components_of(b@),
            forall|j: int| 0 <= j < i ==> xs[j] == ys[j],
        decreases x@.len() - i,
    {
        if !same_bytes(x[i].as_slice(), y[i].as_slice()) {
            assert(xs[i as int] != ys[i as int]);
            return false;
        }
        i = i + 1;
    }
    assert(xs =~= ys);
    true
}

/// A path as seen from a directory above it.
pub fn relative(p: &[u8], base: &[u8]) -> (r: Vec<u8>)
    ensures
        r@ == relative_path(p@, base@),
{
    let c = components(p);
    let b = components(base);
    let ghost cs = components_of(p@);
    let ghost bs = components_of(base@);
    assert(cs.len() == c@.len() && bs.len() == b@.len());
    let whole = copy_bytes(p, 0, p.len());
    assert(whole@ =~= p@);
    if b.len() > c.len() {
        return whole;
    }
    let mut i: usize = 0;
    while i < b.len()
        invariant
            i <= b@.len() <= c@.len(),
            cs == components_of(p@),
            bs == components_of(base@),
            cs == byte_views(c@),
            bs == byte_views(b@),
            whole@ == p@,
            forall|j: int| 0 <= j < i ==> cs[j] == bs[j],
        decreases b@.len() - i,
    {
        if !same_bytes(c[i].as_slice(), b[i].as_slice()) {
            assert(cs.take(bs.len() as int)[i as int] != bs[i as int]);
            return whole;
        }
        i = i + 1;
    }
    assert(cs.take(bs.len() as int) =~= bs);
    copy_stretch(p, b.len(), c.len())
}

pub fn extension(p: &[u8]) -> (r: Option<Vec<u8>>)
    ensures
        match extension_of(p@) {
            Some(e) => r is Some && r->0@ == e,
            None => r is None,
        },
{
    match file_name(p) {
        None => None,
        Some(name) => {
            let mut i: usize = name.len();
            assert(name@.take(i as int) =~= name@);
            while i > 0 && name[i - 1] != DOT
                invariant
                    i <= name@.len(),
                    last_dot(name@) == last_dot(name@.take(i as int)),
                decreases i,
            {
                assert(name@.take(i as int).drop_last() =~= name@.take(i - 1));
                i = i - 1;
            }
            if i <= 1 {
                None
            } else {
                assert(last_dot(name@) == i - 1);
                assert(name@.subrange(i as int, name@.len() as int) =~= name@.skip(i as int));
                Some(copy_bytes(name.as_slice(), i, name.len()))
            }
        },
    }
}

pub fn path_key(p: &[u8]) -> (key: Vec<u16>)
    ensures
        key@ == path_key_of(p@),
{
    let c = components(p);
    let ghost all = components_of(p@);
    let mut key: Vec<u16> = Vec::new();
    let mut i: usize = 0;
    while i < c.len()
        invariant
            i <= c@.len(),
            all == byte_views(c@),
            key@ == components_key(all.take(i as int)),
        decreases c@.len() - i,
    {
        let name = c[i].as_slice();
        let ghost before = key@;
        let r: u16 = if is_root(name) {
            0
        } else if is_here(name) {
            1
        } else if is_above(name) {
            2
        } else {
            3
        };
        key.push(r);
        let mut j: usize = 0;
        while j < name.len()
            invariant
                j <= name@.len(),
                key@ == before.push(r) + name@.take(j as int).map_values(|b: u8| (b + 1) as u16),
            decreases name@.len() - j,
        {
            key.push(name[j] as u16 + 1);
            j = j + 1;
            assert(key@ =~= before.push(r) + name@.take(j as int).map_values(
                |b: u8| (b + 1) as u16,
            ));
        }
        key.push(0);
        assert(name@.take(j as int) =~= name@);
        assert(key@ =~= before + component_key(name@));
        assert(all.take(i + 1).drop_last() =~= all.take(i as int));
        i = i + 1;
    }
    assert(all.take(all.len() as int) =~= all);
    key
}

/// Bytes in dictionary order.
pub open spec fn bytes_lt(a: Seq<u8>, b: Seq<u8>) -> bool
    decreases a.len(),
{
    if b.len() == 0 {
        false
    } else if a.len() == 0 {
        true
    } else if a[0] != b[0] {
        a[0] < b[0]
    } else {
        bytes_lt(a.drop_first(), b.drop_first())
    }
}

/// Components by rank, and names among themselves by their bytes.
pub open spec fn component_lt(a: Seq<u8>, b: Seq<u8>) -> bool {
    rank(a) < rank(b) || (rank(a) == rank(b) && bytes_lt(a, b))
}

/// Paths component by component.
pub open spec fn path_lt(a: Seq<Seq<u8>>, b: Seq<Seq<u8>>) -> bool
    decreases a.len(),
{
    if b.len() == 0 {
        false
    } else if a.len() == 0 {
        true
    } else if a[0] != b[0] {
        component_lt(a[0], b[0])
    } else {
        path_lt(a.drop_first(), b.drop_first())
    }
}

/// The bytes of a name as they stand in a key.
spec fn letters(c: Seq<u8>) -> Seq<u16> {
    c.map_values(|b: u8| (b + 1) as u16)
}

proof fn lemma_same_front(x: u16, s: Seq<u16>, t: Seq<u16>)
    ensures
        key_lt(seq![x] + s, seq![x] + t) == key_lt(s, t),
{
    assert((seq![x] + s).drop_first() =~= s);
    assert((seq![x] + t).drop_first() =~= t);
}

proof fn lemma_same_prefix(p: Seq<u16>, s: Seq<u16>, t: Seq<u16>)
    ensures
        key_lt(p + s, p + t) == key_lt(s, t),
    decreases p.len(),
{
    if p.len() == 0 {
        assert(p + s =~= s && p + t =~= t);
    } else {
        let q = p.drop_first();
        lemma_same_prefix(q, s, t);
        assert(p + s =~= seq![p[0]] + (q + s));
        assert(p + t =~= seq![p[0]] + (q + t));
        lemma_same_front(p[0], q + s, q + t);
    }
}

/// Different names differ before the ends of their words.
proof fn lemma_letters_decide(a: Seq<u8>, b: Seq<u8>, s: Seq<u16>, t: Seq<u16>)
    requires
        a != b,
    ensures
        key_lt(letters(a) + seq![0u16] + s, letters(b) + seq![0u16] + t) == bytes_lt(a, b),
    decreases a.len(),
{
    let x = letters(a) + seq![0u16] + s;
    let y = letters(b) + seq![0u16] + t;
    if a.len() == 0 {
        if b.len() == 0 {
            assert(a =~= b);
        }
        assert(x[0] == 0 && y[0] == b[0] + 1);
    } else if b.len() == 0 {
        assert(y[0] == 0 && x[0] == a[0] + 1);
    } else {
        assert(x[0] == a[0] + 1 && y[0] == b[0] + 1);
        if a[0] == b[0] {
            let (a1, b1) = (a.drop_first(), b.drop_first());
            if a1 == b1 {
                assert(a =~= seq![a[0]] + a1);
                assert(b =~= seq![b[0]] + b1);
            }
            lemma_letters_decide(a1, b1, s, t);
            assert(x.drop_first() =~= letters(a1) + seq![0u16] + s);
            assert(y.drop_first() =~= letters(b1) + seq![0u16] + t);
        }
    }
}

proof fn lemma_component_decides(a: Seq<u8>, b: Seq<u8>, s: Seq<u16>, t: Seq<u16>)
    requires
        a != b,
    ensures
        key_lt(component_key(a) + s, component_key(b) + t) == component_lt(a, b),
{
    let x = component_key(a) + s;
    let y = component_key(b) + t;
    assert(x[0] == rank(a) && y[0] == rank(b));
    assert(x.drop_first() =~= letters(a) + seq![0u16] + s);
    assert(y.drop_first() =~= letters(b) + seq![0u16] + t);
    lemma_letters_decide(a, b, s, t);
}

proof fn lemma_key_from_front(c: Seq<Seq<u8>>)
    requires
        c.len() > 0,
    ensures
        components_key(c) == component_key(c[0]) + components_key(c.drop_first()),
    decreases c.len(),
{
    let d = c.drop_last();
    if c.len() == 1 {
        assert(components_key(d) =~= Seq::<u16>::empty());
        assert(components_key(c.drop_first()) =~= Seq::<u16>::empty());
        assert(components_key(c) =~= component_key(c[0]) + components_key(c.drop_first()));
    } else {
        lemma_key_from_front(d);
        assert(c.drop_first().drop_last() =~= d.drop_first());
        assert(c.drop_first().last() == c.last());
        assert(components_key(c) =~= component_key(c[0]) + components_key(c.drop_first()));
    }
}

/// The keys of paths compare as the paths do, component by component.
pub proof fn law_path_keys_order_paths(a: Seq<Seq<u8>>, b: Seq<Seq<u8>>)
    ensures
        key_lt(components_key(a), components_key(b)) == path_lt(a, b),
    decreases a.len(),
{
    if a.len() == 0 {
        if b.len() > 0 {
            lemma_key_from_front(b);
            assert(components_key(b).len() > 0);
        }
    } else if b.len() > 0 {
        lemma_key_from_front(a);
        lemma_key_from_front(b);
        let s = components_key(a.drop_first());
        let t = components_key(b.drop_first());
        if a[0] == b[0] {
            lemma_same_prefix(component_key(a[0]), s, t);
            law_path_keys_order_paths(a.drop_first(), b.drop_first());
        } else {
            lemma_component_decides(a[0], b[0], s, t);
        }
    } else {
        lemma_key_from_front(a);
    }
}

proof fn lemma_slash_place(p: Seq<u8>)
    ensures
        first_slash(p) <= p.len(),
        forall|i: int| 0 <= i < first_slash(p) ==> #[trigger] p[i] != SLASH,
        first_slash(p) < p.len() ==> p[first_slash(p) as int] == SLASH,
    decreases p.len(),
{
    if p.len() > 0 && p[0] != SLASH {
        let q = p.drop_first();
        lemma_slash_place(q);
        assert forall|i: int| 0 <= i < first_slash(p) implies #[trigger] p[i] != SLASH by {
            if i > 0 {
                assert(q[i - 1] == p[i]);
            }
        }
        if first_slash(p) < p.len() {
            assert(q[first_slash(q) as int] == p[first_slash(p) as int]);
        }
    }
}

/// A part of a path that reaches from slash to slash, or to an end of the
/// path, and holds none.
spec fn is_piece(p: Seq<u8>, s: int, e: int) -> bool {
    &&& 0 <= s < e <= p.len()
    &&& s == 0 || p[s - 1] == SLASH
    &&& e == p.len() || p[e] == SLASH
    &&& forall|i: int| s <= i < e ==> #[trigger] p[i] != SLASH
    &&& s == 0 || p.subrange(s, e) != here()
}

proof fn lemma_pieces_in(whole: Seq<u8>, p: Seq<u8>, first: bool, at: int)
    requires
        0 <= at <= whole.len(),
        p == whole.skip(at),
        at == 0 || whole[at - 1] == SLASH,
        first == (at == 0),
    ensures
        forall|i: int|
            0 <= i < spans_in(p, first, at).len() ==> {
                let s = #[trigger] spans_in(p, first, at)[i];
                at <= s.0 && is_piece(whole, s.0, s.1)
            },
        forall|s: int, e: int|
            at <= s && #[trigger] is_piece(whole, s, e) ==> spans_in(p, first, at).contains((s, e)),
    decreases p.len(),
{
    let n = first_slash(p) as int;
    lemma_slash_place(p);
    let piece = if n < p.len() {
        p.take(n)
    } else {
        p
    };
    let all = spans_in(p, first, at);
    let rest = if n < p.len() {
        spans_in(p.skip(n + 1), false, at + n + 1)
    } else {
        Seq::empty()
    };
    assert(piece =~= whole.subrange(at, at + n));
    assert forall|i: int| at <= i < at + n implies #[trigger] whole[i] != SLASH by {
        assert(p[i - at] == whole[i]);
    }
    if n < p.len() {
        assert(p[n] == whole[at + n]);
        assert(p.skip(n + 1) =~= whole.skip(at + n + 1));
        lemma_pieces_in(whole, p.skip(n + 1), false, at + n + 1);
    }
    assert(counts(piece, first) ==> is_piece(whole, at, at + n));
    let shift = if counts(piece, first) {
        1int
    } else {
        0
    };
    assert forall|i: int| 0 <= i < all.len() implies {
        let s = #[trigger] all[i];
        at <= s.0 && is_piece(whole, s.0, s.1)
    } by {
        if i >= shift {
            assert(all[i] == rest[i - shift]);
        }
    }
    assert forall|s: int, e: int| at <= s && #[trigger] is_piece(whole, s, e) implies all.contains(
        (s, e),
    ) by {
        if s == at {
            if e > at + n {
                assert(whole[at + n] == SLASH);
            }
            if e < at + n {
                assert(whole[e] != SLASH);
            }
            assert(counts(piece, first));
            assert(all[0] == (s, e));
        } else {
            assert(whole[s - 1] == SLASH);
            assert(s > at + n);
            let k = choose|k: int| 0 <= k < rest.len() && rest[k] == (s, e);
            assert(rest.contains((s, e)));
            assert(all[k + shift] == rest[k]);
        }
    }
}

/// The components of a path: the root where the path starts with a slash, and
/// then every part that reaches from slash to slash and is not empty, in order
/// and byte for byte; `.` is left out, but at the very front. The spans are
/// where they stand.
pub proof fn law_components_are_the_parts(p: Seq<u8>)
    ensures
        ({
            let c = components_of(p);
            let w = spans_of(p);
            let root = p.len() > 0 && p[0] == 47;
            let skipped = if root {
                1int
            } else {
                0
            };
            &&& c.len() == w.len() && w.len() >= skipped
            &&& root ==> w[0] == (0int, 1int) && c[0] == seq![47u8]
            &&& forall|i: int|
                skipped <= i < c.len() ==> {
                    let (s, e) = #[trigger] w[i];
                    &&& 0 <= s < e <= p.len()
                    &&& c[i] == p.subrange(s, e)
                    &&& s == 0 || p[s - 1] == 47
                    &&& e == p.len() || p[e] == 47
                    &&& forall|j: int| s <= j < e ==> #[trigger] p[j] != 47
                    &&& s == 0 || c[i] != seq![46u8]
                }
            &&& forall|i: int, j: int|
                0 <= i < j < c.len() ==> (#[trigger] w[i]).1 <= (#[trigger] w[j]).0
            &&& forall|s: int, e: int|
                {
                    &&& 0 <= s < e <= p.len()
                    &&& s == 0 || p[s - 1] == 47
                    &&& e == p.len() || p[e] == 47
                    &&& forall|j: int| s <= j < e ==> #[trigger] p[j] != 47
                    &&& s == 0 || p.subrange(s, e) != seq![46u8]
                } ==> #[trigger] w.contains((s, e))
        }),
{
    let c = components_of(p);
    let w = spans_of(p);
    let root = p.len() > 0 && p[0] == 47;
    let rest = spans_in(p, true, 0);
    lemma_spans(p);
    assert(p.skip(0) =~= p);
    lemma_pieces_in(p, p, true, 0);
    let skipped = if root {
        1int
    } else {
        0
    };
    assert forall|i: int| skipped <= i < c.len() implies {
        let (s, e) = #[trigger] w[i];
        &&& 0 <= s < e <= p.len()
        &&& c[i] == p.subrange(s, e)
        &&& s == 0 || p[s - 1] == 47
        &&& e == p.len() || p[e] == 47
        &&& forall|j: int| s <= j < e ==> #[trigger] p[j] != 47
        &&& s == 0 || c[i] != seq![46u8]
    } by {
        assert(w[i] == rest[i - skipped]);
        assert(is_piece(p, w[i].0, w[i].1));
    }
    assert forall|s: int, e: int|
        {
            &&& 0 <= s < e <= p.len()
            &&& s == 0 || p[s - 1] == 47
            &&& e == p.len() || p[e] == 47
            &&& forall|j: int| s <= j < e ==> #[trigger] p[j] != 47
            &&& s == 0 || p.subrange(s, e) != seq![46u8]
        } implies #[trigger] w.contains((s, e)) by {
        assert(is_piece(p, s, e));
        assert(rest.contains((s, e)));
        let k = choose|k: int| 0 <= k < rest.len() && rest[k] == (s, e);
        assert(w[k + skipped] == (s, e));
    }
}

/// The file name of a path is its last component, where that is a name.
pub proof fn law_file_name_is_the_last_component(p: Seq<u8>)
    ensures
        ({
            let c = components_of(p);
            let n = c.len() - 1;
            &&& c.len() == 0 ==> file_name_of(p) is None
            &&& c.len() > 0 && (c[n] == seq![47u8] || c[n] == seq![46u8] || c[n] == seq![
                46u8,
                46u8,
            ]) ==> file_name_of(p) is None
            &&& c.len() > 0 && c[n] != seq![47u8] && c[n] != seq![46u8] && c[n] != seq![46u8, 46u8]
                ==> file_name_of(p) == Some(c[n])
        }),
{
}

/// A name below a directory: a slash between the two where the directory does
/// not end in one, and none where there is no directory. A name that starts
/// with a slash stands for itself.
pub proof fn law_join_puts_one_slash_between(dir: Seq<u8>, name: Seq<u8>)
    ensures
        name.len() > 0 && name[0] == 47 ==> with_name(dir, name) == name,
        !(name.len() > 0 && name[0] == 47) ==> {
            &&& dir.len() == 0 ==> with_name(dir, name) == name
            &&& dir.len() > 0 && dir[dir.len() - 1] == 47 ==> with_name(dir, name) == dir + name
            &&& dir.len() > 0 && dir[dir.len() - 1] != 47 ==> with_name(dir, name) == dir + seq![
                47u8,
            ] + name
        },
{
    assert(dir.len() == 0 ==> dir + name =~= name);
    assert(dir.push(47u8) + name =~= dir + seq![47u8] + name);
}

/// What a directory's path and a plain name make up has that name for its file
/// name.
pub proof fn law_joined_name_is_the_file_name(dir: Seq<u8>, name: Seq<u8>)
    requires
        name.len() > 0,
        forall|i: int| 0 <= i < name.len() ==> #[trigger] name[i] != 47,
        name != seq![46u8],
        name != seq![46u8, 46u8],
    ensures
        file_name_of(with_name(dir, name)) == Some(name),
{
    let p = with_name(dir, name);
    law_join_puts_one_slash_between(dir, name);
    law_components_are_the_parts(p);
    let s = p.len() - name.len();
    let w = spans_of(p);
    let c = components_of(p);
    assert(p.subrange(s, p.len() as int) =~= name);
    assert(s == 0 || p[s - 1] == 47);
    assert forall|j: int| s <= j < p.len() implies #[trigger] p[j] != 47 by {
        assert(p[j] == name[j - s]);
    }
    assert(w.contains((s, p.len() as int)));
    let k = choose|k: int| 0 <= k < w.len() && w[k] == (s, p.len() as int);
    if k < w.len() - 1 {
        assert(w[k].1 <= w[w.len() - 1].0);
        lemma_spans(p);
    }
    assert(c[k] == name);
    if name == seq![47u8] {
        assert(name[0] == 47);
    }
}

/// The directory of a path is the path from its first component to the last
/// but one, byte for byte, and `.` where there is no such component.
pub proof fn law_directory_is_the_front(p: Seq<u8>)
    ensures
        ({
            let w = spans_of(p);
            &&& components_of(p).len() <= 1 ==> directory_of(p) == seq![46u8]
            &&& components_of(p).len() > 1 ==> directory_of(p) == p.subrange(
                w[0].0,
                w[w.len() - 2].1,
            )
        }),
{
    lemma_spans(p);
}

/// A path seen from a base: from its first component behind those of the base
/// to its last one, byte for byte. Where the components of the base do not
/// come first in it, it stays as it is.
pub proof fn law_relative_path_is_the_rest(p: Seq<u8>, base: Seq<u8>)
    ensures
        ({
            let w = spans_of(p);
            let n = components_of(base).len() as int;
            let below = components_of(base).is_prefix_of(components_of(p));
            &&& !below ==> relative_path(p, base) == p
            &&& below && n == components_of(p).len() ==> relative_path(p, base).len() == 0
            &&& below && n < components_of(p).len() ==> relative_path(p, base) == p.subrange(
                w[n].0,
                w[w.len() - 1].1,
            )
        }),
{
    lemma_spans(p);
    let b = components_of(base);
    let c = components_of(p);
    if b.len() <= c.len() {
        assert(c.take(b.len() as int) =~= c.subrange(0, b.len() as int));
    }
}

proof fn lemma_names_split(a: Seq<u8>, b: Seq<u8>, first: bool, at: int)
    ensures
        names_in(a + seq![SLASH] + b, first) == names_in(a, first) + names_in(b, false),
        spans_in(a + seq![SLASH] + b, first, at) == spans_in(a, first, at) + spans_in(
            b,
            false,
            at + a.len() + 1,
        ),
    decreases a.len(),
{
    let p = a + seq![SLASH] + b;
    let n = first_slash(a) as int;
    lemma_slash_place(a);
    lemma_first_slash_in(a, b);
    if n == a.len() {
        assert(p.take(n) =~= a);
        assert(p.skip(n + 1) =~= b);
        assert(names_in(p, first) =~= names_in(a, first) + names_in(b, false));
        assert(spans_in(p, first, at) =~= spans_in(a, first, at) + spans_in(
            b,
            false,
            at + a.len() + 1,
        ));
    } else {
        let q = a.skip(n + 1);
        assert(p.take(n) =~= a.take(n));
        assert(p.skip(n + 1) =~= q + seq![SLASH] + b);
        lemma_names_split(q, b, false, at + n + 1);
        assert(names_in(p, first) =~= names_in(a, first) + names_in(b, false));
        assert(spans_in(p, first, at) =~= spans_in(a, first, at) + spans_in(
            b,
            false,
            at + a.len() + 1,
        ));
    }
}

proof fn lemma_first_slash_in(a: Seq<u8>, b: Seq<u8>)
    ensures
        first_slash(a + seq![SLASH] + b) == first_slash(a),
{
    let p = a + seq![SLASH] + b;
    lemma_slash_place(a);
    let n = first_slash(a);
    assert forall|i: int| 0 <= i < n implies #[trigger] p[i] != SLASH by {
        assert(p[i] == a[i]);
    }
    assert(p[n as int] == SLASH);
    lemma_first_slash(p, n);
}

/// A path below a base, seen from that base, is what was put behind the base
/// and a slash: nothing of it is lost and nothing is added. `rel` has to start
/// and end in a component.
pub proof fn law_relative_path_undoes_join(base: Seq<u8>, rel: Seq<u8>)
    requires
        base.len() > 0,
        rel.len() > 0,
        rel[0] != 47,
        rel[rel.len() - 1] != 47,
        !(rel[0] == 46 && (rel.len() == 1 || rel[1] == 47)),
        !(rel[rel.len() - 1] == 46 && (rel.len() == 1 || rel[rel.len() - 2] == 47)),
    ensures
        relative_path(base + seq![47u8] + rel, base) == rel,
{
    let p = base + seq![47u8] + rel;
    let n = components_of(base).len() as int;
    let m = base.len() + 1;
    lemma_names_split(base, rel, true, 0);
    assert(p[0] == base[0]);
    assert(components_of(p) =~= components_of(base) + names_in(rel, false));
    assert(spans_of(p) =~= spans_of(base) + spans_in(rel, false, m as int));
    lemma_spans(base);
    lemma_spans(p);
    lemma_slash_place(rel);
    let k = first_slash(rel) as int;
    let piece = if k < rel.len() {
        rel.take(k)
    } else {
        rel
    };
    assert(piece != here()) by {
        if piece == here() {
            assert(piece.len() == 1);
            assert(piece[0] == 46);
            assert(rel[0] == 46);
        }
    }
    assert(counts(piece, false));
    assert(spans_in(rel, false, m as int)[0] == (m as int, m + k));
    assert(spans_of(p)[n] == (m as int, m + k));
    assert(components_of(p).take(n) =~= components_of(base));
    assert(components_of(base).is_prefix_of(components_of(p))) by {
        assert(components_of(p).subrange(0, n) =~= components_of(base));
    }
    law_relative_path_is_the_rest(p, base);
    let s = lemma_last_piece(rel);
    let e = p.len() as int;
    law_components_are_the_parts(p);
    let w = spans_of(p);
    assert(s == 0 || p[m + s - 1] == 47) by {
        if s > 0 {
            assert(p[m + s - 1] == rel[s - 1]);
        }
    }
    assert(p[m - 1] == 47);
    assert forall|j: int| m + s <= j < e implies #[trigger] p[j] != 47 by {
        assert(p[j] == rel[j - m]);
    }
    assert(p.subrange(m + s, e) =~= rel.skip(s));
    assert(rel.skip(s) != seq![46u8]) by {
        if rel.skip(s) == seq![46u8] {
            assert(rel.skip(s).len() == 1);
            assert(rel.skip(s)[0] == 46);
            assert(rel[rel.len() - 1] == 46);
            if s > 0 {
                assert(rel[s - 1] == 47);
            }
        }
    }
    assert(w.contains((m + s, e)));
    let i = choose|i: int| 0 <= i < w.len() && w[i] == (m + s, e);
    if i < w.len() - 1 {
        assert(w[i].1 <= w[w.len() - 1].0);
    }
    assert(p.subrange(m as int, e) =~= rel);
}

/// Where the last part of a path starts.
proof fn lemma_last_piece(p: Seq<u8>) -> (s: int)
    requires
        p.len() > 0,
        p[p.len() - 1] != SLASH,
    ensures
        0 <= s < p.len(),
        s == 0 || p[s - 1] == SLASH,
        forall|i: int| s <= i < p.len() ==> #[trigger] p[i] != SLASH,
    decreases p.len(),
{
    let q = p.drop_last();
    if q.len() == 0 {
        0
    } else if q[q.len() - 1] == SLASH {
        p.len() - 1
    } else {
        let s = lemma_last_piece(q);
        assert forall|i: int| s <= i < p.len() implies #[trigger] p[i] != SLASH by {
            if i < q.len() {
                assert(q[i] == p[i]);
            }
        }
        if s > 0 {
            assert(q[s - 1] == p[s - 1]);
        }
        s
    }
}

/// The extension of a path is what stands behind the last dot of its file
/// name, a dot at the front not counted. `k` is where that dot is, or zero
/// where there is none.
pub proof fn law_extension_follows_the_last_dot(p: Seq<u8>, name: Seq<u8>, k: int)
    requires
        file_name_of(p) == Some(name),
        0 <= k < name.len(),
        k > 0 ==> name[k] == 46,
        forall|i: int| k < i < name.len() ==> #[trigger] name[i] != 46,
    ensures
        k == 0 ==> extension_of(p) is None,
        k > 0 ==> extension_of(p) == Some(name.subrange(k + 1, name.len() as int)),
{
    lemma_last_dot(name, k);
}

proof fn lemma_last_dot(name: Seq<u8>, k: int)
    requires
        0 <= k < name.len(),
        k > 0 ==> name[k] == 46,
        forall|i: int| k < i < name.len() ==> #[trigger] name[i] != 46,
    ensures
        k > 0 ==> last_dot(name) == k,
        k == 0 ==> last_dot(name) <= 0,
    decreases name.len(),
{
    let q = name.drop_last();
    if k < name.len() - 1 {
        assert forall|i: int| k < i < q.len() implies #[trigger] q[i] != 46 by {
            assert(q[i] == name[i]);
        }
        assert(name[name.len() - 1] != 46);
        lemma_last_dot(q, k);
    } else if k == 0 {
        assert(last_dot(q) == -1);
    }
}

/// A path that ends in no name has no extension.
pub proof fn law_no_name_no_extension(p: Seq<u8>)
    requires
        file_name_of(p) is None,
    ensures
        extension_of(p) is None,
{
}

/// Names are compared by their first byte that differs, and a front of a name
/// comes before the name. `k` is where they part.
pub proof fn law_bytes_compare_where_they_part(a: Seq<u8>, b: Seq<u8>, k: int)
    requires
        0 <= k <= a.len(),
        k <= b.len(),
        forall|i: int| 0 <= i < k ==> #[trigger] a[i] == b[i],
        k == a.len() || k == b.len() || a[k] != b[k],
    ensures
        bytes_lt(a, b) <==> k < b.len() && (k == a.len() || a[k] < b[k]),
    decreases k,
{
    if k > 0 {
        assert(a[0] == b[0]);
        let (c, d) = (a.drop_first(), b.drop_first());
        assert forall|i: int| 0 <= i < k - 1 implies #[trigger] c[i] == d[i] by {
            assert(a[i + 1] == b[i + 1]);
        }
        law_bytes_compare_where_they_part(c, d, k - 1);
    }
}

/// The keys of two paths compare as the first components do in which the paths
/// differ: the root before `.`, that before `..`, and that before names, which
/// compare by their bytes. A path comes before what lies below it. `k` is
/// where the two part.
pub proof fn law_path_keys_compare_where_they_part(p: Seq<u8>, q: Seq<u8>, k: int)
    requires
        0 <= k <= components_of(p).len(),
        k <= components_of(q).len(),
        forall|i: int| 0 <= i < k ==> #[trigger] components_of(p)[i] == components_of(q)[i],
        k == components_of(p).len() || k == components_of(q).len() || components_of(p)[k]
            != components_of(q)[k],
    ensures
        ({
            let (a, b) = (components_of(p), components_of(q));
            let place = |c: Seq<u8>|
                if c == seq![47u8] {
                    0int
                } else if c == seq![46u8] {
                    1int
                } else if c == seq![46u8, 46u8] {
                    2int
                } else {
                    3int
                };
            &&& k == b.len() ==> !key_lt(path_key_of(p), path_key_of(q))
            &&& k == a.len() && k < b.len() ==> key_lt(path_key_of(p), path_key_of(q))
            &&& k < a.len() && k < b.len() ==> (key_lt(path_key_of(p), path_key_of(q)) <==> place(
                a[k],
            ) < place(b[k]) || (place(a[k]) == place(b[k]) && bytes_lt(a[k], b[k])))
        }),
{
    law_path_keys_order_paths(components_of(p), components_of(q));
    lemma_paths_part(components_of(p), components_of(q), k);
}

proof fn lemma_paths_part(a: Seq<Seq<u8>>, b: Seq<Seq<u8>>, k: int)
    requires
        0 <= k <= a.len(),
        k <= b.len(),
        forall|i: int| 0 <= i < k ==> #[trigger] a[i] == b[i],
        k == a.len() || k == b.len() || a[k] != b[k],
    ensures
        path_lt(a, b) <==> k < b.len() && (k == a.len() || component_lt(a[k], b[k])),
    decreases k,
{
    if k > 0 {
        assert(a[0] == b[0]);
        let (c, d) = (a.drop_first(), b.drop_first());
        assert forall|i: int| 0 <= i < k - 1 implies #[trigger] c[i] == d[i] by {
            assert(a[i + 1] == b[i + 1]);
        }
        lemma_paths_part(c, d, k - 1);
    }
}

/// The bytes of each of several paths, one by one.
pub proof fn law_byte_views(v: Seq<Vec<u8>>)
    ensures
        byte_views(v).len() == v.len(),
        forall|i: int| 0 <= i < v.len() ==> #[trigger] byte_views(v)[i] == v[i]@,
{
}

} // verus!
