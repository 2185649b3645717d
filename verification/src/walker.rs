//! Directory scan: which files go into the archive, and under which name.

use vstd::prelude::*;

use crate::dostime::unix_to_dos;
#[allow(unused_imports)]
use crate::dostime::is_dos_form;
use crate::names::name_key;
#[allow(unused_imports)]
use crate::names::name_key_of;
use crate::path::{copy_bytes, file_name, path_key, relative};
#[allow(unused_imports)]
use crate::path::{file_name_of, path_key_of, relative_path};
use crate::sort::{reversed, sort_by_key, unkeyed, Keyed};
#[allow(unused_imports)]
use crate::sort::{
    having_key, items_of, lemma_items_with_key, lemma_keys_kept, sorted_from, with_key,
};
use crate::text::{concat, from_chars, lossy, part, to_chars};
#[allow(unused_imports)]
use crate::text::lossy_text;
#[allow(unused_imports)]
use vstd::utf8::{decode_utf8, valid_utf8};

verus! {

/// Stands for any run of characters in a pattern.
pub const ANY_RUN: char = '*';

/// Stands for any single character in a pattern.
pub const ANY_ONE: char = '?';

/// A file that the scan found.
#[derive(Debug)]
pub struct WorkItem {
    /// Absolute path, as the bytes of the file system.
    pub path: Vec<u8>,
    /// Name inside the archive: forward slashes, none in front.
    pub name_in_archive: String,
    /// Length in bytes.
    pub size: u64,
    /// Time of the last change as an MS-DOS (date, time) pair.
    pub mtime: (u16, u16),
    /// Last component of the path, where the item was found through an open
    /// directory and can be opened relative to it.
    pub basename: Option<Vec<u8>>,
}

/// What a scan looks for.
pub struct WalkOpts<'a> {
    pub roots: &'a [Vec<u8>],
    pub exclude: &'a [String],
    pub sort: bool,
    pub walk_threads: usize,
}

/// Whether a text matches a pattern as a whole: `*` stands for any run of
/// characters, `?` for any one, and any other character for itself.
pub open spec fn glob_matches(p: Seq<char>, t: Seq<char>) -> bool
    decreases p.len(),
{
    if p.len() == 0 {
        t.len() == 0
    } else if p[0] == ANY_RUN {
        exists|k: int| 0 <= k <= t.len() && glob_matches(p.drop_first(), #[trigger] t.skip(k))
    } else {
        t.len() > 0 && (p[0] == ANY_ONE || p[0] == t[0]) && glob_matches(
            p.drop_first(),
            t.drop_first(),
        )
    }
}

/// Whether a name matches one of the patterns.
pub open spec fn excluded(name: Seq<char>, globs: Seq<String>) -> bool {
    exists|i: int|
        0 <= i < globs.len() && glob_matches((#[trigger] globs[i])@, name)
}

/// `t` with forward slashes in place of backslashes.
pub open spec fn slashed(t: Seq<char>) -> Seq<char> {
    t.map_values(
        |c: char|
            if c == '\\' {
                '/'
            } else {
                c
            },
    )
}

/// `t` without the slashes in front.
pub open spec fn without_root(t: Seq<char>) -> Seq<char>
    decreases t.len(),
{
    if t.len() > 0 && t[0] == '/' {
        without_root(t.drop_first())
    } else {
        t
    }
}

/// The name of a file in the archive: the name of the directory that was
/// given, and the path from there.
pub open spec fn archive_name_of(base: Seq<char>, rel: Seq<u8>) -> Seq<char> {
    let r = slashed(lossy_text(rel));
    if base.len() == 0 {
        without_root(r)
    } else if r.len() == 0 {
        base
    } else {
        base.push('/') + without_root(r)
    }
}

/// The name that a root gives to what is found in it.
pub open spec fn base_name_of(root: Seq<u8>) -> Seq<char> {
    match file_name_of(root) {
        Some(name) => lossy_text(name),
        None => Seq::empty(),
    }
}

/// The key that a listing is sorted by: the name in the archive, or the path.
pub open spec fn listing_key(sort: bool) -> spec_fn(WorkItem) -> Seq<u16> {
    |x: WorkItem|
        if sort {
            name_key_of(x.name_in_archive@)
        } else {
            path_key_of(x.path@)
        }
}

/// A star takes nothing, or one character more.
proof fn lemma_star(p: Seq<char>, t: Seq<char>)
    requires
        p.len() > 0,
        p[0] == ANY_RUN,
    ensures
        glob_matches(p, t) == (glob_matches(p.drop_first(), t) || (t.len() > 0 && glob_matches(
            p,
            t.drop_first(),
        ))),
{
    let q = p.drop_first();
    assert(t.skip(0) =~= t);
    if glob_matches(p, t) {
        let k = choose|k: int| 0 <= k <= t.len() && glob_matches(q, #[trigger] t.skip(k));
        if k > 0 {
            assert(t.drop_first().skip(k - 1) =~= t.skip(k));
        }
    }
    if t.len() > 0 && glob_matches(p, t.drop_first()) {
        let k = choose|k: int|
            0 <= k <= t.drop_first().len() && glob_matches(q, #[trigger] t.drop_first().skip(k));
        assert(t.drop_first().skip(k) =~= t.skip(k + 1));
    }
}

/// Whether the whole of `text` matches `pattern`.
pub fn glob_match(pattern: &str, text: &str) -> (r: bool)
    ensures
        r == glob_matches(pattern@, text@),
{
    let p = to_chars(pattern);
    let t = to_chars(text);
    let n: usize = t.len();
    // row[j]: whether the rest of the text from j on matches the rest of the
    // pattern from i on.
    let mut row: Vec<bool> = Vec::new();
    let mut j: usize = 0;
    while j < n
        invariant
            j <= n,
            row@.len() == j,
            forall|k: int| 0 <= k < j ==> !row@[k],
        decreases n - j,
    {
        row.push(false);
        j = j + 1;
    }
    row.push(true);
    let mut i: usize = p.len();
    assert(p@.skip(i as int) =~= Seq::<char>::empty());
    while i > 0
        invariant
            i <= p@.len(),
            n == t@.len(),
            row@.len() == n + 1,
            forall|k: int|
                0 <= k <= n ==> #[trigger] row@[k] == glob_matches(
                    p@.skip(i as int),
                    t@.skip(k),
                ),
        decreases i,
    {
        i = i - 1;
        let ghost rest = p@.skip(i + 1);
        let ghost here = p@.skip(i as int);
        assert(here.drop_first() =~= rest);
        let c: char = p[i];
        if c == ANY_RUN {
            proof {
                lemma_star(here, t@.skip(n as int));
            }
            let mut j: usize = n;
            while j > 0
                invariant
                    j <= n,
                    n == t@.len(),
                    row@.len() == n + 1,
                    here.len() > 0,
                    here[0] == ANY_RUN,
                    here.drop_first() == rest,
                    forall|k: int|
                        0 <= k < j ==> #[trigger] row@[k] == glob_matches(rest, t@.skip(k)),
                    forall|k: int|
                        j <= k <= n ==> #[trigger] row@[k] == glob_matches(here, t@.skip(k)),
                decreases j,
            {
                j = j - 1;
                proof {
                    lemma_star(here, t@.skip(j as int));
                    assert(t@.skip(j as int).drop_first() =~= t@.skip(j + 1));
                }
                let v = row[j] || row[j + 1];
                row[j] = v;
            }
        } else {
            let mut j: usize = 0;
            while j < n
                invariant
                    j <= n,
                    n == t@.len(),
                    row@.len() == n + 1,
                    here.len() > 0,
                    here[0] == c,
                    c != ANY_RUN,
                    here.drop_first() == rest,
                    forall|k: int|
                        0 <= k < j ==> #[trigger] row@[k] == glob_matches(here, t@.skip(k)),
                    forall|k: int|
                        j <= k <= n ==> #[trigger] row@[k] == glob_matches(rest, t@.skip(k)),
                decreases n - j,
            {
                assert(t@.skip(j as int).drop_first() =~= t@.skip(j + 1));
                let v = (c == ANY_ONE || c == t[j]) && row[j + 1];
                row[j] = v;
                j = j + 1;
            }
            row[n] = false;
        }
    }
    assert(p@.skip(0) =~= p@);
    assert(t@.skip(0) =~= t@);
    row[0]
}

/// Whether a name matches one of the patterns.
pub fn is_excluded(name: &str, globs: &[String]) -> (r: bool)
    ensures
        r == excluded(name@, globs@),
{
    let mut i: usize = 0;
    while i < globs.len()
        invariant
            i <= globs@.len(),
            forall|k: int|
                0 <= k < i ==> !glob_matches((#[trigger] globs@[k])@, name@),
        decreases globs@.len() - i,
    {
        if glob_match(globs[i].as_str(), name) {
            return true;
        }
        i = i + 1;
    }
    false
}

/// `t` with forward slashes, and without those in front.
fn relative_name(t: &str) -> (r: (bool, String))
    ensures
        r.0 == (t@.len() == 0),
        r.1@ == without_root(slashed(t@)),
{
    let mut v = to_chars(t);
    let ghost all = v@;
    let mut i: usize = 0;
    while i < v.len()
        invariant
            i <= v@.len(),
            v@.len() == all.len(),
            all == t@,
            forall|k: int| 0 <= k < i ==> v@[k] == slashed(all)[k],
            forall|k: int| i <= k < v@.len() ==> v@[k] == all[k],
        decreases v@.len() - i,
    {
        if v[i] == '\\' {
            v[i] = '/';
        }
        i = i + 1;
    }
    assert(v@ =~= slashed(t@));
    let mut start: usize = 0;
    assert(v@.skip(0) =~= v@);
    while start < v.len() && v[start] == '/'
        invariant
            start <= v@.len(),
            v@ == slashed(t@),
            without_root(v@) == without_root(v@.skip(start as int)),
        decreases v@.len() - start,
    {
        assert(v@.skip(start as int).drop_first() =~= v@.skip(start + 1));
        start = start + 1;
    }
    assert(v@.subrange(start as int, v@.len() as int) =~= v@.skip(start as int));
    let rest = part(v.as_slice(), start, v.len());
    (v.len() == 0, from_chars(rest.as_slice()))
}

/// The name of a file in the archive, from the name of the root and the path
/// of the file below the root.
pub fn archive_name(base_name: &str, rel: &[u8]) -> (r: String)
    ensures
        r@ == archive_name_of(base_name@, rel@),
        valid_utf8(rel@) ==> lossy_text(rel@) == decode_utf8(rel@),
{
    let text = lossy(rel);
    let (rel_empty, rel_name) = relative_name(text.as_str());
    if base_name.is_empty() {
        rel_name
    } else if rel_empty {
        base_name.to_owned()
    } else {
        let front = concat(base_name, "/");
        proof {
            reveal_strlit("/");
            assert(front@ =~= base_name@.push('/'));
        }
        concat(front.as_str(), rel_name.as_str())
    }
}

/// The name that a root gives to what is found in it: its own, or none for
/// the root of the file system.
pub fn base_name(root: &[u8]) -> (r: String)
    ensures
        r@ == base_name_of(root@),
{
    match file_name(root) {
        Some(name) => lossy(name.as_slice()),
        None => String::new(),
    }
}

/// The name under which a root that is itself a file enters the archive, if it
/// is not excluded.
pub fn root_file_name(root: &[u8], exclude: &[String]) -> (r: Option<String>)
    ensures
        excluded(base_name_of(root@), exclude@) ==> r is None,
        !excluded(base_name_of(root@), exclude@) ==> r is Some && r->0@ == base_name_of(root@),
{
    let name = base_name(root);
    if is_excluded(name.as_str(), exclude) {
        None
    } else {
        Some(name)
    }
}

/// The name under which something found below a root enters the archive:
/// none where it is not a regular file, or excluded.
pub fn entry_name(root: &[u8], full: &[u8], is_file: bool, exclude: &[String]) -> (r: Option<
    String,
>)
    ensures
        ({
            let name = archive_name_of(base_name_of(root@), relative_path(full@, root@));
            if is_file && !excluded(name, exclude@) {
                r is Some && r->0@ == name
            } else {
                r is None
            }
        }),
        r is Some && valid_utf8(relative_path(full@, root@)) ==> lossy_text(
            relative_path(full@, root@),
        ) == decode_utf8(relative_path(full@, root@)),
{
    if !is_file {
        return None;
    }
    let rel = relative(full, root);
    let base = base_name(root);
    let name = archive_name(base.as_str(), rel.as_slice());
    if is_excluded(name.as_str(), exclude) {
        None
    } else {
        Some(name)
    }
}

/// The item of a file of which name, length and time of change (in seconds
/// since the epoch) are known.
pub fn build_item(path: &[u8], name: String, len: u64, mtime: i64) -> (r: WorkItem)
    ensures
        r.path@ == path@,
        r.name_in_archive == name,
        r.size == len,
        is_dos_form(mtime as int, r.mtime.0 as int, r.mtime.1 as int),
        r.basename is None,
{
    let p = copy_bytes(path, 0, path.len());
    assert(p@ =~= path@);
    WorkItem {
        path: p,
        name_in_archive: name,
        size: len,
        mtime: unix_to_dos(mtime),
        basename: None,
    }
}

/// The whole of a scan as a list: by name in the archive where sorting was
/// asked for, by path otherwise.
pub fn walk(opts: &WalkOpts<'_>, found: Vec<WorkItem>) -> (r: Vec<WorkItem>)
    ensures
        sorted_from(found@, r@, listing_key(opts.sort)),
{
    let ghost all = found@;
    let ghost key = listing_key(opts.sort);
    let mut back = reversed(found);
    assert(all.skip(0) =~= all);
    let mut keyed: Vec<Keyed<WorkItem>> = Vec::new();
    while back.len() > 0
        invariant
            keyed@.len() + back@.len() == all.len(),
            back@ == all.skip(keyed@.len() as int).reverse(),
            items_of(keyed@) == all.take(keyed@.len() as int),
            key == listing_key(opts.sort),
            forall|i: int| 0 <= i < keyed@.len() ==> (#[trigger] keyed@[i]).key@ == key(
                keyed@[i].item,
            ),
        decreases back@.len(),
    {
        let ghost n = keyed@.len() as int;
        let ghost keyed0 = keyed@;
        let x = back.pop().unwrap();
        assert(x == all[n]);
        let k = if opts.sort {
            name_key(x.name_in_archive.as_str())
        } else {
            path_key(x.path.as_slice())
        };
        keyed.push(Keyed { key: k, item: x });
        assert(back@ =~= all.skip(n + 1).reverse());
        assert(items_of(keyed@) =~= items_of(keyed0).push(all[n]));
        assert(items_of(keyed@) =~= all.take(n + 1));
    }
    assert(all.take(all.len() as int) =~= all);
    let ghost keyed_all = keyed@;
    let sorted = sort_by_key(keyed);
    proof {
        lemma_keys_kept(keyed_all, sorted@, key);
        assert forall|k: Seq<u16>| #[trigger]
            having_key(items_of(sorted@), key, k) == having_key(all, key, k) by {
            lemma_items_with_key(keyed_all, key, k);
            lemma_items_with_key(sorted@, key, k);
            assert(with_key(sorted@, k) == with_key(keyed_all, k));
        }
    }
    unkeyed(sorted)
}

/// Names in the archive have forward slashes only and none in front, where the
/// name of the root has.
pub proof fn law_archive_name_is_relative(base: Seq<char>, rel: Seq<u8>)
    requires
        !base.contains('\\'),
        base.len() > 0 ==> base[0] != '/',
    ensures
        !archive_name_of(base, rel).contains('\\'),
        archive_name_of(base, rel).len() > 0 ==> archive_name_of(base, rel)[0] != '/',
{
    let r = slashed(lossy_text(rel));
    lemma_without_root(r);
    let w = without_root(r);
    let name = archive_name_of(base, rel);
    assert forall|i: int| 0 <= i < w.len() implies w[i] != '\\' by {
        assert(w.contains(w[i]));
        assert(r.contains(w[i]));
        let k = choose|k: int| 0 <= k < r.len() && r[k] == w[i];
        assert(r[k] != '\\');
    }
    assert forall|i: int| 0 <= i < name.len() implies name[i] != '\\' by {
        if base.len() > 0 {
            if i < base.len() {
                assert(base.contains(base[i]));
            } else if i > base.len() {
                assert(name[i] == w[i - base.len() - 1]);
            }
        }
    }
}

proof fn lemma_without_root(t: Seq<char>)
    ensures
        without_root(t).len() > 0 ==> without_root(t)[0] != '/',
        forall|c: char| without_root(t).contains(c) ==> t.contains(c),
    decreases t.len(),
{
    if t.len() > 0 && t[0] == '/' {
        let u = t.drop_first();
        lemma_without_root(u);
        assert forall|c: char| without_root(t).contains(c) implies t.contains(c) by {
            assert(u.contains(c));
            let i = choose|i: int| 0 <= i < u.len() && u[i] == c;
            assert(t[i + 1] == c);
        }
    }
}

/// A pattern without wildcards matches itself and nothing else.
pub proof fn law_plain_pattern_matches_itself(p: Seq<char>, t: Seq<char>)
    requires
        !p.contains(ANY_RUN),
        !p.contains(ANY_ONE),
    ensures
        glob_matches(p, t) == (p == t),
    decreases p.len(),
{
    if p.len() > 0 {
        assert(p.contains(p[0]));
        let q = p.drop_first();
        assert forall|b: char| q.contains(b) implies p.contains(b) by {
            let i = choose|i: int| 0 <= i < q.len() && q[i] == b;
            assert(p[i + 1] == b);
        }
        if t.len() > 0 {
            law_plain_pattern_matches_itself(q, t.drop_first());
            assert(p =~= seq![p[0]] + q);
            assert(t =~= seq![t[0]] + t.drop_first());
        }
    } else {
        assert(t.len() == 0 ==> p =~= t);
    }
}

/// A star in front matches whatever ends in a match of the rest.
pub proof fn law_leading_star_matches_suffixes(p: Seq<char>, front: Seq<char>, t: Seq<char>)
    requires
        glob_matches(p, t),
    ensures
        glob_matches(seq![ANY_RUN] + p, front + t),
{
    let q = seq![ANY_RUN] + p;
    assert(q.drop_first() =~= p);
    assert((front + t).skip(front.len() as int) =~= t);
}

pub(crate) proof fn lemma_without_root_from(t: Seq<char>, k: int)
    requires
        0 <= k <= t.len(),
        forall|i: int| 0 <= i < k ==> #[trigger] t[i] == '/',
        k == t.len() || t[k] != '/',
    ensures
        without_root(t) == t.skip(k),
    decreases t.len(),
{
    if k == 0 {
        assert(t.skip(0) =~= t);
    } else {
        let u = t.drop_first();
        assert forall|i: int| 0 <= i < k - 1 implies #[trigger] u[i] == '/' by {
            assert(u[i] == t[i + 1]);
        }
        lemma_without_root_from(u, k - 1);
        assert(u.skip(k - 1) =~= t.skip(k));
    }
}

/// A name in the archive, character by character: the base, a slash, and the
/// text of the path from its first character on that is no slash, with every
/// backslash turned into a slash and nothing else changed. `k` is where that
/// character stands, so a path that starts with neither is kept whole.
pub proof fn law_archive_name_is_the_path(base: Seq<char>, rel: Seq<u8>, k: int)
    requires
        0 <= k <= lossy_text(rel).len(),
        forall|i: int|
            0 <= i < k ==> #[trigger] lossy_text(rel)[i] == '/' || lossy_text(rel)[i] == '\\',
        k == lossy_text(rel).len() || (lossy_text(rel)[k] != '/' && lossy_text(rel)[k] != '\\'),
    ensures
        ({
            let t = lossy_text(rel);
            let name = archive_name_of(base, rel);
            let from = if base.len() == 0 {
                0int
            } else {
                base.len() + 1int
            };
            &&& t.len() == 0 ==> name == base
            &&& t.len() > 0 ==> {
                &&& name.len() == from + t.len() - k
                &&& base.len() > 0 ==> name.take(base.len() as int) == base && name[base.len() as int]
                    == '/'
                &&& forall|i: int|
                    k <= i < t.len() ==> name[from + i - k] == (if #[trigger] t[i] == '\\' {
                        '/'
                    } else {
                        t[i]
                    })
            }
        }),
{
    let t = lossy_text(rel);
    let r = slashed(t);
    assert forall|i: int| 0 <= i < k implies #[trigger] r[i] == '/' by {
        assert(t[i] == '/' || t[i] == '\\');
    }
    lemma_without_root_from(r, k);
    let name = archive_name_of(base, rel);
    if t.len() == 0 {
        assert(r.skip(k) =~= Seq::empty());
        assert(base.len() == 0 ==> base =~= Seq::empty());
    } else if base.len() > 0 {
        assert(name == base.push('/') + r.skip(k));
        assert(name.take(base.len() as int) =~= base);
    }
}

/// Different paths have different names, where neither path starts with a
/// slash or holds a backslash.
pub proof fn law_archive_names_tell_paths_apart(base: Seq<char>, a: Seq<u8>, b: Seq<u8>)
    requires
        forall|i: int| 0 <= i < lossy_text(a).len() ==> #[trigger] lossy_text(a)[i] != '\\',
        forall|i: int| 0 <= i < lossy_text(b).len() ==> #[trigger] lossy_text(b)[i] != '\\',
        lossy_text(a).len() > 0 ==> lossy_text(a)[0] != '/',
        lossy_text(b).len() > 0 ==> lossy_text(b)[0] != '/',
        archive_name_of(base, a) == archive_name_of(base, b),
    ensures
        lossy_text(a) == lossy_text(b),
        valid_utf8(a) && valid_utf8(b) && lossy_text(a) == decode_utf8(a) && lossy_text(b)
            == decode_utf8(b) ==> a == b,
{
    law_archive_name_is_the_path(base, a, 0);
    law_archive_name_is_the_path(base, b, 0);
    let (s, t) = (lossy_text(a), lossy_text(b));
    let from = if base.len() == 0 {
        0int
    } else {
        base.len() + 1int
    };
    let (m, n) = (archive_name_of(base, a), archive_name_of(base, b));
    assert(s.len() == t.len());
    assert forall|i: int| 0 <= i < s.len() implies s[i] == t[i] by {
        assert(m[from + i - 0] == s[i]);
        assert(n[from + i - 0] == t[i]);
    }
    assert(s =~= t);
    if valid_utf8(a) && valid_utf8(b) && s == decode_utf8(a) && t == decode_utf8(b) {
        vstd::utf8::decode_utf8_encode_utf8(a);
        vstd::utf8::decode_utf8_encode_utf8(b);
    }
}

/// A root gives its own last name, and nothing where it ends in none.
pub proof fn law_base_is_the_roots_name(root: Seq<u8>)
    ensures
        file_name_of(root) matches Some(name) ==> base_name_of(root) == lossy_text(name),
        file_name_of(root) is None ==> base_name_of(root).len() == 0,
{
}

/// A pattern of one character: a star matches every text, a question mark
/// every single character, anything else itself. The empty pattern matches
/// the empty text.
pub proof fn law_pattern_of_one(c: char, t: Seq<char>)
    ensures
        glob_matches(Seq::empty(), t) <==> t.len() == 0,
        glob_matches(seq!['*'], t),
        glob_matches(seq!['?'], t) <==> t.len() == 1,
        c != '*' && c != '?' ==> (glob_matches(seq![c], t) <==> t == seq![c]),
{
    reveal_with_fuel(glob_matches, 2);
    let none = Seq::<char>::empty();
    assert(seq!['*'].drop_first() =~= none);
    assert(seq!['?'].drop_first() =~= none);
    assert(seq![c].drop_first() =~= none);
    assert(t.skip(t.len() as int) =~= none);
    assert(t.len() == 1 && t[0] == c ==> t =~= seq![c]);
}

/// A text matches two patterns in a row where it can be cut into a text that
/// matches the first and one that matches the second.
pub proof fn law_patterns_in_a_row(p: Seq<char>, q: Seq<char>, t: Seq<char>)
    ensures
        glob_matches(p + q, t) <==> exists|k: int|
            0 <= k <= t.len() && #[trigger] glob_matches(p, t.take(k)) && glob_matches(q, t.skip(k)),
    decreases p.len(),
{
    if p.len() == 0 {
        assert(p + q =~= q);
        assert(t.skip(0) =~= t);
        if glob_matches(q, t) {
            assert(glob_matches(p, t.take(0)));
        }
    } else {
        let rest = p.drop_first();
        assert((p + q).drop_first() =~= rest + q);
        if glob_matches(p + q, t) {
            if p[0] == ANY_RUN {
                let j = choose|j: int|
                    0 <= j <= t.len() && glob_matches(rest + q, #[trigger] t.skip(j));
                let u = t.skip(j);
                law_patterns_in_a_row(rest, q, u);
                let k = choose|k: int|
                    0 <= k <= u.len() && #[trigger] glob_matches(rest, u.take(k)) && glob_matches(
                        q,
                        u.skip(k),
                    );
                assert(t.take(j + k).skip(j) =~= u.take(k));
                assert(t.skip(j + k) =~= u.skip(k));
                assert(glob_matches(p, t.take(j + k)));
            } else {
                let u = t.drop_first();
                law_patterns_in_a_row(rest, q, u);
                let k = choose|k: int|
                    0 <= k <= u.len() && #[trigger] glob_matches(rest, u.take(k)) && glob_matches(
                        q,
                        u.skip(k),
                    );
                assert(t.take(k + 1).drop_first() =~= u.take(k));
                assert(t.skip(k + 1) =~= u.skip(k));
                assert(glob_matches(p, t.take(k + 1)));
            }
        }
        if exists|k: int|
            0 <= k <= t.len() && #[trigger] glob_matches(p, t.take(k)) && glob_matches(
                q,
                t.skip(k),
            ) {
            let k = choose|k: int|
                0 <= k <= t.len() && #[trigger] glob_matches(p, t.take(k)) && glob_matches(
                    q,
                    t.skip(k),
                );
            let v = t.take(k);
            if p[0] == ANY_RUN {
                let j = choose|j: int| 0 <= j <= v.len() && glob_matches(rest, #[trigger] v.skip(j));
                let u = t.skip(j);
                assert(u.take(k - j) =~= v.skip(j));
                assert(u.skip(k - j) =~= t.skip(k));
                assert(glob_matches(rest, u.take(k - j)));
                law_patterns_in_a_row(rest, q, u);
                assert(glob_matches(rest + q, t.skip(j)));
            } else {
                let u = t.drop_first();
                assert(u.take(k - 1) =~= v.drop_first());
                assert(u.skip(k - 1) =~= t.skip(k));
                assert(glob_matches(rest, u.take(k - 1)));
                law_patterns_in_a_row(rest, q, u);
            }
        }
    }
}

/// A name is excluded by a list of patterns where one of them matches it.
pub proof fn law_any_pattern_excludes(name: Seq<char>, globs: Seq<String>, more: Seq<String>)
    ensures
        !excluded(name, Seq::empty()),
        excluded(name, globs + more) <==> excluded(name, globs) || excluded(name, more),
        globs.len() == 1 ==> (excluded(name, globs) <==> glob_matches(globs[0]@, name)),
{
    let all = globs + more;
    if excluded(name, globs) {
        let i = choose|i: int| 0 <= i < globs.len() && glob_matches((#[trigger] globs[i])@, name);
        assert(all[i] == globs[i]);
    }
    if excluded(name, more) {
        let i = choose|i: int| 0 <= i < more.len() && glob_matches((#[trigger] more[i])@, name);
        assert(all[globs.len() + i] == more[i]);
    }
    if excluded(name, all) {
        let i = choose|i: int| 0 <= i < all.len() && glob_matches((#[trigger] all[i])@, name);
        if i < globs.len() {
            assert(all[i] == globs[i]);
        } else {
            assert(all[i] == more[i - globs.len()]);
        }
    }
}

/// A listing is ordered by the names in the archive where sorting was asked
/// for, by the paths otherwise.
pub proof fn law_listing_order(x: WorkItem)
    ensures
        listing_key(true)(x) == name_key_of(x.name_in_archive@),
        listing_key(false)(x) == path_key_of(x.path@),
{
}

} // verus!
