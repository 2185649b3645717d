//! Reading a volume from its raw device: object numbers of paths, and what a
//! walk over the volume finds.

#[allow(unused_imports)]
use vstd::utf8::encode_utf8;
use vstd::hash_map::StringHashMap;
use vstd::prelude::*;
use vstd::string::StringExecFns;

use crate::bulk_walker::name_below;
#[allow(unused_imports)]
use crate::bulk_walker::{below, lemma_contains_before};
use crate::names::sorted_names;
#[allow(unused_imports)]
use crate::names::rising;
use crate::path::{copy_bytes, join, relative};
#[allow(unused_imports)]
use crate::path::{relative_path, with_name};
use crate::text::{
    add_number, concat, from_chars, leading_digits, lossy, part, strip_prefix, to_chars,
};
#[allow(unused_imports)]
use crate::text::{
    after_prefix, decimal, digit_run, law_digit_run, lossy_text, string_views,
};
use crate::walker::{is_excluded, root_file_name, WorkItem};
#[allow(unused_imports)]
use crate::walker::{base_name_of, excluded, lemma_without_root_from, without_root};

verus! {

/// Blocks that the shared cache of a volume holds.
pub const CACHE_BLOCKS: usize = 16_384;

/// Length of the blocks of a volume.
pub const BLOCK_SIZE: usize = 4096;

#[derive(Copy, Clone, Debug, PartialEq, Eq, Structural)]
pub enum EntryKind {
    File,
    Directory,
    Symlink,
}

/// An entry of a directory of the volume.
pub struct Child {
    pub name: String,
    pub oid: u64,
    pub kind: EntryKind,
}

/// A directory that a walk has still to enter.
pub struct SubDir {
    pub abs: Vec<u8>,
    pub rel: String,
    pub oid: u64,
    pub prefix: String,
}

/// What a walk does about one directory.
pub struct DirPlan {
    /// Files for the archive.
    pub files: Vec<WorkItem>,
    /// Directories to enter next.
    pub dirs: Vec<SubDir>,
    /// Object numbers between which to fetch all inodes at once, where that
    /// pays.
    pub inode_range: Option<(u64, u64)>,
}

/// Object numbers of paths on the volume, as far as they are known.
pub struct OidCache {
    map: StringHashMap<u64>,
}

impl View for OidCache {
    type V = Map<Seq<char>, u64>;

    closed spec fn view(&self) -> Map<Seq<char>, u64> {
        self.map@
    }
}

impl OidCache {
    pub fn new() -> (c: Self)
        ensures
            c@ == Map::<Seq<char>, u64>::empty(),
    {
        OidCache { map: StringHashMap::new() }
    }

    pub fn get(&self, path: &str) -> (r: Option<u64>)
        ensures
            r == (if self@.contains_key(path@) {
                Some(self@[path@])
            } else {
                None
            }),
    {
        match self.map.get(path) {
            Some(oid) => Some(*oid),
            None => None,
        }
    }

    pub fn insert(&mut self, path: String, oid: u64)
        ensures
            final(self)@ == old(self)@.insert(path@, oid),
    {
        self.map.insert(path, oid);
    }
}

/// What to do next about a path whose object number is asked for.
pub enum Resolve {
    /// It is known.
    Found(u64),
    /// The directory has to be opened first.
    OpenParent(String),
    /// The directory with this number has to be listed.
    ListParent(String, u64),
}

/// Why the raw device of a volume is not known.
#[derive(Copy, Clone, Debug, PartialEq, Eq, Structural)]
pub enum DeviceError {
    /// Not the path of a disk.
    UnexpectedPath,
    /// A disk without a number.
    NoDiskNumber,
}

/// Position of the last slash, or -1.
pub open spec fn last_slash(t: Seq<char>) -> int
    decreases t.len(),
{
    if t.len() == 0 {
        -1
    } else if t.last() == '/' {
        t.len() - 1
    } else {
        last_slash(t.drop_last())
    }
}

/// `t` without the slashes behind.
pub open spec fn without_slashes_behind(t: Seq<char>) -> Seq<char>
    decreases t.len(),
{
    if t.len() > 0 && t.last() == '/' {
        without_slashes_behind(t.drop_last())
    } else {
        t
    }
}

/// The directory of a path on the volume.
pub open spec fn parent_of(rel: Seq<char>) -> Seq<char> {
    if last_slash(rel) <= 0 {
        seq!['/']
    } else {
        rel.take(last_slash(rel))
    }
}

/// The last component of a path on the volume.
pub open spec fn name_of(rel: Seq<char>) -> Seq<char> {
    rel.skip(last_slash(rel) + 1)
}

/// The path on the volume of `name` in the directory `dir`.
pub open spec fn child_of(dir: Seq<char>, name: Seq<char>) -> Seq<char> {
    without_slashes_behind(dir).push('/') + name
}

/// The path on the volume of an absolute path.
pub open spec fn on_volume(mount: Seq<u8>, path: Seq<u8>) -> Seq<char> {
    seq!['/'] + without_root(lossy_text(relative_path(path, mount)))
}

/// Known object numbers, with those of the entries of a directory.
pub open spec fn with_children(
    known: Map<Seq<char>, u64>,
    dir: Seq<char>,
    cs: Seq<Child>,
) -> Map<Seq<char>, u64>
    decreases cs.len(),
{
    if cs.len() == 0 {
        known
    } else {
        with_children(known, dir, cs.drop_last()).insert(
            child_of(dir, cs.last().name@),
            cs.last().oid,
        )
    }
}

/// Whether an entry goes into the archive: no directory, and no pattern
/// excludes its name there.
pub open spec fn is_taken(c: Child, prefix: Seq<char>, exclude: Seq<String>) -> bool {
    c.kind != EntryKind::Directory && !excluded(below(prefix, c.name@), exclude)
}

/// Path and name in the archive of the files among the entries of a directory.
pub open spec fn files_of(
    cs: Seq<Child>,
    dir: Seq<u8>,
    prefix: Seq<char>,
    exclude: Seq<String>,
) -> Seq<(Seq<u8>, Seq<char>)>
    decreases cs.len(),
{
    if cs.len() == 0 {
        Seq::empty()
    } else {
        let before = files_of(cs.drop_last(), dir, prefix, exclude);
        let c = cs.last();
        if is_taken(c, prefix, exclude) {
            before.push((with_name(dir, encode_utf8(c.name@)), below(prefix, c.name@)))
        } else {
            before
        }
    }
}

/// A directory to enter: absolute path, path on the volume, object number and
/// prefix in the archive.
pub type DirModel = (Seq<u8>, Seq<char>, u64, Seq<char>);

/// The directories among the entries of a directory.
pub open spec fn dirs_of(cs: Seq<Child>, dir: Seq<u8>, rel: Seq<char>, prefix: Seq<char>) -> Seq<
    DirModel,
>
    decreases cs.len(),
{
    if cs.len() == 0 {
        Seq::empty()
    } else {
        let before = dirs_of(cs.drop_last(), dir, rel, prefix);
        let c = cs.last();
        if c.kind == EntryKind::Directory {
            before.push(
                (
                    with_name(dir, encode_utf8(c.name@)),
                    child_of(rel, c.name@),
                    c.oid,
                    below(prefix, c.name@),
                ),
            )
        } else {
            before
        }
    }
}

/// Number, least and greatest object number of what is not a directory.
pub open spec fn oid_span(cs: Seq<Child>) -> (nat, u64, u64)
    decreases cs.len(),
{
    if cs.len() == 0 {
        (0, u64::MAX, 0)
    } else {
        let (n, lo, hi) = oid_span(cs.drop_last());
        let c = cs.last();
        if c.kind == EntryKind::Directory {
            (n, lo, hi)
        } else {
            (
                n + 1,
                if c.oid < lo {
                    c.oid
                } else {
                    lo
                },
                if c.oid > hi {
                    c.oid
                } else {
                    hi
                },
            )
        }
    }
}

/// The range of object numbers worth scanning: one where they lie close
/// together for their number.
pub open spec fn scan_range(cs: Seq<Child>) -> Option<(u64, u64)> {
    let (n, lo, hi) = oid_span(cs);
    if n > 0 && (hi - lo <= 64 || hi - lo <= 16 * n) {
        Some((lo, hi))
    } else {
        None
    }
}

pub open spec fn file_views(v: Seq<WorkItem>) -> Seq<(Seq<u8>, Seq<char>)> {
    v.map_values(|w: WorkItem| (w.path@, w.name_in_archive@))
}

pub open spec fn dir_views(v: Seq<SubDir>) -> Seq<DirModel> {
    v.map_values(|d: SubDir| (d.abs@, d.rel@, d.oid, d.prefix@))
}

proof fn lemma_last_slash(t: Seq<char>, i: int)
    requires
        -1 <= i < t.len(),
        i >= 0 ==> t[i] == '/',
        forall|j: int| i < j < t.len() ==> #[trigger] t[j] != '/',
    ensures
        last_slash(t) == i,
    decreases t.len(),
{
    if t.len() > 0 && i < t.len() - 1 {
        assert(t[t.len() - 1] != '/');
        lemma_last_slash(t.drop_last(), i);
    }
}

/// Splits `/a/b/c/foo.dcm` into `/a/b/c` and `foo.dcm`.
pub fn split_parent_name(rel: &str) -> (r: (String, String))
    ensures
        r.0@ == parent_of(rel@),
        r.1@ == name_of(rel@),
{
    let t = to_chars(rel);
    let mut i: usize = t.len();
    while i > 0 && t[i - 1] != '/'
        invariant
            i <= t@.len(),
            forall|j: int| i <= j < t@.len() ==> #[trigger] t@[j] != '/',
        decreases i,
    {
        i = i - 1;
    }
    proof {
        lemma_last_slash(t@, i - 1);
    }
    let name = part(t.as_slice(), i, t.len());
    assert(name@ =~= name_of(rel@));
    let parent = if i <= 1 {
        let mut root: Vec<char> = Vec::new();
        root.push('/');
        root
    } else {
        part(t.as_slice(), 0, i - 1)
    };
    assert(parent@ =~= parent_of(rel@));
    (from_chars(parent.as_slice()), from_chars(name.as_slice()))
}

/// The path on the volume of `name` in the directory `dir`.
pub fn child_path(dir: &str, name: &str) -> (r: String)
    ensures
        r@ == child_of(dir@, name@),
{
    let t = to_chars(dir);
    let mut end: usize = t.len();
    assert(t@.take(end as int) =~= t@);
    while end > 0 && t[end - 1] == '/'
        invariant
            end <= t@.len(),
            without_slashes_behind(t@.take(end as int)) == without_slashes_behind(t@),
        decreases end,
    {
        assert(t@.take(end as int).drop_last() =~= t@.take(end - 1));
        end = end - 1;
    }
    let mut front = part(t.as_slice(), 0, end);
    assert(front@ =~= t@.take(end as int));
    front.push('/');
    let s = from_chars(front.as_slice());
    concat(s.as_str(), name)
}

/// The path on the volume of an absolute path.
pub fn volume_path(mount: &[u8], path: &[u8]) -> (r: String)
    ensures
        r@ == on_volume(mount@, path@),
{
    let rel = relative(path, mount);
    let text = lossy(rel.as_slice());
    let t = to_chars(text.as_str());
    let mut start: usize = 0;
    assert(t@.skip(0) =~= t@);
    while start < t.len() && t[start] == '/'
        invariant
            start <= t@.len(),
            without_root(t@) == without_root(t@.skip(start as int)),
        decreases t@.len() - start,
    {
        assert(t@.skip(start as int).drop_first() =~= t@.skip(start + 1));
        start = start + 1;
    }
    let rest = part(t.as_slice(), start, t.len());
    assert(rest@ =~= t@.skip(start as int));
    let rest_text = from_chars(rest.as_slice());
    proof {
        reveal_strlit("/");
        assert("/"@ =~= seq!['/']);
    }
    concat("/", rest_text.as_str())
}

/// Keeps the object numbers of the entries of a directory.
pub fn note_children(known: &mut OidCache, dir: &str, cs: &Vec<Child>)
    ensures
        final(known)@ == with_children(old(known)@, dir@, cs@),
{
    let ghost before = known@;
    let mut i: usize = 0;
    while i < cs.len()
        invariant
            i <= cs@.len(),
            known@ == with_children(before, dir@, cs@.take(i as int)),
        decreases cs@.len() - i,
    {
        assert(cs@.take(i + 1).drop_last() =~= cs@.take(i as int));
        known.insert(child_path(dir, cs[i].name.as_str()), cs[i].oid);
        i = i + 1;
    }
    assert(cs@.take(cs@.len() as int) =~= cs@);
}

/// Paths of the directories among the entries of `dir`.
pub open spec fn dir_paths(cs: Seq<Child>, dir: Seq<char>) -> Seq<Seq<char>>
    decreases cs.len(),
{
    if cs.len() == 0 {
        Seq::empty()
    } else if cs.last().kind == EntryKind::Directory {
        dir_paths(cs.drop_last(), dir).push(child_of(dir, cs.last().name@))
    } else {
        dir_paths(cs.drop_last(), dir)
    }
}

/// Keeps the object numbers of the entries of a directory and names the
/// directories among them, to be walked next.
pub fn prewalk_step(known: &mut OidCache, dir: &str, cs: &Vec<Child>) -> (r: Vec<String>)
    ensures
        final(known)@ == with_children(old(known)@, dir@, cs@),
        string_views(r@) == dir_paths(cs@, dir@),
{
    note_children(known, dir, cs);
    let mut subdirs: Vec<String> = Vec::new();
    let mut i: usize = 0;
    assert(string_views(subdirs@) =~= Seq::<Seq<char>>::empty());
    while i < cs.len()
        invariant
            i <= cs@.len(),
            string_views(subdirs@) == dir_paths(cs@.take(i as int), dir@),
        decreases cs@.len() - i,
    {
        assert(cs@.take(i + 1).drop_last() =~= cs@.take(i as int));
        if cs[i].kind == EntryKind::Directory {
            let ghost before = subdirs@;
            let sub = child_path(dir, cs[i].name.as_str());
            subdirs.push(sub);
            assert(string_views(subdirs@) =~= string_views(before).push(sub@));
        }
        i = i + 1;
    }
    assert(cs@.take(cs@.len() as int) =~= cs@);
    subdirs
}

/// What to do first about a path whose object number is asked for.
pub fn resolve_oid(known: &OidCache, rel: &str) -> (r: Resolve)
    ensures
        match r {
            Resolve::Found(oid) => known@.contains_key(rel@) && known@[rel@] == oid,
            Resolve::ListParent(dir, oid) => !known@.contains_key(rel@) && dir@ == parent_of(rel@)
                && known@.contains_key(parent_of(rel@)) && known@[parent_of(rel@)] == oid,
            Resolve::OpenParent(dir) => !known@.contains_key(rel@) && dir@ == parent_of(rel@)
                && !known@.contains_key(parent_of(rel@)),
        },
{
    if let Some(oid) = known.get(rel) {
        return Resolve::Found(oid);
    }
    let (parent, _name) = split_parent_name(rel);
    match known.get(parent.as_str()) {
        Some(oid) => Resolve::ListParent(parent, oid),
        None => Resolve::OpenParent(parent),
    }
}

/// The object number of a path once its directory was listed, if the listing
/// had it.
pub fn resolve_listed(
    known: &mut OidCache,
    rel: &str,
    parent: &str,
    cs: &Vec<Child>,
) -> (r: Option<u64>)
    ensures
        final(known)@ == with_children(old(known)@, parent@, cs@),
        r == (if final(known)@.contains_key(rel@) {
            Some(final(known)@[rel@])
        } else {
            None
        }),
{
    note_children(known, parent, cs);
    known.get(rel)
}

/// Decides about the entries of one directory of a walk.
pub fn walk_dir(
    dir_abs: &[u8],
    dir_rel: &str,
    prefix: &str,
    exclude: &[String],
    cs: &Vec<Child>,
) -> (r: DirPlan)
    ensures
        file_views(r.files@) == files_of(cs@, dir_abs@, prefix@, exclude@),
        forall|i: int|
            0 <= i < r.files@.len() ==> (#[trigger] r.files@[i]).size == 0 && r.files@[i].mtime == (
                33u16,
                0u16,
            ) && r.files@[i].basename is None,
        dir_views(r.dirs@) == dirs_of(cs@, dir_abs@, dir_rel@, prefix@),
        r.inode_range == scan_range(cs@),
{
    let mut files: Vec<WorkItem> = Vec::new();
    let mut dirs: Vec<SubDir> = Vec::new();
    let mut n: u64 = 0;
    let mut lo: u64 = u64::MAX;
    let mut hi: u64 = 0;
    let mut i: usize = 0;
    assert(file_views(files@) =~= Seq::<(Seq<u8>, Seq<char>)>::empty());
    assert(dir_views(dirs@) =~= Seq::<DirModel>::empty());
    while i < cs.len()
        invariant
            i <= cs@.len(),
            file_views(files@) == files_of(cs@.take(i as int), dir_abs@, prefix@, exclude@),
            forall|k: int|
                0 <= k < files@.len() ==> (#[trigger] files@[k]).size == 0 && files@[k].mtime == (
                    33u16,
                    0u16,
                ) && files@[k].basename is None,
            dir_views(dirs@) == dirs_of(cs@.take(i as int), dir_abs@, dir_rel@, prefix@),
            oid_span(cs@.take(i as int)) == (n as nat, lo, hi),
            n <= i,
        decreases cs@.len() - i,
    {
        assert(cs@.take(i + 1).drop_last() =~= cs@.take(i as int));
        let c = &cs[i];
        let name = c.name.as_str();
        let below_prefix = name_below(prefix, name);
        if c.kind == EntryKind::Directory {
            let ghost before = dirs@;
            let d = SubDir {
                abs: join(dir_abs, name.as_bytes()),
                rel: child_path(dir_rel, name),
                oid: c.oid,
                prefix: below_prefix,
            };
            dirs.push(d);
            assert(dir_views(dirs@) =~= dir_views(before).push((d.abs@, d.rel@, d.oid, d.prefix@)));
        } else {
            n = n + 1;
            if c.oid < lo {
                lo = c.oid;
            }
            if c.oid > hi {
                hi = c.oid;
            }
            if !is_excluded(below_prefix.as_str(), exclude) {
                let ghost before = files@;
                let w = WorkItem {
                    path: join(dir_abs, name.as_bytes()),
                    name_in_archive: below_prefix,
                    size: 0,
                    mtime: (33, 0),
                    basename: None,
                };
                files.push(w);
                assert(file_views(files@) =~= file_views(before).push(
                    (w.path@, w.name_in_archive@),
                ));
            }
        }
        i = i + 1;
    }
    assert(cs@.take(cs@.len() as int) =~= cs@);
    proof {
        lemma_span_order(cs@);
    }
    let inode_range = if n > 0 && (hi - lo <= 64 || n > u64::MAX / 16 || hi - lo <= 16 * n) {
        Some((lo, hi))
    } else {
        None
    };
    DirPlan { files, dirs, inode_range }
}

/// The item of a root that is itself a file, unless it is excluded.
pub fn root_file_item(root: &[u8], exclude: &[String]) -> (r: Option<WorkItem>)
    ensures
        excluded(base_name_of(root@), exclude@) <==> r is None,
        r is Some ==> r->0.path@ == root@ && r->0.name_in_archive@ == base_name_of(root@)
            && r->0.size == 0 && r->0.mtime == (33u16, 0u16) && r->0.basename is None,
{
    match root_file_name(root, exclude) {
        None => None,
        Some(name) => {
            let path = copy_bytes(root, 0, root.len());
            assert(path@ =~= root@);
            Some(
                WorkItem {
                    path,
                    name_in_archive: name,
                    size: 0,
                    mtime: (33, 0),
                    basename: None,
                },
            )
        },
    }
}

/// The least number is not above the greatest.
proof fn lemma_span_order(cs: Seq<Child>)
    ensures
        oid_span(cs).0 > 0 ==> oid_span(cs).1 <= oid_span(cs).2,
    decreases cs.len(),
{
    if cs.len() > 0 {
        lemma_span_order(cs.drop_last());
        lemma_span_empty(cs.drop_last());
    }
}

proof fn lemma_span_empty(cs: Seq<Child>)
    ensures
        oid_span(cs).0 == 0 ==> oid_span(cs).1 == u64::MAX && oid_span(cs).2 == 0,
    decreases cs.len(),
{
    if cs.len() > 0 {
        lemma_span_empty(cs.drop_last());
    }
}

/// Taking a path apart and putting it together again gives the path back,
/// where it starts with a slash and has no two slashes before its last name.
pub proof fn law_split_then_join(rel: Seq<char>)
    requires
        rel.len() > 0,
        rel[0] == '/',
        last_slash(rel) > 0 ==> rel[last_slash(rel) - 1] != '/',
    ensures
        child_of(parent_of(rel), name_of(rel)) == rel,
{
    lemma_last_slash_found(rel);
    let i = last_slash(rel);
    if i <= 0 {
        assert(without_slashes_behind(seq!['/']) =~= Seq::<char>::empty()) by {
            reveal_with_fuel(without_slashes_behind, 2);
            assert(seq!['/'].drop_last() =~= Seq::<char>::empty());
        }
    } else {
        assert(rel.take(i).last() == rel[i - 1]);
    }
    assert(child_of(parent_of(rel), name_of(rel)) =~= rel);
}

proof fn lemma_last_slash_found(t: Seq<char>)
    requires
        exists|k: int| 0 <= k < t.len() && t[k] == '/',
    ensures
        0 <= last_slash(t) < t.len(),
        t[last_slash(t)] == '/',
    decreases t.len(),
{
    if t.last() != '/' {
        let k = choose|k: int| 0 <= k < t.len() && t[k] == '/';
        assert(t.drop_last()[k] == '/');
        lemma_last_slash_found(t.drop_last());
    }
}

/// Once a directory was listed, each of its entries is known, under the number
/// of one of the entries with that name.
pub proof fn law_listed_children_are_known(
    known: Map<Seq<char>, u64>,
    dir: Seq<char>,
    cs: Seq<Child>,
    i: int,
)
    requires
        0 <= i < cs.len(),
    ensures
        ({
            let after = with_children(known, dir, cs);
            let path = child_of(dir, cs[i].name@);
            after.contains_key(path) && exists|j: int|
                0 <= j < cs.len() && (#[trigger] cs[j]).name@ == cs[i].name@ && cs[j].oid
                    == after[path]
        }),
    decreases cs.len(),
{
    let last = cs.len() - 1;
    let path = child_of(dir, cs[i].name@);
    if cs[last].name@ == cs[i].name@ {
        assert(with_children(known, dir, cs)[path] == cs[last].oid);
    } else {
        assert(child_of(dir, cs[last].name@) != path) by {
            let front = without_slashes_behind(dir).push('/');
            let n = front.len() as int;
            assert((front + cs[last].name@).skip(n) =~= cs[last].name@);
            assert((front + cs[i].name@).skip(n) =~= cs[i].name@);
        }
        law_listed_children_are_known(known, dir, cs.drop_last(), i);
        let after = with_children(known, dir, cs.drop_last());
        let j = choose|j: int|
            0 <= j < cs.drop_last().len() && (#[trigger] cs.drop_last()[j]).name@ == cs[i].name@
                && cs.drop_last()[j].oid == after[path];
        assert(cs[j].oid == after[path]);
    }
}

/// What was known before a directory was listed stays known, and unchanged
/// unless it is one of the entries.
pub proof fn law_listing_keeps_the_rest(
    known: Map<Seq<char>, u64>,
    dir: Seq<char>,
    cs: Seq<Child>,
    path: Seq<char>,
)
    requires
        known.contains_key(path),
    ensures
        with_children(known, dir, cs).contains_key(path),
        (forall|i: int| 0 <= i < cs.len() ==> child_of(dir, (#[trigger] cs[i]).name@) != path)
            ==> with_children(known, dir, cs)[path] == known[path],
    decreases cs.len(),
{
    if cs.len() > 0 {
        law_listing_keeps_the_rest(known, dir, cs.drop_last(), path);
        if forall|i: int| 0 <= i < cs.len() ==> child_of(dir, (#[trigger] cs[i]).name@) != path {
            assert forall|i: int| 0 <= i < cs.drop_last().len() implies child_of(
                dir,
                (#[trigger] cs.drop_last()[i]).name@,
            ) != path by {
                assert(cs.drop_last()[i] == cs[i]);
            }
        }
    }
}

/// Paths on the volume of absolute paths.
pub open spec fn all_on_volume(mount: Seq<u8>, roots: Seq<Vec<u8>>) -> Seq<Seq<char>> {
    roots.map_values(|r: Vec<u8>| on_volume(mount, r@))
}

/// The paths on the volume of the roots of a walk, in order and each once.
pub fn prewalk_roots(mount: &[u8], roots: &[Vec<u8>]) -> (r: Vec<String>)
    ensures
        rising(r@),
        forall|t: Seq<char>| #[trigger]
            string_views(r@).contains(t) <==> all_on_volume(mount@, roots@).contains(t),
{
    let mut names: Vec<String> = Vec::new();
    let mut i: usize = 0;
    while i < roots.len()
        invariant
            i <= roots@.len(),
            names@.len() == i,
            forall|k: int|
                0 <= k < i ==> (#[trigger] names@[k])@ == on_volume(mount@, roots@[k]@),
        decreases roots@.len() - i,
    {
        names.push(volume_path(mount, roots[i].as_slice()));
        i = i + 1;
    }
    assert(string_views(names@) =~= all_on_volume(mount@, roots@));
    sorted_names(&names)
}

/// The raw device of the whole disk that a device is a part of: that of
/// `/dev/disk5s1` is `/dev/rdisk5`.
pub open spec fn raw_device(t: Seq<char>) -> Result<Seq<char>, DeviceError> {
    match after_prefix(t, "/dev/disk"@) {
        None => Err(DeviceError::UnexpectedPath),
        Some(base) => if digit_run(base) == 0 {
            Err(DeviceError::NoDiskNumber)
        } else {
            Ok("/dev/rdisk"@ + base.take(digit_run(base) as int))
        },
    }
}

pub fn whole_disk_raw(bsd: &[u8]) -> (r: Result<String, DeviceError>)
    ensures
        match raw_device(lossy_text(bsd@)) {
            Ok(d) => r is Ok && r->Ok_0@ == d,
            Err(e) => r is Err && r->Err_0 == e,
        },
{
    let text = lossy(bsd);
    let t = to_chars(text.as_str());
    let prefix = to_chars("/dev/disk");
    match strip_prefix(t.as_slice(), prefix.as_slice()) {
        None => Err(DeviceError::UnexpectedPath),
        Some(base) => {
            assert(base@.skip(0) =~= base@);
            let n: usize = leading_digits(base.as_slice(), 0);
            if n == 0 {
                return Err(DeviceError::NoDiskNumber);
            }
            let digits = part(base.as_slice(), 0, n);
            assert(digits@ =~= base@.take(n as int));
            let digits_text = from_chars(digits.as_slice());
            Ok(concat("/dev/rdisk", digits_text.as_str()))
        },
    }
}

/// Counts and times, in nanoseconds, of the reads so far. The sums wrap
/// around.
#[derive(Copy, Clone, Debug, PartialEq, Eq, Structural)]
pub struct ReadStats {
    pub files: u64,
    pub total_bytes: u64,
    pub pool_wait_ns: u64,
    pub resolve_ns: u64,
    pub read_ns: u64,
    pub total_ns: u64,
}

/// A sum as a counter keeps it.
pub open spec fn wrapped(a: u64, b: u64) -> u64 {
    ((a + b) % 0x1_0000_0000_0000_0000) as u64
}

fn wrapping_sum(a: u64, b: u64) -> (r: u64)
    ensures
        r == wrapped(a, b),
{
    let r: u64 = a.wrapping_add(b);
    r
}

impl ReadStats {
    pub fn new() -> (s: Self)
        ensures
            s == (ReadStats {
                files: 0,
                total_bytes: 0,
                pool_wait_ns: 0,
                resolve_ns: 0,
                read_ns: 0,
                total_ns: 0,
            }),
    {
        ReadStats {
            files: 0,
            total_bytes: 0,
            pool_wait_ns: 0,
            resolve_ns: 0,
            read_ns: 0,
            total_ns: 0,
        }
    }

    /// Counts one read.
    pub fn record(&mut self, bytes: u64, pool_wait: u64, resolve: u64, read: u64, total: u64)
        ensures
            *final(self) == (ReadStats {
                files: wrapped(old(self).files, 1),
                total_bytes: wrapped(old(self).total_bytes, bytes),
                pool_wait_ns: wrapped(old(self).pool_wait_ns, pool_wait),
                resolve_ns: wrapped(old(self).resolve_ns, resolve),
                read_ns: wrapped(old(self).read_ns, read),
                total_ns: wrapped(old(self).total_ns, total),
            }),
    {
        self.files = wrapping_sum(self.files, 1);
        self.total_bytes = wrapping_sum(self.total_bytes, bytes);
        self.pool_wait_ns = wrapping_sum(self.pool_wait_ns, pool_wait);
        self.resolve_ns = wrapping_sum(self.resolve_ns, resolve);
        self.read_ns = wrapping_sum(self.read_ns, read);
        self.total_ns = wrapping_sum(self.total_ns, total);
    }

    /// The average of a sum of times, in microseconds.
    pub open spec fn average(self, ns: u64) -> nat {
        (ns as nat / 1000) / self.files as nat
    }

    /// The report on all reads.
    pub open spec fn report_text(self) -> Seq<char> {
        "tzip: --raw-block reader stats: "@ + decimal(self.files as nat) + " files, "@ + decimal(
            self.total_bytes as nat / 1_048_576,
        ) + " MB\n\tavg per file: pool_wait="@ + decimal(self.average(self.pool_wait_ns))
            + "\u{3bc}s resolve="@ + decimal(self.average(self.resolve_ns)) + "\u{3bc}s read="@
            + decimal(self.average(self.read_ns)) + "\u{3bc}s total="@ + decimal(
            self.average(self.total_ns),
        ) + "\u{3bc}s\n\tsum across threads: pool_wait="@ + decimal(
            self.pool_wait_ns as nat / 1000 / 1_000_000,
        ) + "s resolve="@ + decimal(self.resolve_ns as nat / 1000 / 1_000_000) + "s read="@
            + decimal(self.read_ns as nat / 1000 / 1_000_000) + "s total="@ + decimal(
            self.total_ns as nat / 1000 / 1_000_000,
        ) + "s"@
    }

    /// The report on all reads, if there were any.
    pub fn report(&self) -> (r: Option<String>)
        ensures
            r is Some <==> self.files != 0,
            r is Some ==> r->0@ == self.report_text(),
    {
        let n: u64 = self.files;
        if n == 0 {
            return None;
        }
        let pool_us: u64 = self.pool_wait_ns / 1000;
        let resolve_us: u64 = self.resolve_ns / 1000;
        let read_us: u64 = self.read_ns / 1000;
        let total_us: u64 = self.total_ns / 1000;
        let mut s = "tzip: --raw-block reader stats: ".to_owned();
        add_number(&mut s, n);
        s.append(" files, ");
        add_number(&mut s, self.total_bytes / 1_048_576);
        s.append(" MB\n\tavg per file: pool_wait=");
        add_number(&mut s, pool_us / n);
        s.append("\u{3bc}s resolve=");
        add_number(&mut s, resolve_us / n);
        s.append("\u{3bc}s read=");
        add_number(&mut s, read_us / n);
        s.append("\u{3bc}s total=");
        add_number(&mut s, total_us / n);
        s.append("\u{3bc}s\n\tsum across threads: pool_wait=");
        add_number(&mut s, pool_us / 1_000_000);
        s.append("s resolve=");
        add_number(&mut s, resolve_us / 1_000_000);
        s.append("s read=");
        add_number(&mut s, read_us / 1_000_000);
        s.append("s total=");
        add_number(&mut s, total_us / 1_000_000);
        s.append("s");
        Some(s)
    }
}

/// A path on the volume, character by character: a slash, and the text of the
/// path seen from the mount point, from its first character on that is no
/// slash. `k` is where that character stands.
pub proof fn law_volume_path_is_the_path(mount: Seq<u8>, path: Seq<u8>, k: int)
    requires
        ({
            let t = lossy_text(relative_path(path, mount));
            &&& 0 <= k <= t.len()
            &&& forall|i: int| 0 <= i < k ==> #[trigger] t[i] == '/'
            &&& k == t.len() || t[k] != '/'
        }),
    ensures
        ({
            let t = lossy_text(relative_path(path, mount));
            let v = on_volume(mount, path);
            &&& v.len() == 1 + t.len() - k
            &&& v[0] == '/'
            &&& forall|i: int| k <= i < t.len() ==> v[1 + i - k] == #[trigger] t[i]
        }),
{
    lemma_without_root_from(lossy_text(relative_path(path, mount)), k);
}

/// Paths that differ stay apart on the volume, where the mount point leaves
/// neither a slash in front.
pub proof fn law_volume_paths_tell_paths_apart(mount: Seq<u8>, a: Seq<u8>, b: Seq<u8>)
    requires
        ({
            let (s, t) = (lossy_text(relative_path(a, mount)), lossy_text(relative_path(b, mount)));
            &&& s.len() == 0 || s[0] != '/'
            &&& t.len() == 0 || t[0] != '/'
        }),
        on_volume(mount, a) == on_volume(mount, b),
    ensures
        lossy_text(relative_path(a, mount)) == lossy_text(relative_path(b, mount)),
{
    let (s, t) = (lossy_text(relative_path(a, mount)), lossy_text(relative_path(b, mount)));
    law_volume_path_is_the_path(mount, a, 0);
    law_volume_path_is_the_path(mount, b, 0);
    let (v, w) = (on_volume(mount, a), on_volume(mount, b));
    assert forall|i: int| 0 <= i < s.len() implies s[i] == t[i] by {
        assert(v[1 + i - 0] == s[i]);
        assert(w[1 + i - 0] == t[i]);
    }
    assert(s =~= t);
}

/// A path is taken apart at its last slash, which stands at `i`.
pub proof fn law_split_at_the_last_slash(rel: Seq<char>, i: int)
    requires
        0 <= i < rel.len(),
        rel[i] == '/',
        forall|j: int| i < j < rel.len() ==> #[trigger] rel[j] != '/',
    ensures
        name_of(rel) == rel.subrange(i + 1, rel.len() as int),
        i == 0 ==> parent_of(rel) == seq!['/'],
        i > 0 ==> parent_of(rel) == rel.subrange(0, i),
{
    lemma_last_slash(rel, i);
    assert(rel.take(i) =~= rel.subrange(0, i));
}

/// A path without a slash is a name in the root.
pub proof fn law_split_without_a_slash(rel: Seq<char>)
    requires
        forall|j: int| 0 <= j < rel.len() ==> #[trigger] rel[j] != '/',
    ensures
        name_of(rel) == rel,
        parent_of(rel) == seq!['/'],
{
    lemma_last_slash(rel, -1);
    assert(rel.skip(0) =~= rel);
}

/// The path of an entry: the directory up to the slashes at its end, which
/// start at `k`, then one slash and the name.
pub proof fn law_child_path_has_one_slash(dir: Seq<char>, name: Seq<char>, k: int)
    requires
        0 <= k <= dir.len(),
        k == 0 || dir[k - 1] != '/',
        forall|j: int| k <= j < dir.len() ==> #[trigger] dir[j] == '/',
    ensures
        child_of(dir, name) == dir.subrange(0, k) + seq!['/'] + name,
{
    lemma_slashes_behind(dir, k);
    assert(dir.subrange(0, k).push('/') + name =~= dir.subrange(0, k) + seq!['/'] + name);
}

proof fn lemma_slashes_behind(t: Seq<char>, k: int)
    requires
        0 <= k <= t.len(),
        k == 0 || t[k - 1] != '/',
        forall|j: int| k <= j < t.len() ==> #[trigger] t[j] == '/',
    ensures
        without_slashes_behind(t) == t.subrange(0, k),
    decreases t.len(),
{
    if k < t.len() {
        assert(t[t.len() - 1] == '/');
        let u = t.drop_last();
        lemma_slashes_behind(u, k);
        assert(u.subrange(0, k) =~= t.subrange(0, k));
    } else {
        assert(t.subrange(0, k) =~= t);
    }
}

/// Every entry of a directory that is not itself a directory and that no
/// pattern leaves out is listed, whatever its name looks like, and nothing else
/// is. `chosen` are their places in the directory.
pub proof fn law_every_file_is_listed(
    cs: Seq<Child>,
    dir: Seq<u8>,
    prefix: Seq<char>,
    exclude: Seq<String>,
) -> (chosen: Seq<int>)
    ensures
        ({
            let fs = files_of(cs, dir, prefix, exclude);
            let shown = |c: Child|
                if prefix.len() == 0 {
                    c.name@
                } else {
                    prefix + seq!['/'] + c.name@
                };
            &&& chosen.len() == fs.len()
            &&& forall|k: int|
                0 <= k < fs.len() ==> {
                    let c = cs[#[trigger] chosen[k]];
                    &&& 0 <= chosen[k] < cs.len()
                    &&& fs[k].0 == with_name(dir, encode_utf8(c.name@))
                    &&& fs[k].1 == shown(c)
                }
            &&& forall|k: int, l: int|
                0 <= k < l < fs.len() ==> #[trigger] chosen[k] < #[trigger] chosen[l]
            &&& forall|j: int|
                0 <= j < cs.len() ==> (chosen.contains(j) <==> (#[trigger] cs[j]).kind
                    != EntryKind::Directory && !excluded(shown(cs[j]), exclude))
        }),
    decreases cs.len(),
{
    if cs.len() == 0 {
        Seq::empty()
    } else {
        let c = cs.last();
        let before = law_every_file_is_listed(cs.drop_last(), dir, prefix, exclude);
        assert(prefix.push('/') + c.name@ =~= prefix + seq!['/'] + c.name@);
        let taken = is_taken(c, prefix, exclude);
        let chosen = if taken {
            before.push(cs.len() - 1)
        } else {
            before
        };
        assert forall|j: int| 0 <= j < cs.len() implies (chosen.contains(j) <==> {
            let c = #[trigger] cs[j];
            let t = if prefix.len() == 0 {
                c.name@
            } else {
                prefix + seq!['/'] + c.name@
            };
            c.kind != EntryKind::Directory && !excluded(t, exclude)
        }) by {
            lemma_contains_before(before, chosen, cs.len() - 1, taken, j);
            if j < cs.len() - 1 {
                assert(cs.drop_last()[j] == cs[j]);
            }
        }
        assert forall|k: int| 0 <= k < chosen.len() implies 0 <= #[trigger] chosen[k] < cs.len() by {
            if k < before.len() {
                assert(chosen[k] == before[k]);
            }
        }
        assert forall|k: int| 0 <= k < before.len() implies cs[#[trigger] before[k]]
            == cs.drop_last()[before[k]] by {}
        chosen
    }
}

/// Every directory among the entries of a directory is entered, and nothing
/// else is: `chosen` are their places. What a walk goes on with are their
/// paths, their object numbers and their prefixes.
pub proof fn law_every_directory_is_entered(
    cs: Seq<Child>,
    dir: Seq<u8>,
    rel: Seq<char>,
    prefix: Seq<char>,
) -> (chosen: Seq<int>)
    ensures
        ({
            let ds = dirs_of(cs, dir, rel, prefix);
            let ps = dir_paths(cs, rel);
            &&& chosen.len() == ds.len()
            &&& chosen.len() == ps.len()
            &&& forall|k: int|
                0 <= k < ds.len() ==> {
                    let c = cs[#[trigger] chosen[k]];
                    &&& 0 <= chosen[k] < cs.len()
                    &&& ds[k].0 == with_name(dir, encode_utf8(c.name@))
                    &&& ds[k].1 == child_of(rel, c.name@)
                    &&& ds[k].2 == c.oid
                    &&& prefix.len() == 0 ==> ds[k].3 == c.name@
                    &&& prefix.len() > 0 ==> ds[k].3 == prefix + seq!['/'] + c.name@
                    &&& ps[k] == child_of(rel, c.name@)
                }
            &&& forall|k: int, l: int|
                0 <= k < l < ds.len() ==> #[trigger] chosen[k] < #[trigger] chosen[l]
            &&& forall|j: int|
                0 <= j < cs.len() ==> (chosen.contains(j) <==> (#[trigger] cs[j]).kind
                    == EntryKind::Directory)
        }),
    decreases cs.len(),
{
    if cs.len() == 0 {
        Seq::empty()
    } else {
        let c = cs.last();
        let before = law_every_directory_is_entered(cs.drop_last(), dir, rel, prefix);
        assert(prefix.push('/') + c.name@ =~= prefix + seq!['/'] + c.name@);
        let taken = c.kind == EntryKind::Directory;
        let chosen = if taken {
            before.push(cs.len() - 1)
        } else {
            before
        };
        assert forall|j: int| 0 <= j < cs.len() implies (chosen.contains(j) <==> (
        #[trigger] cs[j]).kind == EntryKind::Directory) by {
            lemma_contains_before(before, chosen, cs.len() - 1, taken, j);
            if j < cs.len() - 1 {
                assert(cs.drop_last()[j] == cs[j]);
            }
        }
        assert forall|k: int| 0 <= k < chosen.len() implies 0 <= #[trigger] chosen[k] < cs.len() by {
            if k < before.len() {
                assert(chosen[k] == before[k]);
            }
        }
        assert forall|k: int| 0 <= k < before.len() implies cs[#[trigger] before[k]]
            == cs.drop_last()[before[k]] by {}
        chosen
    }
}

/// What is told of the items and the directories of a walk, one by one.
pub proof fn law_walk_views(files: Seq<WorkItem>, dirs: Seq<SubDir>)
    ensures
        file_views(files).len() == files.len(),
        forall|i: int|
            0 <= i < files.len() ==> (#[trigger] file_views(files)[i]).0 == files[i].path@
                && file_views(files)[i].1 == files[i].name_in_archive@,
        dir_views(dirs).len() == dirs.len(),
        forall|i: int|
            0 <= i < dirs.len() ==> (#[trigger] dir_views(dirs)[i]).0 == dirs[i].abs@ && dir_views(
                dirs,
            )[i].1 == dirs[i].rel@ && dir_views(dirs)[i].2 == dirs[i].oid && dir_views(dirs)[i].3
                == dirs[i].prefix@,
{
}

/// The range of object numbers to scan is that from the least to the greatest
/// among what is not a directory, where there is such an entry and the range is
/// at most 64 wide, or at most 16 for each of them; `many` is how many there
/// are.
pub proof fn law_scan_range_spans_the_files(cs: Seq<Child>, lo: u64, hi: u64) -> (many: nat)
    requires
        forall|i: int|
            0 <= i < cs.len() && (#[trigger] cs[i]).kind != EntryKind::Directory ==> lo <= cs[i].oid
                <= hi,
        exists|i: int|
            0 <= i < cs.len() && (#[trigger] cs[i]).kind != EntryKind::Directory && cs[i].oid == lo,
        exists|i: int|
            0 <= i < cs.len() && (#[trigger] cs[i]).kind != EntryKind::Directory && cs[i].oid == hi,
    ensures
        many == cs.filter(|c: Child| c.kind != EntryKind::Directory).len(),
        many > 0,
        hi - lo <= 64 || hi - lo <= 16 * many ==> scan_range(cs) == Some((lo, hi)),
        hi - lo > 64 && hi - lo > 16 * many ==> scan_range(cs) is None,
{
    lemma_span_bounds(cs);
    lemma_span_count(cs);
    let i = choose|i: int|
        0 <= i < cs.len() && (#[trigger] cs[i]).kind != EntryKind::Directory && cs[i].oid == lo;
    let j = choose|j: int|
        0 <= j < cs.len() && (#[trigger] cs[j]).kind != EntryKind::Directory && cs[j].oid == hi;
    assert(oid_span(cs).1 <= cs[i].oid);
    assert(oid_span(cs).2 >= cs[j].oid);
    oid_span(cs).0
}

/// A directory that holds nothing but directories has no range to scan.
pub proof fn law_no_files_no_scan(cs: Seq<Child>)
    requires
        forall|i: int| 0 <= i < cs.len() ==> (#[trigger] cs[i]).kind == EntryKind::Directory,
    ensures
        scan_range(cs) is None,
    decreases cs.len(),
{
    if cs.len() > 0 {
        let d = cs.drop_last();
        assert forall|i: int| 0 <= i < d.len() implies (#[trigger] d[i]).kind
            == EntryKind::Directory by {
            assert(d[i] == cs[i]);
        }
        law_no_files_no_scan(d);
        assert(cs[cs.len() - 1].kind == EntryKind::Directory);
    }
}

proof fn lemma_span_count(cs: Seq<Child>)
    ensures
        oid_span(cs).0 == cs.filter(|c: Child| c.kind != EntryKind::Directory).len(),
    decreases cs.len(),
{
    reveal(Seq::filter);
    if cs.len() > 0 {
        lemma_span_count(cs.drop_last());
    }
}

proof fn lemma_span_bounds(cs: Seq<Child>)
    ensures
        ({
            let (n, lo, hi) = oid_span(cs);
            &&& forall|i: int|
                0 <= i < cs.len() && (#[trigger] cs[i]).kind != EntryKind::Directory ==> lo
                    <= cs[i].oid <= hi && n > 0
            &&& n > 0 ==> exists|i: int|
                0 <= i < cs.len() && (#[trigger] cs[i]).kind != EntryKind::Directory && cs[i].oid
                    == lo
            &&& n > 0 ==> exists|i: int|
                0 <= i < cs.len() && (#[trigger] cs[i]).kind != EntryKind::Directory && cs[i].oid
                    == hi
        }),
    decreases cs.len(),
{
    if cs.len() > 0 {
        let d = cs.drop_last();
        let last = cs.len() - 1;
        lemma_span_bounds(d);
        lemma_span_empty(d);
        let (n, lo, hi) = oid_span(cs);
        let (m, l, h) = oid_span(d);
        assert forall|i: int|
            0 <= i < cs.len() && (#[trigger] cs[i]).kind != EntryKind::Directory implies lo
            <= cs[i].oid <= hi && n > 0 by {
            if i < last {
                assert(d[i] == cs[i]);
            }
        }
        if m > 0 {
            let i = choose|i: int|
                0 <= i < d.len() && (#[trigger] d[i]).kind != EntryKind::Directory && d[i].oid == l;
            let j = choose|j: int|
                0 <= j < d.len() && (#[trigger] d[j]).kind != EntryKind::Directory && d[j].oid == h;
            assert(cs[i] == d[i] && cs[j] == d[j]);
            assert(lo == l || lo == cs[last].oid);
            assert(hi == h || hi == cs[last].oid);
        }
        if n > 0 && m == 0 {
            assert(cs[last].kind != EntryKind::Directory);
            assert(lo == cs[last].oid && hi == cs[last].oid);
        }
    }
}

/// Of entries with the same name the last one is known, and a path becomes
/// known by a listing only where one of the entries has it.
pub proof fn law_last_listed_is_known(
    known: Map<Seq<char>, u64>,
    dir: Seq<char>,
    cs: Seq<Child>,
    path: Seq<char>,
    i: int,
)
    ensures
        ({
            let after = with_children(known, dir, cs);
            &&& 0 <= i < cs.len() && child_of(dir, cs[i].name@) == path && (forall|j: int|
                i < j < cs.len() ==> child_of(dir, (#[trigger] cs[j]).name@) != path)
                ==> after.contains_key(path) && after[path] == cs[i].oid
            &&& (forall|j: int|
                0 <= j < cs.len() ==> child_of(dir, (#[trigger] cs[j]).name@) != path) ==> (
            after.contains_key(path) <==> known.contains_key(path)) && (known.contains_key(path)
                ==> after[path] == known[path])
        }),
    decreases cs.len(),
{
    if cs.len() > 0 {
        let d = cs.drop_last();
        law_last_listed_is_known(known, dir, d, path, i);
        assert forall|j: int| 0 <= j < d.len() implies #[trigger] d[j] == cs[j] by {}
        assert(cs.last() == cs[cs.len() - 1]);
        if 0 <= i < d.len() && child_of(dir, cs[i].name@) == path && (forall|j: int|
            i < j < cs.len() ==> child_of(dir, (#[trigger] cs[j]).name@) != path) {
            assert forall|j: int| i < j < d.len() implies child_of(dir, (#[trigger] d[j]).name@)
                != path by {
                assert(d[j] == cs[j]);
            }
            assert(child_of(dir, cs[cs.len() - 1].name@) != path);
        }
        if forall|j: int| 0 <= j < cs.len() ==> child_of(dir, (#[trigger] cs[j]).name@) != path {
            assert forall|j: int| 0 <= j < d.len() implies child_of(dir, (#[trigger] d[j]).name@)
                != path by {
                assert(d[j] == cs[j]);
            }
        }
    }
}

/// The paths of several roots on the volume, one by one.
pub proof fn law_roots_on_the_volume(mount: Seq<u8>, roots: Seq<Vec<u8>>)
    ensures
        all_on_volume(mount, roots).len() == roots.len(),
        forall|i: int|
            0 <= i < roots.len() ==> #[trigger] all_on_volume(mount, roots)[i] == on_volume(
                mount,
                roots[i]@,
            ),
{
}

/// The raw device of a disk is `/dev/rdisk` and the number behind `/dev/disk`,
/// as far as it has digits; a path without the one or the other is refused.
pub proof fn law_raw_device_has_the_disks_number(t: Seq<char>, number: Seq<char>, rest: Seq<char>)
    requires
        forall|i: int| 0 <= i < number.len() ==> '0' <= #[trigger] number[i] <= '9',
        rest.len() == 0 || !('0' <= rest[0] <= '9'),
    ensures
        t == "/dev/disk"@ + number + rest && number.len() > 0 ==> raw_device(t) == Ok::<
            Seq<char>,
            DeviceError,
        >("/dev/rdisk"@ + number),
        t == "/dev/disk"@ + number + rest && number.len() == 0 ==> raw_device(t) == Err::<
            Seq<char>,
            DeviceError,
        >(DeviceError::NoDiskNumber),
        t.len() < 9 || t.subrange(0, 9) != "/dev/disk"@ ==> raw_device(t) == Err::<
            Seq<char>,
            DeviceError,
        >(DeviceError::UnexpectedPath),
{
    reveal_strlit("/dev/disk");
    reveal_strlit("/dev/rdisk");
    let front = "/dev/disk"@;
    assert(front.len() == 9);
    if t == front + number + rest {
        assert(t.subrange(0, 9) =~= front);
        assert(t.skip(9) =~= number + rest);
        law_digit_run(number, rest);
        assert((number + rest).take(number.len() as int) =~= number);
    }
}

/// A counter goes up by what is added to it, and starts from zero again where
/// it runs over.
pub proof fn law_counters_wrap(a: u64, b: u64)
    ensures
        a + b <= u64::MAX ==> wrapped(a, b) == a + b,
        a + b > u64::MAX ==> wrapped(a, b) == a + b - 0x1_0000_0000_0000_0000,
{
}

/// The report on all reads: their number and size, the average time of each
/// part of a read in microseconds, and the sums in seconds; every number under
/// its own name.
pub proof fn law_read_report(s: ReadStats)
    requires
        s.files > 0,
    ensures
        ({
            let micro = |ns: u64| decimal((ns as int / 1000 / s.files as int) as nat) + "\u{3bc}s"@;
            let whole = |ns: u64| decimal((ns as int / 1000 / 1_000_000) as nat) + "s"@;
            s.report_text() == "tzip: --raw-block reader stats: "@ + decimal(s.files as nat)
                + " files, "@ + decimal((s.total_bytes as int / 1_048_576) as nat) + " MB"@
                + "\n\tavg per file: pool_wait="@ + micro(s.pool_wait_ns) + " resolve="@ + micro(
                s.resolve_ns,
            ) + " read="@ + micro(s.read_ns) + " total="@ + micro(s.total_ns)
                + "\n\tsum across threads: pool_wait="@ + whole(s.pool_wait_ns) + " resolve="@
                + whole(s.resolve_ns) + " read="@ + whole(s.read_ns) + " total="@ + whole(s.total_ns)
        }),
{
    let micro = |ns: u64| decimal((ns as int / 1000 / s.files as int) as nat) + "\u{3bc}s"@;
    let whole = |ns: u64| decimal((ns as int / 1000 / 1_000_000) as nat) + "s"@;
    reveal_strlit(" MB");
    reveal_strlit("\n\tavg per file: pool_wait=");
    reveal_strlit(" MB\n\tavg per file: pool_wait=");
    reveal_strlit("\u{3bc}s");
    reveal_strlit("\u{3bc}s resolve=");
    reveal_strlit("\u{3bc}s read=");
    reveal_strlit("\u{3bc}s total=");
    reveal_strlit(" resolve=");
    reveal_strlit(" read=");
    reveal_strlit(" total=");
    reveal_strlit("s");
    reveal_strlit("\n\tsum across threads: pool_wait=");
    reveal_strlit("\u{3bc}s\n\tsum across threads: pool_wait=");
    reveal_strlit("s resolve=");
    reveal_strlit("s read=");
    reveal_strlit("s total=");
    assert(" MB"@ + "\n\tavg per file: pool_wait="@ =~= " MB\n\tavg per file: pool_wait="@);
    assert("\u{3bc}s"@ + " resolve="@ =~= "\u{3bc}s resolve="@);
    assert("\u{3bc}s"@ + " read="@ =~= "\u{3bc}s read="@);
    assert("\u{3bc}s"@ + " total="@ =~= "\u{3bc}s total="@);
    assert("\u{3bc}s"@ + "\n\tsum across threads: pool_wait="@
        =~= "\u{3bc}s\n\tsum across threads: pool_wait="@);
    assert("s"@ + " resolve="@ =~= "s resolve="@);
    assert("s"@ + " read="@ =~= "s read="@);
    assert("s"@ + " total="@ =~= "s total="@);
    assert(s.report_text() =~= "tzip: --raw-block reader stats: "@ + decimal(s.files as nat)
        + " files, "@ + decimal((s.total_bytes as int / 1_048_576) as nat) + " MB"@
        + "\n\tavg per file: pool_wait="@ + micro(s.pool_wait_ns) + " resolve="@ + micro(
        s.resolve_ns,
    ) + " read="@ + micro(s.read_ns) + " total="@ + micro(s.total_ns)
        + "\n\tsum across threads: pool_wait="@ + whole(s.pool_wait_ns) + " resolve="@ + whole(
        s.resolve_ns,
    ) + " read="@ + whole(s.read_ns) + " total="@ + whole(s.total_ns));
}

} // verus!
