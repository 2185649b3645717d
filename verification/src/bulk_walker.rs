//! The directory scan over `getattrlistbulk`, which fills a buffer with many
//! directory entries and their attributes at once.
//!
//! A record of the buffer starts with its length and the set of attributes it
//! holds (five words). Then follow, as far as they are in the set, a reference
//! to the name (the distance to it from the reference itself, and its length
//! with the terminating zero), the type of the object, and, at the next
//! multiple of eight, the size of a file. Numbers are little-endian.

use vstd::prelude::*;

use crate::bytes::{read_u32, read_u64};
#[allow(unused_imports)]
use crate::bytes::{law_le_at_bytes, le_at};
use crate::dostime::unix_to_dos;
#[allow(unused_imports)]
use crate::dostime::{days_from_civil, law_date_unique, valid_date};
use crate::path::{copy_bytes, file_name, join, DOT};
#[allow(unused_imports)]
use crate::path::{byte_views, file_name_of, with_name};
use crate::text::{concat, lossy};
#[allow(unused_imports)]
use crate::text::lossy_text;
use crate::walker::{is_excluded, WorkItem};
#[allow(unused_imports)]
use crate::walker::excluded;

verus! {

/// Types of objects.
pub const VREG: u32 = 1;

pub const VDIR: u32 = 2;

/// Bits of the sets of attributes.
pub const ATTR_CMN_NAME: u32 = 1;

pub const ATTR_CMN_OBJTYPE: u32 = 8;

pub const ATTR_FILE_TOTALSIZE: u32 = 2;

/// A directory entry.
pub struct Record {
    pub name: Vec<u8>,
    pub objtype: u32,
    pub size: u64,
}

/// A directory entry as a plain value.
pub struct Entry {
    pub name: Seq<u8>,
    pub objtype: u32,
    pub size: u64,
}

impl View for Record {
    type V = Entry;

    open spec fn view(&self) -> Entry {
        Entry { name: self.name@, objtype: self.objtype, size: self.size }
    }
}

/// What one buffer adds to a scan.
pub struct Batch {
    pub files: Vec<WorkItem>,
    pub subdirs: Vec<Vec<u8>>,
}

/// A file that the scan found, as a plain value.
pub struct FoundFile {
    pub path: Seq<u8>,
    pub name: Seq<char>,
    pub size: u64,
    pub basename: Seq<u8>,
}

/// The word at `at`.
pub open spec fn word(buf: Seq<u8>, at: int) -> u32 {
    le_at(buf, at, 4) as u32
}

/// The signed number that a word stands for.
pub open spec fn signed(w: u32) -> int {
    if w >= 0x8000_0000 {
        w - 0x1_0000_0000
    } else {
        w as int
    }
}

/// The next multiple of eight.
pub open spec fn aligned(at: int) -> int {
    (at + 7) / 8 * 8
}

/// Where the record at `at` ends; `None` where its first words lie outside the
/// buffer, or its end beyond any address.
pub open spec fn record_end(buf: Seq<u8>, at: int) -> Option<int> {
    if at + 20 > buf.len() || at + word(buf, at) > usize::MAX {
        None
    } else {
        Some(at + word(buf, at))
    }
}

pub open spec fn has_name(buf: Seq<u8>, at: int) -> bool {
    word(buf, at + 4) & ATTR_CMN_NAME != 0
}

pub open spec fn has_type(buf: Seq<u8>, at: int) -> bool {
    word(buf, at + 4) & ATTR_CMN_OBJTYPE != 0
}

pub open spec fn has_size(buf: Seq<u8>, at: int) -> bool {
    word(buf, at + 16) & ATTR_FILE_TOTALSIZE != 0
}

/// Where the name of the record at `at` starts.
pub open spec fn name_start(buf: Seq<u8>, at: int) -> int {
    at + 24 + signed(word(buf, at + 24))
}

/// Length of the name without the terminating zero.
pub open spec fn name_len(buf: Seq<u8>, at: int) -> int {
    if word(buf, at + 28) == 0 {
        0
    } else {
        word(buf, at + 28) - 1
    }
}

/// Whether all that the record at `at` refers to lies in the buffer.
pub open spec fn record_fits(buf: Seq<u8>, at: int) -> bool {
    has_name(buf, at) ==> {
        &&& at + 32 <= buf.len()
        &&& 0 <= name_start(buf, at)
        &&& name_start(buf, at) + name_len(buf, at) <= buf.len()
        &&& has_type(buf, at) ==> {
            &&& at + 36 <= buf.len()
            &&& word(buf, at + 32) == VREG && has_size(buf, at) ==> aligned(at + 36) + 8
                <= buf.len()
        }
    }
}

/// The directory entry of the record at `at`, where it has a name and a type.
pub open spec fn record_entry(buf: Seq<u8>, at: int) -> Option<Entry> {
    if has_name(buf, at) && has_type(buf, at) {
        Some(
            Entry {
                name: buf.subrange(
                    name_start(buf, at),
                    name_start(buf, at) + name_len(buf, at),
                ),
                objtype: word(buf, at + 32),
                size: if word(buf, at + 32) == VREG && has_size(buf, at) {
                    le_at(buf, aligned(at + 36), 8) as u64
                } else {
                    0
                },
            },
        )
    } else {
        None
    }
}

/// The entries of `n` records from `at` on; `None` where one of them reaches
/// out of the buffer.
pub open spec fn entries(buf: Seq<u8>, at: int, n: nat) -> Option<Seq<Entry>>
    decreases n,
{
    if n == 0 {
        Some(Seq::empty())
    } else if record_end(buf, at) is None || !record_fits(buf, at) {
        None
    } else {
        match entries(buf, record_end(buf, at)->0, (n - 1) as nat) {
            None => None,
            Some(rest) => match record_entry(buf, at) {
                Some(e) => Some(seq![e] + rest),
                None => Some(rest),
            },
        }
    }
}

/// The names of the directory itself and of the one above it.
pub open spec fn is_dot_name(name: Seq<u8>) -> bool {
    name == seq![DOT] || name == seq![DOT, DOT]
}

/// `name` below `prefix` in the archive.
pub open spec fn below(prefix: Seq<char>, name: Seq<char>) -> Seq<char> {
    if prefix.len() == 0 {
        name
    } else {
        prefix.push('/') + name
    }
}

/// Whether an entry goes into the archive: a regular file whose name in the
/// archive no pattern excludes.
pub open spec fn is_taken(e: Entry, prefix: Seq<char>, exclude: Seq<String>) -> bool {
    e.objtype == VREG && !is_dot_name(e.name) && !excluded(
        below(prefix, lossy_text(e.name)),
        exclude,
    )
}

/// The file that an entry of a directory stands for.
pub open spec fn found_file(e: Entry, dir: Seq<u8>, prefix: Seq<char>) -> FoundFile {
    FoundFile {
        path: with_name(dir, e.name),
        name: below(prefix, lossy_text(e.name)),
        size: e.size,
        basename: e.name,
    }
}

/// The files among the entries of a directory.
pub open spec fn files_of(
    es: Seq<Entry>,
    dir: Seq<u8>,
    prefix: Seq<char>,
    exclude: Seq<String>,
) -> Seq<FoundFile>
    decreases es.len(),
{
    if es.len() == 0 {
        Seq::empty()
    } else {
        let before = files_of(es.drop_last(), dir, prefix, exclude);
        if is_taken(es.last(), prefix, exclude) {
            before.push(found_file(es.last(), dir, prefix))
        } else {
            before
        }
    }
}

/// The directories among the entries of a directory.
pub open spec fn subdirs_of(es: Seq<Entry>, dir: Seq<u8>) -> Seq<Seq<u8>>
    decreases es.len(),
{
    if es.len() == 0 {
        Seq::empty()
    } else {
        let before = subdirs_of(es.drop_last(), dir);
        if es.last().objtype == VDIR && !is_dot_name(es.last().name) {
            before.push(with_name(dir, es.last().name))
        } else {
            before
        }
    }
}

/// An item as a plain value.
pub open spec fn as_found(w: WorkItem) -> FoundFile {
    FoundFile {
        path: w.path@,
        name: w.name_in_archive@,
        size: w.size,
        basename: w.basename->0@,
    }
}

pub open spec fn all_found(v: Seq<WorkItem>) -> Seq<FoundFile> {
    v.map_values(|w: WorkItem| as_found(w))
}

/// The prefix of what lies in a subdirectory.
pub open spec fn prefix_in(prefix: Seq<char>, sub: Seq<u8>) -> Seq<char> {
    let name = match file_name_of(sub) {
        Some(n) => lossy_text(n),
        None => Seq::empty(),
    };
    if prefix.len() > 0 && name.len() == 0 {
        prefix
    } else {
        below(prefix, name)
    }
}

/// `name` below `prefix` in the archive.
pub fn name_below(prefix: &str, name: &str) -> (r: String)
    ensures
        r@ == below(prefix@, name@),
{
    if prefix.is_empty() {
        name.to_owned()
    } else {
        let front = concat(prefix, "/");
        proof {
            reveal_strlit("/");
            assert(front@ =~= prefix@.push('/'));
        }
        concat(front.as_str(), name)
    }
}

/// The prefix of what lies in the subdirectory `sub`.
pub fn child_prefix(prefix: &str, sub: &[u8]) -> (r: String)
    ensures
        r@ == prefix_in(prefix@, sub@),
{
    let name = match file_name(sub) {
        Some(n) => lossy(n.as_slice()),
        None => String::new(),
    };
    if !prefix.is_empty() && name.as_str().is_empty() {
        prefix.to_owned()
    } else {
        name_below(prefix, name.as_str())
    }
}

/// Reads the record at `at`: where it ends, and its entry if it has name and
/// type. `None` where it reaches out of the buffer.
pub fn read_record(buf: &[u8], at: usize) -> (r: Option<(usize, Option<Record>)>)
    ensures
        record_end(buf@, at as int) is None || !record_fits(buf@, at as int) <==> r is None,
        r matches Some((end, found)) ==> record_end(buf@, at as int) == Some(end as int)
            && match record_entry(buf@, at as int) {
            Some(e) => found is Some && found->0@ == e,
            None => found is None,
        },
{
    let len: usize = buf.len();
    if at > len || len - at < 20 {
        return None;
    }
    let entry_len: u32 = read_u32(buf, at);
    if entry_len as usize > usize::MAX - at {
        return None;
    }
    let end: usize = at + entry_len as usize;
    let common: u32 = read_u32(buf, at + 4);
    let file: u32 = read_u32(buf, at + 16);
    if common & ATTR_CMN_NAME == 0 {
        return Some((end, None));
    }
    if len - at < 32 {
        return None;
    }
    let distance: u32 = read_u32(buf, at + 24);
    let stated: u32 = read_u32(buf, at + 28);
    let count: u32 = if stated == 0 {
        0
    } else {
        stated - 1
    };
    let signed_distance: i128 = if distance >= 0x8000_0000 {
        distance as i128 - 0x1_0000_0000
    } else {
        distance as i128
    };
    let start: i128 = at as i128 + 24 + signed_distance;
    if start < 0 || start + count as i128 > len as i128 {
        return None;
    }
    let name = copy_bytes(buf, start as usize, start as usize + count as usize);
    if common & ATTR_CMN_OBJTYPE == 0 {
        return Some((end, None));
    }
    if len - at < 36 {
        return None;
    }
    let objtype: u32 = read_u32(buf, at + 32);
    let mut size: u64 = 0;
    if objtype == VREG && file & ATTR_FILE_TOTALSIZE != 0 {
        let p: usize = at + 36;
        let pad: usize = if p % 8 == 0 {
            0
        } else {
            8 - p % 8
        };
        assert(p + pad == aligned(at + 36));
        if len - p < pad || len - p - pad < 8 {
            return None;
        }
        size = read_u64(buf, p + pad);
    }
    Some((end, Some(Record { name, objtype, size })))
}

/// Reads `n` records from the start of a buffer.
pub fn read_batch(buf: &[u8], n: usize) -> (r: Option<Vec<Record>>)
    ensures
        match entries(buf@, 0, n as nat) {
            Some(es) => r is Some && r->0@.map_values(|x: Record| x@) == es,
            None => r is None,
        },
{
    let mut out: Vec<Record> = Vec::new();
    let mut at: usize = 0;
    let mut left: usize = n;
    let ghost view = |x: Record| x@;
    assert(out@.map_values(view) =~= Seq::<Entry>::empty());
    assert(entries(buf@, 0, n as nat) is Some ==> Seq::<Entry>::empty() + entries(
        buf@,
        0,
        n as nat,
    )->0 =~= entries(buf@, 0, n as nat)->0);
    while left > 0
        invariant
            left <= n,
            view == (|x: Record| x@),
            entries(buf@, 0, n as nat) == (match entries(buf@, at as int, left as nat) {
                Some(rest) => Some(out@.map_values(view) + rest),
                None => None,
            }),
        decreases left,
    {
        match read_record(buf, at) {
            None => {
                return None;
            },
            Some((end, found)) => {
                let ghost before = out@;
                let ghost rest = entries(buf@, end as int, (left - 1) as nat);
                if let Some(rec) = found {
                    out.push(rec);
                    assert(out@.map_values(view) =~= before.map_values(view).push(rec@));
                    assert(rest is Some ==> before.map_values(view) + (seq![rec@] + rest->0)
                        =~= out@.map_values(view) + rest->0);
                }
                at = end;
            },
        }
        left = left - 1;
    }
    assert(out@.map_values(view) + Seq::<Entry>::empty() =~= out@.map_values(view));
    Some(out)
}

fn dot_name(name: &[u8]) -> (r: bool)
    ensures
        r == is_dot_name(name@),
{
    let r = (name.len() == 1 && name[0] == DOT) || (name.len() == 2 && name[0] == DOT && name[1]
        == DOT);
    assert(name@.len() == 1 && name@[0] == DOT ==> name@ =~= seq![DOT]);
    assert(name@.len() == 2 && name@[0] == DOT && name@[1] == DOT ==> name@ =~= seq![DOT, DOT]);
    r
}

/// The time that stands in the archive for files of this scan: the first of
/// the DOS calendar.
fn no_time() -> (r: (u16, u16))
    ensures
        r == (33u16, 0u16),
{
    let r = unix_to_dos(0);
    proof {
        assert forall|y: int, m: int, d: int| #[trigger]
            valid_date(y, m, d) && days_from_civil(y, m, d) == 0 implies y == 1970 by {
            assert(valid_date(1970, 1, 1));
            reveal_with_fuel(crate::dostime::days_to_month, 2);
            assert(days_from_civil(1970, 1, 1) == 0);
            law_date_unique(y, m, d, 1970, 1, 1);
        }
    }
    r
}

/// Sorts the entries of one directory into files for the archive and
/// directories to descend into.
pub fn sort_out(records: &Vec<Record>, dir: &[u8], prefix: &str, exclude: &[String]) -> (r: Batch)
    ensures
        ({
            let es = records@.map_values(|x: Record| x@);
            &&& all_found(r.files@) == files_of(es, dir@, prefix@, exclude@)
            &&& byte_views(r.subdirs@) == subdirs_of(es, dir@)
        }),
        forall|i: int|
            0 <= i < r.files@.len() ==> (#[trigger] r.files@[i]).mtime == (33u16, 0u16)
                && r.files@[i].basename is Some,
{
    let ghost es = records@.map_values(|x: Record| x@);
    let mut files: Vec<WorkItem> = Vec::new();
    let mut subdirs: Vec<Vec<u8>> = Vec::new();
    let mut i: usize = 0;
    assert(all_found(files@) =~= Seq::<FoundFile>::empty());
    assert(byte_views(subdirs@) =~= Seq::<Seq<u8>>::empty());
    while i < records.len()
        invariant
            i <= records@.len(),
            es == records@.map_values(|x: Record| x@),
            all_found(files@) == files_of(es.take(i as int), dir@, prefix@, exclude@),
            byte_views(subdirs@) == subdirs_of(es.take(i as int), dir@),
            forall|k: int|
                0 <= k < files@.len() ==> (#[trigger] files@[k]).mtime == (33u16, 0u16)
                    && files@[k].basename is Some,
        decreases records@.len() - i,
    {
        let rec = &records[i];
        let ghost e = rec@;
        assert(es.take(i + 1).drop_last() =~= es.take(i as int));
        assert(es.take(i + 1).last() == e);
        let ghost files0 = files@;
        let ghost subdirs0 = subdirs@;
        if !dot_name(rec.name.as_slice()) {
            if rec.objtype == VREG {
                let own = lossy(rec.name.as_slice());
                let name = name_below(prefix, own.as_str());
                if !is_excluded(name.as_str(), exclude) {
                    let base = copy_bytes(rec.name.as_slice(), 0, rec.name.len());
                    assert(base@ =~= rec.name@);
                    let item = WorkItem {
                        path: join(dir, rec.name.as_slice()),
                        name_in_archive: name,
                        size: rec.size,
                        mtime: no_time(),
                        basename: Some(base),
                    };
                    files.push(item);
                    assert(as_found(item) == found_file(e, dir@, prefix@));
                    assert(all_found(files@) =~= all_found(files0).push(as_found(item)));
                }
            } else if rec.objtype == VDIR {
                let sub = join(dir, rec.name.as_slice());
                subdirs.push(sub);
                assert(byte_views(subdirs@) =~= byte_views(subdirs0).push(sub@));
            }
        }
        i = i + 1;
    }
    assert(es.take(es.len() as int) =~= es);
    Batch { files, subdirs }
}

/// What a buffer with `n` records adds to the scan of a directory; `None`
/// where a record reaches out of the buffer.
pub fn parse_batch(
    buf: &[u8],
    n: usize,
    dir: &[u8],
    prefix: &str,
    exclude: &[String],
) -> (r: Option<Batch>)
    ensures
        match entries(buf@, 0, n as nat) {
            Some(es) => {
                &&& r is Some
                &&& all_found(r->0.files@) == files_of(es, dir@, prefix@, exclude@)
                &&& byte_views(r->0.subdirs@) == subdirs_of(es, dir@)
                &&& forall|i: int|
                    0 <= i < r->0.files@.len() ==> (#[trigger] r->0.files@[i]).mtime == (33u16, 0u16)
                        && r->0.files@[i].basename is Some
            },
            None => r is None,
        },
{
    match read_batch(buf, n) {
        Some(records) => Some(sort_out(&records, dir, prefix, exclude)),
        None => None,
    }
}

/// Of the entries of a directory, every regular file that is neither `.` nor
/// `..` and that no pattern leaves out is found, and nothing else is: whatever
/// its name looks like, and in the order of the directory. `chosen` are their
/// places in the directory.
pub proof fn law_every_file_is_found(
    es: Seq<Entry>,
    dir: Seq<u8>,
    prefix: Seq<char>,
    exclude: Seq<String>,
) -> (chosen: Seq<int>)
    ensures
        ({
            let fs = files_of(es, dir, prefix, exclude);
            let shown = |e: Entry|
                if prefix.len() == 0 {
                    lossy_text(e.name)
                } else {
                    prefix + seq!['/'] + lossy_text(e.name)
                };
            &&& chosen.len() == fs.len()
            &&& forall|k: int|
                0 <= k < fs.len() ==> {
                    let e = es[#[trigger] chosen[k]];
                    &&& 0 <= chosen[k] < es.len()
                    &&& fs[k].path == with_name(dir, e.name)
                    &&& fs[k].name == shown(e)
                    &&& fs[k].size == e.size
                    &&& fs[k].basename == e.name
                }
            &&& forall|k: int, l: int|
                0 <= k < l < fs.len() ==> #[trigger] chosen[k] < #[trigger] chosen[l]
            &&& forall|j: int|
                0 <= j < es.len() ==> (chosen.contains(j) <==> {
                    let e = #[trigger] es[j];
                    &&& e.objtype == 1
                    &&& e.name != seq![46u8]
                    &&& e.name != seq![46u8, 46u8]
                    &&& !excluded(shown(e), exclude)
                })
        }),
    decreases es.len(),
{
    if es.len() == 0 {
        Seq::empty()
    } else {
        let e = es.last();
        let before = law_every_file_is_found(es.drop_last(), dir, prefix, exclude);
        let text = lossy_text(e.name);
        assert(prefix.push('/') + text =~= prefix + seq!['/'] + text);
        let chosen = if is_taken(e, prefix, exclude) {
            before.push(es.len() - 1)
        } else {
            before
        };
        assert forall|j: int| 0 <= j < es.len() implies (chosen.contains(j) <==> {
            let e = #[trigger] es[j];
            let t = if prefix.len() == 0 {
                lossy_text(e.name)
            } else {
                prefix + seq!['/'] + lossy_text(e.name)
            };
            &&& e.objtype == 1
            &&& e.name != seq![46u8]
            &&& e.name != seq![46u8, 46u8]
            &&& !excluded(t, exclude)
        }) by {
            lemma_contains_before(before, chosen, es.len() - 1, is_taken(e, prefix, exclude), j);
            if j < es.len() - 1 {
                assert(es.drop_last()[j] == es[j]);
            }
        }
        assert forall|k: int| 0 <= k < chosen.len() implies 0 <= #[trigger] chosen[k] < es.len() by {
            if k < before.len() {
                assert(chosen[k] == before[k]);
            }
        }
        assert forall|k: int| 0 <= k < before.len() implies es[#[trigger] before[k]]
            == es.drop_last()[before[k]] by {}
        chosen
    }
}

pub(crate) proof fn lemma_contains_before(before: Seq<int>, now: Seq<int>, last: int, taken: bool, j: int)
    requires
        now == (if taken {
            before.push(last)
        } else {
            before
        }),
        forall|k: int| 0 <= k < before.len() ==> #[trigger] before[k] < last,
        j <= last,
    ensures
        j == last ==> now.contains(j) == taken,
        j != last ==> now.contains(j) == before.contains(j),
{
    if taken {
        assert(now[before.len() as int] == last);
        if now.contains(j) && j != last {
            let k = choose|k: int| 0 <= k < now.len() && now[k] == j;
            assert(before[k] == j);
        }
        if before.contains(j) {
            let k = choose|k: int| 0 <= k < before.len() && before[k] == j;
            assert(now[k] == j);
        }
    } else if j == last && now.contains(j) {
        let k = choose|k: int| 0 <= k < now.len() && now[k] == j;
        assert(before[k] < last);
    }
}

/// Every directory among the entries but `.` and `..` is a subdirectory to
/// walk, whatever its name looks like, and nothing else is. `chosen` are their
/// places among the entries.
pub proof fn law_every_subdirectory_is_found(es: Seq<Entry>, dir: Seq<u8>) -> (chosen: Seq<int>)
    ensures
        ({
            let ds = subdirs_of(es, dir);
            &&& chosen.len() == ds.len()
            &&& forall|k: int|
                0 <= k < ds.len() ==> 0 <= #[trigger] chosen[k] < es.len() && ds[k] == with_name(
                    dir,
                    es[chosen[k]].name,
                )
            &&& forall|k: int, l: int|
                0 <= k < l < ds.len() ==> #[trigger] chosen[k] < #[trigger] chosen[l]
            &&& forall|j: int|
                0 <= j < es.len() ==> (chosen.contains(j) <==> (#[trigger] es[j]).objtype == 2
                    && es[j].name != seq![46u8] && es[j].name != seq![46u8, 46u8])
        }),
    decreases es.len(),
{
    if es.len() == 0 {
        Seq::empty()
    } else {
        let e = es.last();
        let before = law_every_subdirectory_is_found(es.drop_last(), dir);
        let taken = e.objtype == VDIR && !is_dot_name(e.name);
        let chosen = if taken {
            before.push(es.len() - 1)
        } else {
            before
        };
        assert forall|j: int| 0 <= j < es.len() implies (chosen.contains(j) <==> (
        #[trigger] es[j]).objtype == 2 && es[j].name != seq![46u8] && es[j].name != seq![
            46u8,
            46u8,
        ]) by {
            lemma_contains_before(before, chosen, es.len() - 1, taken, j);
            if j < es.len() - 1 {
                assert(es.drop_last()[j] == es[j]);
            }
        }
        assert forall|k: int| 0 <= k < chosen.len() implies 0 <= #[trigger] chosen[k] < es.len() by {
            if k < before.len() {
                assert(chosen[k] == before[k]);
            }
        }
        assert forall|k: int| 0 <= k < before.len() implies es[#[trigger] before[k]]
            == es.drop_last()[before[k]] by {}
        chosen
    }
}

/// What is told of the files found, item by item.
pub proof fn law_found_files_are_the_items(v: Seq<WorkItem>)
    ensures
        all_found(v).len() == v.len(),
        forall|i: int|
            0 <= i < v.len() ==> {
                let f = #[trigger] all_found(v)[i];
                &&& f.path == v[i].path@
                &&& f.name == v[i].name_in_archive@
                &&& f.size == v[i].size
                &&& v[i].basename is Some ==> f.basename == v[i].basename->0@
            },
{
}

/// The prefix for a directory one level down: the prefix, a slash and the
/// directory's own name.
pub proof fn law_prefix_grows_by_the_name(prefix: Seq<char>, sub: Seq<u8>, name: Seq<u8>)
    requires
        file_name_of(sub) == Some(name),
    ensures
        prefix.len() == 0 ==> prefix_in(prefix, sub) == lossy_text(name),
        prefix.len() > 0 && lossy_text(name).len() > 0 ==> prefix_in(prefix, sub) == prefix
            + seq!['/'] + lossy_text(name),
        prefix.len() > 0 && lossy_text(name).len() == 0 ==> prefix_in(prefix, sub) == prefix,
{
    assert(prefix.push('/') + lossy_text(name) =~= prefix + seq!['/'] + lossy_text(name));
}

/// A path that ends in no name adds nothing to the prefix.
pub proof fn law_prefix_stays_without_a_name(prefix: Seq<char>, sub: Seq<u8>)
    requires
        file_name_of(sub) is None,
    ensures
        prefix_in(prefix, sub) == prefix,
{
    assert(prefix.len() == 0 ==> prefix =~= Seq::empty());
}

/// A record byte by byte. It starts with its length; the bits for a name and a
/// type are in the word at 4, the bit for a size in the word at 16. The name
/// stands where the word at 24 says, counted from that word, and its length is
/// in the word at 28, with a zero byte behind the name counted in. The type is
/// the word at 32, and the size of a regular file stands at the first multiple
/// of eight behind it.
#[verifier::spinoff_prover]
#[verifier::rlimit(60)]
pub proof fn law_record_fields(buf: Seq<u8>, at: int, z: int)
    requires
        0 <= at,
        at + 20 <= buf.len(),
        z % 8 == 0,
        at + 36 <= z < at + 44,
    ensures
        ({
            let len = le_at(buf, at, 4);
            let common = le_at(buf, at + 4, 4);
            let file = le_at(buf, at + 16, 4);
            let place = le_at(buf, at + 24, 4);
            let chars = le_at(buf, at + 28, 4);
            let kind = le_at(buf, at + 32, 4);
            let named = common % 2 == 1;
            let typed = common / 8 % 2 == 1;
            let sized = file / 2 % 2 == 1;
            let start = if place < 0x8000_0000 {
                at + 24 + place
            } else {
                at + 24 + place - 0x1_0000_0000
            };
            let end = if chars > 0 {
                start + chars - 1
            } else {
                start
            };
            &&& record_end(buf, at) == (if at + len <= usize::MAX {
                Some(at + len)
            } else {
                None
            })
            &&& record_fits(buf, at) <==> (named ==> {
                &&& at + 32 <= buf.len()
                &&& 0 <= start
                &&& end <= buf.len()
                &&& typed ==> at + 36 <= buf.len() && (kind == 1 && sized ==> z + 8 <= buf.len())
            })
            &&& (record_entry(buf, at) is Some <==> named && typed)
            &&& record_fits(buf, at) ==> (record_entry(buf, at) matches Some(e) ==> {
                &&& e.name == buf.subrange(start, end)
                &&& e.objtype == kind
                &&& kind == 1 && sized ==> e.size == le_at(buf, z, 8)
                &&& !(kind == 1 && sized) ==> e.size == 0
            })
        }),
{
    lemma_word(buf, at);
    lemma_word(buf, at + 4);
    lemma_word(buf, at + 16);
    let c = word(buf, at + 4);
    let f = word(buf, at + 16);
    assert(c & 1 != 0 <==> c % 2 == 1) by (bit_vector);
    assert(c & 8 != 0 <==> c / 8 % 2 == 1) by (bit_vector);
    assert(f & 2 != 0 <==> f / 2 % 2 == 1) by (bit_vector);
    assert(aligned(at + 36) == z);
    if at + 32 <= buf.len() {
        lemma_word(buf, at + 24);
        lemma_word(buf, at + 28);
    }
    if at + 36 <= buf.len() {
        lemma_word(buf, at + 32);
    }
    if z + 8 <= buf.len() {
        lemma_long(buf, z);
    }
    if record_fits(buf, at) && record_entry(buf, at) is Some {
        let e = record_entry(buf, at)->0;
        assert(e.objtype == le_at(buf, at + 32, 4));
    }
}

proof fn lemma_long(buf: Seq<u8>, at: int)
    requires
        0 <= at,
        at + 8 <= buf.len(),
    ensures
        le_at(buf, at, 8) <= u64::MAX,
{
    law_le_at_bytes(buf, at);
    lemma_word(buf, at);
    lemma_word(buf, at + 4);
}

proof fn lemma_word(buf: Seq<u8>, at: int)
    requires
        0 <= at,
        at + 4 <= buf.len(),
    ensures
        word(buf, at) == le_at(buf, at, 4),
{
    law_le_at_bytes(buf, at);
}

/// The records of a batch follow each other, each where the one before ends;
/// `places` are where they stand. Every record that has a name and a type
/// gives an entry, in that order; `chosen` are the records that do. The batch
/// is refused where one of its records does not end or does not fit.
pub proof fn law_records_follow(buf: Seq<u8>, at: int, n: nat) -> (r: (Seq<int>, Seq<int>))
    ensures
        ({
            let (places, chosen) = r;
            &&& places.len() > 0 && places[0] == at
            &&& forall|i: int|
                0 <= i < places.len() - 1 ==> record_fits(buf, #[trigger] places[i]) && record_end(
                    buf,
                    places[i],
                ) == Some(places[i + 1])
            &&& entries(buf, at, n) is None ==> places.len() <= n && (record_end(buf, places.last())
                is None || !record_fits(buf, places.last()))
            &&& entries(buf, at, n) matches Some(es) ==> {
                &&& places.len() == n + 1
                &&& chosen.len() == es.len()
                &&& forall|k: int|
                    0 <= k < es.len() ==> 0 <= #[trigger] chosen[k] < n && record_entry(
                        buf,
                        places[chosen[k]],
                    ) == Some(es[k])
                &&& forall|k: int, l: int|
                    0 <= k < l < es.len() ==> #[trigger] chosen[k] < #[trigger] chosen[l]
                &&& forall|i: int|
                    0 <= i < n ==> (chosen.contains(i) <==> record_entry(buf, #[trigger] places[i])
                        is Some)
            }
        }),
    decreases n,
{
    if n == 0 {
        (seq![at], Seq::empty())
    } else if record_end(buf, at) is None || !record_fits(buf, at) {
        (seq![at], Seq::empty())
    } else {
        let next = record_end(buf, at)->0;
        let (ps, cs) = law_records_follow(buf, next, (n - 1) as nat);
        let places = seq![at] + ps;
        let later = Seq::new(cs.len(), |k: int| cs[k] + 1);
        let here = record_entry(buf, at) is Some;
        let chosen = if here {
            seq![0int] + later
        } else {
            later
        };
        assert(places.last() == ps.last());
        assert forall|i: int| 0 <= i < places.len() - 1 implies record_fits(
            buf,
            #[trigger] places[i],
        ) && record_end(buf, places[i]) == Some(places[i + 1]) by {
            if i > 0 {
                assert(places[i] == ps[i - 1] && places[i + 1] == ps[i]);
            }
        }
        if entries(buf, next, (n - 1) as nat) is Some {
            let rest = entries(buf, next, (n - 1) as nat)->0;
            let es = entries(buf, at, n)->0;
            let shift = if here {
                1int
            } else {
                0
            };
            assert forall|k: int| 0 <= k < es.len() implies 0 <= #[trigger] chosen[k] < n
                && record_entry(buf, places[chosen[k]]) == Some(es[k]) by {
                if k >= shift {
                    assert(chosen[k] == cs[k - shift] + 1);
                    assert(places[chosen[k]] == ps[cs[k - shift]]);
                    assert(es[k] == rest[k - shift]);
                }
            }
            assert forall|k: int, l: int| 0 <= k < l < es.len() implies #[trigger] chosen[k]
                < #[trigger] chosen[l] by {
                assert(chosen[l] == cs[l - shift] + 1);
                if k >= shift {
                    assert(chosen[k] == cs[k - shift] + 1);
                }
            }
            assert forall|i: int| 0 <= i < n implies (chosen.contains(i) <==> record_entry(
                buf,
                #[trigger] places[i],
            ) is Some) by {
                if i == 0 {
                    if here {
                        assert(chosen[0] == 0);
                    } else if chosen.contains(0) {
                        let k = choose|k: int| 0 <= k < chosen.len() && chosen[k] == 0;
                        assert(cs[k] == -1);
                    }
                } else {
                    assert(places[i] == ps[i - 1]);
                    if cs.contains(i - 1) {
                        let k = choose|k: int| 0 <= k < cs.len() && cs[k] == i - 1;
                        assert(chosen[k + shift] == i);
                    }
                    if chosen.contains(i) {
                        let k = choose|k: int| 0 <= k < chosen.len() && chosen[k] == i;
                        assert(cs[k - shift] == i - 1);
                    }
                }
            }
        }
        (places, chosen)
    }
}

/// What is told of a record.
pub proof fn law_record_view(r: Record)
    ensures
        r@.name == r.name@,
        r@.objtype == r.objtype,
        r@.size == r.size,
{
}

/// A record that does not have its first twenty bytes does not end.
pub proof fn law_short_records_do_not_end(buf: Seq<u8>, at: int)
    requires
        at + 20 > buf.len(),
    ensures
        record_end(buf, at) is None,
{
}

} // verus!
