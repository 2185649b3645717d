//! Read, compress and encrypt, write: what happens to each file of a run.

use vstd::prelude::*;
use vstd::string::StringExecFns;
#[allow(unused_imports)]
use vstd::utf8::encode_utf8;

use crate::cli::{Method, Options};
use crate::compress::{
    compress, compress_parallel_deflate, method_id, version_needed, CodecError, CompressOut,
    Scratch, PARALLEL_DEFLATE_THRESHOLD,
};
#[allow(unused_imports)]
use crate::compress::{
    block_count, clamped, codec_stream, method_number, parallel_stream, sealed, unpacked,
    version_of,
};
use crate::crc::crc32_of;
#[allow(unused_imports)]
use crate::crc::crc32;
use crate::crypto::{encrypt_ae2_in_place, AE2_OVERHEAD};
#[allow(unused_imports)]
use crate::crypto::{CryptoError, envelope, law_envelope_round_trip, open_envelope, SALT_LEN};
#[allow(unused_imports)]
use crate::layout::law_member_of_entry;
use crate::platform::FsInfo;
#[allow(unused_imports)]
use crate::reader::{extracted, law_archive_round_trip, read_archive};
use crate::reorder::Reorder;
#[allow(unused_imports)]
use crate::reorder::{nothing_yet, takes_in, Waiting};
#[allow(unused_imports)]
use crate::sort::{keys_distinct, law_sort_ignores_arrival_order, sorted_from};
use crate::text::{add_number, contains, eq_ignore_ascii_case, to_ascii_lower, to_chars};
#[allow(unused_imports)]
use crate::text::{ascii_lowered, decimal, occurs, string_views};
use crate::usb_info::{uses_usb, SourceReport};
#[allow(unused_imports)]
use crate::usb_info::{is_apfs, on_usb};
use crate::walker::WorkItem;
#[allow(unused_imports)]
use crate::walker::listing_key;
use crate::zipwriter::{EncodedEntry, ZipError, ZipWriter, METHOD_AES};
#[allow(unused_imports)]
use crate::zipwriter::{archive, central, directory, local_header, locals, Member};

verus! {

/// Least buffer between the archive and its file.
pub const MIN_WRITER_CAPACITY: usize = 4_194_304;

/// Buffer on file systems with large clusters.
pub const EXFAT_WRITER_CAPACITY: usize = 16_777_216;

/// A file on its way to the compressor.
pub struct RawItem<'a> {
    pub index: u64,
    pub item: &'a WorkItem,
    pub bytes: &'a [u8],
}

/// Why a file could not be turned into an entry.
#[derive(Copy, Clone, Debug, PartialEq, Eq, Structural)]
pub enum EncodeError {
    Codec(CodecError),
    /// There is no room for the envelope of an encrypted body.
    TooLarge,
}

/// What a file's bytes are compressed to.
pub open spec fn packed(method: Method, level: u32, bytes: Seq<u8>, parallel: bool) -> Result<
    Seq<u8>,
    CodecError,
> {
    if parallel {
        parallel_stream(level, bytes, block_count(bytes.len()))
    } else {
        sealed(method, codec_stream(method, level, bytes))
    }
}

/// The entry of a file whose final body is `body`.
pub open spec fn entry_with(
    raw: RawItem<'_>,
    method: Method,
    gp_bit1: bool,
    encrypted: bool,
    body: Seq<u8>,
) -> Member {
    Member {
        name: encode_utf8(raw.item.name_in_archive@),
        body,
        uncompressed_size: raw.bytes@.len() as u64,
        crc32: crc32(raw.bytes@),
        method_on_wire: if encrypted {
            METHOD_AES
        } else {
            method_number(method)
        },
        inner_method: method_number(method),
        encrypted,
        gp_bit1,
        version_needed: version_of(method),
        mtime: raw.item.mtime,
    }
}

/// Whether entries are encrypted: a password was given and is not empty.
pub open spec fn encrypts(password: Option<&str>) -> bool {
    password is Some && password->0@.len() != 0
}

/// Whether `e` is the entry of a file that was compressed to `data`. Encrypted,
/// its body is the envelope of `data` under some salt.
pub open spec fn is_entry(
    raw: RawItem<'_>,
    method: Method,
    data: Seq<u8>,
    gp_bit1: bool,
    password: Option<&str>,
    e: EncodedEntry,
) -> bool {
    &&& e.index == raw.index
    &&& e.name@ == raw.item.name_in_archive@
    &&& if encrypts(password) {
        exists|salt: Seq<u8>|
            salt.len() == SALT_LEN && e@ == entry_with(
                raw,
                method,
                gp_bit1,
                true,
                #[trigger] envelope(encode_utf8(password->0@), salt, data),
            )
    } else {
        e@ == entry_with(raw, method, gp_bit1, false, data)
    }
}

/// Compresses one file and, under a password, encrypts it.
pub fn encode_one(
    raw: &RawItem<'_>,
    method: Method,
    level: u32,
    password: Option<&str>,
    scratch: &mut Scratch,
    single_file_parallel: bool,
) -> (r: Result<EncodedEntry, EncodeError>)
    requires
        old(scratch).wf(),
    ensures
        final(scratch).wf(),
        r is Ok ==> packed(method, level, raw.bytes@, single_file_parallel) is Ok && is_entry(
            *raw,
            method,
            packed(method, level, raw.bytes@, single_file_parallel)->Ok_0,
            !single_file_parallel && method == Method::Lzma,
            password,
            r->Ok_0,
        ),
        r matches Err(EncodeError::Codec(e)) ==> (if single_file_parallel {
            packed(method, level, raw.bytes@, true) == Err::<Seq<u8>, _>(e)
        } else {
            e == CodecError::Codec || packed(method, level, raw.bytes@, false) == Err::<Seq<u8>, _>(
                e,
            )
        }),
        r matches Err(EncodeError::TooLarge) ==> encrypts(password) && packed(
            method,
            level,
            raw.bytes@,
            single_file_parallel,
        ) is Ok && packed(method, level, raw.bytes@, single_file_parallel)->Ok_0.len()
            + AE2_OVERHEAD > usize::MAX,
        single_file_parallel && packed(method, level, raw.bytes@, true) is Ok ==> !(
        r matches Err(EncodeError::Codec(_))),
        !single_file_parallel && (method == Method::Store || method == Method::Deflate || method
            == Method::Bzip2) ==> !(r matches Err(EncodeError::Codec(_))),
        r is Ok && (!single_file_parallel || (method == Method::Deflate && raw.bytes@.len() > 0))
            ==> unpacked(
            method,
            packed(method, level, raw.bytes@, single_file_parallel)->Ok_0,
        ) == Some(raw.bytes@) && restores(password, method, r->Ok_0@.body, raw.bytes@),
        single_file_parallel ==> *final(scratch) == *old(scratch),
        !single_file_parallel ==> final(scratch).out@ == Seq::<u8>::empty(),
        !single_file_parallel && method == Method::Deflate ==> final(scratch).deflate is Some
            && final(scratch).deflate_level == clamped(level, 0, 12),
        !single_file_parallel && method != Method::Deflate ==> final(scratch).deflate == old(
            scratch).deflate && final(scratch).deflate_level == old(scratch).deflate_level,
{
    let packed = if single_file_parallel {
        compress_parallel_deflate(raw.bytes, level)
    } else {
        compress(method, level, raw.bytes, scratch)
    };
    match packed {
        Err(e) => Err(EncodeError::Codec(e)),
        Ok(out) => {
            let ghost data = out.data@;
            let ghost gp_bit1 = out.gp_bit1;
            let r = assemble(raw, method, password, out);
            proof {
                if r is Ok {
                    law_entry_gives_data_back(*raw, method, data, gp_bit1, password, r->Ok_0);
                }
            }
            r
        },
    }
}

/// Moves a body up by the length of what an envelope holds in front of it, and
/// leaves room for what the envelope holds behind it.
fn make_room(body: &mut Vec<u8>)
    requires
        old(body)@.len() + AE2_OVERHEAD <= usize::MAX,
    ensures
        final(body)@.len() == old(body)@.len() + AE2_OVERHEAD,
        final(body)@.subrange(18, 18 + old(body)@.len() as int) == old(body)@,
{
    let len: usize = body.len();
    let ghost data = body@;
    body.resize(len + AE2_OVERHEAD, 0);
    let mut i: usize = len;
    while i > 0
        invariant
            i <= len,
            len == data.len(),
            body@.len() == len + AE2_OVERHEAD,
            len + AE2_OVERHEAD <= usize::MAX,
            forall|j: int| 0 <= j < i ==> body@[j] == data[j],
            forall|j: int| 18 + i <= j < 18 + len ==> body@[j] == data[j - 18],
        decreases i,
    {
        i = i - 1;
        let b: u8 = body[i];
        body[i + 18] = b;
    }
    assert(body@.subrange(18, 18 + len) =~= data);
}

/// Builds the entry of a file from what it was compressed to.
pub fn assemble(
    raw: &RawItem<'_>,
    method: Method,
    password: Option<&str>,
    out: CompressOut,
) -> (r: Result<EncodedEntry, EncodeError>)
    ensures
        r is Err <==> encrypts(password) && out.data@.len() + AE2_OVERHEAD > usize::MAX,
        r is Err ==> r->Err_0 == EncodeError::TooLarge,
        r is Ok ==> is_entry(*raw, method, out.data@, out.gp_bit1, password, r->Ok_0),
{
    let uncompressed_size: u64 = raw.bytes.len() as u64;
    let crc: u32 = crc32_of(raw.bytes);
    let inner_method: u16 = method_id(method);
    let version: u16 = version_needed(method);
    let gp_bit1 = out.gp_bit1;
    let ghost data = out.data@;
    let mut body = out.data;
    let mut encrypted = false;
    let mut method_on_wire: u16 = inner_method;
    let ghost mut salt: Seq<u8> = Seq::empty();
    if let Some(pw) = password {
        if !pw.is_empty() {
            if body.len() > usize::MAX - AE2_OVERHEAD {
                return Err(EncodeError::TooLarge);
            }
            let len: usize = body.len();
            make_room(&mut body);
            match encrypt_ae2_in_place(pw, &mut body, len) {
                Err(e) => {
                    assert(e == CryptoError::EmptyPassword || e == CryptoError::SizeMismatch);
                    return Err(EncodeError::TooLarge);
                },
                Ok(()) => {},
            }
            proof {
                salt = choose|s: Seq<u8>|
                    s.len() == SALT_LEN && body@ == #[trigger] envelope(
                        encode_utf8(pw@),
                        s,
                        data,
                    );
            }
            encrypted = true;
            method_on_wire = METHOD_AES;
        }
    }
    Ok(
        EncodedEntry {
            index: raw.index,
            name: raw.item.name_in_archive.clone(),
            body,
            uncompressed_size,
            crc32: crc,
            method_on_wire,
            inner_method,
            encrypted,
            gp_bit1,
            version_needed: version,
            mtime: raw.item.mtime,
        },
    )
}

/// The buffer between the archive and its file: large on file systems with
/// large clusters, else four transfers, but never too small.
pub open spec fn writer_capacity(info: Option<FsInfo>) -> int {
    match info {
        None => MIN_WRITER_CAPACITY as int,
        Some(i) => if ascii_lowered(i.fs_type@) == ascii_lowered("exfat"@) || ascii_lowered(
            i.fs_type@,
        ) == ascii_lowered("msdos"@) {
            EXFAT_WRITER_CAPACITY as int
        } else if i.iosize * 4 < MIN_WRITER_CAPACITY {
            MIN_WRITER_CAPACITY as int
        } else if i.iosize * 4 > usize::MAX {
            usize::MAX as int
        } else {
            i.iosize * 4
        },
    }
}

/// Picks the buffer between the archive and its file.
pub fn choose_writer_capacity(info: Option<&FsInfo>) -> (n: usize)
    ensures
        n == writer_capacity(
            match info {
                Some(i) => Some(*i),
                None => None,
            },
        ),
{
    match info {
        None => MIN_WRITER_CAPACITY,
        Some(i) => {
            if eq_ignore_ascii_case(i.fs_type.as_str(), "exfat") || eq_ignore_ascii_case(
                i.fs_type.as_str(),
                "msdos",
            ) {
                return EXFAT_WRITER_CAPACITY;
            }
            let scaled: u64 = i.iosize as u64 * 4;
            if scaled < MIN_WRITER_CAPACITY as u64 {
                MIN_WRITER_CAPACITY
            } else if scaled > usize::MAX as u64 {
                usize::MAX
            } else {
                scaled as usize
            }
        },
    }
}

/// Whether a file system is NTFS by its type.
pub open spec fn is_ntfs(r: SourceReport) -> bool {
    occurs(ascii_lowered(r.fs_type@), "ntfs"@)
}

/// Whether a run touches APFS on USB.
pub open spec fn touches_apfs_on_usb(probes: Seq<SourceReport>) -> bool {
    exists|i: int| 0 <= i < probes.len() && is_apfs(#[trigger] probes[i]) && on_usb(probes[i])
}

/// Whether a run touches NTFS.
pub open spec fn touches_ntfs(probes: Seq<SourceReport>) -> bool {
    exists|i: int| 0 <= i < probes.len() && is_ntfs(#[trigger] probes[i])
}

/// The options after tuning to the kinds of drives that a run touches. For
/// APFS on USB the page cache is kept, files go through dispatch queues, and
/// there is one reader; for NTFS the page cache is kept. What the user set
/// stays.
pub open spec fn tuned_to(o: Options, usb: bool, ntfs: bool) -> Options {
    Options {
        keep_cache: o.keep_cache || ((usb || ntfs) && !o.user_flags.keep_cache),
        dispatch_io: o.dispatch_io || (usb && !o.user_flags.dispatch_io),
        read_jobs: if usb && !o.user_flags.read_jobs {
            1
        } else {
            o.read_jobs
        },
        ..o
    }
}

/// The options after tuning to the drives that a run touches.
pub open spec fn tuned(o: Options, probes: Seq<SourceReport>) -> Options {
    tuned_to(o, touches_apfs_on_usb(probes), touches_ntfs(probes))
}

/// What differs between two sets of options, in words.
pub open spec fn changes(o: Options, t: Options) -> Seq<Seq<char>> {
    change(t.keep_cache != o.keep_cache, "keep_cache=on"@) + change(
        t.dispatch_io != o.dispatch_io,
        "dispatch_io=on"@,
    ) + change(t.read_jobs != o.read_jobs, "read_jobs=1"@)
}

/// `text` alone where something changed.
pub open spec fn change(changed: bool, text: Seq<char>) -> Seq<Seq<char>> {
    if changed {
        seq![text]
    } else {
        Seq::empty()
    }
}

/// Texts with commas between them.
pub open spec fn listed(ts: Seq<Seq<char>>) -> Seq<char>
    decreases ts.len(),
{
    if ts.len() == 0 {
        Seq::empty()
    } else if ts.len() == 1 {
        ts[0]
    } else {
        listed(ts.drop_last()) + ", "@ + ts.last()
    }
}

/// The note on what tuning changed.
pub open spec fn tuning_note(o: Options, probes: Seq<SourceReport>) -> Option<Seq<char>> {
    if changes(o, tuned(o, probes)).len() == 0 || o.quiet {
        None
    } else {
        Some(note_text(touches_apfs_on_usb(probes), changes(o, tuned(o, probes))))
    }
}

fn join_list(ts: &Vec<String>) -> (r: String)
    ensures
        r@ == listed(string_views(ts@)),
{
    let ghost all = string_views(ts@);
    let mut s = String::new();
    let mut i: usize = 0;
    while i < ts.len()
        invariant
            i <= ts@.len(),
            all == string_views(ts@),
            s@ == listed(all.take(i as int)),
        decreases ts@.len() - i,
    {
        assert(all.take(i + 1).drop_last() =~= all.take(i as int));
        assert(all.take(i + 1).last() == ts@[i as int]@);
        if i > 0 {
            s.append(", ");
            s.append(ts[i].as_str());
        } else {
            s = ts[i].clone();
        }
        i = i + 1;
    }
    assert(all.take(all.len() as int) =~= all);
    s
}

fn push_change(out: &mut Vec<String>, changed: bool, text: &str)
    ensures
        string_views(final(out)@) == string_views(old(out)@) + change(changed, text@),
{
    let ghost before = out@;
    if changed {
        let t = text.to_owned();
        out.push(t);
        assert(string_views(out@) =~= string_views(before) + change(changed, text@));
    } else {
        assert(string_views(out@) =~= string_views(before) + change(changed, text@));
    }
}

fn any_apfs_on_usb(probes: &Vec<SourceReport>) -> (r: bool)
    ensures
        r == touches_apfs_on_usb(probes@),
{
    let mut i: usize = 0;
    while i < probes.len()
        invariant
            i <= probes@.len(),
            forall|k: int|
                0 <= k < i ==> !(is_apfs(#[trigger] probes@[k]) && on_usb(probes@[k])),
        decreases probes@.len() - i,
    {
        if eq_ignore_ascii_case(probes[i].fs_type.as_str(), "apfs") && uses_usb(&probes[i]) {
            return true;
        }
        i = i + 1;
    }
    false
}

fn any_ntfs(probes: &Vec<SourceReport>) -> (r: bool)
    ensures
        r == touches_ntfs(probes@),
{
    let ntfs = to_chars("ntfs");
    let mut i: usize = 0;
    while i < probes.len()
        invariant
            i <= probes@.len(),
            ntfs@ == "ntfs"@,
            forall|k: int| 0 <= k < i ==> !is_ntfs(#[trigger] probes@[k]),
        decreases probes@.len() - i,
    {
        let t = to_chars(probes[i].fs_type.as_str());
        let lower = to_ascii_lower(t.as_slice());
        if contains(lower.as_slice(), ntfs.as_slice()) {
            return true;
        }
        i = i + 1;
    }
    false
}

/// The note on changes for drives of a kind.
pub open spec fn note_text(usb: bool, ts: Seq<Seq<char>>) -> Seq<char> {
    "tzip: auto-tuned defaults for "@ + (if usb {
        "APFS-on-USB"@
    } else {
        "NTFS-on-macOS"@
    }) + " source ("@ + listed(ts) + "). Override with the same flag."@
}

fn note_on(usb: bool, ts: &Vec<String>) -> (r: String)
    ensures
        r@ == note_text(usb, string_views(ts@)),
{
    let mut note = "tzip: auto-tuned defaults for ".to_owned();
    if usb {
        note.append("APFS-on-USB");
    } else {
        note.append("NTFS-on-macOS");
    }
    note.append(" source (");
    let list = join_list(ts);
    note.append(list.as_str());
    note.append("). Override with the same flag.");
    note
}

/// Adjusts the options to kinds of drives, and says in words what it changed.
fn tune_to(opts: Options, usb: bool, ntfs: bool) -> (r: (Options, Vec<String>))
    ensures
        r.0 == tuned_to(opts, usb, ntfs),
        string_views(r.1@) == changes(opts, r.0),
{
    let cache = (usb || ntfs) && !opts.user_flags.keep_cache && !opts.keep_cache;
    let dispatch = usb && !opts.user_flags.dispatch_io && !opts.dispatch_io;
    let readers = usb && !opts.user_flags.read_jobs && opts.read_jobs != 1;
    let mut out: Vec<String> = Vec::new();
    assert(string_views(out@) =~= Seq::<Seq<char>>::empty());
    push_change(&mut out, cache, "keep_cache=on");
    push_change(&mut out, dispatch, "dispatch_io=on");
    push_change(&mut out, readers, "read_jobs=1");
    let mut t = opts;
    if cache {
        t.keep_cache = true;
    }
    if dispatch {
        t.dispatch_io = true;
    }
    if readers {
        t.read_jobs = 1;
    }
    assert(string_views(out@) =~= changes(opts, t));
    (t, out)
}

/// Adjusts the options to the drives that a run touches, and says what it
/// changed unless the run is quiet.
pub fn auto_tune(opts: Options, probes: &Vec<SourceReport>) -> (r: (Options, Option<String>))
    ensures
        r.0 == tuned(opts, probes@),
        match tuning_note(opts, probes@) {
            Some(t) => r.1 is Some && r.1->0@ == t,
            None => r.1 is None,
        },
{
    let usb = any_apfs_on_usb(probes);
    let ntfs = any_ntfs(probes);
    let quiet = opts.quiet;
    let (t, out) = tune_to(opts, usb, ntfs);
    assert(string_views(out@).len() == out@.len());
    if out.len() == 0 || quiet {
        return (t, None);
    }
    (t, Some(note_on(usb, &out)))
}

/// Tuning a second time changes nothing.
pub proof fn law_tuning_is_idempotent(o: Options, probes: Seq<SourceReport>)
    ensures
        tuned(tuned(o, probes), probes) == tuned(o, probes),
        changes(tuned(o, probes), tuned(tuned(o, probes), probes)).len() == 0,
{
}

/// Tuning leaves what the user set as it is.
pub proof fn law_tuning_respects_the_user(o: Options, probes: Seq<SourceReport>)
    ensures
        o.user_flags.keep_cache ==> tuned(o, probes).keep_cache == o.keep_cache,
        o.user_flags.dispatch_io ==> tuned(o, probes).dispatch_io == o.dispatch_io,
        o.user_flags.read_jobs ==> tuned(o, probes).read_jobs == o.read_jobs,
{
}

/// Why a run cannot start.
#[derive(Copy, Clone, Debug, PartialEq, Eq, Structural)]
pub enum RunError {
    /// There is nothing to archive.
    NoFiles,
    /// The sizes of the files add up to more than 64 bits hold.
    TooLarge,
}

/// How much a run has to do, as far as that is known beforehand.
#[derive(Copy, Clone, Debug, PartialEq, Eq, Structural)]
pub struct Totals {
    pub bytes: u64,
    pub files: u64,
}

/// How a run is laid out.
#[derive(Copy, Clone, Debug, PartialEq, Eq, Structural)]
pub struct RunPlan {
    /// A solid archive is written, one file after the other.
    pub solid: bool,
    /// All files are listed before the first is read.
    pub list_first: bool,
    /// Entries are written in the order of the listing.
    pub ordered: bool,
    pub walk_threads: usize,
    /// Directories are scanned by `getattrlistbulk`.
    pub bulk_walk: bool,
    /// Items on the way to the compressors.
    pub read_bound: usize,
    /// Entries on the way to the writer.
    pub cpu_bound: usize,
    /// Items on the way from the scan.
    pub walk_bound: usize,
    /// Progress is shown.
    pub progress: bool,
}

/// Sum of the sizes of some files.
pub open spec fn total_size(items: Seq<WorkItem>) -> nat
    decreases items.len(),
{
    if items.len() == 0 {
        0
    } else {
        total_size(items.drop_last()) + items.last().size as nat
    }
}

/// Sum and number of the files of a listing.
pub fn batch_totals(items: &Vec<WorkItem>) -> (r: Result<Totals, RunError>)
    ensures
        r == (if items@.len() == 0 {
            Err::<Totals, RunError>(RunError::NoFiles)
        } else if total_size(items@) > u64::MAX {
            Err(RunError::TooLarge)
        } else {
            Ok(Totals { bytes: total_size(items@) as u64, files: items@.len() as u64 })
        }),
{
    if items.len() == 0 {
        return Err(RunError::NoFiles);
    }
    let mut bytes: u64 = 0;
    let mut i: usize = 0;
    while i < items.len()
        invariant
            i <= items@.len(),
            items@.len() > 0,
            bytes == total_size(items@.take(i as int)),
        decreases items@.len() - i,
    {
        assert(items@.take(i + 1).drop_last() =~= items@.take(i as int));
        if items[i].size > u64::MAX - bytes {
            proof {
                lemma_total_grows(items@, i + 1);
            }
            return Err(RunError::TooLarge);
        }
        bytes = bytes + items[i].size;
        i = i + 1;
    }
    assert(items@.take(items@.len() as int) =~= items@);
    Ok(Totals { bytes, files: items.len() as u64 })
}

proof fn lemma_total_grows(items: Seq<WorkItem>, n: int)
    requires
        0 <= n <= items.len(),
    ensures
        total_size(items.take(n)) <= total_size(items),
    decreases items.len(),
{
    if n < items.len() {
        assert(items.drop_last().take(n) =~= items.take(n));
        lemma_total_grows(items.drop_last(), n);
    } else {
        assert(items.take(n) =~= items);
    }
}

/// Room for two items for each of `jobs`, and for two at least.
pub open spec fn channel_bound(jobs: usize) -> usize {
    if jobs < 1 {
        2
    } else if jobs > usize::MAX / 2 {
        usize::MAX
    } else {
        (2 * jobs) as usize
    }
}

fn bound_for(jobs: usize) -> (n: usize)
    ensures
        n == channel_bound(jobs),
{
    if jobs < 1 {
        2
    } else if jobs > usize::MAX / 2 {
        usize::MAX
    } else {
        2 * jobs
    }
}

/// The layout that options ask for.
pub open spec fn run_plan(o: Options, macos: bool) -> RunPlan {
    RunPlan {
        solid: o.solid,
        list_first: o.solid || o.sort,
        ordered: o.sort,
        walk_threads: if o.walk_jobs == 0 {
            1
        } else {
            o.walk_jobs
        },
        bulk_walk: macos && !o.classic_walk,
        read_bound: channel_bound(o.read_jobs),
        cpu_bound: channel_bound(o.cpu_jobs),
        walk_bound: if channel_bound(o.read_jobs) < 16 {
            16
        } else {
            channel_bound(o.read_jobs)
        },
        progress: !o.quiet || o.tui,
    }
}

/// Lays out a run.
pub fn plan_run(opts: &Options, macos: bool) -> (r: RunPlan)
    ensures
        r == run_plan(*opts, macos),
{
    let read_bound: usize = bound_for(opts.read_jobs);
    RunPlan {
        solid: opts.solid,
        list_first: opts.solid || opts.sort,
        ordered: opts.sort,
        walk_threads: if opts.walk_jobs == 0 {
            1
        } else {
            opts.walk_jobs
        },
        bulk_walk: macos && !opts.classic_walk,
        read_bound,
        cpu_bound: bound_for(opts.cpu_jobs),
        walk_bound: if read_bound < 16 {
            16
        } else {
            read_bound
        },
        progress: !opts.quiet || opts.tui,
    }
}

/// Whether a run is about a single large file that is deflated block by block:
/// the only one of a listing, or the only input.
pub fn single_file_parallel(method: Method, listed: Option<Totals>, only_input: Option<u64>) -> (r:
    bool)
    ensures
        r == (method == Method::Deflate && match listed {
            Some(t) => t.files == 1 && t.bytes >= 8_388_608,
            None => only_input is Some && only_input->0 >= 8_388_608,
        }),
{
    if method != Method::Deflate {
        return false;
    }
    match listed {
        Some(t) => t.files == 1 && t.bytes >= PARALLEL_DEFLATE_THRESHOLD,
        None => match only_input {
            Some(size) => size >= PARALLEL_DEFLATE_THRESHOLD,
            None => false,
        },
    }
}

/// The progress after an entry was written. More files may have been written
/// than were counted so far.
pub open spec fn progress_text(written: u64, counted: u64, name: Seq<char>) -> Seq<char> {
    decimal(written as nat) + "/"@ + decimal(
        if counted < written {
            written as nat
        } else {
            counted as nat
        },
    ) + " files — "@ + name
}

pub fn progress_message(written: u64, counted: u64, name: &str) -> (r: String)
    ensures
        r@ == progress_text(written, counted, name@),
{
    let mut s = crate::text::decimal_text(written);
    s.append("/");
    add_number(
        &mut s,
        if counted < written {
            written
        } else {
            counted
        },
    );
    s.append(" files — ");
    s.append(name);
    s
}

/// What the owner of the password finds in the body of an entry: the
/// compressed data of the file.
pub open spec fn unsealed(password: Option<&str>, body: Seq<u8>) -> Option<Seq<u8>> {
    if encrypts(password) {
        open_envelope(encode_utf8(password->0@), body)
    } else {
        Some(body)
    }
}

/// An entry gives back the data that it was made from.
pub proof fn law_entry_gives_data_back(
    raw: RawItem<'_>,
    method: Method,
    data: Seq<u8>,
    gp_bit1: bool,
    password: Option<&str>,
    e: EncodedEntry,
)
    requires
        is_entry(raw, method, data, gp_bit1, password, e),
    ensures
        unsealed(password, e@.body) == Some(data),
{
    if encrypts(password) {
        let salt = choose|salt: Seq<u8>|
            salt.len() == SALT_LEN && e@ == entry_with(
                raw,
                method,
                gp_bit1,
                true,
                #[trigger] envelope(encode_utf8(password->0@), salt, data),
            );
        law_envelope_round_trip(encode_utf8(password->0@), salt, data);
    }
}

/// The members of an archive of some entries.
pub open spec fn members(es: Seq<EncodedEntry>) -> Seq<Member> {
    es.map_values(|e: EncodedEntry| e@)
}

/// Reading an archive gives back, for every file, its name, its time, its size
/// and, with the password, the data that it was compressed to.
pub proof fn law_archive_gives_files_back(
    raws: Seq<RawItem<'_>>,
    method: Method,
    datas: Seq<Seq<u8>>,
    gp_bit1: bool,
    password: Option<&str>,
    es: Seq<EncodedEntry>,
)
    requires
        raws.len() == es.len(),
        datas.len() == es.len(),
        forall|i: int|
            0 <= i < es.len() ==> is_entry(
                raws[i],
                method,
                datas[i],
                gp_bit1,
                password,
                #[trigger] es[i],
            ),
        forall|i: int|
            0 <= i < es.len() ==> encode_utf8((#[trigger] raws[i]).item.name_in_archive@).len()
                < 0x1_0000,
        locals(members(es)).len() + central(members(es)).len() <= u64::MAX,
    ensures
        ({
            let found = read_archive(archive(members(es)));
            &&& found is Some
            &&& found->0.len() == raws.len()
            &&& forall|i: int|
                0 <= i < raws.len() ==> {
                    let x = #[trigger] found->0[i];
                    &&& x.entry.name == encode_utf8(raws[i].item.name_in_archive@)
                    &&& x.entry.mtime == (
                        raws[i].item.mtime.0 as nat,
                        raws[i].item.mtime.1 as nat,
                    )
                    &&& x.entry.uncompressed_size == raws[i].bytes@.len() as u64
                    &&& x.entry.crc32 == (if encrypts(password) {
                        0
                    } else {
                        crc32(raws[i].bytes@) as nat
                    })
                    &&& unsealed(password, x.body) == Some(datas[i])
                }
        }),
{
    let ms = members(es);
    assert forall|j: int| 0 <= j < ms.len() implies (#[trigger] ms[j]).name.len() < 0x1_0000 by {
        assert(ms[j] == es[j]@);
        assert(raws[j].item.name_in_archive@ == es[j].name@);
    }
    law_archive_round_trip(ms);
    let found = extracted(ms);
    assert forall|i: int| 0 <= i < raws.len() implies {
        let x = #[trigger] found[i];
        &&& x.entry.name == encode_utf8(raws[i].item.name_in_archive@)
        &&& x.entry.mtime == (raws[i].item.mtime.0 as nat, raws[i].item.mtime.1 as nat)
        &&& x.entry.uncompressed_size == raws[i].bytes@.len() as u64
        &&& x.entry.crc32 == (if encrypts(password) {
            0
        } else {
            crc32(raws[i].bytes@) as nat
        })
        &&& unsealed(password, x.body) == Some(datas[i])
    } by {
        assert(ms[i] == es[i]@);
        assert(is_entry(raws[i], method, datas[i], gp_bit1, password, es[i]));
        law_entry_gives_data_back(raws[i], method, datas[i], gp_bit1, password, es[i]);
    }
}

/// Whether a body, opened with the password and unpacked, gives `bytes`.
pub open spec fn restores(
    password: Option<&str>,
    method: Method,
    body: Seq<u8>,
    bytes: Seq<u8>,
) -> bool {
    unsealed(password, body) is Some && unpacked(method, unsealed(password, body)->0) == Some(bytes)
}

/// Reading an archive, opening its bodies with the password and unpacking them
/// gives back every file, none missing and none added: its name and its
/// contents. The bodies restore their files as those that `encode_one` makes
/// do, one by one or, deflated, block by block in parallel.
pub proof fn law_archive_gives_contents_back(
    raws: Seq<RawItem<'_>>,
    method: Method,
    password: Option<&str>,
    es: Seq<EncodedEntry>,
)
    requires
        raws.len() == es.len(),
        forall|i: int|
            0 <= i < es.len() ==> (#[trigger] es[i]).name@ == raws[i].item.name_in_archive@
                && restores(password, method, es[i]@.body, raws[i].bytes@),
        forall|i: int|
            0 <= i < es.len() ==> encode_utf8((#[trigger] raws[i]).item.name_in_archive@).len()
                < 0x1_0000,
        locals(members(es)).len() + central(members(es)).len() <= u64::MAX,
    ensures
        ({
            let found = read_archive(archive(members(es)));
            &&& found is Some
            &&& found->0.len() == raws.len()
            &&& forall|i: int|
                0 <= i < raws.len() ==> {
                    let x = #[trigger] found->0[i];
                    &&& x.entry.name == encode_utf8(raws[i].item.name_in_archive@)
                    &&& restores(password, method, x.body, raws[i].bytes@)
                }
        }),
{
    let ms = members(es);
    assert forall|j: int| 0 <= j < ms.len() implies (#[trigger] ms[j]).name.len() < 0x1_0000 by {
        assert(ms[j] == es[j]@);
        assert(raws[j].item.name_in_archive@ == es[j].name@);
    }
    law_archive_round_trip(ms);
    let found = extracted(ms);
    assert forall|i: int| 0 <= i < raws.len() implies {
        let x = #[trigger] found[i];
        &&& x.entry.name == encode_utf8(raws[i].item.name_in_archive@)
        &&& restores(password, method, x.body, raws[i].bytes@)
    } by {
        assert(ms[i] == es[i]@);
    }
}

/// Without encryption an archive is determined by its files, in their order,
/// and by what they were compressed to: two archives of them are identical
/// byte for byte.
pub proof fn law_plain_archives_are_reproducible(
    raws: Seq<RawItem<'_>>,
    method: Method,
    datas: Seq<Seq<u8>>,
    gp_bit1: bool,
    password: Option<&str>,
    es1: Seq<EncodedEntry>,
    es2: Seq<EncodedEntry>,
)
    requires
        !encrypts(password),
        raws.len() == es1.len(),
        raws.len() == es2.len(),
        forall|i: int|
            0 <= i < raws.len() ==> is_entry(
                #[trigger] raws[i],
                method,
                datas[i],
                gp_bit1,
                password,
                es1[i],
            ) && is_entry(raws[i], method, datas[i], gp_bit1, password, es2[i]),
    ensures
        archive(members(es1)) == archive(members(es2)),
{
    assert forall|i: int| 0 <= i < raws.len() implies members(es1)[i] == members(es2)[i] by {
        assert(is_entry(raws[i], method, datas[i], gp_bit1, password, es1[i]));
    }
    assert(members(es1) =~= members(es2));
}

/// The buffer is never below its least size.
pub proof fn law_writer_capacity_has_a_floor(info: Option<FsInfo>)
    ensures
        writer_capacity(info) >= MIN_WRITER_CAPACITY,
{
}

/// Sorted runs over the same files give the same archive, byte for byte, in
/// whatever order the files were found: unencrypted, with no two files of one
/// name in the archive, and with the same contents on both runs.
pub proof fn law_sorted_runs_are_identical(
    found1: Seq<WorkItem>,
    found2: Seq<WorkItem>,
    raws1: Seq<RawItem<'_>>,
    raws2: Seq<RawItem<'_>>,
    method: Method,
    level: u32,
    gp_bit1: bool,
    password: Option<&str>,
    es1: Seq<EncodedEntry>,
    es2: Seq<EncodedEntry>,
)
    requires
        !encrypts(password),
        forall|x: WorkItem| found1.contains(x) <==> found2.contains(x),
        keys_distinct(found1, listing_key(true)),
        keys_distinct(found2, listing_key(true)),
        sorted_from(found1, items_of_raws(raws1), listing_key(true)),
        sorted_from(found2, items_of_raws(raws2), listing_key(true)),
        forall|i: int, j: int|
            0 <= i < raws1.len() && 0 <= j < raws2.len() && *(#[trigger] raws1[i]).item == *(
            #[trigger] raws2[j]).item ==> raws1[i].bytes@ == raws2[j].bytes@,
        es1.len() == raws1.len(),
        es2.len() == raws2.len(),
        forall|i: int|
            0 <= i < raws1.len() ==> is_entry(
                raws1[i],
                method,
                packed(method, level, raws1[i].bytes@, false)->Ok_0,
                gp_bit1,
                password,
                #[trigger] es1[i],
            ),
        forall|i: int|
            0 <= i < raws2.len() ==> is_entry(
                raws2[i],
                method,
                packed(method, level, raws2[i].bytes@, false)->Ok_0,
                gp_bit1,
                password,
                #[trigger] es2[i],
            ),
    ensures
        archive(members(es1)) == archive(members(es2)),
{
    let (l1, l2) = (items_of_raws(raws1), items_of_raws(raws2));
    law_sort_ignores_arrival_order(found1, found2, l1, l2, listing_key(true));
    assert(members(es1) =~= members(es2)) by {
        assert(l1.len() == raws1.len() && l2.len() == raws2.len());
        assert forall|i: int| 0 <= i < raws1.len() implies members(es1)[i] == members(es2)[i] by {
            assert(l1[i] == *raws1[i].item && l2[i] == *raws2[i].item);
            assert(raws1[i].bytes@ == raws2[i].bytes@);
            assert(members(es1)[i] == es1[i]@ && members(es2)[i] == es2[i]@);
        }
    }
}

/// The items of some files on their way.
pub open spec fn items_of_raws(raws: Seq<RawItem<'_>>) -> Seq<WorkItem> {
    raws.map_values(|r: RawItem<'_>| *r.item)
}

/// An entry whose turn it is: its local header goes to the file, then its body.
pub struct Written {
    pub header: Vec<u8>,
    pub entry: EncodedEntry,
    /// The progress to show once it is written.
    pub message: String,
}

/// The writing end of a run.
pub struct ArchiveRun {
    zip: ZipWriter,
    /// Entries that wait for their turn, where the order matters.
    waiting: Option<Reorder<EncodedEntry>>,
    written: u64,
}

/// The entries among what was written.
pub open spec fn entries_of(ws: Seq<Written>) -> Seq<EncodedEntry> {
    ws.map_values(|w: Written| w.entry)
}

/// The number of the `i`th entry after `written` others.
pub open spec fn count_after(written: u64, i: int) -> u64 {
    if written + i > u64::MAX {
        u64::MAX
    } else {
        (written + i) as u64
    }
}

impl ArchiveRun {
    /// What the archive holds so far.
    pub closed spec fn members(&self) -> Seq<Member> {
        self.zip@
    }

    /// What is waiting for its turn, where the order matters.
    pub closed spec fn waiting(&self) -> Option<Waiting<EncodedEntry>> {
        match self.waiting {
            Some(r) => Some(r@),
            None => None,
        }
    }

    /// How many entries were written.
    pub closed spec fn written(&self) -> u64 {
        self.written
    }

    pub closed spec fn wf(&self) -> bool {
        self.zip.wf() && (self.waiting is Some ==> !self.waiting->0@.pending.contains_key(u64::MAX))
    }

    pub fn new(ordered: bool) -> (r: Self)
        ensures
            r.wf(),
            r.members() == Seq::<Member>::empty(),
            r.written() == 0,
            r.waiting() == (if ordered {
                Some(nothing_yet::<EncodedEntry>())
            } else {
                None
            }),
    {
        ArchiveRun {
            zip: ZipWriter::new(),
            waiting: if ordered {
                Some(Reorder::new())
            } else {
                None
            },
            written: 0,
        }
    }

    /// An entry has arrived from the compressors, when `counted` files were
    /// found so far. Without an order it is written at once; with one, all
    /// entries are whose turn has come. Fails where the archive would become
    /// too large for its offsets.
    pub fn arrived(&mut self, entry: EncodedEntry, counted: u64) -> (r: Result<
        Vec<Written>,
        ZipError,
    >)
        requires
            old(self).wf(),
            entry.index < u64::MAX,
        ensures
            final(self).wf(),
            match r {
                Ok(ws) => {
                    let run = entries_of(ws@);
                    &&& final(self).members() == old(self).members() + members(run)
                    &&& final(self).written() == count_after(old(self).written(), run.len() as int)
                    &&& old(self).waiting() is None ==> run == seq![entry]
                    &&& old(self).waiting() is None ==> final(self).waiting() is None
                    &&& old(self).waiting() is Some ==> final(self).waiting() is Some && takes_in(
                        old(self).waiting()->0,
                        entry.index,
                        entry,
                        final(self).waiting()->0,
                        run,
                    )
                    &&& forall|i: int|
                        0 <= i < ws@.len() ==> (#[trigger] ws@[i]).header@ == local_header(
                            ws@[i].entry@,
                        ) && ws@[i].message@ == progress_text(
                            count_after(old(self).written(), i + 1),
                            counted,
                            ws@[i].entry.name@,
                        )
                },
                Err(_) => {
                    &&& old(self).waiting() is None ==> locals(
                        old(self).members().push(entry@),
                    ).len() > u64::MAX
                    &&& old(self).waiting() is Some ==> exists|
                        after: Waiting<EncodedEntry>,
                        run: Seq<EncodedEntry>,
                    | #[trigger]
                        takes_in(old(self).waiting()->0, entry.index, entry, after, run) && locals(
                            old(self).members() + members(run),
                        ).len() > u64::MAX
                },
            },
    {
        let ghost members0 = self.zip@;
        let ghost written0 = self.written;
        let mut ready: Vec<EncodedEntry> = Vec::new();
        match &mut self.waiting {
            Some(w) => {
                ready = w.accept(entry.index, entry);
            },
            None => {
                ready.push(entry);
            },
        }
        let ghost run = ready@;
        assert(old(self).waiting() is None ==> run =~= seq![entry]);
        assert(old(self).waiting() is None ==> members0 + members(run) =~= members0.push(entry@));
        let ghost waiting1 = self.waiting;
        let mut rest = crate::sort::reversed(ready);
        let mut out: Vec<Written> = Vec::new();
        let ghost mut n: int = 0;
        assert(run.skip(0) =~= run);
        assert(entries_of(out@) =~= run.take(0));
        assert(members0 + members(run.take(0)) =~= members0);
        while rest.len() > 0
            invariant
                members0 == old(self).members(),
                written0 == old(self).written(),
                self.waiting == waiting1,
                waiting1 is Some ==> !waiting1->0@.pending.contains_key(u64::MAX),
                old(self).waiting() is None ==> waiting1 is None && members0 + members(run)
                    == members0.push(entry@),
                old(self).waiting() is Some ==> waiting1 is Some && takes_in(
                    old(self).waiting()->0,
                    entry.index,
                    entry,
                    waiting1->0@,
                    run,
                ),
                0 <= n <= run.len(),
                rest@ == run.skip(n).reverse(),
                out@.len() == n,
                entries_of(out@) == run.take(n),
                self.zip.wf(),
                self.zip@ == members0 + members(run.take(n)),
                self.written == count_after(written0, n),
                forall|i: int|
                    0 <= i < out@.len() ==> (#[trigger] out@[i]).header@ == local_header(
                        out@[i].entry@,
                    ) && out@[i].message@ == progress_text(
                        count_after(written0, i + 1),
                        counted,
                        out@[i].entry.name@,
                    ),
            decreases rest@.len(),
        {
            let e = rest.pop().unwrap();
            assert(e == run[n]);
            assert(rest@ =~= run.skip(n + 1).reverse());
            assert(run.take(n + 1) =~= run.take(n).push(e));
            assert(members0 + members(run.take(n + 1)) =~= (members0 + members(run.take(n))).push(
                e@,
            ));
            match self.zip.write_entry(&e) {
                Err(err) => {
                    proof {
                        lemma_locals_grow(members0 + members(run), members0.len() + n + 1);
                        assert((members0 + members(run)).take(members0.len() + n + 1) =~= members0
                            + members(run.take(n + 1)));
                    }
                    return Err(err);
                },
                Ok(header) => {
                    if self.written < u64::MAX {
                        self.written = self.written + 1;
                    }
                    let message = progress_message(self.written, counted, e.name.as_str());
                    let ghost before = out@;
                    out.push(Written { header, entry: e, message });
                    assert(entries_of(out@) =~= entries_of(before).push(e));
                },
            }
            proof {
                n = n + 1;
            }
        }
        assert(run.take(run.len() as int) =~= run);
        Ok(out)
    }

    /// The directory that ends the archive.
    pub fn finish(self) -> (r: Result<Vec<u8>, ZipError>)
        requires
            self.wf(),
        ensures
            r is Ok <==> locals(self.members()).len() + central(self.members()).len() <= u64::MAX,
            r is Ok ==> r->Ok_0@ == directory(self.members()),
    {
        self.zip.finish()
    }
}

/// Members only add to the length of the archive.
proof fn lemma_locals_grow(ms: Seq<Member>, n: int)
    requires
        0 <= n <= ms.len(),
    ensures
        locals(ms.take(n)).len() <= locals(ms).len(),
    decreases ms.len(),
{
    if n < ms.len() {
        assert(ms.drop_last().take(n) =~= ms.take(n));
        lemma_locals_grow(ms.drop_last(), n);
    } else {
        assert(ms.take(n) =~= ms);
    }
}

/// An entry field by field: the file's name and time, the size and checksum of
/// its contents, the number and version of the method, and the compressed data
/// as the body; under a password the body is an envelope round that data, and
/// the method on the wire is 99.
pub proof fn law_entry_field_by_field(
    raw: RawItem<'_>,
    method: Method,
    data: Seq<u8>,
    gp_bit1: bool,
    password: Option<&str>,
    e: EncodedEntry,
)
    requires
        is_entry(raw, method, data, gp_bit1, password, e),
        raw.bytes@.len() <= u64::MAX,
    ensures
        e.index == raw.index,
        e.name@ == raw.item.name_in_archive@,
        e.uncompressed_size == raw.bytes@.len(),
        e.crc32 == crc32(raw.bytes@),
        e.mtime == raw.item.mtime,
        e.inner_method == method_number(method),
        e.version_needed == version_of(method),
        e.gp_bit1 == gp_bit1,
        e.encrypted <==> (password matches Some(p) && p@.len() > 0),
        !e.encrypted ==> e.method_on_wire == method_number(method) && e.body@ == data,
        e.encrypted ==> e.method_on_wire == 99 && exists|salt: Seq<u8>|
            salt.len() == 16 && e.body@ == #[trigger] envelope(
                encode_utf8(password->0@),
                salt,
                data,
            ),
{
    law_member_of_entry(e);
    if encrypts(password) {
        let salt = choose|salt: Seq<u8>|
            salt.len() == SALT_LEN && e@ == entry_with(
                raw,
                method,
                gp_bit1,
                true,
                #[trigger] envelope(encode_utf8(password->0@), salt, data),
            );
        assert(e.body@ == envelope(encode_utf8(password->0@), salt, data));
    }
}

/// What a file's bytes are compressed to: as blocks where the file is
/// compressed in parallel, and by the codec of the method otherwise.
pub proof fn law_bytes_are_packed(method: Method, level: u32, bytes: Seq<u8>)
    ensures
        packed(method, level, bytes, true) == parallel_stream(
            level,
            bytes,
            block_count(bytes.len()),
        ),
        packed(method, level, bytes, false) == sealed(method, codec_stream(method, level, bytes)),
{
}

/// What the owner of a password finds in a body, and what anybody finds in one
/// that is not encrypted.
pub proof fn law_bodies_are_opened(password: Option<&str>, body: Seq<u8>)
    ensures
        password is None ==> unsealed(password, body) == Some(body),
        password matches Some(p) ==> (p@.len() == 0 ==> unsealed(password, body) == Some(body)) && (
        p@.len() > 0 ==> unsealed(password, body) == open_envelope(encode_utf8(p@), body)),
{
}

/// The buffer of the writer: four mebibytes without knowledge of the file
/// system, sixteen on exFAT and FAT in whatever case their names are written,
/// and four times the best size of a transfer elsewhere, but not below four
/// mebibytes and not above what can be addressed.
pub proof fn law_writer_capacity(info: FsInfo)
    ensures
        writer_capacity(None) == 4 * 1024 * 1024,
        ({
            let name = ascii_lowered(info.fs_type@);
            let big = name == seq!['e', 'x', 'f', 'a', 't'] || name == seq![
                'm',
                's',
                'd',
                'o',
                's',
            ];
            let n = 4 * info.iosize as int;
            &&& big ==> writer_capacity(Some(info)) == 16 * 1024 * 1024
            &&& !big && n < 4 * 1024 * 1024 ==> writer_capacity(Some(info)) == 4 * 1024 * 1024
            &&& !big && 4 * 1024 * 1024 <= n <= usize::MAX ==> writer_capacity(Some(info)) == n
            &&& !big && n >= 4 * 1024 * 1024 && n > usize::MAX ==> writer_capacity(Some(info))
                == usize::MAX
        }),
{
    reveal_strlit("exfat");
    reveal_strlit("msdos");
    assert("exfat"@ =~= seq!['e', 'x', 'f', 'a', 't']);
    assert("msdos"@ =~= seq!['m', 's', 'd', 'o', 's']);
    assert(ascii_lowered("exfat"@) =~= "exfat"@);
    assert(ascii_lowered("msdos"@) =~= "msdos"@);
}

/// What tuning does: a drive with APFS on USB turns the cache and asynchronous
/// reading on and leaves one reader, a drive with NTFS turns the cache on; each
/// only where the user has not set it, and nothing else changes.
pub proof fn law_tuning_setting_by_setting(o: Options, probes: Seq<SourceReport>)
    ensures
        ({
            let t = tuned(o, probes);
            let usb = exists|i: int|
                0 <= i < probes.len() && is_apfs(#[trigger] probes[i]) && on_usb(probes[i]);
            let ntfs = exists|i: int|
                0 <= i < probes.len() && occurs(
                    ascii_lowered((#[trigger] probes[i]).fs_type@),
                    seq!['n', 't', 'f', 's'],
                );
            &&& (usb || ntfs) && !o.user_flags.keep_cache ==> t.keep_cache
            &&& !usb && !ntfs || o.user_flags.keep_cache ==> t.keep_cache == o.keep_cache
            &&& usb && !o.user_flags.dispatch_io ==> t.dispatch_io
            &&& !usb || o.user_flags.dispatch_io ==> t.dispatch_io == o.dispatch_io
            &&& usb && !o.user_flags.read_jobs ==> t.read_jobs == 1
            &&& !usb || o.user_flags.read_jobs ==> t.read_jobs == o.read_jobs
            &&& t.archive == o.archive && t.paths == o.paths && t.method == o.method
            &&& t.level == o.level && t.cpu_jobs == o.cpu_jobs && t.walk_jobs == o.walk_jobs
            &&& t.password == o.password && t.sort == o.sort && t.exclude == o.exclude
            &&& t.quiet == o.quiet && t.verbose == o.verbose && t.streaming == o.streaming
            &&& t.solid == o.solid && t.tui == o.tui && t.classic_walk == o.classic_walk
            &&& t.usb_info == o.usb_info && t.user_flags == o.user_flags
        }),
{
    reveal_strlit("ntfs");
    assert("ntfs"@ =~= seq!['n', 't', 'f', 's']);
    let ntfs = exists|i: int|
        0 <= i < probes.len() && occurs(
            ascii_lowered((#[trigger] probes[i]).fs_type@),
            seq!['n', 't', 'f', 's'],
        );
    if touches_ntfs(probes) {
        let i = choose|i: int| 0 <= i < probes.len() && is_ntfs(#[trigger] probes[i]);
        assert(occurs(ascii_lowered(probes[i].fs_type@), seq!['n', 't', 'f', 's']));
    }
    if ntfs {
        let i = choose|i: int|
            0 <= i < probes.len() && occurs(
                ascii_lowered((#[trigger] probes[i]).fs_type@),
                seq!['n', 't', 'f', 's'],
            );
        assert(is_ntfs(probes[i]));
    }
}

/// A note tells of tuning where something was changed, unless the run is quiet.
/// It names the kind of source and what was changed, in this order: cache,
/// asynchronous reading, readers.
pub proof fn law_tuning_is_told(o: Options, probes: Seq<SourceReport>)
    ensures
        ({
            let t = tuned(o, probes);
            let note = tuning_note(o, probes);
            let cache = t.keep_cache != o.keep_cache;
            let io = t.dispatch_io != o.dispatch_io;
            let readers = t.read_jobs != o.read_jobs;
            let kind = if touches_apfs_on_usb(probes) {
                "APFS-on-USB"@
            } else {
                "NTFS-on-macOS"@
            };
            let first = if cache {
                "keep_cache=on"@
            } else {
                Seq::empty()
            };
            let second = if io && cache {
                first + ", dispatch_io=on"@
            } else if io {
                "dispatch_io=on"@
            } else {
                first
            };
            let third = if readers && (cache || io) {
                second + ", read_jobs=1"@
            } else if readers {
                "read_jobs=1"@
            } else {
                second
            };
            &&& note is Some <==> !o.quiet && (cache || io || readers)
            &&& note is Some ==> note->0 == "tzip: auto-tuned defaults for "@ + kind + " source ("@
                + third + "). Override with the same flag."@
        }),
{
    reveal_strlit(", ");
    reveal_strlit("dispatch_io=on");
    reveal_strlit("read_jobs=1");
    reveal_strlit(", dispatch_io=on");
    reveal_strlit(", read_jobs=1");
    assert(", "@ + "dispatch_io=on"@ =~= ", dispatch_io=on"@);
    assert(", "@ + "read_jobs=1"@ =~= ", read_jobs=1"@);
    let t = tuned(o, probes);
    let ts = changes(o, t);
    let (a, b, c) = ("keep_cache=on"@, "dispatch_io=on"@, "read_jobs=1"@);
    law_list_of_texts(Seq::empty(), a);
    law_list_of_texts(Seq::empty(), b);
    law_list_of_texts(Seq::empty(), c);
    law_list_of_texts(seq![a], b);
    law_list_of_texts(seq![a], c);
    law_list_of_texts(seq![b], c);
    law_list_of_texts(seq![a, b], c);
    assert(seq![a].push(b) =~= seq![a, b]);
    assert(seq![a].push(c) =~= seq![a, c]);
    assert(seq![b].push(c) =~= seq![b, c]);
    assert(seq![a, b].push(c) =~= seq![a, b, c]);
    let cache = t.keep_cache != o.keep_cache;
    let io = t.dispatch_io != o.dispatch_io;
    let readers = t.read_jobs != o.read_jobs;
    assert(cache && io && readers ==> ts =~= seq![a, b, c]);
    assert(cache && io && !readers ==> ts =~= seq![a, b]);
    assert(cache && !io && readers ==> ts =~= seq![a, c]);
    assert(!cache && io && readers ==> ts =~= seq![b, c]);
    assert(cache && !io && !readers ==> ts =~= seq![a]);
    assert(!cache && io && !readers ==> ts =~= seq![b]);
    assert(!cache && !io && readers ==> ts =~= seq![c]);
    assert(a + ", "@ + b =~= a + ", dispatch_io=on"@);
    assert(a + ", "@ + c =~= a + ", read_jobs=1"@);
    assert(b + ", "@ + c =~= b + ", read_jobs=1"@);
    assert(a + ", dispatch_io=on"@ + ", "@ + c =~= a + ", dispatch_io=on"@ + ", read_jobs=1"@);
}

/// Texts are listed with a comma and a space between them.
pub proof fn law_list_of_texts(ts: Seq<Seq<char>>, t: Seq<char>)
    ensures
        listed(Seq::empty()).len() == 0,
        listed(seq![t]) == t,
        ts.len() > 0 ==> listed(ts.push(t)) == listed(ts) + seq![',', ' '] + t,
        ts.len() > 0 ==> listed(ts.push(t)) == listed(ts) + ", "@ + t,
{
    reveal_strlit(", ");
    assert(", "@ =~= seq![',', ' ']);
    assert(ts.push(t).drop_last() =~= ts);
}

/// Sizes of files add up.
pub proof fn law_sizes_add_up(a: Seq<WorkItem>, b: Seq<WorkItem>, x: WorkItem)
    ensures
        total_size(Seq::empty()) == 0,
        total_size(seq![x]) == x.size,
        total_size(a + b) == total_size(a) + total_size(b),
    decreases b.len(),
{
    reveal_with_fuel(total_size, 2);
    assert(seq![x].drop_last() =~= Seq::empty());
    if b.len() == 0 {
        assert(a + b =~= a);
    } else {
        law_sizes_add_up(a, b.drop_last(), x);
        assert((a + b).drop_last() =~= a + b.drop_last());
        assert((a + b).last() == b.last());
    }
}

/// A run, setting by setting: two places in a channel for each worker at its
/// end, one worker at least, and sixteen places for what a scan has found.
pub proof fn law_run_plan(o: Options, macos: bool)
    ensures
        ({
            let p = run_plan(o, macos);
            &&& p.solid == o.solid && p.ordered == o.sort
            &&& p.list_first <==> o.solid || o.sort
            &&& o.walk_jobs > 0 ==> p.walk_threads == o.walk_jobs
            &&& o.walk_jobs == 0 ==> p.walk_threads == 1
            &&& p.bulk_walk <==> macos && !o.classic_walk
            &&& o.read_jobs == 0 ==> p.read_bound == 2
            &&& o.read_jobs > 0 && 2 * o.read_jobs <= usize::MAX ==> p.read_bound == 2 * o.read_jobs
            &&& 2 * o.read_jobs > usize::MAX ==> p.read_bound == usize::MAX
            &&& o.cpu_jobs == 0 ==> p.cpu_bound == 2
            &&& o.cpu_jobs > 0 && 2 * o.cpu_jobs <= usize::MAX ==> p.cpu_bound == 2 * o.cpu_jobs
            &&& 2 * o.cpu_jobs > usize::MAX ==> p.cpu_bound == usize::MAX
            &&& p.read_bound >= 16 ==> p.walk_bound == p.read_bound
            &&& p.read_bound < 16 ==> p.walk_bound == 16
            &&& p.progress <==> !o.quiet || o.tui
        }),
{
}

/// The progress: how many files were written, of how many that are known, and
/// which was the last. There are never fewer known than written.
pub proof fn law_progress_text(written: u64, counted: u64, name: Seq<char>)
    ensures
        counted >= written ==> progress_text(written, counted, name) == decimal(written as nat)
            + seq!['/'] + decimal(counted as nat) + " files — "@ + name,
        counted < written ==> progress_text(written, counted, name) == decimal(written as nat)
            + seq!['/'] + decimal(written as nat) + " files — "@ + name,
{
    reveal_strlit("/");
    assert("/"@ =~= seq!['/']);
}

/// What goes into the archive of several entries, one by one.
pub proof fn law_members_one_by_one(es: Seq<EncodedEntry>, ws: Seq<Written>)
    ensures
        members(es).len() == es.len(),
        forall|i: int| 0 <= i < es.len() ==> #[trigger] members(es)[i] == es[i]@,
        entries_of(ws).len() == ws.len(),
        forall|i: int| 0 <= i < ws.len() ==> #[trigger] entries_of(ws)[i] == ws[i].entry,
{
}

/// The count of written entries goes up by one for each, and stops at the
/// highest number.
pub proof fn law_entries_are_counted(written: u64, i: int)
    requires
        i >= 0,
    ensures
        written + i <= 0xFFFF_FFFF_FFFF_FFFF ==> count_after(written, i) == written + i,
        written + i > 0xFFFF_FFFF_FFFF_FFFF ==> count_after(written, i) == 0xFFFF_FFFF_FFFF_FFFF,
{
}

/// A body gives the contents of its file back where what it holds for the owner
/// of the password unpacks to them.
pub proof fn law_bodies_give_contents_back(
    password: Option<&str>,
    method: Method,
    body: Seq<u8>,
    bytes: Seq<u8>,
)
    ensures
        restores(password, method, body, bytes) <==> (unsealed(password, body) matches Some(d)
            && unpacked(method, d) == Some(bytes)),
{
}

} // verus!
