//! What a reader of the ZIP format finds in an archive, and the law that it
//! finds there what was written.
//!
//! The reader is the format's own definition: it starts from the end record,
//! follows the ZIP64 records where a field is saturated, walks the central
//! directory, and takes each body from behind its local header.

use crate::bytes::{le, le_at, lemma_le_at, lemma_le_len, lemma_le_range};
use crate::zipwriter::{
    aes_extra, archive, at_most, big_directory, big_sizes, central, central_fixed, central_record,
    central_zip64, end64, end64_locator, end_record, flags, local_fixed, local_header,
    local_zip64, locals, trailer, wire_crc, Member, AES_EXTRA_ID, SIG_CDR, SIG_EOCD, SIG_EOCD64,
    SIG_EOCD64_LOC, SIG_LFH,
};
use vstd::prelude::*;

verus! {

/// One record of the central directory, as a reader decodes it.
#[verifier::ext_equal]
pub struct DirEntry {
    pub name: Seq<u8>,
    pub flags: nat,
    pub method: nat,
    /// DOS (date, time).
    pub mtime: (nat, nat),
    pub crc32: nat,
    pub compressed_size: nat,
    pub uncompressed_size: nat,
    pub offset: nat,
    /// The method behind the encryption, from the 0x9901 extra field.
    pub inner_method: Option<nat>,
}

/// A directory record together with the body it leads to.
#[verifier::ext_equal]
pub struct Extracted {
    pub entry: DirEntry,
    pub body: Seq<u8>,
}

/// The data of the first extra field with the given id.
pub open spec fn extra_field(x: Seq<u8>, id: nat) -> Option<Seq<u8>>
    decreases x.len(),
{
    if x.len() < 4 {
        None
    } else {
        let n = le_at(x, 2, 2);
        if 4 + n > x.len() {
            None
        } else if le_at(x, 0, 2) == id {
            Some(x.subrange(4, 4 + n as int))
        } else {
            extra_field(x.skip(4 + n as int), id)
        }
    }
}

/// An eight-byte number of the ZIP64 extra field.
pub open spec fn zip64_value(z: Option<Seq<u8>>, at: int) -> Option<nat> {
    match z {
        Some(data) => if 0 <= at && at + 8 <= data.len() {
            Some(le_at(data, at, 8))
        } else {
            None
        },
        None => None,
    }
}

/// A 32-bit field, or the ZIP64 number that stands in for a saturated one.
pub open spec fn widened(field: nat, z: Option<Seq<u8>>, at: int) -> Option<nat> {
    if field == 0xFFFF_FFFF {
        zip64_value(z, at)
    } else {
        Some(field)
    }
}

/// Decodes the central record at the front of `s`, and says how long it is.
#[verifier::opaque]
pub open spec fn read_record(s: Seq<u8>) -> Option<(DirEntry, nat)> {
    if s.len() < 46 || le_at(s, 0, 4) != SIG_CDR {
        None
    } else {
        let n = le_at(s, 28, 2);
        let m = le_at(s, 30, 2);
        let k = le_at(s, 32, 2);
        let total = 46 + n + m + k;
        if total > s.len() {
            None
        } else {
            let extra = s.subrange(46 + n as int, 46 + n + m as int);
            let z = extra_field(extra, 1);
            let comp32 = le_at(s, 20, 4);
            let uncomp32 = le_at(s, 24, 4);
            let off32 = le_at(s, 42, 4);
            let at_comp = if uncomp32 == 0xFFFF_FFFF {
                8int
            } else {
                0
            };
            let at_off = at_comp + if comp32 == 0xFFFF_FFFF {
                8int
            } else {
                0
            };
            match (
                widened(uncomp32, z, 0),
                widened(comp32, z, at_comp),
                widened(off32, z, at_off),
            ) {
                (Some(uncomp), Some(comp), Some(off)) => {
                    let inner = match extra_field(extra, AES_EXTRA_ID as nat) {
                        Some(data) => if data.len() == 7 {
                            Some(le_at(data, 5, 2))
                        } else {
                            None
                        },
                        None => None,
                    };
                    Some(
                        (
                            DirEntry {
                                name: s.subrange(46, 46 + n as int),
                                flags: le_at(s, 8, 2),
                                method: le_at(s, 10, 2),
                                mtime: (le_at(s, 14, 2), le_at(s, 12, 2)),
                                crc32: le_at(s, 16, 4),
                                compressed_size: comp,
                                uncompressed_size: uncomp,
                                offset: off,
                                inner_method: inner,
                            },
                            total,
                        ),
                    )
                },
                _ => None,
            }
        }
    }
}

/// Decodes `count` central records, one behind the other, from position `at`.
pub open spec fn read_records(a: Seq<u8>, at: nat, count: nat) -> Option<Seq<DirEntry>>
    decreases count,
{
    if count == 0 {
        Some(Seq::empty())
    } else if at > a.len() {
        None
    } else {
        match read_record(a.skip(at as int)) {
            None => None,
            Some((e, n)) => match read_records(a, at + n, (count - 1) as nat) {
                None => None,
                Some(rest) => Some(seq![e] + rest),
            },
        }
    }
}

/// The body behind the local header that a directory record points to. The
/// local header must carry the same name.
#[verifier::opaque]
pub open spec fn read_body(a: Seq<u8>, e: DirEntry) -> Option<Seq<u8>> {
    let off = e.offset as int;
    if off + 30 > a.len() || le_at(a, off, 4) != SIG_LFH {
        None
    } else {
        let n = le_at(a, off + 26, 2) as int;
        let m = le_at(a, off + 28, 2) as int;
        let start = off + 30 + n + m;
        let end = start + e.compressed_size;
        if end > a.len() || a.subrange(off + 30, off + 30 + n) != e.name {
            None
        } else {
            Some(a.subrange(start, end))
        }
    }
}

/// The entry count, and the place of the central directory.
#[verifier::opaque]
pub open spec fn read_end(a: Seq<u8>) -> Option<(nat, nat)> {
    let end = a.len() - 22;
    if end < 0 || le_at(a, end, 4) != SIG_EOCD || le_at(a, end + 20, 2) != 0 {
        None
    } else {
        let count = le_at(a, end + 10, 2);
        let size = le_at(a, end + 12, 4);
        let offset = le_at(a, end + 16, 4);
        if count == 0xFFFF || size == 0xFFFF_FFFF || offset == 0xFFFF_FFFF {
            if end < 20 || le_at(a, end - 20, 4) != SIG_EOCD64_LOC {
                None
            } else {
                let at = le_at(a, end - 12, 8) as int;
                if at + 56 > a.len() || le_at(a, at, 4) != SIG_EOCD64 {
                    None
                } else {
                    Some((le_at(a, at + 32, 8), le_at(a, at + 48, 8)))
                }
            }
        } else {
            Some((count, offset))
        }
    }
}

/// Everything a reader gets out of an archive.
pub open spec fn read_archive(a: Seq<u8>) -> Option<Seq<Extracted>> {
    match read_end(a) {
        None => None,
        Some((count, offset)) => match read_records(a, offset, count) {
            None => None,
            Some(es) => if forall|i: int|
                0 <= i < es.len() ==> (#[trigger] read_body(a, es[i])) is Some {
                Some(
                    Seq::new(
                        es.len(),
                        |i: int| Extracted { entry: es[i], body: read_body(a, es[i])->0 },
                    ),
                )
            } else {
                None
            },
        },
    }
}

/// The directory record that stands for a member at `offset`.
pub open spec fn dir_entry(m: Member, offset: nat) -> DirEntry {
    DirEntry {
        name: m.name,
        flags: flags(m),
        method: m.method_on_wire as nat,
        mtime: (m.mtime.0 as nat, m.mtime.1 as nat),
        crc32: wire_crc(m),
        compressed_size: m.body.len(),
        uncompressed_size: m.uncompressed_size as nat,
        offset,
        inner_method: if m.encrypted {
            Some(m.inner_method as nat)
        } else {
            None
        },
    }
}

/// The record of the `i`th of `ms`.
pub open spec fn entry_of(ms: Seq<Member>, i: int) -> DirEntry {
    dir_entry(ms[i], locals(ms.take(i)).len())
}

/// What a reader should find of `ms`.
pub open spec fn extracted(ms: Seq<Member>) -> Seq<Extracted> {
    Seq::new(ms.len(), |i: int| Extracted { entry: entry_of(ms, i), body: ms[i].body })
}

proof fn lemma_extra_zip64(m: Member, offset: nat)
    requires
        m.body.len() <= u64::MAX,
        offset <= u64::MAX,
    ensures
        ({
            let extra = central_zip64(m, offset) + aes_extra(m);
            let z = extra_field(extra, 1);
            &&& extra.len() < 0x1_0000
            &&& big_sizes(m) ==> zip64_value(z, 0) == Some(m.uncompressed_size as nat)
                && zip64_value(z, 8) == Some(m.body.len())
            &&& big_sizes(m) && offset >= 0xFFFF_FFFF ==> zip64_value(z, 16) == Some(offset)
            &&& !big_sizes(m) && offset >= 0xFFFF_FFFF ==> zip64_value(z, 0) == Some(offset)
        }),
{
    broadcast use lemma_le_len;

    lemma_le_range();
    let extra = central_zip64(m, offset) + aes_extra(m);
    if big_sizes(m) || offset >= 0xFFFF_FFFF {
        let sizes = if big_sizes(m) {
            le(m.uncompressed_size as nat, 8) + le(m.body.len(), 8)
        } else {
            Seq::empty()
        };
        let place = if offset >= 0xFFFF_FFFF {
            le(offset, 8)
        } else {
            Seq::empty()
        };
        assert(extra.subrange(0, 2) =~= le(1, 2));
        lemma_le_at(extra, 0, 1, 2);
        assert(extra.subrange(2, 4) =~= le(sizes.len() + place.len(), 2));
        lemma_le_at(extra, 2, sizes.len() + place.len(), 2);
        let data = extra.subrange(4, 4 + sizes.len() + place.len() as int);
        assert(data =~= sizes + place);
        if big_sizes(m) {
            assert(data.subrange(0, 8) =~= le(m.uncompressed_size as nat, 8));
            lemma_le_at(data, 0, m.uncompressed_size as nat, 8);
            assert(data.subrange(8, 16) =~= le(m.body.len(), 8));
            lemma_le_at(data, 8, m.body.len(), 8);
        }
        if offset >= 0xFFFF_FFFF {
            let at = sizes.len() as int;
            assert(data.subrange(at, at + 8) =~= le(offset, 8));
            lemma_le_at(data, at, offset, 8);
        }
    }
}

proof fn lemma_extra_aes(m: Member, offset: nat)
    requires
        m.body.len() <= u64::MAX,
        offset <= u64::MAX,
    ensures
        ({
            let data = extra_field(
                central_zip64(m, offset) + aes_extra(m),
                AES_EXTRA_ID as nat,
            );
            &&& m.encrypted ==> data is Some && data->0.len() == 7 && le_at(data->0, 5, 2)
                == m.inner_method
            &&& !m.encrypted ==> data is None
        }),
{
    broadcast use lemma_le_len;

    lemma_le_range();
    reveal_with_fuel(extra_field, 3);
    let z = central_zip64(m, offset);
    let x = aes_extra(m);
    let extra = z + x;
    let rest = if z.len() > 0 {
        let n = (z.len() - 4) as nat;
        assert(extra.subrange(0, 2) =~= le(1, 2));
        lemma_le_at(extra, 0, 1, 2);
        assert(extra.subrange(2, 4) =~= le(n, 2));
        lemma_le_at(extra, 2, n, 2);
        assert(extra.skip(4 + n as int) =~= x);
        extra.skip(4 + n as int)
    } else {
        assert(extra =~= x);
        extra
    };
    if m.encrypted {
        assert(x.subrange(0, 2) =~= le(AES_EXTRA_ID as nat, 2));
        lemma_le_at(x, 0, AES_EXTRA_ID as nat, 2);
        assert(x.subrange(2, 4) =~= le(7, 2));
        lemma_le_at(x, 2, 7, 2);
        let d = x.subrange(4, 11);
        assert(d.subrange(5, 7) =~= le(m.inner_method as nat, 2));
        lemma_le_at(d, 5, m.inner_method as nat, 2);
    }
}

proof fn lemma_central_fixed(m: Member, offset: nat, s: Seq<u8>)
    requires
        m.name.len() < 0x1_0000,
        m.body.len() <= u64::MAX,
        offset <= u64::MAX,
        s.len() >= 46,
        s.take(46) == central_fixed(m, offset),
    ensures
        le_at(s, 0, 4) == SIG_CDR,
        le_at(s, 8, 2) == flags(m),
        le_at(s, 10, 2) == m.method_on_wire,
        le_at(s, 12, 2) == m.mtime.1,
        le_at(s, 14, 2) == m.mtime.0,
        le_at(s, 16, 4) == wire_crc(m),
        le_at(s, 20, 4) == (if big_sizes(m) {
            0xFFFF_FFFF
        } else {
            m.body.len()
        }),
        le_at(s, 24, 4) == (if big_sizes(m) {
            0xFFFF_FFFF
        } else {
            m.uncompressed_size as nat
        }),
        le_at(s, 28, 2) == m.name.len(),
        le_at(s, 30, 2) == (central_zip64(m, offset) + aes_extra(m)).len(),
        le_at(s, 32, 2) == 0,
        le_at(s, 42, 4) == at_most(offset, 0xFFFF_FFFF),
{
    broadcast use lemma_le_len;

    lemma_le_range();
    lemma_extra_zip64(m, offset);
    let f = central_fixed(m, offset);
    let comp = if big_sizes(m) {
        0xFFFF_FFFF
    } else {
        m.body.len()
    };
    let uncomp = if big_sizes(m) {
        0xFFFF_FFFF
    } else {
        m.uncompressed_size as nat
    };
    let xlen = central_zip64(m, offset).len() + aes_extra(m).len();
    assert(s.subrange(0, 4) =~= le(SIG_CDR as nat, 4)) by {
        assert(f.subrange(0, 4) =~= le(SIG_CDR as nat, 4));
        assert(s.subrange(0, 4) =~= s.take(46).subrange(0, 4));
    }
    lemma_le_at(s, 0, SIG_CDR as nat, 4);
    assert(s.subrange(8, 10) =~= s.take(46).subrange(8, 10));
    assert(f.subrange(8, 10) =~= le(flags(m), 2));
    lemma_le_at(s, 8, flags(m), 2);
    assert(s.subrange(10, 12) =~= s.take(46).subrange(10, 12));
    assert(f.subrange(10, 12) =~= le(m.method_on_wire as nat, 2));
    lemma_le_at(s, 10, m.method_on_wire as nat, 2);
    assert(s.subrange(12, 14) =~= s.take(46).subrange(12, 14));
    assert(f.subrange(12, 14) =~= le(m.mtime.1 as nat, 2));
    lemma_le_at(s, 12, m.mtime.1 as nat, 2);
    assert(s.subrange(14, 16) =~= s.take(46).subrange(14, 16));
    assert(f.subrange(14, 16) =~= le(m.mtime.0 as nat, 2));
    lemma_le_at(s, 14, m.mtime.0 as nat, 2);
    assert(s.subrange(16, 20) =~= s.take(46).subrange(16, 20));
    assert(f.subrange(16, 20) =~= le(wire_crc(m), 4));
    lemma_le_at(s, 16, wire_crc(m), 4);
    assert(s.subrange(20, 24) =~= s.take(46).subrange(20, 24));
    assert(f.subrange(20, 24) =~= le(comp, 4));
    lemma_le_at(s, 20, comp, 4);
    assert(s.subrange(24, 28) =~= s.take(46).subrange(24, 28));
    assert(f.subrange(24, 28) =~= le(uncomp, 4));
    lemma_le_at(s, 24, uncomp, 4);
    assert(s.subrange(28, 30) =~= s.take(46).subrange(28, 30));
    assert(f.subrange(28, 30) =~= le(m.name.len(), 2));
    lemma_le_at(s, 28, m.name.len(), 2);
    assert(s.subrange(30, 32) =~= s.take(46).subrange(30, 32));
    assert(f.subrange(30, 32) =~= le(xlen, 2));
    lemma_le_at(s, 30, xlen, 2);
    assert(s.subrange(32, 34) =~= s.take(46).subrange(32, 34));
    assert(f.subrange(32, 34) =~= le(0, 2));
    lemma_le_at(s, 32, 0, 2);
    assert(s.subrange(42, 46) =~= s.take(46).subrange(42, 46));
    assert(f.subrange(42, 46) =~= le(at_most(offset, 0xFFFF_FFFF), 4));
    lemma_le_at(s, 42, at_most(offset, 0xFFFF_FFFF), 4);
}

/// A central record is read back as the entry it was written for.
pub proof fn law_record_round_trip(m: Member, offset: nat, rest: Seq<u8>)
    requires
        m.name.len() < 0x1_0000,
        m.body.len() <= u64::MAX,
        offset <= u64::MAX,
    ensures
        read_record(central_record(m, offset) + rest) == Some(
            (dir_entry(m, offset), central_record(m, offset).len()),
        ),
{
    broadcast use lemma_le_len;

    reveal(read_record);
    let s = central_record(m, offset) + rest;
    let extra = central_zip64(m, offset) + aes_extra(m);
    assert(s.take(46) =~= central_fixed(m, offset));
    lemma_central_fixed(m, offset, s);
    lemma_extra_zip64(m, offset);
    lemma_extra_aes(m, offset);
    let n = m.name.len() as int;
    assert(s.subrange(46, 46 + n) =~= m.name);
    assert(s.subrange(46 + n, 46 + n + extra.len()) =~= extra);
}

proof fn lemma_locals_prefix(ms: Seq<Member>, i: int)
    requires
        0 <= i <= ms.len(),
    ensures
        locals(ms.take(i)).len() <= locals(ms).len(),
        locals(ms).take(locals(ms.take(i)).len() as int) == locals(ms.take(i)),
    decreases ms.len(),
{
    if i == ms.len() {
        assert(ms.take(i) =~= ms);
        assert(locals(ms).take(locals(ms).len() as int) =~= locals(ms));
    } else {
        lemma_locals_prefix(ms.drop_last(), i);
        assert(ms.drop_last().take(i) =~= ms.take(i));
        let n = locals(ms.take(i)).len() as int;
        assert(locals(ms).take(n) =~= locals(ms.drop_last()).take(n));
    }
}

proof fn lemma_central_prefix(ms: Seq<Member>, i: int)
    requires
        0 <= i <= ms.len(),
    ensures
        central(ms.take(i)).len() <= central(ms).len(),
        central(ms).take(central(ms.take(i)).len() as int) == central(ms.take(i)),
    decreases ms.len(),
{
    if i == ms.len() {
        assert(ms.take(i) =~= ms);
        assert(central(ms).take(central(ms).len() as int) =~= central(ms));
    } else {
        lemma_central_prefix(ms.drop_last(), i);
        assert(ms.drop_last().take(i) =~= ms.take(i));
        let n = central(ms.take(i)).len() as int;
        assert(central(ms).take(n) =~= central(ms.drop_last()).take(n));
    }
}

/// Where a part stands in a whole, it is found there in whatever holds the whole.
proof fn lemma_window(a: Seq<u8>, front: nat, whole: Seq<u8>, before: Seq<u8>, part: Seq<u8>)
    requires
        front + whole.len() <= a.len(),
        a.subrange(front as int, (front + whole.len()) as int) == whole,
        before.len() + part.len() <= whole.len(),
        whole.take((before.len() + part.len()) as int) == before + part,
    ensures
        a.subrange(
            (front + before.len()) as int,
            (front + before.len() + part.len()) as int,
        ) == part,
{
    let at = (front + before.len()) as int;
    assert forall|k: int| 0 <= k < part.len() implies a[at + k] == part[k] by {
        let j = before.len() + k;
        assert(a.subrange(front as int, (front + whole.len()) as int)[j] == a[front + j]);
        assert(whole.take((before.len() + part.len()) as int)[j] == whole[j]);
        assert((before + part)[j] == part[k]);
    }
    assert(a.subrange(at, at + part.len()) =~= part);
}

proof fn lemma_at_front(a: Seq<u8>, at: nat, part: Seq<u8>)
    requires
        at + part.len() <= a.len(),
        a.subrange(at as int, (at + part.len()) as int) == part,
    ensures
        a.skip(at as int) == part + a.skip((at + part.len()) as int),
{
    assert forall|k: int| 0 <= k < part.len() implies a[at + k] == part[k] by {
        assert(a.subrange(at as int, (at + part.len()) as int)[k] == a[at + k]);
    }
    assert(a.skip(at as int) =~= part + a.skip((at + part.len()) as int));
}

proof fn lemma_central_step(ms: Seq<Member>, i: int)
    requires
        0 <= i < ms.len(),
    ensures
        central(ms.take(i + 1)) == central(ms.take(i)) + central_record(
            ms[i],
            locals(ms.take(i)).len(),
        ),
        locals(ms.take(i + 1)) == locals(ms.take(i)) + (local_header(ms[i]) + ms[i].body),
{
    assert(ms.take(i + 1).drop_last() =~= ms.take(i));
    assert(ms.take(i + 1).last() == ms[i]);
    assert(locals(ms.take(i + 1)) =~= locals(ms.take(i)) + (local_header(ms[i]) + ms[i].body));
}

proof fn lemma_record_found(a: Seq<u8>, at: nat, m: Member, offset: nat)
    requires
        m.name.len() < 0x1_0000,
        m.body.len() <= u64::MAX,
        offset <= u64::MAX,
        at + central_record(m, offset).len() <= a.len(),
        a.subrange(at as int, (at + central_record(m, offset).len()) as int) == central_record(
            m,
            offset,
        ),
    ensures
        read_record(a.skip(at as int)) == Some(
            (dir_entry(m, offset), central_record(m, offset).len()),
        ),
{
    let r = central_record(m, offset);
    lemma_at_front(a, at, r);
    law_record_round_trip(m, offset, a.skip((at + r.len()) as int));
}

/// The `i`th record of the directory of `ms` is read back.
proof fn lemma_record_at(a: Seq<u8>, ms: Seq<Member>, i: int)
    requires
        0 <= i < ms.len(),
        ms[i].name.len() < 0x1_0000,
        locals(ms).len() <= u64::MAX,
        locals(ms).len() + central(ms).len() <= a.len(),
        a.subrange(
            locals(ms).len() as int,
            (locals(ms).len() + central(ms).len()) as int,
        ) == central(ms),
    ensures
        ({
            let at = locals(ms).len() + central(ms.take(i)).len();
            let next = locals(ms).len() + central(ms.take(i + 1)).len();
            &&& at <= next <= a.len()
            &&& read_record(a.skip(at as int)) == Some((entry_of(ms, i), (next - at) as nat))
        }),
{
    let off = locals(ms.take(i)).len();
    let at = locals(ms).len() + central(ms.take(i)).len();
    lemma_central_prefix(ms, i + 1);
    lemma_central_step(ms, i);
    lemma_locals_prefix(ms, i);
    lemma_locals_prefix(ms, i + 1);
    lemma_window(
        a,
        locals(ms).len(),
        central(ms),
        central(ms.take(i)),
        central_record(ms[i], off),
    );
    lemma_record_found(a, at, ms[i], off);
}

/// Where the `i`th record of the directory of `ms` starts.
#[verifier::opaque]
spec fn record_start(ms: Seq<Member>, i: int) -> nat {
    locals(ms).len() + central(ms.take(i)).len()
}

/// A record that decodes to `e` stands between `from` and `to`.
#[verifier::opaque]
spec fn record_here(a: Seq<u8>, from: nat, to: nat, e: DirEntry) -> bool {
    &&& from <= to <= a.len()
    &&& read_record(a.skip(from as int)) == Some((e, (to - from) as nat))
}

/// Records that are found one behind the other are read as a directory.
proof fn lemma_records(a: Seq<u8>, starts: Seq<nat>, es: Seq<DirEntry>, i: int)
    requires
        starts.len() == es.len() + 1,
        0 <= i <= es.len(),
        forall|j: int|
            0 <= j < es.len() ==> record_here(a, starts[j], starts[j + 1], #[trigger] es[j]),
    ensures
        read_records(a, starts[i], (es.len() - i) as nat) == Some(es.skip(i)),
    decreases es.len() - i,
{
    if i == es.len() {
        assert(es.skip(i) =~= Seq::<DirEntry>::empty());
    } else {
        lemma_records(a, starts, es, i + 1);
        assert(record_here(a, starts[i], starts[i + 1], es[i]));
        reveal(record_here);
        assert(seq![es[i]] + es.skip(i + 1) =~= es.skip(i));
    }
}

proof fn lemma_local_fields(m: Member)
    requires
        m.name.len() < 0x1_0000,
    ensures
        ({
            let h = local_header(m);
            let n = m.name.len() as int;
            let x = (local_zip64(m).len() + aes_extra(m).len()) as int;
            &&& h.len() == 30 + n + x
            &&& h.subrange(0, 4) == le(SIG_LFH as nat, 4)
            &&& h.subrange(26, 28) == le(n as nat, 2)
            &&& h.subrange(28, 30) == le(x as nat, 2)
            &&& h.subrange(30, 30 + n) == m.name
            &&& x < 0x1_0000
        }),
{
    broadcast use lemma_le_len;

    let h = local_header(m);
    let f = local_fixed(m);
    let n = m.name.len() as int;
    let x = (local_zip64(m).len() + aes_extra(m).len()) as int;
    assert(f.subrange(0, 4) =~= le(SIG_LFH as nat, 4));
    assert(f.subrange(26, 28) =~= le(n as nat, 2));
    assert(f.subrange(28, 30) =~= le(x as nat, 2));
    assert(h.subrange(0, 4) =~= f.subrange(0, 4));
    assert(h.subrange(26, 28) =~= f.subrange(26, 28));
    assert(h.subrange(28, 30) =~= f.subrange(28, 30));
    assert(h.subrange(30, 30 + n) =~= m.name);
}

/// A body behind a header is read back.
proof fn lemma_body_at(a: Seq<u8>, e: DirEntry, h: Seq<u8>, body: Seq<u8>, x: nat)
    requires
        e.offset + h.len() + body.len() <= a.len(),
        a.subrange(e.offset as int, (e.offset + h.len() + body.len()) as int) == h + body,
        e.compressed_size == body.len(),
        e.name.len() < 0x1_0000,
        x < 0x1_0000,
        h.len() == 30 + e.name.len() + x,
        h.subrange(0, 4) == le(SIG_LFH as nat, 4),
        h.subrange(26, 28) == le(e.name.len(), 2),
        h.subrange(28, 30) == le(x, 2),
        h.subrange(30, 30 + e.name.len() as int) == e.name,
    ensures
        read_body(a, e) == Some(body),
{
    reveal(read_body);
    lemma_le_range();
    let part = h + body;
    let n = e.name.len() as int;
    let o = e.offset as int;
    lemma_slice(a, o, part, 0, 4);
    assert(part.subrange(0, 4) =~= h.subrange(0, 4));
    lemma_le_at(a, o, SIG_LFH as nat, 4);
    lemma_slice(a, o, part, 26, 28);
    assert(part.subrange(26, 28) =~= h.subrange(26, 28));
    lemma_le_at(a, o + 26, n as nat, 2);
    lemma_slice(a, o, part, 28, 30);
    assert(part.subrange(28, 30) =~= h.subrange(28, 30));
    lemma_le_at(a, o + 28, x, 2);
    lemma_slice(a, o, part, 30, 30 + n);
    assert(part.subrange(30, 30 + n) =~= h.subrange(30, 30 + n));
    lemma_slice(a, o, part, h.len() as int, part.len() as int);
    assert(part.subrange(h.len() as int, part.len() as int) =~= body);
}

/// The body of the `i`th of `ms` is read back.
proof fn lemma_body(a: Seq<u8>, ms: Seq<Member>, i: int)
    requires
        0 <= i < ms.len(),
        ms[i].name.len() < 0x1_0000,
        locals(ms).len() <= a.len(),
        a.subrange(0, locals(ms).len() as int) == locals(ms),
    ensures
        read_body(a, entry_of(ms, i)) == Some(ms[i].body),
{
    let m = ms[i];
    lemma_locals_prefix(ms, i + 1);
    lemma_central_step(ms, i);
    lemma_window(a, 0, locals(ms), locals(ms.take(i)), local_header(m) + m.body);
    lemma_local_fields(m);
    lemma_body_at(
        a,
        entry_of(ms, i),
        local_header(m),
        m.body,
        local_zip64(m).len() + aes_extra(m).len(),
    );
}

proof fn lemma_slice(a: Seq<u8>, o: int, part: Seq<u8>, from: int, to: int)
    requires
        0 <= o,
        o + part.len() <= a.len(),
        a.subrange(o, o + part.len()) == part,
        0 <= from <= to <= part.len(),
    ensures
        a.subrange(o + from, o + to) == part.subrange(from, to),
{
    assert forall|k: int| from <= k < to implies a[o + k] == part[k] by {
        assert(a.subrange(o, o + part.len())[k] == a[o + k]);
    }
    assert(a.subrange(o + from, o + to) =~= part.subrange(from, to));
}

/// The end records lead to the directory.
proof fn lemma_end(front: Seq<u8>, count: nat, size: nat, offset: nat)
    requires
        front.len() == offset + size,
        offset + size <= u64::MAX,
        count <= u64::MAX,
    ensures
        read_end(front + trailer(count, size, offset)) == Some((count, offset)),
{
    broadcast use lemma_le_len;

    lemma_le_range();
    reveal(read_end);
    let t = trailer(count, size, offset);
    let a = front + t;
    let e = end_record(count, size, offset);
    let end = a.len() - 22;
    assert(a.subrange(end, end + 22) =~= e);
    assert(a.subrange(end, end + 4) =~= e.subrange(0, 4));
    assert(e.subrange(0, 4) =~= le(SIG_EOCD as nat, 4));
    lemma_le_at(a, end, SIG_EOCD as nat, 4);
    assert(a.subrange(end + 10, end + 12) =~= e.subrange(10, 12));
    assert(e.subrange(10, 12) =~= le(at_most(count, 0xFFFF), 2));
    lemma_le_at(a, end + 10, at_most(count, 0xFFFF), 2);
    assert(a.subrange(end + 12, end + 16) =~= e.subrange(12, 16));
    assert(e.subrange(12, 16) =~= le(at_most(size, 0xFFFF_FFFF), 4));
    lemma_le_at(a, end + 12, at_most(size, 0xFFFF_FFFF), 4);
    assert(a.subrange(end + 16, end + 20) =~= e.subrange(16, 20));
    assert(e.subrange(16, 20) =~= le(at_most(offset, 0xFFFF_FFFF), 4));
    lemma_le_at(a, end + 16, at_most(offset, 0xFFFF_FFFF), 4);
    assert(a.subrange(end + 20, end + 22) =~= e.subrange(20, 22));
    assert(e.subrange(20, 22) =~= le(0, 2));
    lemma_le_at(a, end + 20, 0, 2);
    if big_directory(count, size, offset) {
        let r = end64(count, size, offset);
        let at = (offset + size) as int;
        let l = end64_locator(at as nat);
        assert(t =~= r + l + e);
        assert(a.subrange(end - 20, end) =~= l);
        assert(a.subrange(end - 20, end - 16) =~= l.subrange(0, 4));
        assert(l.subrange(0, 4) =~= le(SIG_EOCD64_LOC as nat, 4));
        lemma_le_at(a, end - 20, SIG_EOCD64_LOC as nat, 4);
        assert(a.subrange(end - 12, end - 4) =~= l.subrange(8, 16));
        assert(l.subrange(8, 16) =~= le(at as nat, 8));
        lemma_le_at(a, end - 12, at as nat, 8);
        assert(a.subrange(at, at + 56) =~= r);
        assert(a.subrange(at, at + 4) =~= r.subrange(0, 4));
        assert(r.subrange(0, 4) =~= le(SIG_EOCD64 as nat, 4));
        lemma_le_at(a, at, SIG_EOCD64 as nat, 4);
        assert(a.subrange(at + 32, at + 40) =~= r.subrange(32, 40));
        assert(r.subrange(32, 40) =~= le(count, 8));
        lemma_le_at(a, at + 32, count, 8);
        assert(a.subrange(at + 48, at + 56) =~= r.subrange(48, 56));
        assert(r.subrange(48, 56) =~= le(offset, 8));
        lemma_le_at(a, at + 48, offset, 8);
    }
}

proof fn lemma_assemble(a: Seq<u8>, offset: nat, es: Seq<DirEntry>, bodies: Seq<Seq<u8>>)
    requires
        bodies.len() == es.len(),
        read_end(a) == Some((es.len(), offset)),
        read_records(a, offset, es.len()) == Some(es),
        forall|i: int| 0 <= i < es.len() ==> (#[trigger] read_body(a, es[i])) == Some(bodies[i]),
    ensures
        read_archive(a) == Some(
            Seq::new(es.len(), |i: int| Extracted { entry: es[i], body: bodies[i] }),
        ),
{
    assert(read_archive(a)->0 =~= Seq::new(
        es.len(),
        |i: int| Extracted { entry: es[i], body: bodies[i] },
    ));
}

proof fn lemma_record_here(a: Seq<u8>, ms: Seq<Member>, i: int)
    requires
        0 <= i < ms.len(),
        ms[i].name.len() < 0x1_0000,
        locals(ms).len() <= u64::MAX,
        locals(ms).len() + central(ms).len() <= a.len(),
        a.subrange(
            locals(ms).len() as int,
            (locals(ms).len() + central(ms).len()) as int,
        ) == central(ms),
    ensures
        record_here(a, record_start(ms, i), record_start(ms, i + 1), entry_of(ms, i)),
{
    reveal(record_here);
    reveal(record_start);
    lemma_record_at(a, ms, i);
}

/// The whole directory of `ms` is read back.
proof fn lemma_directory(a: Seq<u8>, ms: Seq<Member>, es: Seq<DirEntry>)
    requires
        forall|j: int| 0 <= j < ms.len() ==> (#[trigger] ms[j]).name.len() < 0x1_0000,
        locals(ms).len() <= u64::MAX,
        locals(ms).len() + central(ms).len() <= a.len(),
        a.subrange(
            locals(ms).len() as int,
            (locals(ms).len() + central(ms).len()) as int,
        ) == central(ms),
        es.len() == ms.len(),
        forall|j: int| 0 <= j < ms.len() ==> (#[trigger] es[j]) == entry_of(ms, j),
    ensures
        read_records(a, locals(ms).len(), ms.len()) == Some(es),
{
    let starts = Seq::new(ms.len() + 1, |j: int| record_start(ms, j));
    assert forall|j: int| 0 <= j < es.len() implies record_here(
        a,
        starts[j],
        starts[j + 1],
        #[trigger] es[j],
    ) by {
        lemma_record_here(a, ms, j);
    }
    lemma_records(a, starts, es, 0);
    assert(es.skip(0) =~= es);
    assert(starts[0] == locals(ms).len()) by {
        reveal(record_start);
        assert(ms.take(0) =~= Seq::empty());
    }
}

proof fn lemma_archive(a: Seq<u8>, ms: Seq<Member>)
    requires
        forall|j: int| 0 <= j < ms.len() ==> (#[trigger] ms[j]).name.len() < 0x1_0000,
        locals(ms).len() <= u64::MAX,
        locals(ms).len() + central(ms).len() <= a.len(),
        a.subrange(0, locals(ms).len() as int) == locals(ms),
        a.subrange(
            locals(ms).len() as int,
            (locals(ms).len() + central(ms).len()) as int,
        ) == central(ms),
        read_end(a) == Some((ms.len(), locals(ms).len())),
    ensures
        read_archive(a) == Some(extracted(ms)),
{
    let es = Seq::new(ms.len(), |j: int| entry_of(ms, j));
    let bodies = Seq::new(ms.len(), |j: int| ms[j].body);
    lemma_directory(a, ms, es);
    assert forall|i: int| 0 <= i < es.len() implies (#[trigger] read_body(a, es[i])) == Some(
        bodies[i],
    ) by {
        lemma_body(a, ms, i);
    }
    lemma_assemble(a, locals(ms).len(), es, bodies);
    assert(extracted(ms) =~= Seq::new(
        es.len(),
        |i: int| Extracted { entry: es[i], body: bodies[i] },
    ));
}

/// Reading an archive gives back what was written to it: every entry, in order,
/// with its name, flags, method, time, sizes, checksum and body. This holds of
/// every archive whose offsets fit in 64 bits and whose names fit their 16-bit
/// length field.
pub proof fn law_archive_round_trip(ms: Seq<Member>)
    requires
        forall|j: int| 0 <= j < ms.len() ==> (#[trigger] ms[j]).name.len() < 0x1_0000,
        locals(ms).len() + central(ms).len() <= u64::MAX,
    ensures
        read_archive(archive(ms)) == Some(extracted(ms)),
{
    let a = archive(ms);
    let l = locals(ms);
    let c = central(ms);
    let t = trailer(ms.len(), c.len(), l.len());
    lemma_count(ms);
    assert(a =~= (l + c) + t);
    assert(a.subrange(0, l.len() as int) =~= l);
    assert(a.subrange(l.len() as int, (l.len() + c.len()) as int) =~= c);
    lemma_end(l + c, ms.len(), c.len(), l.len());
    lemma_archive(a, ms);
}

/// Every record takes room, so the count fits wherever the size does.
proof fn lemma_count(ms: Seq<Member>)
    ensures
        ms.len() <= central(ms).len(),
    decreases ms.len(),
{
    broadcast use lemma_le_len;

    if ms.len() > 0 {
        lemma_count(ms.drop_last());
    }
}

} // verus!
