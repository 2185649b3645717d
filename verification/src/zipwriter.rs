//! ZIP writer.
//!
//! Lays out, byte for byte:
//! - local file headers, the central directory and its end record
//! - ZIP64 extra fields, the ZIP64 end record and its locator where a size, an
//!   offset or the number of entries leaves the 32-bit (16-bit) range
//! - the UTF-8 name flag (bit 11), so that file names round-trip
//! - WinZIP AES-256 (AE-2): extra field 0x9901, compression method 99
//!
//! The writer hands out bytes in the order in which they belong in the file;
//! putting them there is the caller's business.

use crate::bytes::{push_u16, push_u32, push_u64};
#[allow(unused_imports)]
use crate::bytes::{le, lemma_le_len};
#[allow(unused_imports)]
use vstd::utf8::encode_utf8;
use vstd::prelude::*;

verus! {

pub const SIG_LFH: u32 = 0x0403_4b50;

pub const SIG_CDR: u32 = 0x0201_4b50;

pub const SIG_EOCD: u32 = 0x0605_4b50;

pub const SIG_EOCD64: u32 = 0x0606_4b50;

pub const SIG_EOCD64_LOC: u32 = 0x0706_4b50;

pub const METHOD_AES: u16 = 99;

pub const AES_EXTRA_ID: u16 = 0x9901;

/// The version-made-by field: Unix, zip 3.0.
pub const MADE_BY: u16 = 0x031E;

/// The external attributes of every entry: a regular file, `rw-r--r--`, with
/// the Unix mode in the high half.
pub const FILE_ATTRIBUTES: u32 = 0x81A4_0000;

/// The archive would leave the 64-bit range in which offsets can be written.
#[derive(Debug, PartialEq, Eq, Structural, Clone, Copy)]
pub enum ZipError {
    TooLarge,
}

/// Per-entry info produced by the workers, consumed by the writer.
#[derive(Debug)]
pub struct EncodedEntry {
    /// Position in the sorted walk, by which arrivals are put back in order.
    pub index: u64,
    pub name: String,
    /// Final body: the WinZIP layout if encrypted, plain compressed data otherwise.
    pub body: Vec<u8>,
    pub uncompressed_size: u64,
    /// CRC-32 of the original plaintext. Zero on the wire under AE-2.
    pub crc32: u32,
    /// The raw method id, or 99 if encrypted.
    pub method_on_wire: u16,
    /// Real compression method, which the AES extra field names.
    pub inner_method: u16,
    pub encrypted: bool,
    /// Set general-purpose bit 1 (LZMA: an end-of-stream marker is present).
    pub gp_bit1: bool,
    /// Minimum ZIP version required to extract this entry.
    pub version_needed: u16,
    /// DOS (date, time).
    pub mtime: (u16, u16),
}

/// What of an entry goes into the archive.
#[verifier::ext_equal]
pub struct Member {
    pub name: Seq<u8>,
    pub body: Seq<u8>,
    pub uncompressed_size: u64,
    pub crc32: u32,
    pub method_on_wire: u16,
    pub inner_method: u16,
    pub encrypted: bool,
    pub gp_bit1: bool,
    pub version_needed: u16,
    pub mtime: (u16, u16),
}

impl View for EncodedEntry {
    type V = Member;

    open spec fn view(&self) -> Member {
        Member {
            name: encode_utf8(self.name@),
            body: self.body@,
            uncompressed_size: self.uncompressed_size,
            crc32: self.crc32,
            method_on_wire: self.method_on_wire,
            inner_method: self.inner_method,
            encrypted: self.encrypted,
            gp_bit1: self.gp_bit1,
            version_needed: self.version_needed,
            mtime: self.mtime,
        }
    }
}

pub open spec fn at_least(x: nat, low: nat) -> nat {
    if x < low {
        low
    } else {
        x
    }
}

pub open spec fn at_most(x: nat, high: nat) -> nat {
    if x > high {
        high
    } else {
        x
    }
}

/// General-purpose flags: bit 11 always, bit 0 for encrypted entries, bit 1 on
/// the codec's request.
pub open spec fn flags(m: Member) -> nat {
    (2048 + (if m.encrypted {
        1int
    } else {
        0
    }) + (if m.gp_bit1 {
        2int
    } else {
        0
    })) as nat
}

/// The CRC that is written: zero under AE-2.
pub open spec fn wire_crc(m: Member) -> nat {
    if m.encrypted {
        0
    } else {
        m.crc32 as nat
    }
}

/// One of the two sizes does not fit in its 32-bit field.
pub open spec fn big_sizes(m: Member) -> bool {
    m.body.len() >= 0xFFFF_FFFF || m.uncompressed_size >= 0xFFFF_FFFF
}

/// The two 32-bit size fields, compressed size first.
pub open spec fn size_fields(m: Member) -> Seq<u8> {
    if big_sizes(m) {
        le(0xFFFF_FFFF, 4) + le(0xFFFF_FFFF, 4)
    } else {
        le(m.body.len(), 4) + le(m.uncompressed_size as nat, 4)
    }
}

/// The 0x9901 extra field: AE-2, vendor `AE`, 256-bit key, real method.
pub open spec fn aes_extra(m: Member) -> Seq<u8> {
    if m.encrypted {
        le(AES_EXTRA_ID as nat, 2) + le(7, 2) + le(2, 2) + seq![0x41u8, 0x45u8, 0x03u8] + le(
            m.inner_method as nat,
            2,
        )
    } else {
        Seq::empty()
    }
}

/// The ZIP64 extra field of a local header.
pub open spec fn local_zip64(m: Member) -> Seq<u8> {
    if big_sizes(m) {
        le(1, 2) + le(16, 2) + le(m.uncompressed_size as nat, 8) + le(m.body.len(), 8)
    } else {
        Seq::empty()
    }
}

/// The fixed 30 bytes of a local file header.
pub open spec fn local_fixed(m: Member) -> Seq<u8> {
    le(SIG_LFH as nat, 4) + le(
        at_least(
            m.version_needed as nat,
            if big_sizes(m) {
                45
            } else {
                20
            },
        ),
        2,
    ) + le(flags(m), 2) + le(m.method_on_wire as nat, 2) + le(m.mtime.1 as nat, 2) + le(
        m.mtime.0 as nat,
        2,
    ) + le(wire_crc(m), 4) + size_fields(m) + le(m.name.len() % 0x1_0000, 2) + le(
        local_zip64(m).len() + aes_extra(m).len(),
        2,
    )
}

/// A whole local file header.
pub open spec fn local_header(m: Member) -> Seq<u8> {
    local_fixed(m) + m.name + local_zip64(m) + aes_extra(m)
}

/// The headers and bodies of `ms`, one after the other.
pub open spec fn locals(ms: Seq<Member>) -> Seq<u8>
    decreases ms.len(),
{
    if ms.len() == 0 {
        Seq::empty()
    } else {
        locals(ms.drop_last()) + local_header(ms.last()) + ms.last().body
    }
}

/// The ZIP64 extra field of a central record.
pub open spec fn central_zip64(m: Member, offset: nat) -> Seq<u8> {
    let sizes = if big_sizes(m) {
        le(m.uncompressed_size as nat, 8) + le(m.body.len(), 8)
    } else {
        Seq::empty()
    };
    let place = if offset >= 0xFFFF_FFFF {
        le(offset, 8)
    } else {
        Seq::empty()
    };
    if big_sizes(m) || offset >= 0xFFFF_FFFF {
        le(1, 2) + le(sizes.len() + place.len(), 2) + sizes + place
    } else {
        Seq::empty()
    }
}

/// The fixed 46 bytes of a central record.
pub open spec fn central_fixed(m: Member, offset: nat) -> Seq<u8> {
    le(SIG_CDR as nat, 4) + le(MADE_BY as nat, 2) + le(at_least(m.version_needed as nat, 45), 2)
        + le(flags(m), 2) + le(m.method_on_wire as nat, 2) + le(m.mtime.1 as nat, 2) + le(
        m.mtime.0 as nat,
        2,
    ) + le(wire_crc(m), 4) + size_fields(m) + le(m.name.len() % 0x1_0000, 2) + le(
        central_zip64(m, offset).len() + aes_extra(m).len(),
        2,
    ) + le(0, 2) + le(0, 2) + le(0, 2) + le(FILE_ATTRIBUTES as nat, 4) + le(
        at_most(offset, 0xFFFF_FFFF),
        4,
    )
}

/// A whole central record for a member whose local header is at `offset`.
pub open spec fn central_record(m: Member, offset: nat) -> Seq<u8> {
    central_fixed(m, offset) + m.name + central_zip64(m, offset) + aes_extra(m)
}

/// The central directory of `ms`.
pub open spec fn central(ms: Seq<Member>) -> Seq<u8>
    decreases ms.len(),
{
    if ms.len() == 0 {
        Seq::empty()
    } else {
        central(ms.drop_last()) + central_record(ms.last(), locals(ms.drop_last()).len())
    }
}

/// The ZIP64 end record and its locator are needed.
pub open spec fn big_directory(count: nat, size: nat, offset: nat) -> bool {
    count >= 0xFFFF || offset >= 0xFFFF_FFFF || size >= 0xFFFF_FFFF
}

/// The ZIP64 end record.
pub open spec fn end64(count: nat, size: nat, offset: nat) -> Seq<u8> {
    le(SIG_EOCD64 as nat, 4) + le(44, 8) + le(MADE_BY as nat, 2) + le(45, 2) + le(0, 4) + le(0, 4)
        + le(count, 8) + le(count, 8) + le(size, 8) + le(offset, 8)
}

/// The locator of the ZIP64 end record.
pub open spec fn end64_locator(at: nat) -> Seq<u8> {
    le(SIG_EOCD64_LOC as nat, 4) + le(0, 4) + le(at, 8) + le(1, 4)
}

/// The end-of-central-directory record, with saturated fields.
pub open spec fn end_record(count: nat, size: nat, offset: nat) -> Seq<u8> {
    le(SIG_EOCD as nat, 4) + le(0, 2) + le(0, 2) + le(at_most(count, 0xFFFF), 2) + le(
        at_most(count, 0xFFFF),
        2,
    ) + le(at_most(size, 0xFFFF_FFFF), 4) + le(at_most(offset, 0xFFFF_FFFF), 4) + le(0, 2)
}

/// Everything behind the central directory.
pub open spec fn trailer(count: nat, size: nat, offset: nat) -> Seq<u8> {
    if big_directory(count, size, offset) {
        end64(count, size, offset) + end64_locator(offset + size) + end_record(count, size, offset)
    } else {
        end_record(count, size, offset)
    }
}

/// What stands in the file behind the last body.
pub open spec fn directory(ms: Seq<Member>) -> Seq<u8> {
    central(ms) + trailer(ms.len(), central(ms).len(), locals(ms).len())
}

/// The whole archive.
pub open spec fn archive(ms: Seq<Member>) -> Seq<u8> {
    locals(ms) + directory(ms)
}

/// What the central directory keeps of an entry.
struct CentralEntry {
    name: Vec<u8>,
    method_on_wire: u16,
    inner_method: u16,
    encrypted: bool,
    gp_bit1: bool,
    version_needed: u16,
    crc32: u32,
    comp_size: u64,
    uncomp_size: u64,
    lfh_offset: u64,
    mtime: (u16, u16),
}

impl CentralEntry {
    spec fn describes(&self, m: Member, offset: nat) -> bool {
        &&& self.name@ == m.name
        &&& self.method_on_wire == m.method_on_wire
        &&& self.inner_method == m.inner_method
        &&& self.encrypted == m.encrypted
        &&& self.gp_bit1 == m.gp_bit1
        &&& at_least(self.version_needed as nat, 45) == at_least(m.version_needed as nat, 45)
        &&& self.crc32 as nat == wire_crc(m)
        &&& self.comp_size as nat == m.body.len()
        &&& self.uncomp_size == m.uncompressed_size
        &&& self.lfh_offset as nat == offset
        &&& self.mtime == m.mtime
    }
}

fn flag_word(encrypted: bool, gp_bit1: bool) -> (w: u16)
    ensures
        w == 2048 + (if encrypted {
            1int
        } else {
            0
        }) + (if gp_bit1 {
            2int
        } else {
            0
        }),
{
    let mut w: u16 = 2048;
    if encrypted {
        w = w + 1;
    }
    if gp_bit1 {
        w = w + 2;
    }
    w
}

fn push_aes_extra(out: &mut Vec<u8>, inner_method: u16)
    ensures
        final(out)@ == old(out)@ + (le(AES_EXTRA_ID as nat, 2) + le(7, 2) + le(2, 2) + seq![
            0x41u8,
            0x45u8,
            0x03u8,
        ] + le(inner_method as nat, 2)),
{
    push_u16(out, AES_EXTRA_ID);
    push_u16(out, 7);
    push_u16(out, 2);
    out.push(0x41);
    out.push(0x45);
    out.push(0x03);
    push_u16(out, inner_method);
    proof {
        broadcast use lemma_le_len;

        assert(out@ =~= old(out)@ + (le(AES_EXTRA_ID as nat, 2) + le(7, 2) + le(2, 2) + seq![
            0x41u8,
            0x45u8,
            0x03u8,
        ] + le(inner_method as nat, 2)));
    }
}

fn push_bytes(out: &mut Vec<u8>, more: &[u8])
    ensures
        final(out)@ == old(out)@ + more@,
{
    out.extend_from_slice(more);
    assert(out@ =~= old(out)@ + more@);
}

/// The low sixteen bits of a length, as the length fields hold it.
fn length_field(n: usize) -> (w: u16)
    ensures
        w as nat == n as nat % 0x1_0000,
{
    (n % 0x1_0000) as u16
}

fn central_bytes(e: &CentralEntry, Ghost(m): Ghost<Member>, Ghost(offset): Ghost<nat>) -> (r: Vec<
    u8,
>)
    requires
        e.describes(m, offset),
    ensures
        r@ == central_record(m, offset),
{
    broadcast use lemma_le_len;

    let big_size: bool = e.comp_size >= 0xFFFF_FFFF || e.uncomp_size >= 0xFFFF_FFFF;
    let big_offset: bool = e.lfh_offset >= 0xFFFF_FFFF;
    let mut z64: Vec<u8> = Vec::new();
    if big_size || big_offset {
        push_u16(&mut z64, 1);
        let payload: u16 = (if big_size {
            16u16
        } else {
            0
        }) + (if big_offset {
            8u16
        } else {
            0
        });
        push_u16(&mut z64, payload);
        if big_size {
            push_u64(&mut z64, e.uncomp_size);
            push_u64(&mut z64, e.comp_size);
        }
        if big_offset {
            push_u64(&mut z64, e.lfh_offset);
        }
    }
    assert(z64@ =~= central_zip64(m, offset));

    let mut out: Vec<u8> = Vec::new();
    push_u32(&mut out, SIG_CDR);
    push_u16(&mut out, MADE_BY);
    push_u16(
        &mut out,
        if e.version_needed < 45 {
            45
        } else {
            e.version_needed
        },
    );
    push_u16(&mut out, flag_word(e.encrypted, e.gp_bit1));
    push_u16(&mut out, e.method_on_wire);
    push_u16(&mut out, e.mtime.1);
    push_u16(&mut out, e.mtime.0);
    push_u32(&mut out, e.crc32);
    if big_size {
        push_u32(&mut out, 0xFFFF_FFFF);
        push_u32(&mut out, 0xFFFF_FFFF);
    } else {
        push_u32(&mut out, e.comp_size as u32);
        push_u32(&mut out, e.uncomp_size as u32);
    }
    push_u16(&mut out, length_field(e.name.len()));
    let aes_len: u16 = if e.encrypted {
        11
    } else {
        0
    };
    push_u16(&mut out, z64.len() as u16 + aes_len);
    push_u16(&mut out, 0);
    push_u16(&mut out, 0);
    push_u16(&mut out, 0);
    push_u32(&mut out, FILE_ATTRIBUTES);
    push_u32(
        &mut out,
        if big_offset {
            0xFFFF_FFFF
        } else {
            e.lfh_offset as u32
        },
    );
    assert(out@ =~= central_fixed(m, offset));
    push_bytes(&mut out, e.name.as_slice());
    push_bytes(&mut out, z64.as_slice());
    if e.encrypted {
        push_aes_extra(&mut out, e.inner_method);
    }
    assert(out@ =~= central_record(m, offset));
    out
}

fn trailer_bytes(count: u64, size: u64, offset: u64) -> (r: Vec<u8>)
    requires
        offset + size <= u64::MAX,
    ensures
        r@ == trailer(count as nat, size as nat, offset as nat),
{
    broadcast use lemma_le_len;

    let mut out: Vec<u8> = Vec::new();
    if count >= 0xFFFF || offset >= 0xFFFF_FFFF || size >= 0xFFFF_FFFF {
        push_u32(&mut out, SIG_EOCD64);
        push_u64(&mut out, 44);
        push_u16(&mut out, MADE_BY);
        push_u16(&mut out, 45);
        push_u32(&mut out, 0);
        push_u32(&mut out, 0);
        push_u64(&mut out, count);
        push_u64(&mut out, count);
        push_u64(&mut out, size);
        push_u64(&mut out, offset);
        assert(out@ =~= end64(count as nat, size as nat, offset as nat));
        let mut loc: Vec<u8> = Vec::new();
        push_u32(&mut loc, SIG_EOCD64_LOC);
        push_u32(&mut loc, 0);
        push_u64(&mut loc, offset + size);
        push_u32(&mut loc, 1);
        assert(loc@ =~= end64_locator((offset + size) as nat));
        push_bytes(&mut out, loc.as_slice());
    }
    let count16: u16 = if count > 0xFFFF {
        0xFFFF
    } else {
        count as u16
    };
    let mut end: Vec<u8> = Vec::new();
    push_u32(&mut end, SIG_EOCD);
    push_u16(&mut end, 0);
    push_u16(&mut end, 0);
    push_u16(&mut end, count16);
    push_u16(&mut end, count16);
    push_u32(
        &mut end,
        if size > 0xFFFF_FFFF {
            0xFFFF_FFFF
        } else {
            size as u32
        },
    );
    push_u32(
        &mut end,
        if offset > 0xFFFF_FFFF {
            0xFFFF_FFFF
        } else {
            offset as u32
        },
    );
    push_u16(&mut end, 0);
    assert(end@ =~= end_record(count as nat, size as nat, offset as nat));
    push_bytes(&mut out, end.as_slice());
    assert(out@ =~= trailer(count as nat, size as nat, offset as nat));
    out
}

/// A ZIP archive under construction: what has been laid out so far, and where
/// the next local header goes.
pub struct ZipWriter {
    entries: Vec<CentralEntry>,
    pos: u64,
    members: Ghost<Seq<Member>>,
}

impl View for ZipWriter {
    type V = Seq<Member>;

    closed spec fn view(&self) -> Seq<Member> {
        self.members@
    }
}

impl ZipWriter {
    /// The directory kept so far describes the members laid out so far, each at
    /// the place where its header went.
    pub closed spec fn wf(&self) -> bool {
        &&& self.entries@.len() == self.members@.len()
        &&& self.pos as nat == locals(self.members@).len()
        &&& forall|i: int|
            0 <= i < self.entries@.len() ==> (#[trigger] self.entries@[i]).describes(
                self.members@[i],
                locals(self.members@.take(i)).len(),
            )
    }

    /// An archive with nothing in it.
    pub fn new() -> (z: ZipWriter)
        ensures
            z.wf(),
            z@ == Seq::<Member>::empty(),
    {
        ZipWriter { entries: Vec::new(), pos: 0, members: Ghost(Seq::empty()) }
    }

    /// How many bytes have been laid out.
    pub fn position(&self) -> (n: u64)
        requires
            self.wf(),
        ensures
            n as nat == locals(self@).len(),
    {
        self.pos
    }

    /// Adds an entry and returns its local header. The header goes to the file
    /// next, and the entry's body right behind it.
    ///
    /// Refused, with nothing changed, when the archive would grow beyond what a
    /// 64-bit offset can address.
    pub fn write_entry(&mut self, e: &EncodedEntry) -> (r: Result<Vec<u8>, ZipError>)
        requires
            old(self).wf(),
        ensures
            final(self).wf(),
            r is Ok <==> locals(old(self)@.push(e@)).len() <= u64::MAX,
            match r {
                Ok(header) => header@ == local_header(e@) && final(self)@ == old(self)@.push(e@),
                Err(_) => *final(self) == *old(self),
            },
    {
        broadcast use lemma_le_len;

        let ghost m = e@;
        let name: &[u8] = e.name.as_str().as_bytes();
        let comp_size: u64 = e.body.len() as u64;
        let uncomp_size: u64 = e.uncompressed_size;
        let big: bool = comp_size >= 0xFFFF_FFFF || uncomp_size >= 0xFFFF_FFFF;
        let lfh_offset: u64 = self.pos;

        let low: u16 = if big {
            45
        } else {
            20
        };
        let vn: u16 = if e.version_needed < low {
            low
        } else {
            e.version_needed
        };
        let crc: u32 = if e.encrypted {
            0
        } else {
            e.crc32
        };
        let mut lfh: Vec<u8> = Vec::new();
        push_u32(&mut lfh, SIG_LFH);
        push_u16(&mut lfh, vn);
        push_u16(&mut lfh, flag_word(e.encrypted, e.gp_bit1));
        push_u16(&mut lfh, e.method_on_wire);
        push_u16(&mut lfh, e.mtime.1);
        push_u16(&mut lfh, e.mtime.0);
        push_u32(&mut lfh, crc);
        if big {
            push_u32(&mut lfh, 0xFFFF_FFFF);
            push_u32(&mut lfh, 0xFFFF_FFFF);
        } else {
            push_u32(&mut lfh, comp_size as u32);
            push_u32(&mut lfh, uncomp_size as u32);
        }
        push_u16(&mut lfh, length_field(name.len()));
        let extra_len: u16 = (if big {
            20u16
        } else {
            0
        }) + (if e.encrypted {
            11u16
        } else {
            0
        });
        push_u16(&mut lfh, extra_len);
        assert(lfh@ =~= local_fixed(m));
        push_bytes(&mut lfh, name);
        if big {
            push_u16(&mut lfh, 1);
            push_u16(&mut lfh, 16);
            push_u64(&mut lfh, uncomp_size);
            push_u64(&mut lfh, comp_size);
        }
        assert(lfh@ =~= local_fixed(m) + m.name + local_zip64(m));
        if e.encrypted {
            push_aes_extra(&mut lfh, e.inner_method);
        }
        assert(lfh@ =~= local_header(m));

        let ghost ms = self.members@;
        assert(ms.push(m).drop_last() =~= ms);
        assert(locals(ms.push(m)).len() == self.pos + lfh@.len() + m.body.len());
        let room: u64 = u64::MAX - self.pos;
        if comp_size > room || lfh.len() as u64 > room - comp_size {
            return Err(ZipError::TooLarge);
        }
        let next: u64 = self.pos + comp_size + lfh.len() as u64;
        let mut name_copy: Vec<u8> = Vec::new();
        push_bytes(&mut name_copy, name);
        let entry = CentralEntry {
            name: name_copy,
            method_on_wire: e.method_on_wire,
            inner_method: e.inner_method,
            encrypted: e.encrypted,
            gp_bit1: e.gp_bit1,
            version_needed: vn,
            crc32: crc,
            comp_size,
            uncomp_size,
            lfh_offset,
            mtime: e.mtime,
        };
        assert(entry.describes(m, locals(ms).len()));
        self.entries.push(entry);
        self.pos = next;
        self.members = Ghost(ms.push(m));
        proof {
            assert forall|i: int| 0 <= i < self.entries@.len() implies (
            #[trigger] self.entries@[i]).describes(
                self.members@[i],
                locals(self.members@.take(i)).len(),
            ) by {
                if i < ms.len() {
                    assert(self.members@.take(i) =~= ms.take(i));
                    assert(self.entries@[i] == old(self).entries@[i]);
                } else {
                    assert(self.members@.take(i) =~= ms);
                }
            }
        }
        Ok(lfh)
    }

    /// Closes the archive: returns the central directory and the end records,
    /// which go to the file behind the last body.
    pub fn finish(self) -> (r: Result<Vec<u8>, ZipError>)
        requires
            self.wf(),
        ensures
            r is Ok <==> locals(self@).len() + central(self@).len() <= u64::MAX,
            r matches Ok(tail) ==> tail@ == directory(self@),
    {
        let ghost ms = self.members@;
        let mut out: Vec<u8> = Vec::new();
        assert(ms.take(0) =~= Seq::empty());
        let mut i: usize = 0;
        while i < self.entries.len()
            invariant
                self.wf(),
                ms == self.members@,
                0 <= i <= self.entries@.len(),
                out@ == central(ms.take(i as int)),
            decreases self.entries@.len() - i,
        {
            let record = central_bytes(
                &self.entries[i],
                Ghost(ms[i as int]),
                Ghost(locals(ms.take(i as int)).len()),
            );
            push_bytes(&mut out, record.as_slice());
            proof {
                let next = ms.take(i + 1);
                assert(next.drop_last() =~= ms.take(i as int));
                assert(next.last() == ms[i as int]);
            }
            i = i + 1;
        }
        assert(ms.take(ms.len() as int) =~= ms);
        let size: u64 = out.len() as u64;
        if size > u64::MAX - self.pos {
            return Err(ZipError::TooLarge);
        }
        let end = trailer_bytes(self.entries.len() as u64, size, self.pos);
        push_bytes(&mut out, end.as_slice());
        Ok(out)
    }
}

} // verus!
