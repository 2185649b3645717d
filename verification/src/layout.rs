//! Where each field of an archive stands, counted in bytes.

use vstd::prelude::*;

#[allow(unused_imports)]
use crate::bytes::{le, le_at, le_range, lemma_le_at, lemma_le_len, lemma_le_range};
#[allow(unused_imports)]
use vstd::utf8::encode_utf8;
#[allow(unused_imports)]
use crate::zipwriter::{
    aes_extra, archive, at_least, at_most, central, central_fixed, central_record, central_zip64,
    directory, end64, end64_locator, end_record, flags, local_fixed, local_header, local_zip64,
    locals, trailer, wire_crc, EncodedEntry, Member,
};

verus! {

/// A field of a part of `h` is a field of `h`.
proof fn lemma_field(h: Seq<u8>, z: int, part: Seq<u8>, k: int, x: nat, n: nat)
    requires
        0 <= z,
        0 <= k,
        k + n <= part.len(),
        z + part.len() <= h.len(),
        h.subrange(z, z + part.len()) == part,
        part.subrange(k, k + n) == le(x, n),
        x < le_range(n),
    ensures
        le_at(h, z + k, n) == x,
{
    assert(h.subrange(z + k, z + k + n) =~= h.subrange(z, z + part.len()).subrange(k, k + n));
    lemma_le_at(h, z + k, x, n);
}

proof fn lemma_aes_field(h: Seq<u8>, z: int, m: Member)
    requires
        m.encrypted,
        0 <= z,
        z + aes_extra(m).len() <= h.len(),
        h.subrange(z, z + aes_extra(m).len()) == aes_extra(m),
    ensures
        le_at(h, z, 2) == 0x9901,
        le_at(h, z + 2, 2) == 7,
        le_at(h, z + 4, 2) == 2,
        h[z + 6] == 0x41 && h[z + 7] == 0x45 && h[z + 8] == 3,
        le_at(h, z + 9, 2) == m.inner_method,
        aes_extra(m).len() == 11,
{
    broadcast use lemma_le_len;

    lemma_le_range();
    let x = aes_extra(m);
    assert(x.subrange(0, 2) =~= le(0x9901, 2));
    lemma_field(h, z, x, 0, 0x9901, 2);
    assert(x.subrange(2, 4) =~= le(7, 2));
    lemma_field(h, z, x, 2, 7, 2);
    assert(x.subrange(4, 6) =~= le(2, 2));
    lemma_field(h, z, x, 4, 2, 2);
    assert(x.subrange(9, 11) =~= le(m.inner_method as nat, 2));
    lemma_field(h, z, x, 9, m.inner_method as nat, 2);
    assert(h.subrange(z, z + 11)[6] == h[z + 6]);
    assert(h.subrange(z, z + 11)[7] == h[z + 7]);
    assert(h.subrange(z, z + 11)[8] == h[z + 8]);
    assert(x[6] == 0x41 && x[7] == 0x45 && x[8] == 3);
}

/// A local header, field by field: the sizes are those of the body and of the
/// file, and where one of them does not fit its four bytes, both stand in the
/// ZIP64 field behind the name, that of the file first.
pub proof fn law_local_header_fields(m: Member)
    requires
        m.body.len() <= u64::MAX,
    ensures
        ({
            let h = local_header(m);
            let n = m.name.len() as int;
            let big = m.body.len() >= 0xFFFF_FFFF || m.uncompressed_size >= 0xFFFF_FFFF;
            let wide = if big {
                20int
            } else {
                0
            };
            let aes = if m.encrypted {
                11int
            } else {
                0
            };
            let z = 30 + n;
            &&& h.len() == 30 + n + wide + aes
            &&& le_at(h, 0, 4) == 0x0403_4b50
            &&& big && m.version_needed < 45 ==> le_at(h, 4, 2) == 45
            &&& !big && m.version_needed < 20 ==> le_at(h, 4, 2) == 20
            &&& m.version_needed >= 45 || (!big && m.version_needed >= 20) ==> le_at(h, 4, 2)
                == m.version_needed
            &&& le_at(h, 6, 2) == 2048 + (if m.encrypted {
                1int
            } else {
                0
            }) + (if m.gp_bit1 {
                2int
            } else {
                0
            })
            &&& le_at(h, 8, 2) == m.method_on_wire
            &&& le_at(h, 10, 2) == m.mtime.1
            &&& le_at(h, 12, 2) == m.mtime.0
            &&& le_at(h, 14, 4) == (if m.encrypted {
                0
            } else {
                m.crc32
            })
            &&& !big ==> le_at(h, 18, 4) == m.body.len() && le_at(h, 22, 4) == m.uncompressed_size
            &&& big ==> le_at(h, 18, 4) == 0xFFFF_FFFF && le_at(h, 22, 4) == 0xFFFF_FFFF
            &&& le_at(h, 26, 2) == n % 0x1_0000
            &&& le_at(h, 28, 2) == wide + aes
            &&& forall|i: int| 0 <= i < n ==> #[trigger] h[30 + i] == m.name[i]
            &&& big ==> le_at(h, z, 2) == 1 && le_at(h, z + 2, 2) == 16 && le_at(h, z + 4, 8)
                == m.uncompressed_size && le_at(h, z + 12, 8) == m.body.len()
            &&& m.encrypted ==> {
                &&& le_at(h, z + wide, 2) == 0x9901
                &&& le_at(h, z + wide + 2, 2) == 7
                &&& le_at(h, z + wide + 4, 2) == 2
                &&& h[z + wide + 6] == 0x41 && h[z + wide + 7] == 0x45 && h[z + wide + 8] == 3
                &&& le_at(h, z + wide + 9, 2) == m.inner_method
            }
        }),
{
    broadcast use lemma_le_len;

    lemma_le_range();
    let h = local_header(m);
    let f = local_fixed(m);
    let n = m.name.len() as int;
    let big = m.body.len() >= 0xFFFF_FFFF || m.uncompressed_size >= 0xFFFF_FFFF;
    let w = local_zip64(m);
    let x = aes_extra(m);
    let version = at_least(
        m.version_needed as nat,
        if big {
            45
        } else {
            20
        },
    );
    let comp = if big {
        0xFFFF_FFFF
    } else {
        m.body.len()
    };
    let uncomp = if big {
        0xFFFF_FFFF
    } else {
        m.uncompressed_size as nat
    };
    assert(f.len() == 30);
    assert(h.subrange(0, 30) =~= f);
    assert(f.subrange(0, 4) =~= le(0x0403_4b50, 4));
    lemma_field(h, 0, f, 0, 0x0403_4b50, 4);
    assert(f.subrange(4, 6) =~= le(version, 2));
    lemma_field(h, 0, f, 4, version, 2);
    assert(f.subrange(6, 8) =~= le(flags(m), 2));
    lemma_field(h, 0, f, 6, flags(m), 2);
    assert(f.subrange(8, 10) =~= le(m.method_on_wire as nat, 2));
    lemma_field(h, 0, f, 8, m.method_on_wire as nat, 2);
    assert(f.subrange(10, 12) =~= le(m.mtime.1 as nat, 2));
    lemma_field(h, 0, f, 10, m.mtime.1 as nat, 2);
    assert(f.subrange(12, 14) =~= le(m.mtime.0 as nat, 2));
    lemma_field(h, 0, f, 12, m.mtime.0 as nat, 2);
    assert(f.subrange(14, 18) =~= le(wire_crc(m), 4));
    lemma_field(h, 0, f, 14, wire_crc(m), 4);
    assert(f.subrange(18, 22) =~= le(comp, 4));
    lemma_field(h, 0, f, 18, comp, 4);
    assert(f.subrange(22, 26) =~= le(uncomp, 4));
    lemma_field(h, 0, f, 22, uncomp, 4);
    assert(f.subrange(26, 28) =~= le(m.name.len() % 0x1_0000, 2));
    lemma_field(h, 0, f, 26, m.name.len() % 0x1_0000, 2);
    assert(f.subrange(28, 30) =~= le(w.len() + x.len(), 2));
    lemma_field(h, 0, f, 28, w.len() + x.len(), 2);
    let z = 30 + n;
    assert(h.subrange(z, z + w.len()) =~= w);
    if big {
        assert(w.subrange(0, 2) =~= le(1, 2));
        lemma_field(h, z, w, 0, 1, 2);
        assert(w.subrange(2, 4) =~= le(16, 2));
        lemma_field(h, z, w, 2, 16, 2);
        assert(w.subrange(4, 12) =~= le(m.uncompressed_size as nat, 8));
        lemma_field(h, z, w, 4, m.uncompressed_size as nat, 8);
        assert(w.subrange(12, 20) =~= le(m.body.len(), 8));
        lemma_field(h, z, w, 12, m.body.len(), 8);
    }
    if m.encrypted {
        assert(h.subrange(z + w.len(), z + w.len() + x.len()) =~= x);
        lemma_aes_field(h, z + w.len(), m);
    }
}

/// A central record, field by field, with the offset of the local header; what
/// does not fit its four bytes stands in the ZIP64 field behind the name.
pub proof fn law_central_record_fields(m: Member, offset: nat)
    requires
        m.body.len() <= u64::MAX,
        offset <= u64::MAX,
    ensures
        ({
            let h = central_record(m, offset);
            let n = m.name.len() as int;
            let big = m.body.len() >= 0xFFFF_FFFF || m.uncompressed_size >= 0xFFFF_FFFF;
            let far = offset >= 0xFFFF_FFFF;
            let sizes = if big {
                16int
            } else {
                0
            };
            let wide = if big || far {
                4 + sizes + if far {
                    8int
                } else {
                    0
                }
            } else {
                0
            };
            let aes = if m.encrypted {
                11int
            } else {
                0
            };
            let z = 46 + n;
            &&& h.len() == 46 + n + wide + aes
            &&& le_at(h, 0, 4) == 0x0201_4b50
            &&& le_at(h, 4, 2) == 0x031E
            &&& le_at(h, 6, 2) == (if m.version_needed < 45 {
                45
            } else {
                m.version_needed
            })
            &&& le_at(h, 8, 2) == 2048 + (if m.encrypted {
                1int
            } else {
                0
            }) + (if m.gp_bit1 {
                2int
            } else {
                0
            })
            &&& le_at(h, 10, 2) == m.method_on_wire
            &&& le_at(h, 12, 2) == m.mtime.1
            &&& le_at(h, 14, 2) == m.mtime.0
            &&& le_at(h, 16, 4) == (if m.encrypted {
                0
            } else {
                m.crc32
            })
            &&& !big ==> le_at(h, 20, 4) == m.body.len() && le_at(h, 24, 4) == m.uncompressed_size
            &&& big ==> le_at(h, 20, 4) == 0xFFFF_FFFF && le_at(h, 24, 4) == 0xFFFF_FFFF
            &&& le_at(h, 28, 2) == n % 0x1_0000
            &&& le_at(h, 30, 2) == wide + aes
            &&& le_at(h, 32, 2) == 0 && le_at(h, 34, 2) == 0 && le_at(h, 36, 2) == 0
            &&& le_at(h, 38, 4) == 0x81A4_0000
            &&& le_at(h, 42, 4) == (if far {
                0xFFFF_FFFF
            } else {
                offset
            })
            &&& forall|i: int| 0 <= i < n ==> #[trigger] h[46 + i] == m.name[i]
            &&& big || far ==> le_at(h, z, 2) == 1 && le_at(h, z + 2, 2) == wide - 4
            &&& big ==> le_at(h, z + 4, 8) == m.uncompressed_size && le_at(h, z + 12, 8)
                == m.body.len()
            &&& far ==> le_at(h, z + 4 + sizes, 8) == offset
            &&& m.encrypted ==> {
                &&& le_at(h, z + wide, 2) == 0x9901
                &&& le_at(h, z + wide + 2, 2) == 7
                &&& le_at(h, z + wide + 4, 2) == 2
                &&& h[z + wide + 6] == 0x41 && h[z + wide + 7] == 0x45 && h[z + wide + 8] == 3
                &&& le_at(h, z + wide + 9, 2) == m.inner_method
            }
        }),
{
    broadcast use lemma_le_len;

    lemma_le_range();
    let h = central_record(m, offset);
    let f = central_fixed(m, offset);
    let n = m.name.len() as int;
    let big = m.body.len() >= 0xFFFF_FFFF || m.uncompressed_size >= 0xFFFF_FFFF;
    let far = offset >= 0xFFFF_FFFF;
    let w = central_zip64(m, offset);
    let x = aes_extra(m);
    let version = at_least(m.version_needed as nat, 45);
    let comp = if big {
        0xFFFF_FFFF
    } else {
        m.body.len()
    };
    let uncomp = if big {
        0xFFFF_FFFF
    } else {
        m.uncompressed_size as nat
    };
    assert(f.len() == 46);
    assert(h.subrange(0, 46) =~= f);
    assert(f.subrange(0, 4) =~= le(0x0201_4b50, 4));
    lemma_field(h, 0, f, 0, 0x0201_4b50, 4);
    assert(f.subrange(4, 6) =~= le(0x031E, 2));
    lemma_field(h, 0, f, 4, 0x031E, 2);
    assert(f.subrange(6, 8) =~= le(version, 2));
    lemma_field(h, 0, f, 6, version, 2);
    assert(f.subrange(8, 10) =~= le(flags(m), 2));
    lemma_field(h, 0, f, 8, flags(m), 2);
    assert(f.subrange(10, 12) =~= le(m.method_on_wire as nat, 2));
    lemma_field(h, 0, f, 10, m.method_on_wire as nat, 2);
    assert(f.subrange(12, 14) =~= le(m.mtime.1 as nat, 2));
    lemma_field(h, 0, f, 12, m.mtime.1 as nat, 2);
    assert(f.subrange(14, 16) =~= le(m.mtime.0 as nat, 2));
    lemma_field(h, 0, f, 14, m.mtime.0 as nat, 2);
    assert(f.subrange(16, 20) =~= le(wire_crc(m), 4));
    lemma_field(h, 0, f, 16, wire_crc(m), 4);
    assert(f.subrange(20, 24) =~= le(comp, 4));
    lemma_field(h, 0, f, 20, comp, 4);
    assert(f.subrange(24, 28) =~= le(uncomp, 4));
    lemma_field(h, 0, f, 24, uncomp, 4);
    assert(f.subrange(28, 30) =~= le(m.name.len() % 0x1_0000, 2));
    lemma_field(h, 0, f, 28, m.name.len() % 0x1_0000, 2);
    assert(f.subrange(30, 32) =~= le(w.len() + x.len(), 2));
    lemma_field(h, 0, f, 30, w.len() + x.len(), 2);
    assert(f.subrange(32, 34) =~= le(0, 2));
    lemma_field(h, 0, f, 32, 0, 2);
    assert(f.subrange(34, 36) =~= le(0, 2));
    lemma_field(h, 0, f, 34, 0, 2);
    assert(f.subrange(36, 38) =~= le(0, 2));
    lemma_field(h, 0, f, 36, 0, 2);
    assert(f.subrange(38, 42) =~= le(0x81A4_0000, 4));
    lemma_field(h, 0, f, 38, 0x81A4_0000, 4);
    assert(f.subrange(42, 46) =~= le(at_most(offset, 0xFFFF_FFFF), 4));
    lemma_field(h, 0, f, 42, at_most(offset, 0xFFFF_FFFF), 4);
    let z = 46 + n;
    assert(h.subrange(z, z + w.len()) =~= w);
    lemma_central_wide(h, z, m, offset);
    if m.encrypted {
        assert(h.subrange(z + w.len(), z + w.len() + x.len()) =~= x);
        lemma_aes_field(h, z + w.len(), m);
    }
}

proof fn lemma_central_wide(h: Seq<u8>, z: int, m: Member, offset: nat)
    requires
        m.body.len() <= u64::MAX,
        offset <= u64::MAX,
        0 <= z,
        z + central_zip64(m, offset).len() <= h.len(),
        h.subrange(z, z + central_zip64(m, offset).len()) == central_zip64(m, offset),
    ensures
        ({
            let big = m.body.len() >= 0xFFFF_FFFF || m.uncompressed_size >= 0xFFFF_FFFF;
            let far = offset >= 0xFFFF_FFFF;
            let sizes = if big {
                16int
            } else {
                0
            };
            let wide = if big || far {
                4 + sizes + if far {
                    8int
                } else {
                    0
                }
            } else {
                0
            };
            &&& central_zip64(m, offset).len() == wide
            &&& big || far ==> le_at(h, z, 2) == 1 && le_at(h, z + 2, 2) == wide - 4
            &&& big ==> le_at(h, z + 4, 8) == m.uncompressed_size && le_at(h, z + 12, 8)
                == m.body.len()
            &&& far ==> le_at(h, z + 4 + sizes, 8) == offset
        }),
{
    broadcast use lemma_le_len;

    lemma_le_range();
    let big = m.body.len() >= 0xFFFF_FFFF || m.uncompressed_size >= 0xFFFF_FFFF;
    let far = offset >= 0xFFFF_FFFF;
    let w = central_zip64(m, offset);
    if big || far {
        assert(w.subrange(0, 2) =~= le(1, 2));
        lemma_field(h, z, w, 0, 1, 2);
        assert(w.subrange(2, 4) =~= le((w.len() - 4) as nat, 2));
        lemma_field(h, z, w, 2, (w.len() - 4) as nat, 2);
    }
    if big {
        assert(w.subrange(4, 12) =~= le(m.uncompressed_size as nat, 8));
        lemma_field(h, z, w, 4, m.uncompressed_size as nat, 8);
        assert(w.subrange(12, 20) =~= le(m.body.len(), 8));
        lemma_field(h, z, w, 12, m.body.len(), 8);
    }
    if far {
        let k = w.len() - 8;
        assert(w.subrange(k, k + 8) =~= le(offset, 8));
        lemma_field(h, z, w, k, offset, 8);
    }
}

/// The end of an archive, field by field: number of entries, size and place of
/// the directory. Where one of them does not fit the last record, the ZIP64
/// record and the locator that says where it stands come before it.
pub proof fn law_end_fields(count: nat, size: nat, offset: nat)
    requires
        count <= u64::MAX,
        offset + size <= u64::MAX,
    ensures
        ({
            let t = trailer(count, size, offset);
            let big = count >= 0xFFFF || size >= 0xFFFF_FFFF || offset >= 0xFFFF_FFFF;
            let e = if big {
                76int
            } else {
                0
            };
            &&& t.len() == e + 22
            &&& le_at(t, e, 4) == 0x0605_4b50
            &&& le_at(t, e + 4, 2) == 0 && le_at(t, e + 6, 2) == 0
            &&& le_at(t, e + 8, 2) == (if count >= 0xFFFF {
                0xFFFF
            } else {
                count
            })
            &&& le_at(t, e + 10, 2) == (if count >= 0xFFFF {
                0xFFFF
            } else {
                count
            })
            &&& le_at(t, e + 12, 4) == (if size >= 0xFFFF_FFFF {
                0xFFFF_FFFF
            } else {
                size
            })
            &&& le_at(t, e + 16, 4) == (if offset >= 0xFFFF_FFFF {
                0xFFFF_FFFF
            } else {
                offset
            })
            &&& le_at(t, e + 20, 2) == 0
            &&& big ==> {
                &&& le_at(t, 0, 4) == 0x0606_4b50
                &&& le_at(t, 4, 8) == 44
                &&& le_at(t, 12, 2) == 0x031E && le_at(t, 14, 2) == 45
                &&& le_at(t, 16, 4) == 0 && le_at(t, 20, 4) == 0
                &&& le_at(t, 24, 8) == count && le_at(t, 32, 8) == count
                &&& le_at(t, 40, 8) == size && le_at(t, 48, 8) == offset
                &&& le_at(t, 56, 4) == 0x0706_4b50
                &&& le_at(t, 60, 4) == 0
                &&& le_at(t, 64, 8) == offset + size
                &&& le_at(t, 72, 4) == 1
            }
        }),
{
    broadcast use lemma_le_len;

    lemma_le_range();
    let t = trailer(count, size, offset);
    let big = count >= 0xFFFF || size >= 0xFFFF_FFFF || offset >= 0xFFFF_FFFF;
    let e = if big {
        76int
    } else {
        0
    };
    let r = end_record(count, size, offset);
    assert(r.len() == 22);
    assert(t.len() == e + 22);
    assert(t.subrange(e, e + 22) =~= r);
    lemma_end_record(t, e, count, size, offset);
    if big {
        let w = end64(count, size, offset);
        let l = end64_locator(offset + size);
        assert(t =~= w + l + r);
        assert(t.subrange(0, 56) =~= w);
        assert(t.subrange(56, 76) =~= l);
        assert(w.subrange(0, 4) =~= le(0x0606_4b50, 4));
        lemma_field(t, 0, w, 0, 0x0606_4b50, 4);
        assert(w.subrange(4, 12) =~= le(44, 8));
        lemma_field(t, 0, w, 4, 44, 8);
        assert(w.subrange(12, 14) =~= le(0x031E, 2));
        lemma_field(t, 0, w, 12, 0x031E, 2);
        assert(w.subrange(14, 16) =~= le(45, 2));
        lemma_field(t, 0, w, 14, 45, 2);
        assert(w.subrange(16, 20) =~= le(0, 4));
        lemma_field(t, 0, w, 16, 0, 4);
        assert(w.subrange(20, 24) =~= le(0, 4));
        lemma_field(t, 0, w, 20, 0, 4);
        assert(w.subrange(24, 32) =~= le(count, 8));
        lemma_field(t, 0, w, 24, count, 8);
        assert(w.subrange(32, 40) =~= le(count, 8));
        lemma_field(t, 0, w, 32, count, 8);
        assert(w.subrange(40, 48) =~= le(size, 8));
        lemma_field(t, 0, w, 40, size, 8);
        assert(w.subrange(48, 56) =~= le(offset, 8));
        lemma_field(t, 0, w, 48, offset, 8);
        assert(l.subrange(0, 4) =~= le(0x0706_4b50, 4));
        lemma_field(t, 56, l, 0, 0x0706_4b50, 4);
        assert(l.subrange(4, 8) =~= le(0, 4));
        lemma_field(t, 56, l, 4, 0, 4);
        assert(l.subrange(8, 16) =~= le(offset + size, 8));
        lemma_field(t, 56, l, 8, offset + size, 8);
        assert(l.subrange(16, 20) =~= le(1, 4));
        lemma_field(t, 56, l, 16, 1, 4);
    }
}

proof fn lemma_end_record(t: Seq<u8>, e: int, count: nat, size: nat, offset: nat)
    requires
        0 <= e,
        e + 22 <= t.len(),
        t.subrange(e, e + 22) == end_record(count, size, offset),
    ensures
        le_at(t, e, 4) == 0x0605_4b50,
        le_at(t, e + 4, 2) == 0 && le_at(t, e + 6, 2) == 0,
        le_at(t, e + 8, 2) == at_most(count, 0xFFFF),
        le_at(t, e + 10, 2) == at_most(count, 0xFFFF),
        le_at(t, e + 12, 4) == at_most(size, 0xFFFF_FFFF),
        le_at(t, e + 16, 4) == at_most(offset, 0xFFFF_FFFF),
        le_at(t, e + 20, 2) == 0,
{
    broadcast use lemma_le_len;

    lemma_le_range();
    let r = end_record(count, size, offset);
    assert(r.subrange(0, 4) =~= le(0x0605_4b50, 4));
    lemma_field(t, e, r, 0, 0x0605_4b50, 4);
    assert(r.subrange(4, 6) =~= le(0, 2));
    lemma_field(t, e, r, 4, 0, 2);
    assert(r.subrange(6, 8) =~= le(0, 2));
    lemma_field(t, e, r, 6, 0, 2);
    assert(r.subrange(8, 10) =~= le(at_most(count, 0xFFFF), 2));
    lemma_field(t, e, r, 8, at_most(count, 0xFFFF), 2);
    assert(r.subrange(10, 12) =~= le(at_most(count, 0xFFFF), 2));
    lemma_field(t, e, r, 10, at_most(count, 0xFFFF), 2);
    assert(r.subrange(12, 16) =~= le(at_most(size, 0xFFFF_FFFF), 4));
    lemma_field(t, e, r, 12, at_most(size, 0xFFFF_FFFF), 4);
    assert(r.subrange(16, 20) =~= le(at_most(offset, 0xFFFF_FFFF), 4));
    lemma_field(t, e, r, 16, at_most(offset, 0xFFFF_FFFF), 4);
    assert(r.subrange(20, 22) =~= le(0, 2));
    lemma_field(t, e, r, 20, 0, 2);
}


/// What goes into the archive of an entry: its name in UTF-8, its body as it
/// is, and every other field unchanged.
pub proof fn law_member_of_entry(e: EncodedEntry)
    ensures
        e@.name == encode_utf8(e.name@),
        e@.body == e.body@,
        e@.uncompressed_size == e.uncompressed_size,
        e@.crc32 == e.crc32,
        e@.method_on_wire == e.method_on_wire,
        e@.inner_method == e.inner_method,
        e@.encrypted == e.encrypted,
        e@.gp_bit1 == e.gp_bit1,
        e@.version_needed == e.version_needed,
        e@.mtime == e.mtime,
{
}

/// What the writer hands out, the local headers with their bodies first and
/// the directory then, is the whole archive.
pub proof fn law_archive_is_what_is_written(ms: Seq<Member>)
    ensures
        archive(ms) == locals(ms) + directory(ms),
        forall|m: Member|
            #[trigger] locals(ms.push(m)) == locals(ms) + local_header(m) + m.body,
{
    assert forall|m: Member| #[trigger]
        locals(ms.push(m)) == locals(ms) + local_header(m) + m.body by {
        assert(ms.push(m).drop_last() =~= ms);
    }
}

/// An archive is its members one behind the other, each a local header and
/// then its body; behind the last body, at `c[0]`, a central record for each
/// member in the same order, with the place of its local header; and then the
/// end, which counts the records and says where they start and how long they
/// are.
#[verifier::spinoff_prover]
#[verifier::rlimit(60)]
pub proof fn law_archive_places(ms: Seq<Member>) -> (places: (Seq<int>, Seq<int>))
    ensures
        ({
            let (o, c) = places;
            let a = archive(ms);
            let n = ms.len() as int;
            &&& o.len() == n + 1 && c.len() == n + 1
            &&& o[0] == 0 && c[0] == o[n]
            &&& forall|i: int|
                0 <= i < n ==> {
                    let h = local_header(#[trigger] ms[i]);
                    let body = o[i] + h.len();
                    &&& 0 <= o[i] <= body <= o[i + 1] <= a.len()
                    &&& o[i + 1] == body + ms[i].body.len()
                    &&& a.subrange(o[i], body) == h
                    &&& a.subrange(body, o[i + 1]) == ms[i].body
                    &&& 0 <= c[i] <= c[i + 1] <= a.len()
                    &&& a.subrange(c[i], c[i + 1]) == central_record(ms[i], o[i] as nat)
                }
            &&& 0 <= o[n] <= c[n] <= a.len()
            &&& o[n] == locals(ms).len()
            &&& a.skip(c[n]) == trailer(ms.len(), (c[n] - o[n]) as nat, o[n] as nat)
        }),
{
    let a = archive(ms);
    let n = ms.len() as int;
    let o = Seq::new((n + 1) as nat, |i: int| locals(ms.take(i)).len() as int);
    let c = Seq::new(
        (n + 1) as nat,
        |i: int| (locals(ms).len() + central(ms.take(i)).len()) as int,
    );
    assert(ms.take(n) =~= ms);
    assert(ms.take(0) =~= Seq::<Member>::empty());
    lemma_whole(ms);
    assert forall|i: int| 0 <= i < n implies {
        let h = local_header(#[trigger] ms[i]);
        let body = o[i] + h.len();
        &&& 0 <= o[i] <= body <= o[i + 1] <= a.len()
        &&& o[i + 1] == body + ms[i].body.len()
        &&& a.subrange(o[i], body) == h
        &&& a.subrange(body, o[i + 1]) == ms[i].body
        &&& 0 <= c[i] <= c[i + 1] <= a.len()
        &&& a.subrange(c[i], c[i + 1]) == central_record(ms[i], o[i] as nat)
    } by {
        lemma_place(ms, i);
    }
    (o, c)
}

proof fn lemma_place(ms: Seq<Member>, i: int)
    requires
        0 <= i < ms.len(),
    ensures
        ({
            let a = archive(ms);
            let l = locals(ms).len() as int;
            let o = locals(ms.take(i)).len() as int;
            let p = locals(ms.take(i + 1)).len() as int;
            let c = l + central(ms.take(i)).len();
            let d = l + central(ms.take(i + 1)).len();
            let body = o + local_header(ms[i]).len();
            &&& o <= body <= p <= a.len()
            &&& p == body + ms[i].body.len()
            &&& a.subrange(o, body) == local_header(ms[i])
            &&& a.subrange(body, p) == ms[i].body
            &&& c <= d <= a.len()
            &&& a.subrange(c, d) == central_record(ms[i], o as nat)
        }),
{
    let a = archive(ms);
    let l = locals(ms).len() as int;
    assert(ms.take(i + 1).drop_last() =~= ms.take(i));
    assert(ms.take(i + 1).last() == ms[i]);
    lemma_fronts(ms, i + 1);
    let x = locals(ms.take(i));
    let o = x.len() as int;
    let p = locals(ms.take(i + 1)).len() as int;
    let h = local_header(ms[i]);
    let r = central(ms.take(i));
    let k = r.len() as int;
    let e = central(ms.take(i + 1)).len() as int;
    let t = trailer(ms.len(), central(ms).len(), locals(ms).len());
    lemma_whole(ms);
    assert(locals(ms.take(i + 1)) == x + h + ms[i].body);
    lemma_cut(x, h, ms[i].body);
    lemma_deep(Seq::empty(), locals(ms), central(ms) + t, p, o, o + h.len());
    lemma_deep(Seq::empty(), locals(ms), central(ms) + t, p, o + h.len(), p);
    assert(Seq::<u8>::empty() + locals(ms) + (central(ms) + t) =~= a);
    assert(central(ms.take(i + 1)) == r + central_record(ms[i], x.len()));
    lemma_cut(r, central_record(ms[i], x.len()), Seq::empty());
    assert(r + central_record(ms[i], x.len()) + Seq::<u8>::empty() =~= central(ms.take(i + 1)));
    lemma_deep(locals(ms), central(ms), t, e, k, e);
}

proof fn lemma_whole(ms: Seq<Member>)
    ensures
        archive(ms) == locals(ms) + central(ms) + trailer(
            ms.len(),
            central(ms).len(),
            locals(ms).len(),
        ),
        archive(ms).skip((locals(ms).len() + central(ms).len()) as int) == trailer(
            ms.len(),
            central(ms).len(),
            locals(ms).len(),
        ),
{
    let d = directory(ms);
    let t = trailer(ms.len(), central(ms).len(), locals(ms).len());
    let k = central(ms).len() as int;
    assert((locals(ms) + d).skip(locals(ms).len() + k) =~= d.skip(k));
    assert((central(ms) + t).skip(k) =~= t);
    assert(archive(ms) =~= locals(ms) + central(ms) + trailer(
        ms.len(),
        central(ms).len(),
        locals(ms).len(),
    ));
}

proof fn lemma_cut(x: Seq<u8>, y: Seq<u8>, z: Seq<u8>)
    ensures
        (x + y + z).subrange(x.len() as int, (x.len() + y.len()) as int) == y,
        (x + y + z).subrange((x.len() + y.len()) as int, (x.len() + y.len() + z.len()) as int) == z,
{
    assert((x + y + z).subrange(x.len() as int, (x.len() + y.len()) as int) =~= y);
    assert((x + y + z).subrange(
        (x.len() + y.len()) as int,
        (x.len() + y.len() + z.len()) as int,
    ) =~= z);
}

proof fn lemma_deep(x: Seq<u8>, y: Seq<u8>, z: Seq<u8>, p: int, lo: int, hi: int)
    requires
        0 <= lo <= hi <= p <= y.len(),
    ensures
        (x + y + z).subrange(x.len() + lo, x.len() + hi) == y.take(p).subrange(lo, hi),
{
    assert((x + y + z).subrange(x.len() + lo, x.len() + hi) =~= y.take(p).subrange(lo, hi));
}

proof fn lemma_take_of_front(x: Seq<u8>, y: Seq<u8>, n: int)
    requires
        0 <= n <= x.len(),
    ensures
        (x + y).take(n) == x.take(n),
{
    assert((x + y).take(n) =~= x.take(n));
}

#[verifier::spinoff_prover]
#[verifier::rlimit(60)]
proof fn lemma_fronts(ms: Seq<Member>, i: int)
    requires
        0 <= i <= ms.len(),
    ensures
        locals(ms.take(i)).len() <= locals(ms).len(),
        locals(ms).take(locals(ms.take(i)).len() as int) == locals(ms.take(i)),
        central(ms.take(i)).len() <= central(ms).len(),
        central(ms).take(central(ms.take(i)).len() as int) == central(ms.take(i)),
    decreases ms.len(),
{
    if i == ms.len() {
        assert(ms.take(i) =~= ms);
        assert(locals(ms).take(locals(ms).len() as int) =~= locals(ms));
        assert(central(ms).take(central(ms).len() as int) =~= central(ms));
    } else {
        let rest = ms.drop_last();
        lemma_fronts(rest, i);
        assert(rest.take(i) =~= ms.take(i));
        let n = locals(ms.take(i)).len() as int;
        lemma_take_of_front(locals(rest), local_header(ms.last()), n);
        lemma_take_of_front(locals(rest) + local_header(ms.last()), ms.last().body, n);
        let k = central(ms.take(i)).len() as int;
        lemma_take_of_front(central(rest), central_record(ms.last(), locals(rest).len()), k);
    }
}

/// A field of a header that stands in an archive is that field of the archive.
pub proof fn law_fields_stand_in_the_archive(a: Seq<u8>, o: int, h: Seq<u8>, k: int, n: nat)
    requires
        0 <= o,
        o + h.len() <= a.len(),
        a.subrange(o, o + h.len()) == h,
        0 <= k,
        k + n <= h.len(),
    ensures
        le_at(a, o + k, n) == le_at(h, k, n),
{
    assert(a.subrange(o + k, o + k + n) =~= a.subrange(o, o + h.len()).subrange(k, k + n));
}

/// The local header and the central record of a member tell the same of it:
/// flags, method, time and date, checksum, both sizes and the name.
pub proof fn law_headers_agree(m: Member, offset: nat)
    requires
        m.body.len() <= u64::MAX,
        offset <= u64::MAX,
    ensures
        ({
            let h = local_header(m);
            let c = central_record(m, offset);
            let n = m.name.len() as int;
            &&& le_at(h, 6, 2) == le_at(c, 8, 2)
            &&& le_at(h, 8, 2) == le_at(c, 10, 2)
            &&& le_at(h, 10, 2) == le_at(c, 12, 2)
            &&& le_at(h, 12, 2) == le_at(c, 14, 2)
            &&& le_at(h, 14, 4) == le_at(c, 16, 4)
            &&& le_at(h, 18, 4) == le_at(c, 20, 4)
            &&& le_at(h, 22, 4) == le_at(c, 24, 4)
            &&& le_at(h, 26, 2) == le_at(c, 28, 2)
            &&& h.subrange(30, 30 + n) == c.subrange(46, 46 + n)
            &&& m.body.len() >= 0xFFFF_FFFF || m.uncompressed_size >= 0xFFFF_FFFF ==> {
                &&& le_at(h, 30 + n + 4, 8) == le_at(c, 46 + n + 4, 8)
                &&& le_at(h, 30 + n + 12, 8) == le_at(c, 46 + n + 12, 8)
            }
        }),
{
    law_local_header_fields(m);
    law_central_record_fields(m, offset);
    let h = local_header(m);
    let c = central_record(m, offset);
    let n = m.name.len() as int;
    assert(h.subrange(30, 30 + n) =~= m.name) by {
        assert forall|i: int| 0 <= i < n implies h.subrange(30, 30 + n)[i] == m.name[i] by {
            assert(h[30 + i] == m.name[i]);
        }
    }
    assert(c.subrange(46, 46 + n) =~= m.name) by {
        assert forall|i: int| 0 <= i < n implies c.subrange(46, 46 + n)[i] == m.name[i] by {
            assert(c[46 + i] == m.name[i]);
        }
    }
}

} // verus!
