//! Codecs, encryption, entries and the layout of archives.

use tzip::bytes::{push_u16, push_u32, push_u64, read_u32, read_u64};
use tzip::cli::Method;
use tzip::compress::{
    compress, compress_parallel_deflate, deflate_block, lzma_for_zip, method_id, seal,
    version_needed, CodecError, CompressOut, Scratch, CHUNK, PARALLEL_DEFLATE_THRESHOLD,
};
use tzip::crypto::{
    encrypt_ae2, encrypt_ae2_in_place, encrypt_ae2_in_place_with_salt, CryptoError, AE2_OVERHEAD,
};
use tzip::pipeline::{assemble, encode_one, RawItem};
use tzip::walker::WorkItem;
use tzip::zipwriter::{EncodedEntry, ZipWriter, METHOD_AES};

const FOX: &[u8] = b"the quick brown fox jumps over the lazy dog\n";

fn item(name: &str) -> WorkItem {
    WorkItem {
        path: format!("/data/{}", name).into_bytes(),
        name_in_archive: name.to_string(),
        size: 0,
        mtime: (22_382, 45_482),
        basename: None,
    }
}

fn inflate(stream: &[u8], len: usize) -> Vec<u8> {
    let mut out = vec![0u8; len];
    let n = libdeflater::Decompressor::new().deflate_decompress(stream, &mut out).unwrap();
    assert_eq!(n, len);
    out
}

fn noise(len: usize) -> Vec<u8> {
    let mut x: u32 = 12_345;
    (0..len)
        .map(|_| {
            x = x.wrapping_mul(1_664_525).wrapping_add(1_013_904_223);
            (x >> 24) as u8
        })
        .collect()
}

#[test]
fn numbers_are_little_endian() {
    let mut out = Vec::new();
    push_u16(&mut out, 0x0201);
    push_u32(&mut out, 0x0605_0403);
    push_u64(&mut out, 0x0e0d_0c0b_0a09_0807);
    assert_eq!(out, (1u8..=14).collect::<Vec<u8>>());
    assert_eq!(read_u32(&out, 2), 0x0605_0403);
    assert_eq!(read_u64(&out, 6), 0x0e0d_0c0b_0a09_0807);
}

#[test]
fn methods_have_their_numbers() {
    let expected = [
        (Method::Store, 0, 20),
        (Method::Deflate, 8, 20),
        (Method::Bzip2, 12, 46),
        (Method::Lzma, 14, 63),
        (Method::Zstd, 93, 63),
        (Method::Xz, 95, 63),
    ];
    for (method, id, version) in expected {
        assert_eq!(method_id(method), id);
        assert_eq!(version_needed(method), version);
    }
}

#[test]
fn storing_keeps_the_bytes_and_empties_the_scratch() {
    let mut scratch = Scratch::new();
    scratch.out = vec![9; 100];
    let out = compress(Method::Store, 6, FOX, &mut scratch).unwrap();
    assert_eq!(out.data, FOX);
    assert!(!out.gp_bit1);
    assert!(scratch.out.is_empty());
    assert!(scratch.deflate.is_none());
}

#[test]
fn every_call_empties_the_scratch() {
    for method in [
        Method::Store,
        Method::Deflate,
        Method::Bzip2,
        Method::Lzma,
        Method::Xz,
        Method::Zstd,
    ] {
        let mut scratch = Scratch::new();
        scratch.out = vec![1, 2, 3];
        assert!(compress(method, 6, b"hi", &mut scratch).is_ok());
        assert!(scratch.out.is_empty());
        assert_eq!(scratch.deflate.is_some(), method == Method::Deflate);
    }
}

#[test]
fn deflating_reuses_the_compressor_of_a_level() {
    let mut scratch = Scratch::new();
    assert_eq!(scratch.deflate_level, -1);
    let a = compress(Method::Deflate, 6, FOX, &mut scratch).unwrap();
    assert_eq!(scratch.deflate_level, 6);
    let b = compress(Method::Deflate, 6, FOX, &mut scratch).unwrap();
    assert_eq!(a.data, b.data);
    assert_eq!(inflate(&a.data, FOX.len()), FOX);
    let c = compress(Method::Deflate, 40, FOX, &mut scratch).unwrap();
    assert_eq!(scratch.deflate_level, 12);
    assert_eq!(inflate(&c.data, FOX.len()), FOX);
}

#[test]
fn deflating_nothing_gives_a_stream() {
    let mut scratch = Scratch::new();
    let out = compress(Method::Deflate, 6, b"", &mut scratch).unwrap();
    assert!(!out.data.is_empty());
    assert!(inflate(&out.data, 0).is_empty());
}

#[test]
fn bzip2_streams_have_their_level() {
    let mut scratch = Scratch::new();
    for (level, digit) in [(0, b'1'), (5, b'5'), (12, b'9')] {
        let out = compress(Method::Bzip2, level, FOX, &mut scratch).unwrap();
        assert_eq!(&out.data[0..4], &[b'B', b'Z', b'h', digit]);
        assert!(!out.gp_bit1);
    }
}

#[test]
fn xz_and_zstd_streams_have_their_marks() {
    let mut scratch = Scratch::new();
    let xz = compress(Method::Xz, 6, FOX, &mut scratch).unwrap();
    assert_eq!(&xz.data[0..6], &[0xfd, b'7', b'z', b'X', b'Z', 0]);
    assert!(!xz.gp_bit1);
    let zstd = compress(Method::Zstd, 3, FOX, &mut scratch).unwrap();
    assert_eq!(&zstd.data[0..4], &[0x28, 0xb5, 0x2f, 0xfd]);
    assert!(!zstd.gp_bit1);
}

#[test]
fn lzma_bodies_have_version_and_properties() {
    let mut scratch = Scratch::new();
    let out = compress(Method::Lzma, 6, FOX, &mut scratch).unwrap();
    assert!(out.gp_bit1);
    assert_eq!(&out.data[0..4], &[0x13, 0, 5, 0]);
    // lc=3, lp=0, pb=2 and a dictionary of 8 MiB.
    assert_eq!(&out.data[4..9], &[0x5d, 0, 0, 0x80, 0]);
}

#[test]
fn lzma_streams_lose_only_their_length() {
    let alone: Vec<u8> = (0..20).collect();
    let body = lzma_for_zip(&alone).unwrap();
    assert_eq!(body, [0x13, 0, 5, 0, 0, 1, 2, 3, 4, 13, 14, 15, 16, 17, 18, 19]);
    assert_eq!(lzma_for_zip(&alone[0..13]).unwrap(), [0x13, 0, 5, 0, 0, 1, 2, 3, 4]);
    assert_eq!(lzma_for_zip(&alone[0..12]), Err(CodecError::LzmaTooShort));
}

#[test]
fn sealing_passes_on_what_a_codec_says() {
    let failed = std::io::Error::new(std::io::ErrorKind::Other, "no memory");
    assert_eq!(seal(Method::Xz, Err(failed)).err(), Some(CodecError::Codec));
    assert_eq!(seal(Method::Lzma, Ok(vec![1; 3])).err(), Some(CodecError::LzmaTooShort));
    let out = seal(Method::Zstd, Ok(vec![1, 2, 3])).unwrap();
    assert_eq!(out.data, [1, 2, 3]);
    assert!(!out.gp_bit1);
    assert!(seal(Method::Lzma, Ok(vec![0; 13])).unwrap().gp_bit1);
}

#[test]
fn blocks_end_in_a_flush_marker_or_the_end_of_the_stream() {
    let data = noise(10_000);
    let open = deflate_block(&data, 6, false).unwrap();
    assert_eq!(&open[open.len() - 4..], &[0, 0, 0xff, 0xff]);
    let closed = deflate_block(&data, 6, true).unwrap();
    assert_eq!(inflate(&closed, data.len()), data);
    // An open block goes on with the next one.
    let tail = deflate_block(FOX, 6, true).unwrap();
    let mut stream = open;
    stream.extend_from_slice(&tail);
    let mut whole = data;
    whole.extend_from_slice(FOX);
    assert_eq!(inflate(&stream, whole.len()), whole);
}

#[test]
fn parallel_deflate_is_one_stream() {
    for len in [1, CHUNK - 1, CHUNK, CHUNK + 1, 2 * CHUNK + 77] {
        let mut data = noise(len);
        for i in 0..len / 2 {
            data[i] = (i / 50) as u8;
        }
        for level in [0, 1, 9, 12] {
            let out = compress_parallel_deflate(&data, level).unwrap();
            assert!(!out.gp_bit1);
            assert_eq!(inflate(&out.data, len), data);
        }
    }
}

#[test]
fn parallel_deflate_of_nothing_is_nothing() {
    assert!(compress_parallel_deflate(b"", 6).unwrap().data.is_empty());
    assert_eq!(PARALLEL_DEFLATE_THRESHOLD, 8 * 1024 * 1024);
}

#[test]
fn envelope_of_a_known_salt() {
    let salt: [u8; 16] = [0, 1, 2, 3, 4, 5, 6, 7, 8, 9, 10, 11, 12, 13, 14, 15];
    let mut buf = vec![0u8; 18];
    buf.extend_from_slice(FOX);
    buf.extend_from_slice(&[0u8; 10]);
    encrypt_ae2_in_place_with_salt("hunter2", &salt, &mut buf, FOX.len()).unwrap();
    let expected: [u8; 72] = [
        0x00, 0x01, 0x02, 0x03, 0x04, 0x05, 0x06, 0x07, 0x08, 0x09, 0x0a, 0x0b, 0x0c, 0x0d, 0x0e,
        0x0f, 0xcf, 0xcf, 0x7d, 0x7f, 0xe7, 0x6d, 0xf2, 0x40, 0xa2, 0x05, 0x69, 0xd3, 0xa8, 0x6b,
        0x93, 0x11, 0x55, 0xc2, 0x4b, 0xce, 0x31, 0x58, 0x82, 0x67, 0x72, 0xbe, 0x1e, 0xf1, 0xd9,
        0xf0, 0x7c, 0x05, 0x64, 0x73, 0xbb, 0x7a, 0x90, 0xc7, 0x37, 0x9d, 0xc1, 0x82, 0xb8, 0xd2,
        0xa8, 0xcb, 0xa3, 0x21, 0xe7, 0x5a, 0x60, 0xf1, 0x02, 0x03, 0x81, 0xb2,
    ];
    assert_eq!(buf[..], expected[..]);
}

#[test]
fn envelopes_need_a_password_and_room() {
    let mut plain = FOX.to_vec();
    assert_eq!(encrypt_ae2("", &mut plain).err(), Some(CryptoError::EmptyPassword));
    let mut buf = vec![0u8; 100];
    assert_eq!(encrypt_ae2_in_place("", &mut buf, 72), Err(CryptoError::EmptyPassword));
    assert_eq!(encrypt_ae2_in_place("pw", &mut buf, 71), Err(CryptoError::SizeMismatch));
    assert_eq!(encrypt_ae2_in_place("pw", &mut buf, 73), Err(CryptoError::SizeMismatch));
    assert_eq!(buf, vec![0u8; 100]);
    assert_eq!(encrypt_ae2_in_place("pw", &mut buf, 72), Ok(()));
    assert_ne!(buf, vec![0u8; 100]);
}

#[test]
fn salts_differ_from_call_to_call() {
    let mut plain = FOX.to_vec();
    let a = encrypt_ae2("hunter2", &mut plain).unwrap();
    let b = encrypt_ae2("hunter2", &mut plain).unwrap();
    assert_eq!(plain, FOX);
    assert_eq!(a.bytes.len(), FOX.len() + AE2_OVERHEAD);
    assert_ne!(a.bytes[0..16], b.bytes[0..16]);
}

#[test]
fn entries_carry_the_checksum_of_the_file() {
    let it = item("digits");
    let raw = RawItem { index: 7, item: &it, bytes: b"123456789" };
    let e = encode_one(&raw, Method::Store, 6, None, &mut Scratch::new(), false).unwrap();
    assert_eq!(e.crc32, 0xcbf4_3926);
    assert_eq!(e.index, 7);
    assert_eq!(e.name, "digits");
    assert_eq!(e.body, b"123456789");
    assert_eq!(e.uncompressed_size, 9);
    assert_eq!((e.method_on_wire, e.inner_method, e.version_needed), (0, 0, 20));
    assert_eq!(e.mtime, (22_382, 45_482));
    assert!(!e.encrypted && !e.gp_bit1);
}

#[test]
fn encrypted_entries_name_their_inner_method() {
    let it = item("secret");
    let raw = RawItem { index: 0, item: &it, bytes: FOX };
    let e = encode_one(&raw, Method::Xz, 6, Some("pw"), &mut Scratch::new(), false).unwrap();
    assert!(e.encrypted);
    assert_eq!((e.method_on_wire, e.inner_method), (METHOD_AES, 95));
    let plain = assemble(&raw, Method::Xz, None, CompressOut { data: vec![1], gp_bit1: true });
    let plain = plain.unwrap();
    assert_eq!((plain.method_on_wire, plain.inner_method, plain.gp_bit1), (95, 95, true));
    let sealed = assemble(&raw, Method::Xz, Some("pw"), CompressOut { data: vec![1; 5], gp_bit1: false });
    assert_eq!(sealed.unwrap().body.len(), 5 + AE2_OVERHEAD);
}

#[test]
fn single_files_go_through_blocks() {
    let data = noise(CHUNK + 5);
    let it = item("big");
    let raw = RawItem { index: 0, item: &it, bytes: &data };
    let e = encode_one(&raw, Method::Deflate, 6, None, &mut Scratch::new(), true).unwrap();
    assert_eq!(e.method_on_wire, 8);
    assert_eq!(inflate(&e.body, data.len()), data);
}

fn entry(name: &str, body: Vec<u8>) -> EncodedEntry {
    EncodedEntry {
        index: 0,
        name: name.to_string(),
        uncompressed_size: body.len() as u64,
        body,
        crc32: 0x1122_3344,
        method_on_wire: 0,
        inner_method: 0,
        encrypted: false,
        gp_bit1: false,
        version_needed: 20,
        mtime: (0x5566, 0x7788),
    }
}

#[test]
fn local_headers_are_laid_out_byte_by_byte() {
    let mut zip = ZipWriter::new();
    assert_eq!(zip.position(), 0);
    let header = zip.write_entry(&entry("a", vec![9, 8, 7])).unwrap();
    let expected: [u8; 31] = [
        0x50, 0x4b, 3, 4, 20, 0, 0, 8, 0, 0, 0x88, 0x77, 0x66, 0x55, 0x44, 0x33, 0x22, 0x11, 3, 0,
        0, 0, 3, 0, 0, 0, 1, 0, 0, 0, b'a',
    ];
    assert_eq!(header[..], expected[..]);
    assert_eq!(zip.position(), 34);
}

#[test]
fn directories_are_laid_out_byte_by_byte() {
    let mut zip = ZipWriter::new();
    zip.write_entry(&entry("a", vec![9, 8, 7])).unwrap();
    let tail = zip.finish().unwrap();
    let expected: [u8; 69] = [
        0x50, 0x4b, 1, 2, 0x1e, 3, 45, 0, 0, 8, 0, 0, 0x88, 0x77, 0x66, 0x55, 0x44, 0x33, 0x22,
        0x11, 3, 0, 0, 0, 3, 0, 0, 0, 1, 0, 0, 0, 0, 0, 0, 0, 0, 0, 0, 0, 0xa4, 0x81, 0, 0, 0, 0,
        b'a', 0x50, 0x4b, 5, 6, 0, 0, 0, 0, 1, 0, 1, 0, 47, 0, 0, 0, 34, 0, 0, 0, 0, 0,
    ];
    assert_eq!(tail[..], expected[..]);
}

#[test]
fn archives_of_nothing_have_an_end() {
    let tail = ZipWriter::new().finish().unwrap();
    let mut expected = vec![0x50, 0x4b, 5, 6];
    expected.extend_from_slice(&[0; 18]);
    assert_eq!(tail, expected);
}

#[test]
fn encrypted_headers_have_the_extra_field() {
    let mut e = entry("a", vec![0; 30]);
    e.encrypted = true;
    e.method_on_wire = METHOD_AES;
    e.inner_method = 8;
    let mut zip = ZipWriter::new();
    let header = zip.write_entry(&e).unwrap();
    // Flags: UTF-8 name and encryption; checksum zero; method 99.
    assert_eq!(&header[6..10], &[1, 8, 99, 0]);
    assert_eq!(&header[14..18], &[0, 0, 0, 0]);
    assert_eq!(&header[31..], &[1, 0x99, 7, 0, 2, 0, b'A', b'E', 3, 8, 0]);
}

#[test]
fn large_sizes_go_to_the_zip64_field() {
    let mut e = entry("a", vec![1]);
    e.uncompressed_size = 0x1_0000_0000;
    let mut zip = ZipWriter::new();
    let header = zip.write_entry(&e).unwrap();
    assert_eq!(&header[4..6], &[45, 0]);
    assert_eq!(&header[18..26], &[0xff; 8]);
    let mut extra = vec![1, 0, 16, 0];
    push_u64(&mut extra, 0x1_0000_0000);
    push_u64(&mut extra, 1);
    assert_eq!(&header[31..], &extra[..]);
}
