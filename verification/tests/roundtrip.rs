//! Round trips: a small corpus is packed in memory and read back with the
//! `zip` crate, or with `sevenz_rust` for solid archives.

use std::io::{Cursor, Read};

use tzip::cli::{Method, Options, UserSetFlags};
use tzip::compress::Scratch;
use tzip::pipeline::{encode_one, ArchiveRun, RawItem};
use tzip::sevenz::solid_plan;
use tzip::walker::{build_item, entry_name, walk, WalkOpts, WorkItem};

const ROOT: &[u8] = b"/tmp/corpus";

fn make_corpus() -> Vec<(&'static str, Vec<u8>)> {
    let big: Vec<u8> = (0..8192).map(|i| (i * 31 + 7) as u8).collect();
    vec![
        ("a.txt", b"hello tzip\n".to_vec()),
        ("b.txt", b"the quick brown fox jumps over the lazy dog\n".to_vec()),
        ("blob.bin", big),
        ("nested/c.txt", b"nested content\n".to_vec()),
    ]
}

fn content_of(corpus: &[(&'static str, Vec<u8>)], name: &str) -> Vec<u8> {
    for (n, data) in corpus {
        if format!("corpus/{}", n) == name {
            return data.clone();
        }
    }
    panic!("{} is not in the corpus", name);
}

fn list(corpus: &[(&'static str, Vec<u8>)], order: &[usize], sort: bool) -> Vec<WorkItem> {
    let mut found = Vec::new();
    for &i in order {
        let (name, data) = &corpus[i];
        let full = format!("/tmp/corpus/{}", name);
        let in_archive = entry_name(ROOT, full.as_bytes(), true, &[]).unwrap();
        found.push(build_item(full.as_bytes(), in_archive, data.len() as u64, 1_700_000_000));
    }
    if !sort {
        return found;
    }
    let roots = vec![ROOT.to_vec()];
    let opts = WalkOpts { roots: &roots, exclude: &[], sort: true, walk_threads: 1 };
    walk(&opts, found)
}

/// Packs the corpus. The files are found in the order `found`, and their
/// entries reach the writer in the order `arrival`.
fn pack_as(
    method: Method,
    level: u32,
    password: Option<&str>,
    sort: bool,
    found: &[usize],
    arrival: &[usize],
) -> Vec<u8> {
    let corpus = make_corpus();
    let items = list(&corpus, found, sort);
    let mut scratch = Scratch::new();
    let mut run = ArchiveRun::new(sort);
    let mut bytes = Vec::new();
    for &i in arrival {
        let data = content_of(&corpus, &items[i].name_in_archive);
        let raw = RawItem { index: i as u64, item: &items[i], bytes: &data };
        let entry = encode_one(&raw, method, level, password, &mut scratch, false).unwrap();
        for w in run.arrived(entry, items.len() as u64).unwrap() {
            bytes.extend_from_slice(&w.header);
            bytes.extend_from_slice(&w.entry.body);
        }
    }
    bytes.extend_from_slice(&run.finish().unwrap());
    bytes
}

fn pack(method: Method, level: u32, password: Option<&str>) -> Vec<u8> {
    pack_as(method, level, password, false, &[0, 1, 2, 3], &[0, 1, 2, 3])
}

fn check_corpus(archive: Vec<u8>, password: Option<&str>) {
    let corpus = make_corpus();
    let mut zf = zip::ZipArchive::new(Cursor::new(archive)).unwrap();
    assert_eq!(zf.len(), corpus.len());
    for i in 0..zf.len() {
        let mut e = match password {
            Some(pw) => zf.by_index_decrypt(i, pw.as_bytes()).unwrap(),
            None => zf.by_index(i).unwrap(),
        };
        let name = e.name().to_string();
        let mut data = Vec::new();
        e.read_to_end(&mut data).unwrap();
        assert_eq!(data, content_of(&corpus, &name), "file mismatch: {}", name);
    }
}

/// Unpacks an LZMA entry by the layout of the format: version, length of the
/// properties, properties, coded data up to an end marker.
fn unpack_lzma(body: &[u8]) -> Vec<u8> {
    assert_eq!(&body[0..4], &[0x13, 0, 5, 0]);
    let mut alone = body[4..9].to_vec();
    alone.extend_from_slice(&[0xff; 8]);
    alone.extend_from_slice(&body[9..]);
    let stream = xz2::stream::Stream::new_lzma_decoder(u64::MAX).unwrap();
    let mut data = Vec::new();
    xz2::read::XzDecoder::new_stream(Cursor::new(alone), stream).read_to_end(&mut data).unwrap();
    data
}

fn check_lzma_corpus(archive: Vec<u8>) {
    let corpus = make_corpus();
    let mut zf = zip::ZipArchive::new(Cursor::new(archive)).unwrap();
    assert_eq!(zf.len(), corpus.len());
    for i in 0..zf.len() {
        let mut e = zf.by_index_raw(i).unwrap();
        assert_eq!(e.compression(), zip::CompressionMethod::LZMA);
        let name = e.name().to_string();
        let mut body = Vec::new();
        e.read_to_end(&mut body).unwrap();
        assert_eq!(unpack_lzma(&body), content_of(&corpus, &name));
    }
}

#[test]
fn roundtrip_store() {
    check_corpus(pack(Method::Store, 6, None), None);
}

#[test]
fn roundtrip_deflate_level0() {
    check_corpus(pack(Method::Deflate, 0, None), None);
}

#[test]
fn roundtrip_deflate_max() {
    check_corpus(pack(Method::Deflate, 12, None), None);
}

#[test]
fn aes_archive_structural_check() {
    let archive = pack(Method::Deflate, 6, Some("hunter2"));
    let zf = zip::ZipArchive::new(Cursor::new(archive)).unwrap();
    assert_eq!(zf.len(), 4, "entry count");
}

#[test]
fn roundtrip_bzip2() {
    check_corpus(pack(Method::Bzip2, 6, None), None);
}

#[test]
fn roundtrip_lzma() {
    check_lzma_corpus(pack(Method::Lzma, 6, None));
}

#[test]
fn roundtrip_xz() {
    check_corpus(pack(Method::Xz, 6, None), None);
}

#[test]
fn roundtrip_zstd() {
    check_corpus(pack(Method::Zstd, 6, None), None);
}

fn solid_options(password: Option<&str>) -> Options {
    Options {
        archive: b"out.7z".to_vec(),
        paths: vec![ROOT.to_vec()],
        method: Method::Deflate,
        level: 6,
        cpu_jobs: 1,
        read_jobs: 2,
        walk_jobs: 1,
        password: password.map(|p| p.to_string()),
        sort: false,
        exclude: Vec::new(),
        quiet: true,
        verbose: false,
        keep_cache: false,
        streaming: false,
        solid: true,
        tui: false,
        classic_walk: false,
        dispatch_io: false,
        usb_info: false,
        user_flags: UserSetFlags { keep_cache: false, read_jobs: false, dispatch_io: false },
    }
}

fn roundtrip_solid(password: Option<&str>) {
    let corpus = make_corpus();
    let items = list(&corpus, &[0, 1, 2, 3], false);
    let plan = solid_plan(&solid_options(password));
    let mut writer = sevenz_rust::SevenZWriter::new(Cursor::new(Vec::new())).unwrap();
    let lzma = sevenz_rust::lzma::LZMA2Options::with_preset(plan.preset);
    let lzma2 = sevenz_rust::SevenZMethodConfiguration::new(sevenz_rust::SevenZMethod::LZMA2)
        .with_options(sevenz_rust::MethodOptions::from(lzma));
    let mut methods: Vec<sevenz_rust::SevenZMethodConfiguration> = Vec::new();
    if plan.encrypt_content {
        let pw = sevenz_rust::Password::from(password.unwrap());
        methods.push(sevenz_rust::AesEncoderOptions::new(pw).into());
    }
    methods.push(lzma2);
    writer.set_content_methods(methods);
    writer.set_encrypt_header(plan.encrypt_header);
    for item in &items {
        let data = content_of(&corpus, &item.name_in_archive);
        let mut entry = sevenz_rust::SevenZArchiveEntry::new();
        entry.name = item.name_in_archive.clone();
        entry.has_stream = true;
        writer.push_archive_entry(entry, Some(Cursor::new(data))).unwrap();
    }
    let bytes = writer.finish().unwrap().into_inner();
    let len = bytes.len() as u64;
    let pw = match password {
        Some(p) => sevenz_rust::Password::from(p),
        None => sevenz_rust::Password::empty(),
    };
    let mut reader = sevenz_rust::SevenZReader::new(Cursor::new(bytes), len, pw).unwrap();
    let mut seen = 0;
    reader
        .for_each_entries(|entry, r| {
            let mut data = Vec::new();
            r.read_to_end(&mut data).unwrap();
            assert_eq!(data, content_of(&corpus, entry.name()));
            seen += 1;
            Ok(true)
        })
        .unwrap();
    assert_eq!(seen, 4);
}

#[test]
fn roundtrip_seven_zip_solid() {
    roundtrip_solid(None);
}

#[test]
fn roundtrip_seven_zip_solid_aes() {
    roundtrip_solid(Some("hunter2"));
}

#[test]
fn sort_flag_is_deterministic() {
    let a = pack_as(Method::Store, 6, None, true, &[0, 1, 2, 3], &[0, 1, 2, 3]);
    let b = pack_as(Method::Store, 6, None, true, &[3, 1, 0, 2], &[2, 3, 1, 0]);
    assert_eq!(a, b, "sorted STORE archives should be byte-identical");
    check_corpus(a, None);
}

#[test]
fn encrypted_archives_open_with_their_password() {
    for method in [Method::Store, Method::Deflate, Method::Bzip2, Method::Xz, Method::Zstd] {
        check_corpus(pack(method, 6, Some("hunter2")), Some("hunter2"));
    }
}

#[test]
fn encrypted_archives_stay_closed_to_others() {
    let archive = pack(Method::Deflate, 6, Some("hunter2"));
    let mut zf = zip::ZipArchive::new(Cursor::new(archive)).unwrap();
    assert!(zf.by_index_decrypt(0, b"hunter3").is_err());
}

#[test]
fn empty_password_means_no_encryption() {
    check_corpus(pack(Method::Deflate, 6, Some("")), None);
}

#[test]
fn levels_are_moved_into_range() {
    for method in [Method::Deflate, Method::Bzip2, Method::Xz] {
        check_corpus(pack(method, 0, None), None);
        check_corpus(pack(method, 99, None), None);
    }
    check_corpus(pack(Method::Zstd, 0, None), None);
    check_lzma_corpus(pack(Method::Lzma, 0, None));
    check_lzma_corpus(pack(Method::Lzma, 99, None));
}
