//! Drives: diagnosis, contention, the block cache, and raw volumes.

use tzip::block_cache::{new_shared_block_cache, shard_index, BlockCacheInner, SHARDS};
use tzip::contention::{
    classify, indexing_enabled, read_process, read_program, short_name, warning_lines,
};
use tzip::raw_apfs::{
    child_path, prewalk_roots, prewalk_step, resolve_listed, resolve_oid, root_file_item,
    split_parent_name, volume_path, walk_dir, whole_disk_raw, Child, DeviceError, EntryKind,
    OidCache, ReadStats, Resolve,
};
use tzip::raw_reader::{AlignedRawReader, SeekTo, READ_AHEAD};
use tzip::usb_info::{
    add_mount, advise, diskutil_info, diskutil_info_raw, extract_number, extract_quoted,
    find_usb_device, probe_path, probe_workload, report_lines, whole_disk_query, SourceReport,
    UsbLinkInfo,
};

fn link(bps: u64) -> UsbLinkInfo {
    UsbLinkInfo { vendor: "SanDisk".to_string(), product: "Extreme".to_string(), link_speed_bps: bps }
}

#[test]
fn link_speeds() {
    let cases = [
        (0, "unknown"),
        (20_000_000_000, "USB 3.2 Gen 2x2 (~20 Gbps)"),
        (10_000_000_000, "USB 3.1 SuperSpeed+ (~10 Gbps)"),
        (5_000_000_000, "USB 3.0 SuperSpeed (~5 Gbps)"),
        (480_000_000, "USB 2.0 High Speed (480 Mbps)"),
        (12_000_000, "USB 1.1 Full Speed (12 Mbps)"),
        (1_500_000, "USB 1.0 Low Speed (1.5 Mbps)"),
        (999, "999 bps (unknown class)"),
    ];
    for (bps, label) in cases {
        assert_eq!(link(bps).speed_label(), label);
    }
}

fn report(mount: &str, fs_type: &str, bus: Option<&str>, usb: Option<UsbLinkInfo>) -> SourceReport {
    SourceReport {
        path: b"/p".to_vec(),
        mount_point: mount.as_bytes().to_vec(),
        bsd_device: "/dev/disk7s1".to_string(),
        fs_type: fs_type.to_string(),
        bus_protocol: bus.map(|b| b.to_string()),
        media_name: Some("Extreme".to_string()),
        usb,
    }
}

#[test]
fn advice_on_drives() {
    let slow = report("/v", "apfs", Some("USB"), Some(link(480_000_000)));
    let lines = advise(&slow, 4, false);
    assert_eq!(lines.len(), 4);
    assert!(lines[0].starts_with("APFS on USB is known-slow"));
    assert_eq!(
        lines[1],
        "USB link is USB 2.0 High Speed (480 Mbps) — cap ~30 MB/s regardless of drive speed. Check the cable, port, and hub."
    );
    assert_eq!(
        lines[2],
        "--read-jobs 4 is high for a USB source; concurrent readers can seek-storm."
    );
    assert!(lines[3].starts_with("F_NOCACHE is on"));
    assert_eq!(advise(&slow, 2, true).len(), 2);
    assert!(advise(&report("/v", "apfs", Some("PCI"), None), 9, false).is_empty());
    assert!(advise(&report("/v", "exfat", Some("USB"), Some(link(5_000_000_000))), 2, false)
        .is_empty());
}

const DISKUTIL: &str = "   Device Identifier:  disk7s1\n   Part of Whole:      disk7\n\
                        \x20  Protocol:           USB\n   Volume Name:        X\n";

#[test]
fn diskutil_output() {
    let f = diskutil_info_raw(Some(DISKUTIL));
    assert_eq!(f.bus_protocol.as_deref(), Some("USB"));
    assert_eq!(f.media_name, None);
    assert_eq!(f.part_of_whole.as_deref(), Some("disk7"));
    let both = "Protocol: A\nBus Protocol: B\nProtocol: C\nMedia Name: m\nDevice / Media Name: n\n";
    let f = diskutil_info_raw(Some(both));
    assert_eq!(f.bus_protocol.as_deref(), Some("B"));
    assert_eq!(f.media_name.as_deref(), Some("n"));
    let f = diskutil_info_raw(None);
    assert!(f.bus_protocol.is_none() && f.media_name.is_none() && f.part_of_whole.is_none());
}

#[test]
fn whole_disks_are_asked_for_the_name() {
    let part = || diskutil_info_raw(Some(DISKUTIL));
    assert_eq!(whole_disk_query(&part(), "/dev/disk7s1").as_deref(), Some("/dev/disk7"));
    assert_eq!(whole_disk_query(&part(), "/dev/disk7"), None);
    let whole = diskutil_info_raw(Some("Device / Media Name: Extreme\nProtocol: SATA\n"));
    let (bus, name) = diskutil_info(part(), "/dev/disk7s1", Some(whole));
    assert_eq!((bus.as_deref(), name.as_deref()), (Some("USB"), Some("Extreme")));
    let (bus, name) = diskutil_info(part(), "/dev/disk7s1", None);
    assert_eq!((bus.as_deref(), name), (Some("USB"), None));
}

const IOREG: &str = "+-o Root  <class IORegistryEntry>\n\
  +-o USB3 Hub@1  <class IOUSBHostDevice>\n\
  | \"USB Product Name\" = \"USB3 Hub\"\n\
  +-o Card Reader@2\n\
  | \"USB Vendor Name\" = \"Generic\"\n\
  | \"USB Product Name\" = \"Card Reader\"\n\
  | \"UsbLinkSpeed\" = 480000000\n\
  +-o Extreme V3@3\n\
  | \"USB Vendor Name\" = \"SanDisk\"\n\
  | \"USB Product Name\" = \"Extreme V3\"\n\
  | \"UsbLinkSpeed\" = 10000000000,\n";

#[test]
fn usb_devices() {
    let d = find_usb_device(IOREG, Some("EXTREME V3 Media")).unwrap();
    assert_eq!((d.vendor.as_str(), d.product.as_str()), ("SanDisk", "Extreme V3"));
    assert_eq!(d.link_speed_bps, 10_000_000_000);
    let d = find_usb_device(IOREG, Some("something else")).unwrap();
    assert_eq!((d.product.as_str(), d.link_speed_bps), ("Card Reader", 480_000_000));
    let d = find_usb_device(IOREG, None).unwrap();
    assert_eq!(d.product, "Card Reader");
    assert!(find_usb_device("", Some("x")).is_none());
}

#[test]
fn values_in_blocks() {
    let block: Vec<Vec<char>> = ["x \"k\" = \"open", "\"k\" = \"v\" \"k\" = \"w\"", "\"n\" = x", "\"n\" = 12a"]
        .iter()
        .map(|l| l.chars().collect())
        .collect();
    assert_eq!(extract_quoted(&block, "k").as_deref(), Some("v"));
    assert_eq!(extract_quoted(&block, "z"), None);
    assert_eq!(extract_number(&block, "n"), Some(12));
    assert_eq!(extract_number(&block, "k"), None);
}

#[test]
fn probes() {
    let drive = || (Some("USB".to_string()), Some("Extreme V3".to_string()));
    let r = probe_path(b"/p", b"apfs", b"/Volumes/x", b"/dev/disk7s1", drive(), Some(IOREG));
    assert_eq!(r.path, b"/p");
    assert_eq!(r.mount_point, b"/Volumes/x");
    assert_eq!((r.fs_type.as_str(), r.bsd_device.as_str()), ("apfs", "/dev/disk7s1"));
    assert_eq!(r.usb.unwrap().vendor, "SanDisk");
    let r = probe_path(b"/p", b"apfs", b"/", b"/dev/disk1", drive(), None);
    assert!(r.usb.is_none());
    let r = probe_path(b"/p", b"apfs", b"/", b"/dev/disk1", (None, None), Some(IOREG));
    assert!(r.usb.is_none());
}

#[test]
fn one_report_for_each_mount_point() {
    let kept = probe_workload(vec![
        report("/a", "apfs", Some("USB"), None),
        report("/", "apfs", Some("PCI"), None),
        report("/a/", "apfs", Some("USB"), None),
        report("/b", "exfat", Some("USB"), None),
    ]);
    let mounts: Vec<&[u8]> = kept.iter().map(|r| r.mount_point.as_slice()).collect();
    assert_eq!(mounts, [b"/a", b"/b"]);
    let mut list = Vec::new();
    for m in ["/a", "/b", "/a/"] {
        add_mount(&mut list, m.as_bytes().to_vec());
    }
    assert_eq!(list, [b"/a".to_vec(), b"/b".to_vec()]);
}

#[test]
fn diagnosis() {
    let nothing = report_lines(&Vec::new(), 2, false);
    assert_eq!(nothing.len(), 5);
    assert_eq!(nothing[2], "no USB-backed filesystems in this workload — nothing to report.");
    let r = report("/v", "exfat", Some("USB"), Some(link(480_000_000)));
    let lines = report_lines(&vec![r], 2, true);
    assert_eq!(
        lines,
        [
            "",
            "=== USB / drive diagnostic ===",
            "",
            "mount         /v",
            "  fs          exfat",
            "  bsd device  /dev/disk7s1",
            "  bus         USB",
            "  media       Extreme",
            "  usb device  SanDisk Extreme",
            "  usb link    USB 2.0 High Speed (480 Mbps)",
            "  advisory    USB link is USB 2.0 High Speed (480 Mbps) — cap ~30 MB/s regardless of drive speed. Check the cable, port, and hub.",
            "",
            "=== end diagnostic ===",
            "",
        ]
    );
}

#[test]
fn processes() {
    let p = read_process("  412  37.5 /Library/Sophos  Anti-Virus/scan -x").unwrap();
    assert_eq!((p.pid, p.cpu.as_str()), (412, "37.5"));
    assert_eq!(p.command, "/Library/Sophos Anti-Virus/scan -x");
    assert!(read_process("412 37.5").is_none());
    assert!(read_process("PID %CPU COMMAND").is_none());
    assert!(read_process("4294967296 0.0 x").is_none());
    let v = classify(Some("/Library/Anti Virus/SophosScanD"), "/Library/Anti Virus/SophosScanD -x");
    assert_eq!((v.scanner, v.apple), (Some("Sophos"), None));
    let v = classify(None, "/opt/bin/SOPHOSd -x");
    assert_eq!((v.scanner, v.apple), (Some("Sophos"), None));
    let v = classify(Some("/System/mdworker_shared"), "/System/mdworker_shared");
    assert_eq!((v.scanner, v.apple), (None, Some("Spotlight")));
    // An editor on a scanner's file is no scanner, nor is a directory of that name.
    let v = classify(Some("/usr/bin/vim"), "/usr/bin/vim /tmp/sophos.txt");
    assert_eq!((v.scanner, v.apple), (None, None));
    let v = classify(None, "/usr/bin/vim /tmp/sophos.txt");
    assert_eq!((v.scanner, v.apple), (None, None));
    assert_eq!(classify(Some("/opt/sophos/vim"), "/opt/sophos/vim").scanner, None);
    let path = "/Library/Application Support/TrendMicro/iCoreService";
    assert_eq!(read_program(&format!("  99 {} ", path)), Some((99, path.to_string())));
    assert_eq!(classify(Some(path), path).scanner, Some("Trend Micro"));
    assert_eq!(read_program("99"), None);
    assert_eq!(read_program("  PID COMM"), None);
    assert_eq!(short_name("/usr/libexec/fseventsd -d"), "fseventsd");
    assert_eq!(short_name("/"), "/");
    assert_eq!(short_name(""), "");
}

#[test]
fn warnings() {
    assert!(indexing_enabled(b"/Volumes/x:\n\tIndexing Enabled.\n"));
    assert!(!indexing_enabled(b"Indexing disabled."));
    let pair = |a: &str, b: &str| (a.to_string(), b.to_string());
    assert!(warning_lines(&Vec::new(), &Vec::new(), &Vec::new()).is_empty());
    let lines = warning_lines(
        &vec![b"/v".to_vec()],
        &vec![pair("Sophos", "42")],
        &vec![pair("Spotlight", "7")],
    );
    assert_eq!(lines[0..2], ["", "=== contention check ==="]);
    assert_eq!(lines[2], "warning: Spotlight indexing is ENABLED on /v");
    assert_eq!(lines[3], "  → to disable:  sudo mdutil -i off /v");
    assert_eq!(lines[6], "  → Sophos (42% cumulative CPU across matched processes)");
    assert_eq!(lines[10], "note: Apple indexer(s) also active:");
    assert_eq!(lines[11], "  → Spotlight (7% cumulative CPU)");
    assert_eq!(lines[12..], ["=== end contention check ===", ""]);
}

#[test]
fn caches_forget_the_oldest_block() {
    let mut c = BlockCacheInner::new(2, 4);
    c.put(0, &[1; 4]);
    c.put(4, &[2; 3]);
    assert!(c.get(4).is_none());
    c.put(4, &[2; 4]);
    c.put(0, &[9; 4]);
    assert_eq!(*c.get(0).unwrap(), vec![1; 4]);
    c.put(8, &[3; 4]);
    assert!(c.get(0).is_none());
    assert_eq!(*c.get(4).unwrap(), vec![2; 4]);
    assert_eq!(*c.get(8).unwrap(), vec![3; 4]);
    let mut tiny = BlockCacheInner::new(0, 1);
    tiny.put(0, &[1]);
    tiny.put(1, &[2]);
    assert!(tiny.get(0).is_none());
    assert_eq!(*tiny.get(1).unwrap(), vec![2]);
}

#[test]
fn shards() {
    let mut c = new_shared_block_cache(32, 4096);
    assert_eq!(c.shards.len(), SHARDS);
    assert_eq!(c.block_shift, 12);
    for i in 0..64u64 {
        c.put(i * 4096, &vec![i as u8; 4096]);
    }
    for i in 0..64u64 {
        assert_eq!(c.get(i * 4096).is_some(), i >= 32);
    }
    assert_eq!(c.get(63 * 4096).unwrap()[0], 63);
    assert_eq!(shard_index(17 * 4096, 12, 16), 1);
    assert_eq!(new_shared_block_cache(0, 512).block_shift, 9);
}

fn device(len: usize) -> Vec<u8> {
    (0..len).map(|i| (i / 7 % 251) as u8).collect()
}

/// Reads through a cache, as a reader of a device does.
fn read_at(
    disk: &[u8],
    cache: &mut BlockCacheInner,
    reader: &mut AlignedRawReader,
    want: usize,
) -> (Vec<u8>, bool) {
    let mut out = vec![0u8; want];
    let plan = match reader.plan(want) {
        Some(p) => p,
        None => return (out, true),
    };
    if plan.single_block {
        if let Some(block) = cache.get(plan.aligned_start) {
            let n = reader.serve(&plan, &block, &mut out);
            out.truncate(n);
            return (out, true);
        }
    }
    let start = (plan.aligned_start as usize).min(disk.len());
    let end = (start + plan.phys_len as usize).min(disk.len());
    let data = &disk[start..end];
    for (off, at) in reader.cacheable(&plan, data.len()) {
        cache.put(off, &data[at..at + 4096]);
    }
    let n = reader.serve(&plan, data, &mut out);
    out.truncate(n);
    (out, false)
}

#[test]
fn reads_return_what_the_device_holds() {
    let disk = device(1_000_000);
    let mut cache = BlockCacheInner::new(100, 4096);
    let mut reader = AlignedRawReader::new(4096);
    let reads = [(10, 50), (4090, 20), (300_000, 4096), (500, 300_000), (999_990, 100), (10, 50)];
    for (pos, want) in reads {
        assert_eq!(reader.seek(SeekTo::Start(pos)), pos);
        let (got, _) = read_at(&disk, &mut cache, &mut reader, want);
        let end = (pos as usize + want).min(disk.len());
        assert_eq!(got, &disk[pos as usize..end]);
        assert_eq!(reader.pos, end as u64);
    }
    reader.seek(SeekTo::Start(4096));
    let (got, cached) = read_at(&disk, &mut cache, &mut reader, 100);
    assert!(cached);
    assert_eq!(got, &disk[4096..4196]);
}

#[test]
fn plans() {
    let mut r = AlignedRawReader::new(4096);
    assert!(r.plan(0).is_none());
    r.seek(SeekTo::Start(5000));
    let p = r.plan(100).unwrap();
    assert_eq!((p.aligned_start, p.needed, p.skip), (4096, 4096, 904));
    assert!(p.widen && p.single_block);
    assert_eq!(p.phys_len, READ_AHEAD);
    let p = r.plan(300_000).unwrap();
    assert!(!p.widen && !p.single_block);
    assert_eq!(p.phys_len, 303_104);
    assert!(r.cacheable(&p, 303_104).is_empty());
    let p = r.plan(100).unwrap();
    assert_eq!(r.cacheable(&p, 9000), [(4096, 0), (8192, 4096)]);
}

#[test]
fn seeks() {
    let mut r = AlignedRawReader::new(512);
    assert_eq!(r.seek(SeekTo::Start(100)), 100);
    assert_eq!(r.seek(SeekTo::Current(-30)), 70);
    assert_eq!(r.seek(SeekTo::Current(-71)), u64::MAX);
    assert_eq!(r.seek(SeekTo::Current(1)), 0);
}

#[test]
fn volume_paths() {
    let split = |p: &str| split_parent_name(p);
    assert_eq!(split("/a/b/foo.dcm"), ("/a/b".to_string(), "foo.dcm".to_string()));
    assert_eq!(split("/foo"), ("/".to_string(), "foo".to_string()));
    assert_eq!(split("foo"), ("/".to_string(), "foo".to_string()));
    assert_eq!(child_path("/", "x"), "/x");
    assert_eq!(child_path("/a//", "x"), "/a/x");
    assert_eq!(volume_path(b"/Volumes/v", b"/Volumes/v/a/b"), "/a/b");
    assert_eq!(volume_path(b"/Volumes/v", b"/other"), "/other");
    for p in ["/a/b/c", "/x"] {
        let (dir, name) = split(p);
        assert_eq!(child_path(&dir, &name), p);
    }
    let roots = vec![b"/v/b".to_vec(), b"/v/a".to_vec(), b"/v//b/".to_vec()];
    assert_eq!(prewalk_roots(b"/v", &roots), ["/a", "/b"]);
    let spelled = vec![b"/v/a/b".to_vec(), b"/v/a//b".to_vec()];
    assert_eq!(prewalk_roots(b"/v", &spelled), ["/a//b", "/a/b"]);
}

#[test]
fn raw_devices() {
    assert_eq!(whole_disk_raw(b"/dev/disk5s1"), Ok("/dev/rdisk5".to_string()));
    assert_eq!(whole_disk_raw(b"/dev/disk12"), Ok("/dev/rdisk12".to_string()));
    assert_eq!(whole_disk_raw(b"/dev/sda1"), Err(DeviceError::UnexpectedPath));
    assert_eq!(whole_disk_raw(b"/dev/disks"), Err(DeviceError::NoDiskNumber));
}

fn child(name: &str, oid: u64, kind: EntryKind) -> Child {
    Child { name: name.to_string(), oid, kind }
}

#[test]
fn object_numbers() {
    let mut known = OidCache::new();
    assert!(matches!(resolve_oid(&known, "/a/f"), Resolve::OpenParent(d) if d == "/a"));
    known.insert("/a".to_string(), 7);
    assert!(matches!(resolve_oid(&known, "/a/f"), Resolve::ListParent(d, 7) if d == "/a"));
    let listed = vec![child("f", 9, EntryKind::File), child("sub", 10, EntryKind::Directory)];
    assert_eq!(resolve_listed(&mut known, "/a/f", "/a", &listed), Some(9));
    assert!(matches!(resolve_oid(&known, "/a/f"), Resolve::Found(9)));
    assert_eq!(known.get("/a/sub"), Some(10));
    assert_eq!(known.get("/a"), Some(7));
    assert_eq!(resolve_listed(&mut known, "/a/nope", "/a", &listed), None);
    assert_eq!(prewalk_step(&mut known, "/", &listed), ["/sub"]);
    assert_eq!(known.get("/f"), Some(9));
}

#[test]
fn walking_a_directory() {
    let listed = vec![
        child("f", 100, EntryKind::File),
        child("link", 164, EntryKind::Symlink),
        child("d", 5000, EntryKind::Directory),
        child("x.log", 101, EntryKind::File),
    ];
    let exclude = vec!["*.log".to_string()];
    let plan = walk_dir(b"/v/r", "/r", "r", &exclude, &listed);
    let names: Vec<&str> = plan.files.iter().map(|f| f.name_in_archive.as_str()).collect();
    assert_eq!(names, ["r/f", "r/link"]);
    let own = walk_dir(b"/v/r", "/r", "r", &["f".to_string()], &listed);
    assert_eq!(own.files.len(), 3);
    assert_eq!(plan.files[0].path, b"/v/r/f");
    assert_eq!((plan.files[0].size, plan.files[0].mtime), (0, (33, 0)));
    assert_eq!(plan.inode_range, Some((100, 164)));
    assert_eq!(plan.dirs.len(), 1);
    let d = &plan.dirs[0];
    assert_eq!((d.rel.as_str(), d.prefix.as_str(), d.oid), ("/r/d", "r/d", 5000));
    assert_eq!(d.abs, b"/v/r/d");
    let wide = vec![child("a", 1, EntryKind::File), child("b", 100, EntryKind::File)];
    assert_eq!(walk_dir(b"/v", "/", "", &[], &wide).inode_range, None);
    assert_eq!(walk_dir(b"/v", "/", "", &[], &Vec::new()).inode_range, None);
    let root = root_file_item(b"/v/one.txt", &[]).unwrap();
    assert_eq!((root.name_in_archive.as_str(), root.size), ("one.txt", 0));
    assert!(root_file_item(b"/v/one.log", &exclude).is_none());
}

#[test]
fn read_statistics() {
    let mut s = ReadStats::new();
    assert_eq!(s.report(), None);
    s.record(3 * 1024 * 1024, 4_000_000, 2_000_000, 8_000_000_000, 9_000_000_000);
    s.record(1024 * 1024, 0, 0, 0, u64::MAX);
    assert_eq!(s.files, 2);
    assert_eq!(s.total_ns, 8_999_999_999);
    assert_eq!(
        s.report().as_deref(),
        Some(
            "tzip: --raw-block reader stats: 2 files, 4 MB\n\tavg per file: pool_wait=2000μs resolve=1000μs read=4000000μs total=4499999μs\n\tsum across threads: pool_wait=0s resolve=0s read=8s total=8s"
        )
    );
}
