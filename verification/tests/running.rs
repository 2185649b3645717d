//! Settings, tuning, the layout of a run, its writer, and what it shows.

use tzip::cli::{
    is_7z_path, parse_read_jobs, password_in_file, password_piped, password_typed, Args, CliError, Method, Options,
    PasswordSource, UserSetFlags,
};
use tzip::pipeline::{
    auto_tune, batch_totals, choose_writer_capacity, plan_run, progress_message,
    single_file_parallel, ArchiveRun, RunError, Totals,
};
use tzip::platform::{
    fs_info, opens_relative, rdadvise_count, read_mode, DispatchIoSource, FsInfo, FsStat,
    LocalFsSource, ReadMode,
};
use tzip::progress::{first_message, progress_mode, ProgressMode};
use tzip::reorder::Reorder;
use tzip::sevenz::{jobs_note, solid_plan};
use tzip::tui::{eta_label, gauge_label, truncate, worker_line, Dashboard};
use tzip::usb_info::SourceReport;
use tzip::walker::{build_item, WorkItem};
use tzip::zipwriter::EncodedEntry;

fn args() -> Args {
    Args {
        archive: b"out.zip".to_vec(),
        paths: vec![b"src".to_vec()],
        method: Method::Deflate,
        level: 6,
        solid: false,
        tui: false,
        jobs: None,
        read_jobs: "2".to_string(),
        walk_jobs: None,
        classic_walk: false,
        dispatch_io: false,
        usb_info: false,
        password: None,
        password_file: None,
        sort: false,
        exclude: Vec::new(),
        quiet: false,
        verbose: false,
        keep_cache: false,
        streaming: false,
    }
}

fn options_with(change: fn(&mut Args)) -> Options {
    let mut a = args();
    change(&mut a);
    a.into_options_with(UserSetFlags::default(), 10).unwrap().0
}

fn options() -> Options {
    options_with(|_| {})
}

#[test]
fn defaults() {
    let o = options();
    assert_eq!((o.cpu_jobs, o.read_jobs, o.walk_jobs), (10, 2, 4));
    assert_eq!(o.archive, b"out.zip");
    assert_eq!(o.paths, [b"src".to_vec()]);
    assert_eq!((o.method, o.level), (Method::Deflate, 6));
    assert!(!o.solid && o.password.is_none());
}

#[test]
fn the_machine_has_cores() {
    let (o, _) = args().into_options(UserSetFlags::default()).unwrap();
    assert!(o.cpu_jobs >= 1);
    assert!(o.walk_jobs >= 1 && o.walk_jobs <= 4);
}

#[test]
fn jobs() {
    let few = args().into_options_with(UserSetFlags::default(), 0).unwrap().0;
    assert_eq!((few.cpu_jobs, few.walk_jobs), (1, 1));
    let set = options_with(|a| {
        a.jobs = Some(3);
        a.walk_jobs = Some(8);
        a.read_jobs = "AUTO".to_string();
    });
    assert_eq!((set.cpu_jobs, set.read_jobs, set.walk_jobs), (3, 3, 8));
    assert_eq!(parse_read_jobs("auto", 20), Ok(8));
    assert_eq!(parse_read_jobs("auto", 0), Ok(1));
    assert_eq!(parse_read_jobs("+12", 1), Ok(12));
    assert_eq!(parse_read_jobs("0", 1), Err(CliError::ZeroReadJobs));
    for bad in ["", "+", "-1", "two", "1 ", "99999999999999999999"] {
        assert_eq!(parse_read_jobs(bad, 1), Err(CliError::InvalidReadJobs));
    }
    let mut a = args();
    a.read_jobs = "0".to_string();
    assert_eq!(
        a.into_options_with(UserSetFlags::default(), 1).err(),
        Some(CliError::ZeroReadJobs)
    );
}

#[test]
fn the_extension_asks_for_7z() {
    assert!(is_7z_path(b"/tmp/out.7z"));
    assert!(is_7z_path(b"out.7Z"));
    assert!(!is_7z_path(b"out.7zz"));
    assert!(!is_7z_path(b".7z"));
    assert!(options_with(|a| a.archive = b"x.7z".to_vec()).solid);
    assert!(options_with(|a| a.solid = true).solid);
}

fn source_with(password: Option<&str>, file: Option<&[u8]>) -> (Option<String>, PasswordSource) {
    let mut a = args();
    a.password = password.map(|p| p.to_string());
    a.password_file = file.map(|f| f.to_vec());
    let (o, source) = a.into_options_with(UserSetFlags::default(), 1).unwrap();
    (o.password, source)
}

#[test]
fn passwords() {
    assert!(matches!(source_with(None, None), (None, PasswordSource::Settled)));
    let (given, source) = source_with(Some("pw"), None);
    assert_eq!(given.as_deref(), Some("pw"));
    assert!(matches!(source, PasswordSource::Settled));
    assert!(matches!(source_with(Some("-"), None), (None, PasswordSource::Prompt)));
    let (given, source) = source_with(Some("pw"), Some(b"/pw"));
    assert_eq!(given, None);
    assert!(matches!(source, PasswordSource::File(f) if f == b"/pw"));
    assert_eq!(password_in_file("first\r\nsecond\n"), Ok("first".to_string()));
    assert_eq!(password_in_file("only"), Ok("only".to_string()));
    assert_eq!(password_in_file(""), Err(CliError::EmptyPasswordFile));
    assert_eq!(password_in_file("\nsecond"), Err(CliError::EmptyPasswordFile));
    assert_eq!(password_piped("secret\n"), Ok("secret".to_string()));
    assert_eq!(password_piped("\n"), Err(CliError::EmptyPassword));
    assert_eq!(password_typed("x".to_string()), Ok("x".to_string()));
    assert_eq!(password_typed(String::new()), Err(CliError::EmptyPassword));
}

fn info(fs_type: &str, iosize: u32) -> FsInfo {
    FsInfo { fs_type: fs_type.to_string(), iosize, bsize: 4096, mount_point: b"/".to_vec() }
}

#[test]
fn writer_buffers() {
    const MIB: usize = 1024 * 1024;
    assert_eq!(choose_writer_capacity(None), 4 * MIB);
    assert_eq!(choose_writer_capacity(Some(&info("ExFAT", 0))), 16 * MIB);
    assert_eq!(choose_writer_capacity(Some(&info("msdos", 0))), 16 * MIB);
    assert_eq!(choose_writer_capacity(Some(&info("apfs", 4096))), 4 * MIB);
    assert_eq!(choose_writer_capacity(Some(&info("apfs", 2 * MIB as u32))), 8 * MIB);
}

fn probe(fs_type: &str, bus: Option<&str>) -> SourceReport {
    SourceReport {
        path: b"/p".to_vec(),
        mount_point: b"/Volumes/x".to_vec(),
        bsd_device: "/dev/disk7s1".to_string(),
        fs_type: fs_type.to_string(),
        bus_protocol: bus.map(|b| b.to_string()),
        media_name: None,
        usb: None,
    }
}

#[test]
fn tuning_for_apfs_on_usb() {
    let probes = vec![probe("exfat", Some("USB")), probe("APFS", Some("USB"))];
    let (o, note) = auto_tune(options(), &probes);
    assert!(o.keep_cache && o.dispatch_io);
    assert_eq!(o.read_jobs, 1);
    assert_eq!(
        note.as_deref(),
        Some(
            "tzip: auto-tuned defaults for APFS-on-USB source (keep_cache=on, dispatch_io=on, read_jobs=1). Override with the same flag."
        )
    );
    let (again, note) = auto_tune(o, &probes);
    assert_eq!(note, None);
    assert_eq!(again.read_jobs, 1);
}

#[test]
fn tuning_for_ntfs() {
    let (o, note) = auto_tune(options(), &vec![probe("com.vendor.NTFS", None)]);
    assert!(o.keep_cache && !o.dispatch_io);
    assert_eq!(o.read_jobs, 2);
    assert_eq!(
        note.as_deref(),
        Some(
            "tzip: auto-tuned defaults for NTFS-on-macOS source (keep_cache=on). Override with the same flag."
        )
    );
}

#[test]
fn tuning_leaves_the_user_alone() {
    let probes = vec![probe("apfs", Some("USB"))];
    let mut o = options();
    o.user_flags = UserSetFlags { keep_cache: true, read_jobs: true, dispatch_io: true };
    let (t, note) = auto_tune(o, &probes);
    assert!(!t.keep_cache && !t.dispatch_io);
    assert_eq!(t.read_jobs, 2);
    assert_eq!(note, None);
    let quiet = options_with(|a| a.quiet = true);
    let (t, note) = auto_tune(quiet, &probes);
    assert!(t.keep_cache);
    assert_eq!(note, None);
    let (t, note) = auto_tune(options(), &vec![probe("apfs", Some("PCI-Express"))]);
    assert!(!t.keep_cache);
    assert_eq!(note, None);
}

fn sized(size: u64) -> WorkItem {
    build_item(b"/f", "f".to_string(), size, 0)
}

#[test]
fn totals() {
    assert_eq!(batch_totals(&Vec::new()), Err(RunError::NoFiles));
    let t = batch_totals(&vec![sized(3), sized(4)]);
    assert_eq!(t, Ok(Totals { bytes: 7, files: 2 }));
    assert_eq!(batch_totals(&vec![sized(u64::MAX), sized(1)]), Err(RunError::TooLarge));
}

#[test]
fn layouts() {
    let p = plan_run(&options(), true);
    assert!(!p.solid && !p.list_first && !p.ordered && p.bulk_walk && p.progress);
    assert_eq!((p.walk_threads, p.read_bound, p.cpu_bound, p.walk_bound), (4, 4, 20, 16));
    let p = plan_run(&options_with(|a| a.sort = true), false);
    assert!(p.list_first && p.ordered && !p.bulk_walk);
    let p = plan_run(
        &options_with(|a| {
            a.solid = true;
            a.quiet = true;
            a.jobs = Some(0);
            a.walk_jobs = Some(0);
            a.read_jobs = "100".to_string();
            a.classic_walk = true;
        }),
        true,
    );
    assert!(p.solid && p.list_first && !p.ordered && !p.bulk_walk && !p.progress);
    assert_eq!((p.walk_threads, p.read_bound, p.cpu_bound, p.walk_bound), (1, 200, 2, 200));
    let p = plan_run(
        &options_with(|a| {
            a.quiet = true;
            a.tui = true;
        }),
        false,
    );
    assert!(p.progress);
}

#[test]
fn single_large_files() {
    let large = 8 * 1024 * 1024;
    let one = |bytes| Some(Totals { bytes, files: 1 });
    assert!(single_file_parallel(Method::Deflate, one(large), None));
    assert!(!single_file_parallel(Method::Deflate, one(large - 1), None));
    assert!(!single_file_parallel(Method::Store, one(large), None));
    let two = Some(Totals { bytes: large, files: 2 });
    assert!(!single_file_parallel(Method::Deflate, two, Some(large)));
    assert!(single_file_parallel(Method::Deflate, None, Some(large)));
    assert!(!single_file_parallel(Method::Deflate, None, Some(large - 1)));
    assert!(!single_file_parallel(Method::Deflate, None, None));
}

#[test]
fn progress() {
    assert_eq!(progress_message(3, 10, "a/b"), "3/10 files — a/b");
    assert_eq!(progress_message(11, 10, "x"), "11/11 files — x");
    assert_eq!(progress_mode(5, true), ProgressMode::Hidden);
    assert_eq!(progress_mode(5, false), ProgressMode::Gauge);
    assert_eq!(progress_mode(0, false), ProgressMode::Spinner);
    assert_eq!(first_message(ProgressMode::Gauge, 12), "0/12 files");
    assert_eq!(first_message(ProgressMode::Spinner, 0), "scanning…");
    assert_eq!(first_message(ProgressMode::Hidden, 1), "");
}

#[test]
fn arrivals_leave_in_order() {
    let mut r = Reorder::new();
    assert!(r.accept(2, 'c').is_empty());
    assert!(r.accept(1, 'b').is_empty());
    assert_eq!(r.accept(0, 'a'), ['a', 'b', 'c']);
    assert_eq!(r.accept(3, 'd'), ['d']);
}

fn entry(index: u64) -> EncodedEntry {
    EncodedEntry {
        index,
        name: format!("f{}", index),
        body: vec![index as u8; 3],
        uncompressed_size: 3,
        crc32: 0,
        method_on_wire: 0,
        inner_method: 0,
        encrypted: false,
        gp_bit1: false,
        version_needed: 20,
        mtime: (33, 0),
    }
}

fn archive_of(ordered: bool, arrivals: &[u64]) -> (Vec<u8>, Vec<String>) {
    let mut run = ArchiveRun::new(ordered);
    let mut bytes = Vec::new();
    let mut messages = Vec::new();
    for &i in arrivals {
        for w in run.arrived(entry(i), 2).unwrap() {
            bytes.extend_from_slice(&w.header);
            bytes.extend_from_slice(&w.entry.body);
            messages.push(w.message);
        }
    }
    bytes.extend_from_slice(&run.finish().unwrap());
    (bytes, messages)
}

#[test]
fn ordered_archives_do_not_depend_on_arrivals() {
    let (a, messages) = archive_of(true, &[0, 1, 2]);
    assert_eq!(messages, ["1/2 files — f0", "2/2 files — f1", "3/3 files — f2"]);
    assert_eq!(a, archive_of(true, &[2, 0, 1]).0);
    assert_eq!(a, archive_of(false, &[0, 1, 2]).0);
    let (b, messages) = archive_of(false, &[2, 0, 1]);
    assert_ne!(a, b);
    assert_eq!(messages[0], "1/2 files — f2");
}

#[test]
fn file_systems() {
    let named = FsStat::Named {
        fs_type: b"apfs".to_vec(),
        mount_point: b"/Volumes/x".to_vec(),
        iosize: -1,
        bsize: 4096,
    };
    let i = fs_info(&named);
    assert_eq!((i.fs_type.as_str(), i.iosize, i.bsize), ("apfs", 0, 4096));
    assert_eq!(i.mount_point, b"/Volumes/x");
    let i = fs_info(&FsStat::Sized { bsize: 0x1_0000_1000 });
    assert_eq!((i.fs_type.as_str(), i.iosize, i.bsize), ("unknown", 4096, 4096));
    assert_eq!(i.mount_point, b"/");
    let i = fs_info(&FsStat::Unknown);
    assert_eq!((i.fs_type.as_str(), i.iosize, i.bsize), ("unknown", 65_536, 4096));
}

#[test]
fn ways_to_read() {
    let mib = 1024 * 1024;
    assert_eq!(read_mode(mib, false), ReadMode::MemoryMap);
    assert_eq!(read_mode(mib - 1, false), ReadMode::Read { bypass_cache: true });
    assert_eq!(read_mode(0, true), ReadMode::Read { bypass_cache: false });
    let local = LocalFsSource { keep_cache: true };
    assert_eq!(local.mode(&sized(5)), ReadMode::Read { bypass_cache: false });
    assert!(local.reports_fallback());
    let gcd = DispatchIoSource { keep_cache: false };
    assert_eq!(gcd.mode(&sized(5)), ReadMode::Dispatch);
    assert_eq!(gcd.mode(&sized(mib)), ReadMode::MemoryMap);
    assert_eq!(rdadvise_count(7), 7);
    assert_eq!(rdadvise_count(u64::MAX), i32::MAX);
    let mut item = sized(1);
    assert!(!opens_relative(&item, true));
    item.basename = Some(b"f".to_vec());
    assert!(opens_relative(&item, true));
    assert!(!opens_relative(&item, false));
}

#[test]
fn solid_archives() {
    let p = solid_plan(&options_with(|a| a.level = 30));
    assert_eq!((p.preset, p.encrypt_content, p.encrypt_header), (9, false, false));
    let p = solid_plan(&options_with(|a| a.password = Some("pw".to_string())));
    assert_eq!((p.preset, p.encrypt_content, p.encrypt_header), (6, true, true));
    let p = solid_plan(&options_with(|a| a.password = Some(String::new())));
    assert_eq!((p.encrypt_content, p.encrypt_header), (false, true));
    assert_eq!(jobs_note(&options()), None);
    assert_eq!(
        jobs_note(&options_with(|a| a.verbose = true)).as_deref(),
        Some(
            "note: .7z solid is single-threaded (sevenz-rust 0.6 lacks MT-LZMA2); --jobs 10 unused"
        )
    );
}

#[test]
fn dashboards() {
    let mut d = Dashboard::new(2);
    d.worker_started(1, "dir/file".to_string(), 300);
    d.worker_started(7, "nobody".to_string(), 1);
    assert!(d.workers[1].busy && !d.workers[0].busy);
    assert_eq!(d.percent(1000), 0);
    assert_eq!(
        worker_line(&d.workers[1], "   1.5"),
        format!("▶ {:<48}  {:>6.1} MB/s  ({} done)", "dir/file", 1.5, 0)
    );
    d.worker_finished(1);
    d.worker_finished(7);
    assert_eq!((d.done_bytes, d.done_files), (300, 1));
    assert_eq!(d.workers[1].files_done, 1);
    assert_eq!(d.percent(1000), 30);
    assert_eq!(d.percent(100), 100);
    assert_eq!(d.percent(0), 0);
    assert_eq!(
        worker_line(&d.workers[1], "   1.5"),
        format!("· idle{}  {:>6.1} MB/s  ({} done)", " ".repeat(43), 1.5, 1)
    );
}

#[test]
fn labels() {
    assert_eq!(truncate("short", 5), "short");
    assert_eq!(truncate("a longer one", 5), "… one");
    assert_eq!(truncate("äöü", 2), "…ü");
    assert_eq!(truncate("", 0), "");
    assert_eq!(eta_label(Some(17)), "0m17s");
    assert_eq!(eta_label(Some(125)), "2m05s");
    assert_eq!(eta_label(None), "…");
    assert_eq!(
        gauge_label("2.3", "9.1", 38, 143, "412.0", Some(17)),
        "2.3 MB / 9.1 MB  •  38 / 143 files  •  412.0 MB/s  •  ETA 0m17s  •  press q to cancel"
    );
}
