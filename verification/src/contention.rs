//! What else competes for the drives of a run: indexing, and processes that
//! read every file that is opened.

use vstd::prelude::*;
use vstd::string::StringExecFns;
#[allow(unused_imports)]
use vstd::utf8::encode_utf8;

use crate::path::file_name;
#[allow(unused_imports)]
use crate::path::file_name_of;
use crate::text::{
    contains, from_chars, lossy, parse_number, part, push_line, push_text, run_length,
    split_whitespace, to_ascii_lower, to_chars, to_lowercase, trim,
};
#[allow(unused_imports)]
use crate::text::{
    ascii_lowered, is_space, law_trimming, lemma_span, lossy_text, number_of, occurs, span,
    string_views, texts, trimmed, unicode_lower, words,
};

verus! {

/// A process of the process list.
pub struct Process {
    pub pid: u32,
    /// Its share of a processor, as the list writes it.
    pub cpu: String,
    pub command: String,
}

/// The vendors that a process belongs to.
pub struct Vendors {
    pub scanner: Option<&'static str>,
    pub apple: Option<&'static str>,
}

/// What marks the programs of security scanners, and whose they are.
pub open spec fn scanner_signatures() -> Seq<(Seq<char>, Seq<char>)> {
    seq![
        ("sophos"@, "Sophos"@),
        ("falcond"@, "CrowdStrike"@),
        ("com.crowdstrike.falcon"@, "CrowdStrike"@),
        ("mfeatp"@, "McAfee/Trellix"@),
        ("mfeavscan"@, "McAfee/Trellix"@),
        ("mcafeeagent"@, "McAfee/Trellix"@),
        ("symdaemon"@, "Symantec"@),
        ("symcfgd"@, "Symantec"@),
        ("symuiagent"@, "Symantec"@),
        ("esets_daemon"@, "ESET"@),
        ("ec_ss"@, "ESET"@),
        ("rtprotectiondaemon"@, "Malwarebytes"@),
        ("malwarebytes"@, "Malwarebytes"@),
        ("sentineld"@, "SentinelOne"@),
        ("sentinelagent"@, "SentinelOne"@),
        ("com.sentinelone"@, "SentinelOne"@),
        ("cbdefense"@, "Carbon Black"@),
        ("cbdaemon"@, "Carbon Black"@),
        ("repmgr"@, "Carbon Black"@),
        ("icoreservice"@, "Trend Micro"@),
        ("trend micro"@, "Trend Micro"@),
        ("elastic-endpoint"@, "Elastic"@),
        ("bdlaunchd"@, "Bitdefender"@),
        ("bdredline"@, "Bitdefender"@),
    ]
}

/// What marks the commands of the system's own indexers, and what they do.
pub open spec fn apple_signatures() -> Seq<(Seq<char>, Seq<char>)> {
    seq![
        ("mds_stores"@, "Spotlight"@),
        ("mdworker"@, "Spotlight"@),
        ("mds"@, "Spotlight"@),
        ("fseventsd"@, "FSEvents"@),
        ("revisiond"@, "Versions/Snapshots"@),
        ("backuploader"@, "Time Machine"@),
        ("backupd"@, "Time Machine"@),
    ]
}

/// The vendor of the first mark that occurs in a command.
pub open spec fn vendor_in(table: Seq<(Seq<char>, Seq<char>)>, command: Seq<char>) -> Option<
    Seq<char>,
>
    decreases table.len(),
{
    if table.len() == 0 {
        None
    } else if occurs(command, table[0].0) {
        Some(table[0].1)
    } else {
        vendor_in(table.drop_first(), command)
    }
}

pub open spec fn table_view(t: Seq<(&'static str, &'static str)>) -> Seq<(Seq<char>, Seq<char>)> {
    t.map_values(|p: (&'static str, &'static str)| (p.0@, p.1@))
}

fn scanner_table() -> (t: Vec<(&'static str, &'static str)>)
    ensures
        table_view(t@) == scanner_signatures(),
{
    let t: Vec<(&'static str, &'static str)> = vec![
        ("sophos", "Sophos"),
        ("falcond", "CrowdStrike"),
        ("com.crowdstrike.falcon", "CrowdStrike"),
        ("mfeatp", "McAfee/Trellix"),
        ("mfeavscan", "McAfee/Trellix"),
        ("mcafeeagent", "McAfee/Trellix"),
        ("symdaemon", "Symantec"),
        ("symcfgd", "Symantec"),
        ("symuiagent", "Symantec"),
        ("esets_daemon", "ESET"),
        ("ec_ss", "ESET"),
        ("rtprotectiondaemon", "Malwarebytes"),
        ("malwarebytes", "Malwarebytes"),
        ("sentineld", "SentinelOne"),
        ("sentinelagent", "SentinelOne"),
        ("com.sentinelone", "SentinelOne"),
        ("cbdefense", "Carbon Black"),
        ("cbdaemon", "Carbon Black"),
        ("repmgr", "Carbon Black"),
        ("icoreservice", "Trend Micro"),
        ("trend micro", "Trend Micro"),
        ("elastic-endpoint", "Elastic"),
        ("bdlaunchd", "Bitdefender"),
        ("bdredline", "Bitdefender"),
    ];
    assert(table_view(t@) =~= scanner_signatures());
    t
}

fn apple_table() -> (t: Vec<(&'static str, &'static str)>)
    ensures
        table_view(t@) == apple_signatures(),
{
    let t: Vec<(&'static str, &'static str)> = vec![
        ("mds_stores", "Spotlight"),
        ("mdworker", "Spotlight"),
        ("mds", "Spotlight"),
        ("fseventsd", "FSEvents"),
        ("revisiond", "Versions/Snapshots"),
        ("backuploader", "Time Machine"),
        ("backupd", "Time Machine"),
    ];
    assert(table_view(t@) =~= apple_signatures());
    t
}

/// The view of an optional static text.
pub open spec fn opt_text(s: Option<&'static str>) -> Option<Seq<char>> {
    match s {
        Some(t) => Some(t@),
        None => None,
    }
}

fn find_vendor(table: &Vec<(&'static str, &'static str)>, command: &[char]) -> (r: Option<
    &'static str,
>)
    ensures
        opt_text(r) == vendor_in(table_view(table@), command@),
{
    let ghost all = table_view(table@);
    let mut i: usize = 0;
    assert(all.skip(0) =~= all);
    while i < table.len()
        invariant
            i <= table@.len(),
            all == table_view(table@),
            vendor_in(all, command@) == vendor_in(all.skip(i as int), command@),
        decreases table@.len() - i,
    {
        assert(all.skip(i as int)[0] == (table@[i as int].0@, table@[i as int].1@));
        assert(all.skip(i as int).drop_first() =~= all.skip(i + 1));
        let mark = to_chars(table[i].0);
        if contains(command, mark.as_slice()) {
            return Some(table[i].1);
        }
        i = i + 1;
    }
    None
}

/// The name that marks of scanners are looked for in: the last component of
/// the path that the program was started by. Where that path is not known by
/// itself, it is the first word of the command.
pub open spec fn program_of(argv0: Option<&str>, command: Seq<char>) -> Seq<char> {
    match argv0 {
        Some(path) => base_of(path@),
        None => short_name_of(command),
    }
}

/// Whose a process is, by the marks in the name of its program or, for the
/// system's own, in its command, whatever their case.
pub fn classify(argv0: Option<&str>, command: &str) -> (r: Vendors)
    ensures
        opt_text(r.scanner) == vendor_in(
            scanner_signatures(),
            ascii_lowered(program_of(argv0, command@)),
        ),
        opt_text(r.apple) == vendor_in(apple_signatures(), ascii_lowered(command@)),
{
    let program = match argv0 {
        Some(path) => program_name(path),
        None => short_name(command),
    };
    let p = to_chars(program.as_str());
    let lower_program = to_ascii_lower(p.as_slice());
    let t = to_chars(command);
    let lower = to_ascii_lower(t.as_slice());
    let scanners = scanner_table();
    let apple = apple_table();
    Vendors {
        scanner: find_vendor(&scanners, lower_program.as_slice()),
        apple: find_vendor(&apple, lower.as_slice()),
    }
}

/// The path that a line of the list of programs gives, behind the number of
/// the process. It may hold spaces.
pub open spec fn program_in(line: Seq<char>) -> Option<(nat, Seq<char>)> {
    let t = trimmed(line);
    let n = span(t, false) as int;
    let path = trimmed(t.skip(n));
    match number_of(t.take(n), u32::MAX as nat) {
        Some(pid) => if path.len() > 0 {
            Some((pid, path))
        } else {
            None
        },
        None => None,
    }
}

/// The number of a process and the path that its program was started by, from
/// a line that lists these two.
pub fn read_program(line: &str) -> (r: Option<(u32, String)>)
    ensures
        match program_in(line@) {
            Some((pid, path)) => r matches Some((p, s)) && p == pid && s@ == path,
            None => r is None,
        },
{
    let all = to_chars(line);
    let t = trim(all.as_slice());
    assert(t@.skip(0) =~= t@);
    let n: usize = run_length(t.as_slice(), 0, false);
    let first = part(t.as_slice(), 0, n);
    assert(first@ =~= t@.take(n as int));
    let rest = part(t.as_slice(), n, t.len());
    assert(rest@ =~= t@.skip(n as int));
    let path = trim(rest.as_slice());
    match parse_number(first.as_slice(), u32::MAX as u64) {
        None => None,
        Some(pid) => if path.len() > 0 {
            Some((pid as u32, from_chars(path.as_slice())))
        } else {
            None
        },
    }
}

/// Words with single spaces between them.
pub open spec fn spaced(ws: Seq<Seq<char>>) -> Seq<char>
    decreases ws.len(),
{
    if ws.len() == 0 {
        Seq::empty()
    } else if ws.len() == 1 {
        ws[0]
    } else {
        spaced(ws.drop_last()).push(' ') + ws.last()
    }
}

/// Whether a line of the process list names a process: a number, a share and
/// a command.
pub open spec fn names_process(line: Seq<char>) -> bool {
    words(line).len() >= 3 && number_of(words(line)[0], u32::MAX as nat) is Some
}

/// The process that a line of the process list names.
pub fn read_process(line: &str) -> (r: Option<Process>)
    ensures
        r is Some <==> names_process(line@),
        r is Some ==> r->0.pid == number_of(words(line@)[0], u32::MAX as nat)->0 && r->0.cpu@
            == words(line@)[1] && r->0.command@ == spaced(words(line@).skip(2)),
{
    let t = to_chars(line);
    let ws = split_whitespace(t.as_slice());
    let ghost all = texts(ws@);
    assert(all.len() == ws@.len());
    if ws.len() < 3 {
        return None;
    }
    assert(all[0] == ws@[0]@ && all[1] == ws@[1]@);
    let pid: u32 = match parse_number(ws[0].as_slice(), u32::MAX as u64) {
        None => {
            return None;
        },
        Some(n) => n as u32,
    };
    let mut command: Vec<char> = Vec::new();
    let ghost rest = all.skip(2);
    let mut i: usize = 2;
    while i < ws.len()
        invariant
            2 <= i <= ws@.len(),
            all == texts(ws@),
            rest == all.skip(2),
            command@ == spaced(rest.take(i - 2)),
        decreases ws@.len() - i,
    {
        let ghost before = command@;
        assert(rest.take(i - 1).drop_last() =~= rest.take(i - 2));
        assert(rest.take(i - 1).last() == ws@[i as int]@);
        if i > 2 {
            command.push(' ');
        }
        command.extend_from_slice(ws[i].as_slice());
        assert(command@ =~= if i > 2 {
            before.push(' ') + ws@[i as int]@
        } else {
            ws@[i as int]@
        });
        i = i + 1;
    }
    assert(rest.take(rest.len() as int) =~= rest);
    Some(
        Process {
            pid,
            cpu: from_chars(ws[1].as_slice()),
            command: from_chars(command.as_slice()),
        },
    )
}

/// The first word of a command, or all of it.
pub open spec fn argv0(command: Seq<char>) -> Seq<char> {
    if words(command).len() > 0 {
        words(command)[0]
    } else {
        command
    }
}

/// The last component of a path, or all of it.
pub open spec fn base_of(path: Seq<char>) -> Seq<char> {
    match file_name_of(encode_utf8(path)) {
        Some(n) => lossy_text(n),
        None => path,
    }
}

/// The last component of the path of a program.
fn program_name(path: &str) -> (r: String)
    ensures
        r@ == base_of(path@),
{
    match file_name(path.as_bytes()) {
        Some(n) => lossy(n.as_slice()),
        None => path.to_owned(),
    }
}

/// The name of the program that a command runs.
pub open spec fn short_name_of(command: Seq<char>) -> Seq<char> {
    base_of(argv0(command))
}

/// The name of the program that a command runs, without its directory.
pub fn short_name(command: &str) -> (r: String)
    ensures
        r@ == short_name_of(command@),
{
    let t = to_chars(command);
    let ws = split_whitespace(t.as_slice());
    assert(texts(ws@).len() == ws@.len());
    let first = if ws.len() > 0 {
        assert(texts(ws@)[0] == ws@[0]@);
        from_chars(ws[0].as_slice())
    } else {
        command.to_owned()
    };
    program_name(first.as_str())
}

/// Whether the output of `mdutil -s` says that indexing is on.
pub fn indexing_enabled(output: &[u8]) -> (r: bool)
    ensures
        r == occurs(unicode_lower(lossy_text(output@)), "indexing enabled"@),
{
    let text = lossy(output);
    let lower = to_lowercase(text.as_str());
    let t = to_chars(lower.as_str());
    let mark = to_chars("indexing enabled");
    contains(t.as_slice(), mark.as_slice())
}

/// The warning about indexing on a mount point.
pub open spec fn mount_lines(m: Seq<u8>) -> Seq<Seq<char>> {
    let name = lossy_text(m);
    seq![
        "warning: Spotlight indexing is ENABLED on "@ + name,
        "  → to disable:  sudo mdutil -i off "@ + name,
        "  → to also drop the existing index:  sudo mdutil -E "@ + name,
    ]
}

pub open spec fn all_mount_lines(ms: Seq<Vec<u8>>) -> Seq<Seq<char>>
    decreases ms.len(),
{
    if ms.len() == 0 {
        Seq::empty()
    } else {
        all_mount_lines(ms.drop_last()) + mount_lines(ms.last()@)
    }
}

/// A line for each vendor, with the share of a processor that its processes
/// take together.
pub open spec fn load_lines(loads: Seq<(String, String)>, behind: Seq<char>) -> Seq<Seq<char>> {
    loads.map_values(|l: (String, String)| "  → "@ + l.0@ + " ("@ + l.1@ + behind)
}

/// The warning about security scanners.
pub open spec fn scanner_lines(loads: Seq<(String, String)>) -> Seq<Seq<char>> {
    if loads.len() == 0 {
        Seq::empty()
    } else {
        seq!["warning: on-access AV scanner(s) actively consuming CPU:"@] + load_lines(
            loads,
            "% cumulative CPU across matched processes)"@,
        ) + seq![
            "  → AV scanners intercept every open() and synchronously scan the file;"@,
            "    expect 3-10× per-file overhead. Ask IT to exclude your source drive(s)"@,
            "    from on-access scanning, or temporarily pause the agent for the run."@,
        ]
    }
}

/// The note on the system's own indexers.
pub open spec fn indexer_lines(loads: Seq<(String, String)>) -> Seq<Seq<char>> {
    if loads.len() == 0 {
        Seq::empty()
    } else {
        seq!["note: Apple indexer(s) also active:"@] + load_lines(loads, "% cumulative CPU)"@)
    }
}

/// All warnings; none where there is nothing to warn about.
pub open spec fn all_warnings(
    mounts: Seq<Vec<u8>>,
    scanners: Seq<(String, String)>,
    apple: Seq<(String, String)>,
) -> Seq<Seq<char>> {
    if mounts.len() == 0 && scanners.len() == 0 && apple.len() == 0 {
        Seq::empty()
    } else {
        seq![""@, "=== contention check ==="@] + all_mount_lines(mounts) + scanner_lines(scanners)
            + indexer_lines(apple) + seq!["=== end contention check ==="@, ""@]
    }
}

fn push_mount(out: &mut Vec<String>, m: &[u8])
    ensures
        string_views(final(out)@) == string_views(old(out)@) + mount_lines(m@),
{
    let ghost before = string_views(out@);
    let name = lossy(m);
    push_line(out, "warning: Spotlight indexing is ENABLED on ", name.as_str());
    push_line(out, "  → to disable:  sudo mdutil -i off ", name.as_str());
    push_line(out, "  → to also drop the existing index:  sudo mdutil -E ", name.as_str());
    assert(string_views(out@) =~= before + mount_lines(m@));
}

fn push_loads(out: &mut Vec<String>, loads: &Vec<(String, String)>, behind: &str)
    ensures
        string_views(final(out)@) == string_views(old(out)@) + load_lines(loads@, behind@),
{
    let ghost before = string_views(out@);
    let ghost lines = load_lines(loads@, behind@);
    let mut i: usize = 0;
    assert(before + lines.take(0) =~= before);
    while i < loads.len()
        invariant
            i <= loads@.len(),
            lines == load_lines(loads@, behind@),
            string_views(out@) == before + lines.take(i as int),
        decreases loads@.len() - i,
    {
        let mut front = "  → ".to_owned();
        front.append(loads[i].0.as_str());
        front.append(" (");
        front.append(loads[i].1.as_str());
        push_line(out, front.as_str(), behind);
        assert(lines[i as int] == front@ + behind@);
        assert(string_views(out@) =~= before + lines.take(i + 1));
        i = i + 1;
    }
    assert(lines.take(lines.len() as int) =~= lines);
}

/// The warnings about what competes for the drives, as lines of text. The
/// loads are pairs of a vendor and its share of a processor in per cent.
pub fn warning_lines(
    mounts: &Vec<Vec<u8>>,
    scanners: &Vec<(String, String)>,
    apple: &Vec<(String, String)>,
) -> (out: Vec<String>)
    ensures
        string_views(out@) == all_warnings(mounts@, scanners@, apple@),
{
    let mut out: Vec<String> = Vec::new();
    assert(string_views(out@) =~= Seq::<Seq<char>>::empty());
    if mounts.len() == 0 && scanners.len() == 0 && apple.len() == 0 {
        return out;
    }
    push_text(&mut out, "");
    push_text(&mut out, "=== contention check ===");
    let ghost head = seq![""@, "=== contention check ==="@];
    assert(string_views(out@) =~= head);
    let mut i: usize = 0;
    assert(head + all_mount_lines(mounts@.take(0)) =~= head);
    while i < mounts.len()
        invariant
            i <= mounts@.len(),
            string_views(out@) == head + all_mount_lines(mounts@.take(i as int)),
        decreases mounts@.len() - i,
    {
        assert(mounts@.take(i + 1).drop_last() =~= mounts@.take(i as int));
        push_mount(&mut out, mounts[i].as_slice());
        assert(string_views(out@) =~= head + all_mount_lines(mounts@.take(i + 1)));
        i = i + 1;
    }
    assert(mounts@.take(mounts@.len() as int) =~= mounts@);
    let ghost first = string_views(out@);
    if scanners.len() > 0 {
        push_text(&mut out, "warning: on-access AV scanner(s) actively consuming CPU:");
        push_loads(&mut out, scanners, "% cumulative CPU across matched processes)");
        push_text(
            &mut out,
            "  → AV scanners intercept every open() and synchronously scan the file;",
        );
        push_text(
            &mut out,
            "    expect 3-10× per-file overhead. Ask IT to exclude your source drive(s)",
        );
        push_text(
            &mut out,
            "    from on-access scanning, or temporarily pause the agent for the run.",
        );
    }
    assert(string_views(out@) =~= first + scanner_lines(scanners@));
    let ghost second = string_views(out@);
    if apple.len() > 0 {
        push_text(&mut out, "note: Apple indexer(s) also active:");
        push_loads(&mut out, apple, "% cumulative CPU)");
    }
    assert(string_views(out@) =~= second + indexer_lines(apple@));
    push_text(&mut out, "=== end contention check ===");
    push_text(&mut out, "");
    assert(string_views(out@) =~= all_warnings(mounts@, scanners@, apple@));
    out
}

/// The marks of scanners that check files on access, and whose they are.
pub proof fn law_scanner_marks()
    ensures
        scanner_signatures().len() == 24,
        scanner_signatures()[0] == ("sophos"@, "Sophos"@),
        scanner_signatures()[1] == ("falcond"@, "CrowdStrike"@),
        scanner_signatures()[2] == ("com.crowdstrike.falcon"@, "CrowdStrike"@),
        scanner_signatures()[3] == ("mfeatp"@, "McAfee/Trellix"@),
        scanner_signatures()[4] == ("mfeavscan"@, "McAfee/Trellix"@),
        scanner_signatures()[5] == ("mcafeeagent"@, "McAfee/Trellix"@),
        scanner_signatures()[6] == ("symdaemon"@, "Symantec"@),
        scanner_signatures()[7] == ("symcfgd"@, "Symantec"@),
        scanner_signatures()[8] == ("symuiagent"@, "Symantec"@),
        scanner_signatures()[9] == ("esets_daemon"@, "ESET"@),
        scanner_signatures()[10] == ("ec_ss"@, "ESET"@),
        scanner_signatures()[11] == ("rtprotectiondaemon"@, "Malwarebytes"@),
        scanner_signatures()[12] == ("malwarebytes"@, "Malwarebytes"@),
        scanner_signatures()[13] == ("sentineld"@, "SentinelOne"@),
        scanner_signatures()[14] == ("sentinelagent"@, "SentinelOne"@),
        scanner_signatures()[15] == ("com.sentinelone"@, "SentinelOne"@),
        scanner_signatures()[16] == ("cbdefense"@, "Carbon Black"@),
        scanner_signatures()[17] == ("cbdaemon"@, "Carbon Black"@),
        scanner_signatures()[18] == ("repmgr"@, "Carbon Black"@),
        scanner_signatures()[19] == ("icoreservice"@, "Trend Micro"@),
        scanner_signatures()[20] == ("trend micro"@, "Trend Micro"@),
        scanner_signatures()[21] == ("elastic-endpoint"@, "Elastic"@),
        scanner_signatures()[22] == ("bdlaunchd"@, "Bitdefender"@),
        scanner_signatures()[23] == ("bdredline"@, "Bitdefender"@),
{
}

/// The marks of the services of the system that look at files.
pub proof fn law_service_marks()
    ensures
        apple_signatures().len() == 7,
        apple_signatures()[0] == ("mds_stores"@, "Spotlight"@),
        apple_signatures()[1] == ("mdworker"@, "Spotlight"@),
        apple_signatures()[2] == ("mds"@, "Spotlight"@),
        apple_signatures()[3] == ("fseventsd"@, "FSEvents"@),
        apple_signatures()[4] == ("revisiond"@, "Versions/Snapshots"@),
        apple_signatures()[5] == ("backuploader"@, "Time Machine"@),
        apple_signatures()[6] == ("backupd"@, "Time Machine"@),
{
}

/// The vendor is that of the first mark in the table that occurs in the
/// command, which is the one at `i`; where none occurs there is no vendor.
pub proof fn law_first_mark_decides(
    table: Seq<(Seq<char>, Seq<char>)>,
    command: Seq<char>,
    i: int,
)
    ensures
        0 <= i < table.len() && occurs(command, table[i].0) && (forall|j: int|
            0 <= j < i ==> !occurs(command, (#[trigger] table[j]).0)) ==> vendor_in(table, command)
            == Some(table[i].1),
        (forall|j: int| 0 <= j < table.len() ==> !occurs(command, (#[trigger] table[j]).0))
            ==> vendor_in(table, command) is None,
    decreases table.len(),
{
    if table.len() > 0 {
        let rest = table.drop_first();
        law_first_mark_decides(rest, command, i - 1);
        assert forall|j: int| 0 <= j < rest.len() implies #[trigger] rest[j] == table[j + 1] by {}
        if 0 < i < table.len() && occurs(command, table[i].0) && (forall|j: int|
            0 <= j < i ==> !occurs(command, (#[trigger] table[j]).0)) {
            assert(rest[i - 1] == table[i]);
            assert(!occurs(command, table[0].0));
            assert forall|j: int| 0 <= j < i - 1 implies !occurs(
                command,
                (#[trigger] rest[j]).0,
            ) by {
                assert(rest[j] == table[j + 1]);
            }
        }
        if forall|j: int| 0 <= j < table.len() ==> !occurs(command, (#[trigger] table[j]).0) {
            assert(!occurs(command, table[0].0));
            assert forall|j: int| 0 <= j < rest.len() implies !occurs(
                command,
                (#[trigger] rest[j]).0,
            ) by {
                assert(rest[j] == table[j + 1]);
            }
        }
    }
}

/// The program of a process is the file name of its path where the path is
/// known, and that of the first word of its command otherwise.
pub proof fn law_program_is_a_file_name(argv0: Option<&str>, command: Seq<char>)
    ensures
        argv0 matches Some(path) ==> program_of(argv0, command) == base_of(path@),
        argv0 is None && words(command).len() > 0 ==> program_of(argv0, command) == base_of(
            words(command)[0],
        ),
        argv0 is None && words(command).len() == 0 ==> program_of(argv0, command) == base_of(
            command,
        ),
        short_name_of(command) == program_of(None, command),
        file_name_of(encode_utf8(command)) matches Some(n) ==> base_of(command) == lossy_text(n),
        file_name_of(encode_utf8(command)) is None ==> base_of(command) == command,
{
}

/// A line of a listing of programs: a number, white space and a path, which
/// may itself hold white space.
pub proof fn law_program_lines(
    before: Seq<char>,
    word: Seq<char>,
    between: Seq<char>,
    path: Seq<char>,
    behind: Seq<char>,
)
    requires
        forall|i: int| 0 <= i < before.len() ==> is_space(#[trigger] before[i]),
        forall|i: int| 0 <= i < word.len() ==> !is_space(#[trigger] word[i]),
        forall|i: int| 0 <= i < between.len() ==> is_space(#[trigger] between[i]),
        forall|i: int| 0 <= i < behind.len() ==> is_space(#[trigger] behind[i]),
        word.len() > 0,
        path.len() > 0 ==> between.len() > 0 && !is_space(path[0]) && !is_space(
            path[path.len() - 1],
        ),
        path.len() == 0 ==> between.len() == 0,
    ensures
        ({
            let line = before + word + between + path + behind;
            &&& path.len() == 0 ==> program_in(line) is None
            &&& number_of(word, u32::MAX as nat) is None ==> program_in(line) is None
            &&& path.len() > 0 ==> (number_of(word, u32::MAX as nat) matches Some(n) ==> program_in(
                line,
            ) == Some((n, path)))
        }),
{
    let line = before + word + between + path + behind;
    let middle = word + between + path;
    assert(line =~= before + middle + behind);
    assert(!is_space(word[0]) && !is_space(word[word.len() - 1]));
    assert(middle[0] == word[0]);
    if path.len() == 0 {
        assert(middle =~= word);
    } else {
        assert(middle[middle.len() - 1] == path[path.len() - 1]);
    }
    law_trimming(before, middle, behind);
    assert forall|i: int| 0 <= i < word.len() implies is_space(#[trigger] middle[i]) == false by {
        assert(middle[i] == word[i]);
    }
    if path.len() > 0 {
        assert(middle[word.len() as int] == between[0]);
        assert(is_space(between[0]));
    }
    lemma_span(middle, false, word.len());
    assert(middle.take(word.len() as int) =~= word);
    assert(middle.skip(word.len() as int) =~= between + path + Seq::<char>::empty());
    law_trimming(between, path, Seq::empty());
}

/// A command is its words with single spaces between them.
pub proof fn law_commands_are_spaced(ws: Seq<Seq<char>>, w: Seq<char>)
    ensures
        spaced(Seq::empty()).len() == 0,
        spaced(seq![w]) == w,
        ws.len() > 0 ==> spaced(ws.push(w)) == spaced(ws) + seq![' '] + w,
{
    assert(ws.push(w).drop_last() =~= ws);
    assert(spaced(ws).push(' ') + w =~= spaced(ws) + seq![' '] + w);
}

/// A line tells of a process where it has at least three words, the first of
/// which is a number of 32 bits.
pub proof fn law_process_lines(line: Seq<char>)
    ensures
        names_process(line) <==> words(line).len() > 2 && number_of(words(line)[0], 0xFFFF_FFFF)
            is Some,
{
}

/// The warnings: those on each mount point, three lines each and in order, then
/// those on scanners and then those on the services of the system, between a
/// headline and an end line; nothing at all where there is nothing to warn of.
pub proof fn law_warnings_in_order(
    mounts: Seq<Vec<u8>>,
    scanners: Seq<(String, String)>,
    apple: Seq<(String, String)>,
)
    ensures
        ({
            let w = all_warnings(mounts, scanners, apple);
            let none = mounts.len() == 0 && scanners.len() == 0 && apple.len() == 0;
            let s = 2 + 3 * mounts.len() as int;
            let a = if scanners.len() > 0 {
                s + 4 + scanners.len()
            } else {
                s
            };
            let e = if apple.len() > 0 {
                a + 1 + apple.len()
            } else {
                a
            };
            &&& none ==> w.len() == 0
            &&& !none ==> {
                &&& w.len() == e + 2
                &&& w[0] == ""@ && w[1] == "=== contention check ==="@
                &&& forall|i: int|
                    0 <= i < mounts.len() ==> {
                        let name = lossy_text((#[trigger] mounts[i])@);
                        &&& w[2 + 3 * i] == "warning: Spotlight indexing is ENABLED on "@ + name
                        &&& w[3 + 3 * i] == "  → to disable:  sudo mdutil -i off "@ + name
                        &&& w[4 + 3 * i]
                            == "  → to also drop the existing index:  sudo mdutil -E "@ + name
                    }
                &&& scanners.len() > 0 ==> w[s]
                    == "warning: on-access AV scanner(s) actively consuming CPU:"@
                &&& forall|i: int|
                    0 <= i < scanners.len() ==> w[s + 1 + i] == "  → "@ + (#[trigger] scanners[i]).0@
                        + " ("@ + scanners[i].1@ + "% cumulative CPU across matched processes)"@
                &&& scanners.len() > 0 ==> w[a - 3]
                    == "  → AV scanners intercept every open() and synchronously scan the file;"@
                    && w[a - 2]
                    == "    expect 3-10× per-file overhead. Ask IT to exclude your source drive(s)"@
                    && w[a - 1]
                    == "    from on-access scanning, or temporarily pause the agent for the run."@
                &&& apple.len() > 0 ==> w[a] == "note: Apple indexer(s) also active:"@
                &&& forall|i: int|
                    0 <= i < apple.len() ==> w[a + 1 + i] == "  → "@ + (#[trigger] apple[i]).0@
                        + " ("@ + apple[i].1@ + "% cumulative CPU)"@
                &&& w[e] == "=== end contention check ==="@ && w[e + 1] == ""@
            }
        }),
{
    lemma_mount_lines(mounts);
}

proof fn lemma_mount_lines(ms: Seq<Vec<u8>>)
    ensures
        all_mount_lines(ms).len() == 3 * ms.len(),
        forall|i: int|
            0 <= i < ms.len() ==> {
                let lines = mount_lines((#[trigger] ms[i])@);
                &&& all_mount_lines(ms)[3 * i] == lines[0]
                &&& all_mount_lines(ms)[3 * i + 1] == lines[1]
                &&& all_mount_lines(ms)[3 * i + 2] == lines[2]
            },
    decreases ms.len(),
{
    if ms.len() > 0 {
        let d = ms.drop_last();
        lemma_mount_lines(d);
        assert forall|i: int| 0 <= i < ms.len() implies {
            let lines = mount_lines((#[trigger] ms[i])@);
            &&& all_mount_lines(ms)[3 * i] == lines[0]
            &&& all_mount_lines(ms)[3 * i + 1] == lines[1]
            &&& all_mount_lines(ms)[3 * i + 2] == lines[2]
        } by {
            if i < d.len() {
                assert(d[i] == ms[i]);
            }
        }
    }
}

/// What is told of a vendor.
pub proof fn law_vendor_view(v: &'static str)
    ensures
        opt_text(Some(v)) == Some(v@),
        opt_text(None) is None,
{
}

} // verus!
