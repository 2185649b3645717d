//! A diagnosis of the drives that a run touches, from what the system's tools
//! tell about them.

use vstd::prelude::*;
use vstd::string::StringExecFns;
#[allow(unused_imports)]
use vstd::utf8::encode_utf8;

use crate::path::{copy_bytes, same_path};
#[allow(unused_imports)]
use crate::path::components_of;
use crate::text::{
    add_number, concat, contains, distance, eq_ignore_ascii_case, find_after, from_chars,
    leading_digits, lines, lossy, parse_number, part, push_line, push_text, same_chars,
    strip_prefix, to_chars, to_lowercase, trim,
};
#[allow(unused_imports)]
use crate::text::{
    after_first, after_prefix, ascii_lowered, decimal, digit_run, first_of, is_space,
    law_behind_a_prefix, law_behind_the_first_place, law_digit_run, law_trimming, lemma_first_of,
    lines_of, lossy_text, number_of, occurs, occurs_at, string_views, texts, trimmed,
    unicode_lower,
};

verus! {

/// What is known of the drive behind a path.
pub struct SourceReport {
    pub path: Vec<u8>,
    pub mount_point: Vec<u8>,
    pub bsd_device: String,
    pub fs_type: String,
    pub bus_protocol: Option<String>,
    pub media_name: Option<String>,
    pub usb: Option<UsbLinkInfo>,
}

/// A USB device and the speed of its link.
pub struct UsbLinkInfo {
    pub vendor: String,
    pub product: String,
    pub link_speed_bps: u64,
}

/// What `diskutil info` tells about a device, as far as it is of interest.
pub struct DiskFields {
    pub bus_protocol: Option<String>,
    pub media_name: Option<String>,
    /// Name of the disk that the device is a part of.
    pub part_of_whole: Option<String>,
}

/// The view of an optional text.
pub open spec fn opt(s: Option<String>) -> Option<Seq<char>> {
    match s {
        Some(t) => Some(t@),
        None => None,
    }
}

/// How a link speed is described.
pub open spec fn speed_text(bps: u64) -> Seq<char> {
    if bps == 0 {
        "unknown"@
    } else if bps >= 20_000_000_000 {
        "USB 3.2 Gen 2x2 (~"@ + decimal(bps as nat / 1_000_000_000) + " Gbps)"@
    } else if bps >= 10_000_000_000 {
        "USB 3.1 SuperSpeed+ (~"@ + decimal(bps as nat / 1_000_000_000) + " Gbps)"@
    } else if bps >= 5_000_000_000 {
        "USB 3.0 SuperSpeed (~"@ + decimal(bps as nat / 1_000_000_000) + " Gbps)"@
    } else if bps == 480_000_000 {
        "USB 2.0 High Speed (480 Mbps)"@
    } else if bps == 12_000_000 {
        "USB 1.1 Full Speed (12 Mbps)"@
    } else if bps == 1_500_000 {
        "USB 1.0 Low Speed (1.5 Mbps)"@
    } else {
        decimal(bps as nat) + " bps (unknown class)"@
    }
}

impl UsbLinkInfo {
    pub fn speed_label(&self) -> (r: String)
        ensures
            r@ == speed_text(self.link_speed_bps),
    {
        let n: u64 = self.link_speed_bps;
        if n == 0 {
            "unknown".to_owned()
        } else if n >= 20_000_000_000 {
            in_gbps("USB 3.2 Gen 2x2 (~", n)
        } else if n >= 10_000_000_000 {
            in_gbps("USB 3.1 SuperSpeed+ (~", n)
        } else if n >= 5_000_000_000 {
            in_gbps("USB 3.0 SuperSpeed (~", n)
        } else if n == 480_000_000 {
            "USB 2.0 High Speed (480 Mbps)".to_owned()
        } else if n == 12_000_000 {
            "USB 1.1 Full Speed (12 Mbps)".to_owned()
        } else if n == 1_500_000 {
            "USB 1.0 Low Speed (1.5 Mbps)".to_owned()
        } else {
            let mut s = crate::text::decimal_text(n);
            s.append(" bps (unknown class)");
            s
        }
    }
}

fn in_gbps(class: &str, bps: u64) -> (r: String)
    ensures
        r@ == class@ + decimal(bps as nat / 1_000_000_000) + " Gbps)"@,
{
    let mut s = class.to_owned();
    add_number(&mut s, bps / 1_000_000_000);
    s.append(" Gbps)");
    s
}

/// Whether a drive is attached by USB.
pub open spec fn on_usb(r: SourceReport) -> bool {
    opt(r.bus_protocol) == Some("USB"@)
}

pub open spec fn is_apfs(r: SourceReport) -> bool {
    ascii_lowered(r.fs_type@) == ascii_lowered("apfs"@)
}

/// The advice on APFS over USB.
pub open spec fn apfs_advice() -> Seq<char> {
    "APFS on USB is known-slow (many small metadata syscalls over USB-MSC). Consider `--keep-cache --read-jobs 1 --dispatch-io`, or reformat to exfat."@
}

/// The advice on a slow link.
pub open spec fn link_advice(bps: u64) -> Seq<char> {
    "USB link is "@ + speed_text(bps)
        + " — cap ~30 MB/s regardless of drive speed. Check the cable, port, and hub."@
}

/// The advice on many readers.
pub open spec fn readers_advice(read_jobs: usize) -> Seq<char> {
    "--read-jobs "@ + decimal(read_jobs as nat)
        + " is high for a USB source; concurrent readers can seek-storm."@
}

/// The advice on the page cache.
pub open spec fn cache_advice() -> Seq<char> {
    "F_NOCACHE is on (default). On APFS-USB it kills readahead — pass --keep-cache."@
}

/// `line` alone where `cond` holds.
pub open spec fn only_if(cond: bool, line: Seq<char>) -> Seq<Seq<char>> {
    if cond {
        seq![line]
    } else {
        Seq::empty()
    }
}

/// What to advise about a drive. All of it is about drives on USB.
pub open spec fn advice(r: SourceReport, read_jobs: usize, keep_cache: bool) -> Seq<Seq<char>> {
    let usb = on_usb(r);
    only_if(usb && is_apfs(r), apfs_advice()) + only_if(
        usb && r.usb is Some && r.usb->0.link_speed_bps <= 480_000_000,
        link_advice(r.usb->0.link_speed_bps),
    ) + only_if(usb && read_jobs > 2, readers_advice(read_jobs)) + only_if(
        usb && !keep_cache && is_apfs(r),
        cache_advice(),
    )
}

fn is_text(s: &Option<String>, t: &str) -> (r: bool)
    ensures
        r == (opt(*s) == Some(t@)),
{
    match s {
        Some(x) => *x == t.to_owned(),
        None => false,
    }
}

/// Whether a drive is attached by USB.
pub fn uses_usb(r: &SourceReport) -> (b: bool)
    ensures
        b == on_usb(*r),
{
    is_text(&r.bus_protocol, "USB")
}

proof fn lemma_pushed(before: Seq<String>, line: String)
    ensures
        string_views(before.push(line)) == string_views(before) + seq![line@],
{
    assert(string_views(before.push(line)) =~= string_views(before) + seq![line@]);
}

/// What to advise about a drive.
pub fn advise(r: &SourceReport, read_jobs: usize, keep_cache: bool) -> (out: Vec<String>)
    ensures
        string_views(out@) == advice(*r, read_jobs, keep_cache),
{
    let mut out: Vec<String> = Vec::new();
    let usb = uses_usb(r);
    let apfs = eq_ignore_ascii_case(r.fs_type.as_str(), "apfs");
    assert(string_views(out@) =~= Seq::<Seq<char>>::empty());
    if usb && apfs {
        let line =
            "APFS on USB is known-slow (many small metadata syscalls over USB-MSC). Consider `--keep-cache --read-jobs 1 --dispatch-io`, or reformat to exfat.".to_owned();
        proof {
            lemma_pushed(out@, line);
        }
        out.push(line);
    }
    assert(string_views(out@) =~= only_if(usb && apfs, apfs_advice()));
    let ghost first = string_views(out@);
    if usb {
        if let Some(u) = &r.usb {
            if u.link_speed_bps <= 480_000_000 {
                let mut line = "USB link is ".to_owned();
                let label = u.speed_label();
                line.append(label.as_str());
                line.append(
                    " — cap ~30 MB/s regardless of drive speed. Check the cable, port, and hub.",
                );
                proof {
                    lemma_pushed(out@, line);
                }
                out.push(line);
            }
        }
    }
    let ghost slow = usb && r.usb is Some && r.usb->0.link_speed_bps <= 480_000_000;
    assert(string_views(out@) =~= first + only_if(slow, link_advice(r.usb->0.link_speed_bps)));
    let ghost second = string_views(out@);
    if usb && read_jobs > 2 {
        let mut line = "--read-jobs ".to_owned();
        add_number(&mut line, read_jobs as u64);
        line.append(" is high for a USB source; concurrent readers can seek-storm.");
        proof {
            lemma_pushed(out@, line);
        }
        out.push(line);
    }
    assert(string_views(out@) =~= second + only_if(
        usb && read_jobs > 2,
        readers_advice(read_jobs),
    ));
    let ghost third = string_views(out@);
    if usb && !keep_cache && apfs {
        let line =
            "F_NOCACHE is on (default). On APFS-USB it kills readahead — pass --keep-cache.".to_owned();
        proof {
            lemma_pushed(out@, line);
        }
        out.push(line);
    }
    assert(string_views(out@) =~= third + only_if(usb && !keep_cache && apfs, cache_advice()));
    out
}

/// The fields of interest as plain values.
pub struct Fields {
    pub bus_protocol: Option<Seq<char>>,
    pub media_name: Option<Seq<char>>,
    pub part_of_whole: Option<Seq<char>>,
}

impl View for DiskFields {
    type V = Fields;

    open spec fn view(&self) -> Fields {
        Fields {
            bus_protocol: opt(self.bus_protocol),
            media_name: opt(self.media_name),
            part_of_whole: opt(self.part_of_whole),
        }
    }
}

pub open spec fn no_fields() -> Fields {
    Fields { bus_protocol: None, media_name: None, part_of_whole: None }
}

/// What stands behind a label at the front of a line.
pub open spec fn labelled(line: Seq<char>, label: Seq<char>) -> Option<Seq<char>> {
    match after_prefix(trimmed(line), label) {
        Some(v) => Some(trimmed(v)),
        None => None,
    }
}

/// The fields after one more line. Bus and media each have two labels: under
/// the full one a value always counts, under the short one only where there is
/// none yet.
pub open spec fn with_line(f: Fields, line: Seq<char>) -> Fields {
    if labelled(line, "Bus Protocol:"@) is Some {
        Fields { bus_protocol: labelled(line, "Bus Protocol:"@), ..f }
    } else if labelled(line, "Protocol:"@) is Some {
        if f.bus_protocol is None {
            Fields { bus_protocol: labelled(line, "Protocol:"@), ..f }
        } else {
            f
        }
    } else if labelled(line, "Device / Media Name:"@) is Some {
        Fields { media_name: labelled(line, "Device / Media Name:"@), ..f }
    } else if labelled(line, "Media Name:"@) is Some {
        if f.media_name is None {
            Fields { media_name: labelled(line, "Media Name:"@), ..f }
        } else {
            f
        }
    } else if labelled(line, "Part of Whole:"@) is Some {
        Fields { part_of_whole: labelled(line, "Part of Whole:"@), ..f }
    } else {
        f
    }
}

/// The fields of a list of lines.
pub open spec fn fields_of(ls: Seq<Seq<char>>) -> Fields
    decreases ls.len(),
{
    if ls.len() == 0 {
        no_fields()
    } else {
        with_line(fields_of(ls.drop_last()), ls.last())
    }
}

fn value_of(line: &[char], label: &str) -> (r: Option<String>)
    ensures
        opt(r) == labelled(line@, label@),
{
    let t = trim(line);
    let l = to_chars(label);
    match strip_prefix(t.as_slice(), l.as_slice()) {
        None => None,
        Some(v) => {
            let w = trim(v.as_slice());
            Some(from_chars(w.as_slice()))
        },
    }
}

/// The fields of interest in the output of `diskutil info`; none where the
/// tool failed.
pub fn diskutil_info_raw(output: Option<&str>) -> (r: DiskFields)
    ensures
        match output {
            Some(text) => r@ == fields_of(lines_of(text@)),
            None => r@ == no_fields(),
        },
{
    let mut f = DiskFields { bus_protocol: None, media_name: None, part_of_whole: None };
    let text = match output {
        None => {
            return f;
        },
        Some(t) => t,
    };
    let t = to_chars(text);
    let ls = lines(t.as_slice());
    let ghost all = texts(ls@);
    let mut i: usize = 0;
    while i < ls.len()
        invariant
            i <= ls@.len(),
            all == texts(ls@),
            f@ == fields_of(all.take(i as int)),
        decreases ls@.len() - i,
    {
        let line = ls[i].as_slice();
        assert(all.take(i + 1).drop_last() =~= all.take(i as int));
        assert(all.take(i + 1).last() == line@);
        let bus = value_of(line, "Bus Protocol:");
        let short_bus = value_of(line, "Protocol:");
        let name = value_of(line, "Device / Media Name:");
        let short_name = value_of(line, "Media Name:");
        let whole = value_of(line, "Part of Whole:");
        if bus.is_some() {
            f.bus_protocol = bus;
        } else if short_bus.is_some() {
            if f.bus_protocol.is_none() {
                f.bus_protocol = short_bus;
            }
        } else if name.is_some() {
            f.media_name = name;
        } else if short_name.is_some() {
            if f.media_name.is_none() {
                f.media_name = short_name;
            }
        } else if whole.is_some() {
            f.part_of_whole = whole;
        }
        i = i + 1;
    }
    assert(all.take(all.len() as int) =~= all);
    f
}

/// `t` without any number of `prefix` in front.
pub open spec fn without_prefixes(t: Seq<char>, prefix: Seq<char>) -> Seq<char>
    decreases t.len(),
{
    if prefix.len() > 0 && occurs_at(t, prefix, 0) {
        without_prefixes(t.skip(prefix.len() as int), prefix)
    } else {
        t
    }
}

/// The disk to ask where a device that is a part of it has no media name.
pub open spec fn whole_disk(f: Fields, device: Seq<char>) -> Option<Seq<char>> {
    if f.media_name is None && f.part_of_whole is Some && f.part_of_whole->0.len() > 0
        && f.part_of_whole->0 != without_prefixes(device, "/dev/"@) {
        Some("/dev/"@ + f.part_of_whole->0)
    } else {
        None
    }
}

/// Bus and media name of a device, with what the whole disk has where it was
/// asked and answered.
pub open spec fn disk_info(f: Fields, device: Seq<char>, whole: Option<Fields>) -> (
    Option<Seq<char>>,
    Option<Seq<char>>,
) {
    if whole_disk(f, device) is Some && whole is Some {
        (
            if f.bus_protocol is Some {
                f.bus_protocol
            } else {
                whole->0.bus_protocol
            },
            whole->0.media_name,
        )
    } else {
        (f.bus_protocol, f.media_name)
    }
}

/// The device of the whole disk, where it is to be asked as well.
pub fn whole_disk_query(f: &DiskFields, device: &str) -> (r: Option<String>)
    ensures
        opt(r) == whole_disk(f@, device@),
{
    if f.media_name.is_some() {
        return None;
    }
    match &f.part_of_whole {
        None => None,
        Some(whole) => {
            if whole.as_str().is_empty() {
                return None;
            }
            let p = to_chars("/dev/");
            proof {
                reveal_strlit("/dev/");
            }
            let mut t = to_chars(device);
            loop
                invariant
                    p@ == "/dev/"@,
                    p@.len() == 5,
                    without_prefixes(t@, p@) == without_prefixes(device@, p@),
                ensures
                    t@ == without_prefixes(device@, p@),
                decreases t@.len(),
            {
                match strip_prefix(t.as_slice(), p.as_slice()) {
                    Some(rest) => {
                        t = rest;
                    },
                    None => {
                        break;
                    },
                }
            }
            let w = to_chars(whole.as_str());
            if same_chars(w.as_slice(), t.as_slice()) {
                None
            } else {
                Some(concat("/dev/", whole.as_str()))
            }
        },
    }
}

/// Bus and media name of a device.
pub fn diskutil_info(f: DiskFields, device: &str, whole: Option<DiskFields>) -> (r: (
    Option<String>,
    Option<String>,
))
    ensures
        (opt(r.0), opt(r.1)) == disk_info(
            f@,
            device@,
            match whole {
                Some(w) => Some(w@),
                None => None,
            },
        ),
{
    let query = whole_disk_query(&f, device);
    match whole {
        Some(w) => {
            if query.is_some() {
                let bus = if f.bus_protocol.is_some() {
                    f.bus_protocol
                } else {
                    w.bus_protocol
                };
                (bus, w.media_name)
            } else {
                (f.bus_protocol, f.media_name)
            }
        },
        None => (f.bus_protocol, f.media_name),
    }
}

/// Whether a line starts a device in the output of `ioreg`.
pub open spec fn is_header(line: Seq<char>) -> bool {
    occurs(line, "+-o "@)
}

/// Lines in groups, one for each device.
pub open spec fn blocks_of(ls: Seq<Seq<char>>) -> Seq<Seq<Seq<char>>>
    decreases ls.len(),
{
    if ls.len() == 0 {
        Seq::empty()
    } else {
        let before = blocks_of(ls.drop_last());
        if before.len() == 0 || is_header(ls.last()) {
            before.push(seq![ls.last()])
        } else {
            before.drop_last().push(before.last().push(ls.last()))
        }
    }
}

/// The text between quotes that a line gives for a key.
pub open spec fn quoted_in(line: Seq<char>, key: Seq<char>) -> Option<Seq<char>> {
    match after_first(line, "\""@ + key + "\" = \""@) {
        None => None,
        Some(rest) => if first_of(rest, '"') < rest.len() {
            Some(rest.take(first_of(rest, '"') as int))
        } else {
            None
        },
    }
}

/// The number that a line gives for a key.
pub open spec fn number_in(line: Seq<char>, key: Seq<char>) -> Option<nat> {
    match after_first(line, "\""@ + key + "\" = "@) {
        None => None,
        Some(rest) => number_of(rest.take(digit_run(rest) as int), u64::MAX as nat),
    }
}

/// The first text between quotes that a block gives for a key.
pub open spec fn quoted(block: Seq<Seq<char>>, key: Seq<char>) -> Option<Seq<char>>
    decreases block.len(),
{
    if block.len() == 0 {
        None
    } else if quoted_in(block[0], key) is Some {
        quoted_in(block[0], key)
    } else {
        quoted(block.drop_first(), key)
    }
}

/// The first number that a block gives for a key.
pub open spec fn number(block: Seq<Seq<char>>, key: Seq<char>) -> Option<nat>
    decreases block.len(),
{
    if block.len() == 0 {
        None
    } else if number_in(block[0], key) is Some {
        number_in(block[0], key)
    } else {
        number(block.drop_first(), key)
    }
}

/// A value or the empty text.
pub open spec fn or_empty(s: Option<Seq<char>>) -> Seq<char> {
    match s {
        Some(t) => t,
        None => Seq::empty(),
    }
}

pub open spec fn product_of(block: Seq<Seq<char>>) -> Seq<char> {
    or_empty(quoted(block, "USB Product Name"@))
}

/// A device as a plain value: vendor, product and link speed.
pub struct Device {
    pub vendor: Seq<char>,
    pub product: Seq<char>,
    pub link_speed_bps: u64,
}

impl View for UsbLinkInfo {
    type V = Device;

    open spec fn view(&self) -> Device {
        Device {
            vendor: self.vendor@,
            product: self.product@,
            link_speed_bps: self.link_speed_bps,
        }
    }
}

/// The device that a block describes.
pub open spec fn device_of(block: Seq<Seq<char>>) -> Device {
    Device {
        vendor: or_empty(quoted(block, "USB Vendor Name"@)),
        product: product_of(block),
        link_speed_bps: match number(block, "UsbLinkSpeed"@) {
            Some(n) => n as u64,
            None => 0,
        },
    }
}

/// Whether a block describes the device that `want`, in lower case, names.
pub open spec fn is_wanted(block: Seq<Seq<char>>, want: Option<Seq<char>>) -> bool {
    let p = unicode_lower(product_of(block));
    product_of(block).len() > 0 && want is Some && (p == want->0 || occurs(want->0, p) || occurs(
        p,
        want->0,
    ))
}

/// Whether a block describes a device that is not a hub.
pub open spec fn is_plain(block: Seq<Seq<char>>) -> bool {
    product_of(block).len() > 0 && !occurs(unicode_lower(product_of(block)), "hub"@)
}

/// The first device that is wanted.
pub open spec fn first_wanted(blocks: Seq<Seq<Seq<char>>>, want: Option<Seq<char>>) -> Option<Device>
    decreases blocks.len(),
{
    if blocks.len() == 0 {
        None
    } else if is_wanted(blocks[0], want) {
        Some(device_of(blocks[0]))
    } else {
        first_wanted(blocks.drop_first(), want)
    }
}

/// The first device that is not a hub.
pub open spec fn first_plain(blocks: Seq<Seq<Seq<char>>>) -> Option<Device>
    decreases blocks.len(),
{
    if blocks.len() == 0 {
        None
    } else if is_plain(blocks[0]) {
        Some(device_of(blocks[0]))
    } else {
        first_plain(blocks.drop_first())
    }
}

/// The device that a media name stands for: one whose product name goes with
/// it, else the first that is not a hub.
pub open spec fn usb_device(text: Seq<char>, media_name: Option<Seq<char>>) -> Option<Device> {
    let blocks = blocks_of(lines_of(text));
    let want = match media_name {
        Some(m) => Some(unicode_lower(m)),
        None => None,
    };
    if first_wanted(blocks, want) is Some {
        first_wanted(blocks, want)
    } else {
        first_plain(blocks)
    }
}

/// The text of a key with its quotes, and what follows it.
fn needle(key: &str, behind: &str) -> (r: Vec<char>)
    ensures
        r@ == "\""@ + key@ + behind@,
{
    let mut s = "\"".to_owned();
    s.append(key);
    s.append(behind);
    to_chars(s.as_str())
}

/// The first text between quotes that a block gives for a key.
pub fn extract_quoted(block: &[Vec<char>], key: &str) -> (r: Option<String>)
    ensures
        opt(r) == quoted(texts(block@), key@),
{
    let n = needle(key, "\" = \"");
    let ghost all = texts(block@);
    let mut i: usize = 0;
    assert(all.skip(0) =~= all);
    while i < block.len()
        invariant
            i <= block@.len(),
            all == texts(block@),
            n@ == "\""@ + key@ + "\" = \""@,
            quoted(all, key@) == quoted(all.skip(i as int), key@),
        decreases block@.len() - i,
    {
        assert(all.skip(i as int)[0] == block@[i as int]@);
        assert(all.skip(i as int).drop_first() =~= all.skip(i + 1));
        if let Some(rest) = find_after(block[i].as_slice(), n.as_slice()) {
            assert(rest@.skip(0) =~= rest@);
            let end: usize = distance(rest.as_slice(), 0, '"');
            if end < rest.len() {
                let v = part(rest.as_slice(), 0, end);
                assert(v@ =~= rest@.take(end as int));
                return Some(from_chars(v.as_slice()));
            }
        }
        i = i + 1;
    }
    None
}

/// The first number that a block gives for a key.
pub fn extract_number(block: &[Vec<char>], key: &str) -> (r: Option<u64>)
    ensures
        match number(texts(block@), key@) {
            Some(n) => r is Some && r->0 == n,
            None => r is None,
        },
{
    let n = needle(key, "\" = ");
    let ghost all = texts(block@);
    let mut i: usize = 0;
    assert(all.skip(0) =~= all);
    while i < block.len()
        invariant
            i <= block@.len(),
            all == texts(block@),
            n@ == "\""@ + key@ + "\" = "@,
            number(all, key@) == number(all.skip(i as int), key@),
        decreases block@.len() - i,
    {
        assert(all.skip(i as int)[0] == block@[i as int]@);
        assert(all.skip(i as int).drop_first() =~= all.skip(i + 1));
        if let Some(rest) = find_after(block[i].as_slice(), n.as_slice()) {
            assert(rest@.skip(0) =~= rest@);
            let end: usize = leading_digits(rest.as_slice(), 0);
            let v = part(rest.as_slice(), 0, end);
            assert(v@ =~= rest@.take(end as int));
            if let Some(x) = parse_number(v.as_slice(), u64::MAX) {
                return Some(x);
            }
        }
        i = i + 1;
    }
    None
}

pub open spec fn block_views(v: Seq<Vec<Vec<char>>>) -> Seq<Seq<Seq<char>>> {
    v.map_values(|b: Vec<Vec<char>>| texts(b@))
}

/// Groups lines by device.
fn split_blocks(ls: Vec<Vec<char>>) -> (r: Vec<Vec<Vec<char>>>)
    ensures
        block_views(r@) == blocks_of(texts(ls@)),
{
    let ghost all = texts(ls@);
    let header = to_chars("+-o ");
    let mut blocks: Vec<Vec<Vec<char>>> = Vec::new();
    let mut i: usize = 0;
    assert(block_views(blocks@) =~= Seq::<Seq<Seq<char>>>::empty());
    while i < ls.len()
        invariant
            i <= ls@.len(),
            all == texts(ls@),
            header@ == "+-o "@,
            block_views(blocks@) == blocks_of(all.take(i as int)),
        decreases ls@.len() - i,
    {
        let ghost before = blocks@;
        assert(all.take(i + 1).drop_last() =~= all.take(i as int));
        assert(all.take(i + 1).last() == ls@[i as int]@);
        assert(block_views(before).len() == before.len());
        let line = part(ls[i].as_slice(), 0, ls[i].len());
        assert(line@ =~= ls@[i as int]@);
        if blocks.len() == 0 || contains(line.as_slice(), header.as_slice()) {
            let mut b: Vec<Vec<char>> = Vec::new();
            b.push(line);
            assert(texts(b@) =~= seq![line@]);
            blocks.push(b);
            assert(block_views(blocks@) =~= block_views(before).push(texts(b@)));
        } else {
            let mut b = blocks.pop().unwrap();
            let ghost b0 = b@;
            assert(texts(b0) == block_views(before).last());
            b.push(line);
            assert(texts(b@) =~= texts(b0).push(line@));
            blocks.push(b);
            assert(block_views(blocks@) =~= block_views(before).drop_last().push(texts(b@)));
        }
        i = i + 1;
    }
    assert(all.take(all.len() as int) =~= all);
    blocks
}

fn quoted_or_empty(block: &[Vec<char>], key: &str) -> (r: String)
    ensures
        r@ == or_empty(quoted(texts(block@), key@)),
{
    match extract_quoted(block, key) {
        Some(s) => s,
        None => String::new(),
    }
}

/// The device that a block describes.
fn describe(block: &[Vec<char>]) -> (r: UsbLinkInfo)
    ensures
        r@ == device_of(texts(block@)),
{
    let speed: u64 = match extract_number(block, "UsbLinkSpeed") {
        Some(n) => n,
        None => 0,
    };
    UsbLinkInfo {
        vendor: quoted_or_empty(block, "USB Vendor Name"),
        product: quoted_or_empty(block, "USB Product Name"),
        link_speed_bps: speed,
    }
}

/// The view of an optional device.
pub open spec fn opt_device(d: Option<UsbLinkInfo>) -> Option<Device> {
    match d {
        Some(x) => Some(x@),
        None => None,
    }
}

/// The view of an optional list of characters.
pub open spec fn opt_chars(v: Option<Vec<char>>) -> Option<Seq<char>> {
    match v {
        Some(x) => Some(x@),
        None => None,
    }
}

/// Finds, in the output of `ioreg`, the device that a media name stands for.
pub fn find_usb_device(text: &str, media_name: Option<&str>) -> (r: Option<UsbLinkInfo>)
    ensures
        opt_device(r) == usb_device(
            text@,
            match media_name {
                Some(m) => Some(m@),
                None => None,
            },
        ),
{
    let t = to_chars(text);
    let blocks = split_blocks(lines(t.as_slice()));
    let ghost all = block_views(blocks@);
    let hub = to_chars("hub");
    let want: Option<Vec<char>> = match media_name {
        Some(m) => {
            let l = to_lowercase(m);
            Some(to_chars(l.as_str()))
        },
        None => None,
    };
    let ghost w = opt_chars(want);
    let mut best: Option<UsbLinkInfo> = None;
    let mut i: usize = 0;
    assert(all.skip(0) =~= all);
    while i < blocks.len()
        invariant
            i <= blocks@.len(),
            all == block_views(blocks@),
            hub@ == "hub"@,
            w == opt_chars(want),
            w == (match media_name {
                Some(m) => Some(unicode_lower(m@)),
                None => None,
            }),
            all == blocks_of(lines_of(text@)),
            first_wanted(all, w) == first_wanted(all.skip(i as int), w),
            first_plain(all) == (if best is Some {
                opt_device(best)
            } else {
                first_plain(all.skip(i as int))
            }),
        decreases blocks@.len() - i,
    {
        let block = blocks[i].as_slice();
        assert(all.skip(i as int)[0] == texts(block@));
        assert(all.skip(i as int).drop_first() =~= all.skip(i + 1));
        let device = describe(block);
        if !device.product.as_str().is_empty() {
            let lower = to_lowercase(device.product.as_str());
            let p = to_chars(lower.as_str());
            if let Some(x) = &want {
                if same_chars(p.as_slice(), x.as_slice()) || contains(x.as_slice(), p.as_slice())
                    || contains(p.as_slice(), x.as_slice()) {
                    return Some(device);
                }
            }
            if !contains(p.as_slice(), hub.as_slice()) && best.is_none() {
                best = Some(device);
            }
        }
        i = i + 1;
    }
    best
}

/// The report on a path, from what the system told about its file system and
/// its drive.
pub fn probe_path(
    path: &[u8],
    fs_type: &[u8],
    mount_point: &[u8],
    device: &[u8],
    drive: (Option<String>, Option<String>),
    usb_tree: Option<&str>,
) -> (r: SourceReport)
    ensures
        r.path@ == path@,
        r.mount_point@ == encode_utf8(lossy_text(mount_point@)),
        r.bsd_device@ == lossy_text(device@),
        r.fs_type@ == lossy_text(fs_type@),
        r.bus_protocol == drive.0,
        r.media_name == drive.1,
        opt_device(r.usb) == (if opt(drive.0) == Some("USB"@) && usb_tree is Some {
            usb_device(usb_tree->0@, opt(drive.1))
        } else {
            None
        }),
{
    let p = copy_bytes(path, 0, path.len());
    assert(p@ =~= path@);
    let mount_text = lossy(mount_point);
    let mount_bytes = mount_text.as_str().as_bytes();
    let mount = copy_bytes(mount_bytes, 0, mount_bytes.len());
    assert(mount@ =~= mount_bytes@);
    let mut usb: Option<UsbLinkInfo> = None;
    if is_text(&drive.0, "USB") {
        if let Some(tree) = usb_tree {
            usb = match &drive.1 {
                Some(m) => find_usb_device(tree, Some(m.as_str())),
                None => find_usb_device(tree, None),
            };
        }
    }
    SourceReport {
        path: p,
        mount_point: mount,
        bsd_device: lossy(device),
        fs_type: lossy(fs_type),
        bus_protocol: drive.0,
        media_name: drive.1,
        usb,
    }
}

/// Whether one of the reports is on the mount point of `r`.
pub open spec fn reported(rs: Seq<SourceReport>, r: SourceReport) -> bool {
    exists|i: int|
        0 <= i < rs.len() && components_of((#[trigger] rs[i]).mount_point@) == components_of(
            r.mount_point@,
        )
}

/// The reports on drives on USB, the first for each mount point.
pub open spec fn usb_reports(rs: Seq<SourceReport>) -> Seq<SourceReport>
    decreases rs.len(),
{
    if rs.len() == 0 {
        Seq::empty()
    } else {
        let before = usb_reports(rs.drop_last());
        if on_usb(rs.last()) && !reported(before, rs.last()) {
            before.push(rs.last())
        } else {
            before
        }
    }
}

/// The reports of a run that are worth printing: on drives on USB, one for
/// each mount point.
pub fn probe_workload(probes: Vec<SourceReport>) -> (r: Vec<SourceReport>)
    ensures
        r@ == usb_reports(probes@),
{
    let ghost all = probes@;
    let mut rest = crate::sort::reversed(probes);
    let mut out: Vec<SourceReport> = Vec::new();
    let ghost mut n: int = 0;
    assert(all.skip(0) =~= all);
    while rest.len() > 0
        invariant
            0 <= n <= all.len(),
            rest@ == all.skip(n).reverse(),
            out@ == usb_reports(all.take(n)),
        decreases rest@.len(),
    {
        let r = rest.pop().unwrap();
        assert(r == all[n]);
        assert(all.take(n + 1).drop_last() =~= all.take(n));
        assert(rest@ =~= all.skip(n + 1).reverse());
        proof {
            n = n + 1;
        }
        if uses_usb(&r) {
            let mut seen = false;
            let mut i: usize = 0;
            while i < out.len()
                invariant
                    i <= out@.len(),
                    seen == exists|k: int|
                        0 <= k < i && components_of((#[trigger] out@[k]).mount_point@)
                            == components_of(r.mount_point@),
                decreases out@.len() - i,
            {
                if same_path(out[i].mount_point.as_slice(), r.mount_point.as_slice()) {
                    seen = true;
                }
                i = i + 1;
            }
            if !seen {
                out.push(r);
            }
        }
    }
    assert(all.take(all.len() as int) =~= all);
    out
}

/// Adds a mount point unless it is there already.
pub open spec fn with_mount(ms: Seq<Seq<u8>>, m: Seq<u8>) -> Seq<Seq<u8>> {
    if exists|i: int| 0 <= i < ms.len() && components_of(#[trigger] ms[i]) == components_of(m) {
        ms
    } else {
        ms.push(m)
    }
}

/// Adds a mount point to a list of distinct ones.
pub fn add_mount(mounts: &mut Vec<Vec<u8>>, m: Vec<u8>)
    ensures
        crate::path::byte_views(final(mounts)@) == with_mount(
            crate::path::byte_views(old(mounts)@),
            m@,
        ),
{
    let ghost ms = crate::path::byte_views(mounts@);
    let ghost mounts0 = mounts@;
    let mut i: usize = 0;
    while i < mounts.len()
        invariant
            i <= mounts@.len(),
            mounts@ == mounts0,
            ms == crate::path::byte_views(mounts@),
            forall|k: int| 0 <= k < i ==> components_of(#[trigger] ms[k]) != components_of(m@),
        decreases mounts@.len() - i,
    {
        assert(ms[i as int] == mounts@[i as int]@);
        if same_path(mounts[i].as_slice(), m.as_slice()) {
            return;
        }
        i = i + 1;
    }
    mounts.push(m);
    assert(crate::path::byte_views(mounts@) =~= ms.push(m@));
}

/// A labelled line for a value that may be missing.
pub open spec fn optional_line(label: Seq<char>, value: Option<Seq<char>>) -> Seq<Seq<char>> {
    match value {
        Some(v) => seq![label + v],
        None => Seq::empty(),
    }
}

/// The lines on a USB device.
pub open spec fn usb_lines(usb: Option<UsbLinkInfo>) -> Seq<Seq<char>> {
    match usb {
        Some(u) => seq![
            "  usb device  "@ + u.vendor@ + " "@ + u.product@,
            "  usb link    "@ + speed_text(u.link_speed_bps),
        ],
        None => Seq::empty(),
    }
}

/// The lines on one drive.
pub open spec fn drive_lines(r: SourceReport, read_jobs: usize, keep_cache: bool) -> Seq<Seq<char>> {
    seq![
        ""@,
        "mount         "@ + lossy_text(r.mount_point@),
        "  fs          "@ + r.fs_type@,
        "  bsd device  "@ + r.bsd_device@,
    ] + optional_line("  bus         "@, opt(r.bus_protocol)) + optional_line(
        "  media       "@,
        opt(r.media_name),
    ) + usb_lines(r.usb) + advice(r, read_jobs, keep_cache).map_values(
        |line: Seq<char>| "  advisory    "@ + line,
    )
}

/// The lines on all drives.
pub open spec fn all_drive_lines(
    rs: Seq<SourceReport>,
    read_jobs: usize,
    keep_cache: bool,
) -> Seq<Seq<char>>
    decreases rs.len(),
{
    if rs.len() == 0 {
        Seq::empty()
    } else {
        all_drive_lines(rs.drop_last(), read_jobs, keep_cache) + drive_lines(
            rs.last(),
            read_jobs,
            keep_cache,
        )
    }
}

/// The whole diagnosis.
pub open spec fn diagnosis(
    rs: Seq<SourceReport>,
    read_jobs: usize,
    keep_cache: bool,
) -> Seq<Seq<char>> {
    if rs.len() == 0 {
        seq![
            ""@,
            "=== USB / drive diagnostic ==="@,
            "no USB-backed filesystems in this workload — nothing to report."@,
            "=== end diagnostic ==="@,
            ""@,
        ]
    } else {
        seq![""@, "=== USB / drive diagnostic ==="@] + all_drive_lines(rs, read_jobs, keep_cache)
            + seq![""@, "=== end diagnostic ==="@, ""@]
    }
}

fn push_optional(out: &mut Vec<String>, label: &str, value: &Option<String>)
    ensures
        string_views(final(out)@) == string_views(old(out)@) + optional_line(label@, opt(*value)),
{
    let ghost before = string_views(out@);
    if let Some(v) = value {
        push_line(out, label, v.as_str());
    }
    assert(string_views(out@) =~= before + optional_line(label@, opt(*value)));
}

fn push_usb(out: &mut Vec<String>, usb: &Option<UsbLinkInfo>)
    ensures
        string_views(final(out)@) == string_views(old(out)@) + usb_lines(*usb),
{
    let ghost before = string_views(out@);
    if let Some(u) = usb {
        let mut front = concat("  usb device  ", u.vendor.as_str());
        front.append(" ");
        push_line(out, front.as_str(), u.product.as_str());
        let label = u.speed_label();
        push_line(out, "  usb link    ", label.as_str());
    }
    assert(string_views(out@) =~= before + usb_lines(*usb));
}

fn push_drive(out: &mut Vec<String>, r: &SourceReport, read_jobs: usize, keep_cache: bool)
    ensures
        string_views(final(out)@) == string_views(old(out)@) + drive_lines(
            *r,
            read_jobs,
            keep_cache,
        ),
{
    let ghost before = string_views(out@);
    let mount = lossy(r.mount_point.as_slice());
    push_text(out, "");
    push_line(out, "mount         ", mount.as_str());
    push_line(out, "  fs          ", r.fs_type.as_str());
    push_line(out, "  bsd device  ", r.bsd_device.as_str());
    let ghost head = seq![
        ""@,
        "mount         "@ + lossy_text(r.mount_point@),
        "  fs          "@ + r.fs_type@,
        "  bsd device  "@ + r.bsd_device@,
    ];
    assert(string_views(out@) =~= before + head);
    push_optional(out, "  bus         ", &r.bus_protocol);
    push_optional(out, "  media       ", &r.media_name);
    push_usb(out, &r.usb);
    let ghost known = string_views(out@);
    let lines = advise(r, read_jobs, keep_cache);
    let ghost advised = string_views(lines@);
    let ghost labels = |line: Seq<char>| "  advisory    "@ + line;
    let mut i: usize = 0;
    assert(known + advised.take(0).map_values(labels) =~= known);
    while i < lines.len()
        invariant
            i <= lines@.len(),
            advised == string_views(lines@),
            labels == (|line: Seq<char>| "  advisory    "@ + line),
            string_views(out@) == known + advised.take(i as int).map_values(labels),
        decreases lines@.len() - i,
    {
        push_line(out, "  advisory    ", lines[i].as_str());
        assert(advised[i as int] == lines@[i as int]@);
        assert(string_views(out@) =~= known + advised.take(i + 1).map_values(labels));
        i = i + 1;
    }
    assert(advised.take(advised.len() as int) =~= advised);
    assert(string_views(out@) =~= before + drive_lines(*r, read_jobs, keep_cache));
}

/// The diagnosis as lines of text.
pub fn report_lines(reports: &Vec<SourceReport>, read_jobs: usize, keep_cache: bool) -> (out: Vec<
    String,
>)
    ensures
        string_views(out@) == diagnosis(reports@, read_jobs, keep_cache),
{
    let mut out: Vec<String> = Vec::new();
    push_text(&mut out, "");
    push_text(&mut out, "=== USB / drive diagnostic ===");
    if reports.len() == 0 {
        push_text(&mut out, "no USB-backed filesystems in this workload — nothing to report.");
        push_text(&mut out, "=== end diagnostic ===");
        push_text(&mut out, "");
        assert(string_views(out@) =~= diagnosis(reports@, read_jobs, keep_cache));
        return out;
    }
    let ghost head = seq![""@, "=== USB / drive diagnostic ==="@];
    assert(string_views(out@) =~= head);
    let mut i: usize = 0;
    assert(head + all_drive_lines(reports@.take(0), read_jobs, keep_cache) =~= head);
    while i < reports.len()
        invariant
            i <= reports@.len(),
            string_views(out@) == head + all_drive_lines(
                reports@.take(i as int),
                read_jobs,
                keep_cache,
            ),
        decreases reports@.len() - i,
    {
        assert(reports@.take(i + 1).drop_last() =~= reports@.take(i as int));
        push_drive(&mut out, &reports[i], read_jobs, keep_cache);
        assert(string_views(out@) =~= head + all_drive_lines(
            reports@.take(i + 1),
            read_jobs,
            keep_cache,
        ));
        i = i + 1;
    }
    assert(reports@.take(reports@.len() as int) =~= reports@);
    push_text(&mut out, "");
    push_text(&mut out, "=== end diagnostic ===");
    push_text(&mut out, "");
    assert(string_views(out@) =~= diagnosis(reports@, read_jobs, keep_cache));
    out
}

/// The diagnosis has one report for each mount point of a drive on USB, and
/// for no other.
pub proof fn law_one_report_per_mount(rs: Seq<SourceReport>)
    ensures
        forall|i: int, j: int|
            0 <= i < j < usb_reports(rs).len() ==> components_of(
                (#[trigger] usb_reports(rs)[i]).mount_point@,
            ) != components_of((#[trigger] usb_reports(rs)[j]).mount_point@),
        forall|i: int| 0 <= i < usb_reports(rs).len() ==> on_usb(#[trigger] usb_reports(rs)[i]),
        forall|i: int|
            0 <= i < rs.len() && on_usb(#[trigger] rs[i]) ==> reported(usb_reports(rs), rs[i]),
    decreases rs.len(),
{
    if rs.len() > 0 {
        let before = usb_reports(rs.drop_last());
        let after = usb_reports(rs);
        law_one_report_per_mount(rs.drop_last());
        assert forall|i: int| 0 <= i < rs.len() && on_usb(#[trigger] rs[i]) implies reported(
            after,
            rs[i],
        ) by {
            if i < rs.len() - 1 {
                assert(rs.drop_last()[i] == rs[i]);
                assert(reported(before, rs[i]));
                let k = choose|k: int|
                    0 <= k < before.len() && components_of((#[trigger] before[k]).mount_point@)
                        == components_of(rs[i].mount_point@);
                assert(after[k] == before[k]);
            } else if !reported(before, rs.last()) {
                assert(after[before.len() as int] == rs[i]);
            }
        }
    }
}

/// What a link speed is called, from the fastest class to the slowest.
pub proof fn law_speed_classes(bps: u64)
    ensures
        ({
            let gbps = decimal((bps as int / 1_000_000_000) as nat) + " Gbps)"@;
            &&& 20_000_000_000 <= bps ==> speed_text(bps) == "USB 3.2 Gen 2x2 (~"@ + gbps
            &&& 10_000_000_000 <= bps < 20_000_000_000 ==> speed_text(bps)
                == "USB 3.1 SuperSpeed+ (~"@ + gbps
            &&& 5_000_000_000 <= bps < 10_000_000_000 ==> speed_text(bps)
                == "USB 3.0 SuperSpeed (~"@ + gbps
            &&& bps == 480_000_000 ==> speed_text(bps) == "USB 2.0 High Speed (480 Mbps)"@
            &&& bps == 12_000_000 ==> speed_text(bps) == "USB 1.1 Full Speed (12 Mbps)"@
            &&& bps == 1_500_000 ==> speed_text(bps) == "USB 1.0 Low Speed (1.5 Mbps)"@
            &&& bps == 0 ==> speed_text(bps) == "unknown"@
            &&& 0 < bps < 5_000_000_000 && bps != 480_000_000 && bps != 12_000_000 && bps
                != 1_500_000 ==> speed_text(bps) == decimal(bps as nat) + " bps (unknown class)"@
        }),
{
    let n = decimal((bps as int / 1_000_000_000) as nat);
    assert("USB 3.2 Gen 2x2 (~"@ + n + " Gbps)"@ =~= "USB 3.2 Gen 2x2 (~"@ + (n + " Gbps)"@));
    assert("USB 3.1 SuperSpeed+ (~"@ + n + " Gbps)"@ =~= "USB 3.1 SuperSpeed+ (~"@ + (n
        + " Gbps)"@));
    assert("USB 3.0 SuperSpeed (~"@ + n + " Gbps)"@ =~= "USB 3.0 SuperSpeed (~"@ + (n
        + " Gbps)"@));
}

/// A drive is on USB by the name of its bus, and has APFS by that of its file
/// system, in whatever case that is written.
pub proof fn law_kinds_of_drives(r: SourceReport)
    ensures
        on_usb(r) <==> (r.bus_protocol matches Some(p) && p@ == seq!['U', 'S', 'B']),
        is_apfs(r) <==> ascii_lowered(r.fs_type@) == seq!['a', 'p', 'f', 's'],
{
    reveal_strlit("USB");
    reveal_strlit("apfs");
    assert("USB"@ =~= seq!['U', 'S', 'B']);
    assert("apfs"@ =~= seq!['a', 'p', 'f', 's']);
    assert(ascii_lowered("apfs"@) =~= "apfs"@);
}

/// Each piece of advice is given where its reason holds, and only there: on
/// APFS on USB, on a link of at most 480 Mbit/s, on more than two readers, and
/// on reading past the cache; in this order.
pub proof fn law_advice_has_its_reasons(r: SourceReport, read_jobs: usize, keep_cache: bool)
    ensures
        ({
            let a = advice(r, read_jobs, keep_cache);
            let usb = on_usb(r);
            let slow = usb && (r.usb matches Some(u) && u.link_speed_bps <= 480_000_000);
            let one = if usb && is_apfs(r) {
                1int
            } else {
                0
            };
            let two = if slow {
                one + 1
            } else {
                one
            };
            let three = if usb && read_jobs > 2 {
                two + 1
            } else {
                two
            };
            let four = if usb && is_apfs(r) && !keep_cache {
                three + 1
            } else {
                three
            };
            &&& a.len() == four
            &&& one > 0 ==> a[0]
                == "APFS on USB is known-slow (many small metadata syscalls over USB-MSC). Consider `--keep-cache --read-jobs 1 --dispatch-io`, or reformat to exfat."@
            &&& two > one ==> a[one] == "USB link is "@ + speed_text(r.usb->0.link_speed_bps)
                + " — cap ~30 MB/s regardless of drive speed. Check the cable, port, and hub."@
            &&& three > two ==> a[two] == "--read-jobs "@ + decimal(read_jobs as nat)
                + " is high for a USB source; concurrent readers can seek-storm."@
            &&& four > three ==> a[three]
                == "F_NOCACHE is on (default). On APFS-USB it kills readahead — pass --keep-cache."@
        }),
{
}

/// A line with a label holds what stands behind the label, without the white
/// space round it.
pub proof fn law_labelled_lines(
    before: Seq<char>,
    label: Seq<char>,
    gap: Seq<char>,
    value: Seq<char>,
    behind: Seq<char>,
    line: Seq<char>,
)
    requires
        forall|i: int| 0 <= i < before.len() ==> is_space(#[trigger] before[i]),
        forall|i: int| 0 <= i < gap.len() ==> is_space(#[trigger] gap[i]),
        forall|i: int| 0 <= i < behind.len() ==> is_space(#[trigger] behind[i]),
        label.len() > 0,
        !is_space(label[0]) && !is_space(label[label.len() - 1]),
        value.len() > 0 ==> !is_space(value[0]) && !is_space(value[value.len() - 1]),
        value.len() == 0 ==> gap.len() == 0,
    ensures
        labelled(before + label + gap + value + behind, label) == Some(value),
        !label.is_prefix_of(trimmed(line)) ==> labelled(line, label) is None,
{
    let middle = label + gap + value;
    assert(before + label + gap + value + behind =~= before + middle + behind);
    assert(middle[0] == label[0]);
    if value.len() > 0 {
        assert(middle[middle.len() - 1] == value[value.len() - 1]);
    } else {
        assert(middle =~= label);
    }
    law_trimming(before, middle, behind);
    assert(middle =~= label + (gap + value));
    law_behind_a_prefix(line, label, gap + value);
    law_behind_a_prefix(trimmed(line), label, value);
    law_trimming(gap, value, Seq::empty());
    assert(gap + value + Seq::<char>::empty() =~= gap + value);
}

/// The fields are read line by line. The bus and the name of the medium each
/// have two labels: the longer one always counts, the shorter one only while
/// nothing is known.
pub proof fn law_fields_line_by_line(ls: Seq<Seq<char>>, line: Seq<char>)
    ensures
        ({
            let f = fields_of(ls);
            let g = fields_of(ls.push(line));
            let bus = labelled(line, "Bus Protocol:"@);
            let protocol = labelled(line, "Protocol:"@);
            let device = labelled(line, "Device / Media Name:"@);
            let media = labelled(line, "Media Name:"@);
            let whole = labelled(line, "Part of Whole:"@);
            let b = bus is Some;
            let p = !b && protocol is Some;
            let d = !b && !p && device is Some;
            let m = !b && !p && !d && media is Some;
            let w = !b && !p && !d && !m && whole is Some;
            &&& fields_of(Seq::empty()) == (Fields {
                bus_protocol: None,
                media_name: None,
                part_of_whole: None,
            })
            &&& b ==> g.bus_protocol == bus
            &&& p && f.bus_protocol is None ==> g.bus_protocol == protocol
            &&& !b && (!p || f.bus_protocol is Some) ==> g.bus_protocol == f.bus_protocol
            &&& d ==> g.media_name == device
            &&& m && f.media_name is None ==> g.media_name == media
            &&& !d && (!m || f.media_name is Some) ==> g.media_name == f.media_name
            &&& w ==> g.part_of_whole == whole
            &&& !w ==> g.part_of_whole == f.part_of_whole
        }),
{
    assert(ls.push(line).drop_last() =~= ls);
}

/// The whole disk is asked about where the device itself has no name of a
/// medium and is a part of another one.
pub proof fn law_whole_disk_is_asked(f: Fields, device: Seq<char>, whole: Option<Fields>)
    ensures
        ({
            let ask = f.media_name is None && (f.part_of_whole matches Some(w) && w.len() > 0 && w
                != without_prefixes(device, "/dev/"@));
            &&& !ask ==> whole_disk(f, device) is None
            &&& ask ==> whole_disk(f, device) == Some("/dev/"@ + f.part_of_whole->0)
            &&& !ask || whole is None ==> disk_info(f, device, whole) == (
                f.bus_protocol,
                f.media_name,
            )
            &&& ask ==> (whole matches Some(o) ==> disk_info(f, device, whole).1 == o.media_name && (
            f.bus_protocol is Some ==> disk_info(f, device, whole).0 == f.bus_protocol) && (
            f.bus_protocol is None ==> disk_info(f, device, whole).0 == o.bus_protocol))
        }),
{
}

/// A prefix is taken off as often as it stands in front.
pub proof fn law_prefixes_are_taken_off(t: Seq<char>, prefix: Seq<char>)
    requires
        prefix.len() > 0,
    ensures
        without_prefixes(prefix + t, prefix) == without_prefixes(t, prefix),
        !prefix.is_prefix_of(t) ==> without_prefixes(t, prefix) == t,
{
    assert((prefix + t).subrange(0, prefix.len() as int) =~= prefix);
    assert((prefix + t).skip(prefix.len() as int) =~= t);
}

/// The blocks of a listing are its lines, all of them and in order. A block
/// ends before each line that is a headline, and nowhere else.
pub proof fn law_blocks_hold_the_lines(ls: Seq<Seq<char>>)
    ensures
        blocks_of(ls).flatten() == ls,
        forall|i: int| 0 <= i < blocks_of(ls).len() ==> (#[trigger] blocks_of(ls)[i]).len() > 0,
        forall|i: int|
            0 < i < blocks_of(ls).len() ==> occurs((#[trigger] blocks_of(ls)[i])[0], "+-o "@),
        forall|i: int, j: int|
            0 <= i < blocks_of(ls).len() && 0 < j < blocks_of(ls)[i].len() ==> !occurs(
                #[trigger] blocks_of(ls)[i][j],
                "+-o "@,
            ),
    decreases ls.len(),
{
    let all = blocks_of(ls);
    all.lemma_flatten_and_flatten_alt_are_equivalent();
    if ls.len() > 0 {
        let d = ls.drop_last();
        let before = blocks_of(d);
        law_blocks_hold_the_lines(d);
        before.lemma_flatten_and_flatten_alt_are_equivalent();
        if before.len() == 0 || is_header(ls.last()) {
            assert(all.drop_last() =~= before);
            assert(all.flatten_alt() =~= before.flatten_alt() + seq![ls.last()]);
        } else {
            assert(all.drop_last() =~= before.drop_last());
            assert(all.flatten_alt() =~= before.flatten_alt() + seq![ls.last()]);
        }
        assert(d + seq![ls.last()] =~= ls);
        assert forall|i: int, j: int|
            0 <= i < all.len() && 0 < j < all[i].len() implies !occurs(
            #[trigger] all[i][j],
            "+-o "@,
        ) by {
            if i < before.len() && j < before[i].len() {
                assert(all[i][j] == before[i][j]);
            }
        }
        assert forall|i: int| 0 < i < all.len() implies occurs(
            (#[trigger] all[i])[0],
            "+-o "@,
        ) by {
            if i < before.len() {
                assert(all[i][0] == before[i][0]);
            }
        }
    }
}

/// A quoted value is what stands between the quotes behind its key, the first
/// time that the key stands in the line.
pub proof fn law_quoted_values(
    front: Seq<char>,
    key: Seq<char>,
    value: Seq<char>,
    back: Seq<char>,
)
    requires
        forall|a: Seq<char>, b: Seq<char>|
            front + ("\""@ + key + "\" = \""@) + (value + seq!['"'] + back) == #[trigger] (a + (
            "\""@ + key + "\" = \""@) + b) ==> a.len() >= front.len(),
        forall|i: int| 0 <= i < value.len() ==> #[trigger] value[i] != '"',
    ensures
        quoted_in(front + ("\""@ + key + "\" = \""@) + (value + seq!['"'] + back), key) == Some(
            value,
        ),
{
    let rest = value + seq!['"'] + back;
    law_behind_the_first_place(front, "\""@ + key + "\" = \""@, rest);
    assert forall|i: int| 0 <= i < value.len() implies #[trigger] rest[i] != '"' by {
        assert(rest[i] == value[i]);
    }
    assert(rest[value.len() as int] == '"');
    lemma_first_of(rest, '"', value.len());
    assert(rest.take(value.len() as int) =~= value);
}

/// A number is what the run of digits behind its key says, the first time that
/// the key stands in the line.
pub proof fn law_numbers_behind_keys(
    front: Seq<char>,
    key: Seq<char>,
    digits: Seq<char>,
    back: Seq<char>,
)
    requires
        forall|a: Seq<char>, b: Seq<char>|
            front + ("\""@ + key + "\" = "@) + (digits + back) == #[trigger] (a + ("\""@ + key
                + "\" = "@) + b) ==> a.len() >= front.len(),
        forall|i: int| 0 <= i < digits.len() ==> '0' <= #[trigger] digits[i] <= '9',
        back.len() == 0 || !('0' <= back[0] <= '9'),
    ensures
        number_in(front + ("\""@ + key + "\" = "@) + (digits + back), key) == number_of(
            digits,
            0xFFFF_FFFF_FFFF_FFFF,
        ),
{
    let rest = digits + back;
    law_behind_the_first_place(front, "\""@ + key + "\" = "@, rest);
    law_digit_run(digits, back);
    assert(rest.take(digits.len() as int) =~= digits);
}

/// A quoted value has to end in a quote.
pub proof fn law_values_without_an_end(front: Seq<char>, key: Seq<char>, rest: Seq<char>)
    requires
        forall|a: Seq<char>, b: Seq<char>|
            front + ("\""@ + key + "\" = \""@) + rest == #[trigger] (a + ("\""@ + key
                + "\" = \""@) + b) ==> a.len() >= front.len(),
        forall|i: int| 0 <= i < rest.len() ==> #[trigger] rest[i] != '"',
    ensures
        quoted_in(front + ("\""@ + key + "\" = \""@) + rest, key) is None,
{
    law_behind_the_first_place(front, "\""@ + key + "\" = \""@, rest);
    lemma_first_of(rest, '"', rest.len());
}

/// A line without the key has no value for it.
pub proof fn law_lines_without_the_key(line: Seq<char>, key: Seq<char>)
    ensures
        !occurs(line, "\""@ + key + "\" = \""@) ==> quoted_in(line, key) is None,
        !occurs(line, "\""@ + key + "\" = "@) ==> number_in(line, key) is None,
{
}

/// In a block, the first line that has a value for a key gives it.
pub proof fn law_first_line_with_a_value(
    line: Seq<char>,
    block: Seq<Seq<char>>,
    key: Seq<char>,
)
    ensures
        quoted(Seq::empty(), key) is None,
        number(Seq::empty(), key) is None,
        quoted_in(line, key) is Some ==> quoted(seq![line] + block, key) == quoted_in(line, key),
        quoted_in(line, key) is None ==> quoted(seq![line] + block, key) == quoted(block, key),
        number_in(line, key) is Some ==> number(seq![line] + block, key) == number_in(line, key),
        number_in(line, key) is None ==> number(seq![line] + block, key) == number(block, key),
{
    assert((seq![line] + block).drop_first() =~= block);
}

/// A device is told by its block: the names of vendor and product and the
/// speed of the link, each empty or zero where the block has none.
pub proof fn law_devices_are_read_from_blocks(block: Seq<Seq<char>>)
    ensures
        ({
            let d = device_of(block);
            let vendor = quoted(block, "USB Vendor Name"@);
            let product = quoted(block, "USB Product Name"@);
            let speed = number(block, "UsbLinkSpeed"@);
            &&& vendor matches Some(v) ==> d.vendor == v
            &&& vendor is None ==> d.vendor.len() == 0
            &&& product matches Some(p) ==> d.product == p
            &&& product is None ==> d.product.len() == 0
            &&& speed matches Some(s) ==> d.link_speed_bps == s as u64
            &&& speed is None ==> d.link_speed_bps == 0
        }),
{
}

/// A device is that of a medium where one of the two names holds the other, in
/// whatever case; without a medium, or without such a device, it is the first
/// one that is not called a hub. `i` is the place of the block that is chosen.
pub proof fn law_device_is_chosen(text: Seq<char>, media_name: Option<Seq<char>>, i: int)
    ensures
        ({
            let bs = blocks_of(lines_of(text));
            let lower = |k: int| unicode_lower(device_of(bs[k]).product);
            let wanted = |k: int|
                device_of(bs[k]).product.len() > 0 && (media_name matches Some(m) && (lower(k)
                    == unicode_lower(m) || occurs(unicode_lower(m), lower(k)) || occurs(
                    lower(k),
                    unicode_lower(m),
                )));
            let plain = |k: int| device_of(bs[k]).product.len() > 0 && !occurs(lower(k), "hub"@);
            &&& 0 <= i < bs.len() && wanted(i) && (forall|j: int| 0 <= j < i ==> !#[trigger] wanted(j))
                ==> usb_device(text, media_name) == Some(device_of(bs[i]))
            &&& 0 <= i < bs.len() && plain(i) && (forall|j: int|
                0 <= j < bs.len() ==> !#[trigger] wanted(j)) && (forall|j: int|
                0 <= j < i ==> !#[trigger] plain(j)) ==> usb_device(text, media_name) == Some(
                device_of(bs[i]),
            )
            &&& (forall|j: int| 0 <= j < bs.len() ==> !#[trigger] wanted(j)) && (forall|j: int|
                0 <= j < bs.len() ==> !#[trigger] plain(j)) ==> usb_device(text, media_name) is None
        }),
{
    let bs = blocks_of(lines_of(text));
    let want = match media_name {
        Some(m) => Some(unicode_lower(m)),
        None => None,
    };
    let lower = |k: int| unicode_lower(device_of(bs[k]).product);
    let wanted = |k: int|
        device_of(bs[k]).product.len() > 0 && (media_name matches Some(m) && (lower(k)
            == unicode_lower(m) || occurs(unicode_lower(m), lower(k)) || occurs(
            lower(k),
            unicode_lower(m),
        )));
    let plain = |k: int| device_of(bs[k]).product.len() > 0 && !occurs(lower(k), "hub"@);
    assert forall|k: int| 0 <= k < bs.len() implies #[trigger] wanted(k) == is_wanted(
        bs[k],
        want,
    ) by {}
    assert forall|k: int| 0 <= k < bs.len() implies #[trigger] plain(k) == is_plain(bs[k]) by {}
    if 0 <= i < bs.len() && wanted(i) && (forall|j: int| 0 <= j < i ==> !#[trigger] wanted(j)) {
        assert forall|j: int| 0 <= j < i implies !is_wanted(#[trigger] bs[j], want) by {
            assert(!wanted(j));
        }
        lemma_first_wanted(bs, want, i);
    }
    if forall|j: int| 0 <= j < bs.len() ==> !#[trigger] wanted(j) {
        assert forall|j: int| 0 <= j < bs.len() implies !is_wanted(#[trigger] bs[j], want) by {
            assert(!wanted(j));
        }
        lemma_first_wanted(bs, want, bs.len() as int);
        if 0 <= i < bs.len() && plain(i) && (forall|j: int| 0 <= j < i ==> !#[trigger] plain(j)) {
            assert forall|j: int| 0 <= j < i implies !is_plain(#[trigger] bs[j]) by {
                assert(!plain(j));
            }
            lemma_first_plain(bs, i);
        }
        if forall|j: int| 0 <= j < bs.len() ==> !#[trigger] plain(j) {
            assert forall|j: int| 0 <= j < bs.len() implies !is_plain(#[trigger] bs[j]) by {
                assert(!plain(j));
            }
            lemma_first_plain(bs, bs.len() as int);
        }
    }
}

proof fn lemma_first_wanted(bs: Seq<Seq<Seq<char>>>, want: Option<Seq<char>>, i: int)
    requires
        0 <= i <= bs.len(),
        i < bs.len() ==> is_wanted(bs[i], want),
        forall|j: int| 0 <= j < i ==> !is_wanted(#[trigger] bs[j], want),
    ensures
        first_wanted(bs, want) == (if i < bs.len() {
            Some(device_of(bs[i]))
        } else {
            None
        }),
    decreases bs.len(),
{
    if bs.len() > 0 && i > 0 {
        assert(!is_wanted(bs[0], want));
        let rest = bs.drop_first();
        assert forall|j: int| 0 <= j < i - 1 implies !is_wanted(#[trigger] rest[j], want) by {
            assert(rest[j] == bs[j + 1]);
        }
        lemma_first_wanted(rest, want, i - 1);
    }
}

proof fn lemma_first_plain(bs: Seq<Seq<Seq<char>>>, i: int)
    requires
        0 <= i <= bs.len(),
        i < bs.len() ==> is_plain(bs[i]),
        forall|j: int| 0 <= j < i ==> !is_plain(#[trigger] bs[j]),
    ensures
        first_plain(bs) == (if i < bs.len() {
            Some(device_of(bs[i]))
        } else {
            None
        }),
    decreases bs.len(),
{
    if bs.len() > 0 && i > 0 {
        assert(!is_plain(bs[0]));
        let rest = bs.drop_first();
        assert forall|j: int| 0 <= j < i - 1 implies !is_plain(#[trigger] rest[j]) by {
            assert(rest[j] == bs[j + 1]);
        }
        lemma_first_plain(rest, i - 1);
    }
}

/// A report joins those before it where its drive is on USB and no report
/// before is on the same mount point.
pub proof fn law_reports_join_one_by_one(rs: Seq<SourceReport>, r: SourceReport)
    ensures
        usb_reports(Seq::empty()).len() == 0,
        ({
            let before = usb_reports(rs);
            let known = exists|i: int|
                0 <= i < before.len() && components_of((#[trigger] before[i]).mount_point@)
                    == components_of(r.mount_point@);
            &&& on_usb(r) && !known ==> usb_reports(rs.push(r)) == before.push(r)
            &&& !on_usb(r) || known ==> usb_reports(rs.push(r)) == before
        }),
{
    assert(rs.push(r).drop_last() =~= rs);
}

/// A mount point joins a list that has none with the same components.
pub proof fn law_mounts_join_once(ms: Seq<Seq<u8>>, m: Seq<u8>)
    ensures
        (forall|i: int|
            0 <= i < ms.len() ==> components_of(#[trigger] ms[i]) != components_of(m))
            ==> with_mount(ms, m) == ms.push(m),
        (exists|i: int|
            0 <= i < ms.len() && components_of(#[trigger] ms[i]) == components_of(m))
            ==> with_mount(ms, m) == ms,
{
}

/// The lines on one drive: mount point, file system and device, then bus and
/// medium, then the two lines on the USB device, each as far as it is known,
/// and then the advice.
pub proof fn law_lines_on_a_drive(r: SourceReport, read_jobs: usize, keep_cache: bool)
    ensures
        ({
            let l = drive_lines(r, read_jobs, keep_cache);
            let a = advice(r, read_jobs, keep_cache);
            let b = if r.bus_protocol is Some {
                5int
            } else {
                4
            };
            let m = if r.media_name is Some {
                b + 1
            } else {
                b
            };
            let u = if r.usb is Some {
                m + 2
            } else {
                m
            };
            &&& l.len() == u + a.len()
            &&& l[0] == ""@
            &&& l[1] == "mount         "@ + lossy_text(r.mount_point@)
            &&& l[2] == "  fs          "@ + r.fs_type@
            &&& l[3] == "  bsd device  "@ + r.bsd_device@
            &&& r.bus_protocol matches Some(t) ==> l[4] == "  bus         "@ + t@
            &&& r.media_name matches Some(t) ==> l[b] == "  media       "@ + t@
            &&& r.usb matches Some(d) ==> l[m] == "  usb device  "@ + d.vendor@ + " "@ + d.product@
                && l[m + 1] == "  usb link    "@ + speed_text(d.link_speed_bps)
            &&& forall|i: int|
                0 <= i < a.len() ==> l[u + i] == "  advisory    "@ + #[trigger] a[i]
        }),
{
}

/// The diagnosis is that of each drive in turn, between a headline and an end
/// line.
pub proof fn law_diagnosis_drive_by_drive(
    rs: Seq<SourceReport>,
    r: SourceReport,
    read_jobs: usize,
    keep_cache: bool,
)
    ensures
        all_drive_lines(Seq::empty(), read_jobs, keep_cache).len() == 0,
        all_drive_lines(rs.push(r), read_jobs, keep_cache) == all_drive_lines(
            rs,
            read_jobs,
            keep_cache,
        ) + drive_lines(r, read_jobs, keep_cache),
        rs.len() > 0 ==> diagnosis(rs, read_jobs, keep_cache) == seq![
            ""@,
            "=== USB / drive diagnostic ==="@,
        ] + all_drive_lines(rs, read_jobs, keep_cache) + seq![
            ""@,
            "=== end diagnostic ==="@,
            ""@,
        ],
        rs.len() == 0 ==> diagnosis(rs, read_jobs, keep_cache) == seq![
            ""@,
            "=== USB / drive diagnostic ==="@,
            "no USB-backed filesystems in this workload — nothing to report."@,
            "=== end diagnostic ==="@,
            ""@,
        ],
{
    assert(rs.push(r).drop_last() =~= rs);
}

/// What is told of a device and of the fields of a disk.
pub proof fn law_device_views(f: DiskFields, d: UsbLinkInfo)
    ensures
        d@.vendor == d.vendor@,
        d@.product == d.product@,
        d@.link_speed_bps == d.link_speed_bps,
        opt_device(Some(d)) == Some(d@),
        opt_device(None) is None,
        f.bus_protocol matches Some(t) ==> f@.bus_protocol == Some(t@),
        f.bus_protocol is None ==> f@.bus_protocol is None,
        f.media_name matches Some(t) ==> f@.media_name == Some(t@),
        f.media_name is None ==> f@.media_name is None,
        f.part_of_whole matches Some(t) ==> f@.part_of_whole == Some(t@),
        f.part_of_whole is None ==> f@.part_of_whole is None,
        opt(f.bus_protocol) == f@.bus_protocol,
{
}

} // verus!
