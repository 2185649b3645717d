//! The dashboard: what each worker is doing, and how far the run has come.

use vstd::prelude::*;
use vstd::string::StringExecFns;

use crate::text::{add_number, from_chars, part, to_chars};
#[allow(unused_imports)]
use crate::text::decimal;

verus! {

/// Width of a file name on the dashboard.
pub const NAME_WIDTH: usize = 48;

/// What stands in front of a name that was cut.
pub const ELLIPSIS: char = '\u{2026}';

/// One worker.
pub struct WorkerRow {
    pub file: String,
    pub size: u64,
    pub busy: bool,
    pub files_done: u64,
}

/// All workers, and what they have done together.
pub struct Dashboard {
    pub workers: Vec<WorkerRow>,
    pub done_bytes: u64,
    pub done_files: u64,
}

/// A worker as a plain value.
pub struct Row {
    pub file: Seq<char>,
    pub size: u64,
    pub busy: bool,
    pub files_done: u64,
}

impl View for WorkerRow {
    type V = Row;

    open spec fn view(&self) -> Row {
        Row { file: self.file@, size: self.size, busy: self.busy, files_done: self.files_done }
    }
}

/// A worker that does nothing.
pub open spec fn idle(files_done: u64) -> Row {
    Row { file: Seq::empty(), size: 0, busy: false, files_done }
}

/// A sum that stops at the greatest number.
pub open spec fn capped_sum(a: u64, b: u64) -> u64 {
    if a + b > u64::MAX {
        u64::MAX
    } else {
        (a + b) as u64
    }
}

fn add_capped(a: u64, b: u64) -> (r: u64)
    ensures
        r == capped_sum(a, b),
{
    if b > u64::MAX - a {
        u64::MAX
    } else {
        a + b
    }
}

impl Dashboard {
    pub fn new(cpu_jobs: usize) -> (d: Self)
        ensures
            d.workers@.len() == cpu_jobs,
            forall|i: int| 0 <= i < cpu_jobs ==> (#[trigger] d.workers@[i])@ == idle(0),
            d.done_bytes == 0,
            d.done_files == 0,
    {
        let mut workers: Vec<WorkerRow> = Vec::new();
        while workers.len() < cpu_jobs
            invariant
                workers@.len() <= cpu_jobs,
                forall|i: int| 0 <= i < workers@.len() ==> (#[trigger] workers@[i])@ == idle(0),
            decreases cpu_jobs - workers@.len(),
        {
            let w = WorkerRow { file: String::new(), size: 0, busy: false, files_done: 0 };
            assert(w@.file =~= Seq::<char>::empty());
            workers.push(w);
        }
        Dashboard { workers, done_bytes: 0, done_files: 0 }
    }

    /// A worker has started on a file. Workers that are not there are ignored.
    pub fn worker_started(&mut self, id: usize, file: String, size: u64)
        ensures
            final(self).done_bytes == old(self).done_bytes,
            final(self).done_files == old(self).done_files,
            final(self).workers@.len() == old(self).workers@.len(),
            forall|i: int|
                0 <= i < old(self).workers@.len() ==> (#[trigger] final(self).workers@[i])@ == if i
                    == id {
                    Row {
                        file: file@,
                        size,
                        busy: true,
                        files_done: old(self).workers@[i].files_done,
                    }
                } else {
                    old(self).workers@[i]@
                },
    {
        if id < self.workers.len() {
            let files_done: u64 = self.workers[id].files_done;
            self.workers[id] = WorkerRow { file, size, busy: true, files_done };
        }
    }

    /// A worker is done with its file. Workers that are not there are ignored.
    pub fn worker_finished(&mut self, id: usize)
        ensures
            final(self).workers@.len() == old(self).workers@.len(),
            id < old(self).workers@.len() ==> final(self).done_bytes == capped_sum(
                old(self).done_bytes,
                old(self).workers@[id as int].size,
            ) && final(self).done_files == capped_sum(old(self).done_files, 1),
            id >= old(self).workers@.len() ==> *final(self) == *old(self),
            forall|i: int|
                0 <= i < old(self).workers@.len() ==> (#[trigger] final(self).workers@[i])@ == if i
                    == id {
                    idle(capped_sum(old(self).workers@[i].files_done, 1))
                } else {
                    old(self).workers@[i]@
                },
    {
        if id < self.workers.len() {
            let size: u64 = self.workers[id].size;
            let files_done: u64 = add_capped(self.workers[id].files_done, 1);
            self.done_bytes = add_capped(self.done_bytes, size);
            self.done_files = add_capped(self.done_files, 1);
            let w = WorkerRow { file: String::new(), size: 0, busy: false, files_done };
            assert(w@.file =~= Seq::<char>::empty());
            self.workers[id] = w;
        }
    }

    /// How much is done, in per cent of `total_bytes`.
    pub fn percent(&self, total_bytes: u64) -> (p: u16)
        ensures
            p == percent_of(self.done_bytes, total_bytes),
            p <= 100,
    {
        if total_bytes == 0 {
            return 0;
        }
        let done: u64 = if self.done_bytes < total_bytes {
            self.done_bytes
        } else {
            total_bytes
        };
        let p: u128 = done as u128 * 100 / total_bytes as u128;
        proof {
            lemma_at_most_hundred(done as int, total_bytes as int);
        }
        p as u16
    }
}

/// `done` in per cent of `total`, counted down.
pub open spec fn percent_of(done: u64, total: u64) -> int {
    if total == 0 {
        0
    } else {
        (if done < total {
            done
        } else {
            total
        }) * 100 / total as int
    }
}

proof fn lemma_at_most_hundred(done: int, total: int)
    requires
        0 <= done <= total,
        total > 0,
    ensures
        0 <= done * 100 / total <= 100,
{
    assert(0 <= done * 100 / total <= 100) by (nonlinear_arith)
        requires
            0 <= done <= total,
            total > 0,
    ;
}

/// `t` itself where it has at most `n` characters; else its end behind an
/// ellipsis, `n` characters in all.
pub open spec fn shortened(t: Seq<char>, n: nat) -> Seq<char> {
    if t.len() <= n {
        t
    } else {
        seq![ELLIPSIS] + t.skip(t.len() - (n - 1))
    }
}

/// Shortens a text to `n` characters.
pub fn truncate(s: &str, n: usize) -> (r: String)
    requires
        n > 0 || s@.len() == 0,
    ensures
        r@ == shortened(s@, n as nat),
{
    let t = to_chars(s);
    if t.len() <= n {
        return s.to_owned();
    }
    let mut v: Vec<char> = Vec::new();
    v.push(ELLIPSIS);
    let tail = part(t.as_slice(), t.len() - (n - 1), t.len());
    v.extend_from_slice(tail.as_slice());
    assert(v@ =~= shortened(s@, n as nat));
    from_chars(v.as_slice())
}

/// `n` spaces.
pub open spec fn spaces(n: nat) -> Seq<char> {
    Seq::new(n, |i: int| ' ')
}

/// `t`, filled up with spaces to `width` characters.
pub open spec fn padded(t: Seq<char>, width: nat) -> Seq<char> {
    if t.len() < width {
        t + spaces((width - t.len()) as nat)
    } else {
        t
    }
}

fn pad(s: &str, width: usize) -> (r: String)
    ensures
        r@ == padded(s@, width as nat),
{
    let mut v = to_chars(s);
    let ghost t = v@;
    while v.len() < width
        invariant
            v@.len() >= t.len(),
            v@.len() <= width || v@ == t,
            v@ == t + spaces((v@.len() - t.len()) as nat) || v@ == t,
        decreases width - v@.len(),
    {
        v.push(' ');
        assert(v@ =~= t + spaces((v@.len() - t.len()) as nat));
    }
    assert(v@ =~= padded(t, width as nat));
    from_chars(v.as_slice())
}

/// The line on a worker, given its rate as text.
pub open spec fn row_text(w: Row, rate: Seq<char>) -> Seq<char> {
    (if w.busy {
        "\u{25b6} "@ + padded(shortened(w.file, NAME_WIDTH as nat), NAME_WIDTH as nat)
    } else {
        "\u{b7} idle"@ + spaces(43)
    }) + "  "@ + rate + " MB/s  ("@ + decimal(w.files_done as nat) + " done)"@
}

/// The line on a worker, given its rate in megabytes per second as text.
pub fn worker_line(w: &WorkerRow, rate: &str) -> (r: String)
    ensures
        r@ == row_text(w@, rate@),
{
    let mut s = if w.busy {
        let name = truncate(w.file.as_str(), NAME_WIDTH);
        let wide = pad(name.as_str(), NAME_WIDTH);
        let mut s = "\u{25b6} ".to_owned();
        s.append(wide.as_str());
        s
    } else {
        let gap = pad("", 43);
        proof {
            reveal_strlit("");
            assert(gap@ =~= spaces(43));
        }
        let mut s = "\u{b7} idle".to_owned();
        s.append(gap.as_str());
        s
    };
    s.append("  ");
    s.append(rate);
    s.append(" MB/s  (");
    add_number(&mut s, w.files_done);
    s.append(" done)");
    s
}

/// Two digits, with a zero in front where one is enough.
pub open spec fn two_digits(n: nat) -> Seq<char> {
    if n < 10 {
        "0"@ + decimal(n)
    } else {
        decimal(n)
    }
}

/// The time left, in minutes and seconds; an ellipsis where it is not known.
pub open spec fn eta_text(secs: Option<u64>) -> Seq<char> {
    match secs {
        Some(s) => decimal(s as nat / 60) + "m"@ + two_digits(s as nat % 60) + "s"@,
        None => "\u{2026}"@,
    }
}

pub fn eta_label(secs: Option<u64>) -> (r: String)
    ensures
        r@ == eta_text(secs),
{
    match secs {
        None => "\u{2026}".to_owned(),
        Some(n) => {
            let mut s = crate::text::decimal_text(n / 60);
            s.append("m");
            let rest: u64 = n % 60;
            let mut tail = String::new();
            if rest < 10 {
                tail = "0".to_owned();
            }
            assert(rest >= 10 ==> tail@ + decimal(rest as nat) =~= decimal(rest as nat));
            add_number(&mut tail, rest);
            s.append(tail.as_str());
            s.append("s");
            s
        },
    }
}

/// The label of the gauge, given sizes and rate in megabytes as text.
pub open spec fn gauge_text(
    done: Seq<char>,
    total: Seq<char>,
    done_files: u64,
    total_files: u64,
    rate: Seq<char>,
    secs: Option<u64>,
) -> Seq<char> {
    done + " MB / "@ + total + " MB  \u{2022}  "@ + decimal(done_files as nat) + " / "@ + decimal(
        total_files as nat,
    ) + " files  \u{2022}  "@ + rate + " MB/s  \u{2022}  ETA "@ + eta_text(secs)
        + "  \u{2022}  press q to cancel"@
}

pub fn gauge_label(
    done: &str,
    total: &str,
    done_files: u64,
    total_files: u64,
    rate: &str,
    secs: Option<u64>,
) -> (r: String)
    ensures
        r@ == gauge_text(done@, total@, done_files, total_files, rate@, secs),
{
    let mut s = done.to_owned();
    s.append(" MB / ");
    s.append(total);
    s.append(" MB  \u{2022}  ");
    add_number(&mut s, done_files);
    s.append(" / ");
    add_number(&mut s, total_files);
    s.append(" files  \u{2022}  ");
    s.append(rate);
    s.append(" MB/s  \u{2022}  ETA ");
    let eta = eta_label(secs);
    s.append(eta.as_str());
    s.append("  \u{2022}  press q to cancel");
    s
}

/// A shortened text is never longer than asked for, and ends as the whole
/// does.
pub proof fn law_shortened_fits(t: Seq<char>, n: nat)
    requires
        n > 0,
    ensures
        shortened(t, n).len() <= n,
        t.len() > n ==> shortened(t, n).len() == n && shortened(t, n).drop_first() == t.skip(
            t.len() - (n - 1),
        ),
{
    if t.len() > n {
        assert(shortened(t, n).drop_first() =~= t.skip(t.len() - (n - 1)));
    }
}

/// The share that is done, counted down to whole per cent: none of nothing, all
/// where all is done, and otherwise the greatest number of hundredths that fits.
pub proof fn law_percent_is_counted_down(done: u64, total: u64)
    ensures
        total == 0 ==> percent_of(done, total) == 0,
        total > 0 && done >= total ==> percent_of(done, total) == 100,
        total > 0 && done < total ==> percent_of(done, total) * total <= done * 100 < (percent_of(
            done,
            total,
        ) + 1) * total,
{
    if total > 0 {
        let t = total as int;
        let x = (if done < total {
            done
        } else {
            total
        }) * 100;
        vstd::arithmetic::div_mod::lemma_fundamental_div_mod(x, t);
        vstd::arithmetic::div_mod::lemma_mod_bound(x, t);
        let q = x / t;
        assert(t * q == q * t) by (nonlinear_arith);
        assert((q + 1) * t == q * t + t) by (nonlinear_arith);
        if done >= total {
            assert(q == 100) by (nonlinear_arith)
                requires
                    t > 0,
                    x == t * 100,
                    q * t <= x,
                    x < q * t + t,
            ;
        }
    }
}

/// A counter stops at the highest number.
pub proof fn law_counters_stop(a: u64, b: u64)
    ensures
        a + b <= 0xFFFF_FFFF_FFFF_FFFF ==> capped_sum(a, b) == a + b,
        a + b > 0xFFFF_FFFF_FFFF_FFFF ==> capped_sum(a, b) == 0xFFFF_FFFF_FFFF_FFFF,
{
}

/// A worker that rests has no file and nothing to do.
pub proof fn law_resting_workers(files_done: u64)
    ensures
        idle(files_done).file.len() == 0,
        idle(files_done).size == 0,
        !idle(files_done).busy,
        idle(files_done).files_done == files_done,
{
}

/// A name that is too long keeps its end, behind an ellipsis; another is kept
/// whole.
pub proof fn law_shortened_keeps_the_end(t: Seq<char>, n: nat, i: int)
    requires
        n > 0,
    ensures
        t.len() <= n ==> shortened(t, n) == t,
        t.len() > n ==> shortened(t, n).len() == n && shortened(t, n)[0] == '\u{2026}',
        t.len() > n && 1 <= i < n ==> shortened(t, n)[n - i] == t[t.len() - i],
{
}

/// A name is filled up with spaces behind it, and never cut.
pub proof fn law_padded_is_filled_up(t: Seq<char>, width: nat, i: int)
    ensures
        padded(t, width).len() == (if t.len() < width {
            width
        } else {
            t.len()
        }),
        0 <= i < t.len() ==> padded(t, width)[i] == t[i],
        t.len() <= i < width ==> padded(t, width)[i] == ' ',
{
}

/// The line on a worker: the file it is at in 50 columns, or 49 columns that
/// say that it rests; then its rate and how many files it has done.
pub proof fn law_worker_lines(w: Row, rate: Seq<char>)
    ensures
        ({
            let n = if w.busy {
                50int
            } else {
                49
            };
            let front = row_text(w, rate).take(n);
            &&& row_text(w, rate).skip(n) == "  "@ + rate + " MB/s  ("@ + decimal(
                w.files_done as nat,
            ) + " done)"@
            &&& w.busy ==> front == "\u{25b6} "@ + padded(shortened(w.file, 48), 48)
            &&& !w.busy ==> front.take(6) == "\u{b7} idle"@ && forall|i: int|
                6 <= i < 49 ==> #[trigger] front[i] == ' '
        }),
{
    reveal_strlit("\u{25b6} ");
    reveal_strlit("\u{b7} idle");
    let tail = "  "@ + rate + " MB/s  ("@ + decimal(w.files_done as nat) + " done)"@;
    law_shortened_fits(w.file, 48);
    let head = if w.busy {
        "\u{25b6} "@ + padded(shortened(w.file, 48), 48)
    } else {
        "\u{b7} idle"@ + spaces(43)
    };
    assert(row_text(w, rate) =~= head + tail);
    assert((head + tail).take(head.len() as int) =~= head);
    assert((head + tail).skip(head.len() as int) =~= tail);
    assert("\u{b7} idle"@.len() == 6);
    assert(!w.busy ==> head.take(6) =~= "\u{b7} idle"@);
}

/// The time left is told in minutes and seconds, the seconds with two digits.
pub proof fn law_time_left(minutes: u64, seconds: u64)
    requires
        seconds < 60,
        minutes * 60 + seconds <= u64::MAX,
    ensures
        ({
            let t = eta_text(Some((minutes * 60 + seconds) as u64));
            &&& seconds >= 10 ==> t == decimal(minutes as nat) + "m"@ + decimal(seconds as nat) + "s"@
            &&& seconds < 10 ==> t == decimal(minutes as nat) + "m0"@ + decimal(seconds as nat)
                + "s"@
        }),
        eta_text(None) == seq!['\u{2026}'],
{
    reveal_strlit("m");
    reveal_strlit("0");
    reveal_strlit("m0");
    reveal_strlit("\u{2026}");
    let s = (minutes * 60 + seconds) as u64;
    assert(s as nat / 60 == minutes as nat);
    assert(s as nat % 60 == seconds as nat);
    let m = decimal(minutes as nat);
    let d = decimal(seconds as nat);
    assert(m + "m"@ + ("0"@ + d) + "s"@ =~= m + "m0"@ + d + "s"@);
    assert("\u{2026}"@ =~= seq!['\u{2026}']);
}

/// The label of the gauge: bytes, files, rate and time left, what is done
/// before what there is.
pub proof fn law_gauge_label(
    done: Seq<char>,
    total: Seq<char>,
    done_files: u64,
    total_files: u64,
    rate: Seq<char>,
    secs: Option<u64>,
)
    ensures
        gauge_text(done, total, done_files, total_files, rate, secs) == (done + " MB / "@ + total
            + " MB  \u{2022}  "@) + (decimal(done_files as nat) + " / "@ + decimal(
            total_files as nat,
        ) + " files  \u{2022}  "@) + (rate + " MB/s  \u{2022}  ETA "@ + eta_text(secs)
            + "  \u{2022}  press q to cancel"@),
{
    assert(gauge_text(done, total, done_files, total_files, rate, secs) =~= (done + " MB / "@
        + total + " MB  \u{2022}  "@) + (decimal(done_files as nat) + " / "@ + decimal(
        total_files as nat,
    ) + " files  \u{2022}  "@) + (rate + " MB/s  \u{2022}  ETA "@ + eta_text(secs)
        + "  \u{2022}  press q to cancel"@));
}

/// What is told of a worker.
pub proof fn law_worker_view(w: WorkerRow)
    ensures
        w@.file == w.file@,
        w@.size == w.size,
        w@.busy == w.busy,
        w@.files_done == w.files_done,
{
}

} // verus!
