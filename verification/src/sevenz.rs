//! How a solid archive in the 7z format is written.

use vstd::prelude::*;
use vstd::string::StringExecFns;

use crate::cli::Options;
use crate::text::add_number;
#[allow(unused_imports)]
use crate::text::decimal;

verus! {

/// The settings of a solid archive.
#[derive(Copy, Clone, Debug, PartialEq, Eq, Structural)]
pub struct SolidPlan {
    /// LZMA2 preset.
    pub preset: u32,
    /// Contents are encrypted before they are compressed.
    pub encrypt_content: bool,
    /// Names are encrypted as well.
    pub encrypt_header: bool,
}

/// The settings that options ask for.
pub open spec fn solid_plan_of(o: Options) -> SolidPlan {
    SolidPlan {
        preset: if o.level > 9 {
            9
        } else {
            o.level
        },
        encrypt_content: o.password is Some && o.password->0@.len() != 0,
        encrypt_header: o.password is Some,
    }
}

pub fn solid_plan(opts: &Options) -> (p: SolidPlan)
    ensures
        p == solid_plan_of(*opts),
{
    let encrypt_content = match &opts.password {
        Some(pw) => !pw.as_str().is_empty(),
        None => false,
    };
    SolidPlan {
        preset: if opts.level > 9 {
            9
        } else {
            opts.level
        },
        encrypt_content,
        encrypt_header: opts.password.is_some(),
    }
}

/// The note that several workers make no difference.
pub open spec fn jobs_note_text(jobs: usize) -> Seq<char> {
    "note: .7z solid is single-threaded (sevenz-rust 0.6 lacks MT-LZMA2); --jobs "@ + decimal(
        jobs as nat,
    ) + " unused"@
}

/// The note that several workers make no difference, where they were asked for
/// and the run is verbose.
pub fn jobs_note(opts: &Options) -> (r: Option<String>)
    ensures
        r is Some <==> opts.verbose && opts.cpu_jobs > 1,
        r is Some ==> r->0@ == jobs_note_text(opts.cpu_jobs),
{
    if opts.verbose && opts.cpu_jobs > 1 {
        let mut s =
            "note: .7z solid is single-threaded (sevenz-rust 0.6 lacks MT-LZMA2); --jobs ".to_owned();
        add_number(&mut s, opts.cpu_jobs as u64);
        s.append(" unused");
        Some(s)
    } else {
        None
    }
}

/// A solid archive is made at the level that was asked for, or at 9 where that
/// is above 9. Its header is encrypted where there is a password, its content
/// where that is not empty.
pub proof fn law_solid_plan(o: Options)
    ensures
        o.level <= 9 ==> solid_plan_of(o).preset == o.level,
        o.level > 9 ==> solid_plan_of(o).preset == 9,
        solid_plan_of(o).encrypt_header <==> o.password is Some,
        solid_plan_of(o).encrypt_content <==> (o.password matches Some(p) && p@.len() > 0),
{
}

/// The note names the number of workers.
pub proof fn law_jobs_note(jobs: usize)
    ensures
        jobs_note_text(jobs)
            == "note: .7z solid is single-threaded (sevenz-rust 0.6 lacks MT-LZMA2); --jobs "@ + (
        decimal(jobs as nat) + " unused"@),
{
    assert(jobs_note_text(jobs)
        =~= "note: .7z solid is single-threaded (sevenz-rust 0.6 lacks MT-LZMA2); --jobs "@ + (
    decimal(jobs as nat) + " unused"@));
}

} // verus!
