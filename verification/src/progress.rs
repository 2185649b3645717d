//! How the progress of a run is shown.

use vstd::prelude::*;
use vstd::string::StringExecFns;

use crate::text::add_number;
#[allow(unused_imports)]
use crate::text::decimal;

verus! {

/// How progress is shown. It is chosen once.
#[derive(Copy, Clone, Debug, PartialEq, Eq, Structural)]
pub enum ProgressMode {
    /// Not at all.
    Hidden,
    /// As a part of a total that is known.
    Gauge,
    /// As a running count.
    Spinner,
}

pub fn progress_mode(total_bytes: u64, quiet: bool) -> (m: ProgressMode)
    ensures
        m == (if quiet {
            ProgressMode::Hidden
        } else if total_bytes > 0 {
            ProgressMode::Gauge
        } else {
            ProgressMode::Spinner
        }),
{
    if quiet {
        ProgressMode::Hidden
    } else if total_bytes > 0 {
        ProgressMode::Gauge
    } else {
        ProgressMode::Spinner
    }
}

/// The message before the first file is done.
pub open spec fn first_message_text(mode: ProgressMode, total_files: u64) -> Seq<char> {
    match mode {
        ProgressMode::Hidden => ""@,
        ProgressMode::Gauge => "0/"@ + decimal(total_files as nat) + " files"@,
        ProgressMode::Spinner => "scanning\u{2026}"@,
    }
}

pub fn first_message(mode: ProgressMode, total_files: u64) -> (r: String)
    ensures
        r@ == first_message_text(mode, total_files),
{
    match mode {
        ProgressMode::Hidden => "".to_owned(),
        ProgressMode::Gauge => {
            let mut s = "0/".to_owned();
            add_number(&mut s, total_files);
            s.append(" files");
            s
        },
        ProgressMode::Spinner => "scanning\u{2026}".to_owned(),
    }
}

/// Nothing is said where progress is hidden. A gauge starts at no file of all,
/// and without a total the scan is announced.
pub proof fn law_first_messages(total_files: u64)
    ensures
        first_message_text(ProgressMode::Hidden, total_files).len() == 0,
        first_message_text(ProgressMode::Gauge, total_files) == seq!['0', '/'] + decimal(
            total_files as nat,
        ) + " files"@,
        first_message_text(ProgressMode::Spinner, total_files) == "scanning\u{2026}"@,
{
    reveal_strlit("");
    reveal_strlit("0/");
    assert("0/"@ =~= seq!['0', '/']);
}

} // verus!
