//! Command-line settings and the rules that turn them into run options.

use vstd::prelude::*;

use crate::path::extension;
#[allow(unused_imports)]
use crate::path::extension_of;
use crate::text::{eq_ignore_ascii_case, from_chars, lines, parse_number, to_chars};
#[allow(unused_imports)]
use crate::text::{ascii_lowered, law_lines, lines_of, number_of, texts};

verus! {

/// Which of the settings that are tuned automatically were given on the
/// command line. Tuning leaves those alone.
#[derive(Copy, Clone, Debug, PartialEq, Eq, Structural)]
pub struct UserSetFlags {
    pub keep_cache: bool,
    pub read_jobs: bool,
    pub dispatch_io: bool,
}

impl Default for UserSetFlags {
    /// Nothing was set.
    fn default() -> (f: Self)
        ensures
            f == (UserSetFlags { keep_cache: false, read_jobs: false, dispatch_io: false }),
    {
        UserSetFlags { keep_cache: false, read_jobs: false, dispatch_io: false }
    }
}

/// How the body of an entry is compressed.
#[derive(Copy, Clone, Debug, PartialEq, Eq, Structural)]
pub enum Method {
    Store,
    Deflate,
    Bzip2,
    Lzma,
    Xz,
    Zstd,
}

/// The command line as it was given. Paths are the bytes of the file system.
#[derive(Debug)]
pub struct Args {
    pub archive: Vec<u8>,
    pub paths: Vec<Vec<u8>>,
    pub method: Method,
    pub level: u32,
    pub solid: bool,
    pub tui: bool,
    /// Workers that compress and encrypt.
    pub jobs: Option<usize>,
    /// Readers: a number, or `auto`.
    pub read_jobs: String,
    /// Threads that scan directories.
    pub walk_jobs: Option<usize>,
    pub classic_walk: bool,
    pub dispatch_io: bool,
    pub usb_info: bool,
    /// The password, or `-` to be asked for it.
    pub password: Option<String>,
    pub password_file: Option<Vec<u8>>,
    pub sort: bool,
    pub exclude: Vec<String>,
    pub quiet: bool,
    pub verbose: bool,
    pub keep_cache: bool,
    pub streaming: bool,
}

/// What a run goes by.
#[derive(Clone, Debug)]
pub struct Options {
    pub archive: Vec<u8>,
    pub paths: Vec<Vec<u8>>,
    pub method: Method,
    pub level: u32,
    pub cpu_jobs: usize,
    pub read_jobs: usize,
    pub walk_jobs: usize,
    pub password: Option<String>,
    pub sort: bool,
    pub exclude: Vec<String>,
    pub quiet: bool,
    pub verbose: bool,
    pub keep_cache: bool,
    pub streaming: bool,
    pub solid: bool,
    pub tui: bool,
    pub classic_walk: bool,
    pub dispatch_io: bool,
    pub usb_info: bool,
    pub user_flags: UserSetFlags,
}

/// Where the password comes from.
#[derive(Debug)]
pub enum PasswordSource {
    /// There is none, or it was given and stands in the options.
    Settled,
    /// The first line of a file.
    File(Vec<u8>),
    /// The user is asked.
    Prompt,
}

/// What is wrong with the settings.
#[derive(Copy, Clone, Debug, PartialEq, Eq, Structural)]
pub enum CliError {
    /// The number of readers is neither a number nor `auto`.
    InvalidReadJobs,
    /// There have to be readers.
    ZeroReadJobs,
    EmptyPasswordFile,
    EmptyPassword,
}

/// `n`, but at most `high` and at least one.
pub open spec fn between_one_and(n: usize, high: usize) -> usize {
    if n == 0 {
        1
    } else if n > high {
        high
    } else {
        n
    }
}

/// Number of workers on a machine with `cores` cores.
pub open spec fn cpu_jobs_of(jobs: Option<usize>, cores: usize) -> usize {
    match jobs {
        Some(n) => n,
        None => if cores == 0 {
            1
        } else {
            cores
        },
    }
}

/// Number of readers beside `cpu_jobs` workers.
pub open spec fn read_jobs_of(text: Seq<char>, cpu_jobs: usize) -> Result<usize, CliError> {
    if ascii_lowered(text) == ascii_lowered("auto"@) {
        Ok(between_one_and(cpu_jobs, 8))
    } else {
        match number_of(text, usize::MAX as nat) {
            None => Err(CliError::InvalidReadJobs),
            Some(n) => if n == 0 {
                Err(CliError::ZeroReadJobs)
            } else {
                Ok(n as usize)
            },
        }
    }
}

/// Whether a path has the extension `7z`, in either case.
pub open spec fn names_7z(path: Seq<u8>) -> bool {
    extension_of(path) is Some && extension_of(path)->0.len() == 2 && extension_of(path)->0[0] == 55
        && (extension_of(path)->0[1] == 122 || extension_of(path)->0[1] == 90)
}

/// The password that stands in the settings themselves.
pub open spec fn given_password(args: Args) -> Option<String> {
    if args.password_file is None && args.password is Some && args.password->0@ != "-"@ {
        args.password
    } else {
        None
    }
}

/// Where the password comes from: a file before a question to the user.
pub open spec fn source_of(args: Args) -> PasswordSource {
    match args.password_file {
        Some(f) => PasswordSource::File(f),
        None => if args.password is Some && args.password->0@ == "-"@ {
            PasswordSource::Prompt
        } else {
            PasswordSource::Settled
        },
    }
}

/// The options of a run on a machine with `cores` cores.
pub open spec fn options_of(args: Args, flags: UserSetFlags, cores: usize) -> Options {
    let cpu_jobs = cpu_jobs_of(args.jobs, cores);
    Options {
        archive: args.archive,
        paths: args.paths,
        method: args.method,
        level: args.level,
        cpu_jobs,
        read_jobs: read_jobs_of(args.read_jobs@, cpu_jobs)->Ok_0,
        walk_jobs: match args.walk_jobs {
            Some(n) => n,
            None => between_one_and(cpu_jobs, 4),
        },
        password: given_password(args),
        sort: args.sort,
        exclude: args.exclude,
        quiet: args.quiet,
        verbose: args.verbose,
        keep_cache: args.keep_cache,
        streaming: args.streaming,
        solid: args.solid || names_7z(args.archive@),
        tui: args.tui,
        classic_walk: args.classic_walk,
        dispatch_io: args.dispatch_io,
        usb_info: args.usb_info,
        user_flags: flags,
    }
}

/// `num_cpus::get_physical`: the number of cores of the machine, about which
/// nothing is claimed.
#[verifier::external_body]
fn physical_cores() -> (n: usize) {
    num_cpus::get_physical()
}

fn clamp_jobs(n: usize, high: usize) -> (r: usize)
    requires
        high >= 1,
    ensures
        r == between_one_and(n, high),
{
    if n == 0 {
        1
    } else if n > high {
        high
    } else {
        n
    }
}

/// Number of readers that a setting asks for.
pub fn parse_read_jobs(text: &str, cpu_jobs: usize) -> (r: Result<usize, CliError>)
    ensures
        r == read_jobs_of(text@, cpu_jobs),
{
    if eq_ignore_ascii_case(text, "auto") {
        return Ok(clamp_jobs(cpu_jobs, 8));
    }
    let t = to_chars(text);
    match parse_number(t.as_slice(), usize::MAX as u64) {
        None => Err(CliError::InvalidReadJobs),
        Some(n) => {
            if n == 0 {
                Err(CliError::ZeroReadJobs)
            } else {
                Ok(n as usize)
            }
        },
    }
}

/// Whether an archive path asks for the 7z format.
pub fn is_7z_path(path: &[u8]) -> (r: bool)
    ensures
        r == names_7z(path@),
{
    match extension(path) {
        None => false,
        Some(e) => e.len() == 2 && e[0] == 55 && (e[1] == 122 || e[1] == 90),
    }
}

impl Args {
    /// The options of a run, and where the password is still to come from.
    pub fn into_options(self, user_flags: UserSetFlags) -> (r: Result<
        (Options, PasswordSource),
        CliError,
    >)
        ensures
            exists|cores: usize|
                {
                    let jobs = #[trigger] cpu_jobs_of(self.jobs, cores);
                    match read_jobs_of(self.read_jobs@, jobs) {
                        Err(e) => r == Err::<(Options, PasswordSource), CliError>(e),
                        Ok(_) => r == Ok::<(Options, PasswordSource), CliError>(
                            (options_of(self, user_flags, cores), source_of(self)),
                        ),
                    }
                },
    {
        let cores: usize = physical_cores();
        let ghost jobs = cpu_jobs_of(self.jobs, cores);
        self.into_options_with(user_flags, cores)
    }

    /// The same for a given number of cores.
    pub fn into_options_with(self, user_flags: UserSetFlags, cores: usize) -> (r: Result<
        (Options, PasswordSource),
        CliError,
    >)
        ensures
            match read_jobs_of(self.read_jobs@, cpu_jobs_of(self.jobs, cores)) {
                Err(e) => r == Err::<(Options, PasswordSource), CliError>(e),
                Ok(_) => r == Ok::<(Options, PasswordSource), CliError>(
                    (options_of(self, user_flags, cores), source_of(self)),
                ),
            },
    {
        let cpu_jobs: usize = match self.jobs {
            Some(n) => n,
            None => if cores == 0 {
                1
            } else {
                cores
            },
        };
        let read_jobs: usize = match parse_read_jobs(self.read_jobs.as_str(), cpu_jobs) {
            Err(e) => {
                return Err(e);
            },
            Ok(n) => n,
        };
        let walk_jobs: usize = match self.walk_jobs {
            Some(n) => n,
            None => clamp_jobs(cpu_jobs, 4),
        };
        let solid = self.solid || is_7z_path(self.archive.as_slice());
        let ghost args = self;
        let mut password: Option<String> = None;
        let source = match self.password_file {
            Some(f) => PasswordSource::File(f),
            None => match self.password {
                None => PasswordSource::Settled,
                Some(s) => {
                    if s == "-".to_owned() {
                        PasswordSource::Prompt
                    } else {
                        password = Some(s);
                        PasswordSource::Settled
                    }
                },
            },
        };
        assert(password == given_password(args));
        Ok(
            (
                Options {
                    archive: self.archive,
                    paths: self.paths,
                    method: self.method,
                    level: self.level,
                    cpu_jobs,
                    read_jobs,
                    walk_jobs,
                    password,
                    sort: self.sort,
                    exclude: self.exclude,
                    quiet: self.quiet,
                    verbose: self.verbose,
                    keep_cache: self.keep_cache,
                    streaming: self.streaming,
                    solid,
                    tui: self.tui,
                    classic_walk: self.classic_walk,
                    dispatch_io: self.dispatch_io,
                    usb_info: self.usb_info,
                    user_flags,
                },
                source,
            ),
        )
    }
}

/// The first line of a text.
pub open spec fn first_line(text: Seq<char>) -> Seq<char> {
    if lines_of(text).len() == 0 {
        Seq::empty()
    } else {
        lines_of(text)[0]
    }
}

/// The first line of a text, unless it is empty.
fn line_in(text: &str) -> (r: Option<String>)
    ensures
        first_line(text@).len() == 0 <==> r is None,
        r is Some ==> r->0@ == first_line(text@),
{
    let t = to_chars(text);
    let ls = lines(t.as_slice());
    assert(texts(ls@).len() == ls@.len());
    if ls.len() == 0 {
        return None;
    }
    assert(texts(ls@)[0] == ls@[0]@);
    if ls[0].len() == 0 {
        None
    } else {
        Some(from_chars(ls[0].as_slice()))
    }
}

/// The password that a file holds: its first line, which must not be empty.
pub fn password_in_file(text: &str) -> (r: Result<String, CliError>)
    ensures
        first_line(text@).len() == 0 <==> r is Err,
        r is Err ==> r->Err_0 == CliError::EmptyPasswordFile,
        r is Ok ==> r->Ok_0@ == first_line(text@),
{
    match line_in(text) {
        Some(pw) => Ok(pw),
        None => Err(CliError::EmptyPasswordFile),
    }
}

/// The password that comes in by standard input where nobody can be asked: its
/// first line, which must not be empty.
pub fn password_piped(text: &str) -> (r: Result<String, CliError>)
    ensures
        first_line(text@).len() == 0 <==> r is Err,
        r is Err ==> r->Err_0 == CliError::EmptyPassword,
        r is Ok ==> r->Ok_0@ == first_line(text@),
{
    match line_in(text) {
        Some(pw) => Ok(pw),
        None => Err(CliError::EmptyPassword),
    }
}

/// The password that the user typed, which must not be empty.
pub fn password_typed(pw: String) -> (r: Result<String, CliError>)
    ensures
        pw@.len() == 0 <==> r is Err,
        r is Err ==> r->Err_0 == CliError::EmptyPassword,
        r is Ok ==> r->Ok_0 == pw,
{
    if pw.as_str().is_empty() {
        Err(CliError::EmptyPassword)
    } else {
        Ok(pw)
    }
}

/// There is always a reader, and without settings also a worker and a thread
/// that scans.
pub proof fn law_jobs_are_positive(args: Args, flags: UserSetFlags, cores: usize)
    requires
        read_jobs_of(args.read_jobs@, cpu_jobs_of(args.jobs, cores)) is Ok,
    ensures
        options_of(args, flags, cores).read_jobs >= 1,
        args.jobs is None ==> options_of(args, flags, cores).cpu_jobs >= 1,
        args.walk_jobs is None ==> options_of(args, flags, cores).walk_jobs >= 1,
{
}

/// The number of readers: `auto`, in whatever case, is the number of workers
/// but from 1 to 8; anything else is a number, which must not be zero.
pub proof fn law_read_jobs(text: Seq<char>, cpu_jobs: usize)
    ensures
        ({
            let r = read_jobs_of(text, cpu_jobs);
            let auto = ascii_lowered(text) == seq!['a', 'u', 't', 'o'];
            let n = number_of(text, usize::MAX as nat);
            &&& auto && cpu_jobs == 0 ==> r == Ok::<usize, CliError>(1)
            &&& auto && 1 <= cpu_jobs <= 8 ==> r == Ok::<usize, CliError>(cpu_jobs)
            &&& auto && cpu_jobs > 8 ==> r == Ok::<usize, CliError>(8)
            &&& !auto && n is None ==> r == Err::<usize, CliError>(CliError::InvalidReadJobs)
            &&& !auto && n == Some(0nat) ==> r == Err::<usize, CliError>(CliError::ZeroReadJobs)
            &&& !auto && n is Some && n->0 > 0 ==> r is Ok && r->Ok_0 == n->0
        }),
{
    reveal_strlit("auto");
    assert("auto"@ =~= seq!['a', 'u', 't', 'o']);
    assert(ascii_lowered("auto"@) =~= "auto"@);
}

/// The settings go into the options unchanged. The numbers of workers and of
/// threads that scan are taken from the cores where they are not set, and a
/// path that ends in `.7z` asks for a solid archive as the setting does.
pub proof fn law_options_keep_the_settings(args: Args, flags: UserSetFlags, cores: usize)
    ensures
        ({
            let o = options_of(args, flags, cores);
            let e = extension_of(args.archive@);
            &&& o.archive == args.archive && o.paths == args.paths
            &&& o.method == args.method && o.level == args.level
            &&& args.jobs matches Some(n) ==> o.cpu_jobs == n
            &&& args.jobs is None && cores > 0 ==> o.cpu_jobs == cores
            &&& args.jobs is None && cores == 0 ==> o.cpu_jobs == 1
            &&& read_jobs_of(args.read_jobs@, o.cpu_jobs) matches Ok(n) ==> o.read_jobs == n
            &&& args.walk_jobs matches Some(n) ==> o.walk_jobs == n
            &&& args.walk_jobs is None && o.cpu_jobs == 0 ==> o.walk_jobs == 1
            &&& args.walk_jobs is None && 1 <= o.cpu_jobs <= 4 ==> o.walk_jobs == o.cpu_jobs
            &&& args.walk_jobs is None && o.cpu_jobs > 4 ==> o.walk_jobs == 4
            &&& o.sort == args.sort && o.exclude == args.exclude
            &&& o.quiet == args.quiet && o.verbose == args.verbose
            &&& o.keep_cache == args.keep_cache && o.streaming == args.streaming
            &&& o.tui == args.tui && o.classic_walk == args.classic_walk
            &&& o.dispatch_io == args.dispatch_io && o.usb_info == args.usb_info
            &&& o.user_flags == flags
            &&& o.solid <==> args.solid || e == Some(seq![55u8, 122u8]) || e == Some(
                seq![55u8, 90u8],
            )
        }),
{
    let e = extension_of(args.archive@);
    if e is Some && e->0.len() == 2 && e->0[0] == 55 {
        if e->0[1] == 122 {
            assert(e->0 =~= seq![55u8, 122u8]);
        }
        if e->0[1] == 90 {
            assert(e->0 =~= seq![55u8, 90u8]);
        }
    }
}

/// A file for the password comes before a password in the settings, and a
/// single dash there asks for it.
pub proof fn law_where_the_password_comes_from(args: Args, flags: UserSetFlags, cores: usize)
    ensures
        ({
            let o = options_of(args, flags, cores);
            let from = source_of(args);
            &&& args.password_file matches Some(f) ==> o.password is None && from
                == PasswordSource::File(f)
            &&& args.password_file is None && args.password is None ==> o.password is None && from
                == PasswordSource::Settled
            &&& args.password_file is None ==> (args.password matches Some(p) ==> {
                &&& p@ == seq!['-'] ==> o.password is None && from == PasswordSource::Prompt
                &&& p@ != seq!['-'] ==> o.password == Some(p) && from == PasswordSource::Settled
            })
        }),
{
    reveal_strlit("-");
    assert("-"@ =~= seq!['-']);
}

/// Which names ask for the 7z format: those whose extension is `7z`, with
/// either letter.
pub proof fn law_names_of_solid_archives(path: Seq<u8>)
    ensures
        names_7z(path) <==> extension_of(path) == Some(seq![55u8, 122u8]) || extension_of(path)
            == Some(seq![55u8, 90u8]),
{
    let e = extension_of(path);
    if e is Some && e->0.len() == 2 && e->0[0] == 55 {
        if e->0[1] == 122 {
            assert(e->0 =~= seq![55u8, 122u8]);
        }
        if e->0[1] == 90 {
            assert(e->0 =~= seq![55u8, 90u8]);
        }
    }
}

/// The first line of a text, without what ends it; there is none in an empty
/// text.
pub proof fn law_first_line(line: Seq<char>, rest: Seq<char>)
    requires
        forall|i: int| 0 <= i < line.len() ==> #[trigger] line[i] != '\n',
    ensures
        first_line(line) == line,
        line.len() == 0 || line[line.len() - 1] != '\r' ==> first_line(line + seq!['\n'] + rest)
            == line,
        first_line(line + seq!['\r', '\n'] + rest) == line,
{
    law_lines(line, rest);
    assert(line.len() == 0 ==> line =~= Seq::empty());
}

} // verus!
