//! The arguments of the programs.

use crate::number::{int32, parse_i32};
use crate::text::{begins, chars_of, same_str, starts_with, string_of};
use crate::text::{join_path, joined};
use vstd::prelude::*;
use vstd::slice::slice_subrange;
use vstd::utf8::encode_utf8;

verus! {

/// The columns of a terminal that nobody has sized.
pub const DEFAULT_COLS: u16 = 80;

/// The rows of a terminal that nobody has sized.
pub const DEFAULT_ROWS: u16 = 24;

/// The port on which clients are served.
pub const DEFAULT_WS_PORT: u16 = 7878;

/// Why the arguments were refused.
#[derive(Debug, Clone, Copy, PartialEq, Eq, Structural)]
pub enum ArgErr {
    /// `--headless-screenshot=` without a path.
    EmptyPath,
    /// `--headless-screenshot` without `=`.
    MissingEquals,
    /// What should be a number of a file descriptor is none.
    NotADescriptor,
    /// The number of a file descriptor is negative.
    NegativeDescriptor,
    /// Only one of `--fed-in` and `--fed-out`.
    HalfPair,
    /// There is no directory for the socket, and no `--socket`.
    NoRuntimeDir,
}

/// Where the bytes of the terminals come from.
#[derive(Debug, Clone, PartialEq, Eq)]
pub enum SourceConfig {
    /// The daemon runs a shell of its own.
    Local,
    /// One window, over two pipes.
    Fed { read_fd: i32, write_fd: i32 },
    /// Any number of windows, which connect at this path.
    Federated { rendezvous_path: String },
}

/// What the daemon is started with.
#[derive(Debug, Clone, PartialEq, Eq)]
pub struct DaemonConfig {
    pub socket_path: String,
    /// The address and port on which clients are served.
    pub ws_bind: String,
    pub cols: u16,
    pub rows: u16,
    pub source: SourceConfig,
}

impl DaemonConfig {
    /// The defaults, with this path. Clients are served on every address.
    pub fn with_socket(socket_path: String) -> (r: Self)
        ensures
            r.socket_path@ == socket_path@,
            r.ws_bind@ == "0.0.0.0:7878"@,
            r.cols == DEFAULT_COLS,
            r.rows == DEFAULT_ROWS,
            r.source is Local,
    {
        DaemonConfig {
            socket_path,
            ws_bind: "0.0.0.0:7878".to_owned(),
            cols: DEFAULT_COLS,
            rows: DEFAULT_ROWS,
            source: SourceConfig::Local,
        }
    }
}

/// What follows `prefix` in `s`; none where `s` does not begin with it.
pub open spec fn behind(s: Seq<char>, prefix: Seq<char>) -> Option<Seq<char>> {
    if begins(s, prefix) {
        Some(s.skip(prefix.len() as int))
    } else {
        None
    }
}

/// What follows `prefix` in the first argument from `i` on that begins with
/// it.
pub open spec fn value_of(args: Seq<String>, i: int, prefix: Seq<char>) -> Option<Seq<char>>
    decreases args.len() - i,
{
    if i >= args.len() {
        None
    } else if behind(args[i]@, prefix) is Some {
        behind(args[i]@, prefix)
    } else {
        value_of(args, i + 1, prefix)
    }
}

/// What follows `prefix` in `s`.
pub fn strip_prefix(s: &str, prefix: &str) -> (r: Option<String>)
    ensures
        match r {
            Some(rest) => behind(s@, prefix@) == Some(rest@),
            None => behind(s@, prefix@) is None,
        },
{
    let a: Vec<char> = chars_of(s);
    let p: Vec<char> = chars_of(prefix);
    if !starts_with(a.as_slice(), p.as_slice()) {
        return None;
    }
    let rest: &[char] = slice_subrange(a.as_slice(), p.len(), a.len());
    assert(rest@ =~= a@.skip(p@.len() as int));
    Some(string_of(rest))
}

/// What follows `prefix` in the first argument, behind the program's name,
/// that begins with it.
pub fn find_arg(args: &[String], prefix: &str) -> (r: Option<String>)
    ensures
        match r {
            Some(rest) => value_of(args@, 1, prefix@) == Some(rest@),
            None => value_of(args@, 1, prefix@) is None,
        },
{
    let mut i: usize = 1;
    while i < args.len()
        invariant
            1 <= i,
            value_of(args@, i as int, prefix@) == value_of(args@, 1, prefix@),
        decreases args@.len() - i,
    {
        let found: Option<String> = strip_prefix(args[i].as_str(), prefix);
        if found.is_some() {
            return found;
        }
        i = i + 1;
    }
    None
}

/// Where the daemon listens where nothing else is asked for: in the directory
/// of what runs for the user.
pub fn default_socket_path(runtime_dir: Option<&str>) -> (r: Result<String, ArgErr>)
    ensures
        match runtime_dir {
            Some(dir) => r matches Ok(path) && path@ == joined(dir@, "quill-kernel.sock"@),
            None => r matches Err(e) && e == ArgErr::NoRuntimeDir,
        },
{
    match runtime_dir {
        Some(dir) => Ok(join_path(dir, "quill-kernel.sock")),
        None => Err(ArgErr::NoRuntimeDir),
    }
}

/// The path in `--socket=<path>`.
pub fn parse_socket_arg(args: &[String]) -> (r: Option<String>)
    ensures
        match r {
            Some(path) => value_of(args@, 1, "--socket="@) == Some(path@),
            None => value_of(args@, 1, "--socket="@) is None,
        },
{
    find_arg(args, "--socket=")
}

/// The address in `--ws-bind=<addr:port>`, as it is written.
pub fn parse_ws_bind_arg(args: &[String]) -> (r: Option<String>)
    ensures
        match r {
            Some(addr) => value_of(args@, 1, "--ws-bind="@) == Some(addr@),
            None => value_of(args@, 1, "--ws-bind="@) is None,
        },
{
    find_arg(args, "--ws-bind=")
}

/// The path in `--rendezvous=<path>`.
pub fn parse_rendezvous_arg(args: &[String]) -> (r: Option<String>)
    ensures
        match r {
            Some(path) => value_of(args@, 1, "--rendezvous="@) == Some(path@),
            None => value_of(args@, 1, "--rendezvous="@) is None,
        },
{
    find_arg(args, "--rendezvous=")
}

/// Whether an argument, behind the program's name, is `--detach`.
pub fn parse_detach_arg(args: &[String]) -> (b: bool)
    ensures
        b <==> exists|i: int| 1 <= i < args@.len() && (#[trigger] args@[i])@ == "--detach"@,
{
    let mut i: usize = 1;
    while i < args.len()
        invariant
            1 <= i,
            forall|j: int| 1 <= j < i && j < args@.len() ==> (#[trigger] args@[j])@ != "--detach"@,
        decreases args@.len() - i,
    {
        if same_str(args[i].as_str(), "--detach") {
            return true;
        }
        i = i + 1;
    }
    false
}

/// The file descriptor that follows `prefix`: none without such an argument,
/// an error where it is not a number or is negative.
pub open spec fn descriptor(args: Seq<String>, prefix: Seq<char>) -> Result<Option<i32>, ArgErr> {
    match value_of(args, 1, prefix) {
        None => Ok(None),
        Some(s) => match int32(encode_utf8(s)) {
            None => Err(ArgErr::NotADescriptor),
            Some(fd) => if fd < 0 {
                Err(ArgErr::NegativeDescriptor)
            } else {
                Ok(Some(fd))
            },
        },
    }
}

/// The file descriptor that follows `prefix`.
pub fn find_fd_arg(args: &[String], prefix: &str) -> (r: Result<Option<i32>, ArgErr>)
    ensures
        r == descriptor(args@, prefix@),
{
    match find_arg(args, prefix) {
        None => Ok(None),
        Some(s) => match parse_i32(s.as_str().as_bytes()) {
            None => Err(ArgErr::NotADescriptor),
            Some(fd) => if fd < 0 {
                Err(ArgErr::NegativeDescriptor)
            } else {
                Ok(Some(fd))
            },
        },
    }
}

/// The pipes in `--fed-in=<fd>` and `--fed-out=<fd>`: both or none.
pub fn parse_fed_source(args: &[String]) -> (r: Result<Option<SourceConfig>, ArgErr>)
    ensures
        match (descriptor(args@, "--fed-in="@), descriptor(args@, "--fed-out="@)) {
            (Err(e), _) => r == Err::<Option<SourceConfig>, ArgErr>(e),
            (Ok(_), Err(e)) => r == Err::<Option<SourceConfig>, ArgErr>(e),
            (Ok(Some(read_fd)), Ok(Some(write_fd))) => r == Ok::<Option<SourceConfig>, ArgErr>(
                Some(SourceConfig::Fed { read_fd, write_fd }),
            ),
            (Ok(None), Ok(None)) => r == Ok::<Option<SourceConfig>, ArgErr>(None),
            _ => r == Err::<Option<SourceConfig>, ArgErr>(ArgErr::HalfPair),
        },
{
    let read: Option<i32> = match find_fd_arg(args, "--fed-in=") {
        Ok(fd) => fd,
        Err(e) => {
            return Err(e);
        },
    };
    let write: Option<i32> = match find_fd_arg(args, "--fed-out=") {
        Ok(fd) => fd,
        Err(e) => {
            return Err(e);
        },
    };
    match (read, write) {
        (Some(read_fd), Some(write_fd)) => Ok(Some(SourceConfig::Fed { read_fd, write_fd })),
        (None, None) => Ok(None),
        _ => Err(ArgErr::HalfPair),
    }
}

/// The path of the first screenshot argument from `i` on.
pub open spec fn screenshot_path(args: Seq<String>, i: int) -> Result<Option<Seq<char>>, ArgErr>
    decreases args.len() - i,
{
    if i >= args.len() {
        Ok(None)
    } else {
        match behind(args[i]@, "--headless-screenshot="@) {
            Some(path) => if path.len() == 0 {
                Err(ArgErr::EmptyPath)
            } else {
                Ok(Some(path))
            },
            None => if args[i]@ == "--headless-screenshot"@ {
                Err(ArgErr::MissingEquals)
            } else {
                screenshot_path(args, i + 1)
            },
        }
    }
}

/// The path in `--headless-screenshot=<path>`. It must not be empty, and the
/// form without `=` is refused.
pub fn parse_headless_screenshot_arg(args: &[String]) -> (r: Result<Option<String>, ArgErr>)
    ensures
        match r {
            Ok(Some(path)) => screenshot_path(args@, 1) == Ok::<Option<Seq<char>>, ArgErr>(
                Some(path@),
            ),
            Ok(None) => screenshot_path(args@, 1) == Ok::<Option<Seq<char>>, ArgErr>(None),
            Err(e) => screenshot_path(args@, 1) == Err::<Option<Seq<char>>, ArgErr>(e),
        },
{
    let mut i: usize = 1;
    while i < args.len()
        invariant
            1 <= i,
            screenshot_path(args@, i as int) == screenshot_path(args@, 1),
        decreases args@.len() - i,
    {
        match strip_prefix(args[i].as_str(), "--headless-screenshot=") {
            Some(path) => {
                if path.as_str().is_empty() {
                    return Err(ArgErr::EmptyPath);
                }
                return Ok(Some(path));
            },
            None => {
                if same_str(args[i].as_str(), "--headless-screenshot") {
                    return Err(ArgErr::MissingEquals);
                }
            },
        }
        i = i + 1;
    }
    Ok(None)
}

proof fn lemma_behind(prefix: Seq<char>, v: Seq<char>)
    ensures
        behind(prefix + v, prefix) == Some(v),
{
    let s = prefix + v;
    assert(s.subrange(0, prefix.len() as int) =~= prefix);
    assert(s.skip(prefix.len() as int) =~= v);
}

/// The argument does not begin with the prefix.
pub open spec fn begins_otherwise(s: Seq<char>, prefix: Seq<char>) -> bool {
    s.len() < prefix.len() || exists|i: int|
        0 <= i < prefix.len() && #[trigger] s[i] != prefix[i]
}

proof fn lemma_begins_otherwise(s: Seq<char>, prefix: Seq<char>)
    requires
        begins_otherwise(s, prefix),
    ensures
        behind(s, prefix) is None,
{
    if begins(s, prefix) {
        let i = choose|i: int| 0 <= i < prefix.len() && #[trigger] s[i] != prefix[i];
        assert(s.subrange(0, prefix.len() as int)[i] == s[i]);
    }
}

proof fn lemma_value_of(args: Seq<String>, i: int, prefix: Seq<char>, k: int, v: Seq<char>)
    requires
        0 <= i <= k,
        forall|j: int| i <= j < k && j < args.len() ==> begins_otherwise((#[trigger] args[j])@, prefix),
        k < args.len() ==> args[k]@ == prefix + v,
    ensures
        value_of(args, i, prefix) == (if k < args.len() {
            Some(v)
        } else {
            None
        }),
    decreases k - i,
{
    if i < k && i < args.len() {
        lemma_begins_otherwise(args[i]@, prefix);
        lemma_value_of(args, i + 1, prefix, k, v);
    } else if i == k && k < args.len() {
        lemma_behind(prefix, v);
    }
}

/// An argument's value is what stands behind the prefix of the first argument,
/// the program's name aside, that begins with it; none where none does.
pub proof fn law_first_argument_counts(args: Seq<String>, prefix: Seq<char>, k: int, v: Seq<char>)
    requires
        1 <= k,
        forall|j: int| 1 <= j < k && j < args.len() ==> begins_otherwise((#[trigger] args[j])@, prefix),
        k < args.len() ==> args[k]@ == prefix + v,
    ensures
        value_of(args, 1, prefix) == (if k < args.len() {
            Some(v)
        } else {
            None
        }),
{
    lemma_value_of(args, 1, prefix, k, v);
}

/// A file descriptor is the number that stands there. What is no number is
/// refused, and so is a negative one.
pub proof fn law_descriptors(args: Seq<String>, prefix: Seq<char>, k: int, v: Seq<char>)
    requires
        1 <= k,
        forall|j: int| 1 <= j < k && j < args.len() ==> begins_otherwise((#[trigger] args[j])@, prefix),
        k < args.len() ==> args[k]@ == prefix + v,
    ensures
        k >= args.len() ==> descriptor(args, prefix) == Ok::<Option<i32>, ArgErr>(None),
        k < args.len() ==> match int32(encode_utf8(v)) {
            Some(fd) => if fd >= 0 {
                descriptor(args, prefix) == Ok::<Option<i32>, ArgErr>(Some(fd))
            } else {
                descriptor(args, prefix) == Err::<Option<i32>, ArgErr>(ArgErr::NegativeDescriptor)
            },
            None => descriptor(args, prefix) == Err::<Option<i32>, ArgErr>(ArgErr::NotADescriptor),
        },
{
    lemma_value_of(args, 1, prefix, k, v);
}

proof fn lemma_screenshot(args: Seq<String>, i: int, k: int)
    requires
        0 <= i <= k <= args.len(),
        forall|j: int|
            i <= j < k ==> begins_otherwise((#[trigger] args[j])@, "--headless-screenshot="@)
                && args[j]@ != "--headless-screenshot"@,
    ensures
        screenshot_path(args, i) == screenshot_path(args, k),
    decreases k - i,
{
    if i < k {
        lemma_begins_otherwise(args[i]@, "--headless-screenshot="@);
        lemma_screenshot(args, i + 1, k);
    }
}

/// A screenshot is asked for with a path behind the sign. Without a path, or
/// without the sign, that is refused; where nothing is said of one, none is made.
pub proof fn law_screenshot(args: Seq<String>, k: int, path: Seq<char>)
    requires
        1 <= k <= args.len(),
        forall|j: int|
            1 <= j < k ==> begins_otherwise((#[trigger] args[j])@, "--headless-screenshot="@)
                && args[j]@ != "--headless-screenshot"@,
    ensures
        k == args.len() ==> screenshot_path(args, 1) == Ok::<Option<Seq<char>>, ArgErr>(None),
        k < args.len() && args[k]@ == "--headless-screenshot="@ + path && path.len() > 0
            ==> screenshot_path(args, 1) == Ok::<Option<Seq<char>>, ArgErr>(Some(path)),
        k < args.len() && args[k]@ == "--headless-screenshot="@ ==> screenshot_path(args, 1)
            == Err::<Option<Seq<char>>, ArgErr>(ArgErr::EmptyPath),
        k < args.len() && args[k]@ == "--headless-screenshot"@ ==> screenshot_path(args, 1)
            == Err::<Option<Seq<char>>, ArgErr>(ArgErr::MissingEquals),
{
    let prefix = "--headless-screenshot="@;
    lemma_screenshot(args, 1, k);
    lemma_behind(prefix, path);
    lemma_behind(prefix, seq![]);
    assert(prefix + seq![] =~= prefix);
    reveal_strlit("--headless-screenshot=");
    reveal_strlit("--headless-screenshot");
    assert("--headless-screenshot"@.len() < prefix.len());
}

} // verus!
