//! Which build of the binaries a test run executes.
//!
//! Every binary a harness launches would otherwise be resolved by bare name
//! through root's PATH. Those are host-global: an `install` from one worktree
//! overwrites them for every other. A *staged prefix* removes the host from
//! the picture: its `bin/` is prepended to PATH for every command.
//!
//! Resolution order: the prefix that the environment names, if it is set and
//! not blank; the staging directory, if it exists; nothing — fall back to the
//! host PATH.

use vstd::prelude::*;

use crate::text::{chars_of, decimal, push_decimal, text_of, trim, trimmed};

verus! {

/// PATH tail appended after the staged `bin/`. Deliberately a fixed list
/// rather than the harness process's own PATH: the commands run as root, and
/// splicing the invoking user's PATH into a root command would both widen
/// what they find and make resolution differ from machine to machine.
pub const SYSTEM_PATH: &'static str =
    "/usr/local/sbin:/usr/local/bin:/usr/sbin:/usr/bin:/sbin:/bin";

/// Binaries a complete stage holds. `straw` and `strawc` are the two halves
/// of a tunnel; `test_client` drives the data plane without a TUN device.
pub const STAGE_BINS: [&'static str; 3] = ["straw", "strawc", "test_client"];

/// A path below another: separated by one slash, unless the first is empty or
/// ends in one.
pub open spec fn joined(root: Seq<char>, name: Seq<char>) -> Seq<char> {
    if root.len() == 0 || root.last() == '/' {
        root + name
    } else {
        root.push('/') + name
    }
}

fn join(root: &str, name: &str) -> (s: String)
    ensures
        s@ == joined(root@, name@),
{
    let chars = chars_of(root);
    let mut s = text_of(chars.as_slice());
    if chars.len() > 0 && chars[chars.len() - 1] != '/' {
        s.push('/');
    }
    s.append(name);
    s
}

/// A resolved staging prefix: binaries under `bin/`.
#[derive(Debug, Clone)]
pub struct Prefix {
    pub root: String,
}

/// Where a prefix comes from, for the operator.
pub open spec fn incomplete_text(what: Seq<char>, root: Seq<char>, bin: Seq<char>) -> Seq<char> {
    what + " at "@ + root + " is incomplete (missing "@ + joined(joined(root, "bin"@), bin)
        + "); re-run `make -C bdd stage`"@
}

impl Prefix {
    pub fn root(&self) -> (s: &str)
        ensures
            s@ == self.root@,
    {
        self.root.as_str()
    }

    /// Directory holding the staged binaries.
    pub fn bin_dir(&self) -> (s: String)
        ensures
            s@ == joined(self.root@, "bin"@),
    {
        join(self.root.as_str(), "bin")
    }

    /// `PATH=…` assignment to hand to `env` ahead of a command, so the
    /// binaries resolve to the staged copies while system tools (`ip`, `ping`,
    /// `curl`) keep resolving as before.
    pub fn path_env(&self) -> (s: String)
        ensures
            s@ == "PATH="@ + joined(self.root@, "bin"@) + ":"@ + SYSTEM_PATH@,
    {
        let mut s = String::from_str("PATH=");
        s.append(self.bin_dir().as_str());
        s.append(":");
        s.append(SYSTEM_PATH);
        s
    }

    /// The path of a staged binary.
    pub fn bin(&self, name: &str) -> (s: String)
        ensures
            s@ == joined(joined(self.root@, "bin"@), name@),
    {
        join(self.bin_dir().as_str(), name)
    }
}

/// The first binary that is not there.
pub open spec fn first_missing(present: [bool; 3]) -> Option<int> {
    if !present@[0] {
        Some(0)
    } else if !present@[1] {
        Some(1)
    } else if !present@[2] {
        Some(2)
    } else {
        None
    }
}

/// Reject a prefix that is missing any binary; `present` says which of
/// [`STAGE_BINS`] are files there. An incomplete stage means an interrupted or
/// hand-edited one rather than a race — and the only safe response is to say
/// so instead of quietly testing the host's binaries.
pub fn check(root: String, what: &str, present: [bool; 3]) -> (r: Result<Prefix, String>)
    ensures
        match first_missing(present) {
            None => r matches Ok(p) && p.root == root,
            Some(i) => r matches Err(e) && e@ == incomplete_text(
                what@,
                root@,
                STAGE_BINS@[i]@,
            ),
        },
{
    let prefix = Prefix { root };
    let bins = STAGE_BINS;
    let mut i: usize = 0;
    while i < 3
        invariant
            i <= 3,
            prefix.root == root,
            bins@ == STAGE_BINS@,
            forall|j: int| 0 <= j < i ==> present@[j],
        decreases 3 - i,
    {
        if !present[i] {
            let mut e = String::from_str(what);
            e.append(" at ");
            e.append(prefix.root());
            e.append(" is incomplete (missing ");
            e.append(prefix.bin(bins[i]).as_str());
            e.append("); re-run `make -C bdd stage`");
            proof {
                assert(first_missing(present) == Some(i as int));
            }
            return Err(e);
        }
        i = i + 1;
    }
    proof {
        assert(present@[0] && present@[1] && present@[2]);
    }
    Ok(prefix)
}

/// The prefix to use, and what it is called: the one the environment names,
/// unless it is blank, or the staging directory where it exists.
pub fn resolve(named: Option<&str>, stage_dir: &str, stage_exists: bool) -> (r: Option<
    (String, &'static str),
>)
    ensures
        if named is Some && trimmed(named->0@).len() > 0 {
            r matches Some(p) && p.0@ == trimmed(named->0@) && p.1@ == "$STRAW_BDD_PREFIX"@
        } else if stage_exists {
            r matches Some(p) && p.0@ == stage_dir@ && p.1@ == "the staged toolchain"@
        } else {
            r is None
        },
{
    if let Some(raw) = named {
        let chars = chars_of(raw);
        let cut = trim(chars.as_slice());
        if cut.len() > 0 {
            return Some((text_of(cut.as_slice()), "$STRAW_BDD_PREFIX"));
        }
    }
    if stage_exists {
        Some((String::from_str(stage_dir), "the staged toolchain"))
    } else {
        None
    }
}

/// The staging prefix for this run, or `None` when the harness should use
/// whatever is on the host PATH. A prefix that is there but incomplete is an
/// error — a half-populated stage would otherwise silently fall through to
/// the host's binaries, which is the failure mode staging exists to prevent.
pub fn prefix(resolved: Option<(String, &'static str)>, present: [bool; 3]) -> (r: Result<
    Option<Prefix>,
    String,
>)
    ensures
        match resolved {
            None => r matches Ok(p) && p is None,
            Some(found) => match first_missing(present) {
                None => r matches Ok(Some(p)) && p.root == found.0,
                Some(i) => r matches Err(e) && e@ == incomplete_text(
                    found.1@,
                    found.0@,
                    STAGE_BINS@[i]@,
                ),
            },
        },
{
    match resolved {
        None => Ok(None),
        Some((root, what)) => match check(root, what, present) {
            Ok(p) => Ok(Some(p)),
            Err(e) => Err(e),
        },
    }
}

/// One-line description of the resolved toolchain, printed in the run
/// header. A run that fails for a stale-binary reason should be able to
/// prove it from its own log.
pub fn describe(prefix: Option<&Prefix>, straw_size: u64) -> (s: String)
    ensures
        match prefix {
            Some(p) => s@ == "toolchain: staged at "@ + p.root@ + " (straw "@ + decimal(
                straw_size as nat,
            ) + " bytes)"@,
            None => s@
                == "toolchain: host PATH — run `make -C bdd stage` to isolate this worktree"@,
        },
{
    match prefix {
        Some(p) => {
            let mut s = String::from_str("toolchain: staged at ");
            s.append(p.root());
            s.append(" (straw ");
            push_decimal(&mut s, straw_size);
            s.append(" bytes)");
            s
        },
        None => String::from_str(
            "toolchain: host PATH — run `make -C bdd stage` to isolate this worktree",
        ),
    }
}

/// A name is joined to a directory with one slash between, and no second one
/// where the directory ends in one.
pub proof fn lemma_joined(root: Seq<char>, name: Seq<char>)
    ensures
        root.len() > 0 && root.last() != '/' ==> joined(root, name) == root + seq!['/'] + name,
        root.len() > 0 && root.last() == '/' ==> joined(root, name) == root + name,
        root.len() == 0 ==> joined(root, name) == name,
{
    assert(root.push('/') + name =~= root + seq!['/'] + name);
    if root.len() == 0 {
        assert(root + name =~= name);
    }
}

/// What is complained of is the first program that is missing; nothing is, if
/// none is.
pub proof fn lemma_first_missing(present: [bool; 3], i: int)
    requires
        0 <= i < 3,
    ensures
        first_missing(present) == Some(i) <==> !present@[i] && forall|j: int|
            0 <= j < i ==> #[trigger] present@[j],
        first_missing(present) is None <==> forall|j: int| 0 <= j < 3 ==> #[trigger] present@[j],
{
    assert(present@[0] || !present@[0]);
    assert(present@[1] || !present@[1]);
    assert(present@[2] || !present@[2]);
}

} // verus!
