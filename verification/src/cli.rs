//! The `rubbl` command dispatcher: naming of sub-command executables.

use vstd::prelude::*;
use vstd::string::{StrSliceExecFns, StringExecFns};

verus! {

/// An error for a sub-command that no executable provides.
#[derive(Clone, Debug)]
pub struct NoSuchSubcommandError(pub String);

/// The prefix of the executables that provide sub-commands.
pub open spec fn subcommand_prefix() -> Seq<char> {
    seq!['r', 'u', 'b', 'b', 'l', '-']
}

/// The sub-command that an executable of this file name provides: the name
/// between the `rubbl-` prefix and the platform's executable suffix, when
/// it has both.
pub open spec fn spec_subcommand_from_filename(name: Seq<char>, suffix: Seq<char>) -> Option<Seq<char>> {
    let p = subcommand_prefix().len() as int;
    if name.len() >= p && name.take(p) == subcommand_prefix() && name.len() >= suffix.len()
        && name.skip(name.len() - suffix.len()) == suffix && name.len() - suffix.len() >= p {
        Some(name.subrange(p, name.len() - suffix.len()))
    } else {
        None
    }
}

/// The sub-command that an executable of this file name provides, if any.
pub fn subcommand_from_filename(name: &str, suffix: &str) -> (r: Option<String>)
    ensures
        match spec_subcommand_from_filename(name@, suffix@) {
            Some(c) => r matches Some(s) && s@ == c,
            None => r is None,
        },
{
    let n = name.unicode_len();
    let m = suffix.unicode_len();
    if n < 6 || n < m || n - m < 6 {
        return None;
    }
    let pre = ['r', 'u', 'b', 'b', 'l', '-'];
    let mut i: usize = 0;
    while i < 6
        invariant
            i <= 6,
            n == name@.len(),
            n >= 6,
            pre@ == subcommand_prefix(),
            forall|j: int| 0 <= j < i ==> name@[j] == subcommand_prefix()[j],
        decreases 6 - i,
    {
        if name.get_char(i) != pre[i] {
            assert(name@.take(6)[i as int] != subcommand_prefix()[i as int]);
            return None;
        }
        i += 1;
    }
    assert(name@.take(6) =~= subcommand_prefix());
    let mut k: usize = 0;
    while k < m
        invariant
            k <= m,
            n == name@.len(),
            m == suffix@.len(),
            n >= m,
            forall|j: int| 0 <= j < k ==> name@[n - m + j] == suffix@[j],
        decreases m - k,
    {
        if name.get_char(n - m + k) != suffix.get_char(k) {
            assert(name@.skip(n - m)[k as int] != suffix@[k as int]);
            return None;
        }
        k += 1;
    }
    assert(name@.skip(n - m) =~= suffix@);
    Some(name.substring_char(6, n - m).to_owned())
}

/// The file name of the executable that provides the sub-command `cmd`:
/// the `rubbl-` prefix, the sub-command and the platform's executable
/// suffix.
pub fn subcommand_exe_name(cmd: &str, suffix: &str) -> (s: String)
    ensures
        s@ == subcommand_prefix() + cmd@ + suffix@,
{
    proof {
        reveal_strlit("rubbl-");
    }
    let mut s = "rubbl-".to_owned();
    assert(s@ =~= subcommand_prefix());
    s.append(cmd);
    s.append(suffix);
    s
}

/// The sub-command that the executable named for `cmd` provides is `cmd`.
pub proof fn law_subcommand_name_round_trip(cmd: Seq<char>, suffix: Seq<char>)
    ensures
        spec_subcommand_from_filename(subcommand_prefix() + cmd + suffix, suffix) == Some(cmd),
{
    let name = subcommand_prefix() + cmd + suffix;
    assert(name.take(6) =~= subcommand_prefix());
    assert(name.skip(name.len() - suffix.len()) =~= suffix);
    assert(name.subrange(6, name.len() - suffix.len()) =~= cmd);
}

} // verus!
