//! The rule-executor boundary: assembling the command a caller runs
//! with elevation, and classifying what came back.
//!
//! The engine never spawns processes itself. A caller runs the
//! assembled command and hands the exit status and the captured output
//! back to [`interpret_command_output`].

use vstd::prelude::*;

use crate::error::FirewallError;
use crate::text::spec_trim;
use crate::text::trim_str;

verus! {

/// The failure text chosen for a failed command: the trimmed stderr if
/// any, else the trimmed stdout, else a fixed message.
pub open spec fn spec_failure_message(stdout: Seq<char>, stderr: Seq<char>) -> Seq<char> {
    if spec_trim(stderr).len() > 0 {
        "Command failed: "@ + spec_trim(stderr)
    } else if spec_trim(stdout).len() > 0 {
        "Command failed (no stderr): "@ + spec_trim(stdout)
    } else {
        "Command failed: Unknown error (no output)"@
    }
}

/// Classifies a finished command: success yields its stdout, failure a
/// `CommandError` whose text is chosen by [`spec_failure_message`].
pub fn interpret_command_output(success: bool, stdout: &str, stderr: &str) -> (r: Result<
    String,
    FirewallError,
>)
    ensures
        success ==> (r matches Ok(out) && out@ == stdout@),
        !success ==> (r matches Err(e) && e matches FirewallError::CommandError(m) && m@
            == spec_failure_message(stdout@, stderr@)),
{
    if success {
        return Ok(String::from_str(stdout));
    }
    let te = trim_str(stderr);
    if te.unicode_len() > 0 {
        let mut m = String::from_str("Command failed: ");
        m.append(te);
        return Err(FirewallError::CommandError(m));
    }
    let to = trim_str(stdout);
    if to.unicode_len() > 0 {
        let mut m = String::from_str("Command failed (no stderr): ");
        m.append(to);
        return Err(FirewallError::CommandError(m));
    }
    Err(FirewallError::CommandError(String::from_str("Command failed: Unknown error (no output)")))
}

/// Soft-failure test on the executor's opaque output: the unblock
/// script reports how many rules it removed, and a literal zero count
/// means none of the candidate rules existed.
pub fn reports_zero_removed(output: &str) -> (r: bool)
    ensures
        r == crate::text::has_substring(output@, "Removed 0 firewall rules"@),
{
    crate::text::contains_str(output, "Removed 0 firewall rules")
}

/// The words of `parts` joined with single spaces, from index `i` on.
pub open spec fn spec_join_spaces(parts: Seq<Seq<char>>, i: int) -> Seq<char>
    decreases parts.len() - i,
{
    if i < 0 || i >= parts.len() {
        Seq::empty()
    } else if i == parts.len() - 1 {
        parts[i]
    } else {
        parts[i] + " "@ + spec_join_spaces(parts, i + 1)
    }
}

/// The one-line script a caller submits for elevated execution:
/// `netsh`, the arguments joined with spaces, and a closing `;`.
pub open spec fn spec_netsh_script(args: Seq<Seq<char>>) -> Seq<char> {
    "netsh "@ + spec_join_spaces(args, 0) + ";"@
}

/// Assembles the elevated netsh command line for `args`.
pub fn build_netsh_script(args: &Vec<String>) -> (r: String)
    ensures
        r@ == spec_netsh_script(args.deep_view()),
{
    let mut s = String::from_str("netsh ");
    let n = args.len();
    proof {
        if n == 0 {
            assert(spec_join_spaces(args.deep_view(), 0) =~= Seq::<char>::empty());
            assert(s@ + spec_join_spaces(args.deep_view(), 0) =~= s@);
        }
    }
    let mut i: usize = 0;
    while i < n
        invariant
            0 <= i <= n,
            n == args@.len(),
            i < n ==> s@ + spec_join_spaces(args.deep_view(), i as int) == "netsh "@
                + spec_join_spaces(args.deep_view(), 0),
            i == n ==> s@ == "netsh "@ + spec_join_spaces(args.deep_view(), 0),
        decreases n - i,
    {
        s.append(args[i].as_str());
        if i + 1 < n {
            s.append(" ");
            proof {
                assert(s@ + spec_join_spaces(args.deep_view(), i + 1) =~= "netsh "@
                    + spec_join_spaces(args.deep_view(), 0));
            }
        } else {
            proof {
                assert(args.deep_view()[i as int] == args@[i as int]@);
                assert(s@ =~= "netsh "@ + spec_join_spaces(args.deep_view(), 0));
            }
        }
        i = i + 1;
    }
    s.append(";");
    proof {
        assert(s@ =~= spec_netsh_script(args.deep_view()));
    }
    s
}

} // verus!
