//! The command line that starts a target program under instrumentation.

use vstd::prelude::*;
use vstd::string::StringExecFns;

verus! {

/// Each argument preceded by a space.
pub open spec fn spaced_args(args: Seq<String>) -> Seq<char>
    decreases args.len(),
{
    if args.len() == 0 {
        seq![]
    } else {
        spaced_args(args.drop_last()) + seq![' '] + args.last()@
    }
}

/// A target whose last path component is `.dll` runs under `dotnet`; any other target
/// runs itself, followed by its arguments.
pub open spec fn command_line(target_path: Seq<char>, target_name: Seq<char>, args: Seq<String>) -> Seq<
    char,
> {
    if target_name == seq!['.', 'd', 'l', 'l'] {
        seq!['d', 'o', 't', 'n', 'e', 't', ' '] + target_path
    } else {
        target_path + spaced_args(args)
    }
}

/// The command line for the target at `target_path` (absolute), whose last path
/// component as given was `target_name`.
pub fn get_command_line(target_path: &String, target_name: &String, args: &[String]) -> (r: String)
    ensures
        r@ == command_line(target_path@, target_name@, args@),
{
    let dll = String::from_str(".dll");
    proof {
        reveal_strlit(".dll");
    }
    assert(dll@ =~= seq!['.', 'd', 'l', 'l']);
    if target_name.eq(&dll) {
        let mut line = String::from_str("dotnet ");
        proof {
            reveal_strlit("dotnet ");
        }
        line.append(target_path.as_str());
        assert(line@ =~= command_line(target_path@, target_name@, args@));
        return line;
    }
    let mut line = String::from_str(target_path.as_str());
    let mut i: usize = 0;
    assert(args@.subrange(0, 0) =~= Seq::<String>::empty());
    assert(line@ =~= target_path@ + spaced_args(args@.subrange(0, 0)));
    while i < args.len()
        invariant
            i <= args@.len(),
            line@ == target_path@ + spaced_args(args@.subrange(0, i as int)),
        decreases args@.len() - i,
    {
        line.append(" ");
        line.append(args[i].as_str());
        proof {
            reveal_strlit(" ");
            assert(args@.subrange(0, i + 1).drop_last() =~= args@.subrange(0, i as int));
        }
        assert(line@ =~= target_path@ + spaced_args(args@.subrange(0, i + 1)));
        i = i + 1;
    }
    assert(args@.subrange(0, args@.len() as int) =~= args@);
    line
}

} // verus!
