//! tmux command lines.
pub mod pane;
pub mod style;

use vstd::prelude::*;
use crate::text::{string_views, to_string};
use pane::batch;

verus! {

/// The arguments of one tmux invocation that runs several commands,
/// separated by `;` arguments.
pub fn exec_batch(commands: &Vec<Vec<String>>) -> (res: Vec<String>)
    ensures
        string_views(res@) == batch(commands@.map_values(|c: Vec<String>| string_views(c@))),
{
    let ghost cmds = commands@.map_values(|c: Vec<String>| string_views(c@));
    let mut args: Vec<String> = Vec::new();
    let mut i: usize = 0;
    while i < commands.len()
        invariant
            cmds == commands@.map_values(|c: Vec<String>| string_views(c@)),
            i <= commands.len(),
            string_views(args@) == batch(cmds.take(i as int)),
        decreases commands.len() - i,
    {
        proof {
            assert(cmds.take(i + 1).drop_last() == cmds.take(i as int));
            assert(cmds.take(i + 1).last() == cmds[i as int]);
        }
        let ghost before = args@;
        if i > 0 {
            args.push(to_string(";"));
        }
        let ghost mid = args@;
        let cmd = &commands[i];
        let mut j: usize = 0;
        while j < cmd.len()
            invariant
                j <= cmd.len(),
                string_views(args@) == string_views(mid) + string_views(cmd@.take(j as int)),
            decreases cmd.len() - j,
        {
            let ghost b2 = args@;
            let s = cmd[j].clone();
            args.push(s);
            proof {
                assert(string_views(args@) =~= string_views(b2).push(s@));
                assert(string_views(cmd@.take(j + 1)) =~= string_views(cmd@.take(j as int)).push(cmd@[j as int]@));
                assert(string_views(args@) =~= string_views(mid) + string_views(cmd@.take(j + 1)));
            }
            j = j + 1;
        }
        proof {
            assert(cmd@.take(j as int) == cmd@);
            assert(cmds[i as int] == string_views(cmd@));
            if i == 0 {
                assert(cmds.take(1) =~= seq![cmds[0]]);
                assert(string_views(args@) =~= batch(cmds.take(1)));
            } else {
                assert(string_views(mid) =~= string_views(before) + seq![";"@]);
                assert(string_views(args@) =~= batch(cmds.take(i as int)) + seq![";"@] + cmds[i as int]);
            }
        }
        i = i + 1;
    }
    proof {
        assert(cmds.take(i as int) == cmds);
    }
    args
}

} // verus!
