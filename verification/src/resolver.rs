//! Priority resolution: which target wins the current tick.
//!
//! The target list is scanned in priority order (index 0 first) and the
//! first entry whose process name is among the currently running processes
//! wins; a lower-priority running target is never selected while a
//! higher-priority one is also running.

use vstd::prelude::*;
use crate::config::Target;

verus! {

/// Whether `name` occurs in the snapshot of running process names.
pub open spec fn name_running(running: Seq<Seq<char>>, name: Seq<char>) -> bool {
    exists|k: int| 0 <= k < running.len() && running[k] == name
}

/// Whether `name` occurs in `running`.
pub fn is_running(running: &Vec<String>, name: &String) -> (r: bool)
    ensures
        r == name_running(running.deep_view(), name@),
{
    let n = running.len();
    let mut k: usize = 0;
    while k < n
        invariant
            k <= n,
            n == running.len(),
            forall|j: int| 0 <= j < k ==> running.deep_view()[j] != name@,
        decreases n - k,
    {
        if running[k] == *name {
            proof {
                assert(running.deep_view()[k as int] == name@);
            }
            return true;
        }
        proof {
            assert(running.deep_view()[k as int] != name@);
        }
        k = k + 1;
    }
    false
}

/// Index of the highest-priority target whose process is running, given the
/// names of the currently running processes, or `None` when no target's
/// process is running. No index `i` is returned while any `j < i` is also
/// running.
pub fn resolve(targets: &Vec<Target>, running: &Vec<String>) -> (r: Option<usize>)
    ensures
        match r {
            Some(i) => {
                &&& i < targets.len()
                &&& name_running(running.deep_view(), targets.deep_view()[i as int].process_name)
                &&& forall|j: int|
                    0 <= j < i ==> !name_running(
                        running.deep_view(),
                        targets.deep_view()[j].process_name,
                    )
            },
            None => forall|j: int|
                0 <= j < targets.len() ==> !name_running(
                    running.deep_view(),
                    targets.deep_view()[j].process_name,
                ),
        },
{
    let n = targets.len();
    let mut i: usize = 0;
    while i < n
        invariant
            i <= n,
            n == targets.len(),
            forall|j: int|
                0 <= j < i ==> !name_running(
                    running.deep_view(),
                    targets.deep_view()[j].process_name,
                ),
        decreases n - i,
    {
        if is_running(running, &targets[i].process_name) {
            proof {
                assert(targets.deep_view()[i as int] == targets@[i as int]@);
            }
            return Some(i);
        }
        proof {
            assert(targets.deep_view()[i as int] == targets@[i as int]@);
        }
        i = i + 1;
    }
    None
}

} // verus!
