//! The configuration: a presence-service client id and an ordered list of
//! target processes, index 0 being the highest priority. The editor
//! operations insert, remove, reorder and edit entries, clamping indices to
//! the list and leaving the configuration unchanged whenever they fail.

use vstd::prelude::*;

verus! {

/// One watched process entry with its display metadata; its position in the
/// containing list encodes its priority.
#[derive(Debug, Clone, PartialEq, Eq)]
pub struct Target {
    pub process_name: String,
    pub display_name: String,
    pub image: String,
}

/// Mathematical value of a `Target`: its three fields as character sequences.
pub ghost struct TargetV {
    pub process_name: Seq<char>,
    pub display_name: Seq<char>,
    pub image: Seq<char>,
}

impl View for Target {
    type V = TargetV;

    open spec fn view(&self) -> TargetV {
        TargetV {
            process_name: self.process_name@,
            display_name: self.display_name@,
            image: self.image@,
        }
    }
}

impl DeepView for Target {
    type V = TargetV;

    open spec fn deep_view(&self) -> TargetV {
        self.view()
    }
}

/// The persisted configuration: client id and prioritized target list.
#[derive(Debug, Clone, PartialEq, Eq)]
pub struct Config {
    pub client_id: u64,
    pub targets: Vec<Target>,
}

/// Mathematical value of a `Config`.
pub ghost struct ConfigV {
    pub client_id: u64,
    pub targets: Seq<TargetV>,
}

impl View for Config {
    type V = ConfigV;

    open spec fn view(&self) -> ConfigV {
        ConfigV { client_id: self.client_id, targets: self.targets.deep_view() }
    }
}

impl Default for Config {
    /// The empty configuration a missing file falls back to.
    fn default() -> (r: Config)
        ensures
            r@.client_id == 0,
            r@.targets == Seq::<TargetV>::empty(),
    {
        let c = Config { client_id: 0, targets: Vec::new() };
        proof {
            assert(c@.targets =~= Seq::<TargetV>::empty());
        }
        c
    }
}

/// Whether some entry of `ts` is keyed by `name`.
pub open spec fn has_name(ts: Seq<TargetV>, name: Seq<char>) -> bool {
    exists|k: int| 0 <= k < ts.len() && ts[k].process_name == name
}

/// Whether the entries of `ts` all have distinct process names.
pub open spec fn names_unique(ts: Seq<TargetV>) -> bool {
    forall|i: int, j: int|
        0 <= i < j < ts.len() ==> ts[i].process_name != ts[j].process_name
}

/// A failed editor operation; the configuration is left untouched.
#[derive(Debug, PartialEq, Eq, Clone, Copy, Structural)]
pub enum EditError {
    /// The process name is already present in the target list.
    DuplicateTarget,
    /// The process name is absent from the target list.
    NotFound,
}

/// How an entry is moved within the target list.
#[derive(Debug, PartialEq, Eq, Clone, Copy, Structural)]
pub enum ConfigReorderOperation {
    /// One position toward index 0, clamped at 0.
    Increase,
    /// One position toward the end, clamped at the last index.
    Decrease,
    /// To the given index, clamped to the list.
    SetIndex(u32),
}

/// Index of the first entry of `targets` keyed by `process`, if any.
pub fn get_process_index(targets: &Vec<Target>, process: &String) -> (r: Option<usize>)
    ensures
        match r {
            Some(i) => {
                &&& i < targets.len()
                &&& targets.deep_view()[i as int].process_name == process@
                &&& forall|j: int|
                    0 <= j < i ==> targets.deep_view()[j].process_name != process@
            },
            None => !has_name(targets.deep_view(), process@),
        },
{
    let n = targets.len();
    let mut i: usize = 0;
    while i < n
        invariant
            i <= n,
            n == targets.len(),
            forall|j: int| 0 <= j < i ==> targets.deep_view()[j].process_name != process@,
        decreases n - i,
    {
        if targets[i].process_name == *process {
            proof {
                assert(targets.deep_view()[i as int].process_name == process@);
            }
            return Some(i);
        }
        proof {
            assert(targets.deep_view()[i as int].process_name != process@);
        }
        i = i + 1;
    }
    None
}

/// Where a new entry lands: a given index is clamped to the current list
/// when the list is non-empty; otherwise the entry is appended.
pub open spec fn insert_pos(len: int, index: Option<u32>) -> int {
    match index {
        Some(ix) => if len == 0 {
            0
        } else if ix as int <= len - 1 {
            ix as int
        } else {
            len - 1
        },
        None => len,
    }
}

/// Adds a target keyed by `process`; fails with `DuplicateTarget`, leaving
/// the configuration unchanged, when that key is already present.
pub fn add_process(
    config: &mut Config,
    process: String,
    display: String,
    image: String,
    index: Option<u32>,
) -> (r: Result<(), EditError>)
    ensures
        match r {
            Err(e) => {
                &&& e == EditError::DuplicateTarget
                &&& has_name(old(config)@.targets, process@)
                &&& final(config)@ == old(config)@
            },
            Ok(()) => {
                &&& !has_name(old(config)@.targets, process@)
                &&& final(config)@.client_id == old(config)@.client_id
                &&& final(config)@.targets == old(config)@.targets.insert(
                    insert_pos(old(config)@.targets.len() as int, index),
                    TargetV { process_name: process@, display_name: display@, image: image@ },
                )
            },
        },
        names_unique(old(config)@.targets) ==> names_unique(final(config)@.targets),
{
    let ghost ts0 = config@.targets;
    if get_process_index(&config.targets, &process).is_some() {
        return Err(EditError::DuplicateTarget);
    }
    let target = Target { process_name: process, display_name: display, image };
    let len = config.targets.len();
    let pos: usize = match index {
        Some(ix) => {
            if len == 0 {
                0
            } else if (ix as usize) <= len - 1 {
                ix as usize
            } else {
                len - 1
            }
        },
        None => len,
    };
    config.targets.insert(pos, target);
    proof {
        let ghost tv = TargetV {
            process_name: process@,
            display_name: display@,
            image: image@,
        };
        assert(config.targets.deep_view() =~= ts0.insert(pos as int, tv));
        assert forall|i: int, j: int|
            names_unique(ts0) && 0 <= i < j < config.targets.deep_view().len() implies
            config.targets.deep_view()[i].process_name
                != config.targets.deep_view()[j].process_name by {
            let ts1 = config.targets.deep_view();
            if names_unique(ts0) && 0 <= i < j < ts1.len() {
                assert(!has_name(ts0, process@));
                if i != pos as int && j != pos as int {
                    let i0: int = if i < pos as int { i } else { i - 1 };
                    let j0: int = if j < pos as int { j } else { j - 1 };
                    assert(ts1[i] == ts0[i0] && ts1[j] == ts0[j0]);
                } else if i == pos as int {
                    let j0: int = j - 1;
                    assert(ts1[j] == ts0[j0]);
                    assert(ts1[j].process_name != process@);
                } else {
                    assert(ts1[i] == ts0[i]);
                    assert(ts1[i].process_name != process@);
                }
            }
        }
    }
    Ok(())
}

/// Removing an entry keeps the remaining names distinct.
proof fn lemma_unique_remove(ts: Seq<TargetV>, i: int)
    requires
        names_unique(ts),
        0 <= i < ts.len(),
    ensures
        names_unique(ts.remove(i)),
{
    let t1 = ts.remove(i);
    assert forall|a: int, b: int| 0 <= a < b < t1.len() implies t1[a].process_name
        != t1[b].process_name by {
        let a0: int = if a < i {
            a
        } else {
            a + 1
        };
        let b0: int = if b < i {
            b
        } else {
            b + 1
        };
        assert(t1[a] == ts[a0] && t1[b] == ts[b0]);
    }
}

/// Inserting an entry whose name no existing entry carries keeps the names
/// distinct.
proof fn lemma_unique_insert(ts: Seq<TargetV>, n: int, t: TargetV)
    requires
        names_unique(ts),
        0 <= n <= ts.len(),
        forall|k: int| 0 <= k < ts.len() ==> (#[trigger] ts[k]).process_name != t.process_name,
    ensures
        names_unique(ts.insert(n, t)),
{
    let t1 = ts.insert(n, t);
    assert forall|a: int, b: int| 0 <= a < b < t1.len() implies t1[a].process_name
        != t1[b].process_name by {
        if a != n && b != n {
            let a0: int = if a < n {
                a
            } else {
                a - 1
            };
            let b0: int = if b < n {
                b
            } else {
                b - 1
            };
            assert(t1[a] == ts[a0] && t1[b] == ts[b0]);
        } else if a == n {
            assert(t1[b] == ts[b - 1]);
        } else {
            assert(t1[a] == ts[a]);
        }
    }
}

/// Removes the target keyed by `process`; fails with `NotFound`, leaving
/// the configuration unchanged, when that key is absent.
pub fn remove_process(config: &mut Config, process: &String) -> (r: Result<(), EditError>)
    ensures
        names_unique(old(config)@.targets) ==> names_unique(final(config)@.targets),
        match r {
            Err(e) => {
                &&& e == EditError::NotFound
                &&& !has_name(old(config)@.targets, process@)
                &&& final(config)@ == old(config)@
            },
            Ok(()) => {
                &&& has_name(old(config)@.targets, process@)
                &&& final(config)@.client_id == old(config)@.client_id
                &&& exists|i: int|
                    {
                        &&& 0 <= i < old(config)@.targets.len()
                        &&& old(config)@.targets[i].process_name == process@
                        &&& final(config)@.targets == old(config)@.targets.remove(i)
                    }
            },
        },
{
    let ghost ts0 = config@.targets;
    match get_process_index(&config.targets, process) {
        None => Err(EditError::NotFound),
        Some(i) => {
            config.targets.remove(i);
            proof {
                assert(config.targets.deep_view() =~= ts0.remove(i as int));
                if names_unique(ts0) {
                    lemma_unique_remove(ts0, i as int);
                }
            }
            Ok(())
        },
    }
}

/// Where a reorder operation sends the entry currently at `i` in a list of
/// length `len`, clamped to the list.
pub open spec fn reorder_pos(len: int, i: int, operation: ConfigReorderOperation) -> int {
    match operation {
        ConfigReorderOperation::Increase => if i == 0 {
            0
        } else {
            i - 1
        },
        ConfigReorderOperation::Decrease => if i + 1 <= len - 1 {
            i + 1
        } else {
            len - 1
        },
        ConfigReorderOperation::SetIndex(t) => if t as int <= len - 1 {
            t as int
        } else {
            len - 1
        },
    }
}

/// Moves the target keyed by `process` one step up or down in priority, or
/// to a given index, clamping to the list; fails with `NotFound`, leaving
/// the configuration unchanged, when the key is absent. A move that lands
/// on the entry's own index succeeds without reordering.
pub fn move_process(
    config: &mut Config,
    process: &String,
    operation: ConfigReorderOperation,
) -> (r: Result<(), EditError>)
    ensures
        names_unique(old(config)@.targets) ==> names_unique(final(config)@.targets),
        match r {
            Err(e) => {
                &&& e == EditError::NotFound
                &&& !has_name(old(config)@.targets, process@)
                &&& final(config)@ == old(config)@
            },
            Ok(()) => {
                &&& final(config)@.client_id == old(config)@.client_id
                &&& exists|i: int|
                    {
                        &&& 0 <= i < old(config)@.targets.len()
                        &&& (#[trigger] old(config)@.targets[i]).process_name == process@
                        &&& (forall|j: int|
                            0 <= j < i ==> old(config)@.targets[j].process_name != process@)
                        &&& final(config)@.targets == if reorder_pos(
                            old(config)@.targets.len() as int,
                            i,
                            operation,
                        ) == i {
                            old(config)@.targets
                        } else {
                            old(config)@.targets.remove(i).insert(
                                reorder_pos(old(config)@.targets.len() as int, i, operation),
                                old(config)@.targets[i],
                            )
                        }
                    }
            },
        },
{
    let ghost ts0 = config@.targets;
    let index = match get_process_index(&config.targets, process) {
        None => {
            return Err(EditError::NotFound);
        },
        Some(i) => i,
    };
    let len = config.targets.len();
    let new_index: usize = match operation {
        ConfigReorderOperation::Increase => {
            if index == 0 {
                0
            } else {
                index - 1
            }
        },
        ConfigReorderOperation::Decrease => {
            if index + 1 <= len - 1 {
                index + 1
            } else {
                len - 1
            }
        },
        ConfigReorderOperation::SetIndex(t) => {
            if (t as usize) <= len - 1 {
                t as usize
            } else {
                len - 1
            }
        },
    };
    proof {
        assert(new_index == reorder_pos(ts0.len() as int, index as int, operation));
    }
    if new_index == index {
        return Ok(());
    }
    let target = config.targets.remove(index);
    proof {
        assert(config.targets.deep_view() =~= ts0.remove(index as int));
    }
    let ghost ts1 = config.targets.deep_view();
    config.targets.insert(new_index, target);
    proof {
        assert(config.targets.deep_view() =~= ts1.insert(
            new_index as int,
            ts0[index as int],
        ));
        if names_unique(ts0) {
            lemma_unique_remove(ts0, index as int);
            assert forall|k: int| 0 <= k < ts1.len() implies (#[trigger] ts1[k]).process_name
                != ts0[index as int].process_name by {
                let k0: int = if k < index as int {
                    k
                } else {
                    k + 1
                };
                assert(ts1[k] == ts0[k0]);
            }
            lemma_unique_insert(ts1, new_index as int, ts0[index as int]);
        }
    }
    Ok(())
}

/// Applies the supplied field edits to the target keyed by `process`.
/// Fails with `NotFound` when the key is absent, and with `DuplicateTarget`
/// when a new process name collides with a different entry; either failure
/// leaves the configuration unchanged.
pub fn edit_process(
    config: &mut Config,
    process: &String,
    new_process: Option<String>,
    new_display: Option<String>,
    new_image: Option<String>,
) -> (r: Result<(), EditError>)
    ensures
        names_unique(old(config)@.targets) ==> names_unique(final(config)@.targets),
        match r {
            Err(EditError::NotFound) => {
                &&& !has_name(old(config)@.targets, process@)
                &&& final(config)@ == old(config)@
            },
            Err(EditError::DuplicateTarget) => {
                &&& has_name(old(config)@.targets, process@)
                &&& new_process is Some
                &&& final(config)@ == old(config)@
            },
            Ok(()) => {
                &&& has_name(old(config)@.targets, process@)
                &&& final(config)@.client_id == old(config)@.client_id
                &&& exists|i: int|
                    {
                        &&& 0 <= i < old(config)@.targets.len()
                        &&& (#[trigger] old(config)@.targets[i]).process_name == process@
                        &&& (forall|j: int|
                            0 <= j < i ==> old(config)@.targets[j].process_name != process@)
                        &&& final(config)@.targets == old(config)@.targets.update(
                            i,
                            TargetV {
                                process_name: match new_process {
                                    Some(p) => p@,
                                    None => old(config)@.targets[i].process_name,
                                },
                                display_name: match new_display {
                                    Some(d) => d@,
                                    None => old(config)@.targets[i].display_name,
                                },
                                image: match new_image {
                                    Some(m) => m@,
                                    None => old(config)@.targets[i].image,
                                },
                            },
                        )
                    }
            },
        },
        match new_process {
            Some(p) => r is Ok ==> forall|k: int|
                0 <= k < old(config)@.targets.len() && old(config)@.targets[k].process_name
                    != process@ ==> old(config)@.targets[k].process_name != p@,
            None => true,
        },
{
    let ghost ts0 = config@.targets;
    let index = match get_process_index(&config.targets, process) {
        None => {
            return Err(EditError::NotFound);
        },
        Some(i) => i,
    };
    if let Some(p) = &new_process {
        match get_process_index(&config.targets, p) {
            Some(k) if k != index => {
                return Err(EditError::DuplicateTarget);
            },
            _ => {
                proof {
                    assert forall|k: int|
                        0 <= k < ts0.len() && ts0[k].process_name != process@ implies ts0[k]
                        .process_name != p@ by {
                        if ts0[k].process_name == p@ {
                            assert(has_name(ts0, p@));
                        }
                    }
                }
            },
        }
    }
    let old_target = config.targets.remove(index);
    proof {
        assert(config.targets.deep_view() =~= ts0.remove(index as int));
    }
    let ghost ts1 = config.targets.deep_view();
    let updated = Target {
        process_name: match new_process {
            Some(p) => p,
            None => old_target.process_name,
        },
        display_name: match new_display {
            Some(d) => d,
            None => old_target.display_name,
        },
        image: match new_image {
            Some(m) => m,
            None => old_target.image,
        },
    };
    config.targets.insert(index, updated);
    proof {
        let tsf = config.targets.deep_view();
        assert(tsf =~= ts0.update(index as int, tsf[index as int]));
        if names_unique(ts0) {
            let nm = tsf[index as int].process_name;
            assert forall|k: int|
                0 <= k < ts0.len() && k != index as int implies (#[trigger] ts0[k]).process_name
                != nm by {
                assert(ts0[k].process_name != ts0[index as int].process_name);
                match new_process {
                    Some(p) => {
                        assert(ts0[k].process_name != p@);
                    },
                    None => {},
                }
            }
            assert forall|a: int, b: int| 0 <= a < b < tsf.len() implies tsf[a].process_name
                != tsf[b].process_name by {
                if a != index as int && b != index as int {
                    assert(tsf[a] == ts0[a] && tsf[b] == ts0[b]);
                } else if a == index as int {
                    assert(tsf[b] == ts0[b]);
                } else {
                    assert(tsf[a] == ts0[a]);
                }
            }
        }
    }
    Ok(())
}

} // verus!
