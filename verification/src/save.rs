//! Writing a file so that an interruption leaves the old file or the new one.
//!
//! What is to be written goes to a temporary file first, which then replaces the
//! old file. Which step comes next is decided here; the caller performs each
//! step and tells how it went.

use vstd::prelude::*;

verus! {

/// What to do next.
#[derive(Clone, Copy, Debug, PartialEq, Eq, Structural)]
pub enum SaveStep {
    /// Create the directory of the file, and those above it.
    CreateParent,
    /// Write everything to the temporary file.
    WriteTemp,
    /// Put the temporary file in place of the old file.
    Rename,
    /// Remove the temporary file.
    RemoveTemp,
    /// The file is saved.
    Saved,
    /// The file is not saved. The failure that comes to light is that of the
    /// step that failed first.
    Failed,
}

/// The first step, once everything was put into bytes. Without that nothing is
/// touched. A directory is created where the path names one.
pub open spec fn first_step(encoded: bool, has_parent: bool) -> SaveStep {
    if !encoded {
        SaveStep::Failed
    } else if has_parent {
        SaveStep::CreateParent
    } else {
        SaveStep::WriteTemp
    }
}

/// The step after another one.
pub open spec fn step_after(step: SaveStep, ok: bool) -> SaveStep {
    match step {
        SaveStep::CreateParent => if ok {
            SaveStep::WriteTemp
        } else {
            SaveStep::Failed
        },
        SaveStep::WriteTemp => if ok {
            SaveStep::Rename
        } else {
            SaveStep::Failed
        },
        SaveStep::Rename => if ok {
            SaveStep::Saved
        } else {
            SaveStep::RemoveTemp
        },
        SaveStep::RemoveTemp => SaveStep::Failed,
        SaveStep::Saved => SaveStep::Saved,
        SaveStep::Failed => SaveStep::Failed,
    }
}

/// The first step of saving.
pub fn start_save(encoded: bool, has_parent: bool) -> (step: SaveStep)
    ensures
        step == first_step(encoded, has_parent),
{
    if !encoded {
        SaveStep::Failed
    } else if has_parent {
        SaveStep::CreateParent
    } else {
        SaveStep::WriteTemp
    }
}

/// The step after another one, which went well or not.
pub fn next_step(step: SaveStep, ok: bool) -> (next: SaveStep)
    ensures
        next == step_after(step, ok),
{
    match step {
        SaveStep::CreateParent => if ok {
            SaveStep::WriteTemp
        } else {
            SaveStep::Failed
        },
        SaveStep::WriteTemp => if ok {
            SaveStep::Rename
        } else {
            SaveStep::Failed
        },
        SaveStep::Rename => if ok {
            SaveStep::Saved
        } else {
            SaveStep::RemoveTemp
        },
        SaveStep::RemoveTemp => SaveStep::Failed,
        SaveStep::Saved => SaveStep::Saved,
        SaveStep::Failed => SaveStep::Failed,
    }
}

/// The files of a disk by their paths.
pub type Disk = Map<Seq<char>, Seq<u8>>;

/// What is being saved where.
pub struct Saving {
    pub target: Seq<char>,
    pub temp: Seq<char>,
    pub data: Seq<u8>,
}

/// Whether a step can change the files of a disk in this way. A write that
/// fails may leave anything in the file that it writes to, a rename happens as
/// a whole or not at all, and creating directories touches no file.
pub open spec fn step_effect(
    saving: Saving,
    step: SaveStep,
    ok: bool,
    before: Disk,
    after: Disk,
) -> bool {
    match step {
        SaveStep::WriteTemp => if ok {
            after == before.insert(saving.temp, saving.data)
        } else {
            after.remove(saving.temp) == before.remove(saving.temp)
        },
        SaveStep::Rename => if ok {
            after == before.insert(saving.target, before[saving.temp]).remove(saving.temp)
        } else {
            after == before
        },
        SaveStep::RemoveTemp => if ok {
            after == before.remove(saving.temp)
        } else {
            after == before
        },
        _ => after == before,
    }
}

/// The step that is reached when steps went as `oks` tells.
pub open spec fn step_reached(first: SaveStep, oks: Seq<bool>) -> SaveStep
    decreases oks.len(),
{
    if oks.len() == 0 {
        first
    } else {
        step_after(step_reached(first, oks.drop_last()), oks.last())
    }
}

/// Whether `disks` are what the disk can look like before each step and after
/// the last one.
pub open spec fn is_save_run(
    saving: Saving,
    first: SaveStep,
    oks: Seq<bool>,
    disks: Seq<Disk>,
) -> bool {
    &&& disks.len() == oks.len() + 1
    &&& forall|n: int|
        0 <= n < oks.len() ==> step_effect(
            saving,
            step_reached(first, #[trigger] oks.take(n)),
            oks[n],
            disks[n],
            disks[n + 1],
        )
}

/// Whether a file is on both disks with the same content, or on neither.
pub open spec fn same_file(a: Disk, b: Disk, path: Seq<char>) -> bool {
    &&& a.contains_key(path) <==> b.contains_key(path)
    &&& a.contains_key(path) ==> a[path] == b[path]
}

/// What the disk looks like before each step.
spec fn save_state(saving: Saving, step: SaveStep, start: Disk, disk: Disk) -> bool {
    &&& forall|path: Seq<char>|
        path != saving.target && path != saving.temp ==> #[trigger] same_file(disk, start, path)
    &&& match step {
        SaveStep::Rename => same_file(disk, start, saving.target) && disk.contains_key(saving.temp)
            && disk[saving.temp] == saving.data,
        SaveStep::Saved => disk.contains_key(saving.target) && disk[saving.target] == saving.data
            && !disk.contains_key(saving.temp),
        _ => same_file(disk, start, saving.target),
    }
}

/// What holds before a step holds before the next.
proof fn lemma_save_state(
    saving: Saving,
    step: SaveStep,
    ok: bool,
    start: Disk,
    before: Disk,
    after: Disk,
)
    requires
        saving.temp != saving.target,
        save_state(saving, step, start, before),
        step_effect(saving, step, ok, before, after),
    ensures
        save_state(saving, step_after(step, ok), start, after),
{
    assert forall|path: Seq<char>|
        path != saving.target && path != saving.temp implies #[trigger] same_file(
        after,
        start,
        path,
    ) by {
        assert(same_file(before, start, path));
        lemma_untouched(saving, step, ok, before, after, path);
    }
    if step is WriteTemp && !ok {
        lemma_untouched(saving, step, ok, before, after, saving.target);
    }
}

/// A failed write touches no file but the temporary one, and no step touches
/// any file but the two.
proof fn lemma_untouched(
    saving: Saving,
    step: SaveStep,
    ok: bool,
    before: Disk,
    after: Disk,
    path: Seq<char>,
)
    requires
        step_effect(saving, step, ok, before, after),
        path != saving.temp,
        path != saving.target || step is WriteTemp,
    ensures
        same_file(after, before, path),
{
    if step is WriteTemp && !ok {
        let a = after.remove(saving.temp);
        let b = before.remove(saving.temp);
        assert(a.contains_key(path) <==> after.contains_key(path));
        assert(b.contains_key(path) <==> before.contains_key(path));
        if a.contains_key(path) {
            assert(a[path] == after[path]);
            assert(b[path] == before[path]);
        }
    }
}

/// The state that a run of steps reaches.
proof fn lemma_save_run(saving: Saving, first: SaveStep, oks: Seq<bool>, disks: Seq<Disk>, n: int)
    requires
        saving.temp != saving.target,
        first is CreateParent || first is WriteTemp || first is Failed,
        is_save_run(saving, first, oks, disks),
        0 <= n <= oks.len(),
    ensures
        save_state(saving, step_reached(first, oks.take(n)), disks[0], disks[n]),
    decreases n,
{
    if n > 0 {
        lemma_save_run(saving, first, oks, disks, n - 1);
        assert(oks.take(n).drop_last() =~= oks.take(n - 1));
        lemma_save_state(
            saving,
            step_reached(first, oks.take(n - 1)),
            oks[n - 1],
            disks[0],
            disks[n - 1],
            disks[n],
        );
    }
}

/// Saving is all or nothing. Whatever goes wrong and whenever it is
/// interrupted, the file is the old one or, complete, the new one. Once saved,
/// it is the new one and the temporary file is gone; once failed, it is the old
/// one. No other file is touched.
pub proof fn law_save_is_atomic(
    saving: Saving,
    encoded: bool,
    has_parent: bool,
    oks: Seq<bool>,
    disks: Seq<Disk>,
    n: int,
)
    requires
        saving.temp != saving.target,
        is_save_run(saving, first_step(encoded, has_parent), oks, disks),
        0 <= n <= oks.len(),
    ensures
        ({
            let step = step_reached(first_step(encoded, has_parent), oks.take(n));
            let new = disks[n].contains_key(saving.target) && disks[n][saving.target]
                == saving.data;
            let old = same_file(disks[n], disks[0], saving.target);
            &&& old || new
            &&& step is Saved ==> new && !disks[n].contains_key(saving.temp)
            &&& step is Failed ==> old
        }),
        forall|path: Seq<char>|
            path != saving.target && path != saving.temp ==> #[trigger] same_file(
                disks[n],
                disks[0],
                path,
            ),
{
    lemma_save_run(saving, first_step(encoded, has_parent), oks, disks, n);
}

/// Saving ends after at most four steps.
pub proof fn law_save_ends(encoded: bool, has_parent: bool, oks: Seq<bool>)
    requires
        oks.len() >= 4,
    ensures
        ({
            let step = step_reached(first_step(encoded, has_parent), oks);
            step is Saved || step is Failed
        }),
    decreases oks.len(),
{
    if oks.len() > 4 {
        law_save_ends(encoded, has_parent, oks.drop_last());
    } else {
        reveal_with_fuel(step_reached, 5);
    }
}

/// Where every step goes well, the file is saved.
pub proof fn law_save_succeeds(has_parent: bool, oks: Seq<bool>)
    requires
        oks.len() >= 3,
        forall|i: int| 0 <= i < oks.len() ==> #[trigger] oks[i],
    ensures
        step_reached(first_step(true, has_parent), oks) is Saved,
    decreases oks.len(),
{
    if oks.len() > 3 {
        let rest = oks.drop_last();
        assert forall|i: int| 0 <= i < rest.len() implies #[trigger] rest[i] by {
            assert(oks[i]);
        }
        law_save_succeeds(has_parent, rest);
    } else {
        reveal_with_fuel(step_reached, 4);
        assert(oks[0] && oks[1] && oks[2]);
    }
}

/// Where nothing could be put into bytes, nothing is done.
pub proof fn law_nothing_is_done_without_bytes(has_parent: bool, oks: Seq<bool>)
    ensures
        step_reached(first_step(false, has_parent), oks) is Failed,
    decreases oks.len(),
{
    if oks.len() > 0 {
        law_nothing_is_done_without_bytes(has_parent, oks.drop_last());
    }
}

/// A directory is created first where the path names one, and then only: the
/// temporary file is not written before that went well. A failure there ends
/// saving.
pub proof fn law_directory_is_created_first(oks: Seq<bool>)
    ensures
        step_reached(first_step(true, true), oks) is CreateParent <==> oks.len() == 0,
        oks.len() >= 1 && !oks[0] ==> step_reached(first_step(true, true), oks) is Failed,
        oks.len() >= 1 && oks[0] ==> step_reached(first_step(true, true), oks) == step_reached(
            first_step(true, false),
            oks.skip(1),
        ),
    decreases oks.len(),
{
    reveal_with_fuel(step_reached, 2);
    if oks.len() >= 1 {
        let rest = oks.drop_last();
        law_directory_is_created_first(rest);
        if oks.len() == 1 {
            assert(rest.len() == 0);
            assert(oks.skip(1) =~= Seq::empty());
        } else {
            assert(rest[0] == oks[0]);
            assert(oks.skip(1).drop_last() =~= rest.skip(1));
            assert(oks.skip(1).last() == oks.last());
        }
    }
}

/// Where no directory is to be created, the temporary file is written, then put
/// in place of the old file, and then the file is saved. A write that fails ends
/// saving; a file that could not be put in place is removed, however that goes,
/// and then saving has failed.
pub proof fn law_written_then_renamed(oks: Seq<bool>)
    ensures
        ({
            let step = step_reached(first_step(true, false), oks);
            &&& oks.len() == 0 ==> step is WriteTemp
            &&& oks.len() >= 1 && !oks[0] ==> step is Failed
            &&& oks.len() == 1 && oks[0] ==> step is Rename
            &&& oks.len() >= 2 && oks[0] && oks[1] ==> step is Saved
            &&& oks.len() == 2 && oks[0] && !oks[1] ==> step is RemoveTemp
            &&& oks.len() >= 3 && oks[0] && !oks[1] ==> step is Failed
        }),
    decreases oks.len(),
{
    if oks.len() > 0 {
        let rest = oks.drop_last();
        law_written_then_renamed(rest);
        if oks.len() >= 2 {
            assert(rest[0] == oks[0]);
        }
        if oks.len() >= 3 {
            assert(rest[1] == oks[1]);
        }
    }
}

/// Where the new file could not be put in place and the temporary one could be
/// removed, no temporary file is left behind.
pub proof fn law_failed_rename_leaves_no_temp(
    saving: Saving,
    encoded: bool,
    has_parent: bool,
    oks: Seq<bool>,
    disks: Seq<Disk>,
    n: int,
)
    requires
        is_save_run(saving, first_step(encoded, has_parent), oks, disks),
        0 <= n,
        n + 2 <= oks.len(),
        step_reached(first_step(encoded, has_parent), oks.take(n)) is Rename,
        !oks[n],
        oks[n + 1],
    ensures
        step_reached(first_step(encoded, has_parent), oks.take(n + 2)) is Failed,
        !disks[n + 2].contains_key(saving.temp),
{
    let first = first_step(encoded, has_parent);
    assert(oks.take(n + 1).drop_last() =~= oks.take(n));
    assert(oks.take(n + 2).drop_last() =~= oks.take(n + 1));
    assert(step_reached(first, oks.take(n + 1)) is RemoveTemp);
    assert(step_effect(
        saving,
        step_reached(first, oks.take(n + 1)),
        oks[n + 1],
        disks[n + 1],
        disks[n + 2],
    ));
}

} // verus!
