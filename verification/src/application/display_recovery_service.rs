//! Whether to ask for a fresh detection of the displays when saved monitors are missing.

use vstd::prelude::*;

use crate::application::monitor_resolution;
use crate::domain::monitor::SavedMonitor;
use crate::text;

verus! {

/// How many detections are tried after one resume before giving up.
pub const MAX_RECOVERY_ATTEMPTS: u32 = 3;

/// What to do next about missing monitors.
#[derive(Debug, PartialEq, Eq)]
pub enum RecoveryDecision {
    /// The user has switched automatic recovery off.
    Disabled,
    /// No monitor has been saved yet, so there is nothing to compare with.
    NoSavedTopology,
    /// Every saved monitor is connected.
    UpToDate,
    /// Monitors are missing: start the detection of that number.
    Recover { missing: Vec<String>, attempt: u32 },
    /// Monitors are missing, and every attempt is spent.
    GiveUp { missing: Vec<String> },
}

/// A saved monitor is connected under its id or under its device name.
pub open spec fn is_present(saved: SavedMonitor, live: Seq<String>) -> bool {
    monitor_resolution::names(live, saved.stable_id@) || monitor_resolution::names(
        live,
        saved.device_name@,
    )
}

/// The ids of the saved monitors that are not connected, in the order saved.
pub open spec fn missing_ids(saved: Seq<SavedMonitor>, live: Seq<String>) -> Seq<Seq<char>>
    decreases saved.len(),
{
    if saved.len() == 0 {
        Seq::empty()
    } else {
        let before = missing_ids(saved.drop_last(), live);
        if is_present(saved.last(), live) {
            before
        } else {
            before.push(saved.last().stable_id@)
        }
    }
}

/// The ids of the saved monitors that are missing from the connected ones.
pub fn missing_saved_monitors(saved: &[SavedMonitor], live_device_names: &[String]) -> (r: Vec<
    String,
>)
    ensures
        text::texts(r@) == missing_ids(saved@, live_device_names@),
{
    let mut out: Vec<String> = Vec::new();
    let mut i: usize = 0;
    assert(text::texts(out@) =~= missing_ids(saved@.take(0), live_device_names@));
    while i < saved.len()
        invariant
            i <= saved@.len(),
            text::texts(out@) == missing_ids(saved@.take(i as int), live_device_names@),
        decreases saved@.len() - i,
    {
        proof {
            assert(saved@.take(i + 1).drop_last() =~= saved@.take(i as int));
            assert(saved@.take(i + 1).last() == saved@[i as int]);
        }
        let ghost before = out@;
        if !monitor_resolution::is_named(live_device_names, saved[i].stable_id.as_str())
            && !monitor_resolution::is_named(live_device_names, saved[i].device_name.as_str()) {
            out.push(saved[i].stable_id.clone());
            assert(text::texts(out@) =~= text::texts(before).push(saved@[i as int].stable_id@));
        }
        i += 1;
    }
    assert(saved@.take(saved@.len() as int) =~= saved@);
    out
}

/// Decides whether an automatic detection should run, from the saved monitors, the connected
/// ones, the attempts already made since the last resume, and the user's switch.
pub fn decide_recovery(
    saved_monitors: &[SavedMonitor],
    live_device_names: &[String],
    attempts_made: u32,
    auto_recovery_enabled: bool,
) -> (r: RecoveryDecision)
    ensures
        ({
            let missing = missing_ids(saved_monitors@, live_device_names@);
            if !auto_recovery_enabled {
                r is Disabled
            } else if saved_monitors@.len() == 0 {
                r is NoSavedTopology
            } else if missing.len() == 0 {
                r is UpToDate
            } else if attempts_made >= MAX_RECOVERY_ATTEMPTS {
                r matches RecoveryDecision::GiveUp { missing: m } && text::texts(m@) == missing
            } else {
                r matches RecoveryDecision::Recover { missing: m, attempt } && text::texts(m@) == missing
                    && attempt == attempts_made + 1
            }
        }),
        r matches RecoveryDecision::Recover { missing: _, attempt } ==> 1 <= attempt
            <= MAX_RECOVERY_ATTEMPTS,
{
    if !auto_recovery_enabled {
        return RecoveryDecision::Disabled;
    }
    if saved_monitors.len() == 0 {
        return RecoveryDecision::NoSavedTopology;
    }
    let missing = missing_saved_monitors(saved_monitors, live_device_names);
    assert(text::texts(missing@).len() == missing@.len());
    if missing.len() == 0 {
        return RecoveryDecision::UpToDate;
    }
    if attempts_made >= MAX_RECOVERY_ATTEMPTS {
        return RecoveryDecision::GiveUp { missing };
    }
    RecoveryDecision::Recover { missing, attempt: attempts_made + 1 }
}

/// Exactly the ids of absent monitors are missing: each of them is named, and nothing else is.
pub proof fn law_missing_ids_are_the_absent(saved: Seq<SavedMonitor>, live: Seq<String>)
    ensures
        forall|i: int|
            0 <= i < saved.len() && !is_present(#[trigger] saved[i], live) ==> missing_ids(
                saved,
                live,
            ).contains(saved[i].stable_id@),
        forall|id: Seq<char>| #[trigger]
            missing_ids(saved, live).contains(id) ==> exists|i: int|
                0 <= i < saved.len() && (#[trigger] saved[i]).stable_id@ == id && !is_present(
                    saved[i],
                    live,
                ),
    decreases saved.len(),
{
    if saved.len() > 0 {
        let rest = saved.drop_last();
        law_missing_ids_are_the_absent(rest, live);
        let m = missing_ids(saved, live);
        let before = missing_ids(rest, live);
        assert forall|i: int|
            0 <= i < saved.len() && !is_present(#[trigger] saved[i], live) implies m.contains(
            saved[i].stable_id@,
        ) by {
            if i < rest.len() {
                assert(rest[i] == saved[i]);
                let k = choose|k: int| 0 <= k < before.len() && before[k] == saved[i].stable_id@;
                assert(m[k] == saved[i].stable_id@);
            } else {
                assert(m[m.len() - 1] == saved[i].stable_id@);
            }
        }
        assert forall|id: Seq<char>| #[trigger] m.contains(id) implies exists|i: int|
            0 <= i < saved.len() && (#[trigger] saved[i]).stable_id@ == id && !is_present(
                saved[i],
                live,
            ) by {
            let k = choose|k: int| 0 <= k < m.len() && m[k] == id;
            if k < before.len() {
                assert(before[k] == id);
                assert(before.contains(id));
                let i = choose|i: int|
                    0 <= i < rest.len() && (#[trigger] rest[i]).stable_id@ == id && !is_present(
                        rest[i],
                        live,
                    );
                assert(saved[i] == rest[i]);
            } else {
                assert(saved[saved.len() - 1].stable_id@ == id);
            }
        }
    }
}

/// A saved monitor counts as missing exactly where no connected one has its id for a name, nor the
/// device name that it was saved with. So nothing is missing exactly where every one is there.
pub proof fn law_monitors_are_missing_by_name(saved: Seq<SavedMonitor>, live: Seq<String>)
    ensures
        forall|i: int|
            0 <= i < saved.len() && (forall|k: int|
                0 <= k < live.len() ==> (#[trigger] live[k])@ != saved[i].stable_id@ && live[k]@
                    != saved[i].device_name@) ==> missing_ids(saved, live).contains(
                (#[trigger] saved[i]).stable_id@,
            ),
        missing_ids(saved, live).len() == 0 <==> forall|i: int|
            0 <= i < saved.len() ==> exists|k: int|
                0 <= k < live.len() && ((#[trigger] live[k])@ == (
                #[trigger] saved[i]).stable_id@ || live[k]@ == saved[i].device_name@),
        missing_ids(saved, live).len() <= saved.len(),
    decreases saved.len(),
{
    law_missing_ids_are_the_absent(saved, live);
    lemma_missing_at_most(saved, live);
    let m = missing_ids(saved, live);
    assert forall|i: int|
        0 <= i < saved.len() && (forall|k: int|
            0 <= k < live.len() ==> (#[trigger] live[k])@ != saved[i].stable_id@ && live[k]@
                != saved[i].device_name@) implies m.contains((#[trigger] saved[i]).stable_id@) by {
        assert(!is_present(saved[i], live));
    }
    if m.len() == 0 {
        assert forall|i: int| 0 <= i < saved.len() implies exists|k: int|
            0 <= k < live.len() && ((#[trigger] live[k])@ == (#[trigger] saved[i]).stable_id@
                || live[k]@ == saved[i].device_name@) by {
            if !is_present(saved[i], live) {
                assert(m.contains(saved[i].stable_id@));
            }
            if monitor_resolution::names(live, saved[i].stable_id@) {
                let k = choose|k: int|
                    0 <= k < live.len() && (#[trigger] live[k])@ == saved[i].stable_id@;
                assert(live[k]@ == saved[i].stable_id@);
            } else {
                let k = choose|k: int|
                    0 <= k < live.len() && (#[trigger] live[k])@ == saved[i].device_name@;
                assert(live[k]@ == saved[i].device_name@);
            }
        }
    } else {
        assert(m.contains(m[0]));
        let i = choose|i: int|
            0 <= i < saved.len() && (#[trigger] saved[i]).stable_id@ == m[0] && !is_present(
                saved[i],
                live,
            );
        if forall|i: int|
            0 <= i < saved.len() ==> exists|k: int|
                0 <= k < live.len() && ((#[trigger] live[k])@ == (
                #[trigger] saved[i]).stable_id@ || live[k]@ == saved[i].device_name@) {
            let k = choose|k: int|
                0 <= k < live.len() && ((#[trigger] live[k])@ == saved[i].stable_id@ || live[k]@
                    == saved[i].device_name@);
            assert(is_present(saved[i], live));
        }
    }
}

proof fn lemma_missing_at_most(saved: Seq<SavedMonitor>, live: Seq<String>)
    ensures
        missing_ids(saved, live).len() <= saved.len(),
    decreases saved.len(),
{
    if saved.len() > 0 {
        lemma_missing_at_most(saved.drop_last(), live);
    }
}

/// A decision starts at most three detections after one resume, whatever is missing.
pub proof fn law_three_detections_at_most(attempts_made: u32)
    ensures
        attempts_made < MAX_RECOVERY_ATTEMPTS <==> attempts_made < 3,
{
}

} // verus!
