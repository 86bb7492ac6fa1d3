use vstd::prelude::*;
use crate::error::{CmdError, InstallFailure};
use crate::manager::ModManager;
use crate::profile::ModId;

verus! {

/// Commits a version change once the installer has run for `mod_ref`.
/// `outcome` is what the installer reported: nothing on success, its message
/// on failure. On success the active profile's entry for the package is
/// replaced by `mod_ref`'s version; on failure nothing changes and the error
/// names `mod_ref`.
pub fn change_mod_version(
    manager: &mut ModManager,
    mod_ref: ModId,
    outcome: Result<(), String>,
) -> (r: Result<(), CmdError>)
    requires
        old(manager).wf(),
    ensures
        final(manager).wf(),
        r is Ok <==> outcome is Ok,
        outcome is Ok ==> {
            &&& final(manager).others_same(old(manager))
            &&& final(manager).active_spec().installed() == old(manager).active_spec().installed().insert(
                mod_ref.package,
                mod_ref.version,
            )
            &&& final(manager).active_spec().ignored_updates == old(manager).active_spec().ignored_updates
        },
        outcome matches Err(m) ==> {
            &&& *final(manager) == *old(manager)
            &&& r matches Err(CmdError::Install { mod_ref: e_ref, message: e_msg }) && e_ref == mod_ref
                && e_msg == m
        },
{
    match outcome {
        Ok(()) => {
            manager.set_active_version(mod_ref);
            Ok(())
        },
        Err(message) => Err(CmdError::Install { mod_ref, message }),
    }
}

/// Adds `version_uuid` to the active profile's ignored updates; where it is
/// already there, nothing changes.
pub fn ignore_update(manager: &mut ModManager, version_uuid: u128)
    requires
        old(manager).wf(),
    ensures
        final(manager).wf(),
        final(manager).others_same(old(manager)),
        final(manager).active_spec().ignored_updates@ == crate::profile::ignore_result(
            old(manager).active_spec().ignored_updates@,
            version_uuid,
        ),
        final(manager).active_spec().ignored() == old(manager).active_spec().ignored().insert(version_uuid),
        final(manager).active_spec().mods == old(manager).active_spec().mods,
{
    let ghost before = manager.active_spec();
    manager.ignore_active(version_uuid);
    proof {
        assert(before.wf());
        let s = before.ignored_updates@;
        if !s.contains(version_uuid) {
            assert(s.push(version_uuid).to_set() =~= s.to_set().insert(version_uuid)) by {
                assert(s.push(version_uuid)[s.len() as int] == version_uuid);
                assert forall|x: u128| s.push(version_uuid).contains(x) implies s.contains(x) || x == version_uuid by {
                    let j = choose|j: int| 0 <= j < s.len() + 1 && s.push(version_uuid)[j] == x;
                    if j < s.len() {
                        assert(s[j] == x);
                    }
                }
                assert forall|x: u128| s.contains(x) implies s.push(version_uuid).contains(x) by {
                    let j = choose|j: int| 0 <= j < s.len() && s[j] == x;
                    assert(s.push(version_uuid)[j] == x);
                }
            }
        } else {
            assert(s.to_set() =~= s.to_set().insert(version_uuid));
        }
    }
}

/// Whether a batch skips `candidate` on `manager`: ignored updates are
/// respected and its version is ignored in the active profile.
pub open spec fn skipped(manager: &ModManager, respect_ignored: bool, candidate: ModId) -> bool {
    respect_ignored && manager.active_spec().ignored().contains(candidate.version)
}

/// A batch of candidate updates, processed in order. The caller asks for the
/// next candidate to install, runs the installer on it without holding the
/// manager, and records the outcome; failures are gathered and reported at the
/// end, while successful changes stay.
pub struct BatchUpdate {
    pub candidates: Vec<ModId>,
    pub respect_ignored: bool,
    pub position: usize,
    pub failures: Vec<InstallFailure>,
}

/// Starts a batch over `candidates`.
pub fn update_mods(candidates: Vec<ModId>, respect_ignored: bool) -> (r: BatchUpdate)
    ensures
        r.candidates == candidates,
        r.respect_ignored == respect_ignored,
        r.position == 0,
        r.failures@.len() == 0,
{
    BatchUpdate { candidates, respect_ignored, position: 0, failures: Vec::new() }
}

impl BatchUpdate {
    /// The next candidate to install: candidates that the batch skips on
    /// `manager` are passed over. `None` once every candidate is handled.
    pub fn next_candidate(&mut self, manager: &ModManager) -> (r: Option<ModId>)
        requires
            manager.wf(),
            old(self).position <= old(self).candidates@.len(),
        ensures
            final(self).candidates == old(self).candidates,
            final(self).respect_ignored == old(self).respect_ignored,
            final(self).failures == old(self).failures,
            old(self).position <= final(self).position <= final(self).candidates@.len(),
            r is None ==> final(self).position == final(self).candidates@.len() && forall|k: int|
                old(self).position <= k < final(self).position ==> skipped(
                    manager,
                    final(self).respect_ignored,
                    #[trigger] final(self).candidates@[k],
                ),
            r matches Some(m) ==> {
                &&& final(self).position >= 1
                &&& m == final(self).candidates@[final(self).position - 1]
                &&& !skipped(manager, final(self).respect_ignored, m)
                &&& forall|k: int|
                    old(self).position <= k < final(self).position - 1 ==> skipped(
                        manager,
                        final(self).respect_ignored,
                        #[trigger] final(self).candidates@[k],
                    )
            },
    {
        let profile = manager.active_profile();
        while self.position < self.candidates.len()
            invariant
                self.candidates == old(self).candidates,
                self.respect_ignored == old(self).respect_ignored,
                self.failures == old(self).failures,
                manager.wf(),
                *profile == manager.active_spec(),
                old(self).position <= self.position <= self.candidates@.len(),
                forall|k: int|
                    old(self).position <= k < self.position ==> skipped(
                        manager,
                        self.respect_ignored,
                        #[trigger] self.candidates@[k],
                    ),
            decreases self.candidates@.len() - self.position,
        {
            let c = self.candidates[self.position];
            self.position = self.position + 1;
            if !(self.respect_ignored && profile.is_ignored(c.version)) {
                return Some(c);
            }
        }
        None
    }

    /// Records what the installer reported for `mod_ref`: on success the
    /// active profile gets its version; on failure the manager is left as it
    /// is and the failure is added to the batch's list.
    pub fn record(&mut self, manager: &mut ModManager, mod_ref: ModId, outcome: Result<(), String>)
        requires
            old(manager).wf(),
        ensures
            final(manager).wf(),
            final(self).candidates == old(self).candidates,
            final(self).respect_ignored == old(self).respect_ignored,
            final(self).position == old(self).position,
            outcome is Ok ==> {
                &&& final(self).failures == old(self).failures
                &&& final(manager).others_same(old(manager))
                &&& final(manager).active_spec().installed() == old(manager).active_spec().installed().insert(
                    mod_ref.package,
                    mod_ref.version,
                )
                &&& final(manager).active_spec().ignored_updates == old(manager).active_spec().ignored_updates
            },
            outcome matches Err(m) ==> {
                &&& *final(manager) == *old(manager)
                &&& final(self).failures@ == old(self).failures@.push(
                    InstallFailure { mod_ref, message: m },
                )
            },
    {
        match outcome {
            Ok(()) => {
                manager.set_active_version(mod_ref);
            },
            Err(message) => {
                self.failures.push(InstallFailure { mod_ref, message });
            },
        }
    }

    /// The batch's result: success when no candidate failed, else every
    /// failure in the order recorded.
    pub fn finish(self) -> (r: Result<(), CmdError>)
        ensures
            r is Ok <==> self.failures@.len() == 0,
            r matches Err(e) ==> e == (CmdError::Batch { failures: self.failures }),
    {
        if self.failures.len() == 0 {
            Ok(())
        } else {
            Err(CmdError::Batch { failures: self.failures })
        }
    }
}

} // verus!
