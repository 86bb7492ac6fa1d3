use vstd::prelude::*;
use crate::profile::{ModId, Profile};

verus! {

/// The profiles and which of them is active.
pub struct ModManager {
    pub profiles: Vec<Profile>,
    pub active: usize,
}

impl ModManager {
    /// At least one profile, the active one exists, and every profile is well formed.
    pub open spec fn wf(&self) -> bool {
        &&& self.profiles@.len() > 0
        &&& self.active < self.profiles@.len()
        &&& forall|i: int| 0 <= i < self.profiles@.len() ==> (#[trigger] self.profiles@[i]).wf()
    }

    /// The active profile.
    pub open spec fn active_spec(&self) -> Profile {
        self.profiles@[self.active as int]
    }

    /// The profiles other than the active one are those of `other`, and the
    /// active index is the same.
    pub open spec fn others_same(&self, other: &ModManager) -> bool {
        &&& self.active == other.active
        &&& self.profiles@.len() == other.profiles@.len()
        &&& forall|i: int| 0 <= i < self.profiles@.len() && i != self.active ==> self.profiles@[i] == other.profiles@[i]
    }

    /// A manager with one empty profile, which is active.
    pub fn new() -> (r: ModManager)
        ensures
            r.wf(),
            r.profiles@.len() == 1,
            r.active == 0,
            r.active_spec().installed() == Map::<u128, u128>::empty(),
            r.active_spec().ignored() == Set::<u128>::empty(),
    {
        let mut profiles: Vec<Profile> = Vec::new();
        profiles.push(Profile::new());
        ModManager { profiles, active: 0 }
    }

    /// The active profile.
    pub fn active_profile(&self) -> (r: &Profile)
        requires
            self.wf(),
        ensures
            *r == self.active_spec(),
            r.wf(),
    {
        &self.profiles[self.active]
    }

    /// Installs `mod_ref` in the active profile (see `Profile::set_version`).
    pub fn set_active_version(&mut self, mod_ref: ModId)
        requires
            old(self).wf(),
        ensures
            final(self).wf(),
            final(self).others_same(old(self)),
            final(self).active_spec().installed() == old(self).active_spec().installed().insert(mod_ref.package, mod_ref.version),
            final(self).active_spec().ignored_updates == old(self).active_spec().ignored_updates,
    {
        let a = self.active;
        let ghost before = self.profiles@;
        assert(self.profiles@[a as int].wf());
        self.profiles[a].set_version(mod_ref);
        assert forall|i: int| 0 <= i < self.profiles@.len() implies (#[trigger] self.profiles@[i]).wf() by {
            if i != a {
                assert(self.profiles@[i] == before[i]);
            }
        }
    }

    /// Adds `version` to the active profile's ignored updates (see `Profile::ignore`).
    pub fn ignore_active(&mut self, version: u128)
        requires
            old(self).wf(),
        ensures
            final(self).wf(),
            final(self).others_same(old(self)),
            final(self).active_spec().ignored_updates@ == crate::profile::ignore_result(old(self).active_spec().ignored_updates@, version),
            final(self).active_spec().mods == old(self).active_spec().mods,
    {
        let a = self.active;
        let ghost before = self.profiles@;
        assert(self.profiles@[a as int].wf());
        self.profiles[a].ignore(version);
        assert forall|i: int| 0 <= i < self.profiles@.len() implies (#[trigger] self.profiles@[i]).wf() by {
            if i != a {
                assert(self.profiles@[i] == before[i]);
            }
        }
    }
}

} // verus!
