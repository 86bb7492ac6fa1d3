use vstd::prelude::*;

verus! {

/// A mod package together with one version of it.
#[derive(Clone, Copy, Debug, PartialEq, Eq, Structural)]
pub struct ModId {
    pub package: u128,
    pub version: u128,
}

/// One installed mod of a profile: its package and the version installed.
#[derive(Clone, Copy, Debug, PartialEq, Eq, Structural)]
pub struct ModEntry {
    pub package: u128,
    pub version: u128,
}

/// The installed versions of a sequence of entries, keyed by package.
/// A later entry for a package overrides an earlier one.
pub open spec fn installed_map(s: Seq<ModEntry>) -> Map<u128, u128>
    decreases s.len(),
{
    if s.len() == 0 {
        Map::empty()
    } else {
        installed_map(s.drop_last()).insert(s.last().package, s.last().version)
    }
}

/// No two entries name the same package.
pub open spec fn unique_packages(s: Seq<ModEntry>) -> bool {
    forall|i: int, j: int|
        0 <= i < s.len() && 0 <= j < s.len() && i != j ==> s[i].package != s[j].package
}

proof fn lemma_installed_dom(s: Seq<ModEntry>, p: u128)
    ensures
        installed_map(s).contains_key(p) <==> exists|i: int| 0 <= i < s.len() && s[i].package == p,
    decreases s.len(),
{
    if s.len() > 0 {
        lemma_installed_dom(s.drop_last(), p);
        if installed_map(s).contains_key(p) && s.last().package != p {
            let i = choose|i: int| 0 <= i < s.drop_last().len() && s.drop_last()[i].package == p;
            assert(s[i].package == p);
        }
        if exists|i: int| 0 <= i < s.len() && s[i].package == p {
            let i = choose|i: int| 0 <= i < s.len() && s[i].package == p;
            if i < s.len() - 1 {
                assert(s.drop_last()[i].package == p);
            }
        }
    }
}

proof fn lemma_installed_at(s: Seq<ModEntry>, i: int)
    requires
        unique_packages(s),
        0 <= i < s.len(),
    ensures
        installed_map(s).contains_key(s[i].package),
        installed_map(s)[s[i].package] == s[i].version,
    decreases s.len(),
{
    if i < s.len() - 1 {
        assert(s.drop_last()[i] == s[i]);
        lemma_installed_at(s.drop_last(), i);
    }
}

proof fn lemma_installed_update(s: Seq<ModEntry>, i: int, e: ModEntry)
    requires
        unique_packages(s),
        0 <= i < s.len(),
        s[i].package == e.package,
    ensures
        installed_map(s.update(i, e)) == installed_map(s).insert(e.package, e.version),
    decreases s.len(),
{
    let t = s.update(i, e);
    if i == s.len() - 1 {
        assert(t.drop_last() =~= s.drop_last());
        assert(installed_map(t) =~= installed_map(s).insert(e.package, e.version));
    } else {
        assert(t.drop_last() =~= s.drop_last().update(i, e));
        lemma_installed_update(s.drop_last(), i, e);
        assert(s.last().package != e.package);
        assert(installed_map(t) =~= installed_map(s).insert(e.package, e.version));
    }
}

/// The ignored identifiers after `version` is ignored: unchanged where it
/// is already listed, else with it appended.
pub open spec fn ignore_result(s: Seq<u128>, version: u128) -> Seq<u128> {
    if s.contains(version) {
        s
    } else {
        s.push(version)
    }
}

/// Ignoring the same identifier twice leaves what ignoring it once leaves.
pub proof fn ignore_twice_same_as_once(s: Seq<u128>, version: u128)
    ensures
        ignore_result(ignore_result(s, version), version) == ignore_result(s, version),
{
    if !s.contains(version) {
        assert(s.push(version)[s.len() as int] == version);
    }
}

/// A profile: its installed mods, one entry per package, and the version
/// identifiers whose updates are not to be offered again.
pub struct Profile {
    pub mods: Vec<ModEntry>,
    pub ignored_updates: Vec<u128>,
}

impl Profile {
    /// Each package is installed once and each ignored identifier is listed once.
    pub open spec fn wf(&self) -> bool {
        &&& unique_packages(self.mods@)
        &&& self.ignored_updates@.no_duplicates()
    }

    /// The installed version of each package.
    pub open spec fn installed(&self) -> Map<u128, u128> {
        installed_map(self.mods@)
    }

    /// The set of ignored update identifiers.
    pub open spec fn ignored(&self) -> Set<u128> {
        self.ignored_updates@.to_set()
    }

    /// An empty profile.
    pub fn new() -> (r: Profile)
        ensures
            r.wf(),
            r.mods@ == Seq::<ModEntry>::empty(),
            r.ignored_updates@ == Seq::<u128>::empty(),
            r.installed() == Map::<u128, u128>::empty(),
            r.ignored() == Set::<u128>::empty(),
    {
        let r = Profile { mods: Vec::new(), ignored_updates: Vec::new() };
        assert(r.ignored() =~= Set::<u128>::empty());
        r
    }

    /// The position of the entry for `package`, if it is installed.
    pub fn find_mod(&self, package: u128) -> (r: Option<usize>)
        requires
            self.wf(),
        ensures
            r is None <==> !self.installed().contains_key(package),
            r is None ==> forall|j: int| 0 <= j < self.mods@.len() ==> self.mods@[j].package != package,
            r matches Some(i) ==> i < self.mods@.len() && self.mods@[i as int].package == package,
    {
        let mut i: usize = 0;
        while i < self.mods.len()
            invariant
                i <= self.mods@.len(),
                forall|j: int| 0 <= j < i ==> self.mods@[j].package != package,
            decreases self.mods@.len() - i,
        {
            if self.mods[i].package == package {
                proof {
                    lemma_installed_dom(self.mods@, package);
                }
                return Some(i);
            }
            i = i + 1;
        }
        proof {
            lemma_installed_dom(self.mods@, package);
        }
        None
    }

    /// The installed version of `package`, if any.
    pub fn installed_version(&self, package: u128) -> (r: Option<u128>)
        requires
            self.wf(),
        ensures
            r is None <==> !self.installed().contains_key(package),
            r matches Some(v) ==> self.installed()[package] == v,
    {
        match self.find_mod(package) {
            Some(i) => {
                proof {
                    lemma_installed_at(self.mods@, i as int);
                }
                Some(self.mods[i].version)
            },
            None => None,
        }
    }

    /// Installs `mod_ref`'s version for its package, replacing the entry of
    /// that package in place, or appending one where none is installed.
    pub fn set_version(&mut self, mod_ref: ModId)
        requires
            old(self).wf(),
        ensures
            final(self).wf(),
            final(self).installed() == old(self).installed().insert(mod_ref.package, mod_ref.version),
            final(self).ignored_updates == old(self).ignored_updates,
    {
        let e = ModEntry { package: mod_ref.package, version: mod_ref.version };
        match self.find_mod(mod_ref.package) {
            Some(i) => {
                proof {
                    lemma_installed_update(self.mods@, i as int, e);
                }
                self.mods[i] = e;
            },
            None => {
                proof {
                    lemma_installed_dom(self.mods@, mod_ref.package);
                    assert(self.mods@.push(e).drop_last() =~= self.mods@);
                }
                self.mods.push(e);
            },
        }
    }

    /// Whether `version` is among the ignored updates.
    pub fn is_ignored(&self, version: u128) -> (r: bool)
        ensures
            r == self.ignored().contains(version),
    {
        let mut i: usize = 0;
        while i < self.ignored_updates.len()
            invariant
                i <= self.ignored_updates@.len(),
                forall|j: int| 0 <= j < i ==> self.ignored_updates@[j] != version,
            decreases self.ignored_updates@.len() - i,
        {
            if self.ignored_updates[i] == version {
                return true;
            }
            i = i + 1;
        }
        false
    }

    /// Adds `version` to the ignored updates; already present, nothing changes.
    pub fn ignore(&mut self, version: u128)
        requires
            old(self).wf(),
        ensures
            final(self).wf(),
            final(self).ignored() == old(self).ignored().insert(version),
            final(self).ignored_updates@ == ignore_result(old(self).ignored_updates@, version),
            final(self).mods == old(self).mods,
    {
        if !self.is_ignored(version) {
            self.ignored_updates.push(version);
            assert(self.ignored() =~= old(self).ignored().insert(version)) by {
                assert(self.ignored_updates@ == old(self).ignored_updates@.push(version));
                assert forall|x: u128| self.ignored_updates@.contains(x) <==> old(self).ignored_updates@.contains(x) || x == version by {
                    if x == version {
                        assert(self.ignored_updates@[old(self).ignored_updates@.len() as int] == version);
                    }
                    if old(self).ignored_updates@.contains(x) {
                        let j = choose|j: int| 0 <= j < old(self).ignored_updates@.len() && old(self).ignored_updates@[j] == x;
                        assert(self.ignored_updates@[j] == x);
                    }
                }
            }
        } else {
            assert(self.ignored() =~= old(self).ignored().insert(version));
        }
    }
}

} // verus!
