use vstd::prelude::*;
use vstd::arithmetic::div_mod::lemma_fundamental_div_mod_converse;
use vstd::bytes::lemma_auto_spec_u128_to_from_le_bytes;
use vstd::bytes::{spec_u128_from_le_bytes, spec_u128_to_le_bytes, u128_from_le_bytes, u128_to_le_bytes};
use crate::manager::ModManager;
use crate::profile::{unique_packages, ModEntry, Profile};

verus! {

/// What a profile holds, as mathematical sequences.
pub struct ProfileView {
    pub mods: Seq<ModEntry>,
    pub ignored: Seq<u128>,
}

/// What a manager holds, as mathematical values.
pub struct ManagerView {
    pub profiles: Seq<ProfileView>,
    pub active: nat,
}

/// The mathematical value of a profile.
pub open spec fn profile_view(p: Profile) -> ProfileView {
    ProfileView { mods: p.mods@, ignored: p.ignored_updates@ }
}

/// The mathematical value of a manager.
pub open spec fn manager_view(m: &ModManager) -> ManagerView {
    ManagerView { profiles: m.profiles@.map_values(|p: Profile| profile_view(p)), active: m.active as nat }
}

impl ProfileView {
    /// Each package is installed once and each ignored identifier is listed once.
    pub open spec fn wf(self) -> bool {
        unique_packages(self.mods) && self.ignored.no_duplicates()
    }

    /// Its counts can be written as words.
    pub open spec fn fits(self) -> bool {
        self.mods.len() <= u128::MAX && self.ignored.len() <= u128::MAX
    }
}

impl ManagerView {
    /// At least one profile, the active one exists, and every profile is well formed.
    pub open spec fn wf(self) -> bool {
        &&& self.profiles.len() > 0
        &&& self.active < self.profiles.len()
        &&& forall|i: int| 0 <= i < self.profiles.len() ==> (#[trigger] self.profiles[i]).wf()
    }

    /// Its counts can be written as words.
    pub open spec fn fits(self) -> bool {
        &&& self.profiles.len() <= u128::MAX
        &&& forall|i: int| 0 <= i < self.profiles.len() ==> (#[trigger] self.profiles[i]).fits()
    }
}

// ---- the document as words ----

/// The package and version of each entry, in turn.
pub open spec fn entry_words(s: Seq<ModEntry>) -> Seq<u128> {
    Seq::new(2 * s.len(), |j: int| if j % 2 == 0 { s[j / 2].package } else { s[j / 2].version })
}

/// A profile: the number of mods, their words, the number of ignored
/// identifiers, and those identifiers.
pub open spec fn profile_words(p: ProfileView) -> Seq<u128> {
    seq![p.mods.len() as u128] + entry_words(p.mods) + seq![p.ignored.len() as u128] + p.ignored
}

pub open spec fn profiles_words(ps: Seq<ProfileView>) -> Seq<u128>
    decreases ps.len(),
{
    if ps.len() == 0 {
        Seq::empty()
    } else {
        profile_words(ps[0]) + profiles_words(ps.drop_first())
    }
}

/// The whole document: the number of profiles, the active index, then each profile.
pub open spec fn doc_words(v: ManagerView) -> Seq<u128> {
    seq![v.profiles.len() as u128, v.active as u128] + profiles_words(v.profiles)
}

/// Reads one profile off the front of `w`, with the number of words it took.
pub open spec fn parse_profile(w: Seq<u128>) -> Option<(ProfileView, int)> {
    if w.len() < 1 {
        None
    } else {
        let n = w[0] as int;
        if w.len() < 2 + 2 * n {
            None
        } else {
            let k = w[1 + 2 * n] as int;
            if w.len() < 2 + 2 * n + k {
                None
            } else {
                Some(
                    (
                        ProfileView {
                            mods: Seq::new(
                                n as nat,
                                |i: int| ModEntry { package: w[1 + 2 * i], version: w[2 + 2 * i] },
                            ),
                            ignored: w.subrange(2 + 2 * n, 2 + 2 * n + k),
                        },
                        2 + 2 * n + k,
                    ),
                )
            }
        }
    }
}

/// Reads exactly `count` profiles, which must take all of `w`.
pub open spec fn parse_profiles(w: Seq<u128>, count: nat) -> Option<Seq<ProfileView>>
    decreases count,
{
    if count == 0 {
        if w.len() == 0 {
            Some(Seq::empty())
        } else {
            None
        }
    } else {
        match parse_profile(w) {
            None => None,
            Some((p, used)) => match parse_profiles(w.subrange(used, w.len() as int), (count - 1) as nat) {
                None => None,
                Some(rest) => Some(seq![p] + rest),
            },
        }
    }
}

/// The manager that a word document describes, if it describes a well-formed one.
pub open spec fn parse_doc(w: Seq<u128>) -> Option<ManagerView> {
    if w.len() < 2 {
        None
    } else {
        match parse_profiles(w.subrange(2, w.len() as int), w[0] as nat) {
            None => None,
            Some(ps) => {
                let v = ManagerView { profiles: ps, active: w[1] as nat };
                if v.wf() {
                    Some(v)
                } else {
                    None
                }
            },
        }
    }
}

// ---- words as bytes ----

/// Each word as its 16 little-endian bytes, in turn.
pub open spec fn word_bytes(ws: Seq<u128>) -> Seq<u8> {
    Seq::new(16 * ws.len(), |j: int| spec_u128_to_le_bytes(ws[j / 16])[j % 16])
}

/// The words that `b` holds, 16 little-endian bytes each; `None` where its
/// length is not a multiple of 16.
pub open spec fn bytes_words(b: Seq<u8>) -> Option<Seq<u128>> {
    if b.len() % 16 != 0 {
        None
    } else {
        Some(Seq::new(b.len() / 16, |i: int| spec_u128_from_le_bytes(b.subrange(16 * i, 16 * i + 16))))
    }
}

/// The persisted document of a manager.
pub open spec fn doc_bytes(v: ManagerView) -> Seq<u8> {
    word_bytes(doc_words(v))
}

/// The manager that a persisted document describes, if any.
pub open spec fn parse_bytes(b: Seq<u8>) -> Option<ManagerView> {
    match bytes_words(b) {
        None => None,
        Some(w) => parse_doc(w),
    }
}

// ---- round trip ----

proof fn lemma_word_bytes_chunk(ws: Seq<u128>, i: int)
    requires
        0 <= i < ws.len(),
    ensures
        word_bytes(ws).subrange(16 * i, 16 * i + 16) == spec_u128_to_le_bytes(ws[i]),
{
    lemma_auto_spec_u128_to_from_le_bytes();
    let b = word_bytes(ws);
    assert forall|k: int| 0 <= k < 16 implies #[trigger] b.subrange(16 * i, 16 * i + 16)[k]
        == spec_u128_to_le_bytes(ws[i])[k] by {
        lemma_fundamental_div_mod_converse(16 * i + k, 16, i, k);
    }
    assert(b.subrange(16 * i, 16 * i + 16) =~= spec_u128_to_le_bytes(ws[i]));
}

proof fn lemma_word_bytes_round_trip(ws: Seq<u128>)
    ensures
        bytes_words(word_bytes(ws)) == Some(ws),
{
    lemma_auto_spec_u128_to_from_le_bytes();
    let b = word_bytes(ws);
    lemma_fundamental_div_mod_converse(16 * ws.len() as int, 16, ws.len() as int, 0);
    let w = Seq::new(b.len() / 16, |i: int| spec_u128_from_le_bytes(b.subrange(16 * i, 16 * i + 16)));
    assert forall|i: int| 0 <= i < ws.len() implies #[trigger] w[i] == ws[i] by {
        lemma_word_bytes_chunk(ws, i);
        assert(spec_u128_to_le_bytes(ws[i]).len() == 16);
        assert(spec_u128_from_le_bytes(spec_u128_to_le_bytes(ws[i])) == ws[i]);
    }
    assert(w =~= ws);
}

proof fn lemma_profile_round_trip(p: ProfileView, rest: Seq<u128>)
    requires
        p.fits(),
    ensures
        parse_profile(profile_words(p) + rest) == Some((p, profile_words(p).len() as int)),
{
    let w = profile_words(p) + rest;
    let n = p.mods.len() as int;
    let k = p.ignored.len() as int;
    let e = entry_words(p.mods);
    assert(w[0] as int == n);
    assert(w[1 + 2 * n] == k as u128);
    let mods = Seq::new(n as nat, |i: int| ModEntry { package: w[1 + 2 * i], version: w[2 + 2 * i] });
    assert forall|i: int| 0 <= i < n implies #[trigger] mods[i] == p.mods[i] by {
        lemma_fundamental_div_mod_converse(2 * i, 2, i, 0);
        lemma_fundamental_div_mod_converse(2 * i + 1, 2, i, 1);
        assert(w[1 + 2 * i] == e[2 * i]);
        assert(w[2 + 2 * i] == e[2 * i + 1]);
    }
    assert(mods =~= p.mods);
    assert(w.subrange(2 + 2 * n, 2 + 2 * n + k) =~= p.ignored);
}

proof fn lemma_profiles_round_trip(ps: Seq<ProfileView>)
    requires
        forall|i: int| 0 <= i < ps.len() ==> (#[trigger] ps[i]).fits(),
    ensures
        parse_profiles(profiles_words(ps), ps.len()) == Some(ps),
    decreases ps.len(),
{
    if ps.len() > 0 {
        let w = profiles_words(ps);
        let tail = profiles_words(ps.drop_first());
        assert(ps[0].fits());
        lemma_profile_round_trip(ps[0], tail);
        let used = profile_words(ps[0]).len() as int;
        assert(w.subrange(used, w.len() as int) =~= tail);
        assert forall|i: int| 0 <= i < ps.drop_first().len() implies (#[trigger] ps.drop_first()[i]).fits() by {
            assert(ps[i + 1].fits());
        }
        lemma_profiles_round_trip(ps.drop_first());
        assert(seq![ps[0]] + ps.drop_first() =~= ps);
    }
}

/// Loading what was saved gives back the same profiles, entries, ignored
/// identifiers and active profile.
pub proof fn save_then_load(v: ManagerView)
    requires
        v.wf(),
        v.fits(),
    ensures
        parse_bytes(doc_bytes(v)) == Some(v),
{
    let w = doc_words(v);
    lemma_word_bytes_round_trip(w);
    assert(w.subrange(2, w.len() as int) =~= profiles_words(v.profiles));
    lemma_profiles_round_trip(v.profiles);
}

proof fn lemma_manager_fits(m: &ModManager)
    requires
        m.wf(),
    ensures
        manager_view(m).wf(),
        manager_view(m).fits(),
{
    let v = manager_view(m);
    assert(m.profiles.len() == m.profiles@.len());
    assert forall|i: int| 0 <= i < v.profiles.len() implies (#[trigger] v.profiles[i]).wf() && v.profiles[i].fits() by {
        let p = m.profiles@[i];
        assert(p.wf());
        assert(p.mods.len() == p.mods@.len());
        assert(p.ignored_updates.len() == p.ignored_updates@.len());
    }
}

proof fn lemma_profiles_words_snoc(s: Seq<ProfileView>, p: ProfileView)
    ensures
        profiles_words(s.push(p)) == profiles_words(s) + profile_words(p),
    decreases s.len(),
{
    if s.len() == 0 {
        assert(s.push(p).drop_first() =~= Seq::<ProfileView>::empty());
        assert(profiles_words(Seq::<ProfileView>::empty()) == Seq::<u128>::empty());
        assert(s.push(p)[0] == p);
        assert(profiles_words(s.push(p)) =~= profile_words(p));
    } else {
        assert(s.push(p).drop_first() =~= s.drop_first().push(p));
        lemma_profiles_words_snoc(s.drop_first(), p);
        assert(profiles_words(s.push(p)) =~= profiles_words(s) + profile_words(p));
    }
}

fn push_profile_words(w: &mut Vec<u128>, p: &Profile)
    ensures
        final(w)@ == old(w)@ + profile_words(profile_view(*p)),
{
    let ghost base = w@;
    let ghost mods = p.mods@;
    w.push(p.mods.len() as u128);
    let mut j: usize = 0;
    while j < p.mods.len()
        invariant
            j <= mods.len(),
            mods == p.mods@,
            w@ == base + seq![mods.len() as u128] + entry_words(mods.take(j as int)),
        decreases mods.len() - j,
    {
        let e = p.mods[j];
        w.push(e.package);
        w.push(e.version);
        proof {
            let prev = entry_words(mods.take(j as int));
            let next = entry_words(mods.take(j + 1));
            assert forall|t: int| 0 <= t < 2 * j + 2 implies #[trigger] next[t] == (prev + seq![e.package, e.version])[t] by {
                if t < 2 * j {
                    assert(t / 2 < j);
                } else if t == 2 * j {
                    lemma_fundamental_div_mod_converse(t, 2, j as int, 0);
                } else {
                    lemma_fundamental_div_mod_converse(t, 2, j as int, 1);
                }
            }
            assert(next =~= prev + seq![e.package, e.version]);
        }
        j = j + 1;
    }
    assert(mods.take(mods.len() as int) =~= mods);
    let ghost mid = w@;
    w.push(p.ignored_updates.len() as u128);
    let mut j: usize = 0;
    while j < p.ignored_updates.len()
        invariant
            j <= p.ignored_updates@.len(),
            w@ == mid + seq![p.ignored_updates@.len() as u128] + p.ignored_updates@.take(j as int),
        decreases p.ignored_updates@.len() - j,
    {
        w.push(p.ignored_updates[j]);
        assert(p.ignored_updates@.take(j + 1) =~= p.ignored_updates@.take(j as int).push(p.ignored_updates@[j as int]));
        j = j + 1;
    }
    assert(p.ignored_updates@.take(j as int) =~= p.ignored_updates@);
    assert(w@ =~= base + profile_words(profile_view(*p)));
}

fn encode_words(m: &ModManager) -> (r: Vec<u128>)
    ensures
        r@ == doc_words(manager_view(m)),
{
    let ghost v = manager_view(m);
    let mut w: Vec<u128> = Vec::new();
    w.push(m.profiles.len() as u128);
    w.push(m.active as u128);
    let mut i: usize = 0;
    while i < m.profiles.len()
        invariant
            i <= m.profiles@.len(),
            v == manager_view(m),
            w@ == seq![v.profiles.len() as u128, v.active as u128] + profiles_words(v.profiles.take(i as int)),
        decreases m.profiles@.len() - i,
    {
        push_profile_words(&mut w, &m.profiles[i]);
        proof {
            lemma_profiles_words_snoc(v.profiles.take(i as int), v.profiles[i as int]);
            assert(v.profiles.take(i + 1) =~= v.profiles.take(i as int).push(v.profiles[i as int]));
        }
        i = i + 1;
    }
    assert(v.profiles.take(i as int) =~= v.profiles);
    assert(w@ =~= doc_words(v));
    w
}

fn words_to_bytes(w: &Vec<u128>) -> (r: Vec<u8>)
    ensures
        r@ == word_bytes(w@),
{
    let mut out: Vec<u8> = Vec::new();
    let mut i: usize = 0;
    while i < w.len()
        invariant
            i <= w@.len(),
            out@ == word_bytes(w@.take(i as int)),
        decreases w@.len() - i,
    {
        let mut b = u128_to_le_bytes(w[i]);
        let ghost prev = out@;
        let ghost chunk = b@;
        out.append(&mut b);
        proof {
            let next = word_bytes(w@.take(i + 1));
            assert forall|j: int| 0 <= j < 16 * i + 16 implies #[trigger] next[j] == (prev + chunk)[j] by {
                if j < 16 * i {
                    assert(j / 16 < i);
                } else {
                    lemma_fundamental_div_mod_converse(j, 16, i as int, j - 16 * i);
                }
            }
            assert(next =~= prev + chunk);
        }
        i = i + 1;
    }
    assert(w@.take(i as int) =~= w@);
    out
}

/// Loading the document saved from a well-formed manager gives back its
/// profiles, their entries and ignored identifiers, and its active profile.
pub proof fn saved_manager_reloads(m: &ModManager)
    requires
        m.wf(),
    ensures
        parse_bytes(doc_bytes(manager_view(m))) == Some(manager_view(m)),
{
    lemma_manager_fits(m);
    save_then_load(manager_view(m));
}

/// The persisted document of `m`.
pub fn encode_state(m: &ModManager) -> (r: Vec<u8>)
    ensures
        r@ == doc_bytes(manager_view(m)),
{
    let w = encode_words(m);
    words_to_bytes(&w)
}

fn bytes_to_words(b: &Vec<u8>) -> (r: Option<Vec<u128>>)
    ensures
        r is None <==> bytes_words(b@) is None,
        r matches Some(w) ==> bytes_words(b@) == Some(w@),
{
    if b.len() % 16 != 0 {
        return None;
    }
    let blen: usize = b.len();
    let n: usize = blen / 16;
    let mut out: Vec<u128> = Vec::new();
    let mut i: usize = 0;
    while i < n
        invariant
            i <= n,
            16 * n == b@.len(),
            blen == b@.len(),
            out@ == Seq::new(i as nat, |t: int| spec_u128_from_le_bytes(b@.subrange(16 * t, 16 * t + 16))),
        decreases n - i,
    {
        let mut chunk: Vec<u8> = Vec::new();
        let mut k: usize = 0;
        while k < 16
            invariant
                i < n,
                16 * n == b@.len(),
                blen == b@.len(),
                k <= 16,
                chunk@ == b@.subrange(16 * i, 16 * i + k),
            decreases 16 - k,
        {
            chunk.push(b[16 * i + k]);
            assert(chunk@ =~= b@.subrange(16 * i, 16 * i + k + 1));
            k = k + 1;
        }
        let x = u128_from_le_bytes(chunk.as_slice());
        out.push(x);
        assert(out@ =~= Seq::new((i + 1) as nat, |t: int| spec_u128_from_le_bytes(b@.subrange(16 * t, 16 * t + 16))));
        i = i + 1;
    }
    Some(out)
}

/// `Some(prefix + rest)` where `o` is `Some(rest)`; `None` where it is `None`.
pub open spec fn prepend(prefix: Seq<ProfileView>, o: Option<Seq<ProfileView>>) -> Option<Seq<ProfileView>> {
    match o {
        Some(rest) => Some(prefix + rest),
        None => None,
    }
}

/// Reads one profile at `pos`. `None` where the words there are no profile or
/// describe one that is not well formed.
fn parse_profile_at(w: &Vec<u128>, pos: usize) -> (r: Option<(Profile, usize)>)
    requires
        pos <= w@.len(),
    ensures
        r matches Some((p, next)) ==> {
            &&& p.wf()
            &&& pos < next <= w@.len()
            &&& parse_profile(w@.subrange(pos as int, w@.len() as int)) == Some((profile_view(p), next - pos))
        },
        r is None ==> match parse_profile(w@.subrange(pos as int, w@.len() as int)) {
            None => true,
            Some((pv, _)) => !pv.wf(),
        },
{
    let ghost sub = w@.subrange(pos as int, w@.len() as int);
    let len = w.len();
    if pos >= len {
        return None;
    }
    let n = w[pos];
    let avail: u128 = (len - pos - 1) as u128;
    if n > avail / 2 {
        return None;
    }
    if avail - 2 * n == 0 {
        return None;
    }
    let n: usize = n as usize;
    let kpos: usize = pos + 1 + 2 * n;
    let k = w[kpos];
    let rem: u128 = avail - 2 * (n as u128) - 1;
    if k > rem {
        return None;
    }
    let k: usize = k as usize;
    let ghost parsed = parse_profile(sub)->Some_0.0;
    assert(parse_profile(sub) is Some);
    let ghost entries = Seq::new(
        n as nat,
        |i: int| ModEntry { package: w@[pos + 1 + 2 * i], version: w@[pos + 2 + 2 * i] },
    );
    assert(parsed.mods =~= entries);
    let mut profile = Profile::new();
    let mut j: usize = 0;
    while j < n
        invariant
            j <= n,
            kpos == pos + 1 + 2 * n,
            kpos < w@.len(),
            sub == w@.subrange(pos as int, w@.len() as int),
            parsed == parse_profile(sub)->Some_0.0,
            parsed.mods == entries,
            entries.len() == n,
            forall|i: int| 0 <= i < n ==> #[trigger] entries[i] == (ModEntry { package: w@[pos + 1 + 2 * i], version: w@[pos + 2 + 2 * i] }),
            profile.wf(),
            profile.ignored_updates@.len() == 0,
            profile.mods@ == parsed.mods.take(j as int),
        decreases n - j,
    {
        let e = ModEntry { package: w[pos + 1 + 2 * j], version: w[pos + 2 + 2 * j] };
        assert(e == parsed.mods[j as int]);
        match profile.find_mod(e.package) {
            Some(i) => {
                assert(parsed.mods[i as int] == profile.mods@[i as int]);
                return None;
            },
            None => {},
        }
        profile.mods.push(e);
        assert(profile.mods@ =~= parsed.mods.take(j + 1));
        j = j + 1;
    }
    assert(profile.mods@ =~= parsed.mods);
    let mut j: usize = 0;
    while j < k
        invariant
            j <= k,
            kpos + 1 + k <= w@.len(),
            len == w@.len(),
            sub == w@.subrange(pos as int, w@.len() as int),
            parsed == parse_profile(sub)->Some_0.0,
            parsed.ignored == w@.subrange(kpos + 1, kpos + 1 + k),
            profile.wf(),
            profile.mods@ == parsed.mods,
            profile.ignored_updates@ == parsed.ignored.take(j as int),
        decreases k - j,
    {
        let x = w[kpos + 1 + j];
        assert(x == parsed.ignored[j as int]);
        if profile.is_ignored(x) {
            proof {
                let t = choose|t: int| 0 <= t < profile.ignored_updates@.len() && profile.ignored_updates@[t] == x;
                assert(parsed.ignored[t] == x);
            }
            return None;
        }
        profile.ignored_updates.push(x);
        assert(profile.ignored_updates@ =~= parsed.ignored.take(j + 1));
        j = j + 1;
    }
    assert(profile.ignored_updates@ =~= parsed.ignored);
    Some((profile, kpos + 1 + k))
}

fn decode_words(w: &Vec<u128>) -> (r: Option<ModManager>)
    ensures
        r is None <==> parse_doc(w@) is None,
        r matches Some(m) ==> m.wf() && parse_doc(w@) == Some(manager_view(&m)),
{
    if w.len() < 2 {
        return None;
    }
    let count = w[0];
    let active = w[1];
    let ghost full = w@.subrange(2, w@.len() as int);
    let mut profiles: Vec<Profile> = Vec::new();
    let mut pos: usize = 2;
    let mut i: u128 = 0;
    while i < count
        invariant
            2 <= pos <= w@.len(),
            i <= count,
            count == w@[0],
            full == w@.subrange(2, w@.len() as int),
            profiles@.len() == i,
            forall|t: int| 0 <= t < profiles@.len() ==> (#[trigger] profiles@[t]).wf(),
            parse_profiles(full, count as nat) == prepend(
                profiles@.map_values(|p: Profile| profile_view(p)),
                parse_profiles(w@.subrange(pos as int, w@.len() as int), (count - i) as nat),
            ),
        decreases w@.len() - pos,
    {
        let ghost sub = w@.subrange(pos as int, w@.len() as int);
        let ghost views = profiles@.map_values(|p: Profile| profile_view(p));
        match parse_profile_at(w, pos) {
            None => {
                proof {
                    if let Some((pv, used)) = parse_profile(sub) {
                        if let Some(rest) = parse_profiles(sub.subrange(used, sub.len() as int), (count - i - 1) as nat) {
                            let all = views + (seq![pv] + rest);
                            assert(all[views.len() as int] == pv);
                            assert(!all[views.len() as int].wf());
                        }
                    }
                }
                return None;
            },
            Some((p, next)) => {
                proof {
                    assert(sub.subrange(next - pos, sub.len() as int) =~= w@.subrange(next as int, w@.len() as int));
                }
                profiles.push(p);
                proof {
                    let nviews = profiles@.map_values(|p: Profile| profile_view(p));
                    assert(nviews =~= views.push(profile_view(p)));
                    let o = parse_profiles(w@.subrange(next as int, w@.len() as int), (count - i - 1) as nat);
                    if let Some(rest) = o {
                        assert(views + (seq![profile_view(p)] + rest) =~= nviews + rest);
                    }
                }
                pos = next;
                i = i + 1;
            },
        }
    }
    let ghost views = profiles@.map_values(|p: Profile| profile_view(p));
    if pos != w.len() {
        return None;
    }
    assert(w@.subrange(pos as int, w@.len() as int) =~= Seq::<u128>::empty());
    assert(views + Seq::<ProfileView>::empty() =~= views);
    assert(parse_profiles(Seq::<u128>::empty(), 0) == Some(Seq::<ProfileView>::empty()));
    if count == 0 || active >= count {
        return None;
    }
    assert(profiles.len() == profiles@.len());
    assert(active < profiles@.len());
    let m = ModManager { profiles, active: active as usize };
    assert(manager_view(&m).profiles == views);
    assert(manager_view(&m).active == w@[1] as nat);
    assert forall|t: int| 0 <= t < views.len() implies (#[trigger] views[t]).wf() by {
        assert(m.profiles@[t].wf());
    }
    Some(m)
}

/// The manager that a persisted document describes; `None` where the bytes
/// are no document or describe a manager that is not well formed.
pub fn decode_state(b: &Vec<u8>) -> (r: Option<ModManager>)
    ensures
        r is None <==> parse_bytes(b@) is None,
        r matches Some(m) ==> m.wf() && parse_bytes(b@) == Some(manager_view(&m)),
{
    match bytes_to_words(b) {
        None => None,
        Some(w) => decode_words(&w),
    }
}

} // verus!
