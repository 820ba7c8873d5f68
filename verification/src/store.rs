//! The profile store: the saved profiles in order and the id of the active one. Reading and
//! writing it to disk happens elsewhere; here is what each request does to it.
use vstd::prelude::*;
use crate::error::AppError;
use crate::profile::{
    detect_passphrase, opt_view, uuid_v4_text, secret_key_decoding, KeyDecoding,
    ProfileKind, ProfileModel, SaveProfileInput, InputModel, ServerProfile, new_profile_id,
};

verus! {

/// The saved profiles and the id of the active one.
pub struct ProfileStore {
    pub profiles: Vec<ServerProfile>,
    pub active_profile_id: Option<String>,
}

/// The profiles of a list, as models.
pub open spec fn models(ps: Seq<ServerProfile>) -> Seq<ProfileModel> {
    ps.map_values(|p: ServerProfile| p@)
}

/// What the store holds.
pub struct StoreModel {
    pub profiles: Seq<ProfileModel>,
    pub active: Option<Seq<char>>,
}

impl View for ProfileStore {
    type V = StoreModel;

    open spec fn view(&self) -> StoreModel {
        StoreModel { profiles: models(self.profiles@), active: opt_view(self.active_profile_id) }
    }
}

impl Default for ProfileStore {
    fn default() -> (r: ProfileStore)
        ensures
            r@.profiles.len() == 0,
            r@.active is None,
    {
        ProfileStore { profiles: Vec::new(), active_profile_id: None }
    }
}

/// The position of the first profile of `ps` from `k` on whose id is `id`.
pub open spec fn index_of_id(ps: Seq<ProfileModel>, id: Seq<char>, k: int) -> Option<int>
    decreases ps.len() - k,
{
    if k < 0 || k >= ps.len() {
        None
    } else if ps[k].id == id {
        Some(k)
    } else {
        index_of_id(ps, id, k + 1)
    }
}

/// The first profile of `ps` whose id is `id`.
pub open spec fn find_profile(ps: Seq<ProfileModel>, id: Seq<char>) -> Option<ProfileModel> {
    match index_of_id(ps, id, 0) {
        Some(k) => Some(ps[k]),
        None => None,
    }
}

/// The key text and passphrase flag a saved SSH profile gets: the new key (whose flag comes
/// from decoding it), or, when the form left the key empty, the stored profile's; `None`
/// when the key is empty and there is no stored profile.
pub open spec fn key_for(input: InputModel, existing: Option<ProfileModel>) -> Option<(Seq<char>, bool)> {
    if input.private_key.len() == 0 {
        match existing {
            Some(e) => Some((e.private_key, e.has_passphrase)),
            None => None,
        }
    } else {
        Some((input.private_key, secret_key_decoding(input.private_key) == KeyDecoding::Encrypted))
    }
}

/// The trusted host key fingerprint a saved SSH profile keeps: the stored one while host
/// and port stay the same, otherwise none (the new server must be trusted anew).
pub open spec fn fingerprint_for(input: InputModel, existing: Option<ProfileModel>) -> Option<Seq<char>> {
    match existing {
        Some(e) => if e.host == input.host && e.port == input.port {
            e.host_key_fingerprint
        } else {
            None
        },
        None => None,
    }
}

/// The profile that saving `input` under `id` into `ps` stores; `None` when an SSH profile
/// is new and has no key.
pub open spec fn saved_profile(ps: Seq<ProfileModel>, input: InputModel, id: Seq<char>) -> Option<ProfileModel> {
    let existing = find_profile(ps, id);
    match input.kind {
        ProfileKind::Local => Some(
            ProfileModel {
                id,
                name: input.name,
                kind: ProfileKind::Local,
                host: Seq::empty(),
                port: 0,
                username: Seq::empty(),
                private_key: Seq::empty(),
                has_passphrase: false,
                engine_command: Seq::empty(),
                host_key_fingerprint: None,
            },
        ),
        ProfileKind::Ssh => match key_for(input, existing) {
            None => None,
            Some((key, has_passphrase)) => Some(
                ProfileModel {
                    id,
                    name: input.name,
                    kind: ProfileKind::Ssh,
                    host: input.host,
                    port: input.port,
                    username: input.username,
                    private_key: key,
                    has_passphrase,
                    engine_command: input.engine_command,
                    host_key_fingerprint: fingerprint_for(input, existing),
                },
            ),
        },
    }
}

/// `ps` with `p` in place of the first profile with its id, or with `p` added at the end.
pub open spec fn upsert(ps: Seq<ProfileModel>, p: ProfileModel) -> Seq<ProfileModel> {
    match index_of_id(ps, p.id, 0) {
        Some(k) => ps.update(k, p),
        None => ps.push(p),
    }
}

/// `ps` without the profiles whose id is `id`.
pub open spec fn without_id(ps: Seq<ProfileModel>, id: Seq<char>) -> Seq<ProfileModel>
    decreases ps.len(),
{
    if ps.len() == 0 {
        ps
    } else if ps.last().id != id {
        without_id(ps.drop_last(), id).push(ps.last())
    } else {
        without_id(ps.drop_last(), id)
    }
}

/// Saving `input` under `id` turned the store `before` into `after` with the result `r`:
/// the saved profile replaces the one with its id or is added, or, for a new SSH profile
/// without a key, the request is refused and the store unchanged.
pub open spec fn save_outcome(
    before: StoreModel,
    input: InputModel,
    id: Seq<char>,
    r: Result<ServerProfile, AppError>,
    after: StoreModel,
) -> bool {
    match saved_profile(before.profiles, input, id) {
        Some(p) => r matches Ok(q) && q@ == p && after == (StoreModel {
            profiles: upsert(before.profiles, p),
            active: before.active,
        }),
        None => r matches Err(AppError::InvalidInput(m)) && m@ == missing_key_message() && after
            == before,
    }
}

/// The message of the error for a new SSH profile without a key.
pub open spec fn missing_key_message() -> Seq<char> {
    "SSH private key를 입력하세요"@
}

proof fn lemma_index_of_id_bounds(ps: Seq<ProfileModel>, id: Seq<char>, k: int)
    requires
        0 <= k,
    ensures
        match index_of_id(ps, id, k) {
            Some(i) => k <= i < ps.len() && ps[i].id == id,
            None => forall|i: int| k <= i < ps.len() ==> #[trigger] ps[i].id != id,
        },
    decreases ps.len() - k,
{
    if k < ps.len() && ps[k].id != id {
        lemma_index_of_id_bounds(ps, id, k + 1);
    }
}

/// The position of the first profile of `ps` whose id is `id`.
fn position_of(ps: &Vec<ServerProfile>, id: &String) -> (r: Option<usize>)
    ensures
        match r {
            Some(k) => index_of_id(models(ps@), id@, 0) == Some(k as int),
            None => index_of_id(models(ps@), id@, 0) is None,
        },
{
    let ghost m = models(ps@);
    let mut k: usize = 0;
    while k < ps.len()
        invariant
            m == models(ps@),
            k <= ps@.len(),
            index_of_id(m, id@, k as int) == index_of_id(m, id@, 0),
        decreases ps@.len() - k,
    {
        assert(m[k as int] == ps@[k as int]@);
        if ps[k].id == *id {
            return Some(k);
        }
        k += 1;
    }
    None
}

/// Copies of the profiles of `ps`.
fn copy_all(ps: &Vec<ServerProfile>) -> (r: Vec<ServerProfile>)
    ensures
        models(r@) == models(ps@),
{
    let mut out: Vec<ServerProfile> = Vec::new();
    let mut k: usize = 0;
    while k < ps.len()
        invariant
            k <= ps@.len(),
            models(out@) == models(ps@).take(k as int),
        decreases ps@.len() - k,
    {
        let p = ps[k].copy();
        let ghost before = out@;
        out.push(p);
        proof {
            assert(models(out@) =~= models(before).push(p@));
            assert(models(ps@).take(k + 1) =~= models(ps@).take(k as int).push(ps@[k as int]@));
        }
        k += 1;
    }
    assert(models(ps@).take(ps@.len() as int) =~= models(ps@));
    out
}

impl ProfileStore {
    /// All saved profiles, in order.
    pub fn list(&self) -> (r: Vec<ServerProfile>)
        ensures
            models(r@) == self@.profiles,
    {
        copy_all(&self.profiles)
    }

    /// The saved profile with id `id`.
    pub fn get(&self, id: &str) -> (r: Option<ServerProfile>)
        ensures
            match r {
                Some(p) => find_profile(self@.profiles, id@) == Some(p@),
                None => find_profile(self@.profiles, id@) is None,
            },
    {
        let id = id.to_owned();
        proof {
            lemma_index_of_id_bounds(self@.profiles, id@, 0);
        }
        match position_of(&self.profiles, &id) {
            Some(k) => Some(self.profiles[k].copy()),
            None => None,
        }
    }

    /// Saves `input` under the id `id` (the given one, or a fresh one for a new profile):
    /// replaces the profile with that id, or adds it. An SSH profile saved with an empty
    /// key keeps the stored key; a new one without a key is refused. A `Local` profile is
    /// stored with its SSH fields empty.
    pub fn save_with_id(&mut self, input: SaveProfileInput, id: String) -> (r: Result<ServerProfile, AppError>)
        ensures
            save_outcome(old(self)@, input@, id@, r, final(self)@),
    {
        let ghost ps = old(self)@.profiles;
        let pos = position_of(&self.profiles, &id);
        proof {
            lemma_index_of_id_bounds(ps, id@, 0);
        }
        let profile = match input.kind {
            ProfileKind::Local => ServerProfile {
                id: id.clone(),
                name: input.name,
                kind: ProfileKind::Local,
                host: String::new(),
                port: 0,
                username: String::new(),
                private_key: String::new(),
                has_passphrase: false,
                engine_command: String::new(),
                host_key_fingerprint: None,
            },
            ProfileKind::Ssh => {
                let (private_key, has_passphrase) = if input.private_key.as_str().is_empty() {
                    match pos {
                        Some(k) => (self.profiles[k].private_key.clone(), self.profiles[k].has_passphrase),
                        None => {
                            return Err(AppError::InvalidInput("SSH private key를 입력하세요".to_owned()));
                        },
                    }
                } else {
                    let hp = detect_passphrase(input.private_key.as_str());
                    (input.private_key, hp)
                };
                let host_key_fingerprint = match pos {
                    Some(k) => if self.profiles[k].host == input.host && self.profiles[k].port == input.port {
                        copy_opt_string(&self.profiles[k].host_key_fingerprint)
                    } else {
                        None
                    },
                    None => None,
                };
                ServerProfile {
                    id: id.clone(),
                    name: input.name,
                    kind: ProfileKind::Ssh,
                    host: input.host,
                    port: input.port,
                    username: input.username,
                    private_key,
                    has_passphrase,
                    engine_command: input.engine_command,
                    host_key_fingerprint,
                }
            },
        };
        let stored = profile.copy();
        match pos {
            Some(k) => {
                self.profiles.set(k, stored);
                proof {
                    assert(models(self.profiles@) =~= ps.update(k as int, profile@));
                }
            },
            None => {
                self.profiles.push(stored);
                proof {
                    assert(models(self.profiles@) =~= ps.push(profile@));
                }
            },
        }
        Ok(profile)
    }

    /// Saves `input`: under its id when it has one, otherwise under a fresh random id (see
    /// [`ProfileStore::save_with_id`]).
    pub fn save(&mut self, input: SaveProfileInput) -> (r: Result<ServerProfile, AppError>)
        ensures
            exists|id: Seq<char>|
                (input@.id matches Some(given) ==> id == given) && (input@.id is None ==> uuid_v4_text(id))
                    && #[trigger] save_outcome(
                    old(self)@,
                    input@,
                    id,
                    r,
                    final(self)@,
                ),
    {
        let id = match &input.id {
            Some(given) => given.clone(),
            None => new_profile_id(),
        };
        let r = self.save_with_id(input, id);
        assert(input@.id matches Some(given) ==> id@ == given);
        r
    }

    /// Deletes the profiles with id `id`; the active profile is cleared when it was that id.
    pub fn delete(&mut self, id: &str)
        ensures
            final(self)@.profiles == without_id(old(self)@.profiles, id@),
            final(self)@.active == (if old(self)@.active == Some(id@) {
                None
            } else {
                old(self)@.active
            }),
    {
        let id = id.to_owned();
        let ghost ps = old(self)@.profiles;
        let mut kept: Vec<ServerProfile> = Vec::new();
        let mut k: usize = 0;
        while k < self.profiles.len()
            invariant
                ps == models(self.profiles@),
                k <= self.profiles@.len(),
                models(kept@) == without_id(ps.take(k as int), id@),
            decreases self.profiles@.len() - k,
        {
            proof {
                assert(ps.take(k + 1).drop_last() =~= ps.take(k as int));
                assert(ps.take(k + 1).last() == self.profiles@[k as int]@);
            }
            if !(self.profiles[k].id == id) {
                let p = self.profiles[k].copy();
                let ghost before = kept@;
                kept.push(p);
                proof {
                    assert(models(kept@) =~= models(before).push(p@));
                }
            }
            k += 1;
        }
        assert(ps.take(ps.len() as int) =~= ps);
        self.profiles = kept;
        let clear = match &self.active_profile_id {
            Some(a) => *a == id,
            None => false,
        };
        if clear {
            self.active_profile_id = None;
        }
    }

    /// Records the trusted host key fingerprint of profile `id` (`None` forgets it); an
    /// unknown id is refused.
    pub fn set_host_key_fingerprint(&mut self, id: &str, fingerprint: Option<String>) -> (r: Result<(), AppError>)
        ensures
            match index_of_id(old(self)@.profiles, id@, 0) {
                Some(k) => r is Ok && final(self)@ == (StoreModel {
                    profiles: old(self)@.profiles.update(
                        k,
                        ProfileModel { host_key_fingerprint: opt_view(fingerprint), ..old(self)@.profiles[k] },
                    ),
                    active: old(self)@.active,
                }),
                None => r matches Err(AppError::ProfileNotFound(m)) && m@ == id@ && final(self)@ == old(self)@,
            },
    {
        let ids = id.to_owned();
        let ghost ps = old(self)@.profiles;
        proof {
            lemma_index_of_id_bounds(ps, id@, 0);
        }
        match position_of(&self.profiles, &ids) {
            Some(k) => {
                let mut p = self.profiles[k].copy();
                p.host_key_fingerprint = fingerprint;
                let ghost pm = p@;
                self.profiles.set(k, p);
                proof {
                    assert(models(self.profiles@) =~= ps.update(k as int, pm));
                }
                Ok(())
            },
            None => Err(AppError::ProfileNotFound(ids)),
        }
    }

    /// Makes profile `id` the active one; an unknown id is refused.
    pub fn set_active(&mut self, id: &str) -> (r: Result<(), AppError>)
        ensures
            match index_of_id(old(self)@.profiles, id@, 0) {
                Some(_) => r is Ok && final(self)@ == (StoreModel {
                    profiles: old(self)@.profiles,
                    active: Some(id@),
                }),
                None => r matches Err(AppError::ProfileNotFound(m)) && m@ == id@ && final(self)@ == old(self)@,
            },
    {
        let ids = id.to_owned();
        match position_of(&self.profiles, &ids) {
            Some(_) => {
                self.active_profile_id = Some(ids);
                Ok(())
            },
            None => Err(AppError::ProfileNotFound(ids)),
        }
    }
}

/// A copy of an optional string.
fn copy_opt_string(o: &Option<String>) -> (r: Option<String>)
    ensures
        opt_view(r) == opt_view(*o),
{
    match o {
        Some(s) => Some(s.clone()),
        None => None,
    }
}

proof fn lemma_index_of_id_push(ps: Seq<ProfileModel>, p: ProfileModel, k: int)
    requires
        0 <= k <= ps.len(),
        forall|i: int| k <= i < ps.len() ==> #[trigger] ps[i].id != p.id,
    ensures
        index_of_id(ps.push(p), p.id, k) == Some(ps.len() as int),
    decreases ps.len() - k,
{
    if k < ps.len() {
        lemma_index_of_id_push(ps, p, k + 1);
    }
}

proof fn lemma_index_of_id_update(ps: Seq<ProfileModel>, p: ProfileModel, j: int, k: int)
    requires
        0 <= k <= j < ps.len(),
        forall|i: int| k <= i < j ==> #[trigger] ps[i].id != p.id,
    ensures
        index_of_id(ps.update(j, p), p.id, k) == Some(j),
    decreases j - k,
{
    if k < j {
        lemma_index_of_id_update(ps, p, j, k + 1);
    }
}

/// Saving a profile, then asking for its id, gives back the saved profile.
pub proof fn law_save_then_get(ps: Seq<ProfileModel>, input: InputModel, id: Seq<char>)
    requires
        saved_profile(ps, input, id) is Some,
    ensures
        find_profile(upsert(ps, saved_profile(ps, input, id).unwrap()), id) == saved_profile(ps, input, id),
{
    let p = saved_profile(ps, input, id).unwrap();
    lemma_index_of_id_bounds(ps, id, 0);
    match index_of_id(ps, id, 0) {
        Some(j) => {
            lemma_index_of_id_update_prefix(ps, id, j);
            lemma_index_of_id_update(ps, p, j, 0);
        },
        None => {
            lemma_index_of_id_push(ps, p, 0);
        },
    }
}

proof fn lemma_index_of_id_update_prefix(ps: Seq<ProfileModel>, id: Seq<char>, j: int)
    requires
        index_of_id(ps, id, 0) == Some(j),
    ensures
        forall|i: int| 0 <= i < j ==> #[trigger] ps[i].id != id,
{
    lemma_index_of_id_bounds(ps, id, 0);
    assert forall|i: int| 0 <= i < j implies #[trigger] ps[i].id != id by {
        if ps[i].id == id {
            lemma_first_is_first(ps, id, 0, i);
        }
    }
}

proof fn lemma_first_is_first(ps: Seq<ProfileModel>, id: Seq<char>, k: int, i: int)
    requires
        0 <= k <= i,
        i < ps.len(),
        ps[i].id == id,
    ensures
        index_of_id(ps, id, k) matches Some(j) && j <= i,
    decreases i - k,
{
    if ps[k].id != id {
        lemma_first_is_first(ps, id, k + 1, i);
    }
}

proof fn lemma_without_id_absent(ps: Seq<ProfileModel>, id: Seq<char>)
    ensures
        forall|i: int| 0 <= i < without_id(ps, id).len() ==> #[trigger] without_id(ps, id)[i].id != id,
    decreases ps.len(),
{
    if ps.len() > 0 {
        lemma_without_id_absent(ps.drop_last(), id);
    }
}

/// After deleting a profile, asking for its id finds nothing.
pub proof fn law_delete_then_get(ps: Seq<ProfileModel>, id: Seq<char>)
    ensures
        find_profile(without_id(ps, id), id) is None,
{
    lemma_without_id_absent(ps, id);
    lemma_index_of_id_bounds(without_id(ps, id), id, 0);
}

/// Saving an SSH profile stores what the form gave for its name, host, port, user name and
/// engine command, for a new profile and for an edit of a stored one alike; the key is the
/// form's unless the form left it empty.
pub proof fn law_save_ssh_takes_form_fields(ps: Seq<ProfileModel>, input: InputModel, id: Seq<char>)
    requires
        input.kind == ProfileKind::Ssh,
        saved_profile(ps, input, id) is Some,
    ensures
        saved_profile(ps, input, id)->0.id == id,
        saved_profile(ps, input, id)->0.kind == ProfileKind::Ssh,
        saved_profile(ps, input, id)->0.name == input.name,
        saved_profile(ps, input, id)->0.host == input.host,
        saved_profile(ps, input, id)->0.port == input.port,
        saved_profile(ps, input, id)->0.username == input.username,
        saved_profile(ps, input, id)->0.engine_command == input.engine_command,
        input.private_key.len() > 0 ==> saved_profile(ps, input, id)->0.private_key == input.private_key,
        input.private_key.len() == 0 ==> find_profile(ps, id) is Some && saved_profile(ps, input, id)->0.private_key
            == find_profile(ps, id)->0.private_key,
{
}

/// Saving a `Local` profile keeps only its id and name: every SSH field is stored empty.
pub proof fn law_save_local_clears_ssh_fields(ps: Seq<ProfileModel>, input: InputModel, id: Seq<char>)
    requires
        input.kind == ProfileKind::Local,
    ensures
        saved_profile(ps, input, id) is Some,
        saved_profile(ps, input, id)->0.name == input.name,
        saved_profile(ps, input, id)->0.host.len() == 0,
        saved_profile(ps, input, id)->0.port == 0,
        saved_profile(ps, input, id)->0.private_key.len() == 0,
        saved_profile(ps, input, id)->0.engine_command.len() == 0,
        saved_profile(ps, input, id)->0.host_key_fingerprint is None,
{
}

} // verus!
