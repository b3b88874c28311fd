//! The device-trust store and its operations.
//!
//! The store maps opaque credentials to validity state: at most one setup
//! token, used once to bootstrap trust, and the list of registered devices,
//! whose bearer credentials form the authorization allow-list.  All
//! operations are plain state transitions over the in-memory store; the
//! surrounding binary serializes them behind a lock, supplies the clock
//! reading, and persists a snapshot after every mutation.

use vstd::prelude::*;
use vstd::pervasive::VecAdditionalExecFns;

use crate::token::{generate_token, new_uuid_string, TOKEN_LEN};
use crate::clock::clock_millis;
use crate::text::str_eq;

verus! {

/// Expiry stored for a setup token that never expires: far in the future but
/// finite, so that comparisons against the clock stay total.
pub const NEVER_EXPIRES_MILLIS: u64 = u64::MAX;

/// Time-to-live requested for a setup token.
#[derive(Clone, Copy, Debug)]
pub enum Ttl {
    /// Expire this many milliseconds after issue.
    Millis(u64),
    /// Never expire; stored as [`NEVER_EXPIRES_MILLIS`].
    Never,
}

/// A registered client device: a durable identity plus its bearer credential.
#[derive(Debug)]
pub struct Device {
    pub id: String,
    pub name: String,
    pub token: String,
    pub registered_at: u64,
    pub last_seen_at: Option<u64>,
}

/// The single bootstrap credential, replaced wholesale by every issue.
#[derive(Debug)]
pub struct SetupToken {
    pub token: String,
    pub created_at: u64,
    pub expires_at: u64,
    pub reusable: bool,
}

/// A complete snapshot of the trust store, as persisted.
#[derive(Debug)]
pub struct AuthStore {
    pub devices: Vec<Device>,
    pub setup_token: Option<SetupToken>,
}

/// Verdict of holding a candidate against the current setup token.
#[derive(Clone, Copy, Debug, PartialEq, Eq, Structural)]
pub enum SetupTokenValidation {
    Valid,
    Invalid,
    Expired,
}

/// Mathematical image of a [`Device`].
#[verifier::ext_equal]
pub ghost struct DeviceModel {
    pub id: Seq<char>,
    pub name: Seq<char>,
    pub token: Seq<char>,
    pub registered_at: u64,
    pub last_seen_at: Option<u64>,
}

/// Mathematical image of a [`SetupToken`].
#[verifier::ext_equal]
pub ghost struct SetupTokenModel {
    pub token: Seq<char>,
    pub created_at: u64,
    pub expires_at: u64,
    pub reusable: bool,
}

/// Mathematical image of an [`AuthStore`].
#[verifier::ext_equal]
pub ghost struct AuthStoreModel {
    pub devices: Seq<DeviceModel>,
    pub setup_token: Option<SetupTokenModel>,
}

impl DeepView for Device {
    type V = DeviceModel;

    open spec fn deep_view(&self) -> DeviceModel {
        DeviceModel {
            id: self.id@,
            name: self.name@,
            token: self.token@,
            registered_at: self.registered_at,
            last_seen_at: self.last_seen_at,
        }
    }
}

impl DeepView for SetupToken {
    type V = SetupTokenModel;

    open spec fn deep_view(&self) -> SetupTokenModel {
        SetupTokenModel {
            token: self.token@,
            created_at: self.created_at,
            expires_at: self.expires_at,
            reusable: self.reusable,
        }
    }
}

impl DeepView for AuthStore {
    type V = AuthStoreModel;

    open spec fn deep_view(&self) -> AuthStoreModel {
        AuthStoreModel {
            devices: self.devices.deep_view(),
            setup_token: self.setup_token.deep_view(),
        }
    }
}

/// Some device in `devices` carries the bearer credential `token`.
pub open spec fn has_device_token(devices: Seq<DeviceModel>, token: Seq<char>) -> bool {
    exists|i: int| 0 <= i < devices.len() && devices[i].token == token
}

/// Some device in `devices` carries the identity `id`.
pub open spec fn has_device_id(devices: Seq<DeviceModel>, id: Seq<char>) -> bool {
    exists|i: int| 0 <= i < devices.len() && devices[i].id == id
}

/// The store invariant: device credentials and identities are unique, and
/// the setup-token namespace is disjoint from the device-token namespace.
pub open spec fn store_wf(s: AuthStoreModel) -> bool {
    &&& forall|i: int, j: int|
        0 <= i < j < s.devices.len() ==> s.devices[i].token != s.devices[j].token
    &&& forall|i: int, j: int|
        0 <= i < j < s.devices.len() ==> s.devices[i].id != s.devices[j].id
    &&& s.setup_token is Some ==> !has_device_token(s.devices, s.setup_token->0.token)
}

/// The empty store: no devices, no setup token.
pub open spec fn empty_store() -> AuthStoreModel {
    AuthStoreModel { devices: Seq::empty(), setup_token: None }
}

/// Expiry instant for a token issued at `now` with the requested
/// time-to-live; a sum past the end of the scale saturates, and "never"
/// is the saturation point itself.
pub open spec fn spec_expiry(now: u64, ttl: Ttl) -> u64 {
    match ttl {
        Ttl::Millis(ms) => if now + ms <= u64::MAX { (now + ms) as u64 } else { u64::MAX },
        Ttl::Never => NEVER_EXPIRES_MILLIS,
    }
}

/// Verdict of holding candidate `token` against the store at time `now`:
/// `Invalid` when no setup token exists or the value differs, `Expired`
/// when it matches but its expiry has passed, `Valid` otherwise.
pub open spec fn spec_validate(s: AuthStoreModel, token: Seq<char>, now: u64) -> SetupTokenValidation {
    match s.setup_token {
        Some(st) => if st.token != token {
            SetupTokenValidation::Invalid
        } else if now >= st.expires_at {
            SetupTokenValidation::Expired
        } else {
            SetupTokenValidation::Valid
        },
        None => SetupTokenValidation::Invalid,
    }
}

/// The store after a setup token `token` is issued at `now`: the devices are
/// untouched and the new token replaces whatever setup token was in effect.
pub open spec fn spec_generate(
    s: AuthStoreModel,
    reusable: bool,
    ttl: Ttl,
    now: u64,
    token: Seq<char>,
) -> AuthStoreModel {
    AuthStoreModel {
        devices: s.devices,
        setup_token: Some(
            SetupTokenModel {
                token,
                created_at: now,
                expires_at: spec_expiry(now, ttl),
                reusable,
            },
        ),
    }
}

/// The first device of `devices` carrying `token`, if any.
pub open spec fn find_by_token(devices: Seq<DeviceModel>, token: Seq<char>) -> Option<DeviceModel>
    decreases devices.len(),
{
    if devices.len() == 0 {
        None
    } else if devices[0].token == token {
        Some(devices[0])
    } else {
        find_by_token(devices.drop_first(), token)
    }
}

/// `find_by_token` succeeds exactly when some device carries the credential,
/// and what it returns carries it.
pub proof fn lemma_find_by_token(devices: Seq<DeviceModel>, token: Seq<char>)
    ensures
        find_by_token(devices, token) is Some <==> has_device_token(devices, token),
        find_by_token(devices, token) matches Some(d) ==> d.token == token && devices.contains(d),
    decreases devices.len(),
{
    if devices.len() > 0 {
        lemma_find_by_token(devices.drop_first(), token);
        if devices[0].token == token {
            assert(devices.contains(devices[0]));
        } else {
            if has_device_token(devices.drop_first(), token) {
                let i = choose|i: int|
                    0 <= i < devices.drop_first().len() && devices.drop_first()[i].token == token;
                assert(devices[i + 1].token == token);
            }
            if has_device_token(devices, token) {
                let i = choose|i: int| 0 <= i < devices.len() && devices[i].token == token;
                assert(devices.drop_first()[i - 1].token == token);
            }
            match find_by_token(devices.drop_first(), token) {
                Some(d) => {
                    let i = choose|i: int|
                        0 <= i < devices.drop_first().len() && devices.drop_first()[i] == d;
                    assert(devices[i + 1] == d);
                },
                None => {},
            }
        }
    }
}

/// What a successful registration at time `now` did to the store: the minted
/// device `d` bears a fresh credential and identity, it was appended, and the
/// consumed setup token was cleared unless it was marked reusable.
pub open spec fn register_ok(
    s: AuthStoreModel,
    name: Seq<char>,
    now: u64,
    d: DeviceModel,
    s2: AuthStoreModel,
) -> bool {
    &&& d.name == name
    &&& d.registered_at == now
    &&& d.last_seen_at is None
    &&& !has_device_token(s.devices, d.token)
    &&& !has_device_id(s.devices, d.id)
    &&& (s.setup_token is Some ==> d.token != s.setup_token->0.token)
    &&& s2.devices == s.devices.push(d)
    &&& s2.setup_token == (if s.setup_token->0.reusable {
        s.setup_token
    } else {
        None::<SetupTokenModel>
    })
}

/// `devices` with the last-seen time of every device carrying `id` set to
/// `now`; under the store invariant at most one device matches.
pub open spec fn spec_touch(devices: Seq<DeviceModel>, id: Seq<char>, now: u64) -> Seq<DeviceModel> {
    devices.map_values(
        |d: DeviceModel|
            if d.id == id {
                DeviceModel { last_seen_at: Some(now), ..d }
            } else {
                d
            },
    )
}

/// `devices` without every device carrying `id`, order preserved.
pub open spec fn spec_revoke(devices: Seq<DeviceModel>, id: Seq<char>) -> Seq<DeviceModel>
    decreases devices.len(),
{
    if devices.len() == 0 {
        Seq::empty()
    } else if devices[0].id == id {
        spec_revoke(devices.drop_first(), id)
    } else {
        seq![devices[0]] + spec_revoke(devices.drop_first(), id)
    }
}

/// What `spec_revoke` keeps: members of the original sequence, none of them
/// carrying the revoked id.
pub proof fn lemma_revoke_members(devices: Seq<DeviceModel>, id: Seq<char>)
    ensures
        spec_revoke(devices, id).len() <= devices.len(),
        forall|k: int|
            0 <= k < spec_revoke(devices, id).len() ==> (#[trigger] spec_revoke(devices, id)[k]).id
                != id && devices.contains(spec_revoke(devices, id)[k]),
    decreases devices.len(),
{
    if devices.len() > 0 {
        let rest = devices.drop_first();
        lemma_revoke_members(rest, id);
        assert forall|k: int|
            0 <= k < spec_revoke(rest, id).len() implies devices.contains(
            spec_revoke(rest, id)[k],
        ) by {
            let m = choose|m: int| 0 <= m < rest.len() && rest[m] == spec_revoke(rest, id)[k];
            assert(devices[m + 1] == spec_revoke(rest, id)[k]);
        }
        if devices[0].id != id {
            assert(spec_revoke(devices, id) == seq![devices[0]] + spec_revoke(rest, id));
            assert(devices.contains(devices[0]));
        }
    }
}

/// Revocation preserves the store invariant.
pub proof fn lemma_revoke_preserves_wf(s: AuthStoreModel, id: Seq<char>)
    requires
        store_wf(s),
    ensures
        store_wf(AuthStoreModel { devices: spec_revoke(s.devices, id), setup_token: s.setup_token }),
    decreases s.devices.len(),
{
    lemma_revoke_members(s.devices, id);
    let kept = spec_revoke(s.devices, id);
    assert forall|i: int, j: int| 0 <= i < j < kept.len() implies kept[i].token != kept[j].token
        && kept[i].id != kept[j].id by {
        lemma_revoke_distinct_indices(s.devices, id, i, j);
    }
    match s.setup_token {
        Some(st) => {
            if has_device_token(kept, st.token) {
                let k = choose|k: int| 0 <= k < kept.len() && kept[k].token == st.token;
                let m = choose|m: int| 0 <= m < s.devices.len() && s.devices[m] == kept[k];
                assert(has_device_token(s.devices, st.token));
            }
        },
        None => {},
    }
}

/// Two distinct positions of `spec_revoke`'s result come from two distinct
/// positions of the original sequence, in order.
proof fn lemma_revoke_distinct_indices(devices: Seq<DeviceModel>, id: Seq<char>, i: int, j: int)
    requires
        0 <= i < j < spec_revoke(devices, id).len(),
        forall|p: int, q: int|
            0 <= p < q < devices.len() ==> devices[p].token != devices[q].token,
        forall|p: int, q: int| 0 <= p < q < devices.len() ==> devices[p].id != devices[q].id,
    ensures
        spec_revoke(devices, id)[i].token != spec_revoke(devices, id)[j].token,
        spec_revoke(devices, id)[i].id != spec_revoke(devices, id)[j].id,
    decreases devices.len(),
{
    let rest = devices.drop_first();
    if devices[0].id == id {
        lemma_revoke_distinct_indices(rest, id, i, j);
    } else {
        let kept = spec_revoke(devices, id);
        assert(kept == seq![devices[0]] + spec_revoke(rest, id));
        if i == 0 {
            lemma_revoke_members(rest, id);
            let m = choose|m: int|
                0 <= m < rest.len() && rest[m] == spec_revoke(rest, id)[j - 1];
            assert(devices[m + 1] == kept[j]);
            assert(devices[0].token != devices[m + 1].token);
            assert(devices[0].id != devices[m + 1].id);
        } else {
            lemma_revoke_distinct_indices(rest, id, i - 1, j - 1);
        }
    }
}

/// At most one setup token is ever active — the store holds an `Option` —
/// and after any two issuances in a row the parameters of the later one are
/// the ones in effect, whatever was in effect before.
pub proof fn lemma_latest_setup_token_wins(
    s: AuthStoreModel,
    r1: bool,
    t1: Ttl,
    n1: u64,
    tok1: Seq<char>,
    r2: bool,
    t2: Ttl,
    n2: u64,
    tok2: Seq<char>,
)
    ensures
        spec_generate(spec_generate(s, r1, t1, n1, tok1), r2, t2, n2, tok2).setup_token == Some(
            SetupTokenModel {
                token: tok2,
                created_at: n2,
                expires_at: spec_expiry(n2, t2),
                reusable: r2,
            },
        ),
        spec_generate(spec_generate(s, r1, t1, n1, tok1), r2, t2, n2, tok2).devices == s.devices,
{
}

/// What a successful registration guarantees: the minted credential was
/// absent from the store before the call and is present after it, and when
/// the consumed setup token was not reusable it is absent afterwards.
pub proof fn lemma_register_ok_effects(
    s: AuthStoreModel,
    name: Seq<char>,
    now: u64,
    d: DeviceModel,
    s2: AuthStoreModel,
)
    requires
        register_ok(s, name, now, d, s2),
    ensures
        !has_device_token(s.devices, d.token),
        has_device_token(s2.devices, d.token),
        !s.setup_token->0.reusable ==> s2.setup_token is None,
        s2.devices.len() == s.devices.len() + 1,
{
    assert(s2.devices[s.devices.len() as int] == d);
}

/// The device-trust service: the in-memory store, mutated in place.
///
/// The caller owns persistence: it loads a snapshot at startup, hands it to
/// [`AuthService::new`], and writes the [`AuthService::snapshot`] back after
/// every mutating call.  A snapshot that does not satisfy the store
/// invariant is treated as corrupt and degrades to the empty store, so the
/// daemon always starts.
pub struct AuthService {
    pub store: AuthStore,
}

impl View for AuthService {
    type V = AuthStoreModel;

    open spec fn view(&self) -> AuthStoreModel {
        self.store.deep_view()
    }
}

/// Whether two devices of `devices` share a token, two share an id, or the
/// setup token collides with a device token — the executable image of
/// [`store_wf`].
fn check_store_wf(store: &AuthStore) -> (r: bool)
    ensures
        r == store_wf(store.deep_view()),
{
    let n = store.devices.len();
    let mut i: usize = 0;
    while i < n
        invariant
            i <= n,
            n == store.devices.len(),
            forall|p: int, q: int|
                0 <= p < q < store.devices.len() && p < i
                    ==> store.devices.deep_view()[p].token != store.devices.deep_view()[q].token,
            forall|p: int, q: int|
                0 <= p < q < store.devices.len() && p < i
                    ==> store.devices.deep_view()[p].id != store.devices.deep_view()[q].id,
        decreases n - i,
    {
        let mut j: usize = i + 1;
        while j < n
            invariant
                i < j <= n,
                n == store.devices.len(),
                forall|q: int|
                    i < q < j ==> store.devices.deep_view()[i as int].token
                        != store.devices.deep_view()[q].token,
                forall|q: int|
                    i < q < j ==> store.devices.deep_view()[i as int].id
                        != store.devices.deep_view()[q].id,
            decreases n - j,
        {
            if str_eq(store.devices[i].token.as_str(), store.devices[j].token.as_str()) {
                proof {
                    assert(store.devices.deep_view()[i as int].token
                        == store.devices.deep_view()[j as int].token);
                }
                return false;
            }
            if str_eq(store.devices[i].id.as_str(), store.devices[j].id.as_str()) {
                proof {
                    assert(store.devices.deep_view()[i as int].id
                        == store.devices.deep_view()[j as int].id);
                }
                return false;
            }
            j = j + 1;
        }
        i = i + 1;
    }
    match &store.setup_token {
        Some(st) => {
            if contains_device_token(&store.devices, st.token.as_str()) {
                return false;
            }
        },
        None => {},
    }
    true
}

/// Executable image of [`has_device_token`].
fn contains_device_token(devices: &Vec<Device>, token: &str) -> (r: bool)
    ensures
        r == has_device_token(devices.deep_view(), token@),
{
    let n = devices.len();
    let mut i: usize = 0;
    while i < n
        invariant
            i <= n,
            n == devices.len(),
            forall|k: int| 0 <= k < i ==> devices.deep_view()[k].token != token@,
        decreases n - i,
    {
        if str_eq(devices[i].token.as_str(), token) {
            proof {
                assert(devices.deep_view()[i as int].token == token@);
            }
            return true;
        }
        i = i + 1;
    }
    false
}

/// Executable image of [`has_device_id`].
fn contains_device_id(devices: &Vec<Device>, id: &str) -> (r: bool)
    ensures
        r == has_device_id(devices.deep_view(), id@),
{
    let n = devices.len();
    let mut i: usize = 0;
    while i < n
        invariant
            i <= n,
            n == devices.len(),
            forall|k: int| 0 <= k < i ==> devices.deep_view()[k].id != id@,
        decreases n - i,
    {
        if str_eq(devices[i].id.as_str(), id) {
            proof {
                assert(devices.deep_view()[i as int].id == id@);
            }
            return true;
        }
        i = i + 1;
    }
    false
}

impl AuthService {
    /// Install a loaded snapshot; one that breaks the store invariant is
    /// treated as corrupt and replaced by the empty store.
    pub fn new(initial: AuthStore) -> (s: Self)
        ensures
            store_wf(s@),
            store_wf(initial.deep_view()) ==> s@ == initial.deep_view(),
            !store_wf(initial.deep_view()) ==> s@ == empty_store(),
    {
        if check_store_wf(&initial) {
            AuthService { store: initial }
        } else {
            let store = AuthStore { devices: Vec::new(), setup_token: None };
            proof {
                assert(store.deep_view().devices =~= Seq::<DeviceModel>::empty());
            }
            AuthService { store }
        }
    }

    /// Replace the in-memory store with a snapshot re-read from the backing
    /// file, so that a setup token written by a separate process is seen.
    /// A corrupt snapshot is ignored wholesale.
    pub fn reload_from(&mut self, snapshot: AuthStore)
        ensures
            store_wf(snapshot.deep_view()) ==> final(self)@ == snapshot.deep_view(),
            !store_wf(snapshot.deep_view()) ==> final(self)@ == old(self)@,
    {
        if check_store_wf(&snapshot) {
            self.store = snapshot;
        }
    }

    /// A complete, self-consistent snapshot of the store, for persistence.
    pub fn snapshot(&self) -> (r: &AuthStore)
        ensures
            r.deep_view() == self@,
    {
        &self.store
    }

    /// Whether any device is registered; drives the authorization gate's
    /// open/closed mode.
    pub fn has_devices(&self) -> (r: bool)
        ensures
            r == (self@.devices.len() > 0),
    {
        self.store.devices.len() > 0
    }

    /// Issue a fresh setup token at time `now`, replacing any previous one.
    /// Always succeeds; the caller persists the snapshot afterwards.
    pub fn generate_setup_token_at(&mut self, reusable: bool, ttl: Ttl, now: u64) -> (r: String)
        requires
            store_wf(old(self)@),
        ensures
            store_wf(final(self)@),
            final(self)@ == spec_generate(old(self)@, reusable, ttl, now, r@),
            !has_device_token(old(self)@.devices, r@),
            r@.len() >= TOKEN_LEN,
    {
        let token = mint_fresh_setup_token(&self.store.devices);
        let expires_at = match ttl {
            Ttl::Millis(ms) => if ms > u64::MAX - now {
                u64::MAX
            } else {
                now + ms
            },
            Ttl::Never => NEVER_EXPIRES_MILLIS,
        };
        let issued = SetupToken { token: token.clone(), created_at: now, expires_at, reusable };
        self.store.setup_token = Some(issued);
        proof {
            assert(self@ =~= spec_generate(old(self)@, reusable, ttl, now, token@));
        }
        token
    }

    /// Issue a fresh setup token at the current wall-clock time.
    pub fn generate_setup_token(&mut self, reusable: bool, ttl: Ttl) -> (r: String)
        requires
            store_wf(old(self)@),
        ensures
            store_wf(final(self)@),
            exists|now: u64| final(self)@ == spec_generate(old(self)@, reusable, ttl, now, r@),
            !has_device_token(old(self)@.devices, r@),
            r@.len() >= TOKEN_LEN,
    {
        let now = clock_millis();
        self.generate_setup_token_at(reusable, ttl, now)
    }

    /// Hold a candidate against the current setup token at time `now`.
    /// The caller reloads the persisted snapshot first (via
    /// [`AuthService::reload_from`]) so a token issued by a separate
    /// process is recognized.
    pub fn validate_setup_token_at(&self, token: &str, now: u64) -> (r: SetupTokenValidation)
        ensures
            r == spec_validate(self@, token@, now),
    {
        match &self.store.setup_token {
            Some(st) => {
                if !str_eq(st.token.as_str(), token) {
                    SetupTokenValidation::Invalid
                } else if now >= st.expires_at {
                    SetupTokenValidation::Expired
                } else {
                    SetupTokenValidation::Valid
                }
            },
            None => SetupTokenValidation::Invalid,
        }
    }

    /// Hold a candidate against the current setup token at the current time.
    pub fn validate_setup_token(&self, token: &str) -> (r: SetupTokenValidation)
        ensures
            exists|now: u64| r == spec_validate(self@, token@, now),
    {
        let now = clock_millis();
        self.validate_setup_token_at(token, now)
    }

    /// Exchange a setup token for a durable device identity at time `now`.
    /// On anything but a valid token the store is left untouched and the
    /// verdict is returned; on success the minted device is appended and the
    /// consumed setup token is cleared unless it was marked reusable.
    pub fn register_device_at(&mut self, setup_token: &str, device_name: &str, now: u64) -> (r:
        Result<Device, SetupTokenValidation>)
        requires
            store_wf(old(self)@),
        ensures
            store_wf(final(self)@),
            r is Ok <==> spec_validate(old(self)@, setup_token@, now) is Valid,
            r matches Err(v) ==> v == spec_validate(old(self)@, setup_token@, now) && final(self)@
                == old(self)@,
            r matches Ok(d) ==> register_ok(old(self)@, device_name@, now, d.deep_view(), final(self)@),
    {
        let validation = self.validate_setup_token_at(setup_token, now);
        let reusable = match &self.store.setup_token {
            Some(st) => st.reusable,
            None => false,
        };
        match validation {
            SetupTokenValidation::Valid => {},
            other => {
                return Err(other);
            },
        }
        let id = mint_fresh_device_id(&self.store.devices);
        let token = mint_fresh_device_token(&self.store);
        let device = Device {
            id,
            name: device_name.to_owned(),
            token,
            registered_at: now,
            last_seen_at: None,
        };
        let returned = clone_device(&device);
        let ghost prior = self@;
        let ghost minted = device.deep_view();
        self.store.devices.push(device);
        if !reusable {
            self.store.setup_token = None;
        }
        proof {
            assert(self@.devices =~= prior.devices.push(minted));
            assert forall|i: int, j: int|
                0 <= i < j < self@.devices.len() implies self@.devices[i].token
                != self@.devices[j].token by {
                if j < prior.devices.len() {
                    assert(prior.devices[i].token != prior.devices[j].token);
                } else {
                    assert(!has_device_token(prior.devices, minted.token));
                    assert(prior.devices[i].token != minted.token);
                }
            }
            assert forall|i: int, j: int|
                0 <= i < j < self@.devices.len() implies self@.devices[i].id
                != self@.devices[j].id by {
                if j < prior.devices.len() {
                    assert(prior.devices[i].id != prior.devices[j].id);
                } else {
                    assert(!has_device_id(prior.devices, minted.id));
                    assert(prior.devices[i].id != minted.id);
                }
            }
            if reusable {
                assert(self@.setup_token == prior.setup_token);
                let st = prior.setup_token->0;
                assert(!has_device_token(prior.devices, st.token));
                assert forall|i: int|
                    0 <= i < self@.devices.len() implies self@.devices[i].token != st.token by {
                    if i < prior.devices.len() {
                        assert(prior.devices[i].token != st.token);
                    } else {
                        assert(minted.token != st.token);
                    }
                }
            }
        }
        Ok(returned)
    }

    /// Exchange a setup token for a device identity at the current time.
    pub fn register_device(&mut self, setup_token: &str, device_name: &str) -> (r: Result<
        Device,
        SetupTokenValidation,
    >)
        requires
            store_wf(old(self)@),
        ensures
            store_wf(final(self)@),
            r matches Err(v) ==> final(self)@ == old(self)@ && exists|now: u64|
                v == spec_validate(old(self)@, setup_token@, now),
            r matches Ok(d) ==> exists|now: u64|
                register_ok(old(self)@, device_name@, now, d.deep_view(), final(self)@),
    {
        let now = clock_millis();
        self.register_device_at(setup_token, device_name, now)
    }

    /// Record at time `now` that the device with identity `device_id` was
    /// seen; a no-op when the id is unknown, never an error.
    #[verifier::loop_isolation(false)]
    pub fn update_last_seen_at(&mut self, device_id: &str, now: u64)
        requires
            store_wf(old(self)@),
        ensures
            store_wf(final(self)@),
            final(self)@.devices == spec_touch(old(self)@.devices, device_id@, now),
            final(self)@.setup_token == old(self)@.setup_token,
    {
        let ghost prior = self@;
        let n = self.store.devices.len();
        let mut i: usize = 0;
        while i < n
            invariant
                i <= n,
                n == self.store.devices.len(),
                self@ == prior,
                store_wf(prior),
                forall|k: int| 0 <= k < i ==> prior.devices[k].id != device_id@,
            decreases n - i,
        {
            if str_eq(self.store.devices[i].id.as_str(), device_id) {
                let mut updated = clone_device(&self.store.devices[i]);
                updated.last_seen_at = Some(now);
                self.store.devices.set(i, updated);
                proof {
                    assert(prior.devices[i as int].id == device_id@);
                    assert forall|k: int|
                        0 <= k < prior.devices.len() && k != i implies prior.devices[k].id
                        != device_id@ by {
                        if k > i {
                            assert(prior.devices[i as int].id != prior.devices[k].id);
                        }
                    }
                    assert(self@.devices =~= spec_touch(prior.devices, device_id@, now));
                    assert forall|p: int, q: int|
                        0 <= p < q < self@.devices.len() implies self@.devices[p].token
                        != self@.devices[q].token && self@.devices[p].id
                        != self@.devices[q].id by {
                        assert(prior.devices[p].token != prior.devices[q].token);
                        assert(prior.devices[p].id != prior.devices[q].id);
                    }
                    match self@.setup_token {
                        Some(st) => {
                            if has_device_token(self@.devices, st.token) {
                                let k = choose|k: int|
                                    0 <= k < self@.devices.len() && self@.devices[k].token
                                        == st.token;
                                assert(prior.devices[k].token == st.token);
                            }
                        },
                        None => {},
                    }
                }
                return ;
            }
            i = i + 1;
        }
        proof {
            assert(self@.devices =~= spec_touch(prior.devices, device_id@, now));
        }
    }

    /// Record that the device was seen at the current wall-clock time.
    pub fn update_last_seen(&mut self, device_id: &str)
        requires
            store_wf(old(self)@),
        ensures
            store_wf(final(self)@),
            exists|now: u64|
                final(self)@.devices == spec_touch(old(self)@.devices, device_id@, now),
            final(self)@.setup_token == old(self)@.setup_token,
    {
        let now = clock_millis();
        self.update_last_seen_at(device_id, now);
    }

    /// A field-for-field copy of the registered devices.
    pub fn list_devices(&self) -> (r: Vec<Device>)
        ensures
            r.deep_view() == self@.devices,
    {
        let n = self.store.devices.len();
        let mut out: Vec<Device> = Vec::new();
        let mut i: usize = 0;
        while i < n
            invariant
                i <= n,
                n == self.store.devices.len(),
                out.deep_view() == self@.devices.subrange(0, i as int),
            decreases n - i,
        {
            let ghost out_before = out.deep_view();
            let c = clone_device(&self.store.devices[i]);
            out.push(c);
            proof {
                assert(out.deep_view() =~= out_before.push(self@.devices[i as int]));
                assert(self@.devices.subrange(0, i as int).push(self@.devices[i as int])
                    =~= self@.devices.subrange(0, i as int + 1));
            }
            i = i + 1;
        }
        proof {
            assert(self@.devices.subrange(0, n as int) =~= self@.devices);
        }
        out
    }

    /// Remove the device with identity `device_id`; report whether anything
    /// was removed, so the caller persists only then.
    pub fn revoke_device(&mut self, device_id: &str) -> (r: bool)
        requires
            store_wf(old(self)@),
        ensures
            store_wf(final(self)@),
            final(self)@.devices == spec_revoke(old(self)@.devices, device_id@),
            final(self)@.setup_token == old(self)@.setup_token,
            r <==> has_device_id(old(self)@.devices, device_id@),
    {
        let ghost prior = self@;
        let n = self.store.devices.len();
        let mut kept: Vec<Device> = Vec::new();
        let mut removed = false;
        let mut i: usize = 0;
        proof {
            assert(prior.devices.skip(0) =~= prior.devices);
        }
        while i < n
            invariant
                i <= n,
                n == self.store.devices.len(),
                self@ == prior,
                spec_revoke(prior.devices, device_id@) == kept.deep_view() + spec_revoke(
                    prior.devices.skip(i as int),
                    device_id@,
                ),
                removed <==> exists|k: int| 0 <= k < i && prior.devices[k].id == device_id@,
            decreases n - i,
        {
            proof {
                assert(prior.devices.skip(i as int)[0] == prior.devices[i as int]);
                assert(prior.devices.skip(i as int).drop_first() =~= prior.devices.skip(
                    i as int + 1,
                ));
            }
            if str_eq(self.store.devices[i].id.as_str(), device_id) {
                removed = true;
            } else {
                let ghost kept_before = kept.deep_view();
                kept.push(clone_device(&self.store.devices[i]));
                proof {
                    assert(kept.deep_view() =~= kept_before.push(prior.devices[i as int]));
                    assert(kept.deep_view() + spec_revoke(
                        prior.devices.skip(i as int + 1),
                        device_id@,
                    ) =~= kept_before + (seq![prior.devices[i as int]] + spec_revoke(
                        prior.devices.skip(i as int + 1),
                        device_id@,
                    )));
                }
            }
            i = i + 1;
        }
        proof {
            assert(prior.devices.skip(n as int).len() == 0);
            assert(kept.deep_view() + spec_revoke(prior.devices.skip(n as int), device_id@)
                =~= kept.deep_view());
            lemma_revoke_preserves_wf(prior, device_id@);
        }
        self.store.devices = kept;
        removed
    }

    /// Linear scan for an exact credential match; side-effect-free.
    pub fn validate_device_token(&self, token: &str) -> (r: Option<Device>)
        ensures
            r.deep_view() == find_by_token(self@.devices, token@),
            r is Some <==> has_device_token(self@.devices, token@),
    {
        proof {
            lemma_find_by_token(self@.devices, token@);
            assert(self@.devices.skip(0) =~= self@.devices);
        }
        let n = self.store.devices.len();
        let mut i: usize = 0;
        while i < n
            invariant
                i <= n,
                n == self.store.devices.len(),
                find_by_token(self@.devices, token@) == find_by_token(
                    self@.devices.skip(i as int),
                    token@,
                ),
            decreases n - i,
        {
            if str_eq(self.store.devices[i].token.as_str(), token) {
                proof {
                    assert(self@.devices.skip(i as int)[0] == self@.devices[i as int]);
                }
                return Some(clone_device(&self.store.devices[i]));
            }
            proof {
                assert(self@.devices.skip(i as int)[0] == self@.devices[i as int]);
                assert(self@.devices.skip(i as int).drop_first() =~= self@.devices.skip(
                    i as int + 1,
                ));
            }
            i = i + 1;
        }
        proof {
            assert(self@.devices.skip(n as int).len() == 0);
        }
        None
    }
}

/// A field-for-field copy of a device.
fn clone_device(d: &Device) -> (r: Device)
    ensures
        r.deep_view() == d.deep_view(),
{
    Device {
        id: d.id.clone(),
        name: d.name.clone(),
        token: d.token.clone(),
        registered_at: d.registered_at,
        last_seen_at: d.last_seen_at,
    }
}

/// Mint a bearer credential that neither any registered device nor the
/// current setup token carries.  On the (astronomically unlikely) collision
/// of the random draw, fall back to a value made strictly longer than every
/// stored credential, which therefore equals none of them.
fn mint_fresh_device_token(store: &AuthStore) -> (r: String)
    ensures
        r@.len() >= TOKEN_LEN,
        !has_device_token(store.deep_view().devices, r@),
        store.deep_view().setup_token is Some ==> r@ != store.deep_view().setup_token->0.token,
{
    let g = generate_token();
    let setup_collision = match &store.setup_token {
        Some(st) => str_eq(st.token.as_str(), g.as_str()),
        None => false,
    };
    if !setup_collision && !contains_device_token(&store.devices, g.as_str()) {
        return g;
    }
    let mut t = String::new();
    let n = store.devices.len();
    let mut i: usize = 0;
    while i < n
        invariant
            i <= n,
            n == store.devices.len(),
            forall|k: int| 0 <= k < i ==> t@.len() >= store.devices.deep_view()[k].token.len(),
        decreases n - i,
    {
        t.append(store.devices[i].token.as_str());
        i = i + 1;
    }
    match &store.setup_token {
        Some(st) => t.append(st.token.as_str()),
        None => {},
    }
    t.append(g.as_str());
    proof {
        assert forall|k: int|
            0 <= k < store.devices.deep_view().len() implies store.devices.deep_view()[k].token
            != t@ by {
            assert(t@.len() > store.devices.deep_view()[k].token.len());
        }
    }
    t
}

/// Mint a device identity that no registered device carries; on a collision
/// of the random draw, fall back to a value longer than every stored one.
fn mint_fresh_device_id(devices: &Vec<Device>) -> (r: String)
    ensures
        r@.len() >= 36,
        !has_device_id(devices.deep_view(), r@),
{
    let g = new_uuid_string();
    if !contains_device_id(devices, g.as_str()) {
        return g;
    }
    let mut t = String::new();
    let n = devices.len();
    let mut i: usize = 0;
    while i < n
        invariant
            i <= n,
            n == devices.len(),
            forall|k: int| 0 <= k < i ==> t@.len() >= devices.deep_view()[k].id.len(),
        decreases n - i,
    {
        t.append(devices[i].id.as_str());
        i = i + 1;
    }
    t.append(g.as_str());
    proof {
        assert forall|k: int| 0 <= k < devices.deep_view().len() implies devices.deep_view()[k].id
            != t@ by {
            assert(t@.len() > devices.deep_view()[k].id.len());
        }
    }
    t
}

/// Mint a credential that no registered device carries yet.  On the
/// (astronomically unlikely) collision of the random draw, fall back to a
/// value made strictly longer than every stored credential, which therefore
/// equals none of them.
fn mint_fresh_setup_token(devices: &Vec<Device>) -> (r: String)
    ensures
        r@.len() >= TOKEN_LEN,
        !has_device_token(devices.deep_view(), r@),
{
    let g = generate_token();
    if !contains_device_token(devices, g.as_str()) {
        return g;
    }
    let mut t = String::new();
    let n = devices.len();
    let mut i: usize = 0;
    while i < n
        invariant
            i <= n,
            n == devices.len(),
            forall|k: int| 0 <= k < i ==> t@.len() >= devices.deep_view()[k].token.len(),
        decreases n - i,
    {
        t.append(devices[i].token.as_str());
        i = i + 1;
    }
    t.append(g.as_str());
    proof {
        assert forall|k: int| 0 <= k < devices.deep_view().len() implies devices.deep_view()[k].token
            != t@ by {
            assert(t@.len() > devices.deep_view()[k].token.len());
        }
    }
    t
}

} // verus!
