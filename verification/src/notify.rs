//! The notification delivery engine's state: the push-endpoint registry,
//! title formatting, dispatch planning, and the self-healing settlement that
//! prunes endpoints the provider reported as permanently invalid.
//!
//! The engine here is everything but the wire: the caller sends each
//! prepared notification over its provider channel, collects one
//! [`DispatchResult`] per endpoint, and hands them back to
//! [`ApnsService::settle_dispatch`] for one batched prune and persist.

use vstd::prelude::*;
use vstd::pervasive::VecAdditionalExecFns;

use crate::text::str_eq;

verus! {

/// Display budget for a notification title, in user-perceived characters.
pub const TITLE_BUDGET: usize = 40;

/// Errors of the delivery engine.
#[derive(Debug)]
pub enum ApnsError {
    /// The provider client could not be set up or used.
    Client(String),
    /// Nothing to notify: no push endpoint is registered.
    NoDeviceToken,
    /// The backing store could not be read or written.
    Io(String),
}

/// Operator-supplied configuration for the provider channels.
#[derive(Debug)]
pub struct ApnsConfig {
    pub key: String,
    pub key_id: String,
    pub team_id: String,
    pub bundle_id: String,
    pub sandbox: bool,
    pub data_dir: String,
}

/// One push-delivery endpoint, keyed by its provider platform token.
#[derive(Debug)]
pub struct PushEndpoint {
    pub platform_token: String,
    pub sandbox: bool,
    pub owning_device_id: String,
    pub display_label: String,
}

/// Mathematical image of a [`PushEndpoint`].
#[verifier::ext_equal]
pub ghost struct PushEndpointModel {
    pub platform_token: Seq<char>,
    pub sandbox: bool,
    pub owning_device_id: Seq<char>,
    pub display_label: Seq<char>,
}

impl DeepView for PushEndpoint {
    type V = PushEndpointModel;

    open spec fn deep_view(&self) -> PushEndpointModel {
        PushEndpointModel {
            platform_token: self.platform_token@,
            sandbox: self.sandbox,
            owning_device_id: self.owning_device_id@,
            display_label: self.display_label@,
        }
    }
}

/// What the provider reported for one endpoint of a fan-out.
#[derive(Clone, Copy, Debug, PartialEq, Eq, Structural)]
pub enum DeliveryOutcome {
    /// Accepted for delivery.
    Delivered,
    /// The platform token is permanently invalid; the endpoint self-heals
    /// out of the registry.
    BadDeviceToken,
    /// Any other provider error; logged by the caller, not retried.
    TransientError,
}

/// The provider's report for one endpoint, keyed like the registry.
#[derive(Debug)]
pub struct DispatchResult {
    pub platform_token: String,
    pub outcome: DeliveryOutcome,
}

/// Mathematical image of a [`DispatchResult`].
#[verifier::ext_equal]
pub ghost struct DispatchResultModel {
    pub platform_token: Seq<char>,
    pub outcome: DeliveryOutcome,
}

impl DeepView for DispatchResult {
    type V = DispatchResultModel;

    open spec fn deep_view(&self) -> DispatchResultModel {
        DispatchResultModel { platform_token: self.platform_token@, outcome: self.outcome }
    }
}

/// One notification as prepared for a single endpoint: formatted title,
/// untouched body, and the routing target as structured payload data.
#[derive(Debug)]
pub struct PreparedPush {
    pub platform_token: String,
    pub sandbox: bool,
    pub title: String,
    pub body: String,
    pub routing_target: Option<String>,
}

/// Mathematical image of a [`PreparedPush`].
#[verifier::ext_equal]
pub ghost struct PreparedPushModel {
    pub platform_token: Seq<char>,
    pub sandbox: bool,
    pub title: Seq<char>,
    pub body: Seq<char>,
    pub routing_target: Option<Seq<char>>,
}

impl DeepView for PreparedPush {
    type V = PreparedPushModel;

    open spec fn deep_view(&self) -> PreparedPushModel {
        PreparedPushModel {
            platform_token: self.platform_token@,
            sandbox: self.sandbox,
            title: self.title@,
            body: self.body@,
            routing_target: self.routing_target.deep_view(),
        }
    }
}

/// Some endpoint of `eps` is keyed by `token`.
pub open spec fn has_endpoint(eps: Seq<PushEndpointModel>, token: Seq<char>) -> bool {
    exists|i: int| 0 <= i < eps.len() && eps[i].platform_token == token
}

/// The registry invariant: platform tokens are unique.
pub open spec fn registry_wf(eps: Seq<PushEndpointModel>) -> bool {
    forall|i: int, j: int|
        0 <= i < j < eps.len() ==> eps[i].platform_token != eps[j].platform_token
}

/// The display title composed for an endpoint labelled `label`: the label,
/// when present, is prefixed intact; a title that would overrun the budget
/// is truncated from its front, an ellipsis marker spliced in, so that the
/// suffix survives and the budget is met exactly.  A label too long for any
/// title to fit keeps only the marker.
pub open spec fn spec_format_title(label: Seq<char>, title: Seq<char>) -> Seq<char> {
    if label.len() == 0 {
        if title.len() <= TITLE_BUDGET {
            title
        } else {
            "..."@ + title.skip(title.len() - (TITLE_BUDGET - 3))
        }
    } else {
        if label.len() + 2 + title.len() <= TITLE_BUDGET {
            label + ": "@ + title
        } else if label.len() + 5 <= TITLE_BUDGET {
            label + ": "@ + "..."@ + title.skip(
                title.len() - (TITLE_BUDGET - label.len() - 5),
            )
        } else {
            label + ": "@ + "..."@
        }
    }
}

/// Compose the display title for one endpoint; the executable image of
/// [`spec_format_title`].
pub fn format_title(label: &str, title: &str) -> (r: String)
    ensures
        r@ == spec_format_title(label@, title@),
{
    let llen = label.unicode_len();
    let tlen = title.unicode_len();
    let mut out = String::new();
    if llen == 0 {
        if tlen <= TITLE_BUDGET {
            out.append(title);
            return out;
        }
        out.append("...");
        let suffix = title.substring_char(tlen - (TITLE_BUDGET - 3), tlen);
        out.append(suffix);
        return out;
    }
    out.append(label);
    out.append(": ");
    let fits = llen <= TITLE_BUDGET && tlen <= TITLE_BUDGET && llen + 2 + tlen <= TITLE_BUDGET;
    if fits {
        out.append(title);
    } else if llen <= TITLE_BUDGET - 5 {
        out.append("...");
        let keep = TITLE_BUDGET - llen - 5;
        let suffix = title.substring_char(tlen - keep, tlen);
        out.append(suffix);
    } else {
        out.append("...");
    }
    out
}

/// The registry after registering endpoint `e`: the first endpoint sharing
/// `e`'s platform token is replaced field-by-field, or `e` is appended when
/// the token is new — registration is idempotent by platform token.
pub open spec fn spec_register_endpoint(
    eps: Seq<PushEndpointModel>,
    e: PushEndpointModel,
) -> Seq<PushEndpointModel>
    decreases eps.len(),
{
    if eps.len() == 0 {
        seq![e]
    } else if eps[0].platform_token == e.platform_token {
        seq![e] + eps.drop_first()
    } else {
        seq![eps[0]] + spec_register_endpoint(eps.drop_first(), e)
    }
}

/// The provider reported the platform token `token` as permanently invalid
/// somewhere in `results`.
pub open spec fn reported_bad(results: Seq<DispatchResultModel>, token: Seq<char>) -> bool {
    exists|i: int|
        0 <= i < results.len() && results[i].platform_token == token && results[i].outcome
            is BadDeviceToken
}

/// The registry after a fan-out settles: every endpoint whose token the
/// provider reported permanently invalid is removed, the rest stay in order.
pub open spec fn spec_settle(
    eps: Seq<PushEndpointModel>,
    results: Seq<DispatchResultModel>,
) -> Seq<PushEndpointModel>
    decreases eps.len(),
{
    if eps.len() == 0 {
        Seq::empty()
    } else if reported_bad(results, eps[0].platform_token) {
        spec_settle(eps.drop_first(), results)
    } else {
        seq![eps[0]] + spec_settle(eps.drop_first(), results)
    }
}

/// What settlement keeps: members of the original registry whose tokens were
/// not reported invalid — and nothing that was so reported survives.
pub proof fn lemma_settle_members(eps: Seq<PushEndpointModel>, results: Seq<DispatchResultModel>)
    ensures
        spec_settle(eps, results).len() <= eps.len(),
        forall|k: int|
            0 <= k < spec_settle(eps, results).len() ==> !reported_bad(
                results,
                (#[trigger] spec_settle(eps, results)[k]).platform_token,
            ) && eps.contains(spec_settle(eps, results)[k]),
        forall|k: int|
            0 <= k < eps.len() && !reported_bad(results, (#[trigger] eps[k]).platform_token)
                ==> spec_settle(eps, results).contains(eps[k]),
    decreases eps.len(),
{
    if eps.len() > 0 {
        let rest = eps.drop_first();
        lemma_settle_members(rest, results);
        assert forall|k: int|
            0 <= k < spec_settle(rest, results).len() implies eps.contains(
            spec_settle(rest, results)[k],
        ) by {
            let m = choose|m: int| 0 <= m < rest.len() && rest[m] == spec_settle(rest, results)[k];
            assert(eps[m + 1] == spec_settle(rest, results)[k]);
        }
        assert forall|k: int|
            0 <= k < eps.len() && !reported_bad(
                results,
                (#[trigger] eps[k]).platform_token,
            ) implies spec_settle(eps, results).contains(eps[k]) by {
            if k == 0 {
                assert(spec_settle(eps, results)[0] == eps[0]);
            } else {
                assert(rest[k - 1] == eps[k]);
                assert(spec_settle(rest, results).contains(rest[k - 1]));
                let m = choose|m: int|
                    0 <= m < spec_settle(rest, results).len() && spec_settle(rest, results)[m]
                        == rest[k - 1];
                if reported_bad(results, eps[0].platform_token) {
                    assert(spec_settle(eps, results)[m] == eps[k]);
                } else {
                    assert(spec_settle(eps, results)[m + 1] == eps[k]);
                }
            }
        }
    }
}

/// An endpoint the provider reported permanently invalid is gone from the
/// settled registry; every other endpoint survives.
pub proof fn lemma_settle_dispatch(
    eps: Seq<PushEndpointModel>,
    results: Seq<DispatchResultModel>,
    k: int,
)
    requires
        0 <= k < eps.len(),
    ensures
        reported_bad(results, eps[k].platform_token) ==> !has_endpoint(
            spec_settle(eps, results),
            eps[k].platform_token,
        ),
        !reported_bad(results, eps[k].platform_token) ==> spec_settle(eps, results).contains(
            eps[k],
        ),
{
    lemma_settle_members(eps, results);
    if reported_bad(results, eps[k].platform_token) {
        if has_endpoint(spec_settle(eps, results), eps[k].platform_token) {
            let m = choose|m: int|
                0 <= m < spec_settle(eps, results).len() && spec_settle(eps, results)[m]
                    .platform_token == eps[k].platform_token;
            assert(!reported_bad(results, spec_settle(eps, results)[m].platform_token));
        }
    }
}

/// Two distinct positions of the settled registry come from two distinct
/// positions of the original, in order.
proof fn lemma_settle_distinct_indices(
    eps: Seq<PushEndpointModel>,
    results: Seq<DispatchResultModel>,
    i: int,
    j: int,
)
    requires
        0 <= i < j < spec_settle(eps, results).len(),
        registry_wf(eps),
    ensures
        spec_settle(eps, results)[i].platform_token != spec_settle(eps, results)[j].platform_token,
    decreases eps.len(),
{
    let rest = eps.drop_first();
    if reported_bad(results, eps[0].platform_token) {
        lemma_settle_distinct_indices(rest, results, i, j);
    } else {
        let kept = spec_settle(eps, results);
        assert(kept == seq![eps[0]] + spec_settle(rest, results));
        if i == 0 {
            lemma_settle_members(rest, results);
            let m = choose|m: int|
                0 <= m < rest.len() && rest[m] == spec_settle(rest, results)[j - 1];
            assert(eps[m + 1] == kept[j]);
            assert(eps[0].platform_token != eps[m + 1].platform_token);
        } else {
            lemma_settle_distinct_indices(rest, results, i - 1, j - 1);
        }
    }
}

/// Settlement preserves the registry invariant.
pub proof fn lemma_settle_preserves_wf(
    eps: Seq<PushEndpointModel>,
    results: Seq<DispatchResultModel>,
)
    requires
        registry_wf(eps),
    ensures
        registry_wf(spec_settle(eps, results)),
{
    assert forall|i: int, j: int|
        0 <= i < j < spec_settle(eps, results).len() implies spec_settle(eps, results)[i]
        .platform_token != spec_settle(eps, results)[j].platform_token by {
        lemma_settle_distinct_indices(eps, results, i, j);
    }
}

/// Registering over the first matching position replaces that entry.
proof fn lemma_register_at_first(eps: Seq<PushEndpointModel>, e: PushEndpointModel, i: int)
    requires
        0 <= i < eps.len(),
        eps[i].platform_token == e.platform_token,
        forall|k: int| 0 <= k < i ==> eps[k].platform_token != e.platform_token,
    ensures
        spec_register_endpoint(eps, e) == eps.update(i, e),
    decreases eps.len(),
{
    if i == 0 {
        assert(seq![e] + eps.drop_first() =~= eps.update(0, e));
    } else {
        let rest = eps.drop_first();
        assert forall|k: int| 0 <= k < i - 1 implies rest[k].platform_token
            != e.platform_token by {
            assert(eps[k + 1].platform_token != e.platform_token);
        }
        lemma_register_at_first(rest, e, i - 1);
        assert(seq![eps[0]] + rest.update(i - 1, e) =~= eps.update(i, e));
    }
}

/// Registering a token the registry lacks appends the entry.
proof fn lemma_register_absent(eps: Seq<PushEndpointModel>, e: PushEndpointModel)
    requires
        !has_endpoint(eps, e.platform_token),
    ensures
        spec_register_endpoint(eps, e) == eps.push(e),
    decreases eps.len(),
{
    if eps.len() == 0 {
        assert(seq![e] =~= eps.push(e));
    } else {
        let rest = eps.drop_first();
        assert forall|k: int| 0 <= k < rest.len() implies rest[k].platform_token
            != e.platform_token by {
            assert(eps[k + 1].platform_token != e.platform_token);
        }
        lemma_register_absent(rest, e);
        assert(seq![eps[0]] + rest.push(e) =~= eps.push(e));
    }
}

/// The notification engine's owned state: the push-endpoint registry plus
/// the provider topic stamped on every message.  The caller owns the
/// provider channels and persistence: it loads a snapshot at startup, sends
/// each [`PreparedPush`] over the channel its `sandbox` flag selects, and
/// writes the registry back whenever a call here reports a change.
pub struct ApnsService {
    pub bundle_id: String,
    pub endpoints: Vec<PushEndpoint>,
}

impl View for ApnsService {
    type V = Seq<PushEndpointModel>;

    open spec fn view(&self) -> Seq<PushEndpointModel> {
        self.endpoints.deep_view()
    }
}

/// A field-for-field copy of an endpoint.
fn clone_endpoint(e: &PushEndpoint) -> (r: PushEndpoint)
    ensures
        r.deep_view() == e.deep_view(),
{
    PushEndpoint {
        platform_token: e.platform_token.clone(),
        sandbox: e.sandbox,
        owning_device_id: e.owning_device_id.clone(),
        display_label: e.display_label.clone(),
    }
}

/// Executable image of [`has_endpoint`], returning the first match.
fn find_endpoint(eps: &Vec<PushEndpoint>, token: &str) -> (r: Option<usize>)
    ensures
        r matches Some(i) ==> i < eps.deep_view().len() && eps.deep_view()[i as int].platform_token
            == token@ && forall|k: int|
            0 <= k < i ==> eps.deep_view()[k].platform_token != token@,
        r is None ==> !has_endpoint(eps.deep_view(), token@),
{
    let n = eps.len();
    let mut i: usize = 0;
    while i < n
        invariant
            i <= n,
            n == eps.len(),
            forall|k: int| 0 <= k < i ==> eps.deep_view()[k].platform_token != token@,
        decreases n - i,
    {
        if str_eq(eps[i].platform_token.as_str(), token) {
            return Some(i);
        }
        i = i + 1;
    }
    None
}

/// Executable image of [`reported_bad`].
fn reported_bad_exec(results: &Vec<DispatchResult>, token: &str) -> (r: bool)
    ensures
        r == reported_bad(results.deep_view(), token@),
{
    let n = results.len();
    let mut i: usize = 0;
    while i < n
        invariant
            i <= n,
            n == results.len(),
            forall|k: int|
                0 <= k < i ==> !((#[trigger] results.deep_view()[k]).platform_token == token@
                    && results.deep_view()[k].outcome is BadDeviceToken),
        decreases n - i,
    {
        let is_bad = match results[i].outcome {
            DeliveryOutcome::BadDeviceToken => true,
            _ => false,
        };
        if is_bad && str_eq(results[i].platform_token.as_str(), token) {
            proof {
                assert(results.deep_view()[i as int].platform_token == token@);
            }
            return true;
        }
        i = i + 1;
    }
    false
}

impl ApnsService {
    /// Install a loaded registry snapshot; one that breaks the registry
    /// invariant is treated as corrupt and replaced by the empty registry.
    pub fn new(bundle_id: String, initial: Vec<PushEndpoint>) -> (s: Self)
        ensures
            registry_wf(s@),
            s.bundle_id@ == bundle_id@,
            registry_wf(initial.deep_view()) ==> s@ == initial.deep_view(),
            !registry_wf(initial.deep_view()) ==> s@ == Seq::<PushEndpointModel>::empty(),
    {
        if check_registry_wf(&initial) {
            ApnsService { bundle_id, endpoints: initial }
        } else {
            let endpoints: Vec<PushEndpoint> = Vec::new();
            proof {
                assert(endpoints.deep_view() =~= Seq::<PushEndpointModel>::empty());
            }
            ApnsService { bundle_id, endpoints }
        }
    }

    /// Register a push endpoint, idempotently by platform token: an existing
    /// entry is updated field-by-field, a new token is appended.  Reports
    /// whether anything actually changed, so the caller persists (and logs)
    /// only then.
    pub fn register_device(
        &mut self,
        platform_token: String,
        sandbox: bool,
        owning_device_id: String,
        display_label: String,
    ) -> (changed: bool)
        requires
            registry_wf(old(self)@),
        ensures
            registry_wf(final(self)@),
            final(self)@ == spec_register_endpoint(
                old(self)@,
                PushEndpointModel {
                    platform_token: platform_token@,
                    sandbox,
                    owning_device_id: owning_device_id@,
                    display_label: display_label@,
                },
            ),
            final(self).bundle_id == old(self).bundle_id,
            changed <==> final(self)@ != old(self)@,
    {
        let ghost prior = self@;
        let e = PushEndpoint { platform_token, sandbox, owning_device_id, display_label };
        let ghost em = e.deep_view();
        match find_endpoint(&self.endpoints, e.platform_token.as_str()) {
            Some(i) => {
                proof {
                    lemma_register_at_first(prior, em, i as int);
                }
                let same = self.endpoints[i].sandbox == e.sandbox && str_eq(
                    self.endpoints[i].owning_device_id.as_str(),
                    e.owning_device_id.as_str(),
                ) && str_eq(self.endpoints[i].display_label.as_str(), e.display_label.as_str());
                if same {
                    proof {
                        assert(prior[i as int] =~= em);
                        assert(prior.update(i as int, em) =~= prior);
                    }
                    false
                } else {
                    self.endpoints.set(i, e);
                    proof {
                        assert(self@ =~= prior.update(i as int, em));
                        assert(prior[i as int] != em);
                        assert(self@[i as int] != prior[i as int]);
                        assert forall|p: int, q: int|
                            0 <= p < q < self@.len() implies self@[p].platform_token
                            != self@[q].platform_token by {
                            assert(prior[p].platform_token != prior[q].platform_token);
                        }
                    }
                    true
                }
            },
            None => {
                proof {
                    lemma_register_absent(prior, em);
                }
                self.endpoints.push(e);
                proof {
                    assert(self@ =~= prior.push(em));
                    assert forall|p: int, q: int|
                        0 <= p < q < self@.len() implies self@[p].platform_token
                        != self@[q].platform_token by {
                        if q < prior.len() {
                            assert(prior[p].platform_token != prior[q].platform_token);
                        } else {
                            assert(!has_endpoint(prior, em.platform_token));
                            assert(prior[p].platform_token != em.platform_token);
                        }
                    }
                    assert(self@.len() != prior.len());
                }
                true
            },
        }
    }

    /// Plan one notification fan-out: one prepared message per registered
    /// endpoint, the title composed per endpoint label, the routing target
    /// attached as payload data.  With no endpoint registered nothing can be
    /// attempted, a condition distinct from any delivery failure.
    pub fn plan_notification(&self, title: &str, body: &str, routing_target: Option<&str>) -> (r:
        Result<Vec<PreparedPush>, ApnsError>)
        ensures
            r is Ok <==> self@.len() > 0,
            r matches Err(e) ==> e is NoDeviceToken,
            r matches Ok(v) ==> v.deep_view() == spec_plan(
                self@,
                title@,
                body@,
                routing_target.deep_view(),
            ),
    {
        let n = self.endpoints.len();
        if n == 0 {
            return Err(ApnsError::NoDeviceToken);
        }
        let mut out: Vec<PreparedPush> = Vec::new();
        let mut i: usize = 0;
        while i < n
            invariant
                i <= n,
                n == self.endpoints.len(),
                out.deep_view() == spec_plan(
                    self@.subrange(0, i as int),
                    title@,
                    body@,
                    routing_target.deep_view(),
                ),
            decreases n - i,
        {
            let ghost out_before = out.deep_view();
            let ep = &self.endpoints[i];
            let prepared = PreparedPush {
                platform_token: ep.platform_token.clone(),
                sandbox: ep.sandbox,
                title: format_title(ep.display_label.as_str(), title),
                body: body.to_owned(),
                routing_target: match routing_target {
                    Some(t) => Some(t.to_owned()),
                    None => None,
                },
            };
            out.push(prepared);
            proof {
                assert(out.deep_view() =~= out_before.push(
                    spec_prepare(self@[i as int], title@, body@, routing_target.deep_view()),
                ));
                assert(spec_plan(
                    self@.subrange(0, i as int + 1),
                    title@,
                    body@,
                    routing_target.deep_view(),
                ) =~= spec_plan(
                    self@.subrange(0, i as int),
                    title@,
                    body@,
                    routing_target.deep_view(),
                ).push(spec_prepare(self@[i as int], title@, body@, routing_target.deep_view())));
            }
            i = i + 1;
        }
        proof {
            assert(self@.subrange(0, n as int) =~= self@);
        }
        Ok(out)
    }

    /// Settle a completed fan-out: remove, in one batch, every endpoint
    /// whose token the provider reported permanently invalid.  Reports
    /// whether anything was removed, so the caller persists only then.
    pub fn settle_dispatch(&mut self, results: &Vec<DispatchResult>) -> (changed: bool)
        requires
            registry_wf(old(self)@),
        ensures
            registry_wf(final(self)@),
            final(self)@ == spec_settle(old(self)@, results.deep_view()),
            final(self).bundle_id == old(self).bundle_id,
            changed <==> final(self)@.len() < old(self)@.len(),
    {
        let ghost prior = self@;
        let n = self.endpoints.len();
        let mut kept: Vec<PushEndpoint> = Vec::new();
        let mut i: usize = 0;
        proof {
            assert(prior.skip(0) =~= prior);
        }
        while i < n
            invariant
                i <= n,
                n == self.endpoints.len(),
                self@ == prior,
                spec_settle(prior, results.deep_view()) == kept.deep_view() + spec_settle(
                    prior.skip(i as int),
                    results.deep_view(),
                ),
                kept.deep_view().len() <= i,
            decreases n - i,
        {
            proof {
                assert(prior.skip(i as int)[0] == prior[i as int]);
                assert(prior.skip(i as int).drop_first() =~= prior.skip(i as int + 1));
            }
            if !reported_bad_exec(results, self.endpoints[i].platform_token.as_str()) {
                let ghost kept_before = kept.deep_view();
                kept.push(clone_endpoint(&self.endpoints[i]));
                proof {
                    assert(kept.deep_view() =~= kept_before.push(prior[i as int]));
                    assert(kept.deep_view() + spec_settle(
                        prior.skip(i as int + 1),
                        results.deep_view(),
                    ) =~= kept_before + (seq![prior[i as int]] + spec_settle(
                        prior.skip(i as int + 1),
                        results.deep_view(),
                    )));
                }
            }
            i = i + 1;
        }
        proof {
            assert(prior.skip(n as int).len() == 0);
            assert(kept.deep_view() + spec_settle(prior.skip(n as int), results.deep_view())
                =~= kept.deep_view());
            lemma_settle_preserves_wf(prior, results.deep_view());
        }
        let changed = kept.len() < n;
        self.endpoints = kept;
        changed
    }
}

/// Executable image of [`registry_wf`].
fn check_registry_wf(eps: &Vec<PushEndpoint>) -> (r: bool)
    ensures
        r == registry_wf(eps.deep_view()),
{
    let n = eps.len();
    let mut i: usize = 0;
    while i < n
        invariant
            i <= n,
            n == eps.len(),
            forall|p: int, q: int|
                0 <= p < q < eps.deep_view().len() && p < i ==> eps.deep_view()[p].platform_token
                    != eps.deep_view()[q].platform_token,
        decreases n - i,
    {
        let mut j: usize = i + 1;
        while j < n
            invariant
                i < j <= n,
                n == eps.len(),
                forall|q: int|
                    i < q < j ==> eps.deep_view()[i as int].platform_token
                        != eps.deep_view()[q].platform_token,
            decreases n - j,
        {
            if str_eq(eps[i].platform_token.as_str(), eps[j].platform_token.as_str()) {
                proof {
                    assert(eps.deep_view()[i as int].platform_token
                        == eps.deep_view()[j as int].platform_token);
                }
                return false;
            }
            j = j + 1;
        }
        i = i + 1;
    }
    true
}

/// Whether a provider report removes the endpoint it concerns: only the
/// specific permanent-invalid reason does, never a transient failure.
pub fn should_remove(outcome: &DeliveryOutcome) -> (r: bool)
    ensures
        r == (outcome is BadDeviceToken),
{
    match outcome {
        DeliveryOutcome::BadDeviceToken => true,
        _ => false,
    }
}

/// One prepared message: the endpoint's key and channel, the composed title,
/// the untouched body, and the routing target as payload data.
pub open spec fn spec_prepare(
    e: PushEndpointModel,
    title: Seq<char>,
    body: Seq<char>,
    routing_target: Option<Seq<char>>,
) -> PreparedPushModel {
    PreparedPushModel {
        platform_token: e.platform_token,
        sandbox: e.sandbox,
        title: spec_format_title(e.display_label, title),
        body,
        routing_target,
    }
}

/// The whole planned fan-out, one prepared message per endpoint, in order.
pub open spec fn spec_plan(
    eps: Seq<PushEndpointModel>,
    title: Seq<char>,
    body: Seq<char>,
    routing_target: Option<Seq<char>>,
) -> Seq<PreparedPushModel> {
    eps.map_values(|e: PushEndpointModel| spec_prepare(e, title, body, routing_target))
}

/// When the label fits with room to spare but the combined title would not,
/// the formatted title meets the budget exactly, starts with the label, the
/// separator and the marker, and ends with the original title's suffix.
pub proof fn lemma_title_budget(label: Seq<char>, title: Seq<char>)
    requires
        label.len() > 0,
        label.len() + 5 <= TITLE_BUDGET,
        label.len() + 2 + title.len() > TITLE_BUDGET,
    ensures
        spec_format_title(label, title).len() == TITLE_BUDGET,
        spec_format_title(label, title).subrange(0, label.len() + 5 as int) == label + ": "@
            + "..."@,
        spec_format_title(label, title).skip(label.len() + 5 as int) == title.skip(
            title.len() - (TITLE_BUDGET - label.len() - 5),
        ),
{
    reveal_strlit(": ");
    reveal_strlit("...");
    let r = spec_format_title(label, title);
    let tail = title.skip(title.len() - (TITLE_BUDGET - label.len() - 5));
    assert(r == label + ": "@ + "..."@ + tail);
    assert(": "@.len() == 2);
    assert("..."@.len() == 3);
    assert(r.len() == TITLE_BUDGET);
    assert(r.subrange(0, label.len() + 5 as int) =~= label + ": "@ + "..."@);
    assert(r.skip(label.len() + 5 as int) =~= tail);
}

} // verus!
