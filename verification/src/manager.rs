//! The access manager: orchestrates onboarding, offboarding, host
//! grants and revocations, and the reconciliation tick, and triggers
//! key materialization.
//!
//! Every operation is a pure transition on the manager's observed
//! state. Mutating graph calls are performed against the locally
//! observed graph and emit the same effects a remote replica would
//! observe; artifacts to distribute accumulate in a pending outbox that
//! the driver drains toward the deployment sink.

use vstd::prelude::*;
use vstd::string::StringSliceAdditionalSpecFns;
use crate::graph;
use crate::graph::{ActionModel, Effect, EffectModel, GraphAction, GraphModel, GraphState};
use crate::ids::{bytes_eq, dup_bytes, AccessError, ChanOp, DeviceId, KeyBundle, KeysModel,
    LabelConfig, Role};
use crate::labels;
use crate::materialize;
use crate::materialize::{ArtifactModel, KeyFileArtifact};
use crate::registry;
use crate::registry::{BindingModel, HostRegistry};

verus! {

/// The version last handed to the deployment sink for one host.
#[derive(Debug)]
pub struct DeployedRec {
    pub host: Vec<u8>,
    pub version: u64,
}

/// Mathematical image of a [`DeployedRec`].
#[verifier::ext_equal]
pub struct DeployedModel {
    pub host: Seq<u8>,
    pub version: u64,
}

impl DeployedRec {
    pub open spec fn model(&self) -> DeployedModel {
        DeployedModel { host: self.host@, version: self.version }
    }
}

/// Mathematical image of an [`SshAccessManager`].
#[verifier::ext_equal]
pub struct ManagerModel {
    pub cfg: LabelConfig,
    pub graph: GraphModel,
    pub registry: Seq<BindingModel>,
    pub deployed: Seq<DeployedModel>,
    pub pending: Seq<ArtifactModel>,
}

impl ManagerModel {
    pub open spec fn wf(&self) -> bool {
        self.cfg.wf() && self.graph.wf() && registry::registry_wf(self.registry)
    }
}

/// The version last deployed for a host, if any.
pub open spec fn deployed_version(d: Seq<DeployedModel>, host: Seq<u8>) -> Option<u64>
    decreases d.len(),
{
    if d.len() == 0 {
        None
    } else if d[0].host == host {
        Some(d[0].version)
    } else {
        deployed_version(d.drop_first(), host)
    }
}

/// The deployment records with every record for the host left out.
pub open spec fn without_deployed(d: Seq<DeployedModel>, host: Seq<u8>) -> Seq<DeployedModel>
    decreases d.len(),
{
    if d.len() == 0 {
        d
    } else {
        let rest = without_deployed(d.drop_last(), host);
        if d.last().host == host {
            rest
        } else {
            rest.push(d.last())
        }
    }
}

/// The deployment records with the host's version set.
pub open spec fn set_deployed(d: Seq<DeployedModel>, host: Seq<u8>, v: u64) -> Seq<DeployedModel> {
    without_deployed(d, host).push(DeployedModel { host, version: v })
}

/// No record kept by a removal names the removed host.
pub proof fn lemma_without_deployed_removes(d: Seq<DeployedModel>, host: Seq<u8>)
    ensures
        forall|i: int|
            0 <= i < without_deployed(d, host).len() ==> (#[trigger] without_deployed(
                d,
                host,
            )[i]).host != host,
    decreases d.len(),
{
    if d.len() > 0 {
        lemma_without_deployed_removes(d.drop_last(), host);
        let rest = without_deployed(d.drop_last(), host);
        let out = without_deployed(d, host);
        assert forall|i: int| 0 <= i < out.len() implies (#[trigger] out[i]).host != host by {
            if d.last().host == host {
                assert(out[i] == rest[i]);
            } else {
                if i < rest.len() {
                    assert(out[i] == rest[i]);
                } else {
                    assert(out[i] == d.last());
                }
            }
        }
    }
}

/// Appending a record for a host no other record names makes it the
/// host's looked-up version.
pub proof fn lemma_deployed_version_push_fresh(d: Seq<DeployedModel>, rec: DeployedModel)
    requires
        forall|i: int| 0 <= i < d.len() ==> (#[trigger] d[i]).host != rec.host,
    ensures
        deployed_version(d.push(rec), rec.host) == Some(rec.version),
    decreases d.len(),
{
    if d.len() == 0 {
        assert(d.push(rec)[0] == rec);
    } else {
        assert(d.push(rec)[0] == d[0]);
        assert(d[0].host != rec.host);
        let tail = d.drop_first();
        assert(forall|i: int| 0 <= i < tail.len() ==> (#[trigger] tail[i]).host != rec.host) by {
            assert(forall|i: int| 0 <= i < tail.len() ==> tail[i] == d[i + 1]);
        }
        lemma_deployed_version_push_fresh(tail, rec);
        assert(d.push(rec).drop_first() =~= tail.push(rec));
    }
}

/// After setting a host's version, looking it up yields that version.
pub proof fn lemma_deployed_version_set(d: Seq<DeployedModel>, host: Seq<u8>, v: u64)
    ensures
        deployed_version(set_deployed(d, host, v), host) == Some(v),
{
    lemma_without_deployed_removes(d, host);
    lemma_deployed_version_push_fresh(
        without_deployed(d, host),
        DeployedModel { host, version: v },
    );
}

/// Whether refreshing the host under this state would emit an artifact:
/// exactly when the current content version differs from the last
/// deployed one.
pub open spec fn refresh_emits(m: ManagerModel, host: Seq<u8>, label: u32) -> bool {
    deployed_version(m.deployed, host) != Some(
        materialize::content_version(materialize::host_content(m.graph, label, m.cfg.admin_role)),
    )
}

/// The state after refreshing one host: the canonical content is
/// rendered and versioned; if the version matches the last deployed one
/// the state is unchanged, otherwise the artifact joins the outbox and
/// the recorded version moves forward.
pub open spec fn refresh_host_model(m: ManagerModel, host: Seq<u8>, label: u32) -> ManagerModel {
    let content = materialize::host_content(m.graph, label, m.cfg.admin_role);
    let v = materialize::content_version(content);
    if deployed_version(m.deployed, host) == Some(v) {
        m
    } else {
        ManagerModel {
            deployed: set_deployed(m.deployed, host, v),
            pending: m.pending.push(ArtifactModel { host, content, version: v }),
            ..m
        }
    }
}

/// The state after refreshing a host by name: a host with no binding
/// has no key file, so nothing changes.
pub open spec fn refresh_named_model(m: ManagerModel, host: Seq<u8>) -> ManagerModel {
    match registry::bound_label(m.registry, host) {
        Some(label) => refresh_host_model(m, host, label),
        None => m,
    }
}

/// The state after refreshing the first `n` registered hosts in order.
pub open spec fn refresh_prefix_model(
    m: ManagerModel,
    rs: Seq<BindingModel>,
    n: int,
) -> ManagerModel
    decreases n,
{
    if n <= 0 {
        m
    } else {
        let m1 = refresh_prefix_model(m, rs, n - 1);
        refresh_host_model(m1, rs[n - 1].host, rs[n - 1].label)
    }
}

/// The state after refreshing every registered host.
pub open spec fn refresh_all_model(m: ManagerModel) -> ManagerModel {
    refresh_prefix_model(m, m.registry, m.registry.len() as int)
}

/// The state after initialization: the well-known transport label is
/// defined. Defining an already defined label changes nothing, so
/// initialization is idempotent.
pub open spec fn initialize_model(m: ManagerModel) -> ManagerModel {
    ManagerModel {
        graph: graph::perform_model(
            m.graph,
            ActionModel::DefineLabel { label: m.cfg.transport_label },
        ),
        ..m
    }
}

/// The identity minted by a member addition, read from its effects:
/// the first member-addition effect names it; an effect list without
/// one yields a missing identity.
pub open spec fn extracted_id(es: Seq<EffectModel>) -> Result<DeviceId, AccessError>
    decreases es.len(),
{
    if es.len() == 0 {
        Err(AccessError::MissingIdentity)
    } else {
        match es[0] {
            EffectModel::MemberAdded { who, .. } => Ok(who),
            _ => extracted_id(es.drop_first()),
        }
    }
}

/// The state and answer after onboarding a user: the graph mints an
/// identity, the matching SSH role is assigned, the transport label is
/// opened, and every host's key file is refreshed. Onboarding fails
/// with a missing identity exactly when the graph can mint no further
/// identifier.
pub open spec fn add_user_model(m: ManagerModel, keys: KeysModel, is_admin: bool) -> (
    ManagerModel,
    Result<DeviceId, AccessError>,
) {
    if m.graph.next_seed == u64::MAX {
        (m, Err(AccessError::MissingIdentity))
    } else {
        let who = DeviceId { id: m.graph.next_seed };
        let role = if is_admin {
            Role::Custom(m.cfg.admin_role)
        } else {
            Role::Custom(m.cfg.user_role)
        };
        let g1 = graph::perform_model(m.graph, ActionModel::AddMember { keys });
        let g2 = graph::perform_model(g1, ActionModel::AssignRole { who, role });
        let g3 = graph::perform_model(
            g2,
            ActionModel::AssignLabel { who, label: m.cfg.transport_label, op: ChanOp::Open },
        );
        (refresh_all_model(ManagerModel { graph: g3, ..m }), Ok(who))
    }
}

/// The ordered actions offboarding issues: revoke the transport label,
/// revoke both SSH roles, and only then remove membership, so no
/// intermediate state reads as still fully authorized.
pub open spec fn remove_plan_model(cfg: LabelConfig, who: DeviceId) -> Seq<ActionModel> {
    seq![
        ActionModel::RevokeLabel { who, label: cfg.transport_label },
        ActionModel::RevokeRole { who, role: Role::Custom(cfg.user_role) },
        ActionModel::RevokeRole { who, role: Role::Custom(cfg.admin_role) },
        ActionModel::RemoveMember { who },
    ]
}

/// The state after offboarding a user: the offboarding plan performed
/// in order, then every host's key file refreshed. Offboarding an
/// unknown or partly offboarded principal is a clean no-op per step,
/// so a retry always completes.
pub open spec fn remove_user_model(m: ManagerModel, who: DeviceId) -> ManagerModel {
    refresh_all_model(
        ManagerModel {
            graph: graph::perform_seq_model(m.graph, remove_plan_model(m.cfg, who)),
            ..m
        },
    )
}

/// The state and answer after granting a principal access to a host:
/// the principal must be a known member holding an SSH role; the
/// host's label is derived and bound (a collision with a different
/// host is refused), defined, opened for the principal, and the host's
/// key file refreshed. Granting access already held changes nothing.
pub open spec fn grant_model(m: ManagerModel, who: DeviceId, host: Seq<u8>) -> (
    ManagerModel,
    Result<(), AccessError>,
) {
    if !m.graph.is_member(who) {
        (m, Err(AccessError::MissingIdentity))
    } else if !m.graph.has_role(who, Role::Custom(m.cfg.admin_role)) && !m.graph.has_role(
        who,
        Role::Custom(m.cfg.user_role),
    ) {
        (m, Err(AccessError::NotAuthorized))
    } else {
        let bound = registry::bind_model(m.registry, host);
        match bound.1 {
            Err(e) => (m, Err(e)),
            Ok(label) => {
                let g1 = graph::perform_model(m.graph, ActionModel::DefineLabel { label });
                let g2 = graph::perform_model(
                    g1,
                    ActionModel::AssignLabel { who, label, op: ChanOp::Open },
                );
                let m2 = ManagerModel { graph: g2, registry: bound.0, ..m };
                (refresh_host_model(m2, host, label), Ok(()))
            },
        }
    }
}

/// The state and answer after revoking a principal's access to a host:
/// the grant on the host's bound label is removed and the host's key
/// file refreshed. Revoking access not held, or naming a host never
/// bound, is a no-op, not an error.
pub open spec fn revoke_model(m: ManagerModel, who: DeviceId, host: Seq<u8>) -> (
    ManagerModel,
    Result<(), AccessError>,
) {
    match registry::bound_label(m.registry, host) {
        None => (m, Ok(())),
        Some(label) => {
            let g1 = graph::perform_model(m.graph, ActionModel::RevokeLabel { who, label });
            (refresh_host_model(ManagerModel { graph: g1, ..m }, host, label), Ok(()))
        },
    }
}

/// Whether an effect's host scope cannot be determined from a label,
/// so only a full refresh is sound: membership and role changes can
/// affect any host's rendering.
pub open spec fn effect_needs_full(e: EffectModel) -> bool {
    match e {
        EffectModel::MemberAdded { .. } => true,
        EffectModel::MemberRemoved { .. } => true,
        EffectModel::RoleAssigned { .. } => true,
        EffectModel::RoleRevoked { .. } => true,
        EffectModel::LabelDefined { .. } => false,
        EffectModel::LabelAssigned { .. } => false,
        EffectModel::LabelRevoked { .. } => false,
    }
}

/// Whether any observed effect forces a full refresh.
pub open spec fn any_needs_full(es: Seq<EffectModel>) -> bool {
    exists|i: int| 0 <= i < es.len() && effect_needs_full(#[trigger] es[i])
}

/// The label an effect's host scope derives from, if any. Defining a
/// label grants nothing, so it scopes no host.
pub open spec fn effect_label(e: EffectModel) -> Option<u32> {
    match e {
        EffectModel::LabelAssigned { label, .. } => Some(label),
        EffectModel::LabelRevoked { label, .. } => Some(label),
        _ => None,
    }
}

/// The state after the targeted refreshes a list of label-scoped
/// effects asks for, in order; labels bound to no host scope nothing.
pub open spec fn refresh_targets_model(
    m: ManagerModel,
    rs: Seq<BindingModel>,
    es: Seq<EffectModel>,
) -> ManagerModel
    decreases es.len(),
{
    if es.len() == 0 {
        m
    } else {
        let m1 = refresh_targets_model(m, rs, es.drop_last());
        match effect_label(es.last()) {
            Some(label) => match registry::binding_of_label(rs, label) {
                Some(b) => refresh_host_model(m1, b.host, b.label),
                None => m1,
            },
            None => m1,
        }
    }
}

/// The state after one reconciliation tick over the effects newly
/// observed from peers: an empty list returns to idle with no side
/// effects at all; otherwise the effects are folded in and the
/// affected hosts refreshed — all of them when any effect's host scope
/// cannot be determined, else just the hosts of the labels involved.
pub open spec fn sync_model(m: ManagerModel, es: Seq<EffectModel>) -> ManagerModel {
    if es.len() == 0 {
        m
    } else {
        let m1 = ManagerModel { graph: graph::apply_effects_model(m.graph, es), ..m };
        if any_needs_full(es) {
            refresh_all_model(m1)
        } else {
            refresh_targets_model(m1, m.registry, es)
        }
    }
}

/// What one reconciliation tick did.
#[derive(Clone, Copy, PartialEq, Eq, Structural, Debug)]
pub struct SyncReport {
    /// How many newly observed effects were folded in.
    pub applied: usize,
    /// Whether the tick fell back to refreshing every known host.
    pub full_refresh: bool,
}

/// Orchestrates SSH access: issues graph actions, observes their
/// effects, keeps the host registry, and materializes key files.
#[derive(Debug)]
pub struct SshAccessManager {
    pub cfg: LabelConfig,
    pub graph: GraphState,
    pub registry: HostRegistry,
    pub deployed: Vec<DeployedRec>,
    pub pending: Vec<KeyFileArtifact>,
}

impl SshAccessManager {
    pub open spec fn model(&self) -> ManagerModel {
        ManagerModel {
            cfg: self.cfg,
            graph: self.graph.model(),
            registry: self.registry.model(),
            deployed: self.deployed@.map_values(|d: DeployedRec| d.model()),
            pending: self.pending@.map_values(|a: KeyFileArtifact| a.model()),
        }
    }

    pub open spec fn wf(&self) -> bool {
        self.model().wf()
    }

    /// A fresh manager over an empty observed state.
    pub fn new(cfg: LabelConfig) -> (m: SshAccessManager)
        requires
            cfg.wf(),
        ensures
            m.wf(),
            m.model().cfg == cfg,
            m.model().graph == graph::empty_graph_model(),
            m.model().registry == Seq::<BindingModel>::empty(),
            m.model().deployed == Seq::<DeployedModel>::empty(),
            m.model().pending == Seq::<ArtifactModel>::empty(),
    {
        let m = SshAccessManager {
            cfg,
            graph: GraphState::empty(),
            registry: HostRegistry::empty(),
            deployed: Vec::new(),
            pending: Vec::new(),
        };
        proof {
            assert(m.model().deployed =~= Seq::<DeployedModel>::empty());
            assert(m.model().pending =~= Seq::<ArtifactModel>::empty());
        }
        m
    }

    /// The deterministic label a host name maps to.
    pub fn hash_hostname(&self, hostname: &str) -> (label: u32)
        ensures
            label == labels::derived_label(hostname.spec_bytes()),
            labels::is_host_label(label),
    {
        let bytes = str_to_bytes(hostname);
        labels::derive_label_bytes(&bytes)
    }

    /// The version last deployed for a host, if any.
    fn lookup_deployed(&self, host: &Vec<u8>) -> (r: Option<u64>)
        ensures
            r == deployed_version(self.model().deployed, host@),
    {
        let ghost all = self.model().deployed;
        proof {
            assert(all.skip(0) =~= all);
        }
        let mut i: usize = 0;
        while i < self.deployed.len()
            invariant
                all == self.model().deployed,
                i <= self.deployed@.len(),
                deployed_version(all, host@) == deployed_version(all.skip(i as int), host@),
            decreases self.deployed@.len() - i,
        {
            proof {
                assert(all.skip(i as int).drop_first() =~= all.skip(i + 1int));
                assert(all.skip(i as int)[0] == all[i as int]);
            }
            if bytes_eq(&self.deployed[i].host, host) {
                proof {
                    assert(all[i as int].host == host@);
                }
                return Some(self.deployed[i].version);
            }
            i = i + 1;
        }
        proof {
            assert(all.skip(all.len() as int) =~= Seq::<DeployedModel>::empty());
        }
        None
    }

    /// Records the version just handed to the outbox for a host.
    fn record_deployed(&mut self, host: &Vec<u8>, v: u64)
        ensures
            final(self).model() == (ManagerModel {
                deployed: set_deployed(old(self).model().deployed, host@, v),
                ..old(self).model()
            }),
    {
        let ghost all = self.model().deployed;
        let mut out: Vec<DeployedRec> = Vec::new();
        proof {
            assert(all.take(0) =~= Seq::<DeployedModel>::empty());
            assert(out@.map_values(|d: DeployedRec| d.model()) =~= Seq::<DeployedModel>::empty());
        }
        let mut i: usize = 0;
        while i < self.deployed.len()
            invariant
                all == self.model().deployed,
                i <= self.deployed@.len(),
                out@.map_values(|d: DeployedRec| d.model()) == without_deployed(
                    all.take(i as int),
                    host@,
                ),
            decreases self.deployed@.len() - i,
        {
            proof {
                assert(all.take(i + 1int).drop_last() =~= all.take(i as int));
                assert(all.take(i + 1int).last() == all[i as int]);
            }
            if !bytes_eq(&self.deployed[i].host, host) {
                let rec = DeployedRec {
                    host: dup_bytes(&self.deployed[i].host),
                    version: self.deployed[i].version,
                };
                let ghost before = out@;
                out.push(rec);
                proof {
                    assert(rec.model() == all[i as int]);
                    assert(out@.map_values(|d: DeployedRec| d.model()) =~= before.map_values(
                        |d: DeployedRec| d.model(),
                    ).push(rec.model()));
                }
            }
            i = i + 1;
        }
        proof {
            assert(all.take(all.len() as int) =~= all);
        }
        let rec = DeployedRec { host: dup_bytes(host), version: v };
        let ghost before = out@;
        out.push(rec);
        proof {
            assert(out@.map_values(|d: DeployedRec| d.model()) =~= before.map_values(
                |d: DeployedRec| d.model(),
            ).push(rec.model()));
        }
        self.deployed = out;
        proof {
            assert(self.model() =~= (ManagerModel {
                deployed: set_deployed(old(self).model().deployed, host@, v),
                ..old(self).model()
            }));
        }
    }

    /// Refreshes one host whose binding is already known: renders the
    /// canonical content, and emits an artifact exactly when its
    /// version differs from the last deployed one.
    fn refresh_one(&mut self, host: &Vec<u8>, label: u32) -> (changed: bool)
        ensures
            final(self).model() == refresh_host_model(old(self).model(), host@, label),
            changed == refresh_emits(old(self).model(), host@, label),
    {
        let content = materialize::render_host_content(&self.graph, label, self.cfg.admin_role);
        let v = materialize::version_of(&content);
        let same = match self.lookup_deployed(host) {
            Some(pv) => pv == v,
            None => false,
        };
        if same {
            return false;
        }
        self.record_deployed(host, v);
        let artifact = materialize::build_artifact(host, content);
        let ghost before = self.pending@;
        self.pending.push(artifact);
        proof {
            assert(self.pending@.map_values(|a: KeyFileArtifact| a.model()) =~= before.map_values(
                |a: KeyFileArtifact| a.model(),
            ).push(artifact.model()));
            assert(self.model() =~= refresh_host_model(old(self).model(), host@, label));
        }
        true
    }

    /// Refreshes the key file for one host by name. A host that was
    /// never bound has no key file, so nothing changes.
    pub fn update_host_keys(&mut self, hostname: &str) -> (changed: bool)
        requires
            old(self).wf(),
        ensures
            final(self).wf(),
            final(self).model() == refresh_named_model(
                old(self).model(),
                hostname.spec_bytes(),
            ),
            changed ==> final(self).model().pending.len() == old(self).model().pending.len() + 1,
            !changed ==> final(self).model() == old(self).model(),
    {
        let bytes = str_to_bytes(hostname);
        match self.registry.lookup(&bytes) {
            Some(label) => self.refresh_one(&bytes, label),
            None => false,
        }
    }

    /// Refreshes every known host in registry order, collecting how
    /// many artifacts were emitted. No host's refresh can abort the
    /// others: each is an independent state transition.
    pub fn update_authorized_keys(&mut self) -> (emitted: usize)
        requires
            old(self).wf(),
        ensures
            final(self).wf(),
            final(self).model() == refresh_all_model(old(self).model()),
            emitted as int == final(self).model().pending.len() - old(self).model().pending.len(),
    {
        let ghost m0 = self.model();
        let mut emitted: usize = 0;
        let mut i: usize = 0;
        while i < self.registry.bindings.len()
            invariant
                old(self).wf(),
                m0 == old(self).model(),
                i <= self.registry.bindings@.len(),
                self.model() == refresh_prefix_model(m0, m0.registry, i as int),
                self.model().registry == m0.registry,
                self.model().graph == m0.graph,
                self.model().cfg == m0.cfg,
                emitted <= i,
                emitted as int == self.model().pending.len() - m0.pending.len(),
            decreases self.registry.bindings@.len() - i,
        {
            let host = dup_bytes(&self.registry.bindings[i].host);
            let label = self.registry.bindings[i].label;
            proof {
                assert(m0.registry[i as int] == (BindingModel { host: host@, label }));
            }
            let changed = self.refresh_one(&host, label);
            if changed {
                emitted = emitted + 1;
            }
            i = i + 1;
        }
        emitted
    }

    /// Hands over the accumulated artifacts for the driver to deploy,
    /// leaving the outbox empty.
    pub fn take_pending_deployments(&mut self) -> (out: Vec<KeyFileArtifact>)
        ensures
            out@.map_values(|a: KeyFileArtifact| a.model()) == old(self).model().pending,
            final(self).model() == (ManagerModel {
                pending: Seq::<ArtifactModel>::empty(),
                ..old(self).model()
            }),
    {
        let mut out: Vec<KeyFileArtifact> = Vec::new();
        core::mem::swap(&mut out, &mut self.pending);
        proof {
            assert(self.model().pending =~= Seq::<ArtifactModel>::empty());
            assert(self.model() =~= (ManagerModel {
                pending: Seq::<ArtifactModel>::empty(),
                ..old(self).model()
            }));
        }
        out
    }

    /// Forgets the deployed version for a host after the sink refused
    /// its artifact, so the next refresh deploys again.
    pub fn mark_deploy_failed(&mut self, hostname: &str)
        ensures
            final(self).model() == (ManagerModel {
                deployed: without_deployed(old(self).model().deployed, hostname.spec_bytes()),
                ..old(self).model()
            }),
    {
        let bytes = str_to_bytes(hostname);
        let ghost all = self.model().deployed;
        let mut out: Vec<DeployedRec> = Vec::new();
        proof {
            assert(all.take(0) =~= Seq::<DeployedModel>::empty());
            assert(out@.map_values(|d: DeployedRec| d.model()) =~= Seq::<DeployedModel>::empty());
        }
        let mut i: usize = 0;
        while i < self.deployed.len()
            invariant
                bytes@ == hostname.spec_bytes(),
                all == self.model().deployed,
                i <= self.deployed@.len(),
                out@.map_values(|d: DeployedRec| d.model()) == without_deployed(
                    all.take(i as int),
                    bytes@,
                ),
            decreases self.deployed@.len() - i,
        {
            proof {
                assert(all.take(i + 1int).drop_last() =~= all.take(i as int));
                assert(all.take(i + 1int).last() == all[i as int]);
            }
            if !bytes_eq(&self.deployed[i].host, &bytes) {
                let rec = DeployedRec {
                    host: dup_bytes(&self.deployed[i].host),
                    version: self.deployed[i].version,
                };
                let ghost before = out@;
                out.push(rec);
                proof {
                    assert(rec.model() == all[i as int]);
                    assert(out@.map_values(|d: DeployedRec| d.model()) =~= before.map_values(
                        |d: DeployedRec| d.model(),
                    ).push(rec.model()));
                }
            }
            i = i + 1;
        }
        proof {
            assert(all.take(all.len() as int) =~= all);
        }
        self.deployed = out;
        proof {
            assert(self.model() =~= (ManagerModel {
                deployed: without_deployed(old(self).model().deployed, hostname.spec_bytes()),
                ..old(self).model()
            }));
        }
    }

    /// Initializes SSH access management: defines the well-known
    /// transport label. Safe to call any number of times; defining an
    /// already defined label is success, not an error.
    pub fn initialize(&mut self)
        requires
            old(self).wf(),
        ensures
            final(self).wf(),
            final(self).model() == initialize_model(old(self).model()),
    {
        let label = self.cfg.transport_label;
        self.graph.perform(&GraphAction::DefineLabel { label });
        proof {
            assert(self.model() =~= initialize_model(old(self).model()));
        }
    }

    /// Onboards a user: adds a team member, reads the minted identity
    /// from the emitted effects, assigns the matching SSH role, opens
    /// the transport label, and refreshes every host's key file. A new
    /// principal holds no host grants until granted explicitly.
    pub fn add_ssh_user(&mut self, keys: KeyBundle, is_admin: bool) -> (r: Result<
        DeviceId,
        AccessError,
    >)
        requires
            old(self).wf(),
        ensures
            final(self).wf(),
            (final(self).model(), r) == add_user_model(old(self).model(), keys.model(), is_admin),
    {
        let ghost m0 = self.model();
        let ghost keys_model = keys.model();
        let effects = self.graph.perform(&GraphAction::AddMember { keys });
        let who = match extract_member_id(&effects) {
            Ok(w) => w,
            Err(e) => {
                proof {
                    let es = graph::action_effects(
                        m0.graph,
                        ActionModel::AddMember { keys: keys_model },
                    );
                    assert(m0.graph.next_seed == u64::MAX) by {
                        if m0.graph.next_seed != u64::MAX {
                            assert(es[0] is MemberAdded);
                            assert(extracted_id(es) is Ok);
                        }
                    }
                    assert(es =~= Seq::<EffectModel>::empty());
                    assert(self.model() =~= m0);
                }
                return Err(e);
            },
        };
        proof {
            let es = graph::action_effects(m0.graph, ActionModel::AddMember { keys: keys_model });
            assert(es.len() > 0 && extracted_id(es) == Ok::<DeviceId, AccessError>(who));
            assert(m0.graph.next_seed != u64::MAX) by {
                if m0.graph.next_seed == u64::MAX {
                    assert(es =~= Seq::<EffectModel>::empty());
                }
            }
            assert(who == DeviceId { id: m0.graph.next_seed });
        }
        let role = if is_admin {
            Role::Custom(self.cfg.admin_role)
        } else {
            Role::Custom(self.cfg.user_role)
        };
        self.graph.perform(&GraphAction::AssignRole { who, role });
        let transport = self.cfg.transport_label;
        self.graph.perform(&GraphAction::AssignLabel { who, label: transport, op: ChanOp::Open });
        proof {
            assert(self.wf());
            assert(self.model() =~= (ManagerModel {
                graph: self.model().graph,
                ..m0
            }));
        }
        self.update_authorized_keys();
        proof {
            assert((self.model(), Ok::<DeviceId, AccessError>(who)) =~= add_user_model(
                m0,
                keys_model,
                is_admin,
            ));
        }
        Ok(who)
    }

    /// The ordered actions offboarding a principal issues against the
    /// graph. A driver that must survive partial failure performs them
    /// one at a time and refreshes afterwards.
    pub fn plan_remove_user(&self, who: DeviceId) -> (plan: Vec<GraphAction>)
        ensures
            plan@.map_values(|a: GraphAction| a.model()) == remove_plan_model(self.cfg, who),
    {
        let mut plan: Vec<GraphAction> = Vec::new();
        plan.push(GraphAction::RevokeLabel { who, label: self.cfg.transport_label });
        plan.push(GraphAction::RevokeRole { who, role: Role::Custom(self.cfg.user_role) });
        plan.push(GraphAction::RevokeRole { who, role: Role::Custom(self.cfg.admin_role) });
        plan.push(GraphAction::RemoveMember { who });
        proof {
            assert(plan@.map_values(|a: GraphAction| a.model()) =~= remove_plan_model(
                self.cfg,
                who,
            ));
        }
        plan
    }

    /// Performs one mutating graph action and observes its effects,
    /// without refreshing any key file. This is the step primitive a
    /// driver uses to execute a plan action by action; it refreshes
    /// once the steps it could complete are done.
    pub fn apply_action(&mut self, action: &GraphAction) -> (effects: Vec<Effect>)
        requires
            old(self).wf(),
        ensures
            final(self).wf(),
            final(self).model() == (ManagerModel {
                graph: graph::perform_model(old(self).model().graph, action.model()),
                ..old(self).model()
            }),
            effects@.map_values(|e: Effect| e.model()) == graph::action_effects(
                old(self).model().graph,
                action.model(),
            ),
    {
        let effects = self.graph.perform(action);
        proof {
            assert(self.model() =~= (ManagerModel {
                graph: graph::perform_model(old(self).model().graph, action.model()),
                ..old(self).model()
            }));
        }
        effects
    }

    /// Offboards a user: revokes the transport label, revokes both SSH
    /// roles, removes team membership — in that order — then refreshes
    /// every host's key file. Each step is a no-op where its outcome
    /// already holds, so offboarding is always safe to retry and never
    /// an error.
    pub fn remove_ssh_user(&mut self, who: DeviceId) -> (r: Result<(), AccessError>)
        requires
            old(self).wf(),
        ensures
            final(self).wf(),
            final(self).model() == remove_user_model(old(self).model(), who),
            r == Ok::<(), AccessError>(()),
    {
        let ghost m0 = self.model();
        let plan = self.plan_remove_user(who);
        let ghost plan_models = plan@.map_values(|a: GraphAction| a.model());
        proof {
            assert(plan_models.take(0) =~= Seq::<ActionModel>::empty());
        }
        let mut i: usize = 0;
        while i < plan.len()
            invariant
                plan_models == plan@.map_values(|a: GraphAction| a.model()),
                i <= plan@.len(),
                self.model() == (ManagerModel {
                    graph: graph::perform_seq_model(m0.graph, plan_models.take(i as int)),
                    ..m0
                }),
                self.wf(),
                m0.wf(),
            decreases plan@.len() - i,
        {
            proof {
                assert(plan_models.take(i + 1int).drop_last() =~= plan_models.take(i as int));
                assert(plan_models.take(i + 1int).last() == plan_models[i as int]);
            }
            self.graph.perform(&plan[i]);
            proof {
                assert(self.model() =~= (ManagerModel {
                    graph: graph::perform_seq_model(m0.graph, plan_models.take(i + 1int)),
                    ..m0
                }));
            }
            i = i + 1;
        }
        proof {
            assert(plan_models.take(plan@.len() as int) =~= plan_models);
        }
        self.update_authorized_keys();
        proof {
            assert(self.model() =~= remove_user_model(m0, who));
        }
        Ok(())
    }

    /// Grants a principal SSH access to a host: binds the host's
    /// derived label (detecting collisions), defines it, opens it for
    /// the principal, and refreshes the host's key file. Idempotent:
    /// granting access already held leaves the state unchanged. The
    /// principal must be a known member holding an SSH role.
    pub fn grant_host_access(&mut self, who: DeviceId, hostname: &str) -> (r: Result<
        (),
        AccessError,
    >)
        requires
            old(self).wf(),
        ensures
            final(self).wf(),
            (final(self).model(), r) == grant_model(
                old(self).model(),
                who,
                hostname.spec_bytes(),
            ),
    {
        let ghost m0 = self.model();
        if !self.graph.is_member(who) {
            return Err(AccessError::MissingIdentity);
        }
        if !self.holds_ssh_role(who) {
            return Err(AccessError::NotAuthorized);
        }
        let bytes = str_to_bytes(hostname);
        let label = match self.registry.bind(&bytes) {
            Ok(l) => l,
            Err(e) => {
                proof {
                    assert(self.model() =~= m0);
                }
                return Err(e);
            },
        };
        self.graph.perform(&GraphAction::DefineLabel { label });
        self.graph.perform(&GraphAction::AssignLabel { who, label, op: ChanOp::Open });
        self.refresh_one(&bytes, label);
        proof {
            assert((self.model(), Ok::<(), AccessError>(())) =~= grant_model(
                m0,
                who,
                hostname.spec_bytes(),
            ));
        }
        Ok(())
    }

    /// Revokes a principal's SSH access to a host and refreshes the
    /// host's key file. Revoking access not currently held, or naming
    /// a host that was never bound, is a no-op.
    pub fn revoke_host_access(&mut self, who: DeviceId, hostname: &str) -> (r: Result<
        (),
        AccessError,
    >)
        requires
            old(self).wf(),
        ensures
            final(self).wf(),
            (final(self).model(), r) == revoke_model(
                old(self).model(),
                who,
                hostname.spec_bytes(),
            ),
    {
        let ghost m0 = self.model();
        let bytes = str_to_bytes(hostname);
        let label = match self.registry.lookup(&bytes) {
            Some(l) => l,
            None => {
                return Ok(());
            },
        };
        self.graph.perform(&GraphAction::RevokeLabel { who, label });
        self.refresh_one(&bytes, label);
        proof {
            assert((self.model(), Ok::<(), AccessError>(())) =~= revoke_model(
                m0,
                who,
                hostname.spec_bytes(),
            ));
        }
        Ok(())
    }

    /// One reconciliation tick over the effects newly observed from
    /// peers. An empty list returns to idle without side effects; no
    /// key file is rendered and nothing is deployed. Otherwise the
    /// effects are folded into the observed state and the affected
    /// hosts refreshed: all of them as soon as one effect's host scope
    /// cannot be determined, else exactly the hosts bound to the
    /// labels involved.
    pub fn sync_and_update_keys(&mut self, observed: &Vec<Effect>) -> (report: SyncReport)
        requires
            old(self).wf(),
        ensures
            final(self).wf(),
            final(self).model() == sync_model(
                old(self).model(),
                observed@.map_values(|e: Effect| e.model()),
            ),
            report.applied == observed@.len(),
            report.full_refresh == (observed@.len() > 0 && any_needs_full(
                observed@.map_values(|e: Effect| e.model()),
            )),
    {
        let ghost m0 = self.model();
        let ghost es = observed@.map_values(|e: Effect| e.model());
        if observed.len() == 0 {
            return SyncReport { applied: 0, full_refresh: false };
        }
        proof {
            assert(es.take(0) =~= Seq::<EffectModel>::empty());
        }
        let mut i: usize = 0;
        while i < observed.len()
            invariant
                es == observed@.map_values(|e: Effect| e.model()),
                i <= observed@.len(),
                self.model() == (ManagerModel {
                    graph: graph::apply_effects_model(m0.graph, es.take(i as int)),
                    ..m0
                }),
                self.wf(),
                m0.wf(),
            decreases observed@.len() - i,
        {
            proof {
                assert(es.take(i + 1int).drop_last() =~= es.take(i as int));
                assert(es.take(i + 1int).last() == es[i as int]);
            }
            self.graph.apply_effect(&observed[i]);
            proof {
                assert(self.model() =~= (ManagerModel {
                    graph: graph::apply_effects_model(m0.graph, es.take(i + 1int)),
                    ..m0
                }));
            }
            i = i + 1;
        }
        proof {
            assert(es.take(observed@.len() as int) =~= es);
        }
        let ghost m1 = self.model();
        let mut full: bool = false;
        let mut k: usize = 0;
        while k < observed.len()
            invariant
                es == observed@.map_values(|e: Effect| e.model()),
                k <= observed@.len(),
                full == any_needs_full(es.take(k as int)),
            decreases observed@.len() - k,
        {
            if effect_requires_full(&observed[k]) {
                proof {
                    assert(es.take(k + 1int)[k as int] == es[k as int]);
                    assert(any_needs_full(es.take(k + 1int)));
                }
                full = true;
            } else {
                proof {
                    if any_needs_full(es.take(k + 1int)) {
                        let j = choose|j: int|
                            0 <= j < es.take(k + 1int).len() && effect_needs_full(
                                #[trigger] es.take(k + 1int)[j],
                            );
                        if j < k as int {
                            assert(es.take(k as int)[j] == es.take(k + 1int)[j]);
                            assert(any_needs_full(es.take(k as int)));
                        }
                    }
                }
            }
            k = k + 1;
        }
        proof {
            assert(es.take(observed@.len() as int) =~= es);
        }
        if full {
            self.update_authorized_keys();
            proof {
                assert(self.model() =~= sync_model(m0, es));
            }
        } else {
            proof {
                assert(es.take(0) =~= Seq::<EffectModel>::empty());
            }
            let mut t: usize = 0;
            while t < observed.len()
                invariant
                    es == observed@.map_values(|e: Effect| e.model()),
                    t <= observed@.len(),
                    m1.wf(),
                    self.model() == refresh_targets_model(m1, m1.registry, es.take(t as int)),
                    self.model().registry == m1.registry,
                    self.model().graph == m1.graph,
                    self.model().cfg == m1.cfg,
                decreases observed@.len() - t,
            {
                proof {
                    assert(es.take(t + 1int).drop_last() =~= es.take(t as int));
                    assert(es.take(t + 1int).last() == es[t as int]);
                }
                match effect_label_of(&observed[t]) {
                    Some(label) => {
                        match self.registry.host_of_label(label) {
                            Some(host) => {
                                self.refresh_one(&host, label);
                            },
                            None => {},
                        }
                    },
                    None => {},
                }
                proof {
                    assert(self.model() =~= refresh_targets_model(
                        m1,
                        m1.registry,
                        es.take(t + 1int),
                    ));
                }
                t = t + 1;
            }
            proof {
                assert(es.take(observed@.len() as int) =~= es);
                assert(self.model() =~= sync_model(m0, es));
            }
        }
        SyncReport { applied: observed.len(), full_refresh: full }
    }

    /// Whether the principal is currently a team member.
    pub fn is_member(&self, who: DeviceId) -> (r: bool)
        ensures
            r == self.model().graph.is_member(who),
    {
        self.graph.is_member(who)
    }

    /// Whether the principal currently holds one of the two SSH roles.
    pub fn holds_ssh_role(&self, who: DeviceId) -> (r: bool)
        ensures
            r == (self.model().graph.has_role(who, Role::Custom(self.cfg.admin_role))
                || self.model().graph.has_role(who, Role::Custom(self.cfg.user_role))),
    {
        self.graph.has_role(who, Role::Custom(self.cfg.admin_role)) || self.graph.has_role(
            who,
            Role::Custom(self.cfg.user_role),
        )
    }

    /// Whether the principal currently holds a derived access grant for
    /// the host: it is a member, the host is bound, and it holds an
    /// open grant on the host's label.
    pub fn has_host_access(&self, who: DeviceId, hostname: &str) -> (r: bool)
        ensures
            r == match registry::bound_label(self.model().registry, hostname.spec_bytes()) {
                Some(label) => self.model().graph.is_member(who) && graph::has_open_grant(
                    self.model().graph.grants,
                    who,
                    label,
                ),
                None => false,
            },
    {
        let bytes = str_to_bytes(hostname);
        match self.registry.lookup(&bytes) {
            Some(label) => self.graph.is_member(who) && self.graph.has_open_grant_on(who, label),
            None => false,
        }
    }
}

/// The UTF-8 bytes of a string, as a fresh vector.
pub fn str_to_bytes(s: &str) -> (v: Vec<u8>)
    ensures
        v@ == s.spec_bytes(),
{
    vstd::slice::slice_to_vec(s.as_bytes())
}

/// Reads the minted identity out of the effects a member addition
/// emitted: a direct field access on the first member-addition effect,
/// not a name comparison. An effect list without one is a protocol
/// mismatch, reported as a missing identity.
pub fn extract_member_id(effects: &Vec<Effect>) -> (r: Result<DeviceId, AccessError>)
    ensures
        r == extracted_id(effects@.map_values(|e: Effect| e.model())),
{
    let ghost es = effects@.map_values(|e: Effect| e.model());
    proof {
        assert(es.skip(0) =~= es);
    }
    let mut i: usize = 0;
    while i < effects.len()
        invariant
            es == effects@.map_values(|e: Effect| e.model()),
            i <= effects@.len(),
            extracted_id(es) == extracted_id(es.skip(i as int)),
        decreases effects@.len() - i,
    {
        proof {
            assert(es.skip(i as int).drop_first() =~= es.skip(i + 1int));
            assert(es.skip(i as int)[0] == es[i as int]);
        }
        match &effects[i] {
            Effect::MemberAdded { who, .. } => {
                proof {
                    assert(es[i as int] is MemberAdded);
                }
                return Ok(*who);
            },
            _ => {},
        }
        i = i + 1;
    }
    proof {
        assert(es.skip(es.len() as int) =~= Seq::<EffectModel>::empty());
    }
    Err(AccessError::MissingIdentity)
}

/// Whether an effect's host scope cannot be derived from a label.
fn effect_requires_full(e: &Effect) -> (r: bool)
    ensures
        r == effect_needs_full(e.model()),
{
    match e {
        Effect::MemberAdded { .. } => true,
        Effect::MemberRemoved { .. } => true,
        Effect::RoleAssigned { .. } => true,
        Effect::RoleRevoked { .. } => true,
        Effect::LabelDefined { .. } => false,
        Effect::LabelAssigned { .. } => false,
        Effect::LabelRevoked { .. } => false,
    }
}

/// The label an effect's host scope derives from, if any.
fn effect_label_of(e: &Effect) -> (r: Option<u32>)
    ensures
        r == effect_label(e.model()),
{
    match e {
        Effect::LabelAssigned { label, .. } => Some(*label),
        Effect::LabelRevoked { label, .. } => Some(*label),
        _ => None,
    }
}

} // verus!
