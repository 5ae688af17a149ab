//! The pipeline's general laws, stated over the model transitions the
//! public operations are specified by, and proved once for all inputs.

use vstd::prelude::*;
use crate::graph;
use crate::graph::{ActionModel, EffectModel};
use crate::ids::{AccessError, ChanOp, DeviceId, Role};
use crate::labels;
use crate::manager;
use crate::manager::ManagerModel;
use crate::materialize;
use crate::registry;
use crate::registry::BindingModel;

verus! {

/// Binding two distinct host names whose derived labels collide fails:
/// once the first is bound, binding the second is refused as a label
/// collision rather than silently remapping the label.
pub proof fn lemma_label_collision_detected(rs: Seq<BindingModel>, h1: Seq<u8>, h2: Seq<u8>)
    requires
        registry::registry_wf(rs),
        h1 != h2,
        labels::derived_label(h1) == labels::derived_label(h2),
        registry::bind_model(rs, h1).1 is Ok,
    ensures
        registry::bind_model(registry::bind_model(rs, h1).0, h2).1 == Err::<u32, AccessError>(
            AccessError::LabelCollision,
        ),
{
    let label = labels::derived_label(h1);
    let rs1 = registry::bind_model(rs, h1).0;
    if registry::host_bound(rs, h1) {
        let i = choose|i: int| 0 <= i < rs.len() && (#[trigger] rs[i]).host == h1;
        assert(rs[i].label == label);
        assert(rs1 == rs);
        assert(registry::label_bound(rs1, label));
        assert(!registry::host_bound(rs1, h2)) by {
            if registry::host_bound(rs1, h2) {
                let j = choose|j: int| 0 <= j < rs.len() && (#[trigger] rs[j]).host == h2;
                assert(rs[j].label == labels::derived_label(h2));
                assert(i != j);
                assert(rs[i].label != rs[j].label);
            }
        }
    } else {
        assert(!registry::label_bound(rs, label));
        assert(rs1 == rs.push(BindingModel { host: h1, label }));
        assert(rs1[rs.len() as int].label == label);
        assert(registry::label_bound(rs1, label));
        assert(!registry::host_bound(rs1, h2)) by {
            if registry::host_bound(rs1, h2) {
                let j = choose|j: int| 0 <= j < rs1.len() && (#[trigger] rs1[j]).host == h2;
                if j < rs.len() {
                    assert(rs[j].host == h2);
                    assert(rs[j].label == labels::derived_label(h2));
                    assert(registry::label_bound(rs, label));
                } else {
                    assert(rs1[j].host == h1);
                }
            }
        }
    }
}

/// Granting host access is idempotent: a second grant of the same
/// access succeeds, leaves the whole state — key-file contents and
/// outbox included — exactly as the first left it, and so deploys
/// nothing further.
pub proof fn lemma_grant_idempotent(m: ManagerModel, who: DeviceId, host: Seq<u8>)
    requires
        m.wf(),
        manager::grant_model(m, who, host).1 is Ok,
    ensures
        manager::grant_model(manager::grant_model(m, who, host).0, who, host).0
            == manager::grant_model(m, who, host).0,
        manager::grant_model(manager::grant_model(m, who, host).0, who, host).1 == Ok::<
            (),
            AccessError,
        >(()),
{
    let label = labels::derived_label(host);
    let g = m.graph;
    let bound = registry::bind_model(m.registry, host);
    let rs1 = bound.0;
    let e_def = EffectModel::LabelDefined { label };
    let open = graph::LabelGrant { who, label, op: ChanOp::Open };
    let e_asn = EffectModel::LabelAssigned { who, label, op: ChanOp::Open };
    let g1 = graph::perform_model(g, ActionModel::DefineLabel { label });
    if g.label_defined(label) {
        assert(graph::action_effects(g, ActionModel::DefineLabel { label })
            =~= Seq::<EffectModel>::empty());
        assert(g1 == g);
    } else {
        graph::lemma_apply_effects_one(g, e_def);
        assert(g1 == graph::apply_effect_model(g, e_def));
        assert(g1.defined == g.defined.push(label));
        assert(g1.defined[g.defined.len() as int] == label);
    }
    assert(g1.label_defined(label));
    assert(g1.members == g.members && g1.roles == g.roles && g1.grants == g.grants);
    let g2 = graph::perform_model(g1, ActionModel::AssignLabel { who, label, op: ChanOp::Open });
    if g1.grants.contains(open) {
        assert(graph::action_effects(g1, ActionModel::AssignLabel { who, label, op: ChanOp::Open })
            =~= Seq::<EffectModel>::empty());
        assert(g2 == g1);
    } else {
        graph::lemma_apply_effects_one(g1, e_asn);
        assert(g2 == graph::apply_effect_model(g1, e_asn));
        assert(g2.grants == graph::without_grant(g1.grants, who, label).push(open));
        assert(g2.grants[graph::without_grant(g1.grants, who, label).len() as int] == open);
    }
    assert(g2.grants.contains(open));
    assert(g2.members == g.members && g2.roles == g.roles && g2.defined == g1.defined);
    let m2 = ManagerModel { graph: g2, registry: rs1, ..m };
    let m1 = manager::refresh_host_model(m2, host, label);
    assert(m1 == manager::grant_model(m, who, host).0);
    let content = materialize::host_content(g2, label, m.cfg.admin_role);
    let v = materialize::content_version(content);
    assert(manager::deployed_version(m1.deployed, host) == Some(v)) by {
        if manager::deployed_version(m2.deployed, host) == Some(v) {
            assert(m1 == m2);
        } else {
            assert(m1.deployed == manager::set_deployed(m2.deployed, host, v));
            manager::lemma_deployed_version_set(m2.deployed, host, v);
        }
    }
    assert(m1.graph == g2 && m1.registry == rs1 && m1.cfg == m.cfg);
    // The second call now retraces every step as a no-op.
    assert(m1.graph.is_member(who)) by {
        assert(g.is_member(who));
    }
    assert(m1.graph.has_role(who, Role::Custom(m1.cfg.admin_role)) || m1.graph.has_role(
        who,
        Role::Custom(m1.cfg.user_role),
    ));
    assert(registry::host_bound(rs1, host)) by {
        if registry::host_bound(m.registry, host) {
            assert(rs1 == m.registry);
        } else {
            assert(rs1 == m.registry.push(BindingModel { host, label }));
            assert(rs1[m.registry.len() as int].host == host);
        }
    }
    assert(registry::bind_model(rs1, host) == (rs1, Ok::<u32, AccessError>(label)));
    let g1b = graph::perform_model(g2, ActionModel::DefineLabel { label });
    assert(graph::action_effects(g2, ActionModel::DefineLabel { label })
        =~= Seq::<EffectModel>::empty());
    assert(g1b == g2);
    let g2b = graph::perform_model(g1b, ActionModel::AssignLabel { who, label, op: ChanOp::Open });
    assert(graph::action_effects(g2, ActionModel::AssignLabel { who, label, op: ChanOp::Open })
        =~= Seq::<EffectModel>::empty());
    assert(g2b == g2);
    let m2b = ManagerModel { graph: g2b, registry: rs1, ..m1 };
    assert(m2b =~= m1);
    assert(manager::refresh_host_model(m1, host, label) == m1);
    assert(manager::grant_model(m1, who, host).0 =~= m1);
}

/// Revocation symmetry: granting a principal access to a host it did
/// not already hold open access to, then revoking it, restores the
/// host's authorized identity set exactly to its pre-grant state.
pub proof fn lemma_revoke_restores_authorized(m: ManagerModel, who: DeviceId, host: Seq<u8>)
    requires
        m.wf(),
        manager::grant_model(m, who, host).1 is Ok,
        !graph::has_open_grant(m.graph.grants, who, labels::derived_label(host)),
    ensures
        materialize::authorized_ids(
            manager::revoke_model(manager::grant_model(m, who, host).0, who, host).0.graph,
            labels::derived_label(host),
        ) == materialize::authorized_ids(m.graph, labels::derived_label(host)),
{
    let label = labels::derived_label(host);
    let g = m.graph;
    let bound = registry::bind_model(m.registry, host);
    let rs1 = bound.0;
    let open = graph::LabelGrant { who, label, op: ChanOp::Open };
    let e_def = EffectModel::LabelDefined { label };
    let e_asn = EffectModel::LabelAssigned { who, label, op: ChanOp::Open };
    let e_rvk = EffectModel::LabelRevoked { who, label };
    let g1 = graph::perform_model(g, ActionModel::DefineLabel { label });
    if g.label_defined(label) {
        assert(graph::action_effects(g, ActionModel::DefineLabel { label })
            =~= Seq::<EffectModel>::empty());
        assert(g1 == g);
    } else {
        graph::lemma_apply_effects_one(g, e_def);
    }
    assert(g1.members == g.members && g1.grants == g.grants);
    let g2 = graph::perform_model(g1, ActionModel::AssignLabel { who, label, op: ChanOp::Open });
    assert(!g1.grants.contains(open));
    graph::lemma_apply_effects_one(g1, e_asn);
    let removed = graph::without_grant(g.grants, who, label);
    assert(g2.grants == removed.push(open));
    assert(g2.members == g.members);
    let m1 = manager::refresh_host_model(
        ManagerModel { graph: g2, registry: rs1, ..m },
        host,
        label,
    );
    assert(m1.graph == g2 && m1.registry == rs1);
    // The revocation sees the binding the grant ensured.
    registry::lemma_bind_wf(m.registry, host);
    assert(registry::registry_wf(rs1));
    assert(registry::host_bound(rs1, host)) by {
        if registry::host_bound(m.registry, host) {
            assert(rs1 == m.registry);
        } else {
            assert(rs1 == m.registry.push(BindingModel { host, label }));
            assert(rs1[m.registry.len() as int].host == host);
        }
    }
    registry::lemma_bound_label_some(rs1, host);
    assert(registry::bound_label(rs1, host) == Some(label));
    let g3 = graph::perform_model(g2, ActionModel::RevokeLabel { who, label });
    assert(graph::has_any_grant(g2.grants, who, label)) by {
        assert(g2.grants[removed.len() as int] == open);
    }
    graph::lemma_apply_effects_one(g2, e_rvk);
    assert(g3.grants == graph::without_grant(g2.grants, who, label));
    assert(g3.members == g.members);
    // Removing the key from the pushed grant list removes it from the
    // original list; removing it twice is removing it once; and the
    // principal held no open grant to begin with.
    graph::lemma_without_grant_elements(g.grants, who, label);
    assert((removed.push(open)).drop_last() =~= removed);
    assert(graph::without_grant(removed.push(open), who, label) == graph::without_grant(
        removed,
        who,
        label,
    ));
    graph::lemma_without_grant_noop(removed, who, label);
    assert(g3.grants == removed);
    let final_graph = manager::revoke_model(manager::grant_model(m, who, host).0, who, host).0.graph;
    assert(final_graph == g3);
    assert(materialize::authorized_ids(g3, label) =~= materialize::authorized_ids(g, label)) by {
        assert forall|w: DeviceId|
            materialize::authorized_ids(g3, label).contains(w)
                == materialize::authorized_ids(g, label).contains(w) by {
            assert(g3.is_member(w) == g.is_member(w));
            if w == who {
                assert(!graph::has_open_grant(g.grants, who, label));
                assert(!graph::has_open_grant(g3.grants, who, label)) by {
                    if g3.grants.contains(open) {
                        let i = choose|i: int| 0 <= i < removed.len() && removed[i] == open;
                        assert(!(removed[i].who == who && removed[i].label == label));
                    }
                }
            } else {
                let x = graph::LabelGrant { who: w, label, op: ChanOp::Open };
                assert(!(x.who == who && x.label == label));
                assert(graph::has_open_grant(g3.grants, w, label) == graph::has_open_grant(
                    g.grants,
                    w,
                    label,
                ));
            }
        }
    }
}

/// Refreshing a host is idempotent: once a refresh has recorded a
/// content version, refreshing again under the same observed state
/// emits no further artifact — redistribution happens only when the
/// content actually changed.
pub proof fn lemma_refresh_host_idempotent(m: ManagerModel, host: Seq<u8>, label: u32)
    ensures
        manager::refresh_host_model(manager::refresh_host_model(m, host, label), host, label)
            == manager::refresh_host_model(m, host, label),
{
    let content = materialize::host_content(m.graph, label, m.cfg.admin_role);
    let v = materialize::content_version(content);
    let m1 = manager::refresh_host_model(m, host, label);
    if manager::deployed_version(m.deployed, host) == Some(v) {
        assert(m1 == m);
    } else {
        assert(m1.deployed == manager::set_deployed(m.deployed, host, v));
        manager::lemma_deployed_version_set(m.deployed, host, v);
        assert(m1.graph == m.graph && m1.cfg == m.cfg);
        assert(manager::refresh_host_model(m1, host, label) == m1);
    }
}

/// Sync idempotence: a reconciliation tick that observes no new
/// effects — as when nothing mutated the graph since the last tick —
/// changes nothing and deploys nothing: the whole state, the pending
/// outbox included, stays as it was.
pub proof fn lemma_sync_without_effects_is_idle(m: ManagerModel)
    ensures
        manager::sync_model(m, Seq::<EffectModel>::empty()) == m,
        manager::sync_model(m, Seq::<EffectModel>::empty()).pending == m.pending,
{
}

/// Initialization is idempotent: defining the well-known transport
/// label a second time finds it already defined and changes nothing.
pub proof fn lemma_initialize_idempotent(m: ManagerModel)
    ensures
        manager::initialize_model(manager::initialize_model(m)) == manager::initialize_model(m),
{
    let label = m.cfg.transport_label;
    let g = m.graph;
    let e_def = EffectModel::LabelDefined { label };
    let g1 = graph::perform_model(g, ActionModel::DefineLabel { label });
    if g.label_defined(label) {
        assert(graph::action_effects(g, ActionModel::DefineLabel { label })
            =~= Seq::<EffectModel>::empty());
        assert(g1 == g);
    } else {
        graph::lemma_apply_effects_one(g, e_def);
        assert(g1.defined == g.defined.push(label));
        assert(g1.defined[g.defined.len() as int] == label);
    }
    assert(g1.label_defined(label));
    let m1 = manager::initialize_model(m);
    assert(m1.graph == g1 && m1.cfg == m.cfg);
    assert(graph::action_effects(g1, ActionModel::DefineLabel { label })
        =~= Seq::<EffectModel>::empty());
    assert(graph::perform_model(g1, ActionModel::DefineLabel { label }) == g1);
    assert(manager::initialize_model(m1) =~= m1);
}

} // verus!
