//! The locally observed model of the replicated authorization graph.
//!
//! Remote mutations become visible only as effects pulled by the sync
//! loop; local actions emit the same effects synchronously. The state
//! here is the fold of all observed effects: membership, role
//! possession, label grants, and defined labels. Authorization is always
//! read from this latest observed state, never from effect arrival
//! order.

use vstd::prelude::*;
use crate::ids::{ChanOp, DeviceId, KeyBundle, KeysModel, Role};

verus! {

/// One membership record: a principal and its immutable key bundle.
#[derive(Debug)]
pub struct MemberRec {
    pub who: DeviceId,
    pub keys: KeyBundle,
}

/// Mathematical image of a [`MemberRec`].
#[verifier::ext_equal]
pub struct MemberModel {
    pub who: DeviceId,
    pub keys: KeysModel,
}

impl MemberRec {
    pub open spec fn model(&self) -> MemberModel {
        MemberModel { who: self.who, keys: self.keys.model() }
    }
}

/// One role-possession record.
#[derive(Clone, Copy, PartialEq, Eq, Structural, Debug)]
pub struct RoleGrant {
    pub who: DeviceId,
    pub role: Role,
}

/// One channel-label grant record.
#[derive(Clone, Copy, PartialEq, Eq, Structural, Debug)]
pub struct LabelGrant {
    pub who: DeviceId,
    pub label: u32,
    pub op: ChanOp,
}

/// An immutable record emitted by the graph on each mutation. Effects
/// are the only channel through which remote mutations become visible
/// locally; each kind carries its payload as typed fields.
#[derive(Debug)]
pub enum Effect {
    MemberAdded { who: DeviceId, keys: KeyBundle },
    MemberRemoved { who: DeviceId },
    RoleAssigned { who: DeviceId, role: Role },
    RoleRevoked { who: DeviceId, role: Role },
    LabelDefined { label: u32 },
    LabelAssigned { who: DeviceId, label: u32, op: ChanOp },
    LabelRevoked { who: DeviceId, label: u32 },
}

/// Mathematical image of an [`Effect`].
#[verifier::ext_equal]
pub enum EffectModel {
    MemberAdded { who: DeviceId, keys: KeysModel },
    MemberRemoved { who: DeviceId },
    RoleAssigned { who: DeviceId, role: Role },
    RoleRevoked { who: DeviceId, role: Role },
    LabelDefined { label: u32 },
    LabelAssigned { who: DeviceId, label: u32, op: ChanOp },
    LabelRevoked { who: DeviceId, label: u32 },
}

impl Effect {
    pub open spec fn model(&self) -> EffectModel {
        match *self {
            Effect::MemberAdded { who, ref keys } => EffectModel::MemberAdded {
                who,
                keys: keys.model(),
            },
            Effect::MemberRemoved { who } => EffectModel::MemberRemoved { who },
            Effect::RoleAssigned { who, role } => EffectModel::RoleAssigned { who, role },
            Effect::RoleRevoked { who, role } => EffectModel::RoleRevoked { who, role },
            Effect::LabelDefined { label } => EffectModel::LabelDefined { label },
            Effect::LabelAssigned { who, label, op } => EffectModel::LabelAssigned {
                who,
                label,
                op,
            },
            Effect::LabelRevoked { who, label } => EffectModel::LabelRevoked { who, label },
        }
    }
}

/// A mutating call the pipeline can issue against the graph.
#[derive(Debug)]
pub enum GraphAction {
    DefineLabel { label: u32 },
    AddMember { keys: KeyBundle },
    RemoveMember { who: DeviceId },
    AssignRole { who: DeviceId, role: Role },
    RevokeRole { who: DeviceId, role: Role },
    AssignLabel { who: DeviceId, label: u32, op: ChanOp },
    RevokeLabel { who: DeviceId, label: u32 },
}

/// Mathematical image of a [`GraphAction`].
#[verifier::ext_equal]
pub enum ActionModel {
    DefineLabel { label: u32 },
    AddMember { keys: KeysModel },
    RemoveMember { who: DeviceId },
    AssignRole { who: DeviceId, role: Role },
    RevokeRole { who: DeviceId, role: Role },
    AssignLabel { who: DeviceId, label: u32, op: ChanOp },
    RevokeLabel { who: DeviceId, label: u32 },
}

impl GraphAction {
    pub open spec fn model(&self) -> ActionModel {
        match *self {
            GraphAction::DefineLabel { label } => ActionModel::DefineLabel { label },
            GraphAction::AddMember { ref keys } => ActionModel::AddMember { keys: keys.model() },
            GraphAction::RemoveMember { who } => ActionModel::RemoveMember { who },
            GraphAction::AssignRole { who, role } => ActionModel::AssignRole { who, role },
            GraphAction::RevokeRole { who, role } => ActionModel::RevokeRole { who, role },
            GraphAction::AssignLabel { who, label, op } => ActionModel::AssignLabel {
                who,
                label,
                op,
            },
            GraphAction::RevokeLabel { who, label } => ActionModel::RevokeLabel { who, label },
        }
    }
}

/// Mathematical image of a [`GraphState`].
#[verifier::ext_equal]
pub struct GraphModel {
    /// Membership records, sorted strictly by identifier.
    pub members: Seq<MemberModel>,
    /// Role possessions; a pair may occur at most logically once.
    pub roles: Seq<RoleGrant>,
    /// Label grants; a (principal, label) key selects the granted
    /// operation.
    pub grants: Seq<LabelGrant>,
    /// Labels the graph has defined.
    pub defined: Seq<u32>,
    /// The next identifier this replica would mint.
    pub next_seed: u64,
}

/// Membership records are sorted strictly ascending by identifier, so
/// every identifier occurs at most once and renderings are canonical.
pub open spec fn members_sorted(members: Seq<MemberModel>) -> bool {
    forall|i: int, j: int|
        0 <= i < j < members.len() ==> (#[trigger] members[i]).who.id < (
        #[trigger] members[j]).who.id
}

/// Every member identifier lies below the mint seed, so a freshly
/// minted identifier never names an existing member. Once the seed is
/// exhausted no claim is made; minting then refuses.
pub open spec fn seed_fresh(g: GraphModel) -> bool {
    g.next_seed == u64::MAX || forall|i: int|
        0 <= i < g.members.len() ==> (#[trigger] g.members[i]).who.id < g.next_seed
}

impl GraphModel {
    pub open spec fn wf(&self) -> bool {
        members_sorted(self.members) && seed_fresh(*self)
    }

    /// Whether the principal is currently a team member.
    pub open spec fn is_member(&self, who: DeviceId) -> bool {
        exists|i: int| 0 <= i < self.members.len() && (#[trigger] self.members[i]).who == who
    }

    /// Whether the principal currently holds the role.
    pub open spec fn has_role(&self, who: DeviceId, role: Role) -> bool {
        self.roles.contains(RoleGrant { who, role })
    }

    /// Whether the label has been defined.
    pub open spec fn label_defined(&self, label: u32) -> bool {
        self.defined.contains(label)
    }
}

/// Whether the principal holds an open grant on the label: the unit of
/// access control.
pub open spec fn has_open_grant(grants: Seq<LabelGrant>, who: DeviceId, label: u32) -> bool {
    grants.contains(LabelGrant { who, label, op: ChanOp::Open })
}

/// Whether the principal holds any grant on the label, whatever the
/// operation.
pub open spec fn has_any_grant(grants: Seq<LabelGrant>, who: DeviceId, label: u32) -> bool {
    exists|i: int|
        0 <= i < grants.len() && (#[trigger] grants[i]).who == who && grants[i].label == label
}

/// The number of membership records with identifier below `who`: the
/// position at which a record for `who` belongs.
pub open spec fn count_lt(members: Seq<MemberModel>, who: DeviceId) -> int
    decreases members.len(),
{
    if members.len() == 0 {
        0
    } else {
        count_lt(members.drop_last(), who) + if members.last().who.id < who.id {
            1int
        } else {
            0int
        }
    }
}

/// The membership records with the principal's record left out.
pub open spec fn without_member(s: Seq<MemberModel>, who: DeviceId) -> Seq<MemberModel>
    decreases s.len(),
{
    if s.len() == 0 {
        s
    } else {
        let rest = without_member(s.drop_last(), who);
        if s.last().who == who {
            rest
        } else {
            rest.push(s.last())
        }
    }
}

/// The role records with the exact possession record left out.
pub open spec fn without_role(s: Seq<RoleGrant>, who: DeviceId, role: Role) -> Seq<RoleGrant>
    decreases s.len(),
{
    if s.len() == 0 {
        s
    } else {
        let rest = without_role(s.drop_last(), who, role);
        if s.last() == (RoleGrant { who, role }) {
            rest
        } else {
            rest.push(s.last())
        }
    }
}

/// The label grants with every grant keyed (who, label) left out.
pub open spec fn without_grant(s: Seq<LabelGrant>, who: DeviceId, label: u32) -> Seq<LabelGrant>
    decreases s.len(),
{
    if s.len() == 0 {
        s
    } else {
        let rest = without_grant(s.drop_last(), who, label);
        if s.last().who == who && s.last().label == label {
            rest
        } else {
            rest.push(s.last())
        }
    }
}

/// The mint seed after observing an identifier: it always stays above
/// every observed member identifier, saturating at the ceiling.
pub open spec fn bump_seed(seed: u64, who: DeviceId) -> u64 {
    if who.id >= seed {
        if who.id == u64::MAX {
            u64::MAX
        } else {
            (who.id + 1) as u64
        }
    } else {
        seed
    }
}

/// The counted position is a valid index to insert at.
pub proof fn lemma_count_lt_bounds(members: Seq<MemberModel>, who: DeviceId)
    ensures
        0 <= count_lt(members, who) <= members.len(),
    decreases members.len(),
{
    if members.len() > 0 {
        lemma_count_lt_bounds(members.drop_last(), who);
    }
}

/// Over a sorted sequence, the counted position splits the records into
/// those below and those at or above the identifier.
pub proof fn lemma_count_lt_sorted(members: Seq<MemberModel>, who: DeviceId)
    requires
        members_sorted(members),
    ensures
        forall|i: int|
            0 <= i < count_lt(members, who) ==> (#[trigger] members[i]).who.id < who.id,
        forall|i: int|
            count_lt(members, who) <= i < members.len() ==> (#[trigger] members[i]).who.id
                >= who.id,
    decreases members.len(),
{
    if members.len() > 0 {
        let prefix = members.drop_last();
        assert(members_sorted(prefix)) by {
            assert(forall|i: int, j: int|
                0 <= i < j < prefix.len() ==> (#[trigger] prefix[i]).who.id < (
                #[trigger] prefix[j]).who.id);
        }
        lemma_count_lt_sorted(prefix, who);
        lemma_count_lt_bounds(prefix, who);
        let c0 = count_lt(prefix, who);
        let c = count_lt(members, who);
        if members.last().who.id < who.id {
            if c0 < prefix.len() {
                assert(prefix[c0].who.id >= who.id);
                assert(members[c0].who.id < members[members.len() - 1].who.id);
                assert(false);
            }
            assert(c0 == prefix.len() && c == members.len());
        }
        assert forall|i: int| 0 <= i < c implies (#[trigger] members[i]).who.id < who.id by {
            if i < c0 {
                assert(prefix[i].who.id < who.id);
                assert(members[i] == prefix[i]);
            } else {
                assert(members.last().who.id < who.id && i == members.len() - 1);
            }
        }
        assert forall|i: int| c <= i < members.len() implies (#[trigger] members[i]).who.id
            >= who.id by {
            if i < members.len() - 1 {
                assert(prefix[i].who.id >= who.id);
                assert(members[i] == prefix[i]);
            } else {
                assert(members.last().who.id >= who.id);
            }
        }
    }
}

/// Inserting a fresh record at its counted position keeps the records
/// sorted.
pub proof fn lemma_insert_member_sorted(members: Seq<MemberModel>, m: MemberModel)
    requires
        members_sorted(members),
        forall|i: int| 0 <= i < members.len() ==> (#[trigger] members[i]).who != m.who,
    ensures
        members_sorted(members.insert(count_lt(members, m.who), m)),
{
    lemma_count_lt_bounds(members, m.who);
    lemma_count_lt_sorted(members, m.who);
    let p = count_lt(members, m.who);
    let out = members.insert(p, m);
    members.insert_ensures(p, m);
    assert forall|i: int, j: int| 0 <= i < j < out.len() implies (#[trigger] out[i]).who.id < (
    #[trigger] out[j]).who.id by {
        if i < p && j < p {
        } else if i < p && j == p {
            assert(out[i] == members[i]);
        } else if i == p && j > p {
            assert(out[j] == members[j - 1]);
            assert(members[j - 1].who.id >= m.who.id);
            assert(members[j - 1].who != m.who);
        } else if i < p && j > p {
            assert(out[i] == members[i]);
            assert(out[j] == members[j - 1]);
        } else if i > p && j > p {
            assert(out[i] == members[i - 1]);
            assert(out[j] == members[j - 1]);
        }
    }
}

/// Every record kept by a removal occurs in the source, and none of the
/// kept records names the removed principal.
pub proof fn lemma_without_member_elements(s: Seq<MemberModel>, who: DeviceId)
    ensures
        forall|i: int|
            0 <= i < without_member(s, who).len() ==> s.contains(
                #[trigger] without_member(s, who)[i],
            ) && without_member(s, who)[i].who != who,
    decreases s.len(),
{
    if s.len() > 0 {
        let prefix = s.drop_last();
        lemma_without_member_elements(prefix, who);
        let rest = without_member(prefix, who);
        let out = without_member(s, who);
        assert forall|i: int| 0 <= i < out.len() implies s.contains(#[trigger] out[i])
            && out[i].who != who by {
            if i < rest.len() {
                assert(out[i] == rest[i]);
                assert(prefix.contains(rest[i]));
                let j = choose|j: int| 0 <= j < prefix.len() && prefix[j] == rest[i];
                assert(s[j] == rest[i]);
                assert(s.contains(rest[i]));
            } else {
                assert(out[i] == s.last());
                assert(s[s.len() - 1] == s.last());
                assert(s.contains(s.last()));
            }
        }
    }
}

/// Removal keeps the records sorted.
pub proof fn lemma_without_member_sorted(s: Seq<MemberModel>, who: DeviceId)
    requires
        members_sorted(s),
    ensures
        members_sorted(without_member(s, who)),
    decreases s.len(),
{
    if s.len() > 0 {
        let prefix = s.drop_last();
        assert(members_sorted(prefix)) by {
            assert(forall|i: int, j: int|
                0 <= i < j < prefix.len() ==> (#[trigger] prefix[i]).who.id < (
                #[trigger] prefix[j]).who.id);
        }
        lemma_without_member_sorted(prefix, who);
        lemma_without_member_elements(prefix, who);
        let rest = without_member(prefix, who);
        let out = without_member(s, who);
        if s.last().who != who {
            assert forall|i: int, j: int| 0 <= i < j < out.len() implies (#[trigger] out[i]).who.id
                < (#[trigger] out[j]).who.id by {
                if j < rest.len() {
                    assert(out[i] == rest[i] && out[j] == rest[j]);
                } else {
                    assert(out[j] == s.last());
                    assert(out[i] == rest[i]);
                    assert(prefix.contains(rest[i]));
                    let k = choose|k: int| 0 <= k < prefix.len() && prefix[k] == rest[i];
                    assert(s[k] == rest[i]);
                    assert(s[k].who.id < s[s.len() - 1].who.id);
                }
            }
        }
    }
}

/// Raising the seed preserves its freshness over unchanged members.
pub proof fn lemma_seed_fresh_bump(g: GraphModel, who: DeviceId)
    requires
        seed_fresh(g),
    ensures
        seed_fresh(GraphModel { next_seed: bump_seed(g.next_seed, who), ..g }),
{
}

/// Inserting a freshly observed record keeps the raised seed fresh.
pub proof fn lemma_seed_fresh_insert(g: GraphModel, who: DeviceId, keys: KeysModel)
    requires
        seed_fresh(g),
    ensures
        seed_fresh(
            GraphModel {
                members: g.members.insert(
                    count_lt(g.members, who),
                    MemberModel { who, keys },
                ),
                next_seed: bump_seed(g.next_seed, who),
                ..g
            },
        ),
{
    lemma_count_lt_bounds(g.members, who);
    let p = count_lt(g.members, who);
    let m = MemberModel { who, keys };
    let out = g.members.insert(p, m);
    g.members.insert_ensures(p, m);
    let seed = bump_seed(g.next_seed, who);
    if seed != u64::MAX {
        assert forall|i: int| 0 <= i < out.len() implies (#[trigger] out[i]).who.id < seed by {
            if i < p {
                assert(out[i] == g.members[i]);
            } else if i == p {
                assert(out[i] == m);
            } else {
                assert(out[i] == g.members[i - 1]);
            }
        }
    }
}

/// Removing a record keeps the seed fresh.
pub proof fn lemma_seed_fresh_remove(g: GraphModel, who: DeviceId)
    requires
        seed_fresh(g),
    ensures
        seed_fresh(GraphModel { members: without_member(g.members, who), ..g }),
{
    lemma_without_member_elements(g.members, who);
    let out = without_member(g.members, who);
    if g.next_seed != u64::MAX {
        assert forall|i: int| 0 <= i < out.len() implies (#[trigger] out[i]).who.id
            < g.next_seed by {
            assert(g.members.contains(out[i]));
            let j = choose|j: int| 0 <= j < g.members.len() && g.members[j] == out[i];
            assert(g.members[j].who.id < g.next_seed);
        }
    }
}

/// The state after observing one effect. Observing is total and
/// idempotent: re-observing an already applied effect changes nothing.
pub open spec fn apply_effect_model(g: GraphModel, e: EffectModel) -> GraphModel {
    match e {
        EffectModel::MemberAdded { who, keys } => {
            if g.is_member(who) {
                GraphModel { next_seed: bump_seed(g.next_seed, who), ..g }
            } else {
                GraphModel {
                    members: g.members.insert(count_lt(g.members, who), MemberModel { who, keys }),
                    next_seed: bump_seed(g.next_seed, who),
                    ..g
                }
            }
        },
        EffectModel::MemberRemoved { who } => GraphModel {
            members: without_member(g.members, who),
            ..g
        },
        EffectModel::RoleAssigned { who, role } => {
            if g.roles.contains(RoleGrant { who, role }) {
                g
            } else {
                GraphModel { roles: g.roles.push(RoleGrant { who, role }), ..g }
            }
        },
        EffectModel::RoleRevoked { who, role } => GraphModel {
            roles: without_role(g.roles, who, role),
            ..g
        },
        EffectModel::LabelDefined { label } => {
            if g.defined.contains(label) {
                g
            } else {
                GraphModel { defined: g.defined.push(label), ..g }
            }
        },
        EffectModel::LabelAssigned { who, label, op } => {
            if g.grants.contains(LabelGrant { who, label, op }) {
                g
            } else {
                GraphModel {
                    grants: without_grant(g.grants, who, label).push(LabelGrant { who, label, op }),
                    ..g
                }
            }
        },
        EffectModel::LabelRevoked { who, label } => GraphModel {
            grants: without_grant(g.grants, who, label),
            ..g
        },
    }
}

/// The state after observing a list of effects, oldest first.
pub open spec fn apply_effects_model(g: GraphModel, es: Seq<EffectModel>) -> GraphModel
    decreases es.len(),
{
    if es.len() == 0 {
        g
    } else {
        apply_effect_model(apply_effects_model(g, es.drop_last()), es.last())
    }
}

/// Observing a single effect is one fold step.
pub proof fn lemma_apply_effects_one(g: GraphModel, e: EffectModel)
    ensures
        apply_effects_model(g, seq![e]) == apply_effect_model(g, e),
{
    assert(seq![e].len() == 1);
    assert(seq![e].drop_last() =~= Seq::<EffectModel>::empty());
    assert(apply_effects_model(g, Seq::<EffectModel>::empty()) == g);
    assert(seq![e].last() == e);
}

/// Grant removal leaves no grant on the removed key, and touches no
/// other key.
pub proof fn lemma_without_grant_elements(s: Seq<LabelGrant>, who: DeviceId, label: u32)
    ensures
        forall|i: int|
            0 <= i < without_grant(s, who, label).len() ==> !((#[trigger] without_grant(
                s,
                who,
                label,
            )[i]).who == who && without_grant(s, who, label)[i].label == label),
        forall|x: LabelGrant|
            !(x.who == who && x.label == label) ==> (without_grant(s, who, label).contains(x)
                <==> s.contains(x)),
    decreases s.len(),
{
    if s.len() > 0 {
        let prefix = s.drop_last();
        lemma_without_grant_elements(prefix, who, label);
        let rest = without_grant(prefix, who, label);
        let out = without_grant(s, who, label);
        assert forall|x: LabelGrant| !(x.who == who && x.label == label) implies (out.contains(x)
            <==> s.contains(x)) by {
            if s.last().who == who && s.last().label == label {
                assert(out == rest);
                if s.contains(x) {
                    let j = choose|j: int| 0 <= j < s.len() && s[j] == x;
                    assert(j < s.len() - 1);
                    assert(prefix[j] == x);
                    assert(prefix.contains(x));
                }
                if prefix.contains(x) {
                    let j = choose|j: int| 0 <= j < prefix.len() && prefix[j] == x;
                    assert(s[j] == x);
                    assert(s.contains(x));
                }
            } else {
                assert(out == rest.push(s.last()));
                if out.contains(x) {
                    let j = choose|j: int| 0 <= j < out.len() && out[j] == x;
                    if j < rest.len() {
                        assert(rest[j] == x);
                        assert(rest.contains(x));
                        assert(prefix.contains(x));
                        let k = choose|k: int| 0 <= k < prefix.len() && prefix[k] == x;
                        assert(s[k] == x);
                        assert(s.contains(x));
                    } else {
                        assert(x == s.last());
                        assert(s[s.len() - 1] == x);
                        assert(s.contains(x));
                    }
                }
                if s.contains(x) {
                    let j = choose|j: int| 0 <= j < s.len() && s[j] == x;
                    if j < s.len() - 1 {
                        assert(prefix[j] == x);
                        assert(prefix.contains(x));
                        assert(rest.contains(x));
                        let k = choose|k: int| 0 <= k < rest.len() && rest[k] == x;
                        assert(out[k] == x);
                        assert(out.contains(x));
                    } else {
                        assert(x == s.last());
                        assert(out[out.len() - 1] == x);
                        assert(out.contains(x));
                    }
                }
            }
        }
    }
}

/// Removing a key no grant carries changes nothing.
pub proof fn lemma_without_grant_noop(s: Seq<LabelGrant>, who: DeviceId, label: u32)
    requires
        forall|i: int|
            0 <= i < s.len() ==> !((#[trigger] s[i]).who == who && s[i].label == label),
    ensures
        without_grant(s, who, label) == s,
    decreases s.len(),
{
    if s.len() > 0 {
        let prefix = s.drop_last();
        assert(forall|i: int|
            0 <= i < prefix.len() ==> !((#[trigger] prefix[i]).who == who && prefix[i].label
                == label)) by {
            assert(forall|i: int| 0 <= i < prefix.len() ==> prefix[i] == s[i]);
        }
        lemma_without_grant_noop(prefix, who, label);
        assert(s[s.len() - 1] == s.last());
        assert(!(s.last().who == who && s.last().label == label));
        assert(without_grant(s, who, label) == prefix.push(s.last()));
        assert(prefix.push(s.last()) =~= s);
    }
}

/// The effects a mutating action emits against the current state.
/// Re-issuing an action whose outcome already holds emits nothing; a
/// member addition once the identifier space is exhausted emits nothing,
/// which callers observe as a missing identity.
pub open spec fn action_effects(g: GraphModel, a: ActionModel) -> Seq<EffectModel> {
    match a {
        ActionModel::DefineLabel { label } => {
            if g.label_defined(label) {
                Seq::empty()
            } else {
                seq![EffectModel::LabelDefined { label }]
            }
        },
        ActionModel::AddMember { keys } => {
            if g.next_seed == u64::MAX {
                Seq::empty()
            } else {
                seq![EffectModel::MemberAdded { who: DeviceId { id: g.next_seed }, keys }]
            }
        },
        ActionModel::RemoveMember { who } => {
            if g.is_member(who) {
                seq![EffectModel::MemberRemoved { who }]
            } else {
                Seq::empty()
            }
        },
        ActionModel::AssignRole { who, role } => {
            if g.has_role(who, role) {
                Seq::empty()
            } else {
                seq![EffectModel::RoleAssigned { who, role }]
            }
        },
        ActionModel::RevokeRole { who, role } => {
            if g.has_role(who, role) {
                seq![EffectModel::RoleRevoked { who, role }]
            } else {
                Seq::empty()
            }
        },
        ActionModel::AssignLabel { who, label, op } => {
            if g.grants.contains(LabelGrant { who, label, op }) {
                Seq::empty()
            } else {
                seq![EffectModel::LabelAssigned { who, label, op }]
            }
        },
        ActionModel::RevokeLabel { who, label } => {
            if has_any_grant(g.grants, who, label) {
                seq![EffectModel::LabelRevoked { who, label }]
            } else {
                Seq::empty()
            }
        },
    }
}

/// The state after performing one action: its effects, observed.
pub open spec fn perform_model(g: GraphModel, a: ActionModel) -> GraphModel {
    apply_effects_model(g, action_effects(g, a))
}

/// The state after performing a list of actions in order.
pub open spec fn perform_seq_model(g: GraphModel, actions: Seq<ActionModel>) -> GraphModel
    decreases actions.len(),
{
    if actions.len() == 0 {
        g
    } else {
        perform_model(perform_seq_model(g, actions.drop_last()), actions.last())
    }
}

/// The state before any effect has been observed.
pub open spec fn empty_graph_model() -> GraphModel {
    GraphModel {
        members: Seq::<MemberModel>::empty(),
        roles: Seq::<RoleGrant>::empty(),
        grants: Seq::<LabelGrant>::empty(),
        defined: Seq::<u32>::empty(),
        next_seed: 0u64,
    }
}

/// The locally observed graph state.
#[derive(Debug)]
pub struct GraphState {
    pub members: Vec<MemberRec>,
    pub roles: Vec<RoleGrant>,
    pub grants: Vec<LabelGrant>,
    pub defined: Vec<u32>,
    pub next_seed: u64,
}

impl GraphState {
    pub open spec fn model(&self) -> GraphModel {
        GraphModel {
            members: self.members@.map_values(|m: MemberRec| m.model()),
            roles: self.roles@,
            grants: self.grants@,
            defined: self.defined@,
            next_seed: self.next_seed,
        }
    }

    pub open spec fn wf(&self) -> bool {
        self.model().wf()
    }

    /// An empty graph state, as seen before any effect is observed.
    pub fn empty() -> (g: GraphState)
        ensures
            g.wf(),
            g.model() == empty_graph_model(),
    {
        let g = GraphState {
            members: Vec::new(),
            roles: Vec::new(),
            grants: Vec::new(),
            defined: Vec::new(),
            next_seed: 0,
        };
        proof {
            assert(g.model().members =~= Seq::<MemberModel>::empty());
        }
        g
    }

    /// Whether the principal is currently a team member.
    pub fn is_member(&self, who: DeviceId) -> (r: bool)
        ensures
            r == self.model().is_member(who),
    {
        let mut i: usize = 0;
        while i < self.members.len()
            invariant
                i <= self.members@.len(),
                forall|j: int| 0 <= j < i ==> (#[trigger] self.model().members[j]).who != who,
            decreases self.members@.len() - i,
        {
            if self.members[i].who.id == who.id {
                proof {
                    assert(self.model().members[i as int].who == who);
                }
                return true;
            }
            i = i + 1;
        }
        false
    }

    /// Whether the principal currently holds the role.
    pub fn has_role(&self, who: DeviceId, role: Role) -> (r: bool)
        ensures
            r == self.model().has_role(who, role),
    {
        let target = RoleGrant { who, role };
        let mut i: usize = 0;
        while i < self.roles.len()
            invariant
                target == (RoleGrant { who, role }),
                i <= self.roles@.len(),
                forall|j: int| 0 <= j < i ==> self.roles@[j] != target,
            decreases self.roles@.len() - i,
        {
            if self.roles[i] == target {
                proof {
                    assert(self.model().roles[i as int] == target);
                    assert(self.model().roles.contains(target));
                }
                return true;
            }
            i = i + 1;
        }
        false
    }

    /// Whether the exact grant record is present.
    pub fn has_exact_grant(&self, who: DeviceId, label: u32, op: ChanOp) -> (r: bool)
        ensures
            r == self.model().grants.contains(LabelGrant { who, label, op }),
    {
        let target = LabelGrant { who, label, op };
        let mut i: usize = 0;
        while i < self.grants.len()
            invariant
                target == (LabelGrant { who, label, op }),
                i <= self.grants@.len(),
                forall|j: int| 0 <= j < i ==> self.grants@[j] != target,
            decreases self.grants@.len() - i,
        {
            if self.grants[i] == target {
                proof {
                    assert(self.model().grants[i as int] == target);
                    assert(self.model().grants.contains(target));
                }
                return true;
            }
            i = i + 1;
        }
        false
    }

    /// Whether the principal holds any grant on the label.
    pub fn has_grant_on(&self, who: DeviceId, label: u32) -> (r: bool)
        ensures
            r == has_any_grant(self.model().grants, who, label),
    {
        let mut i: usize = 0;
        while i < self.grants.len()
            invariant
                i <= self.grants@.len(),
                forall|j: int|
                    0 <= j < i ==> !((#[trigger] self.grants@[j]).who == who
                        && self.grants@[j].label == label),
            decreases self.grants@.len() - i,
        {
            if self.grants[i].who.id == who.id && self.grants[i].label == label {
                proof {
                    assert((self.grants@[i as int]).who == who);
                }
                return true;
            }
            i = i + 1;
        }
        false
    }

    /// Whether the principal holds an open grant on the label.
    pub fn has_open_grant_on(&self, who: DeviceId, label: u32) -> (r: bool)
        ensures
            r == has_open_grant(self.model().grants, who, label),
    {
        self.has_exact_grant(who, label, ChanOp::Open)
    }

    /// The number of membership records with identifier below `who`.
    fn count_members_lt(&self, who: DeviceId) -> (c: usize)
        ensures
            c as int == count_lt(self.model().members, who),
            c <= self.members@.len(),
    {
        let mut c: usize = 0;
        let mut i: usize = 0;
        while i < self.members.len()
            invariant
                i <= self.members@.len(),
                c <= i,
                c as int == count_lt(self.model().members.take(i as int), who),
            decreases self.members@.len() - i,
        {
            proof {
                assert(self.model().members.take(i + 1int).drop_last() =~= self.model().members.take(
                    i as int,
                ));
                assert(self.model().members.take(i + 1int).last() == self.model().members[i as int]);
            }
            if self.members[i].who.id < who.id {
                c = c + 1;
            }
            i = i + 1;
        }
        proof {
            assert(self.model().members.take(self.members@.len() as int) =~= self.model().members);
        }
        c
    }

    /// Raises the mint seed above an observed identifier.
    fn bump_seed_exec(&mut self, who: DeviceId)
        ensures
            final(self).next_seed == bump_seed(old(self).next_seed, who),
            final(self).members == old(self).members,
            final(self).roles == old(self).roles,
            final(self).grants == old(self).grants,
            final(self).defined == old(self).defined,
    {
        if who.id >= self.next_seed {
            if who.id == u64::MAX {
                self.next_seed = u64::MAX;
            } else {
                self.next_seed = who.id + 1;
            }
        }
    }

    /// Removes the principal's membership record, if present.
    fn remove_member_entries(&mut self, who: DeviceId)
        ensures
            final(self).members@.map_values(|m: MemberRec| m.model()) == without_member(
                old(self).members@.map_values(|m: MemberRec| m.model()),
                who,
            ),
            final(self).roles == old(self).roles,
            final(self).grants == old(self).grants,
            final(self).defined == old(self).defined,
            final(self).next_seed == old(self).next_seed,
    {
        let ghost all = self.members@.map_values(|m: MemberRec| m.model());
        let mut out: Vec<MemberRec> = Vec::new();
        let mut i: usize = 0;
        while i < self.members.len()
            invariant
                i <= self.members@.len(),
                all == self.members@.map_values(|m: MemberRec| m.model()),
                out@.map_values(|m: MemberRec| m.model()) == without_member(
                    all.take(i as int),
                    who,
                ),
            decreases self.members@.len() - i,
        {
            proof {
                assert(all.take(i + 1int).drop_last() =~= all.take(i as int));
                assert(all.take(i + 1int).last() == all[i as int]);
            }
            if self.members[i].who.id != who.id {
                let rec = MemberRec {
                    who: self.members[i].who,
                    keys: self.members[i].keys.duplicate(),
                };
                proof {
                    assert(rec.model() == all[i as int]);
                    assert(all[i as int].who != who);
                }
                let ghost before = out@;
                out.push(rec);
                proof {
                    assert(out@.map_values(|m: MemberRec| m.model()) =~= before.map_values(
                        |m: MemberRec| m.model(),
                    ).push(rec.model()));
                }
            } else {
                proof {
                    assert(all[i as int].who == who);
                }
            }
            i = i + 1;
        }
        proof {
            assert(all.take(self.members@.len() as int) =~= all);
        }
        self.members = out;
    }

    /// Removes the exact role-possession record, wherever it occurs.
    fn remove_role_entries(&mut self, who: DeviceId, role: Role)
        ensures
            final(self).roles@ == without_role(old(self).roles@, who, role),
            final(self).members == old(self).members,
            final(self).grants == old(self).grants,
            final(self).defined == old(self).defined,
            final(self).next_seed == old(self).next_seed,
    {
        let ghost all = self.roles@;
        let mut out: Vec<RoleGrant> = Vec::new();
        let mut i: usize = 0;
        while i < self.roles.len()
            invariant
                i <= self.roles@.len(),
                all == self.roles@,
                out@ == without_role(all.take(i as int), who, role),
            decreases self.roles@.len() - i,
        {
            proof {
                assert(all.take(i + 1int).drop_last() =~= all.take(i as int));
                assert(all.take(i + 1int).last() == all[i as int]);
            }
            if !(self.roles[i].who.id == who.id && self.roles[i].role == role) {
                out.push(self.roles[i]);
            }
            i = i + 1;
        }
        proof {
            assert(all.take(self.roles@.len() as int) =~= all);
        }
        self.roles = out;
    }

    /// Removes every grant keyed (who, label), whatever its operation.
    fn remove_grant_entries(&mut self, who: DeviceId, label: u32)
        ensures
            final(self).grants@ == without_grant(old(self).grants@, who, label),
            final(self).members == old(self).members,
            final(self).roles == old(self).roles,
            final(self).defined == old(self).defined,
            final(self).next_seed == old(self).next_seed,
    {
        let ghost all = self.grants@;
        let mut out: Vec<LabelGrant> = Vec::new();
        let mut i: usize = 0;
        while i < self.grants.len()
            invariant
                i <= self.grants@.len(),
                all == self.grants@,
                out@ == without_grant(all.take(i as int), who, label),
            decreases self.grants@.len() - i,
        {
            proof {
                assert(all.take(i + 1int).drop_last() =~= all.take(i as int));
                assert(all.take(i + 1int).last() == all[i as int]);
            }
            if !(self.grants[i].who.id == who.id && self.grants[i].label == label) {
                out.push(self.grants[i]);
            }
            i = i + 1;
        }
        proof {
            assert(all.take(self.grants@.len() as int) =~= all);
        }
        self.grants = out;
    }

    /// Observes one effect, folding it into the local state.
    pub fn apply_effect(&mut self, e: &Effect)
        requires
            old(self).wf(),
        ensures
            final(self).wf(),
            final(self).model() == apply_effect_model(old(self).model(), e.model()),
    {
        let ghost pre = self.model();
        match e {
            Effect::MemberAdded { who, keys } => {
                let who = *who;
                if self.is_member(who) {
                    self.bump_seed_exec(who);
                    proof {
                        lemma_seed_fresh_bump(pre, who);
                        assert(self.model() =~= apply_effect_model(pre, e.model()));
                    }
                } else {
                    let pos = self.count_members_lt(who);
                    proof {
                        lemma_count_lt_bounds(pre.members, who);
                    }
                    let rec = MemberRec { who, keys: keys.duplicate() };
                    self.members.insert(pos, rec);
                    self.bump_seed_exec(who);
                    proof {
                        assert(self.members@ == old(self).members@.insert(pos as int, rec));
                        assert(self.model().members =~= pre.members.insert(
                            pos as int,
                            rec.model(),
                        ));
                        assert(rec.model() == (MemberModel { who, keys: keys.model() }));
                        lemma_insert_member_sorted(pre.members, MemberModel { who, keys: keys.model() });
                        lemma_seed_fresh_insert(pre, who, keys.model());
                        assert(self.model() =~= apply_effect_model(pre, e.model()));
                    }
                }
            },
            Effect::MemberRemoved { who } => {
                let who = *who;
                self.remove_member_entries(who);
                proof {
                    lemma_without_member_elements(pre.members, who);
                    lemma_without_member_sorted(pre.members, who);
                    lemma_seed_fresh_remove(pre, who);
                    assert(self.model() =~= apply_effect_model(pre, e.model()));
                }
            },
            Effect::RoleAssigned { who, role } => {
                let who = *who;
                let role = *role;
                if !self.has_role(who, role) {
                    self.roles.push(RoleGrant { who, role });
                }
                proof {
                    assert(self.model() =~= apply_effect_model(pre, e.model()));
                }
            },
            Effect::RoleRevoked { who, role } => {
                self.remove_role_entries(*who, *role);
                proof {
                    assert(self.model() =~= apply_effect_model(pre, e.model()));
                }
            },
            Effect::LabelDefined { label } => {
                let label = *label;
                if !self.is_defined(label) {
                    self.defined.push(label);
                }
                proof {
                    assert(self.model() =~= apply_effect_model(pre, e.model()));
                }
            },
            Effect::LabelAssigned { who, label, op } => {
                let who = *who;
                let label = *label;
                let op = *op;
                if !self.has_exact_grant(who, label, op) {
                    self.remove_grant_entries(who, label);
                    self.grants.push(LabelGrant { who, label, op });
                }
                proof {
                    assert(self.model() =~= apply_effect_model(pre, e.model()));
                }
            },
            Effect::LabelRevoked { who, label } => {
                self.remove_grant_entries(*who, *label);
                proof {
                    assert(self.model() =~= apply_effect_model(pre, e.model()));
                }
            },
        }
    }

    /// Performs one mutating action: computes the effects it emits
    /// against the current state, observes them, and returns them.
    pub fn perform(&mut self, action: &GraphAction) -> (effects: Vec<Effect>)
        requires
            old(self).wf(),
        ensures
            final(self).wf(),
            final(self).model() == perform_model(old(self).model(), action.model()),
            effects@.map_values(|e: Effect| e.model()) == action_effects(
                old(self).model(),
                action.model(),
            ),
    {
        let ghost pre = self.model();
        let mut effects: Vec<Effect> = Vec::new();
        match action {
            GraphAction::DefineLabel { label } => {
                if !self.is_defined(*label) {
                    effects.push(Effect::LabelDefined { label: *label });
                }
            },
            GraphAction::AddMember { keys } => {
                if self.next_seed < u64::MAX {
                    effects.push(
                        Effect::MemberAdded {
                            who: DeviceId { id: self.next_seed },
                            keys: keys.duplicate(),
                        },
                    );
                }
            },
            GraphAction::RemoveMember { who } => {
                if self.is_member(*who) {
                    effects.push(Effect::MemberRemoved { who: *who });
                }
            },
            GraphAction::AssignRole { who, role } => {
                if !self.has_role(*who, *role) {
                    effects.push(Effect::RoleAssigned { who: *who, role: *role });
                }
            },
            GraphAction::RevokeRole { who, role } => {
                if self.has_role(*who, *role) {
                    effects.push(Effect::RoleRevoked { who: *who, role: *role });
                }
            },
            GraphAction::AssignLabel { who, label, op } => {
                if !self.has_exact_grant(*who, *label, *op) {
                    effects.push(Effect::LabelAssigned { who: *who, label: *label, op: *op });
                }
            },
            GraphAction::RevokeLabel { who, label } => {
                if self.has_grant_on(*who, *label) {
                    effects.push(Effect::LabelRevoked { who: *who, label: *label });
                }
            },
        }
        proof {
            assert(effects@.map_values(|e: Effect| e.model()) =~= action_effects(
                pre,
                action.model(),
            ));
        }
        if effects.len() == 0 {
            proof {
                assert(apply_effects_model(pre, Seq::<EffectModel>::empty()) == pre);
                assert(action_effects(pre, action.model()) =~= Seq::<EffectModel>::empty());
            }
        } else {
            let e = &effects[0];
            self.apply_effect(e);
            proof {
                let es = action_effects(pre, action.model());
                assert(es.len() == effects@.len());
                assert(es.len() == 1);
                assert(es.drop_last() =~= Seq::<EffectModel>::empty());
                assert(es[0] == effects@.map_values(|e2: Effect| e2.model())[0]);
                assert(es.last() == e.model());
                assert(apply_effects_model(pre, es) == apply_effect_model(
                    apply_effects_model(pre, es.drop_last()),
                    es.last(),
                ));
                assert(apply_effects_model(pre, es.drop_last()) == pre);
            }
        }
        effects
    }

    /// Whether the label has been defined.
    pub fn is_defined(&self, label: u32) -> (r: bool)
        ensures
            r == self.model().label_defined(label),
    {
        let mut i: usize = 0;
        while i < self.defined.len()
            invariant
                i <= self.defined@.len(),
                forall|j: int| 0 <= j < i ==> self.defined@[j] != label,
            decreases self.defined@.len() - i,
        {
            if self.defined[i] == label {
                proof {
                    assert(self.defined@[i as int] == label);
                }
                return true;
            }
            i = i + 1;
        }
        false
    }
}

} // verus!
