//! The key materializer: computes, for one host, the authorized
//! principal set, renders it into a canonical `authorized_keys`
//! artifact, and versions it by a content hash so unchanged artifacts
//! are never redistributed.
//!
//! A principal is authorized for a host exactly when it is a current
//! team member and holds an open grant on the host's label. Role
//! possession does not gate access; it only annotates the rendered
//! entry with the principal's access level.

use vstd::prelude::*;
use vstd::wrapping::u64_specs;
use crate::graph::{has_open_grant, GraphModel, GraphState, LabelGrant, MemberModel, RoleGrant};
use crate::ids::{dup_bytes, DeviceId, Role};

verus! {

/// Offset basis of the 64-bit FNV-1a content hash.
pub const CONTENT_HASH_BASIS: u64 = 0xcbf2_9ce4_8422_2325;

/// Prime of the 64-bit FNV-1a content hash.
pub const CONTENT_HASH_PRIME: u64 = 0x100_0000_01b3;

/// The rendered `authorized_keys` text for one host, tagged with the
/// host name and a content version for idempotent redistribution.
#[derive(Debug)]
pub struct KeyFileArtifact {
    pub host: Vec<u8>,
    pub content: Vec<u8>,
    pub version: u64,
}

/// Mathematical image of a [`KeyFileArtifact`].
#[verifier::ext_equal]
pub struct ArtifactModel {
    pub host: Seq<u8>,
    pub content: Seq<u8>,
    pub version: u64,
}

impl KeyFileArtifact {
    pub open spec fn model(&self) -> ArtifactModel {
        ArtifactModel { host: self.host@, content: self.content@, version: self.version }
    }
}

/// The members authorized for a label: current members holding an open
/// grant on it, in membership (identifier) order.
pub open spec fn authorized_members(
    members: Seq<MemberModel>,
    grants: Seq<LabelGrant>,
    label: u32,
) -> Seq<MemberModel>
    decreases members.len(),
{
    if members.len() == 0 {
        members
    } else {
        let rest = authorized_members(members.drop_last(), grants, label);
        if has_open_grant(grants, members.last().who, label) {
            rest.push(members.last())
        } else {
            rest
        }
    }
}

/// The identifiers authorized for a label, as a set: the shape the
/// restore law is stated over.
pub open spec fn authorized_ids(g: GraphModel, label: u32) -> Set<DeviceId> {
    Set::new(|who: DeviceId| g.is_member(who) && has_open_grant(g.grants, who, label))
}

/// The rendered key file is sorted by identity: selecting the
/// authorized members out of the sorted membership records keeps them
/// strictly ordered, so the rendering is canonical for the authorized
/// set.
pub proof fn lemma_authorized_members_sorted(
    members: Seq<MemberModel>,
    grants: Seq<LabelGrant>,
    label: u32,
)
    requires
        crate::graph::members_sorted(members),
    ensures
        crate::graph::members_sorted(authorized_members(members, grants, label)),
        forall|i: int|
            0 <= i < authorized_members(members, grants, label).len() ==> members.contains(
                #[trigger] authorized_members(members, grants, label)[i],
            ),
    decreases members.len(),
{
    if members.len() > 0 {
        let prefix = members.drop_last();
        assert(crate::graph::members_sorted(prefix)) by {
            assert(forall|i: int, j: int|
                0 <= i < j < prefix.len() ==> (#[trigger] prefix[i]).who.id < (
                #[trigger] prefix[j]).who.id);
        }
        lemma_authorized_members_sorted(prefix, grants, label);
        let rest = authorized_members(prefix, grants, label);
        let out = authorized_members(members, grants, label);
        assert forall|i: int| 0 <= i < out.len() implies members.contains(#[trigger] out[i]) by {
            if i < rest.len() {
                assert(out[i] == rest[i]);
                assert(prefix.contains(rest[i]));
                let j = choose|j: int| 0 <= j < prefix.len() && prefix[j] == rest[i];
                assert(members[j] == rest[i]);
            } else {
                assert(out[i] == members.last());
                assert(members[members.len() - 1] == members.last());
            }
        }
        if has_open_grant(grants, members.last().who, label) {
            assert forall|i: int, j: int| 0 <= i < j < out.len() implies (
            #[trigger] out[i]).who.id < (#[trigger] out[j]).who.id by {
                if j < rest.len() {
                    assert(out[i] == rest[i] && out[j] == rest[j]);
                } else {
                    assert(out[j] == members.last());
                    assert(out[i] == rest[i]);
                    assert(prefix.contains(rest[i]));
                    let k = choose|k: int| 0 <= k < prefix.len() && prefix[k] == rest[i];
                    assert(members[k] == rest[i]);
                    assert(members[k].who.id < members[members.len() - 1].who.id);
                }
            }
        }
    }
}

/// The access-level marker rendered after a key: `admin` for holders of
/// the administrator role, `read` otherwise.
pub open spec fn level_marker(is_admin: bool) -> Seq<u8> {
    if is_admin {
        seq![97u8, 100u8, 109u8, 105u8, 110u8]
    } else {
        seq![114u8, 101u8, 97u8, 100u8]
    }
}

/// One rendered entry: the SSH public key, a space, the access-level
/// marker, and a newline.
pub open spec fn entry_line(m: MemberModel, is_admin: bool) -> Seq<u8> {
    m.keys.ssh_pk + seq![32u8] + level_marker(is_admin) + seq![10u8]
}

/// The rendered key file for a list of authorized members.
pub open spec fn render_entries(
    entries: Seq<MemberModel>,
    roles: Seq<RoleGrant>,
    admin_role: u16,
) -> Seq<u8>
    decreases entries.len(),
{
    if entries.len() == 0 {
        Seq::empty()
    } else {
        render_entries(entries.drop_last(), roles, admin_role) + entry_line(
            entries.last(),
            roles.contains(RoleGrant { who: entries.last().who, role: Role::Custom(admin_role) }),
        )
    }
}

/// The canonical key-file content for a host's label under the
/// observed graph state.
pub open spec fn host_content(g: GraphModel, label: u32, admin_role: u16) -> Seq<u8> {
    render_entries(authorized_members(g.members, g.grants, label), g.roles, admin_role)
}

/// The 64-bit FNV-1a hash versioning a content.
pub open spec fn content_version(bytes: Seq<u8>) -> u64
    decreases bytes.len(),
{
    if bytes.len() == 0 {
        CONTENT_HASH_BASIS
    } else {
        u64_specs::wrapping_mul(
            content_version(bytes.drop_last()) ^ (bytes.last() as u64),
            CONTENT_HASH_PRIME,
        )
    }
}

/// Appends one byte vector to another.
pub fn extend_bytes(out: &mut Vec<u8>, src: &Vec<u8>)
    ensures
        final(out)@ == old(out)@ + src@,
{
    let mut i: usize = 0;
    while i < src.len()
        invariant
            i <= src@.len(),
            out@ == old(out)@ + src@.take(i as int),
        decreases src@.len() - i,
    {
        out.push(src[i]);
        proof {
            assert(old(out)@ + src@.take(i + 1int) =~= (old(out)@ + src@.take(i as int)).push(
                src@[i as int],
            ));
        }
        i = i + 1;
    }
    proof {
        assert(old(out)@ + src@.take(src@.len() as int) =~= old(out)@ + src@);
    }
}

/// Appends the access-level marker.
fn push_level(out: &mut Vec<u8>, is_admin: bool)
    ensures
        final(out)@ == old(out)@ + level_marker(is_admin),
{
    if is_admin {
        out.push(97);
        out.push(100);
        out.push(109);
        out.push(105);
        out.push(110);
        proof {
            assert(out@ =~= old(out)@ + level_marker(true));
        }
    } else {
        out.push(114);
        out.push(101);
        out.push(97);
        out.push(100);
        proof {
            assert(out@ =~= old(out)@ + level_marker(false));
        }
    }
}

/// Renders the key-file content for a host's label: every authorized
/// member's SSH public key with its access level, sorted by identifier.
pub fn render_host_content(gs: &GraphState, label: u32, admin_role: u16) -> (content: Vec<u8>)
    ensures
        content@ == host_content(gs.model(), label, admin_role),
{
    let ghost g = gs.model();
    let mut content: Vec<u8> = Vec::new();
    proof {
        assert(g.members.take(0) =~= Seq::<MemberModel>::empty());
        assert(content@ =~= Seq::<u8>::empty());
    }
    let mut i: usize = 0;
    while i < gs.members.len()
        invariant
            g == gs.model(),
            i <= gs.members@.len(),
            content@ == render_entries(
                authorized_members(g.members.take(i as int), g.grants, label),
                g.roles,
                admin_role,
            ),
        decreases gs.members@.len() - i,
    {
        proof {
            assert(g.members.take(i + 1int).drop_last() =~= g.members.take(i as int));
            assert(g.members.take(i + 1int).last() == g.members[i as int]);
        }
        let who = gs.members[i].who;
        proof {
            assert(g.members[i as int].who == who);
        }
        if gs.has_open_grant_on(who, label) {
            let is_admin = gs.has_role(who, Role::Custom(admin_role));
            let ghost before = content@;
            extend_bytes(&mut content, &gs.members[i].keys.ssh_pk);
            content.push(32);
            push_level(&mut content, is_admin);
            content.push(10);
            proof {
                assert(content@ =~= before + entry_line(g.members[i as int], is_admin));
                let auth_old = authorized_members(g.members.take(i as int), g.grants, label);
                let auth_new = authorized_members(g.members.take(i + 1int), g.grants, label);
                assert(auth_new == auth_old.push(g.members[i as int]));
                assert(auth_new.drop_last() =~= auth_old);
                assert(auth_new.last() == g.members[i as int]);
                assert(is_admin == g.roles.contains(
                    RoleGrant { who: g.members[i as int].who, role: Role::Custom(admin_role) },
                ));
                assert(render_entries(auth_new, g.roles, admin_role) == render_entries(
                    auth_old,
                    g.roles,
                    admin_role,
                ) + entry_line(g.members[i as int], is_admin));
            }
        }
        i = i + 1;
    }
    proof {
        assert(g.members.take(gs.members@.len() as int) =~= g.members);
    }
    content
}

/// Computes the content version of a rendered key file.
pub fn version_of(content: &Vec<u8>) -> (v: u64)
    ensures
        v == content_version(content@),
{
    let mut v: u64 = CONTENT_HASH_BASIS;
    let mut i: usize = 0;
    while i < content.len()
        invariant
            i <= content@.len(),
            v == content_version(content@.take(i as int)),
        decreases content@.len() - i,
    {
        v = (v ^ (content[i] as u64)).wrapping_mul(CONTENT_HASH_PRIME);
        proof {
            assert(content@.take(i + 1int).drop_last() =~= content@.take(i as int));
            assert(content@.take(i + 1int).last() == content@[i as int]);
        }
        i = i + 1;
    }
    proof {
        assert(content@.take(content@.len() as int) =~= content@);
    }
    v
}

/// Builds the artifact for a host from its rendered content.
pub fn build_artifact(host: &Vec<u8>, content: Vec<u8>) -> (a: KeyFileArtifact)
    ensures
        a.model() == (ArtifactModel {
            host: host@,
            content: content@,
            version: content_version(content@),
        }),
{
    let version = version_of(&content);
    KeyFileArtifact { host: dup_bytes(host), content, version }
}

} // verus!
