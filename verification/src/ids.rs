//! Core data model: principals, key material, roles, channel
//! operations, the error taxonomy, and the pipeline's configuration.

use vstd::prelude::*;
use crate::labels;

verus! {

/// Identifies a principal in the authorization graph.
///
/// The graph mints an identifier when a member is added; it is immutable
/// and never reused. The pipeline only compares and orders identifiers,
/// so it carries them as a single machine word; widening to the
/// collaborator's raw identifier form is a boundary conversion.
#[derive(Clone, Copy, PartialEq, Eq, Structural, Debug)]
pub struct DeviceId {
    pub id: u64,
}

/// A principal's public key material, supplied at onboarding and
/// immutable for the life of the principal (rotation would mint a new
/// principal).
#[derive(Debug)]
pub struct KeyBundle {
    /// Signing (identity) public key.
    pub ident_pk: Vec<u8>,
    /// SSH public key: one `authorized_keys` entry without options.
    pub ssh_pk: Vec<u8>,
}

/// Mathematical image of a [`KeyBundle`].
#[verifier::ext_equal]
pub struct KeysModel {
    pub ident_pk: Seq<u8>,
    pub ssh_pk: Seq<u8>,
}

impl KeyBundle {
    pub open spec fn model(&self) -> KeysModel {
        KeysModel { ident_pk: self.ident_pk@, ssh_pk: self.ssh_pk@ }
    }

    /// A fresh bundle holding the same key material.
    pub fn duplicate(&self) -> (r: KeyBundle)
        ensures
            r.model() == self.model(),
    {
        KeyBundle { ident_pk: dup_bytes(&self.ident_pk), ssh_pk: dup_bytes(&self.ssh_pk) }
    }
}

/// A role held by a principal. Role possession alone grants no host
/// access; it is a capability precondition checked by policy.
#[derive(Clone, Copy, PartialEq, Eq, Structural, Debug)]
pub enum Role {
    Admin,
    Member,
    Custom(u16),
}

/// The channel operation granted together with a label. Only
/// [`ChanOp::Open`] confers access to the labelled resource.
#[derive(Clone, Copy, PartialEq, Eq, Structural, Debug)]
pub enum ChanOp {
    Open,
    SendOnly,
    RecvOnly,
}

/// The pipeline's error taxonomy.
#[derive(Clone, Copy, PartialEq, Eq, Structural, Debug)]
pub enum AccessError {
    /// A mutating graph call failed at the network or consensus level.
    /// Raised by the driver that issues actions to the remote graph;
    /// retryable.
    GraphActionFailed,
    /// The label derived for a host is already bound to a different
    /// host. Fatal until an operator resolves the name clash.
    LabelCollision,
    /// An effect set did not yield an expected identity, or an operation
    /// named a principal unknown to the graph.
    MissingIdentity,
    /// The principal is a member but holds no SSH role, so policy
    /// refuses new host grants.
    NotAuthorized,
    /// The deployment sink was unreachable or rejected an artifact.
    /// Raised by the driver that deploys artifacts; retryable per host.
    DeployFailed,
    /// One reconciliation tick failed. Raised by the driver that runs
    /// the sync loop; the loop continues with the next tick.
    SyncTransientFailure,
}

/// The role and label constants the pipeline is configured with,
/// passed explicitly to the access manager at construction.
#[derive(Clone, Copy, PartialEq, Eq, Structural, Debug)]
pub struct LabelConfig {
    /// Well-known label gating the transport channel itself.
    pub transport_label: u32,
    /// Custom-role number marking SSH administrators.
    pub admin_role: u16,
    /// Custom-role number marking ordinary SSH users.
    pub user_role: u16,
}

impl LabelConfig {
    /// The configuration is sound: the transport label stays out of the
    /// range reserved for derived host labels, and the two SSH roles are
    /// distinct.
    pub open spec fn wf(&self) -> bool {
        &&& !labels::is_host_label(self.transport_label)
        &&& self.admin_role != self.user_role
    }

    pub open spec fn standard_spec() -> LabelConfig {
        LabelConfig { transport_label: 1000u32, admin_role: 1001u16, user_role: 1002u16 }
    }

    /// The stock configuration: transport label 1000, SSH administrator
    /// role 1001, SSH user role 1002.
    pub fn standard() -> (c: LabelConfig)
        ensures
            c == LabelConfig::standard_spec(),
            c.wf(),
    {
        LabelConfig { transport_label: 1000, admin_role: 1001, user_role: 1002 }
    }
}

/// A fresh vector holding the same bytes.
pub fn dup_bytes(v: &Vec<u8>) -> (r: Vec<u8>)
    ensures
        r@ == v@,
{
    let mut r: Vec<u8> = Vec::new();
    let mut i: usize = 0;
    while i < v.len()
        invariant
            i <= v@.len(),
            r@ == v@.take(i as int),
        decreases v@.len() - i,
    {
        r.push(v[i]);
        proof {
            assert(v@.take(i + 1int) =~= v@.take(i as int).push(v@[i as int]));
        }
        i = i + 1;
    }
    proof {
        assert(v@.take(v@.len() as int) =~= v@);
    }
    r
}

/// Whether two byte vectors hold the same bytes.
pub fn bytes_eq(a: &Vec<u8>, b: &Vec<u8>) -> (r: bool)
    ensures
        r == (a@ == b@),
{
    if a.len() != b.len() {
        proof {
            assert(a@ != b@);
        }
        return false;
    }
    let mut i: usize = 0;
    while i < a.len()
        invariant
            a@.len() == b@.len(),
            i <= a@.len(),
            forall|j: int| 0 <= j < i ==> a@[j] == b@[j],
        decreases a@.len() - i,
    {
        if a[i] != b[i] {
            proof {
                assert(a@ != b@);
            }
            return false;
        }
        i = i + 1;
    }
    proof {
        assert(a@ =~= b@);
    }
    true
}

} // verus!
