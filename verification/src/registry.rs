//! The durable host registry: host names bound 1:1 to derived labels.
//!
//! A binding is created on the first grant naming the host and is never
//! silently reassigned: once a label is bound, binding a different host
//! that derives the same label is refused as a collision, so the same
//! numeric label always resolves to the same host.

use vstd::prelude::*;
use crate::ids::{bytes_eq, dup_bytes, AccessError};
use crate::labels;

verus! {

/// One registry entry: a host name and its derived label.
#[derive(Debug)]
pub struct HostBinding {
    pub host: Vec<u8>,
    pub label: u32,
}

/// Mathematical image of a [`HostBinding`].
#[verifier::ext_equal]
pub struct BindingModel {
    pub host: Seq<u8>,
    pub label: u32,
}

impl HostBinding {
    pub open spec fn model(&self) -> BindingModel {
        BindingModel { host: self.host@, label: self.label }
    }
}

/// Each binding carries the label derived from its host name, and no
/// label is bound twice. Host uniqueness follows: distinct labels
/// derive from distinct names.
pub open spec fn registry_wf(rs: Seq<BindingModel>) -> bool {
    &&& forall|i: int|
        0 <= i < rs.len() ==> (#[trigger] rs[i]).label == labels::derived_label(rs[i].host)
    &&& forall|i: int, j: int|
        0 <= i < j < rs.len() ==> (#[trigger] rs[i]).label != (#[trigger] rs[j]).label
}

/// Whether some binding names the host.
pub open spec fn host_bound(rs: Seq<BindingModel>, host: Seq<u8>) -> bool {
    exists|i: int| 0 <= i < rs.len() && (#[trigger] rs[i]).host == host
}

/// Whether some binding holds the label.
pub open spec fn label_bound(rs: Seq<BindingModel>, label: u32) -> bool {
    exists|i: int| 0 <= i < rs.len() && (#[trigger] rs[i]).label == label
}

/// The label bound to the host, if any.
pub open spec fn bound_label(rs: Seq<BindingModel>, host: Seq<u8>) -> Option<u32>
    decreases rs.len(),
{
    if rs.len() == 0 {
        None
    } else if rs[0].host == host {
        Some(rs[0].label)
    } else {
        bound_label(rs.drop_first(), host)
    }
}

/// The binding holding the label, if any.
pub open spec fn binding_of_label(rs: Seq<BindingModel>, label: u32) -> Option<BindingModel>
    decreases rs.len(),
{
    if rs.len() == 0 {
        None
    } else if rs[0].label == label {
        Some(rs[0])
    } else {
        binding_of_label(rs.drop_first(), label)
    }
}

/// In a well-formed registry, a bound host's label is the one derived
/// from its name.
pub proof fn lemma_bound_label_some(rs: Seq<BindingModel>, host: Seq<u8>)
    requires
        registry_wf(rs),
        host_bound(rs, host),
    ensures
        bound_label(rs, host) == Some(labels::derived_label(host)),
    decreases rs.len(),
{
    if rs.len() > 0 {
        if rs[0].host == host {
            assert(rs[0].label == labels::derived_label(host));
        } else {
            let tail = rs.drop_first();
            assert(registry_wf(tail)) by {
                assert(forall|i: int| 0 <= i < tail.len() ==> tail[i] == rs[i + 1]);
            }
            assert(host_bound(tail, host)) by {
                let j = choose|j: int| 0 <= j < rs.len() && (#[trigger] rs[j]).host == host;
                assert(j >= 1);
                assert(tail[j - 1] == rs[j]);
            }
            lemma_bound_label_some(tail, host);
        }
    }
}

/// The registry and answer after asking to bind a host: an existing
/// binding is returned as is; a fresh host whose derived label is
/// already taken by a different host is refused as a collision; an
/// unseen label is bound.
pub open spec fn bind_model(rs: Seq<BindingModel>, host: Seq<u8>) -> (Seq<BindingModel>, Result<
    u32,
    AccessError,
>) {
    let label = labels::derived_label(host);
    if host_bound(rs, host) {
        (rs, Ok(label))
    } else if label_bound(rs, label) {
        (rs, Err(AccessError::LabelCollision))
    } else {
        (rs.push(BindingModel { host, label }), Ok(label))
    }
}

/// Binding preserves well-formedness.
pub proof fn lemma_bind_wf(rs: Seq<BindingModel>, host: Seq<u8>)
    requires
        registry_wf(rs),
    ensures
        registry_wf(bind_model(rs, host).0),
{
    let label = labels::derived_label(host);
    if !host_bound(rs, host) && !label_bound(rs, label) {
        let out = rs.push(BindingModel { host, label });
        assert forall|i: int| 0 <= i < out.len() implies (#[trigger] out[i]).label
            == labels::derived_label(out[i].host) by {
            if i < rs.len() {
                assert(out[i] == rs[i]);
            } else {
                assert(out[i] == (BindingModel { host, label }));
            }
        }
        assert forall|i: int, j: int| 0 <= i < j < out.len() implies (#[trigger] out[i]).label != (
        #[trigger] out[j]).label by {
            if j < rs.len() {
                assert(out[i] == rs[i] && out[j] == rs[j]);
            } else {
                assert(out[j].label == label);
                assert(out[i] == rs[i]);
                assert(!label_bound(rs, label));
                assert(rs[i].label != label);
            }
        }
    }
}

/// The durable list of known hosts and their label bindings.
#[derive(Debug)]
pub struct HostRegistry {
    pub bindings: Vec<HostBinding>,
}

impl HostRegistry {
    pub open spec fn model(&self) -> Seq<BindingModel> {
        self.bindings@.map_values(|b: HostBinding| b.model())
    }

    pub open spec fn wf(&self) -> bool {
        registry_wf(self.model())
    }

    /// An empty registry.
    pub fn empty() -> (r: HostRegistry)
        ensures
            r.wf(),
            r.model() == Seq::<BindingModel>::empty(),
    {
        let r = HostRegistry { bindings: Vec::new() };
        proof {
            assert(r.model() =~= Seq::<BindingModel>::empty());
        }
        r
    }

    /// The label bound to the host, if any.
    pub fn lookup(&self, host: &Vec<u8>) -> (r: Option<u32>)
        ensures
            r == bound_label(self.model(), host@),
    {
        let ghost all = self.model();
        proof {
            assert(all.skip(0) =~= all);
        }
        let mut i: usize = 0;
        while i < self.bindings.len()
            invariant
                all == self.model(),
                i <= self.bindings@.len(),
                bound_label(all, host@) == bound_label(all.skip(i as int), host@),
            decreases self.bindings@.len() - i,
        {
            proof {
                assert(all.skip(i as int).drop_first() =~= all.skip(i + 1int));
                assert(all.skip(i as int)[0] == all[i as int]);
            }
            if bytes_eq(&self.bindings[i].host, host) {
                proof {
                    assert(all[i as int].host == host@);
                }
                return Some(self.bindings[i].label);
            }
            i = i + 1;
        }
        proof {
            assert(all.skip(all.len() as int) =~= Seq::<BindingModel>::empty());
        }
        None
    }

    /// The host bound to the label, if any.
    pub fn host_of_label(&self, label: u32) -> (r: Option<Vec<u8>>)
        ensures
            match r {
                Some(h) => binding_of_label(self.model(), label) == Some(
                    BindingModel { host: h@, label },
                ),
                None => binding_of_label(self.model(), label) is None,
            },
    {
        let ghost all = self.model();
        proof {
            assert(all.skip(0) =~= all);
        }
        let mut i: usize = 0;
        while i < self.bindings.len()
            invariant
                all == self.model(),
                i <= self.bindings@.len(),
                binding_of_label(all, label) == binding_of_label(all.skip(i as int), label),
            decreases self.bindings@.len() - i,
        {
            proof {
                assert(all.skip(i as int).drop_first() =~= all.skip(i + 1int));
                assert(all.skip(i as int)[0] == all[i as int]);
            }
            if self.bindings[i].label == label {
                proof {
                    assert(all[i as int].label == label);
                }
                return Some(dup_bytes(&self.bindings[i].host));
            }
            i = i + 1;
        }
        proof {
            assert(all.skip(all.len() as int) =~= Seq::<BindingModel>::empty());
        }
        None
    }

    /// Binds a host to its derived label, detecting collisions against
    /// existing bindings of different hosts.
    pub fn bind(&mut self, host: &Vec<u8>) -> (r: Result<u32, AccessError>)
        requires
            old(self).wf(),
        ensures
            final(self).wf(),
            (final(self).model(), r) == bind_model(old(self).model(), host@),
    {
        let ghost all = self.model();
        let label = labels::derive_label_bytes(host);
        let mut i: usize = 0;
        while i < self.bindings.len()
            invariant
                all == self.model(),
                label == labels::derived_label(host@),
                i <= self.bindings@.len(),
                forall|j: int| 0 <= j < i ==> (#[trigger] all[j]).host != host@,
                forall|j: int| 0 <= j < i ==> (#[trigger] all[j]).label != label,
                registry_wf(all),
            decreases self.bindings@.len() - i,
        {
            if bytes_eq(&self.bindings[i].host, host) {
                proof {
                    assert(all[i as int].host == host@);
                    assert(host_bound(all, host@));
                    assert(all[i as int].label == labels::derived_label(host@));
                }
                let found = self.bindings[i].label;
                return Ok(found);
            }
            if self.bindings[i].label == label {
                proof {
                    assert(all[i as int].label == label);
                    assert(label_bound(all, label));
                    assert forall|j: int| 0 <= j < all.len() implies (#[trigger] all[j]).host
                        != host@ by {
                        if all[j].host == host@ {
                            assert(all[j].label == labels::derived_label(host@));
                            if j < i as int {
                            } else if j > i as int {
                                assert(all[i as int].label != all[j].label);
                            }
                        }
                    }
                    assert(!host_bound(all, host@));
                }
                return Err(AccessError::LabelCollision);
            }
            i = i + 1;
        }
        proof {
            assert(!host_bound(all, host@));
            assert(!label_bound(all, label));
            lemma_bind_wf(all, host@);
        }
        let ghost before = self.bindings@;
        self.bindings.push(HostBinding { host: dup_bytes(host), label });
        proof {
            assert(self.model() =~= all.push(BindingModel { host: host@, label }));
        }
        Ok(label)
    }
}

} // verus!
