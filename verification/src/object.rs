//! The distributed-object lifecycle carried over the broker.
//!
//! An object moves `Unborn -> Generating -> Active -> Deleting -> Gone`.
//! It cannot become active until every required field of its class has been
//! set at least once, and once deletion has begun no further field update is
//! accepted. Transitions yield the derived notifications the owning
//! participant republishes on the object's own channel and its zone channel.

use vstd::prelude::*;
use crate::director::vec_set;
use crate::errors::ProtocolError;
use crate::schema::ClassDef;

verus! {

/// Where an object stands in its life.
#[derive(Clone, Copy, Debug, PartialEq, Eq, Structural)]
pub enum ObjectState {
    /// Known but not yet announced by a generate message.
    Unborn,
    /// Announced; required fields still arriving.
    Generating,
    /// Visible to interested participants.
    Active,
    /// Deletion announced; no further updates accepted.
    Deleting,
    /// Fully torn down.
    Gone,
}

/// A derived notification for interested participants, to be republished
/// on the object's own channel and its zone channel.
#[derive(Clone, Copy, Debug, PartialEq, Eq, Structural)]
pub enum Notification {
    /// The object became active and entered its zone.
    EnteredZone { object_id: u64, zone: u64 },
    /// A field of an active object changed.
    FieldUpdated { object_id: u64, zone: u64, field_id: u64 },
    /// The object moved between zones.
    ChangedZone { object_id: u64, old_zone: u64, new_zone: u64 },
    /// The object's deletion was announced.
    Deleted { object_id: u64, zone: u64 },
}

/// What became of a field-update request handled at one holder.
#[derive(Debug, PartialEq, Eq)]
pub enum UpdateDisposition {
    /// The holder owns the object: the update was applied, with the
    /// derived notification to republish, if one was produced.
    Applied(Option<Notification>),
    /// The holder does not own the object but knows who does: the
    /// request must be forwarded there, unapplied.
    Forwarded(u64),
    /// The holder does not own the object and no owner is known (the gap
    /// of an ownership handoff): the request is dropped with a
    /// diagnostic, unapplied.
    Dropped,
}

/// How one applied field update changes an object and what it returns:
/// rejected outside the Generating and Active states and for an
/// undeclared field, otherwise exactly the named field is set, and the
/// update that completes a generating object's required set activates it.
pub open spec fn set_field_step(
    pre: DistributedObject,
    post: DistributedObject,
    field_id: int,
    encoded: Vec<u8>,
    r: Result<Option<Notification>, ProtocolError>,
) -> bool {
    &&& (pre.state is Unborn || pre.state is Deleting || pre.state is Gone) ==> r == Err::<
        Option<Notification>,
        ProtocolError,
    >(ProtocolError::ObjectNotLive) && post == pre
    &&& (pre.state is Generating || pre.state is Active) && field_id >= pre.required@.len()
        ==> r == Err::<Option<Notification>, ProtocolError>(ProtocolError::UnknownField)
        && post == pre
    &&& (pre.state is Generating || pre.state is Active) && 0 <= field_id
        < pre.required@.len() ==> {
        &&& post.present@ == pre.present@.update(field_id, true)
        &&& post.values@ == pre.values@.update(field_id, Some(encoded))
        &&& post.object_id == pre.object_id
        &&& post.class_id == pre.class_id
        &&& post.zone == pre.zone
        &&& post.owner == pre.owner
        &&& post.required@ == pre.required@
        &&& (pre.state is Active ==> post.state is Active && r == Ok::<
            Option<Notification>,
            ProtocolError,
        >(
            Some(
                Notification::FieldUpdated {
                    object_id: pre.object_id,
                    zone: pre.zone,
                    field_id: field_id as u64,
                },
            ),
        ))
        &&& (pre.state is Generating && post.all_required_set() ==> post.state is Active && r
            == Ok::<Option<Notification>, ProtocolError>(
            Some(Notification::EnteredZone { object_id: pre.object_id, zone: pre.zone }),
        ))
        &&& (pre.state is Generating && !post.all_required_set() ==> post.state is Generating
            && r == Ok::<Option<Notification>, ProtocolError>(None))
    }
}

/// One replicated object: its identity, class, zone, current owner, and
/// per-field presence and encoded value.
pub struct DistributedObject {
    pub object_id: u64,
    pub class_id: usize,
    pub zone: u64,
    pub owner: Option<u64>,
    pub required: Vec<bool>,
    pub present: Vec<bool>,
    pub values: Vec<Option<Vec<u8>>>,
    pub state: ObjectState,
}

impl DistributedObject {
    /// Every field the class requires has been set at least once.
    pub open spec fn all_required_set(self) -> bool {
        forall|i: int|
            0 <= i < self.required@.len() && self.required@[i] ==> #[trigger] self.present@[i]
    }

    /// One presence flag and one value slot per class field, a value
    /// exactly where a field was set — and never an active, deleting or
    /// gone object whose required fields were not all set.
    pub open spec fn wf(self) -> bool {
        &&& self.present@.len() == self.required@.len()
        &&& self.values@.len() == self.required@.len()
        &&& forall|i: int|
            0 <= i < self.values@.len() ==> (#[trigger] self.values@[i] is Some
                <==> self.present@[i])
        &&& (self.state is Active || self.state is Deleting || self.state is Gone)
            ==> self.all_required_set()
    }

    /// A fresh, unannounced object of the given class: no field set yet,
    /// no owner, state `Unborn`.
    #[verifier::loop_isolation(false)]
    pub fn new(object_id: u64, class_id: usize, class: &ClassDef, zone: u64) -> (o:
        DistributedObject)
        ensures
            o.wf(),
            o.state is Unborn,
            o.object_id == object_id,
            o.class_id == class_id,
            o.zone == zone,
            o.owner is None,
            o.required@.len() == class.fields@.len(),
            forall|i: int|
                0 <= i < class.fields@.len() ==> o.required@[i] == class.fields@[i].required,
            forall|i: int| 0 <= i < o.present@.len() ==> !o.present@[i],
    {
        let n = class.fields.len();
        let mut required: Vec<bool> = Vec::new();
        let mut present: Vec<bool> = Vec::new();
        let mut values: Vec<Option<Vec<u8>>> = Vec::new();
        let mut i: usize = 0;
        while i < n
            invariant
                i <= n,
                n == class.fields@.len(),
                required@.len() == i,
                present@.len() == i,
                values@.len() == i,
                forall|k: int| 0 <= k < i ==> required@[k] == class.fields@[k].required,
                forall|k: int| 0 <= k < i ==> !present@[k],
                forall|k: int| 0 <= k < i ==> values@[k] is None,
            decreases n - i,
        {
            required.push(class.fields[i].required);
            present.push(false);
            values.push(None);
            i += 1;
        }
        DistributedObject {
            object_id,
            class_id,
            zone,
            owner: None,
            required,
            present,
            values,
            state: ObjectState::Unborn,
        }
    }

    /// A generate message announced the object: required fields may now
    /// arrive, one field update at a time.
    pub fn begin_generate(&mut self) -> (r: Result<(), ProtocolError>)
        requires
            old(self).wf(),
        ensures
            final(self).wf(),
            old(self).state is Unborn ==> r is Ok && *final(self) == (DistributedObject {
                state: ObjectState::Generating,
                ..*old(self)
            }),
            !(old(self).state is Unborn) ==> r == Err::<(), ProtocolError>(
                ProtocolError::ObjectNotLive,
            ) && *final(self) == *old(self),
    {
        match self.state {
            ObjectState::Unborn => {
                self.state = ObjectState::Generating;
                Ok(())
            },
            _ => Err(ProtocolError::ObjectNotLive),
        }
    }

    /// Every required field has been set.
    #[verifier::loop_isolation(false)]
    fn check_required(&self) -> (r: bool)
        requires
            self.present@.len() == self.required@.len(),
        ensures
            r == self.all_required_set(),
    {
        let mut i: usize = 0;
        while i < self.required.len()
            invariant
                i <= self.required@.len(),
                forall|k: int|
                    0 <= k < i && self.required@[k] ==> #[trigger] self.present@[k],
            decreases self.required@.len() - i,
        {
            if self.required[i] && !self.present[i] {
                proof {
                    assert(self.required@[i as int] && !self.present@[i as int]);
                }
                return false;
            }
            i += 1;
        }
        true
    }

    /// Apply one field update carrying an encoded value; the application
    /// step run by the owning holder itself (and during generation, before
    /// any owner exists). A request arriving over the broker goes through
    /// `handle_update`, which gates it on ownership first.
    ///
    /// Rejected once deletion has begun (or before the object was
    /// announced, or when it is gone): the update must be dropped with a
    /// diagnostic, never silently applied. Rejected too for a field the
    /// class does not declare. An update that completes the required set
    /// of a generating object activates it and yields the zone-entry
    /// notification; an update to an active object yields the
    /// field-updated notification.
    pub fn set_field(&mut self, field_id: usize, encoded: Vec<u8>) -> (r: Result<
        Option<Notification>,
        ProtocolError,
    >)
        requires
            old(self).wf(),
        ensures
            final(self).wf(),
            set_field_step(*old(self), *final(self), field_id as int, encoded, r),
    {
        match self.state {
            ObjectState::Generating | ObjectState::Active => {
                proof {
                    assert(self.required.len() == self.required@.len());
                }
                if field_id >= self.required.len() {
                    return Err(ProtocolError::UnknownField);
                }
                vec_set(&mut self.present, field_id, true);
                vec_set(&mut self.values, field_id, Some(encoded));
                match self.state {
                    ObjectState::Active => {
                        proof {
                            assert forall|i: int|
                                0 <= i < self.required@.len() && self.required@[i]
                                    implies #[trigger] self.present@[i] by {
                                assert(old(self).present@[i]);
                            }
                        }
                        Ok(
                            Some(
                                Notification::FieldUpdated {
                                    object_id: self.object_id,
                                    zone: self.zone,
                                    field_id: field_id as u64,
                                },
                            ),
                        )
                    },
                    _ => {
                        if self.check_required() {
                            self.state = ObjectState::Active;
                            Ok(
                                Some(
                                    Notification::EnteredZone {
                                        object_id: self.object_id,
                                        zone: self.zone,
                                    },
                                ),
                            )
                        } else {
                            Ok(None)
                        }
                    },
                }
            },
            _ => Err(ProtocolError::ObjectNotLive),
        }
    }

    /// Handle a field-update request that arrived over the broker at the
    /// holding participant `holder`.
    ///
    /// Only the current owner applies the update. A holder that has
    /// relinquished the object, or never owned it, leaves every field
    /// untouched and either forwards the request toward the owner it
    /// knows or drops it for a diagnostic — never a silent apply.
    pub fn handle_update(&mut self, holder: u64, field_id: usize, encoded: Vec<u8>) -> (r:
        Result<UpdateDisposition, ProtocolError>)
        requires
            old(self).wf(),
        ensures
            final(self).wf(),
            old(self).owner != Some(holder) ==> *final(self) == *old(self),
            old(self).owner is None ==> r == Ok::<UpdateDisposition, ProtocolError>(
                UpdateDisposition::Dropped,
            ),
            (old(self).owner is Some && old(self).owner->0 != holder) ==> r == Ok::<
                UpdateDisposition,
                ProtocolError,
            >(UpdateDisposition::Forwarded(old(self).owner->0)),
            old(self).owner == Some(holder) ==> ({
                ||| (r matches Ok(d) && d matches UpdateDisposition::Applied(n)
                    && set_field_step(
                    *old(self),
                    *final(self),
                    field_id as int,
                    encoded,
                    Ok(n),
                ))
                ||| (r matches Err(e) && set_field_step(
                    *old(self),
                    *final(self),
                    field_id as int,
                    encoded,
                    Err(e),
                ))
            }),
    {
        match self.owner {
            Some(o) => {
                if o == holder {
                    match self.set_field(field_id, encoded) {
                        Ok(n) => Ok(UpdateDisposition::Applied(n)),
                        Err(e) => Err(e),
                    }
                } else {
                    Ok(UpdateDisposition::Forwarded(o))
                }
            },
            None => Ok(UpdateDisposition::Dropped),
        }
    }

    /// A delete message announced the object's destruction: it stops
    /// accepting updates and interested participants are told.
    pub fn begin_delete(&mut self) -> (r: Result<Notification, ProtocolError>)
        requires
            old(self).wf(),
        ensures
            final(self).wf(),
            old(self).state is Active ==> r == Ok::<Notification, ProtocolError>(
                Notification::Deleted { object_id: old(self).object_id, zone: old(self).zone },
            ) && *final(self) == (DistributedObject {
                state: ObjectState::Deleting,
                ..*old(self)
            }),
            !(old(self).state is Active) ==> r == Err::<Notification, ProtocolError>(
                ProtocolError::ObjectNotLive,
            ) && *final(self) == *old(self),
    {
        match self.state {
            ObjectState::Active => {
                self.state = ObjectState::Deleting;
                Ok(Notification::Deleted { object_id: self.object_id, zone: self.zone })
            },
            _ => Err(ProtocolError::ObjectNotLive),
        }
    }

    /// Tear-down finished: the object is gone for good.
    pub fn finish_delete(&mut self) -> (r: Result<(), ProtocolError>)
        requires
            old(self).wf(),
        ensures
            final(self).wf(),
            old(self).state is Deleting ==> r is Ok && *final(self) == (DistributedObject {
                state: ObjectState::Gone,
                ..*old(self)
            }),
            !(old(self).state is Deleting) ==> r == Err::<(), ProtocolError>(
                ProtocolError::ObjectNotLive,
            ) && *final(self) == *old(self),
    {
        match self.state {
            ObjectState::Deleting => {
                self.state = ObjectState::Gone;
                Ok(())
            },
            _ => Err(ProtocolError::ObjectNotLive),
        }
    }

    /// Move an active object to another zone; interested participants on
    /// both zones are told through the returned notification.
    pub fn change_zone(&mut self, new_zone: u64) -> (r: Result<Notification, ProtocolError>)
        requires
            old(self).wf(),
        ensures
            final(self).wf(),
            old(self).state is Active ==> r == Ok::<Notification, ProtocolError>(
                Notification::ChangedZone {
                    object_id: old(self).object_id,
                    old_zone: old(self).zone,
                    new_zone: new_zone,
                },
            ) && *final(self) == (DistributedObject { zone: new_zone, ..*old(self) }),
            !(old(self).state is Active) ==> r == Err::<Notification, ProtocolError>(
                ProtocolError::ObjectNotLive,
            ) && *final(self) == *old(self),
    {
        match self.state {
            ObjectState::Active => {
                let old_zone = self.zone;
                self.zone = new_zone;
                Ok(
                    Notification::ChangedZone {
                        object_id: self.object_id,
                        old_zone,
                        new_zone,
                    },
                )
            },
            _ => Err(ProtocolError::ObjectNotLive),
        }
    }

    /// First half of the two-phase ownership handoff: the current owner
    /// publishes its relinquish notice and stops accepting update requests
    /// on the object's behalf — afterwards `handle_update` forwards or
    /// drops a request at this holder instead of applying it.
    pub fn relinquish(&mut self) -> (r: Result<(), ProtocolError>)
        requires
            old(self).wf(),
        ensures
            final(self).wf(),
            old(self).owner is Some ==> r is Ok && *final(self) == (DistributedObject {
                owner: None,
                ..*old(self)
            }),
            old(self).owner is None ==> r == Err::<(), ProtocolError>(
                ProtocolError::ObjectNotLive,
            ) && *final(self) == *old(self),
    {
        match self.owner {
            Some(_) => {
                self.owner = None;
                Ok(())
            },
            None => Err(ProtocolError::ObjectNotLive),
        }
    }

    /// Second half of the handoff: the new owner acknowledges and begins
    /// accepting update requests. Refused while someone still owns the
    /// object.
    pub fn claim_ownership(&mut self, new_owner: u64) -> (r: Result<(), ProtocolError>)
        requires
            old(self).wf(),
        ensures
            final(self).wf(),
            old(self).owner is None ==> r is Ok && *final(self) == (DistributedObject {
                owner: Some(new_owner),
                ..*old(self)
            }),
            old(self).owner is Some ==> r == Err::<(), ProtocolError>(
                ProtocolError::ObjectNotLive,
            ) && *final(self) == *old(self),
    {
        match self.owner {
            None => {
                self.owner = Some(new_owner);
                Ok(())
            },
            Some(_) => Err(ProtocolError::ObjectNotLive),
        }
    }
}

/// An object in the `Active` state has every required field set: no
/// operation produces an active object before its required fields arrived.
pub proof fn lemma_active_has_required(o: DistributedObject)
    requires
        o.wf(),
        o.state is Active,
    ensures
        o.all_required_set(),
{
}

} // verus!
