use astron_core::codec::FieldType;
use astron_core::dbqueue::DbOperation;
use astron_core::dbqueue::DbPipeline;
use astron_core::dbqueue::OpKind;
use astron_core::errors::ProtocolError;
use astron_core::dbqueue::completion_for;
use astron_core::dbqueue::BackendOutcome;
use astron_core::dbqueue::Completion;
use astron_core::errors::PersistenceError;
use astron_core::object::DistributedObject;
use astron_core::object::Notification;
use astron_core::object::ObjectState;
use astron_core::object::UpdateDisposition;
use astron_core::schema::ClassDef;
use astron_core::schema::FieldDef;

fn avatar_class() -> ClassDef {
    ClassDef {
        name: String::from("Avatar"),
        fields: vec![
            FieldDef { name: String::from("name"), ftype: FieldType::Text, required: true },
            FieldDef {
                name: String::from("position"),
                ftype: FieldType::FixedArray(Box::new(FieldType::UInt32), 3),
                required: true,
            },
            FieldDef { name: String::from("badge"), ftype: FieldType::UInt16, required: false },
        ],
    }
}

#[test]
fn avatar_activates_after_required_fields() {
    let class = avatar_class();
    let mut o = DistributedObject::new(5000, 0, &class, 1234);
    assert_eq!(o.state, ObjectState::Unborn);
    assert_eq!(o.begin_generate(), Ok(()));
    assert_eq!(o.state, ObjectState::Generating);
    // Generate carried only `name`: the object stays GENERATING.
    assert_eq!(o.set_field(0, b"kit".to_vec()), Ok(None));
    assert_eq!(o.state, ObjectState::Generating);
    // A later update sets `position`: ACTIVE, with the zone-entry notice
    // for the object's zone channel.
    assert_eq!(
        o.set_field(1, vec![0, 0, 0, 1, 0, 0, 0, 2, 0, 0, 0, 3]),
        Ok(Some(Notification::EnteredZone { object_id: 5000, zone: 1234 }))
    );
    assert_eq!(o.state, ObjectState::Active);
    // An update while active reports the field change.
    assert_eq!(
        o.set_field(2, vec![0, 9]),
        Ok(Some(Notification::FieldUpdated { object_id: 5000, zone: 1234, field_id: 2 }))
    );
}

#[test]
fn no_updates_after_delete_begins() {
    let class = avatar_class();
    let mut o = DistributedObject::new(1, 0, &class, 7);
    o.begin_generate().unwrap();
    o.set_field(0, b"a".to_vec()).unwrap();
    o.set_field(1, vec![0; 12]).unwrap();
    assert_eq!(o.state, ObjectState::Active);
    assert_eq!(
        o.begin_delete(),
        Ok(Notification::Deleted { object_id: 1, zone: 7 })
    );
    assert_eq!(o.state, ObjectState::Deleting);
    assert_eq!(o.set_field(0, b"b".to_vec()), Err(ProtocolError::ObjectNotLive));
    assert_eq!(o.finish_delete(), Ok(()));
    assert_eq!(o.state, ObjectState::Gone);
    assert_eq!(o.set_field(0, b"c".to_vec()), Err(ProtocolError::ObjectNotLive));
}

#[test]
fn unknown_field_rejected() {
    let class = avatar_class();
    let mut o = DistributedObject::new(1, 0, &class, 7);
    o.begin_generate().unwrap();
    assert_eq!(o.set_field(3, vec![]), Err(ProtocolError::UnknownField));
}

#[test]
fn zone_change_only_while_active() {
    let class = avatar_class();
    let mut o = DistributedObject::new(1, 0, &class, 7);
    o.begin_generate().unwrap();
    assert_eq!(o.change_zone(8), Err(ProtocolError::ObjectNotLive));
    o.set_field(0, b"a".to_vec()).unwrap();
    o.set_field(1, vec![0; 12]).unwrap();
    assert_eq!(
        o.change_zone(8),
        Ok(Notification::ChangedZone { object_id: 1, old_zone: 7, new_zone: 8 })
    );
    assert_eq!(o.zone, 8);
}

#[test]
fn ownership_two_phase_handoff() {
    let class = avatar_class();
    let mut o = DistributedObject::new(1, 0, &class, 7);
    assert_eq!(o.claim_ownership(100), Ok(()));
    assert_eq!(o.owner, Some(100));
    assert_eq!(o.claim_ownership(200), Err(ProtocolError::ObjectNotLive));
    assert_eq!(o.relinquish(), Ok(()));
    assert_eq!(o.owner, None);
    assert_eq!(o.relinquish(), Err(ProtocolError::ObjectNotLive));
    assert_eq!(o.claim_ownership(200), Ok(()));
    assert_eq!(o.owner, Some(200));
}

#[test]
fn non_owner_update_never_applied() {
    let class = avatar_class();
    let mut o = DistributedObject::new(1, 0, &class, 7);
    o.begin_generate().unwrap();
    o.set_field(0, b"a".to_vec()).unwrap();
    o.set_field(1, vec![0; 12]).unwrap();
    o.claim_ownership(100).unwrap();
    let before = o.values.clone();
    // A request handled at a participant that does not own the object is
    // forwarded toward the owner, with every field untouched.
    assert_eq!(
        o.handle_update(200, 0, b"intruder".to_vec()),
        Ok(UpdateDisposition::Forwarded(100))
    );
    assert_eq!(o.values, before);
    // After the owner relinquishes (the handoff gap), the request is
    // dropped for a diagnostic, still unapplied.
    o.relinquish().unwrap();
    assert_eq!(
        o.handle_update(100, 0, b"late".to_vec()),
        Ok(UpdateDisposition::Dropped)
    );
    assert_eq!(o.values, before);
    // The participant that actually owns the object applies the update.
    o.claim_ownership(300).unwrap();
    let got = o.handle_update(300, 2, vec![0, 1]).unwrap();
    assert_eq!(
        got,
        UpdateDisposition::Applied(Some(Notification::FieldUpdated {
            object_id: 1,
            zone: 7,
            field_id: 2,
        }))
    );
    assert_eq!(o.values[2], Some(vec![0, 1]));
}

#[test]
fn completions_pair_each_operation() {
    let op = DbOperation { object_id: 42, kind: OpKind::Read, payload: vec![] };
    let (oid, c) = completion_for(&op, BackendOutcome::Completed(vec![7]));
    assert_eq!(oid, 42);
    assert!(matches!(c, Completion::Success(ref b) if b == &vec![7]));
    let (_, c) = completion_for(&op, BackendOutcome::Rejected(PersistenceError::BackendFailure));
    assert!(matches!(c, Completion::Failure(PersistenceError::BackendFailure)));
    let (_, c) = completion_for(&op, BackendOutcome::TimedOut);
    assert!(matches!(c, Completion::Failure(PersistenceError::Timeout)));
}

#[test]
fn db_order_holds_over_prior_state() {
    let mut p = DbPipeline::new();
    // Arbitrary prior state: earlier work for the same and another object.
    p.submit(DbOperation { object_id: 1, kind: OpKind::Create, payload: vec![0] });
    p.submit(DbOperation { object_id: 3, kind: OpKind::Create, payload: vec![] });
    // The two operations whose order the contract pins down.
    p.submit(DbOperation { object_id: 1, kind: OpKind::Update, payload: vec![1] });
    p.submit(DbOperation { object_id: 1, kind: OpKind::Delete, payload: vec![2] });
    let a = p.complete(1).unwrap();
    let b = p.complete(1).unwrap();
    let c = p.complete(1).unwrap();
    assert_eq!(a.payload, vec![0]);
    assert_eq!(b.payload, vec![1]);
    assert_eq!(c.payload, vec![2]);
}

#[test]
fn db_operations_complete_in_submission_order() {
    let mut p = DbPipeline::new();
    p.submit(DbOperation { object_id: 1, kind: OpKind::Create, payload: vec![1] });
    p.submit(DbOperation { object_id: 2, kind: OpKind::Read, payload: vec![] });
    p.submit(DbOperation { object_id: 1, kind: OpKind::Update, payload: vec![2] });
    let first = p.complete(1).expect("object 1 has pending work");
    assert_eq!(first.kind, OpKind::Create);
    assert_eq!(first.payload, vec![1]);
    let second = p.complete(1).expect("object 1 still has pending work");
    assert_eq!(second.kind, OpKind::Update);
    assert_eq!(second.payload, vec![2]);
    assert!(p.complete(1).is_none());
    // The interleaved operation of another object was untouched.
    let other = p.complete(2).expect("object 2 has pending work");
    assert_eq!(other.kind, OpKind::Read);
    assert_eq!(p.pending(), 0);
}

#[test]
fn db_complete_on_empty_object_is_none() {
    let mut p = DbPipeline::new();
    assert!(p.complete(9).is_none());
    p.submit(DbOperation { object_id: 1, kind: OpKind::Delete, payload: vec![] });
    assert!(p.complete(9).is_none());
    assert_eq!(p.pending(), 1);
}
