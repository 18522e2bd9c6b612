//! Resource-table lifecycle, call-bridge discipline, and the module
//! registry.

use script_bridge::bridge::{drive_step, CallBridge, DriveOutcome, PromiseState};
use script_bridge::codec::{decode, encode};
use script_bridge::errors::ResourceError;
use script_bridge::registry::{host_module_names, init_host_modules, ModuleRegistry, RegistryError};
use script_bridge::resource::ResourceTable;
use script_bridge::schema::{FieldDecl, HandleMode, SchemaType};
use script_bridge::value::{EncodedValue, SchemaValue};

#[test]
fn resource_identity() {
    let mut table = ResourceTable::new();
    let id1 = table.register_or_lookup(None, 700);
    // The object now carries its identifier; registering it again returns
    // the same identifier.
    let id2 = table.register_or_lookup(Some(id1), 700);
    assert_eq!(id1, id2);
    assert_eq!(table.lookup(id1).unwrap(), 700);
    // After an enqueued drop is drained, the identifier no longer resolves.
    table.enqueue_drop(id1);
    table.drain_drops();
    assert_eq!(table.lookup(id1).unwrap_err(), ResourceError::NotFound(id1));
}

#[test]
fn identifiers_are_never_reused() {
    let mut table = ResourceTable::new();
    let id1 = table.register_or_lookup(None, 1);
    table.enqueue_drop(id1);
    table.drain_drops();
    let id2 = table.register_or_lookup(None, 2);
    assert_ne!(id1, id2);
}

#[test]
fn enqueue_does_not_remove() {
    let mut table = ResourceTable::new();
    let id = table.register_or_lookup(None, 5);
    table.enqueue_drop(id);
    assert_eq!(table.lookup(id).unwrap(), 5);
    assert!(table.is_live(id));
}

#[test]
fn no_premature_drop_in_nested_invocations() {
    let mut table = ResourceTable::new();
    let mut bridge = CallBridge::new();
    let id = table.register_or_lookup(None, 11);

    bridge.begin_invocation();
    // A nested invocation re-enters the bridge.
    bridge.begin_invocation();
    table.enqueue_drop(id);
    assert_eq!(table.lookup(id).unwrap(), 11);
    // The nested return must not drain.
    bridge.finish_invocation(&mut table);
    assert!(bridge.in_flight());
    assert_eq!(table.lookup(id).unwrap(), 11);
    assert_eq!(table.pending_count(), 1);
    // The outermost return drains.
    bridge.finish_invocation(&mut table);
    assert!(!bridge.in_flight());
    assert_eq!(table.pending_count(), 0);
    assert_eq!(table.lookup(id).unwrap_err(), ResourceError::NotFound(id));
}

#[test]
fn drive_decisions() {
    assert!(matches!(drive_step(PromiseState::Pending, true), DriveOutcome::Advance));
    assert!(matches!(drive_step(PromiseState::Pending, false), DriveOutcome::Stalled));
    let settled = drive_step(PromiseState::Resolved(EncodedValue::Number(4)), false);
    match settled {
        DriveOutcome::Settled(Ok(e)) => assert!(e == EncodedValue::Number(4)),
        _ => panic!("expected a settled success"),
    }
    let failed = drive_step(PromiseState::Rejected(EncodedValue::Text("no".to_string())), true);
    match failed {
        DriveOutcome::Settled(Err(e)) => assert!(e == EncodedValue::Text("no".to_string())),
        _ => panic!("expected a settled failure"),
    }
}

#[test]
fn end_to_end_invocation() {
    // An exported method takes a record {name: "x", count: 3} and a resource
    // handle; the implementation is asynchronous and resolves after one
    // scheduler tick.
    let record_ty = SchemaType::Record(vec![
        FieldDecl { name: "name".to_string(), ty: SchemaType::Text },
        FieldDecl { name: "count".to_string(), ty: SchemaType::U32 },
    ]);
    let handle_ty = SchemaType::Handle { mode: HandleMode::Borrowed };
    let ret_ty = SchemaType::Text;

    let mut table = ResourceTable::new();
    let mut bridge = CallBridge::new();
    let id = table.register_or_lookup(None, 900);

    // Step 1: marshal.
    bridge.begin_invocation();
    let record_arg = SchemaValue::Record(vec![
        SchemaValue::Text("x".to_string()),
        SchemaValue::U32(3),
    ]);
    let handle_arg = SchemaValue::Handle { id };
    let e_record = encode(&record_ty, &record_arg, &table).unwrap();
    assert!(
        e_record == EncodedValue::Object(vec![
            ("name".to_string(), EncodedValue::Text("x".to_string())),
            ("count".to_string(), EncodedValue::Number(3)),
        ])
    );
    let e_handle = encode(&handle_ty, &handle_arg, &table).unwrap();
    assert!(e_handle == EncodedValue::Resource { token: 900, id: Some(id) });

    // Steps 2-3: dispatch and drive. The handle is enqueued for release
    // while the call is in flight; it must keep resolving.
    table.enqueue_drop(id);
    assert_eq!(table.lookup(id).unwrap(), 900);
    assert!(matches!(drive_step(PromiseState::Pending, true), DriveOutcome::Advance));
    let outcome = drive_step(
        PromiseState::Resolved(EncodedValue::Text("done".to_string())),
        false,
    );
    let settled = match outcome {
        DriveOutcome::Settled(Ok(e)) => e,
        _ => panic!("the computation settled after one tick"),
    };

    // Step 4: unmarshal; no drain has happened yet.
    let result = decode(&ret_ty, &settled, &mut table).unwrap();
    assert!(result == SchemaValue::Text("done".to_string()));
    assert_eq!(table.pending_count(), 1);
    assert_eq!(table.lookup(id).unwrap(), 900);

    // Step 5: exactly one drain, after the result is captured.
    bridge.finish_invocation(&mut table);
    assert_eq!(table.pending_count(), 0);
    assert_eq!(table.lookup(id).unwrap_err(), ResourceError::NotFound(id));
}

#[test]
fn host_modules_register_without_collision() {
    let reg = init_host_modules().unwrap();
    assert_eq!(reg.len(), 6);
    for name in host_module_names().iter() {
        assert!(reg.is_registered(name));
    }
    assert!(!reg.is_registered(&"user-module".to_string()));
}

#[test]
fn duplicate_module_name_is_a_startup_error() {
    let mut reg = ModuleRegistry::new();
    assert!(reg.register("user-module".to_string()).is_ok());
    let r = reg.register("user-module".to_string());
    assert_eq!(
        r.unwrap_err(),
        RegistryError::DuplicateModule("user-module".to_string())
    );
    assert_eq!(reg.len(), 1);
}

#[test]
fn guest_module_declares_no_exports() {
    let module = script_bridge::registry::JsAgentGuestModule;
    assert_eq!(module.export_count(), 0);
}
