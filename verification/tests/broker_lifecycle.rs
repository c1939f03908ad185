use swiboe::broker::{Broker, Event};
use swiboe::handle::{Handle, RecvOutcome};
use swiboe::rpc::{Frame, RpcError, RpcResult};

const GUI: u64 = 1;
const PLUGIN: u64 = 2;

#[test]
fn unary_call_delivers_single_result() {
    // A client calls "buffer.open"; the handler emits no updates and one
    // successful return; wait_for yields exactly that result.
    let mut broker = Broker::new();
    let acks = broker.handle_register(PLUGIN, "buffer.open");
    assert_eq!(acks.len(), 1);
    assert_eq!(acks[0].to, PLUGIN);
    assert_eq!(acks[0].frame, Frame::RegisterAck { result: RpcResult::Value(String::new()) });

    let (call_id, ds) = broker.handle_call(GUI, "buffer.open", "{\"uri\":\"a.txt\"}");
    assert_eq!(ds.len(), 1);
    assert_eq!(ds[0].to, PLUGIN);
    assert_eq!(
        ds[0].frame,
        Frame::Call {
            call_id,
            method: "buffer.open".to_string(),
            args: "{\"uri\":\"a.txt\"}".to_string(),
        }
    );

    let ds = broker.handle_return(PLUGIN, call_id, RpcResult::Value("{\"id\":1}".to_string()));
    assert_eq!(ds.len(), 1);
    assert_eq!(ds[0].to, GUI);

    let mut handle = Handle::new(call_id);
    match &ds[0].frame {
        Frame::Return { call_id: id, result } => {
            assert_eq!(*id, call_id);
            handle.on_return(result.duplicate());
        }
        other => panic!("expected a Return frame, got {:?}", other),
    }
    assert_eq!(handle.wait_for(), Some(RpcResult::Value("{\"id\":1}".to_string())));
    assert_eq!(handle.wait_for(), None);
}

#[test]
fn streaming_call_delivers_updates_then_finishes() {
    // Three updates, then the terminal return: three pulls yield the updates
    // in order, the fourth observes the end, exactly once.
    let mut broker = Broker::new();
    broker.handle_register(PLUGIN, "list_files");
    let (call_id, _) = broker.handle_call(GUI, "list_files", "{\"directory\":\"/tmp\"}");

    let mut handle = Handle::new(call_id);
    for batch in ["{\"files\":[\"a\"]}", "{\"files\":[\"b\"]}", "{\"files\":[\"c\"]}"] {
        let ds = broker.handle_update(PLUGIN, call_id, batch);
        assert_eq!(ds.len(), 1);
        assert_eq!(ds[0].to, GUI);
        match &ds[0].frame {
            Frame::Update { payload, .. } => handle.on_update(payload.clone()),
            other => panic!("expected an Update frame, got {:?}", other),
        }
    }
    let ds = broker.handle_return(PLUGIN, call_id, RpcResult::Value("{}".to_string()));
    match &ds[0].frame {
        Frame::Return { result, .. } => handle.on_return(result.duplicate()),
        other => panic!("expected a Return frame, got {:?}", other),
    }

    for expected in ["{\"files\":[\"a\"]}", "{\"files\":[\"b\"]}", "{\"files\":[\"c\"]}"] {
        match handle.recv() {
            RecvOutcome::Update(p) => assert_eq!(p, expected),
            _ => panic!("expected an update"),
        }
    }
    assert!(matches!(handle.recv(), RecvOutcome::Finished));
    assert!(matches!(handle.recv(), RecvOutcome::NotReady));
}

#[test]
fn cancel_suppresses_further_updates() {
    // The client cancels after the first update: the callee is told to stop,
    // later updates are dropped by the broker, the handle never shows another
    // update, and the forced timeout resolves the call as Cancelled.
    let mut broker = Broker::new();
    broker.handle_register(PLUGIN, "slow.stream");
    let (call_id, _) = broker.handle_call(GUI, "slow.stream", "{}");

    let mut handle = Handle::new(call_id);
    let ds = broker.handle_update(PLUGIN, call_id, "first");
    match &ds[0].frame {
        Frame::Update { payload, .. } => handle.on_update(payload.clone()),
        other => panic!("expected an Update frame, got {:?}", other),
    }
    match handle.recv() {
        RecvOutcome::Update(p) => assert_eq!(p, "first"),
        _ => panic!("expected the first update"),
    }

    let ds = broker.handle_cancel(GUI, call_id);
    assert_eq!(ds.len(), 1);
    assert_eq!(ds[0].to, PLUGIN);
    assert_eq!(ds[0].frame, Frame::Cancel { call_id });
    handle.cancel();

    // An update still in flight is dropped by the broker, not forwarded.
    let ds = broker.handle_update(PLUGIN, call_id, "late");
    assert!(ds.is_empty());

    // The callee never returns; the broker's bound forces Cancelled.
    let ds = broker.cancel_timeout(call_id);
    assert_eq!(ds.len(), 1);
    assert_eq!(ds[0].to, GUI);
    match &ds[0].frame {
        Frame::Return { result, .. } => {
            assert_eq!(*result, RpcResult::Error(RpcError::Cancelled));
            handle.on_return(result.duplicate());
        }
        other => panic!("expected a Return frame, got {:?}", other),
    }
    assert!(matches!(handle.recv(), RecvOutcome::Finished));
    assert!(!matches!(handle.recv(), RecvOutcome::Update(_)));
}

#[test]
fn unregistered_method_fails_fast() {
    // Calling a method nobody owns yields NoSuchMethod at once, and the call
    // table keeps no entry: a later return for that id is ignored.
    let mut broker = Broker::new();
    let (call_id, ds) = broker.handle_call(GUI, "no.such.method", "{}");
    assert_eq!(ds.len(), 1);
    assert_eq!(ds[0].to, GUI);
    assert_eq!(
        ds[0].frame,
        Frame::Return { call_id, result: RpcResult::Error(RpcError::NoSuchMethod) }
    );

    let ds = broker.handle_return(PLUGIN, call_id, RpcResult::Value("{}".to_string()));
    assert!(ds.is_empty());
}

#[test]
fn callee_disconnect_resolves_all_its_calls() {
    // Two clients are mid-call against the same plugin when it vanishes:
    // each caller hears PeerGone for its own call, and the entries are gone.
    let other_client: u64 = 3;
    let mut broker = Broker::new();
    broker.handle_register(PLUGIN, "list_files");
    let (id_a, _) = broker.handle_call(GUI, "list_files", "{}");
    let (id_b, _) = broker.handle_call(other_client, "list_files", "{}");
    assert!(broker.handle_update(PLUGIN, id_a, "partial").len() == 1);

    let ds = broker.handle_disconnect(PLUGIN);
    assert_eq!(ds.len(), 2);
    assert_eq!(ds[0].to, GUI);
    assert_eq!(
        ds[0].frame,
        Frame::Return { call_id: id_a, result: RpcResult::Error(RpcError::PeerGone) }
    );
    assert_eq!(ds[1].to, other_client);
    assert_eq!(
        ds[1].frame,
        Frame::Return { call_id: id_b, result: RpcResult::Error(RpcError::PeerGone) }
    );

    // No leaked entries: frames for the dead calls are ignored now.
    assert!(broker.handle_update(PLUGIN, id_a, "late").is_empty());
    assert!(broker.handle_return(PLUGIN, id_b, RpcResult::Value("{}".to_string())).is_empty());
}

#[test]
fn caller_disconnect_cancels_its_calls() {
    // When the caller vanishes mid-call, the callee is told to cancel and
    // the entry is removed.
    let mut broker = Broker::new();
    broker.handle_register(PLUGIN, "slow.stream");
    let (call_id, _) = broker.handle_call(GUI, "slow.stream", "{}");

    let ds = broker.handle_disconnect(GUI);
    assert_eq!(ds.len(), 1);
    assert_eq!(ds[0].to, PLUGIN);
    assert_eq!(ds[0].frame, Frame::Cancel { call_id });
    assert!(broker.handle_update(PLUGIN, call_id, "late").is_empty());
}

#[test]
fn register_conflict_and_release() {
    // A second registration for a name fails with AlreadyRegistered while
    // the first owner lives; once that owner disconnects, the name is free.
    let mut broker = Broker::new();
    let ds = broker.handle_register(PLUGIN, "buffer.open");
    assert_eq!(ds[0].frame, Frame::RegisterAck { result: RpcResult::Value(String::new()) });

    let intruder: u64 = 3;
    let ds = broker.handle_register(intruder, "buffer.open");
    assert_eq!(ds[0].to, intruder);
    assert_eq!(
        ds[0].frame,
        Frame::RegisterAck { result: RpcResult::Error(RpcError::AlreadyRegistered) }
    );
    assert_eq!(broker.resolve("buffer.open"), Some(PLUGIN));

    broker.handle_disconnect(PLUGIN);
    assert_eq!(broker.resolve("buffer.open"), None);

    let ds = broker.handle_register(intruder, "buffer.open");
    assert_eq!(ds[0].frame, Frame::RegisterAck { result: RpcResult::Value(String::new()) });
    assert_eq!(broker.resolve("buffer.open"), Some(intruder));
}

#[test]
fn call_ids_are_never_reused() {
    let mut broker = Broker::new();
    broker.handle_register(PLUGIN, "m");
    let (a, _) = broker.handle_call(GUI, "m", "{}");
    broker.handle_return(PLUGIN, a, RpcResult::Value("{}".to_string()));
    let (b, _) = broker.handle_call(GUI, "m", "{}");
    let (c, _) = broker.handle_call(GUI, "missing", "{}");
    assert!(a != b && b != c && a != c);
}

#[test]
fn handler_error_passes_through_verbatim() {
    let mut broker = Broker::new();
    broker.handle_register(PLUGIN, "m");
    let (id, _) = broker.handle_call(GUI, "m", "{}");
    let ds = broker.handle_return(
        PLUGIN,
        id,
        RpcResult::Error(RpcError::HandlerError("disk on fire".to_string())),
    );
    assert_eq!(ds[0].to, GUI);
    assert_eq!(
        ds[0].frame,
        Frame::Return {
            call_id: id,
            result: RpcResult::Error(RpcError::HandlerError("disk on fire".to_string())),
        }
    );
}

#[test]
fn only_participants_may_steer_a_call() {
    // A Cancel from someone other than the caller, and an Update or Return
    // from someone other than the callee, are ignored.
    let stranger: u64 = 9;
    let mut broker = Broker::new();
    broker.handle_register(PLUGIN, "m");
    let (id, _) = broker.handle_call(GUI, "m", "{}");

    assert!(broker.handle_cancel(stranger, id).is_empty());
    assert!(broker.handle_update(stranger, id, "x").is_empty());
    assert!(broker.handle_return(stranger, id, RpcResult::Value("{}".to_string())).is_empty());
    // The call is still alive for its real callee.
    assert_eq!(broker.handle_return(PLUGIN, id, RpcResult::Value("{}".to_string())).len(), 1);
}

#[test]
fn step_drives_the_same_transitions() {
    // The event-dispatch entry point behaves as the individual handlers do.
    let mut broker = Broker::new();
    broker.step(Event::Register { owner: PLUGIN, method: "m".to_string() });
    let ds = broker.step(Event::Call { caller: GUI, method: "m".to_string(), args: "{}".to_string() });
    let call_id = match &ds[0].frame {
        Frame::Call { call_id, .. } => *call_id,
        other => panic!("expected a Call frame, got {:?}", other),
    };
    let ds = broker.step(Event::Update { from: PLUGIN, call_id, payload: "u".to_string() });
    assert_eq!(ds.len(), 1);
    let ds = broker.step(Event::Disconnect { conn: PLUGIN });
    assert_eq!(ds.len(), 1);
    assert_eq!(ds[0].to, GUI);
    assert_eq!(
        ds[0].frame,
        Frame::Return { call_id, result: RpcResult::Error(RpcError::PeerGone) }
    );
}

#[test]
fn deregister_all_frees_only_that_owner() {
    let other: u64 = 3;
    let mut broker = Broker::new();
    broker.handle_register(PLUGIN, "buffer.open");
    broker.handle_register(PLUGIN, "buffer.close");
    broker.handle_register(other, "list_files");
    let (call_id, _) = broker.handle_call(GUI, "list_files", "{}");

    broker.deregister_all(PLUGIN);
    assert_eq!(broker.resolve("buffer.open"), None);
    assert_eq!(broker.resolve("buffer.close"), None);
    assert_eq!(broker.resolve("list_files"), Some(other));
    // Deregistration leaves in-flight calls untouched.
    assert_eq!(broker.handle_return(other, call_id, RpcResult::Value("{}".to_string())).len(), 1);
}
