use playground::client::{run_benchmark, ClientCall, Component};
use playground::registry::Registry;
use playground::relay::SharedState;

fn two_components() -> Registry {
    let names = vec!["server".to_string(), "client".to_string()];
    Registry::load(&names, &vec![true, true])
}

#[test]
fn client_call_is_relayed_to_server_and_answered() {
    let reg = two_components();
    let mut st = SharedState::new();
    st.enter("client".to_string());
    let id = st.rpc_call("server".to_string(), "ready_to_spawn".to_string(), "player1".to_string());
    assert_eq!(id, 1);
    let plan = st.relay(&reg);
    assert_eq!(plan.len(), 1);
    let d = &plan[0];
    assert_eq!(d.target, reg.lookup(&"server".to_string()).unwrap());
    assert_eq!(d.request.from, "client");
    assert_eq!(d.request.method, "ready_to_spawn");
    assert_eq!(d.request.args, "player1");
    assert_eq!(d.request.id, 1);
    assert_eq!(d.caller, Some(1));
    assert!(st.relay(&reg).is_empty());
}

#[test]
fn rpc_ids_increase_across_callers() {
    let mut st = SharedState::new();
    st.enter("a".to_string());
    let x = st.rpc_call("b".to_string(), "m".to_string(), "".to_string());
    st.enter("b".to_string());
    let y = st.rpc_call("a".to_string(), "m".to_string(), "".to_string());
    let reg = Registry::new();
    st.relay(&reg);
    let z = st.rpc_call("a".to_string(), "m".to_string(), "".to_string());
    assert!(x < y && y < z);
    assert_eq!((x, y, z), (1, 2, 3));
    assert_eq!(st.next_rpc_id(), 4);
}

#[test]
fn requests_are_dispatched_in_registration_order() {
    let names = vec!["A".to_string(), "B".to_string()];
    let reg = Registry::load(&names, &vec![true, true]);
    let mut st = SharedState::new();
    for i in 0..reg.len() {
        let (name, _) = reg.entry(i);
        st.enter(name.clone());
        st.rpc_call("A".to_string(), "ping".to_string(), name.clone());
    }
    let plan = st.relay(&reg);
    assert_eq!(plan.len(), 2);
    assert_eq!(plan[0].request.from, "A");
    assert_eq!(plan[1].request.from, "B");
    assert!(plan[0].request.id < plan[1].request.id);
}

#[test]
fn missing_target_is_dropped_and_missing_caller_gets_no_answer() {
    let reg = two_components();
    let mut st = SharedState::new();
    st.enter("client".to_string());
    st.rpc_call("nobody".to_string(), "m".to_string(), "".to_string());
    st.enter("ghost".to_string());
    st.rpc_call("server".to_string(), "m".to_string(), "".to_string());
    let plan = st.relay(&reg);
    assert_eq!(plan.len(), 1);
    assert_eq!(plan[0].request.id, 2);
    assert_eq!(plan[0].target, 0);
    assert_eq!(plan[0].caller, None);
}

#[test]
fn calls_queued_during_a_pass_wait_for_the_next() {
    let reg = two_components();
    let mut st = SharedState::new();
    st.enter("client".to_string());
    st.rpc_call("server".to_string(), "m".to_string(), "".to_string());
    let first = st.relay(&reg);
    st.enter("server".to_string());
    st.rpc_call("client".to_string(), "n".to_string(), "".to_string());
    assert_eq!(first.len(), 1);
    let second = st.relay(&reg);
    assert_eq!(second.len(), 1);
    assert_eq!(second[0].request.id, 2);
    assert_eq!(second[0].target, 1);
    assert_eq!(second[0].caller, Some(0));
}

#[test]
fn current_component_is_tracked() {
    let mut st = SharedState::new();
    assert_eq!(st.current_component(), "");
    st.enter("server".to_string());
    assert_eq!(st.current_component(), "server");
}

#[test]
fn failed_load_leaves_component_out() {
    let names = vec!["server".to_string(), "broken".to_string(), "client".to_string()];
    let reg = Registry::load(&names, &vec![true, false, true]);
    assert_eq!(reg.len(), 2);
    assert_eq!(reg.lookup(&"server".to_string()), Some(0));
    assert_eq!(reg.lookup(&"client".to_string()), Some(2));
    assert_eq!(reg.lookup(&"broken".to_string()), None);
    let (first, slot) = reg.entry(1);
    assert_eq!((first.as_str(), slot), ("client", 2));
}

#[test]
fn duplicate_name_takes_the_later_slot() {
    let names = vec!["a".to_string(), "b".to_string(), "a".to_string()];
    let reg = Registry::load(&names, &vec![true, true, true]);
    assert_eq!(reg.len(), 2);
    assert_eq!(reg.lookup(&"a".to_string()), Some(2));
    let (first, _) = reg.entry(0);
    assert_eq!(first, "a");
}

#[test]
fn client_asks_for_spawn_on_first_tick_only() {
    let mut c = Component::new();
    let calls = c.process("tick:1");
    assert_eq!(calls.len(), 2);
    assert!(matches!(calls[0], ClientCall::ReadEntities));
    match &calls[1] {
        ClientCall::Rpc { target, method, args } => {
            assert_eq!(target, "server");
            assert_eq!(method, "ready_to_spawn");
            assert_eq!(args, "player1");
        }
        other => panic!("unexpected {:?}", other),
    }
    assert!(c.process("tick:2").is_empty());
    assert!(c.process("tick:10").is_empty());
    assert!(c.process("tick:01").is_empty());
    assert!(!c.on_rpc_response(1));
    c.record_spawn_request(1);
    assert!(c.on_rpc_response(1));
    assert!(!c.on_rpc_response(2));
}

#[test]
fn client_answers_requests() {
    let r = Component::on_rpc_request("ping", "abc");
    assert_eq!(r.reply, "pong:abc");
    assert!(!r.run_benchmark);
    let r = Component::on_rpc_request("run_benchmark", "");
    assert_eq!(r.reply, "ok");
    assert!(r.run_benchmark);
    let r = Component::on_rpc_request("dance", "x");
    assert_eq!(r.reply, "error:unknown_method");
    assert!(!r.run_benchmark);
}

#[test]
fn benchmark_runs_each_configuration() {
    let reports = run_benchmark(|size, iterations| size as u64 * 1000 + iterations as u64);
    assert_eq!(reports.len(), 3);
    assert_eq!((reports[0].size, reports[0].iterations, reports[0].ops), (64, 100, 52428800));
    assert_eq!((reports[1].size, reports[1].iterations, reports[1].ops), (128, 50, 209715200));
    assert_eq!((reports[2].size, reports[2].iterations, reports[2].ops), (256, 10, 335544320));
    assert_eq!(reports[0].nanos, 64100);
    assert_eq!(reports[2].nanos, 256010);
}

#[test]
fn many_calls_get_consecutive_ids() {
    let reg = two_components();
    let mut st = SharedState::new();
    let mut last = 0;
    for k in 0..50u64 {
        let who = if k % 2 == 0 { "client" } else { "server" };
        st.enter(who.to_string());
        let id = st.rpc_call("server".to_string(), "m".to_string(), k.to_string());
        assert_eq!(id, last + 1);
        last = id;
        if k % 7 == 0 {
            st.relay(&reg);
        }
    }
}
