use crdt_sync::json::JsonValue;
use crdt_sync::proxy::StateProxy;
use crdt_sync::state_store::{Envelope, StateStore};

fn json<T: serde::Serialize>(value: T) -> JsonValue {
    JsonValue::parse(&serde_json::to_value(value).unwrap().to_string()).unwrap()
}

fn value<T: serde::de::DeserializeOwned>(value: Option<&JsonValue>) -> Option<T> {
    value.and_then(|v| serde_json::from_str(v.text()).ok())
}

/// A proxy with a method for each field.
struct RobotState<'a> {
    proxy: StateProxy<'a>,
}

impl<'a> RobotState<'a> {
    fn new(store: &'a mut StateStore) -> Self {
        Self { proxy: StateProxy::new(store) }
    }

    fn set_x(&mut self, value: f64) -> &mut Self {
        self.proxy.set("x", json(value));
        self
    }

    fn get_x(&self) -> Option<f64> {
        value(self.proxy.get("x"))
    }

    fn set_y(&mut self, value: f64) -> &mut Self {
        self.proxy.set("y", json(value));
        self
    }

    fn get_y(&self) -> Option<f64> {
        value(self.proxy.get("y"))
    }

    fn set_speed(&mut self, value: f64) -> &mut Self {
        self.proxy.set("speed", json(value));
        self
    }

    fn get_speed(&self) -> Option<f64> {
        value(self.proxy.get("speed"))
    }

    fn set_name(&mut self, value: String) -> &mut Self {
        self.proxy.set("name", json(value));
        self
    }

    fn get_name(&self) -> Option<String> {
        value(self.proxy.get("name"))
    }

    fn set_active(&mut self, value: bool) -> &mut Self {
        self.proxy.set("active", json(value));
        self
    }

    fn get_active(&self) -> Option<bool> {
        value(self.proxy.get("active"))
    }

    fn drain_pending(&mut self) -> Vec<Envelope> {
        self.proxy.drain_pending()
    }

    fn pending_count(&self) -> usize {
        self.proxy.pending_count()
    }

    fn store(&self) -> &StateStore {
        self.proxy.store()
    }
}

#[test]
fn set_stores_value_locally() {
    let mut store = StateStore::new("n1");
    let mut state = RobotState::new(&mut store);
    state.set_x(10.0);
    assert_eq!(state.get_x(), Some(10.0));
}

#[test]
fn get_returns_none_before_set() {
    let mut store = StateStore::new("n1");
    let state = RobotState::new(&mut store);
    assert_eq!(state.get_x(), None);
}

#[test]
fn set_returns_self_for_chaining() {
    let mut store = StateStore::new("n1");
    let mut state = RobotState::new(&mut store);
    state.set_x(1.0).set_y(2.0).set_speed(3.0);
    assert_eq!(state.get_x(), Some(1.0));
    assert_eq!(state.get_y(), Some(2.0));
    assert_eq!(state.get_speed(), Some(3.0));
}

#[test]
fn set_queues_crdt_operation() {
    let mut store = StateStore::new("n1");
    let mut state = RobotState::new(&mut store);
    state.set_x(5.0);
    assert_eq!(state.pending_count(), 1);
}

#[test]
fn multiple_sets_queue_all_operations() {
    let mut store = StateStore::new("n1");
    let mut state = RobotState::new(&mut store);
    state.set_x(1.0).set_y(2.0).set_speed(3.0);
    assert_eq!(state.pending_count(), 3);
}

#[test]
fn drain_pending_returns_correct_count() {
    let mut store = StateStore::new("n1");
    let mut state = RobotState::new(&mut store);
    state.set_x(1.0).set_y(2.0);
    let ops = state.drain_pending();
    assert_eq!(ops.len(), 2);
}

#[test]
fn drain_pending_clears_the_queue() {
    let mut store = StateStore::new("n1");
    let mut state = RobotState::new(&mut store);
    state.set_x(1.0);
    state.drain_pending();
    assert_eq!(state.pending_count(), 0);
}

#[test]
fn ops_sync_to_peer_store() {
    let mut store_a = StateStore::new("A");
    let mut store_b = StateStore::new("B");

    let ops = {
        let mut state = RobotState::new(&mut store_a);
        state.set_x(10.0).set_y(20.0).set_name("robot-1".to_string());
        state.drain_pending()
    };

    for env in ops {
        store_b.apply_envelope(env);
    }

    assert_eq!(value::<f64>(store_b.get_register("x")), Some(10.0));
    assert_eq!(value::<f64>(store_b.get_register("y")), Some(20.0));
    assert_eq!(
        value::<String>(store_b.get_register("name")),
        Some("robot-1".to_string())
    );
}

#[test]
fn string_field_round_trips() {
    let mut store = StateStore::new("n1");
    let mut state = RobotState::new(&mut store);
    state.set_name("hello".to_string());
    assert_eq!(state.get_name(), Some("hello".to_string()));
}

#[test]
fn bool_field_round_trips() {
    let mut store = StateStore::new("n1");
    let mut state = RobotState::new(&mut store);
    state.set_active(true);
    assert_eq!(state.get_active(), Some(true));
}

#[test]
fn store_accessor_reflects_mutations() {
    let mut store = StateStore::new("n1");
    let mut state = RobotState::new(&mut store);
    state.set_speed(99.0);
    assert_eq!(value::<f64>(state.store().get_register("speed")), Some(99.0));
}

#[test]
fn successive_drain_calls_accumulate_separately() {
    let mut store = StateStore::new("n1");
    let mut state = RobotState::new(&mut store);

    state.set_x(1.0);
    let batch1 = state.drain_pending();
    assert_eq!(batch1.len(), 1);

    state.set_y(2.0).set_speed(3.0);
    let batch2 = state.drain_pending();
    assert_eq!(batch2.len(), 2);

    assert_eq!(state.pending_count(), 0);
}

#[test]
fn two_node_scenario() {
    let mut store_a = StateStore::new("node-A");
    let mut store_b = StateStore::new("node-B");

    let ops = {
        let mut state = RobotState::new(&mut store_a);
        state
            .set_x(3.0)
            .set_y(4.0)
            .set_speed(5.0)
            .set_name("unit-7".to_string())
            .set_active(true);
        state.drain_pending()
    };

    for env in ops {
        store_b.apply_envelope(env);
    }

    assert_eq!(value::<f64>(store_b.get_register("x")), Some(3.0));
    assert_eq!(value::<f64>(store_b.get_register("y")), Some(4.0));
    assert_eq!(value::<f64>(store_b.get_register("speed")), Some(5.0));
    assert_eq!(
        value::<String>(store_b.get_register("name")),
        Some("unit-7".to_string())
    );
    assert_eq!(value::<bool>(store_b.get_register("active")), Some(true));
}
