use fan_graph::cli::{Args, PathError};
use fan_graph::hardware::{Command, HardwareError, Readings};
use fan_graph::node::{
    Aggregation, Control, Coord, CustomTemp, Curve, Fan, Flat, Input, Linear, Node, NodeType,
    Nodes, Target, Temp,
};
use fan_graph::update::{Update, UpdateError};

fn node(id: u64, inputs: Vec<u64>, node_type: NodeType) -> Node {
    Node {
        id,
        name: format!("n{}", id),
        inputs: inputs
            .into_iter()
            .map(|i| Input { id: i, name: format!("n{}", i) })
            .collect(),
        node_type,
        value: None,
    }
}

fn temp(id: u64, hw: u64) -> Node {
    node(id, vec![], NodeType::Temp(Temp { hardware_id: Some(hw) }))
}

fn control(id: u64, input: u64, hw: u64) -> Node {
    node(
        id,
        vec![input],
        NodeType::Control(Control { hardware_id: Some(hw), active: true }),
    )
}

fn linear(id: u64, input: u64) -> Node {
    node(
        id,
        vec![input],
        NodeType::Linear(Linear { min_temp: 30, min_speed: 20, max_temp: 60, max_speed: 100 }),
    )
}

fn store(ns: Vec<Node>) -> Nodes {
    let mut s = Nodes::new();
    for n in ns {
        assert!(s.insert(n));
    }
    s
}

#[test]
fn linear_chain_writes_truncated_speed() {
    // Temp reads 40; Linear maps 30..60 onto 20..100; 20 + 10*80/30 = 46.
    let mut nodes = store(vec![temp(1, 10), linear(2, 1), control(3, 2, 20)]);
    let mut readings = Readings::new();
    readings.push(10, 40);
    let mut u = Update::new();
    let cmds = u.graph(&mut nodes, &readings, &vec![3]).unwrap();
    assert_eq!(nodes.value_of(1), Some(40));
    assert_eq!(nodes.value_of(2), Some(46));
    assert_eq!(nodes.value_of(3), Some(46));
    assert_eq!(cmds, vec![Command::SetSpeed { id: 3, hardware_id: 20, speed: 46 }]);
}

#[test]
fn arity_mismatch_falls_back_to_auto() {
    // Same graph, but the Linear node's inputs list is emptied.
    let bad_linear = node(
        2,
        vec![],
        NodeType::Linear(Linear { min_temp: 30, min_speed: 20, max_temp: 60, max_speed: 100 }),
    );
    let mut nodes = store(vec![temp(1, 10), bad_linear, control(3, 2, 20)]);
    let mut readings = Readings::new();
    readings.push(10, 40);
    let mut u = Update::new();
    let cmds = u.graph(&mut nodes, &readings, &vec![3]).unwrap();
    assert_eq!(nodes.value_of(1), None);
    assert_eq!(nodes.value_of(2), None);
    assert_eq!(nodes.value_of(3), None);
    assert_eq!(cmds, vec![Command::SetAuto { id: 3, hardware_id: 20 }]);
    assert!(!cmds.iter().any(|c| matches!(c, Command::SetSpeed { .. })));
}

#[test]
fn custom_temp_max_aggregates() {
    let agg = node(3, vec![1, 2], NodeType::CustomTemp(CustomTemp { kind: Aggregation::Max }));
    let mut nodes = store(vec![temp(1, 10), temp(2, 11), agg, control(4, 3, 20)]);
    let mut readings = Readings::new();
    readings.push(10, 40);
    readings.push(11, 55);
    let mut u = Update::new();
    let cmds = u.graph(&mut nodes, &readings, &vec![4]).unwrap();
    assert_eq!(nodes.value_of(3), Some(55));
    assert_eq!(cmds, vec![Command::SetSpeed { id: 4, hardware_id: 20, speed: 55 }]);
}

#[test]
fn dangling_input_aborts_tick() {
    // The control's input identifier points to a node that was deleted.
    let mut nodes = store(vec![temp(1, 10), control(3, 2, 20)]);
    let mut readings = Readings::new();
    readings.push(10, 40);
    let mut u = Update::new();
    let r = u.graph(&mut nodes, &readings, &vec![3]);
    assert_eq!(r, Err(UpdateError::NodeNotFound));
    assert_eq!(nodes.value_of(1), None);
    assert_eq!(nodes.value_of(3), None);
}

#[test]
fn missing_reading_is_hardware_error() {
    let mut nodes = store(vec![temp(1, 10), control(3, 1, 20)]);
    let readings = Readings::new();
    let mut u = Update::new();
    let r = u.graph(&mut nodes, &readings, &vec![3]);
    assert_eq!(r, Err(UpdateError::Hardware(HardwareError::SensorNotFound)));
}

#[test]
fn shared_root_evaluated_once() {
    // The same control listed twice among the roots gets one speed command.
    let mut nodes = store(vec![temp(1, 10), linear(2, 1), control(3, 2, 20)]);
    let mut readings = Readings::new();
    readings.push(10, 40);
    let mut u = Update::new();
    let cmds = u.graph(&mut nodes, &readings, &vec![3, 3]).unwrap();
    let speeds: Vec<_> =
        cmds.iter().filter(|c| matches!(c, Command::SetSpeed { .. })).collect();
    assert_eq!(speeds.len(), 1);
}

#[test]
fn shared_sensor_feeds_two_roots() {
    let mut nodes = store(vec![
        temp(1, 10),
        linear(2, 1),
        linear(3, 1),
        control(4, 2, 20),
        control(5, 3, 21),
    ]);
    let mut readings = Readings::new();
    readings.push(10, 40);
    let mut u = Update::new();
    let cmds = u.graph(&mut nodes, &readings, &vec![4, 5]).unwrap();
    assert_eq!(cmds.len(), 2);
    assert!(cmds.contains(&Command::SetSpeed { id: 4, hardware_id: 20, speed: 46 }));
    assert!(cmds.contains(&Command::SetSpeed { id: 5, hardware_id: 21, speed: 46 }));
}

#[test]
fn two_ticks_same_readings_same_values() {
    // Target in its hysteresis band: first tick settles on the idle speed,
    // the second keeps every value unchanged.
    let tg = node(
        2,
        vec![1],
        NodeType::Target(Target { idle_temp: 30, idle_speed: 20, load_temp: 60, load_speed: 100 }),
    );
    let mut nodes = store(vec![temp(1, 10), tg, control(3, 2, 20)]);
    let mut readings = Readings::new();
    readings.push(10, 45);
    let mut u = Update::new();
    let cmds1 = u.graph(&mut nodes, &readings, &vec![3]).unwrap();
    let v1: Vec<_> = (1..=3).map(|i| nodes.value_of(i)).collect();
    let cmds2 = u.graph(&mut nodes, &readings, &vec![3]).unwrap();
    let v2: Vec<_> = (1..=3).map(|i| nodes.value_of(i)).collect();
    assert_eq!(v1, v2);
    assert_eq!(cmds1, cmds2);
    assert_eq!(nodes.value_of(2), Some(20));
}

#[test]
fn validate_reports_trace_and_verdict() {
    let nodes = store(vec![temp(1, 10), linear(2, 1), control(3, 2, 20)]);
    let root = match nodes.get(3) {
        Some(n) => n,
        None => panic!("root missing"),
    };
    let (ok, trace) = root.validate(&nodes).unwrap();
    assert!(ok);
    assert_eq!(trace, vec![3, 2, 1]);
}

#[test]
fn validate_rejects_cycle_without_crashing() {
    // A node that names itself as input: flagged invalid, not a hang.
    let selfref = node(1, vec![1], NodeType::CustomTemp(CustomTemp { kind: Aggregation::Min }));
    let nodes = store(vec![selfref, control(2, 1, 20)]);
    let root = nodes.get(2).unwrap();
    let (ok, _trace) = root.validate(&nodes).unwrap();
    assert!(!ok);
}

#[test]
fn validate_missing_input_is_hard_error() {
    let nodes = store(vec![control(2, 1, 20)]);
    let root = nodes.get(2).unwrap();
    assert_eq!(root.validate(&nodes).unwrap_err(), UpdateError::NodeNotFound);
}

#[test]
fn inactive_control_is_invalid() {
    let c = node(2, vec![1], NodeType::Control(Control { hardware_id: Some(20), active: false }));
    assert!(!c.is_valid());
    assert!(control(2, 1, 20).is_valid());
}

#[test]
fn flat_drives_constant_speed() {
    let flat = node(1, vec![], NodeType::Flat(Flat { value: 46 }));
    let mut nodes = store(vec![flat, control(2, 1, 20)]);
    let readings = Readings::new();
    let mut u = Update::new();
    let cmds = u.graph(&mut nodes, &readings, &vec![2]).unwrap();
    assert_eq!(nodes.value_of(1), Some(46));
    assert_eq!(cmds, vec![Command::SetSpeed { id: 2, hardware_id: 20, speed: 46 }]);
}

#[test]
fn fan_node_reports_tachometer() {
    let fan = node(1, vec![], NodeType::Fan(Fan { hardware_id: Some(7) }));
    let nodes = store(vec![fan]);
    let mut readings = Readings::new();
    readings.push(7, 1200);
    let n = nodes.get(1).unwrap();
    let (v, cmd) = n.update(&nodes, &readings).unwrap();
    assert_eq!(v, 1200);
    assert_eq!(cmd, None);
}

#[test]
fn update_value_is_none_error() {
    let mut nodes = store(vec![temp(1, 10), linear(2, 1)]);
    let readings = Readings::new();
    let n = nodes.get(2).unwrap();
    assert_eq!(n.update(&nodes, &readings).unwrap_err(), UpdateError::ValueIsNone);
}

#[test]
fn update_missing_node_error() {
    let nodes = store(vec![linear(2, 1)]);
    let readings = Readings::new();
    let n = nodes.get(2).unwrap();
    assert_eq!(n.update(&nodes, &readings).unwrap_err(), UpdateError::NodeNotFound);
}

#[test]
fn update_no_input_data_error() {
    let agg = node(1, vec![], NodeType::CustomTemp(CustomTemp { kind: Aggregation::Average }));
    let nodes = store(vec![agg]);
    let readings = Readings::new();
    let n = nodes.get(1).unwrap();
    assert_eq!(n.update(&nodes, &readings).unwrap_err(), UpdateError::NoInputData);
}

#[test]
fn update_invalid_node_error() {
    let bad = node(
        2,
        vec![1],
        NodeType::Linear(Linear { min_temp: 30, min_speed: 90, max_temp: 60, max_speed: 10 }),
    );
    let mut nodes = store(vec![temp(1, 10), bad]);
    nodes.set_value(1, 40);
    let readings = Readings::new();
    let n = nodes.get(2).unwrap();
    assert_eq!(n.update(&nodes, &readings).unwrap_err(), UpdateError::NodeIsInvalid);
}

#[test]
fn insert_refuses_duplicate_id() {
    let mut nodes = store(vec![temp(1, 10)]);
    assert!(!nodes.insert(temp(1, 11)));
    assert!(nodes.insert(temp(2, 11)));
    assert_eq!(nodes.len(), 2);
}

#[test]
fn clear_cache_keeps_engine_usable() {
    let mut u = Update::new();
    u.clear_cache();
    let mut nodes = store(vec![temp(1, 10), control(2, 1, 20)]);
    let mut readings = Readings::new();
    readings.push(10, 35);
    assert!(u.graph(&mut nodes, &readings, &vec![2]).is_ok());
}

#[test]
fn config_dir_path_rules() {
    assert_eq!(
        Args::validate_config_dir_path(false, Ok(true)),
        Err(PathError::NotADirectory)
    );
    assert_eq!(Args::validate_config_dir_path(true, Ok(true)), Ok(()));
    assert_eq!(
        Args::validate_config_dir_path(true, Ok(false)),
        Err(PathError::NotEmpty)
    );
    assert!(matches!(
        Args::validate_config_dir_path(true, Err("denied".to_string())),
        Err(PathError::Unreadable(_))
    ));
}

#[test]
fn linear_clamps_outside_range() {
    let mut nodes = store(vec![temp(1, 10), linear(2, 1)]);
    let readings = Readings::new();
    nodes.set_value(1, 5);
    assert_eq!(nodes.get(2).unwrap().update(&nodes, &readings).unwrap().0, 20);
    nodes.set_value(1, 75);
    assert_eq!(nodes.get(2).unwrap().update(&nodes, &readings).unwrap().0, 100);
    nodes.set_value(1, 60);
    assert_eq!(nodes.get(2).unwrap().update(&nodes, &readings).unwrap().0, 100);
}

#[test]
fn target_hysteresis() {
    let tg = node(
        2,
        vec![1],
        NodeType::Target(Target { idle_temp: 30, idle_speed: 20, load_temp: 60, load_speed: 100 }),
    );
    let mut nodes = store(vec![temp(1, 10), tg]);
    let readings = Readings::new();
    nodes.set_value(1, 70);
    assert_eq!(nodes.get(2).unwrap().update(&nodes, &readings).unwrap().0, 100);
    nodes.set_value(2, 100);
    nodes.set_value(1, 45);
    // in the band: keeps its previous output
    assert_eq!(nodes.get(2).unwrap().update(&nodes, &readings).unwrap().0, 100);
    nodes.set_value(1, 25);
    assert_eq!(nodes.get(2).unwrap().update(&nodes, &readings).unwrap().0, 20);
}

#[test]
fn average_floors_toward_minus_infinity() {
    let agg = node(3, vec![1, 2], NodeType::CustomTemp(CustomTemp { kind: Aggregation::Average }));
    let mut nodes = store(vec![temp(1, 10), temp(2, 11), agg]);
    let readings = Readings::new();
    nodes.set_value(1, 3);
    nodes.set_value(2, 4);
    assert_eq!(nodes.get(3).unwrap().update(&nodes, &readings).unwrap().0, 3);
    nodes.set_value(1, -3);
    nodes.set_value(2, -4);
    assert_eq!(nodes.get(3).unwrap().update(&nodes, &readings).unwrap().0, -4);
}

#[test]
fn min_aggregation() {
    let agg = node(3, vec![1, 2], NodeType::CustomTemp(CustomTemp { kind: Aggregation::Min }));
    let mut nodes = store(vec![temp(1, 10), temp(2, 11), agg]);
    let readings = Readings::new();
    nodes.set_value(1, 40);
    nodes.set_value(2, 55);
    assert_eq!(nodes.get(3).unwrap().update(&nodes, &readings).unwrap().0, 40);
}

#[test]
fn curve_clamps_and_interpolates() {
    let cv = node(
        2,
        vec![1],
        NodeType::Graph(Curve {
            coords: vec![Coord { temp: 20, percent: 10 }, Coord { temp: 60, percent: 90 }],
        }),
    );
    let mut nodes = store(vec![temp(1, 10), cv]);
    let readings = Readings::new();
    nodes.set_value(1, 40);
    assert_eq!(nodes.get(2).unwrap().update(&nodes, &readings).unwrap().0, 50);
    nodes.set_value(1, 5);
    assert_eq!(nodes.get(2).unwrap().update(&nodes, &readings).unwrap().0, 10);
    nodes.set_value(1, 99);
    assert_eq!(nodes.get(2).unwrap().update(&nodes, &readings).unwrap().0, 90);
    nodes.set_value(1, 60);
    assert_eq!(nodes.get(2).unwrap().update(&nodes, &readings).unwrap().0, 90);
}

#[test]
fn unsorted_curve_is_invalid() {
    let cv = node(
        2,
        vec![1],
        NodeType::Graph(Curve {
            coords: vec![Coord { temp: 60, percent: 10 }, Coord { temp: 20, percent: 90 }],
        }),
    );
    assert!(!cv.is_valid());
}

#[test]
fn empty_graph_tick_completes() {
    let mut nodes = Nodes::new();
    let readings = Readings::new();
    let mut u = Update::new();
    let cmds = u.graph(&mut nodes, &readings, &vec![]).unwrap();
    assert!(cmds.is_empty());
}

#[test]
fn zero_inputs_on_input_requiring_kind_is_no_input_data() {
    // Any kind that needs at least one input but was wired with none.
    let l = node(
        1,
        vec![],
        NodeType::Linear(Linear { min_temp: 30, min_speed: 20, max_temp: 60, max_speed: 100 }),
    );
    let c = node(2, vec![], NodeType::Control(Control { hardware_id: Some(20), active: true }));
    let nodes = store(vec![l, c]);
    let readings = Readings::new();
    assert_eq!(
        nodes.get(1).unwrap().update(&nodes, &readings).unwrap_err(),
        UpdateError::NoInputData
    );
    assert_eq!(
        nodes.get(2).unwrap().update(&nodes, &readings).unwrap_err(),
        UpdateError::NoInputData
    );
}

#[test]
fn input_errors_precede_parameter_errors() {
    // A node with unfit parameters and a dangling input reports the input
    // failure, as the walk resolves inputs first.
    let bad = node(
        2,
        vec![99],
        NodeType::Linear(Linear { min_temp: 30, min_speed: 90, max_temp: 60, max_speed: 10 }),
    );
    let nodes = store(vec![bad]);
    let readings = Readings::new();
    assert_eq!(
        nodes.get(2).unwrap().update(&nodes, &readings).unwrap_err(),
        UpdateError::NodeNotFound
    );
}

#[test]
fn failed_validation_returns_empty_trace() {
    let bad_linear = node(
        2,
        vec![],
        NodeType::Linear(Linear { min_temp: 30, min_speed: 20, max_temp: 60, max_speed: 100 }),
    );
    let nodes = store(vec![temp(1, 10), bad_linear, control(3, 2, 20)]);
    let (ok, trace) = nodes.get(3).unwrap().validate(&nodes).unwrap();
    assert!(!ok);
    assert!(trace.is_empty());
}
