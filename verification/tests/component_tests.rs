use pathsearch::cost::{CostModel, PERTURB_HI, PERTURB_LO, SCALE};
use pathsearch::events::{environment_events, Event, Reaction, Robot};
use pathsearch::frontier::{Entry, Frontier};
use pathsearch::scheduler::Robot as Scheduler;
use pathsearch::topology::NodeId;

#[test]
fn frontier_pops_least_f_first_insertion_order_ties() {
    let mut frontier = Frontier::new();
    let node = NodeId::Vertex { id: 0 };
    frontier.push(Entry { node, key: 0, g: 5, h: 2 });
    frontier.push(Entry { node, key: 1, g: 3, h: 1 });
    frontier.push(Entry { node, key: 2, g: 2, h: 2 });
    frontier.push(Entry { node, key: 3, g: 9, h: 0 });
    // f values: 7, 4, 4, 9; the tie at 4 goes to the earlier insertion.
    assert_eq!(frontier.pop_min().unwrap().key, 1);
    assert_eq!(frontier.pop_min().unwrap().key, 2);
    assert_eq!(frontier.pop_min().unwrap().key, 0);
    assert_eq!(frontier.pop_min().unwrap().key, 3);
    assert!(frontier.pop_min().is_none());
}

#[test]
fn deterministic_cost_is_scaled_base_weight() {
    let mut model = CostModel::deterministic();
    assert_eq!(model.edge_cost(0), Some(0));
    assert_eq!(model.edge_cost(1), Some(SCALE));
    assert_eq!(model.edge_cost(1500), Some(1500 * SCALE));
    // A weight too large to scale is refused, not wrapped.
    assert_eq!(model.edge_cost(u64::MAX / 2), None);
}

#[test]
fn stochastic_cost_stays_in_range() {
    let mut model = CostModel::stochastic(PERTURB_LO, PERTURB_HI, 7);
    for _ in 0..100 {
        let c = model.edge_cost(1000).unwrap();
        assert!(c >= 1000 * PERTURB_LO);
        assert!(c < 1000 * PERTURB_HI);
    }
}

#[test]
fn scheduler_processes_by_ascending_priority() {
    let mut robot = Scheduler::new("Atlas");
    robot.add_task("Angkut Barang", 2, "Mengangkut barang ke gudang.");
    robot.add_task("Isi Ulang Baterai", 1, "Mengisi ulang baterai robot.");
    robot.add_task("Perbaikan Mesin", 3, "Memperbaiki mesin produksi.");
    let done = robot.process_tasks();
    let names: Vec<&str> = done.iter().map(|t| t.name.as_str()).collect();
    assert_eq!(names, vec!["Isi Ulang Baterai", "Angkut Barang", "Perbaikan Mesin"]);
    assert!(robot.task_queue.is_empty());
}

#[test]
fn scheduler_keeps_insertion_order_on_equal_priority() {
    let mut robot = Scheduler::new("Atlas");
    robot.add_task("first", 1, "a");
    robot.add_task("second", 1, "b");
    robot.add_task("third", 1, "c");
    let done = robot.process_tasks();
    let names: Vec<&str> = done.iter().map(|t| t.name.as_str()).collect();
    assert_eq!(names, vec!["first", "second", "third"]);
}

#[test]
fn event_reactions_match_event_kinds() {
    let robot = Robot::new("Atlas");
    assert_eq!(robot.name, "Atlas");
    match robot.handle_event(Event::ObstacleDetected("Batu Besar".to_string())) {
        Reaction::Avoid { obstacle } => assert_eq!(obstacle, "Batu Besar"),
        _ => panic!("an obstacle must be avoided"),
    }
    match robot.handle_event(Event::GoalChanged("Pos A".to_string())) {
        Reaction::Navigate { goal } => assert_eq!(goal, "Pos A"),
        _ => panic!("a new goal must start navigation"),
    }
    assert!(matches!(robot.handle_event(Event::Idle), Reaction::Wait));
}

#[test]
fn environment_script_is_the_five_events() {
    let events = environment_events();
    assert_eq!(events.len(), 5);
    assert!(matches!(&events[0], Event::ObstacleDetected(o) if o == "Batu Besar"));
    assert!(matches!(&events[1], Event::GoalChanged(g) if g == "Pos A"));
    assert!(matches!(&events[2], Event::Idle));
    assert!(matches!(&events[3], Event::GoalChanged(g) if g == "Pos B"));
    assert!(matches!(&events[4], Event::ObstacleDetected(o) if o == "Parit Lebar"));
}
