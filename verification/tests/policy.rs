use scale::engine_interaction::{KeyCode, KeyboardInfo, MouseButton, MAX_LAYERS};
use scale::ids::{IntersectionID, LaneID, NavNodeID};
use scale::navmesh::{NavMesh, NavNode};
use scale::traffic_control::{TrafficControl, TurnPermission};

#[test]
fn uncontrolled_permits_everything() {
    let policy = TrafficControl::Uncontrolled;
    assert_eq!(policy.permission(LaneID(0), LaneID(1)), Some(TurnPermission::Free));
    assert_eq!(policy.permission(LaneID(7), LaneID(7)), Some(TurnPermission::Free));
}

#[test]
fn priority_gives_the_first_place() {
    let policy =
        TrafficControl::Priority { order: vec![LaneID(4), LaneID(9), LaneID(4), LaneID(1)] };
    assert_eq!(policy.permission(LaneID(4), LaneID(0)), Some(TurnPermission::Ranked(0)));
    assert_eq!(policy.permission(LaneID(9), LaneID(0)), Some(TurnPermission::Ranked(1)));
    assert_eq!(policy.permission(LaneID(1), LaneID(0)), Some(TurnPermission::Ranked(3)));
    assert_eq!(policy.permission(LaneID(0), LaneID(4)), None);
    let nobody = TrafficControl::Priority { order: vec![] };
    assert_eq!(nobody.permission(LaneID(0), LaneID(1)), None);
}

#[test]
fn signal_reads_the_current_phase() {
    let phases = vec![vec![LaneID(1), LaneID(2)], vec![], vec![LaneID(3)]];
    let at = |current: usize| TrafficControl::Signal { phases: phases.clone(), current };
    assert_eq!(at(0).permission(LaneID(2), LaneID(8)), Some(TurnPermission::Free));
    assert_eq!(at(0).permission(LaneID(3), LaneID(8)), None);
    assert_eq!(at(1).permission(LaneID(1), LaneID(8)), None);
    assert_eq!(at(2).permission(LaneID(3), LaneID(8)), Some(TurnPermission::Free));
    assert_eq!(at(3).permission(LaneID(3), LaneID(8)), None);
}

#[test]
fn a_copied_policy_answers_alike() {
    let policy = TrafficControl::Signal { phases: vec![vec![LaneID(1)], vec![LaneID(2)]], current: 1 };
    let copy = policy.clone();
    assert_eq!(copy.permission(LaneID(2), LaneID(0)), Some(TurnPermission::Free));
    assert_eq!(copy.permission(LaneID(1), LaneID(0)), None);
    match copy {
        TrafficControl::Signal { phases, current } => {
            assert_eq!(phases, vec![vec![LaneID(1)], vec![LaneID(2)]]);
            assert_eq!(current, 1);
        }
        _ => panic!("the copy is another kind of policy"),
    }
}

#[test]
fn mesh_nodes_come_and_go() {
    let mut mesh = NavMesh::new();
    assert!(mesh.keys().is_empty());
    let a = mesh.add_node(LaneID(5), IntersectionID(1));
    let b = mesh.add_node(LaneID(5), IntersectionID(2));
    assert_eq!((a, b), (NavNodeID(0), NavNodeID(1)));
    assert_eq!(mesh.get(a), Some(NavNode { id: a, lane: LaneID(5), at: IntersectionID(1) }));
    assert_eq!(mesh.keys(), vec![0, 1]);
    assert_eq!(
        mesh.remove_node(a),
        Some(NavNode { id: a, lane: LaneID(5), at: IntersectionID(1) })
    );
    assert_eq!(mesh.remove_node(a), None);
    assert_eq!(mesh.get(a), None);
    assert_eq!(mesh.keys(), vec![1]);
    let c = mesh.add_node(LaneID(6), IntersectionID(1));
    assert_eq!(c, NavNodeID(0));
    assert_eq!(mesh.get(b), Some(NavNode { id: b, lane: LaneID(5), at: IntersectionID(2) }));
}

#[test]
fn mesh_from_slots() {
    let n = NavNode { id: NavNodeID(2), lane: LaneID(0), at: IntersectionID(0) };
    let mesh = NavMesh::from_slots(vec![None, None, Some(n), None]);
    assert_eq!(mesh.keys(), vec![2]);
    assert_eq!(mesh.get(NavNodeID(2)), Some(n));
    assert_eq!(mesh.get(NavNodeID(0)), None);
    assert_eq!(mesh.get(NavNodeID(3)), None);
}

#[test]
fn keyboard_starts_idle() {
    let info = KeyboardInfo::default();
    assert!(info.just_pressed.is_empty());
    assert!(info.is_pressed.is_empty());
    assert!(info.last_characters.is_empty());
    assert!(!info.is_pressed.contains(&KeyCode::Escape));
    assert_ne!(MouseButton::Other(1), MouseButton::Other(2));
    assert_ne!(MouseButton::Left, MouseButton::Right);
    assert_eq!(MAX_LAYERS, 20);
}
