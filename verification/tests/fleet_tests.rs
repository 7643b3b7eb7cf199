use std::sync::atomic::{AtomicU64, Ordering};

static NEXT_SIDE: AtomicU64 = AtomicU64::new(1);

fn side_id() -> u64 {
    NEXT_SIDE.fetch_add(1, Ordering::Relaxed)
}

use fleet_battle::fleet::{FleetTag, Formation, Order};
use fleet_battle::scene::{Event, MouseButton, Scene};
use fleet_battle::side::{ChooseEnemy, Color, Side};

fn side(name: &str, player: bool) -> Side {
    Side::new(side_id(), name.to_string(), Color { r: 0, g: 0, b: 0, a: 255 }, player)
}

#[test]
fn new_fleet_has_no_group_and_no_target() {
    let s = side("s", true);
    let f = FleetTag::new(4, s.clone());
    assert_eq!(f.id, 4);
    assert_eq!(f.group, 0);
    assert_eq!(f.target, None);
    assert_eq!(f.side().name, "s");
}

#[test]
fn enemies_are_fleets_of_other_sides() {
    let sa = side("a", true);
    let a = FleetTag::new(1, sa.clone());
    let a2 = FleetTag::new(2, sa.clone());
    let b = FleetTag::new(3, side("b", false));
    assert!(a.is_enemy(&b));
    assert!(b.is_enemy(&a));
    assert!(!a.is_enemy(&a2));
    assert!(!a.is_enemy(&a));
}

#[test]
fn sides_sharing_a_name_are_still_enemies() {
    let s1 = Side::new(side_id(), "s".to_string(), Color { r: 1, g: 0, b: 0, a: 255 }, false);
    let s2 = Side::new(side_id(), "s".to_string(), Color { r: 0, g: 1, b: 0, a: 255 }, false);
    let a = FleetTag::new(1, s1);
    let b = FleetTag::new(2, s2);
    assert!(a.is_enemy(&b));
}

#[test]
fn set_target_takes_first_other_hit() {
    let s = side("s", true);
    let scene = Scene::from(vec![FleetTag::new(1, s.clone()), FleetTag::new(2, s.clone()), FleetTag::new(3, s.clone())]);
    let mut f = scene.fleets[0].clone();
    assert!(f.set_target(&vec![true, false, true], &scene));
    assert_eq!(f.target, Some(3));
    // a click on nothing keeps the target
    assert!(!f.set_target(&vec![false, false, false], &scene));
    assert_eq!(f.target, Some(3));
    // a click on itself only is no target
    assert!(!f.set_target(&vec![true, false, false], &scene));
    assert_eq!(f.target, Some(3));
}

#[test]
fn map_target_finds_target_position() {
    let s = side("s", true);
    let mut scene = Scene::from(vec![FleetTag::new(1, s.clone()), FleetTag::new(2, s.clone()), FleetTag::new(3, s.clone())]);
    let mut f = scene.fleets[0].clone();
    assert_eq!(f.map_target(&scene), None);
    f.target = Some(3);
    assert_eq!(f.map_target(&scene), Some(2));
    assert_eq!(f.map_target_mut(&scene), Some(2));
    // a fleet that left the scene is no target
    scene.keep_fleets(&vec![true, true, false]);
    assert_eq!(f.map_target(&scene), None);
    // nor is the fleet itself
    f.target = Some(1);
    assert_eq!(f.map_target(&scene), None);
    assert_eq!(f.map_target_mut(&scene), None);
}

#[test]
fn fleet_event_answers_right_click_when_selected() {
    let s = side("s", true);
    let scene = Scene::from(vec![FleetTag::new(1, s.clone()), FleetTag::new(2, s.clone())]);
    let mut f = scene.fleets[0].clone();
    let right = Event::MouseButtonDown { mouse_btn: MouseButton::Right, x: 7, y: 8 };
    assert_eq!(f.event(&right, &scene, &vec![false, false], false), Order::Ignored);
    assert_eq!(f.event(&right, &scene, &vec![false, false], true), Order::MoveTo { x: 7, y: 8 });
    assert_eq!(f.target, None);
    assert_eq!(f.event(&right, &scene, &vec![false, true], true), Order::Targeted);
    assert_eq!(f.target, Some(2));
    let left = Event::MouseButtonDown { mouse_btn: MouseButton::Left, x: 7, y: 8 };
    assert_eq!(f.event(&left, &scene, &vec![true, true], true), Order::Ignored);
    assert_eq!(f.event(&Event::Other, &scene, &vec![true, true], true), Order::Ignored);
}

#[test]
fn side_new_chooses_by_group_strength() {
    let s = Side::new(side_id(), "x".to_string(), Color { r: 1, g: 2, b: 3, a: 4 }, false);
    assert_eq!(s.choose_enemy, ChooseEnemy::ByGroupStrength);
    assert!(s.id > 0);
    assert_eq!(s.color, Color { r: 1, g: 2, b: 3, a: 4 });
    assert!(!s.player_controled);
}

#[test]
fn sides_are_equal_by_name() {
    let a = Side::new(side_id(), "x".to_string(), Color { r: 1, g: 2, b: 3, a: 4 }, false);
    let b = Side::new(side_id(), "x".to_string(), Color { r: 5, g: 6, b: 7, a: 8 }, true);
    let c = Side::new(side_id(), "y".to_string(), Color { r: 1, g: 2, b: 3, a: 4 }, false);
    assert!(a == b);
    assert!(a != c);
}

#[test]
fn each_group_changes_nothing() {
    let mut s = side("s", false);
    let scene = Scene::from(vec![FleetTag::new(1, s.clone())]);
    let g = fleet_battle::scene::Group::new(1, vec![FleetTag::new(1, s.clone())]);
    s.each_group(&g, &scene);
    assert_eq!(s.name, "s");
    assert_eq!(s.choose_enemy, ChooseEnemy::ByGroupStrength);
}

#[test]
fn formations_differ() {
    assert_ne!(Formation::Triangle, Formation::Rect);
}
