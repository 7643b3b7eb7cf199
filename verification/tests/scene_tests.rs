use std::sync::atomic::{AtomicU64, Ordering};

static NEXT_SIDE: AtomicU64 = AtomicU64::new(1);

fn side_id() -> u64 {
    NEXT_SIDE.fetch_add(1, Ordering::Relaxed)
}

use fleet_battle::fleet::FleetTag;
use fleet_battle::scene::{Event, Group, MouseButton, Reaction, Scene};
use fleet_battle::side::{Color, Side};

fn side(name: &str, player: bool) -> Side {
    Side::new(side_id(), name.to_string(), Color { r: 1, g: 2, b: 3, a: 255 }, player)
}

fn tag(id: u64, s: &Side) -> FleetTag {
    FleetTag::new(id, s.clone())
}

fn groups_of(scene: &Scene) -> Vec<usize> {
    scene.fleets.iter().map(|f| f.group).collect()
}

fn runs_of(scene: &Scene) -> Vec<(usize, Vec<u64>)> {
    scene.groups.iter().map(|g| (g.id, g.fleets.clone())).collect()
}

#[test]
fn from_lists_each_side_once_in_order() {
    let s0 = side("s0", true);
    let s1 = side("s1", false);
    let s2 = side("s2", false);
    let scene = Scene::from(vec![tag(1, &s0), tag(2, &s0), tag(3, &s1), tag(4, &s0), tag(5, &s2), tag(6, &s1)]);
    let names: Vec<&str> = scene.sides.iter().map(|s| s.name.as_str()).collect();
    assert_eq!(names, vec!["s0", "s1", "s2"]);
    assert_eq!(scene.fleets.len(), 6);
    assert!(scene.groups.is_empty());
    assert_eq!(scene.selected, None);
    assert_eq!(scene.sides[1].player_controled, false);
}

#[test]
fn from_lists_sides_once_per_name() {
    let a = Side::new(side_id(), "same".to_string(), Color { r: 0, g: 0, b: 0, a: 0 }, true);
    let b = Side::new(side_id(), "same".to_string(), Color { r: 9, g: 9, b: 9, a: 9 }, false);
    let scene = Scene::from(vec![tag(1, &a), tag(2, &b)]);
    assert_eq!(scene.sides.len(), 1);
    assert_eq!(scene.sides[0].color, Color { r: 0, g: 0, b: 0, a: 0 });
}

#[test]
fn sides_sharing_a_name_are_grouped_apart() {
    let s1 = Side::new(side_id(), "s".to_string(), Color { r: 1, g: 0, b: 0, a: 255 }, false);
    let s2 = Side::new(side_id(), "s".to_string(), Color { r: 0, g: 1, b: 0, a: 255 }, false);
    let mut scene = Scene::from(vec![tag(1, &s1), tag(2, &s2)]);
    scene.recalculate_groups(&vec![vec![true; 2]; 2]);
    assert_eq!(groups_of(&scene), vec![1, 2]);
    assert_eq!(scene.fleets_by_side(&s1), vec![0]);
    assert_eq!(scene.fleets_by_side(&s2), vec![1]);
    // the scene lists sides once per name
    assert_eq!(scene.sides.len(), 1);
}

#[test]
fn fleets_by_side_gives_positions_in_order() {
    let s0 = side("s0", true);
    let s1 = side("s1", false);
    let scene = Scene::from(vec![tag(1, &s1), tag(2, &s0), tag(3, &s1), tag(4, &s1)]);
    assert_eq!(scene.fleets_by_side(&s1), vec![0, 2, 3]);
    assert_eq!(scene.fleets_by_side(&s0), vec![1]);
    assert_eq!(scene.fleets_by_side(&side("nobody", false)), Vec::<usize>::new());
}

#[test]
fn recalculate_groups_all_close() {
    let s0 = side("s0", true);
    let s1 = side("s1", false);
    let mut scene = Scene::from(vec![tag(10, &s0), tag(11, &s0), tag(12, &s1), tag(13, &s0)]);
    let near = vec![vec![true; 4]; 4];
    scene.recalculate_groups(&near);
    assert_eq!(groups_of(&scene), vec![1, 1, 2, 1]);
    assert_eq!(runs_of(&scene), vec![(1, vec![10, 11]), (2, vec![12]), (1, vec![13])]);
    assert_eq!(scene.groups[0].side.name, "s0");
    assert_eq!(scene.groups[1].side.name, "s1");
    // ids, sides and targets are kept
    let ids: Vec<u64> = scene.fleets.iter().map(|f| f.id).collect();
    assert_eq!(ids, vec![10, 11, 12, 13]);
}

#[test]
fn recalculate_groups_none_close() {
    let s0 = side("s0", true);
    let mut scene = Scene::from(vec![tag(1, &s0), tag(2, &s0), tag(3, &s0)]);
    let near = vec![vec![false; 3]; 3];
    scene.recalculate_groups(&near);
    assert_eq!(groups_of(&scene), vec![1, 3, 2]);
    assert_eq!(runs_of(&scene), vec![(1, vec![1]), (3, vec![2]), (2, vec![3])]);
}

#[test]
fn recalculate_groups_chain_of_closeness() {
    // 0 is close to 1, 1 to 2, but 0 not to 2; all of one side.
    let s0 = side("s0", false);
    let mut scene = Scene::from(vec![tag(1, &s0), tag(2, &s0), tag(3, &s0)]);
    let near = vec![
        vec![true, true, false],
        vec![true, true, true],
        vec![false, true, true],
    ];
    scene.recalculate_groups(&near);
    // f0: o1 close, both new -> 1,1; o2 not close, 2 gets 2.
    // f1: o0 close -> 0 takes 1; o2 close -> 2 takes 1.
    // f2: o0 not close, both grouped; o1 close -> 1 takes 1.
    assert_eq!(groups_of(&scene), vec![1, 1, 1]);
    assert_eq!(runs_of(&scene), vec![(1, vec![1, 2, 3])]);
}

#[test]
fn recalculate_groups_single_fleet_stays_ungrouped() {
    let s0 = side("s0", true);
    let mut scene = Scene::from(vec![tag(7, &s0)]);
    scene.recalculate_groups(&vec![vec![true]]);
    assert_eq!(groups_of(&scene), vec![0]);
    assert_eq!(runs_of(&scene), vec![(0, vec![7])]);
}

#[test]
fn recalculate_groups_without_fleets_keeps_groups() {
    let s0 = side("s0", true);
    let mut scene = Scene::from(vec![]);
    scene.groups.push(Group::new(5, vec![tag(1, &s0)]));
    scene.recalculate_groups(&vec![]);
    assert_eq!(runs_of(&scene), vec![(5, vec![1])]);
}

#[test]
fn groups_never_mix_sides_and_every_fleet_is_grouped() {
    let s0 = side("s0", true);
    let s1 = side("s1", false);
    let fleets = vec![tag(1, &s0), tag(2, &s1), tag(3, &s1), tag(4, &s0), tag(5, &s1)];
    let mut scene = Scene::from(fleets);
    let near = vec![
        vec![true, true, false, true, false],
        vec![true, true, true, false, true],
        vec![false, true, true, true, true],
        vec![true, false, true, true, false],
        vec![false, true, true, false, true],
    ];
    scene.recalculate_groups(&near);
    for a in &scene.fleets {
        assert_ne!(a.group, 0);
        for b in &scene.fleets {
            if a.group == b.group {
                assert_eq!(a.side.name, b.side.name);
            }
        }
    }
    for f in &scene.fleets {
        let g = scene.group_by_fleet(f).unwrap();
        assert_eq!(g.id, f.group);
        assert_eq!(g.side.name, f.side.name);
    }
}

#[test]
fn group_by_fleet_finds_first_group_with_the_number() {
    let s0 = side("s0", true);
    let s1 = side("s1", false);
    let mut scene = Scene::from(vec![tag(10, &s0), tag(11, &s0), tag(12, &s1), tag(13, &s0)]);
    scene.recalculate_groups(&vec![vec![true; 4]; 4]);
    let last = scene.fleets[3].clone();
    let g = scene.group_by_fleet(&last).unwrap();
    assert_eq!(g.id, 1);
    assert_eq!(g.fleets, vec![10, 11]);
    let mut stray = tag(99, &s0);
    stray.group = 42;
    assert!(scene.group_by_fleet(&stray).is_none());
}

#[test]
fn group_new_takes_ids_and_first_side() {
    let s0 = side("s0", true);
    let s1 = side("s1", false);
    let g = Group::new(3, vec![tag(4, &s1), tag(5, &s0)]);
    assert_eq!(g.id, 3);
    assert_eq!(g.fleets, vec![4, 5]);
    assert_eq!(g.side.name, "s1");
}

fn click(button: MouseButton, x: i32, y: i32) -> Event {
    Event::MouseButtonDown { mouse_btn: button, x, y }
}

#[test]
fn left_click_selects_first_player_fleet_hit() {
    let me = side("me", true);
    let ai = side("ai", false);
    let mut scene = Scene::from(vec![tag(1, &ai), tag(2, &me), tag(3, &me)]);
    let hits = vec![true, false, true];
    assert!(scene.process_event(&click(MouseButton::Left, 5, 5), &hits));
    assert_eq!(scene.selected, Some(3));
    // a miss clears the selection
    assert!(!scene.process_event(&click(MouseButton::Left, 5, 5), &vec![true, false, false]));
    assert_eq!(scene.selected, None);
}

#[test]
fn other_events_leave_selection() {
    let me = side("me", true);
    let mut scene = Scene::from(vec![tag(1, &me)]);
    scene.selected = Some(1);
    assert!(!scene.process_event(&click(MouseButton::Right, 0, 0), &vec![true]));
    assert!(!scene.process_event(&Event::MouseButtonUp { mouse_btn: MouseButton::Left, x: 0, y: 0 }, &vec![true]));
    assert!(!scene.process_event(&Event::Other, &vec![true]));
    assert_eq!(scene.selected, Some(1));
}

#[test]
fn right_click_on_enemy_sets_target_of_selected() {
    let me = side("me", true);
    let ai = side("ai", false);
    let mut scene = Scene::from(vec![tag(1, &me), tag(2, &ai), tag(3, &ai)]);
    scene.selected = Some(1);
    let r = scene.event(&click(MouseButton::Right, 40, 50), &vec![true, false, true]);
    assert_eq!(r, Reaction::Handled);
    assert_eq!(scene.fleets[0].target, Some(3));
    assert_eq!(scene.fleets[1].target, None);
    assert_eq!(scene.selected, Some(1));
}

#[test]
fn right_click_on_empty_space_moves_selected() {
    let me = side("me", true);
    let ai = side("ai", false);
    let mut scene = Scene::from(vec![tag(1, &ai), tag(2, &me)]);
    scene.selected = Some(2);
    // only the selected fleet itself was hit: it does not target itself
    let r = scene.event(&click(MouseButton::Right, 40, 50), &vec![false, true]);
    assert_eq!(r, Reaction::MoveFleet { fleet: 1, x: 40, y: 50 });
    assert_eq!(scene.fleets[1].target, None);
}

#[test]
fn right_click_without_selection_is_ignored() {
    let me = side("me", true);
    let mut scene = Scene::from(vec![tag(1, &me), tag(2, &me)]);
    assert_eq!(scene.event(&click(MouseButton::Right, 1, 1), &vec![true, true]), Reaction::Ignored);
    scene.selected = Some(77);
    assert_eq!(scene.event(&click(MouseButton::Right, 1, 1), &vec![true, true]), Reaction::Ignored);
    assert_eq!(scene.fleets[0].target, None);
    assert_eq!(scene.fleets[1].target, None);
}

#[test]
fn left_click_through_event_selects() {
    let me = side("me", true);
    let mut scene = Scene::from(vec![tag(1, &me), tag(2, &me)]);
    assert_eq!(scene.event(&click(MouseButton::Left, 1, 1), &vec![false, true]), Reaction::Handled);
    assert_eq!(scene.selected, Some(2));
    assert_eq!(scene.event(&click(MouseButton::Left, 1, 1), &vec![false, false]), Reaction::Ignored);
    assert_eq!(scene.selected, None);
}

#[test]
fn keep_fleets_drops_destroyed_in_order() {
    let s0 = side("s0", true);
    let mut scene = Scene::from(vec![tag(1, &s0), tag(2, &s0), tag(3, &s0), tag(4, &s0)]);
    scene.selected = Some(2);
    scene.keep_fleets(&vec![true, false, true, false]);
    let ids: Vec<u64> = scene.fleets.iter().map(|f| f.id).collect();
    assert_eq!(ids, vec![1, 3]);
    assert_eq!(scene.selected, Some(2));
    assert_eq!(scene.sides.len(), 1);
}

#[test]
fn default_scene_is_empty() {
    let scene = Scene::default();
    assert!(scene.fleets().is_empty());
    assert!(scene.groups.is_empty());
    assert!(scene.sides.is_empty());
    assert_eq!(scene.selected, None);
}

#[test]
fn enemies_of_lists_fleets_of_other_sides() {
    let s0 = side("s0", true);
    let s1 = side("s1", false);
    let scene = Scene::from(vec![tag(1, &s1), tag(2, &s0), tag(3, &s1), tag(4, &s0)]);
    assert_eq!(scene.enemies_of(&scene.fleets[1]), vec![0, 2]);
    assert_eq!(scene.enemies_of(&scene.fleets[0]), vec![1, 3]);
    let alone = Scene::from(vec![tag(5, &s0)]);
    assert!(alone.enemies_of(&alone.fleets[0]).is_empty());
}

#[test]
fn from_accepts_a_fleet_twice() {
    let s0 = side("s0", true);
    let scene = Scene::from(vec![tag(1, &s0), tag(1, &s0)]);
    assert_eq!(scene.fleets.len(), 2);
    assert_eq!(scene.sides.len(), 1);
}
