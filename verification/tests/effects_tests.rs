use fleet_battle::visual_effects::{FireStep, FireVE, MultiFireVE};

#[test]
fn fire_starts_hidden() {
    let f = FireVE::new(100, 2000);
    assert_eq!(f.interval_in, 100);
    assert_eq!(f.interval_out, 2000);
    assert!(!f.is_in);
}

#[test]
fn fire_alternates_between_shot_and_pause() {
    let mut f = FireVE::new(100, 2000);
    // pause not yet over
    assert_eq!(f.advance(2000), FireStep { draw: false, restart: false, new_shot: false });
    assert!(!f.is_in);
    // pause over: a new shot starts
    assert_eq!(f.advance(2001), FireStep { draw: false, restart: true, new_shot: true });
    assert!(f.is_in);
    // shot showing, not yet over
    assert_eq!(f.advance(50), FireStep { draw: true, restart: false, new_shot: false });
    assert!(f.is_in);
    // shot over: drawn one last time, then hidden
    assert_eq!(f.advance(101), FireStep { draw: true, restart: true, new_shot: false });
    assert!(!f.is_in);
}

#[test]
fn multi_fire_draws_intervals_around_the_means() {
    let mut rng = rand::thread_rng();
    let m = MultiFireVE::new(&mut rng, 100_000_000, 2_000_000_000, 50_000_000, 40);
    assert_eq!(m.fires.len(), 40);
    for f in &m.fires {
        assert!(50_000_000 <= f.interval_in && f.interval_in < 150_000_000);
        assert!(1_950_000_000 <= f.interval_out && f.interval_out < 2_050_000_000);
        assert!(!f.is_in);
    }
    // the draws are random: forty equal draws are next to impossible
    let first = m.fires[0].interval_in;
    assert!(m.fires.iter().any(|f| f.interval_in != first));
    assert!(m.fires.iter().any(|f| f.interval_in != 50_000_000));
}

#[test]
fn multi_fire_with_no_ships_has_no_fires() {
    let mut rng = rand::thread_rng();
    let m = MultiFireVE::new(&mut rng, 100, 2000, 0, 0);
    assert!(m.fires.is_empty());
}

#[test]
fn multi_fire_narrowest_range() {
    let mut rng = rand::thread_rng();
    let m = MultiFireVE::new(&mut rng, 10, 20, 1, 3);
    for f in &m.fires {
        assert!(9 <= f.interval_in && f.interval_in < 11);
        assert!(19 <= f.interval_out && f.interval_out < 21);
    }
}
