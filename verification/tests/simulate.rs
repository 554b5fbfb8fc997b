use n_particles::n_body::simulate::{Simulation, TRAIL_LEN};

#[test]
fn add_and_remove_bodies_keep_trails_paired() {
    let mut sim: Simulation<u32, i32> = Simulation::new();
    sim.add_body(10);
    sim.add_body(20);
    sim.add_body(30);
    assert_eq!(sim.bodies, vec![10, 20, 30]);
    assert_eq!(sim.paths.len(), 3);
    sim.record_trails(&[1, 2, 3]);
    sim.remove_body(1);
    assert_eq!(sim.bodies, vec![10, 30]);
    assert_eq!(sim.paths, vec![vec![1], vec![3]]);
    // Past the end: nothing happens.
    sim.remove_body(5);
    assert_eq!(sim.bodies, vec![10, 30]);
    sim.clear();
    assert!(sim.bodies.is_empty() && sim.paths.is_empty());
}

#[test]
fn insert_body_at_front() {
    let mut sim: Simulation<u32, i32> = Simulation::new();
    sim.add_body(1);
    sim.record_trails(&[7]);
    sim.insert_body(0, 0);
    assert_eq!(sim.bodies, vec![0, 1]);
    assert_eq!(sim.paths, vec![vec![], vec![7]]);
    sim.remove_body(0);
    assert_eq!(sim.bodies, vec![1]);
    assert_eq!(sim.paths, vec![vec![7]]);
}

#[test]
fn trails_keep_newest_positions() {
    let mut sim: Simulation<u8, usize> = Simulation::new();
    sim.add_body(0);
    for step in 0..200usize {
        sim.record_trails(&[step]);
    }
    assert_eq!(TRAIL_LEN, 150);
    assert_eq!(sim.paths[0].len(), 150);
    assert_eq!(sim.paths[0][0], 50);
    assert_eq!(sim.paths[0][149], 199);
}

#[test]
fn record_trails_resizes_paths() {
    let mut sim: Simulation<u8, i32> = Simulation::new();
    // Bodies pushed directly, without trails.
    sim.bodies.push(1);
    sim.bodies.push(2);
    sim.record_trails(&[5, 6]);
    assert_eq!(sim.paths, vec![vec![5], vec![6]]);
    // More trails than bodies: the extra ones go.
    sim.paths.push(vec![9, 9]);
    sim.record_trails(&[7, 8]);
    assert_eq!(sim.paths, vec![vec![5, 7], vec![6, 8]]);
}
