use packstep::step::commit_step;

#[test]
fn commit_updates_only_mobile_particles() {
    let mut state = vec![1.0f32, 2.0, 3.0, 4.0];
    commit_step(&mut state, &[10.0, 20.0]);
    assert_eq!(state, vec![10.0, 20.0, 3.0, 4.0]);
}

#[test]
fn commit_of_nothing_keeps_state() {
    let mut state = vec![5i64, 6, 7];
    commit_step(&mut state, &[]);
    assert_eq!(state, vec![5, 6, 7]);
}

#[test]
fn commit_of_every_particle() {
    let mut state = vec![(0u8, 0u8); 3];
    commit_step(&mut state, &[(1, 1), (2, 2), (3, 3)]);
    assert_eq!(state, vec![(1, 1), (2, 2), (3, 3)]);
}
