use galaxy_sim::genalg::{best_update, init_choice, track_simulation, AppState, BestUpdate, InitChoice};

#[test]
fn default_phase_is_init() {
    assert_eq!(AppState::default(), AppState::Init);
}

#[test]
fn simulation_ends_at_max_ticks() {
    let mut tick = 0usize;
    for _ in 0..3 {
        assert_eq!(track_simulation(&mut tick, 4), None);
    }
    assert_eq!(tick, 3);
    assert_eq!(track_simulation(&mut tick, 4), Some(AppState::Evaluate));
    assert_eq!(tick, 4);
    assert_eq!(track_simulation(&mut tick, 4), Some(AppState::Evaluate));
}

#[test]
fn evaluated_genome_beats_everything() {
    // fitness 0.5, best 0.2, disk 0.3 at generation 7
    assert_eq!(best_update(true, true, false, false, true, 7), BestUpdate::SaveEvaluated { generation: 8 });
}

#[test]
fn disk_genome_beats_everything() {
    // fitness 0.3, best 0.2, disk 0.5 at generation 7
    assert_eq!(best_update(true, true, true, false, true, 7), BestUpdate::AdoptDisk);
    // The same comparisons with no genome read from disk change nothing.
    assert_eq!(best_update(true, true, true, false, false, 7), BestUpdate::Keep);
}

#[test]
fn local_best_is_written_back() {
    // fitness 0.1, best 0.4, disk 0.2 at generation 3
    assert_eq!(best_update(false, false, true, true, true, 3), BestUpdate::RewriteLocalBest { generation: 4 });
    // fitness 0.1, best 0.4, nothing on disk (fitness -1, generation 0)
    assert_eq!(best_update(false, false, false, true, false, 0), BestUpdate::RewriteLocalBest { generation: 1 });
}

#[test]
fn equal_best_and_disk_keep() {
    // fitness 0.1, best 0.4, disk 0.4
    assert_eq!(best_update(false, false, true, false, true, 9), BestUpdate::Keep);
}

#[test]
fn generation_start_choices() {
    assert_eq!(init_choice(true, true, false), InitChoice::AdoptDisk);
    assert_eq!(init_choice(true, false, false), InitChoice::Fallback);
    assert_eq!(init_choice(false, true, true), InitChoice::Migrate);
    assert_eq!(init_choice(false, true, false), InitChoice::KeepCurrent);
    assert_eq!(init_choice(false, false, true), InitChoice::KeepCurrent);
}

// The best fitness after an evaluation is the largest of the three, for concrete fitnesses.
#[test]
fn best_fitness_never_decreases() {
    let cases: [(f32, f32, f32, bool); 4] = [
        (0.5, 0.2, 0.3, true),
        (0.3, 0.2, 0.5, true),
        (0.1, 0.4, 0.2, true),
        (0.1, 0.4, -1.0, false),
    ];
    for (f, b, d, read) in cases {
        let after = match best_update(f > b, d > b, d > f, b > d, read, 3) {
            BestUpdate::AdoptDisk => d,
            BestUpdate::SaveEvaluated { .. } => f,
            _ => b,
        };
        assert_eq!(after, f.max(b).max(d));
    }
}
