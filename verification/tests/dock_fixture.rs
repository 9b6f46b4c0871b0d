use workshop::dock::authority::Authority;
use workshop::dock::fixture::fixture;
use workshop::dock::model::{Command, Outcome};

#[test]
fn generated_fixtures_are_deterministic_and_safe() {
    let deterministic = fixture(7, 10_000);
    assert_eq!(deterministic, fixture(7, 10_000));
    let mut first = Authority::one_warehouse();
    let first_outcomes: Vec<Outcome> = deterministic
        .iter()
        .map(|command| first.execute(command))
        .collect();
    first.check_invariants().unwrap();
    let mut replay = Authority::one_warehouse();
    let replay_outcomes: Vec<Outcome> = deterministic
        .iter()
        .map(|command| replay.execute(command))
        .collect();
    assert_eq!(replay_outcomes, first_outcomes);
    assert_eq!(replay.bookings(), first.bookings());

    for seed in 0..100 {
        let commands = fixture(seed, 200);
        let mut left = Authority::one_warehouse();
        let mut right = Authority::one_warehouse();
        for command in &commands {
            assert_eq!(left.execute(command), right.execute(command));
        }
        left.check_invariants().unwrap();
        right.check_invariants().unwrap();
        assert_eq!(left.bookings(), right.bookings());
    }
}

#[test]
fn four_interleaved_workers_keep_the_doors_safe() {
    for run in 0..30_u64 {
        let commands = fixture(50_000 + run, 400);
        let mut state = Authority::one_warehouse();
        let mut next = [0_usize; 4];
        let mut turn = run as usize;
        while next.iter().any(|place| *place < commands.len()) {
            let worker = turn % 4;
            let steps = 1 + (turn / 4) % 5;
            for _ in 0..steps {
                if next[worker] < commands.len() {
                    state.execute(&commands[next[worker]]);
                    next[worker] += 1;
                }
            }
            turn += 1;
        }
        state.check_invariants().unwrap();
    }
}

#[test]
fn a_replayed_command_changes_nothing() {
    let commands = fixture(99, 200);
    let mut state = Authority::one_warehouse();
    let outcomes: Vec<Outcome> = commands
        .iter()
        .map(|command| state.execute(command))
        .collect();
    let bookings = state.bookings().clone();
    let audits = state.audits().len();
    for (command, outcome) in commands.iter().zip(&outcomes) {
        if !matches!(command, Command::Expire { .. }) {
            state.execute(command);
        } else {
            assert_eq!(&state.execute(command), outcome);
        }
    }
    assert_eq!(state.bookings(), &bookings);
    assert_eq!(state.audits().len(), audits);
}
