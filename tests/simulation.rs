use dining::dinner::{simulate, Dinner, Line};
use dining::philosopher::Philosopher;
use dining::protocol::Stage;
use dining::roster::{guarded_roster, ring_roster};

fn names(n: usize) -> Vec<String> {
    (0..n).map(|k| ((b'A' + k as u8) as char).to_string()).collect()
}

/// A schedule of `len` picks among `n` diners, drawn from a fixed seed.
fn schedule(seed: u64, n: usize, len: usize) -> Vec<usize> {
    let mut x = seed.wrapping_mul(6364136223846793005).wrapping_add(1442695040888963407);
    let mut s = Vec::new();
    for _ in 0..len {
        x = x.wrapping_mul(6364136223846793005).wrapping_add(1442695040888963407);
        s.push(((x >> 33) % n as u64) as usize);
    }
    s
}

fn check_lines(lines: &[Line], n: usize) {
    assert_eq!(lines.len(), 2 * n);
    for k in 0..n {
        let eat: Vec<usize> = (0..lines.len()).filter(|&i| lines[i] == Line::Eating(k)).collect();
        let done: Vec<usize> =
            (0..lines.len()).filter(|&i| lines[i] == Line::DoneEating(k)).collect();
        assert_eq!(eat.len(), 1);
        assert_eq!(done.len(), 1);
        assert!(eat[0] < done[0]);
    }
}

/// The cells that the stages say are held, each with its number of holders.
fn holder_counts(r: &[Philosopher], d: &Dinner, cells: usize) -> Vec<usize> {
    let mut count = vec![0; cells];
    for k in 0..d.len() {
        match d.stage(k) {
            Stage::HoldingFirst => count[r[k].left] += 1,
            Stage::Eating => {
                count[r[k].left] += 1;
                count[r[k].right] += 1;
            }
            _ => {}
        }
    }
    count
}

#[test]
fn five_diners_finish_with_ten_lines() {
    let r = guarded_roster(&names(5));
    let lines = simulate(&r, 5, &vec![]).unwrap();
    check_lines(&lines, 5);
    assert_eq!(lines[0], Line::Eating(0));
}

#[test]
fn guarded_table_never_deadlocks_over_many_schedules() {
    let r = guarded_roster(&names(5));
    for seed in 0..1000u64 {
        let s = schedule(seed, 5, 1 + (seed as usize % 17));
        let out = simulate(&r, 5, &s);
        match out {
            Ok(lines) => check_lines(&lines, 5),
            Err(st) => panic!("deadlock with seed {}: {:?}", seed, st),
        }
    }
}

#[test]
fn guarded_table_finishes_on_other_ring_sizes() {
    for n in 2..9usize {
        let r = guarded_roster(&names(n));
        for seed in 0..50u64 {
            let s = schedule(seed, n, 7);
            check_lines(&simulate(&r, n, &s).unwrap(), n);
        }
    }
}

#[test]
fn ring_table_deadlocks_when_each_takes_its_own_cell() {
    let s = vec![0, 1, 2, 3, 4];
    let plain = ring_roster(&names(5));
    let st = simulate(&plain, 5, &s).unwrap_err();
    assert_eq!(st, vec![Stage::HoldingFirst; 5]);
    let guarded = guarded_roster(&names(5));
    check_lines(&simulate(&guarded, 5, &s).unwrap(), 5);
}

#[test]
fn ring_table_can_still_finish_on_a_lucky_schedule() {
    let plain = ring_roster(&names(5));
    check_lines(&simulate(&plain, 5, &vec![]).unwrap(), 5);
}

#[test]
fn two_diners_finish() {
    let r = guarded_roster(&names(2));
    for s in [vec![], vec![0, 1], vec![1, 0], vec![1, 1, 0]] {
        check_lines(&simulate(&r, 2, &s).unwrap(), 2);
    }
    let plain = ring_roster(&names(2));
    assert_eq!(simulate(&plain, 2, &vec![0, 1]).unwrap_err(), vec![Stage::HoldingFirst; 2]);
}

#[test]
fn diner_with_one_cell_twice_is_stuck() {
    let r = vec![Philosopher::new("A", 1, 1)];
    assert_eq!(simulate(&r, 2, &vec![]).unwrap_err(), vec![Stage::HoldingFirst]);
}

#[test]
fn no_cell_ever_has_two_holders() {
    let r = guarded_roster(&names(5));
    for seed in 0..200u64 {
        let s = schedule(seed, 5, 11);
        let mut d = Dinner::new(&r, 5);
        let mut pos = 0;
        while !d.is_finished() {
            let k = d.choose_diner(s[pos]).expect("some diner can move");
            pos = (pos + 1) % s.len();
            d.advance(k);
            assert!(holder_counts(&r, &d, 5).iter().all(|&c| c <= 1));
        }
    }
}

#[test]
fn advance_speaks_on_eating_and_on_finishing() {
    let r = guarded_roster(&names(2));
    let mut d = Dinner::new(&r, 2);
    assert_eq!(d.stage(0), Stage::Thinking);
    assert!(d.can_advance(0) && d.can_advance(1));
    assert_eq!(d.advance(0), None);
    assert_eq!(d.stage(0), Stage::HoldingFirst);
    assert!(!d.can_advance(1));
    assert_eq!(d.first_ready(), Some(0));
    assert_eq!(d.choose_diner(1), Some(0));
    assert_eq!(d.advance(0), Some(Line::Eating(0)));
    assert_eq!(d.advance(0), Some(Line::DoneEating(0)));
    assert_eq!(d.stage(0), Stage::Done);
    assert!(!d.can_advance(0));
    assert_eq!(d.choose_diner(1), Some(1));
    assert!(!d.is_finished());
    d.advance(1);
    d.advance(1);
    d.advance(1);
    assert!(d.is_finished());
    assert_eq!(d.first_ready(), None);
    assert_eq!(d.into_stages(), vec![Stage::Done; 2]);
}

#[test]
fn empty_schedule_seats_one_diner_at_a_time() {
    let r = guarded_roster(&names(3));
    let lines = simulate(&r, 3, &vec![]).unwrap();
    assert_eq!(
        lines,
        vec![
            Line::Eating(0),
            Line::DoneEating(0),
            Line::Eating(1),
            Line::DoneEating(1),
            Line::Eating(2),
            Line::DoneEating(2),
        ]
    );
}

#[test]
fn schedule_decides_who_eats_first() {
    let r = guarded_roster(&names(5));
    let lines = simulate(&r, 5, &vec![2]).unwrap();
    assert_eq!(lines[0], Line::Eating(2));
    assert_eq!(lines[1], Line::DoneEating(2));
    check_lines(&lines, 5);
}
