use dining::philosopher::Philosopher;
use dining::roster::{default_roster, guarded_roster, ring_roster};

fn names(list: &[&str]) -> Vec<String> {
    list.iter().map(|s| s.to_string()).collect()
}

fn orders(r: &[Philosopher]) -> Vec<(usize, usize)> {
    r.iter().map(|p| (p.first(), p.second())).collect()
}

#[test]
fn new_keeps_name_and_cells() {
    let p = Philosopher::new("Karl Marx", 2, 3);
    assert_eq!(p.name, "Karl Marx");
    assert_eq!(p.left, 2);
    assert_eq!(p.right, 3);
    assert_eq!(p.first(), 2);
    assert_eq!(p.second(), 3);
}

#[test]
fn narration_lines() {
    let p = Philosopher::new("Emma Goldman", 3, 4);
    assert_eq!(p.eating_line(), "Emma Goldman is eating.");
    assert_eq!(p.done_line(), "Emma Goldman is done eating.");
}

#[test]
fn guarded_roster_of_five_reverses_the_last() {
    let r = guarded_roster(&names(&["A", "B", "C", "D", "E"]));
    assert_eq!(orders(&r), vec![(0, 1), (1, 2), (2, 3), (3, 4), (0, 4)]);
    let seen: Vec<&str> = r.iter().map(|p| p.name.as_str()).collect();
    assert_eq!(seen, vec!["A", "B", "C", "D", "E"]);
}

#[test]
fn ring_roster_of_five_follows_the_ring() {
    let r = ring_roster(&names(&["A", "B", "C", "D", "E"]));
    assert_eq!(orders(&r), vec![(0, 1), (1, 2), (2, 3), (3, 4), (4, 0)]);
}

#[test]
fn two_diners_want_the_same_two_cells() {
    let r = guarded_roster(&names(&["A", "B"]));
    assert_eq!(orders(&r), vec![(0, 1), (0, 1)]);
    let plain = ring_roster(&names(&["A", "B"]));
    assert_eq!(orders(&plain), vec![(0, 1), (1, 0)]);
}

#[test]
fn default_roster_is_the_program_table() {
    let r = default_roster();
    assert_eq!(orders(&r), vec![(0, 1), (1, 2), (2, 3), (3, 4), (0, 4)]);
    let seen: Vec<&str> = r.iter().map(|p| p.name.as_str()).collect();
    assert_eq!(
        seen,
        vec!["Judith Butler", "Gilles Deleuze", "Karl Marx", "Emma Goldman", "Michel Foucault"]
    );
}

#[test]
fn guarded_roster_takes_the_lower_cell_first() {
    for n in 2..12usize {
        let list: Vec<String> = (0..n).map(|k| format!("d{}", k)).collect();
        let r = guarded_roster(&list);
        for p in &r {
            assert!(p.first() < p.second());
            assert!(p.second() < n);
        }
    }
}
