use hanoi::solution::Peg;
use hanoi::solver::{run_iterative, run_recursive, solve_nr, solve_r, Move};
use hanoi::tower::{MoveOutcome, Tower};

#[test]
fn iterative_move_counts_are_exact() {
    for n in 0..=8usize {
        let moves = run_iterative(n);
        assert_eq!(moves.len(), (1usize << n) - 1, "for {} discs", n);
    }
}

#[test]
fn zero_discs_means_zero_moves() {
    assert_eq!(run_iterative(0).len(), 0);
    assert_eq!(run_recursive(0).len(), 0);
}

#[test]
fn iterative_final_state() {
    let mut a = Tower::full("A", 5);
    let mut b = Tower::empty("B");
    let mut c = Tower::empty("C");
    let moves = solve_nr(&mut a, &mut b, &mut c, 5);
    assert_eq!(moves.len(), 31);
    assert_eq!(a.count(), 0);
    assert_eq!(b.count(), 0);
    assert_eq!(c.discs(), vec![4, 3, 2, 1, 0]);
    assert!(a.is_valid() && b.is_valid() && c.is_valid());
}

#[test]
fn recursive_final_state() {
    let mut a = Tower::full("A", 5);
    let mut b = Tower::empty("B");
    let mut c = Tower::empty("C");
    let moves = solve_r(&mut a, &mut b, &mut c, 5, Peg::A, Peg::B, Peg::C);
    assert_eq!(moves.len(), 31);
    assert_eq!(a.count(), 0);
    assert_eq!(b.count(), 0);
    assert_eq!(c.discs(), vec![4, 3, 2, 1, 0]);
}

#[test]
fn three_disc_sequence_is_the_classic_seven_moves() {
    let moves = run_iterative(3);
    let expected = vec![
        Move { disc: 0, from: Peg::A, to: Peg::C },
        Move { disc: 1, from: Peg::A, to: Peg::B },
        Move { disc: 0, from: Peg::C, to: Peg::B },
        Move { disc: 2, from: Peg::A, to: Peg::C },
        Move { disc: 0, from: Peg::B, to: Peg::A },
        Move { disc: 1, from: Peg::B, to: Peg::C },
        Move { disc: 0, from: Peg::A, to: Peg::C },
    ];
    assert_eq!(moves, expected);
}

#[test]
fn even_disc_count_starts_toward_b() {
    let moves = run_iterative(2);
    let expected = vec![
        Move { disc: 0, from: Peg::A, to: Peg::B },
        Move { disc: 1, from: Peg::A, to: Peg::C },
        Move { disc: 0, from: Peg::B, to: Peg::C },
    ];
    assert_eq!(moves, expected);
}

#[test]
fn both_solvers_land_on_the_same_tower() {
    for n in 0..=6usize {
        let it = run_iterative(n);
        let rec = run_recursive(n);
        assert_eq!(it.len(), rec.len(), "move counts for {} discs", n);
        // Replay both logs and compare the final occupancy.
        let final_it = replay(&it, n);
        let final_rec = replay(&rec, n);
        assert_eq!(final_it, final_rec, "final towers for {} discs", n);
        assert_eq!(final_it.2, (0..n).rev().collect::<Vec<usize>>());
    }
}

#[test]
fn every_intermediate_position_is_legal() {
    let n = 4usize;
    let moves = run_iterative(n);
    let mut a = Tower::full("A", n);
    let mut b = Tower::empty("B");
    let mut c = Tower::empty("C");
    for mv in &moves {
        {
            let (src, dst) = match (mv.from, mv.to) {
                (Peg::A, Peg::B) => (&a, &b),
                (Peg::A, Peg::C) => (&a, &c),
                (Peg::B, Peg::A) => (&b, &a),
                (Peg::B, Peg::C) => (&b, &c),
                (Peg::C, Peg::A) => (&c, &a),
                (Peg::C, Peg::B) => (&c, &b),
                _ => panic!("a move must name two distinct pegs"),
            };
            assert!(src.can_move(dst));
        }
        apply(&mut a, &mut b, &mut c, mv);
        // No move ever lays a larger disc on a smaller one, and the
        // discs always partition 0..n.
        assert!(a.is_valid() && b.is_valid() && c.is_valid());
        let mut all: Vec<usize> = a.discs();
        all.extend(b.discs());
        all.extend(c.discs());
        all.sort();
        assert_eq!(all, (0..n).collect::<Vec<usize>>());
    }
}

fn apply(a: &mut Tower, b: &mut Tower, c: &mut Tower, mv: &Move) {
    let r = match (mv.from, mv.to) {
        (Peg::A, Peg::B) => a.move_to(b),
        (Peg::A, Peg::C) => a.move_to(c),
        (Peg::B, Peg::A) => b.move_to(a),
        (Peg::B, Peg::C) => b.move_to(c),
        (Peg::C, Peg::A) => c.move_to(a),
        (Peg::C, Peg::B) => c.move_to(b),
        _ => panic!("a move must name two distinct pegs"),
    };
    assert_eq!(r, MoveOutcome::Moved);
}

fn replay(moves: &[Move], n: usize) -> (Vec<usize>, Vec<usize>, Vec<usize>) {
    let mut a = Tower::full("A", n);
    let mut b = Tower::empty("B");
    let mut c = Tower::empty("C");
    for mv in moves {
        apply(&mut a, &mut b, &mut c, mv);
    }
    (a.discs(), b.discs(), c.discs())
}
