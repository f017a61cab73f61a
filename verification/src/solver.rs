use vstd::prelude::*;
use vstd::arithmetic::power2::pow2;
use vstd::arithmetic::power2::lemma_pow2_strictly_increases;
use crate::counter::Counter;
use crate::counter::lsb;
use crate::solution::all_discs;
use crate::solution::all_ge;
use crate::solution::apply_move;
use crate::solution::hanoi_moves;
use crate::solution::legal_move;
use crate::solution::legal_run;
use crate::solution::lemma_hanoi_lsb;
use crate::solution::lemma_hanoi_rot;
use crate::solution::lemma_hanoi_spare;
use crate::solution::lemma_legal_index;
use crate::solution::lemma_legal_take;
use crate::solution::lemma_no_early_full;
use crate::solution::lemma_play_state;
use crate::solution::lemma_play_take_succ;
use crate::solution::lemma_ramp_multiset;
use crate::solution::lemma_run_partition;
use crate::solution::lemma_run_valid;
use crate::solution::lemma_solution_complete;
use crate::solution::lemma_start_ready;
use crate::solution::lemma_valid_multiset_ramp;
use crate::solution::other_peg;
use crate::solution::peg_stack;
use crate::solution::play;
use crate::solution::rot_next;
use crate::solution::start_state;
use crate::solution::Peg;
use crate::solution::SpecMove;
use crate::tower::ramp;
use crate::tower::spec_can_move;
use crate::tower::Disc;
use crate::tower::MoveOutcome;
use crate::tower::Tower;

verus! {

/// One recorded move: disc `disc` left peg `from` for peg `to`.
#[derive(Clone, Copy, PartialEq, Eq, Structural, Debug)]
pub struct Move {
    pub disc: usize,
    pub from: Peg,
    pub to: Peg,
}

/// A recorded move, read at the specification level.
pub open spec fn move_view(m: Move) -> SpecMove {
    (m.disc as int, m.from, m.to)
}

/// A recorded move list, read at the specification level.
pub open spec fn moves_view(ms: Seq<Move>) -> Seq<SpecMove> {
    ms.map_values(|m: Move| move_view(m))
}

/// The classic recursive solver: moves the top `n` discs of `src`
/// onto `dst`, using `via` as the spare peg, one disc at a time
/// through `move_to`. The peg arguments only label the returned move
/// log; the log is exactly the classic solution sequence.
pub fn solve_r(
    src: &mut Tower,
    via: &mut Tower,
    dst: &mut Tower,
    n: usize,
    src_peg: Peg,
    via_peg: Peg,
    dst_peg: Peg,
) -> (moves: Vec<Move>)
    requires
        old(src)@.len() >= n,
        old(src)@.skip(old(src)@.len() - n) == ramp(n as nat),
        all_ge(old(src)@.take(old(src)@.len() - n), n as int),
        all_ge(old(via)@, n as int),
        all_ge(old(dst)@, n as int),
    ensures
        final(src)@ == old(src)@.take(old(src)@.len() - n),
        final(via)@ == old(via)@,
        final(dst)@ == old(dst)@ + ramp(n as nat),
        moves_view(moves@) == hanoi_moves(n as nat, src_peg, via_peg, dst_peg),
        final(src).name@ == old(src).name@,
        final(via).name@ == old(via).name@,
        final(dst).name@ == old(dst).name@,
    decreases n,
{
    if n == 0 {
        let moves: Vec<Move> = Vec::new();
        proof {
            assert(old(src)@.take(old(src)@.len() - 0) =~= old(src)@);
            assert(old(dst)@ + ramp(0) =~= old(dst)@);
            assert(moves_view(moves@) =~= hanoi_moves(0, src_peg, via_peg, dst_peg));
        }
        moves
    } else {
        let ghost src0 = src@;
        let ghost via0 = via@;
        let ghost dst0 = dst@;
        let m = n - 1;
        proof {
            assert(src0.skip(src0.len() - m) =~= ramp(m as nat)) by {
                assert(forall|i: int|
                    0 <= i < m ==> #[trigger] src0.skip(src0.len() - m)[i] == src0.skip(
                        src0.len() - n,
                    )[i + 1]);
            }
            assert(all_ge(src0.take(src0.len() - m), m as int)) by {
                assert(forall|i: int|
                    0 <= i < src0.len() - n ==> #[trigger] src0.take(src0.len() - m)[i]
                        == src0.take(src0.len() - n)[i]);
                assert(src0.take(src0.len() - m)[src0.len() - n] == src0.skip(src0.len() - n)[0]);
            }
        }
        let mut moves = solve_r(src, dst, via, m, src_peg, dst_peg, via_peg);
        proof {
            assert(src@.last() == src0.skip(src0.len() - n)[0]);
            assert(src@.last() == n - 1);
            if dst@.len() > 0 {
                assert(dst0[dst0.len() - 1] >= n);
            }
            assert(spec_can_move(src@, dst@));
        }
        let outcome = src.move_to(dst);
        moves.push(Move { disc: m, from: src_peg, to: dst_peg });
        proof {
            assert(src@ =~= src0.take(src0.len() - n));
            assert(via@.skip(via@.len() - m) =~= ramp(m as nat));
            assert(via@.take(via@.len() - m) =~= via0);
            assert(all_ge(dst@, m as int)) by {
                assert(forall|i: int| 0 <= i < dst0.len() ==> dst@[i] == dst0[i]);
                assert(dst@.last() == n - 1);
            }
        }
        let mut rest = solve_r(via, src, dst, m, via_peg, src_peg, dst_peg);
        moves.append(&mut rest);
        proof {
            assert(dst@ =~= dst0 + ramp(n as nat)) by {
                assert(forall|i: int|
                    0 <= i < m ==> dst0.push((n - 1) as int) + ramp(m as nat)
                        == dst@ && #[trigger] ramp(m as nat)[i] == m - 1 - i);
            }
            let l = hanoi_moves(m as nat, src_peg, dst_peg, via_peg);
            let r = hanoi_moves(m as nat, via_peg, src_peg, dst_peg);
            let big = ((n - 1) as int, src_peg, dst_peg);
            assert(moves_view(moves@) =~= (l + seq![big]) + r);
            assert(hanoi_moves(n as nat, src_peg, via_peg, dst_peg) == (l + seq![big]) + r);
        }
        moves
    }
}

/// The non-recursive solver, the heart of the library: each step
/// increments the sequencer counter, whose fresh lowest set bit names
/// the disc that must move; that disc is found by scanning the three
/// tops; the smallest disc follows its fixed rotation (chosen by the
/// parity of `num_discs`), every other disc goes to its only legal
/// destination. The loop runs until the destination tower holds all
/// discs, which takes exactly `pow2(num_discs) - 1` moves, and the
/// moves performed are exactly the classic recursive solution.
#[verifier::rlimit(100)]
pub fn solve_nr(a: &mut Tower, b: &mut Tower, c: &mut Tower, num_discs: usize) -> (moves: Vec<
    Move,
>)
    requires
        num_discs <= usize::MAX - 64,
        old(a)@ == ramp(num_discs as nat),
        old(b)@.len() == 0,
        old(c)@.len() == 0,
    ensures
        moves@.len() == pow2(num_discs as nat) - 1,
        moves_view(moves@) == hanoi_moves(num_discs as nat, Peg::A, Peg::B, Peg::C),
        final(a)@.len() == 0,
        final(b)@.len() == 0,
        final(c)@ == ramp(num_discs as nat),
{
    let ghost n = num_discs as nat;
    let ghost ms = hanoi_moves(n, Peg::A, Peg::B, Peg::C);
    let ghost st0 = start_state(n);
    proof {
        lemma_start_ready(n);
        lemma_solution_complete(n);
        lemma_hanoi_lsb(n, Peg::A, Peg::B, Peg::C);
        lemma_hanoi_rot(n, Peg::A, Peg::B, Peg::C);
        lemma_hanoi_spare(n, Peg::A, Peg::B, Peg::C, st0);
        assert(old(a)@ == peg_stack(st0, Peg::A));
        assert((old(a)@, old(b)@, old(c)@) =~= play(st0, ms.take(0)));
    }
    let mut counter = Counter::new(num_discs);
    let mut moves: Vec<Move> = Vec::new();
    let odd = num_discs % 2 == 1;
    while c.count() < num_discs
        invariant
            n == num_discs as nat,
            num_discs <= usize::MAX - 64,
            odd == (num_discs % 2 == 1),
            ms == hanoi_moves(n, Peg::A, Peg::B, Peg::C),
            st0 == start_state(n),
            ms.len() == pow2(n) - 1,
            legal_run(st0, ms),
            counter.wf(),
            counter.width() >= n,
            counter.value() == moves@.len(),
            moves@.len() <= ms.len(),
            moves_view(moves@) == ms.take(moves@.len() as int),
            (a@, b@, c@) == play(st0, ms.take(moves@.len() as int)),
        decreases ms.len() - moves@.len(),
    {
        let ghost t = moves@.len() as int;
        let ghost sti = play(st0, ms.take(t));
        proof {
            lemma_start_ready(n);
            lemma_solution_complete(n);
            lemma_hanoi_lsb(n, Peg::A, Peg::B, Peg::C);
            lemma_hanoi_rot(n, Peg::A, Peg::B, Peg::C);
            lemma_hanoi_spare(n, Peg::A, Peg::B, Peg::C, st0);
            if t == ms.len() {
                assert(ms.take(t) =~= ms);
                assert(c@ == ramp(n));
                assert(false);
            }
            // The counter can take one more step: its width covers n bits.
            assert(counter.value() + 1 < pow2(counter.width())) by {
                if n < counter.width() {
                    lemma_pow2_strictly_increases(n, counter.width());
                }
            }
        }
        counter.increment();
        let k = counter.last_rollover;
        proof {
            assert(counter.value() == t + 1);
            assert(k as nat == lsb((t + 1) as nat));
            lemma_legal_index(st0, ms, t);
            assert(legal_move(sti, ms[t]));
            assert(ms[t].0 == k as int);
            assert(peg_stack(sti, ms[t].1).last() == k as int);
            // Only one tower can show disc k on top: the board holds
            // each disc once.
            lemma_legal_take(st0, ms, t);
            broadcast use vstd::seq_lib::group_to_multiset_ensures;
            broadcast use vstd::multiset::group_multiset_axioms;

            lemma_run_partition(n, ms, t, k as int);
            assert(all_discs(sti).count(k as int) == a@.to_multiset().count(k as int)
                + b@.to_multiset().count(k as int) + c@.to_multiset().count(k as int));
            // Where the smallest disc must go next.
            if ms[t].0 == 0 {
                assert(ms[t].2 == rot_next(n, Peg::A, Peg::B, Peg::C, ms[t].1));
            }
        }
        let hit_a = match a.peek() {
            Disc::Occupied { index } => index == k,
            Disc::Empty => false,
        };
        let hit_b = match b.peek() {
            Disc::Occupied { index } => index == k,
            Disc::Empty => false,
        };
        proof {
            if hit_a && ms[t].1 != Peg::A {
                assert(a@.to_multiset().count(k as int) > 0);
                assert(peg_stack(sti, ms[t].1).to_multiset().count(k as int) > 0);
                assert(false);
            }
            if hit_b && ms[t].1 != Peg::B {
                assert(b@.to_multiset().count(k as int) > 0);
                assert(peg_stack(sti, ms[t].1).to_multiset().count(k as int) > 0);
                assert(false);
            }
            if !hit_a && !hit_b && ms[t].1 != Peg::C {
                assert(peg_stack(sti, ms[t].1).last() == k as int);
                assert(false);
            }
        }
        let from: Peg;
        let to: Peg;
        if hit_a {
            from = Peg::A;
            to = if k == 0 {
                if odd {
                    Peg::C
                } else {
                    Peg::B
                }
            } else if a.can_move(b) {
                Peg::B
            } else {
                Peg::C
            };
        } else if hit_b {
            from = Peg::B;
            to = if k == 0 {
                if odd {
                    Peg::A
                } else {
                    Peg::C
                }
            } else if b.can_move(c) {
                Peg::C
            } else {
                Peg::A
            };
        } else {
            from = Peg::C;
            to = if k == 0 {
                if odd {
                    Peg::B
                } else {
                    Peg::A
                }
            } else if c.can_move(a) {
                Peg::A
            } else {
                Peg::B
            };
        }
        proof {
            assert(from == ms[t].1);
            if ms[t].0 != 0 {
                let spare = other_peg(ms[t].1, ms[t].2);
                assert(peg_stack(sti, spare).len() > 0 && peg_stack(sti, spare).last() < ms[t].0);
                assert(!spec_can_move(peg_stack(sti, ms[t].1), peg_stack(sti, spare)));
                assert(spec_can_move(peg_stack(sti, ms[t].1), peg_stack(sti, ms[t].2)));
            }
            assert(to == ms[t].2);
        }
        let outcome = match (from, to) {
            (Peg::A, Peg::B) => a.move_to(b),
            (Peg::A, Peg::C) => a.move_to(c),
            (Peg::B, Peg::A) => b.move_to(a),
            (Peg::B, Peg::C) => b.move_to(c),
            (Peg::C, Peg::A) => c.move_to(a),
            (Peg::C, Peg::B) => c.move_to(b),
            _ => {
                proof {
                    assert(false);
                }
                MoveOutcome::Rejected
            },
        };
        moves.push(Move { disc: k, from, to });
        proof {
            lemma_play_take_succ(st0, ms, t);
            assert((a@, b@, c@) =~= apply_move(sti, ms[t]));
            assert(moves_view(moves@) =~= ms.take(t + 1));
        }
    }
    proof {
        let t = moves@.len() as int;
        let sti = play(st0, ms.take(t));
        broadcast use vstd::seq_lib::group_to_multiset_ensures;
        broadcast use vstd::multiset::group_multiset_axioms;

        lemma_legal_take(st0, ms, t);
        lemma_play_state(st0, ms.take(t));
        assert(c@.len() >= n);
        assert(all_discs(sti).len() == all_discs(st0).len());
        assert(all_discs(st0).len() == n) by {
            assert(ramp(n).to_multiset().len() == n);
            assert(Seq::<int>::empty().to_multiset().len() == 0);
        }
        assert(all_discs(sti).len() == a@.to_multiset().len() + b@.to_multiset().len()
            + c@.to_multiset().len());
        assert(a@.len() == 0 && b@.len() == 0 && c@.len() == n);
        assert forall|x: int| c@.to_multiset().count(x) == ramp(n).to_multiset().count(x) by {
            lemma_run_partition(n, ms, t, x);
            assert(!a@.contains(x));
            assert(!b@.contains(x));
            assert(all_discs(sti).count(x) == a@.to_multiset().count(x) + b@.to_multiset().count(
                x,
            ) + c@.to_multiset().count(x));
            lemma_ramp_multiset(n, x);
        }
        assert(c@.to_multiset() =~= ramp(n).to_multiset());
        lemma_run_valid(n, ms, t);
        lemma_valid_multiset_ramp(c@, n);
        assert(c@ == ramp(n));
        if t < ms.len() {
            lemma_no_early_full(n, Peg::A, Peg::B, Peg::C, st0, t);
            assert(peg_stack(st0, Peg::C) + ramp(n) =~= ramp(n));
            assert(false);
        }
        assert(ms.take(t) =~= ms);
        assert(moves_view(moves@) == ms);
        assert(moves@.len() == ms.len());
    }
    moves
}

} // verus!

verus! {

/// Builds the three towers and runs the non-recursive solver on
/// `num_discs` discs: the returned log is the exact solution
/// sequence, `pow2(num_discs) - 1` moves from `A` to `C`.
pub fn run_iterative(num_discs: usize) -> (moves: Vec<Move>)
    requires
        num_discs <= usize::MAX - 64,
    ensures
        moves@.len() == pow2(num_discs as nat) - 1,
        moves_view(moves@) == hanoi_moves(num_discs as nat, Peg::A, Peg::B, Peg::C),
{
    let mut a = Tower::full("A", num_discs);
    let mut b = Tower::empty("B");
    let mut c = Tower::empty("C");
    solve_nr(&mut a, &mut b, &mut c, num_discs)
}

/// Builds the three towers and runs the recursive solver on
/// `num_discs` discs: it performs the same solution sequence, so both
/// solvers move `pow2(num_discs) - 1` discs and leave the full tower
/// on `C`.
pub fn run_recursive(num_discs: usize) -> (moves: Vec<Move>)
    ensures
        moves@.len() == pow2(num_discs as nat) - 1,
        moves_view(moves@) == hanoi_moves(num_discs as nat, Peg::A, Peg::B, Peg::C),
{
    let mut a = Tower::full("A", num_discs);
    let mut b = Tower::empty("B");
    let mut c = Tower::empty("C");
    proof {
        assert(a@.skip(a@.len() - num_discs) =~= ramp(num_discs as nat));
        assert(all_ge(a@.take(a@.len() - num_discs), num_discs as int)) by {
            assert(a@.take(a@.len() - num_discs) =~= Seq::<int>::empty());
        }
        lemma_solution_complete(num_discs as nat);
    }
    solve_r(&mut a, &mut b, &mut c, num_discs, Peg::A, Peg::B, Peg::C)
}

} // verus!
