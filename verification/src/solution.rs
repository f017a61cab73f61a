use vstd::prelude::*;
use vstd::arithmetic::power2::pow2;
use vstd::arithmetic::power2::lemma_pow2_unfold;
use crate::counter::lsb;
use crate::counter::lemma_lsb_add_pow2;
use crate::counter::lemma_lsb_pow2;
use crate::tower::ramp;
use crate::tower::spec_can_move;
use crate::tower::valid_stack;

verus! {

/// One of the three pegs.
#[derive(Clone, Copy, PartialEq, Eq, Structural, Debug)]
pub enum Peg {
    A,
    B,
    C,
}

/// A configuration of the puzzle: what each peg holds, bottom first.
pub type Towers = (Seq<int>, Seq<int>, Seq<int>);

/// A single move: which disc moves, from which peg, to which peg.
pub type SpecMove = (int, Peg, Peg);

/// The stack on peg `p`.
pub open spec fn peg_stack(st: Towers, p: Peg) -> Seq<int> {
    match p {
        Peg::A => st.0,
        Peg::B => st.1,
        Peg::C => st.2,
    }
}

/// `st` with peg `p` replaced by `s`.
pub open spec fn with_peg(st: Towers, p: Peg, s: Seq<int>) -> Towers {
    match p {
        Peg::A => (s, st.1, st.2),
        Peg::B => (st.0, s, st.2),
        Peg::C => (st.0, st.1, s),
    }
}

/// The third peg, the one that is neither `p` nor `q`.
pub open spec fn other_peg(p: Peg, q: Peg) -> Peg {
    if p != Peg::A && q != Peg::A {
        Peg::A
    } else if p != Peg::B && q != Peg::B {
        Peg::B
    } else {
        Peg::C
    }
}

/// A move is legal when it names two distinct pegs, the disc it names
/// is the source's top disc, and the destination accepts it.
pub open spec fn legal_move(st: Towers, m: SpecMove) -> bool {
    &&& m.1 != m.2
    &&& peg_stack(st, m.1).len() > 0
    &&& peg_stack(st, m.1).last() == m.0
    &&& spec_can_move(peg_stack(st, m.1), peg_stack(st, m.2))
}

/// The configuration after performing `m`: the source loses its top
/// disc and the destination gains it.
pub open spec fn apply_move(st: Towers, m: SpecMove) -> Towers {
    with_peg(
        with_peg(st, m.1, peg_stack(st, m.1).drop_last()),
        m.2,
        peg_stack(st, m.2).push(m.0),
    )
}

/// The configuration after performing every move of `ms` in order.
pub open spec fn play(st: Towers, ms: Seq<SpecMove>) -> Towers
    decreases ms.len(),
{
    if ms.len() == 0 {
        st
    } else {
        play(apply_move(st, ms[0]), ms.drop_first())
    }
}

/// Every move of `ms` is legal in the configuration it finds.
pub open spec fn legal_run(st: Towers, ms: Seq<SpecMove>) -> bool
    decreases ms.len(),
{
    ms.len() == 0 || (legal_move(st, ms[0]) && legal_run(apply_move(st, ms[0]), ms.drop_first()))
}

/// The classic solution: to move `n` discs from `f` to `t`, park the
/// `n-1` smaller ones on `v`, move disc `n-1`, then bring them back
/// on top of it.
pub open spec fn hanoi_moves(n: nat, f: Peg, v: Peg, t: Peg) -> Seq<SpecMove>
    decreases n,
{
    if n == 0 {
        Seq::empty()
    } else {
        hanoi_moves((n - 1) as nat, f, t, v) + seq![((n - 1) as int, f, t)] + hanoi_moves(
            (n - 1) as nat,
            v,
            f,
            t,
        )
    }
}

/// The cycle the smallest disc follows when `n` discs go from `f` to
/// `t` via `v`: for odd `n` it is f, t, v, f, ...; for even `n` it is
/// f, v, t, f, ....
pub open spec fn rot_next(n: nat, f: Peg, v: Peg, t: Peg, p: Peg) -> Peg {
    if n % 2 == 1 {
        if p == f {
            t
        } else if p == t {
            v
        } else {
            f
        }
    } else {
        if p == f {
            v
        } else if p == v {
            t
        } else {
            f
        }
    }
}

/// Every disc of `s` has index at least `n`.
pub open spec fn all_ge(s: Seq<int>, n: int) -> bool {
    forall|i: int| 0 <= i < s.len() ==> s[i] >= n
}

/// Ready to move `n` discs from `f` to `t`: the `n` smallest discs
/// sit on top of `f` in order, and every other disc anywhere is
/// larger than all of them.
pub open spec fn hanoi_ready(n: nat, f: Peg, v: Peg, t: Peg, st: Towers) -> bool {
    &&& f != v && v != t && f != t
    &&& peg_stack(st, f).len() >= n
    &&& peg_stack(st, f).skip(peg_stack(st, f).len() - n) == ramp(n)
    &&& all_ge(peg_stack(st, f).take(peg_stack(st, f).len() - n), n as int)
    &&& all_ge(peg_stack(st, v), n as int)
    &&& all_ge(peg_stack(st, t), n as int)
}

/// Playing a concatenation plays the parts in order.
pub proof fn lemma_play_concat(st: Towers, ms1: Seq<SpecMove>, ms2: Seq<SpecMove>)
    ensures
        play(st, ms1 + ms2) == play(play(st, ms1), ms2),
    decreases ms1.len(),
{
    if ms1.len() == 0 {
        assert(ms1 + ms2 =~= ms2);
    } else {
        assert((ms1 + ms2)[0] == ms1[0]);
        assert((ms1 + ms2).drop_first() =~= ms1.drop_first() + ms2);
        lemma_play_concat(apply_move(st, ms1[0]), ms1.drop_first(), ms2);
    }
}

/// A concatenation is a legal run exactly when the first part is and
/// the second part is, starting where the first part ends.
pub proof fn lemma_legal_concat(st: Towers, ms1: Seq<SpecMove>, ms2: Seq<SpecMove>)
    ensures
        legal_run(st, ms1 + ms2) <==> (legal_run(st, ms1) && legal_run(play(st, ms1), ms2)),
    decreases ms1.len(),
{
    if ms1.len() == 0 {
        assert(ms1 + ms2 =~= ms2);
    } else {
        assert((ms1 + ms2)[0] == ms1[0]);
        assert((ms1 + ms2).drop_first() =~= ms1.drop_first() + ms2);
        lemma_legal_concat(apply_move(st, ms1[0]), ms1.drop_first(), ms2);
    }
}

/// A prefix of a legal run is a legal run.
pub proof fn lemma_legal_take(st: Towers, ms: Seq<SpecMove>, i: int)
    requires
        legal_run(st, ms),
        0 <= i <= ms.len(),
    ensures
        legal_run(st, ms.take(i)),
{
    assert(ms =~= ms.take(i) + ms.skip(i));
    lemma_legal_concat(st, ms.take(i), ms.skip(i));
}

/// Each move of a legal run is legal in the configuration reached by
/// the moves before it.
pub proof fn lemma_legal_index(st: Towers, ms: Seq<SpecMove>, i: int)
    requires
        legal_run(st, ms),
        0 <= i < ms.len(),
    ensures
        legal_move(play(st, ms.take(i)), ms[i]),
{
    assert(ms =~= ms.take(i) + ms.skip(i));
    lemma_legal_concat(st, ms.take(i), ms.skip(i));
    assert(legal_run(play(st, ms.take(i)), ms.skip(i)));
    assert(ms.skip(i)[0] == ms[i]);
}

/// Extending the played prefix by one move applies that move.
pub proof fn lemma_play_take_succ(st: Towers, ms: Seq<SpecMove>, i: int)
    requires
        0 <= i < ms.len(),
    ensures
        play(st, ms.take(i + 1)) == apply_move(play(st, ms.take(i)), ms[i]),
{
    assert(ms.take(i + 1) =~= ms.take(i) + seq![ms[i]]);
    lemma_play_concat(st, ms.take(i), seq![ms[i]]);
    let st1 = play(st, ms.take(i));
    assert(play(st1, seq![ms[i]]) == apply_move(st1, ms[i])) by {
        assert(seq![ms[i]][0] == ms[i]);
        assert(seq![ms[i]].drop_first() =~= Seq::<SpecMove>::empty());
        assert(play(apply_move(st1, ms[i]), seq![ms[i]].drop_first()) == apply_move(st1, ms[i]));
    }
}

/// The solution for `n` discs takes `pow2(n) - 1` moves.
pub proof fn lemma_hanoi_len(n: nat, f: Peg, v: Peg, t: Peg)
    ensures
        hanoi_moves(n, f, v, t).len() == pow2(n) - 1,
    decreases n,
{
    if n == 0 {
        vstd::arithmetic::power2::lemma2_to64();
    } else {
        lemma_hanoi_len((n - 1) as nat, f, t, v);
        lemma_hanoi_len((n - 1) as nat, v, f, t);
        lemma_pow2_unfold(n);
    }
}

/// Every move of the solution for `n` discs names a disc below `n`.
pub proof fn lemma_hanoi_discs(n: nat, f: Peg, v: Peg, t: Peg)
    ensures
        forall|i: int|
            0 <= i < hanoi_moves(n, f, v, t).len() ==> 0 <= #[trigger] hanoi_moves(
                n,
                f,
                v,
                t,
            )[i].0 < n,
    decreases n,
{
    if n > 0 {
        let l = hanoi_moves((n - 1) as nat, f, t, v);
        let r = hanoi_moves((n - 1) as nat, v, f, t);
        let all = hanoi_moves(n, f, v, t);
        lemma_hanoi_discs((n - 1) as nat, f, t, v);
        lemma_hanoi_discs((n - 1) as nat, v, f, t);
        assert forall|i: int| 0 <= i < all.len() implies 0 <= #[trigger] all[i].0 < n by {
            if i < l.len() {
                assert(all[i] == l[i]);
            } else if i == l.len() {
                assert(all[i] == ((n - 1) as int, f, t));
            } else {
                assert(all[i] == r[i - l.len() - 1]);
            }
        }
    }
}

/// The move at position `i` of the solution (counting from zero)
/// names the disc at the lowest set bit of `i + 1`: step `t` of the
/// run moves disc `lsb(t)`.
pub proof fn lemma_hanoi_lsb(n: nat, f: Peg, v: Peg, t: Peg)
    ensures
        forall|i: int|
            0 <= i < hanoi_moves(n, f, v, t).len() ==> #[trigger] hanoi_moves(n, f, v, t)[i].0
                == lsb((i + 1) as nat),
    decreases n,
{
    if n > 0 {
        let l = hanoi_moves((n - 1) as nat, f, t, v);
        let r = hanoi_moves((n - 1) as nat, v, f, t);
        let all = hanoi_moves(n, f, v, t);
        let m = (n - 1) as nat;
        lemma_hanoi_lsb(m, f, t, v);
        lemma_hanoi_lsb(m, v, f, t);
        lemma_hanoi_len(m, f, t, v);
        lemma_hanoi_len(m, v, f, t);
        assert forall|i: int| 0 <= i < all.len() implies #[trigger] all[i].0 == lsb(
            (i + 1) as nat,
        ) by {
            if i < l.len() {
                assert(all[i] == l[i]);
            } else if i == l.len() {
                assert(all[i] == ((n - 1) as int, f, t));
                lemma_lsb_pow2(m);
            } else {
                let j = i - l.len() - 1;
                assert(all[i] == r[j]);
                assert(r[j].0 == lsb((j + 1) as nat));
                assert(i + 1 == (j + 1) + pow2(m));
                vstd::arithmetic::power2::lemma_pow2_pos(m);
                lemma_lsb_add_pow2((j + 1) as nat, m);
            }
        }
    }
}

} // verus!

verus! {

/// All discs on the board, over all three pegs.
pub open spec fn all_discs(st: Towers) -> vstd::multiset::Multiset<int> {
    st.0.to_multiset().add(st.1.to_multiset()).add(st.2.to_multiset())
}

/// Every peg is physically legal.
pub open spec fn all_valid(st: Towers) -> bool {
    valid_stack(st.0) && valid_stack(st.1) && valid_stack(st.2)
}

/// Playing one move applies it.
pub proof fn lemma_play_single(st: Towers, m: SpecMove)
    ensures
        play(st, seq![m]) == apply_move(st, m),
{
    assert(seq![m][0] == m);
    assert(seq![m].drop_first() =~= Seq::<SpecMove>::empty());
    assert(play(apply_move(st, m), seq![m].drop_first()) == apply_move(st, m));
}

/// A legal move transfers one disc and nothing else: the board's
/// multiset of discs is unchanged, physical legality of every peg is
/// kept, and membership of every other disc on every peg is kept.
pub proof fn lemma_apply_move_state(st: Towers, m: SpecMove)
    requires
        legal_move(st, m),
    ensures
        all_discs(apply_move(st, m)) == all_discs(st),
        all_valid(st) ==> all_valid(apply_move(st, m)),
        forall|p: Peg, x: int|
            x != m.0 ==> (#[trigger] peg_stack(apply_move(st, m), p).contains(x)
                <==> peg_stack(st, p).contains(x)),
{
    broadcast use vstd::seq_lib::group_to_multiset_ensures;
    broadcast use vstd::multiset::group_multiset_axioms;

    let src = peg_stack(st, m.1);
    let dst = peg_stack(st, m.2);
    let st2 = apply_move(st, m);
    assert(peg_stack(st2, m.1) == src.drop_last());
    assert(peg_stack(st2, m.2) == dst.push(m.0));
    assert(peg_stack(st2, other_peg(m.1, m.2)) == peg_stack(st, other_peg(m.1, m.2)));
    assert(src.drop_last() =~= src.remove(src.len() - 1));
    assert(src.remove(src.len() - 1).to_multiset() =~= src.to_multiset().remove(m.0));
    assert(dst.push(m.0).to_multiset() =~= dst.to_multiset().insert(m.0));
    assert(src.contains(m.0));
    assert(src.to_multiset().count(m.0) > 0);
    assert(all_discs(st2) =~= all_discs(st));

    if all_valid(st) {
        crate::tower::lemma_move_preserves_validity(src, dst);
    }
    assert forall|p: Peg, x: int|
        x != m.0 implies (#[trigger] peg_stack(st2, p).contains(x) <==> peg_stack(
        st,
        p,
    ).contains(x)) by {
        if p == m.1 {
            if src.contains(x) {
                let w = choose|w: int| 0 <= w < src.len() && src[w] == x;
                assert(w != src.len() - 1);
                assert(src.drop_last()[w] == x);
            }
        } else if p == m.2 {
            if dst.push(m.0).contains(x) {
                let w = choose|w: int| 0 <= w < dst.push(m.0).len() && dst.push(m.0)[w] == x;
                assert(w != dst.len());
                assert(dst[w] == x);
            }
            if dst.contains(x) {
                let w = choose|w: int| 0 <= w < dst.len() && dst[w] == x;
                assert(dst.push(m.0)[w] == x);
            }
        }
    }
}

/// A legal run transfers discs and nothing else: the board's multiset
/// of discs and the physical legality of every peg are preserved.
pub proof fn lemma_play_state(st: Towers, ms: Seq<SpecMove>)
    requires
        legal_run(st, ms),
    ensures
        all_discs(play(st, ms)) == all_discs(st),
        all_valid(st) ==> all_valid(play(st, ms)),
    decreases ms.len(),
{
    if ms.len() > 0 {
        lemma_apply_move_state(st, ms[0]);
        lemma_play_state(apply_move(st, ms[0]), ms.drop_first());
    }
}

/// A disc that no move of a legal run names stays exactly where it
/// is: its membership on each peg is unchanged throughout.
pub proof fn lemma_play_contains(st: Towers, ms: Seq<SpecMove>, x: int)
    requires
        legal_run(st, ms),
        forall|j: int| 0 <= j < ms.len() ==> #[trigger] ms[j].0 != x,
    ensures
        forall|p: Peg|
            #[trigger] peg_stack(play(st, ms), p).contains(x) <==> peg_stack(st, p).contains(x),
    decreases ms.len(),
{
    if ms.len() > 0 {
        lemma_apply_move_state(st, ms[0]);
        assert(forall|j: int|
            0 <= j < ms.drop_first().len() ==> #[trigger] ms.drop_first()[j].0 != x);
        lemma_play_contains(apply_move(st, ms[0]), ms.drop_first(), x);
        assert forall|p: Peg|
            #[trigger] peg_stack(play(st, ms), p).contains(x) <==> peg_stack(
            st,
            p,
        ).contains(x) by {
            assert(peg_stack(play(apply_move(st, ms[0]), ms.drop_first()), p).contains(x)
                <==> peg_stack(apply_move(st, ms[0]), p).contains(x));
            assert(peg_stack(apply_move(st, ms[0]), p).contains(x) <==> peg_stack(
                st,
                p,
            ).contains(x));
        }
    }
}

/// The full tower holds each disc below `n` exactly once and nothing
/// else.
pub proof fn lemma_ramp_multiset(n: nat, x: int)
    ensures
        ramp(n).to_multiset().count(x) == if 0 <= x < n {
            1nat
        } else {
            0nat
        },
    decreases n,
{
    broadcast use vstd::seq_lib::group_to_multiset_ensures;
    broadcast use vstd::multiset::group_multiset_axioms;

    if n == 0 {
        assert(!ramp(0).contains(x));
        assert(ramp(0).to_multiset().count(x) == 0);
    } else {
        assert(ramp(n).remove(0) =~= ramp((n - 1) as nat));
        assert(ramp(n)[0] == n - 1);
        assert(ramp(n).contains(n - 1));
        assert(ramp(n).to_multiset().count(n - 1) > 0);
        assert(ramp((n - 1) as nat).to_multiset() =~= ramp(n).to_multiset().remove(n - 1));
        lemma_ramp_multiset((n - 1) as nat, x);
    }
}

/// A physically legal stack is determined by its discs: if it holds
/// exactly the discs of the full tower, it is the full tower.
pub proof fn lemma_valid_multiset_ramp(s: Seq<int>, n: nat)
    requires
        valid_stack(s),
        s.to_multiset() == ramp(n).to_multiset(),
    ensures
        s == ramp(n),
    decreases n,
{
    broadcast use vstd::seq_lib::group_to_multiset_ensures;
    broadcast use vstd::multiset::group_multiset_axioms;

    if n == 0 {
        assert(s.to_multiset().len() == 0);
        assert(s =~= ramp(0));
    } else {
        assert(s.to_multiset().len() == s.len());
        assert(ramp(n).to_multiset().len() == ramp(n).len());
        assert(s.len() == n);
        crate::tower::lemma_valid_stack_pairwise(s);
        lemma_ramp_multiset(n, n - 1);
        assert(s.to_multiset().count(n - 1) == 1);
        assert(s.to_multiset().contains(n - 1));
        assert(s.contains(n - 1));
        let w = choose|w: int| 0 <= w < s.len() && s[w] == n - 1;
        assert(s[0] < n) by {
            lemma_ramp_multiset(n, s[0]);
            assert(s.to_multiset().count(s[0]) > 0);
        }
        assert(w == 0);
        assert(s[0] == n - 1);
        let rest = s.drop_first();
        assert(rest =~= s.remove(0));
        assert(rest.to_multiset() =~= s.to_multiset().remove(n - 1));
        assert(ramp((n - 1) as nat) =~= ramp(n).remove(0));
        assert(ramp((n - 1) as nat).to_multiset() =~= ramp(n).to_multiset().remove(n - 1));
        assert(valid_stack(rest)) by {
            assert(forall|i: int| 0 <= i < rest.len() - 1 ==> rest[i] == s[i + 1]);
        }
        lemma_valid_multiset_ramp(rest, (n - 1) as nat);
        assert(forall|i: int| 1 <= i < s.len() ==> s[i] == rest[i - 1]);
        assert(s =~= ramp(n));
    }
}

} // verus!

verus! {

/// Where the solution leaves the board: the `n` moved discs now sit
/// on top of `t`, and `f` keeps only what was beneath them.
pub open spec fn hanoi_result(n: nat, f: Peg, t: Peg, st: Towers) -> Towers {
    with_peg(
        with_peg(st, f, peg_stack(st, f).take(peg_stack(st, f).len() - n)),
        t,
        peg_stack(st, t) + ramp(n),
    )
}

/// Soundness of the classic solution: from a ready configuration the
/// whole run is legal and ends with the `n` moved discs on `t`, with
/// everything else untouched.
#[verifier::rlimit(100)]
pub proof fn lemma_hanoi(n: nat, f: Peg, v: Peg, t: Peg, st: Towers)
    requires
        hanoi_ready(n, f, v, t, st),
    ensures
        legal_run(st, hanoi_moves(n, f, v, t)),
        play(st, hanoi_moves(n, f, v, t)) == hanoi_result(n, f, t, st),
    decreases n,
{
    let hm = hanoi_moves(n, f, v, t);
    let src = peg_stack(st, f);
    if n == 0 {
        assert(hm =~= Seq::<SpecMove>::empty());
        assert(src.take(src.len() - 0) =~= src);
        assert(peg_stack(st, t) + ramp(0) =~= peg_stack(st, t));
        assert(play(st, hm) =~= hanoi_result(n, f, t, st)) by {
            assert(hanoi_result(n, f, t, st).0 =~= st.0);
            assert(hanoi_result(n, f, t, st).1 =~= st.1);
            assert(hanoi_result(n, f, t, st).2 =~= st.2);
        }
    } else {
        let m = (n - 1) as nat;
        let l = hanoi_moves(m, f, t, v);
        let big = seq![((n - 1) as int, f, t)];
        let r = hanoi_moves(m, v, f, t);
        assert(hm == (l + big) + r);
        let base = src.take(src.len() - n);

        // The first half is ready: the n-1 smaller discs sit on top
        // of f above disc n-1, and everything else is larger.
        assert(src.skip(src.len() - m) =~= ramp(m)) by {
            assert(forall|i: int|
                0 <= i < m ==> #[trigger] src.skip(src.len() - m)[i] == src.skip(
                    src.len() - n,
                )[i + 1]);
        }
        assert(all_ge(src.take(src.len() - m), m as int)) by {
            assert(forall|i: int|
                0 <= i < src.len() - n ==> src.take(src.len() - m)[i] == base[i]);
            assert(src.take(src.len() - m)[src.len() - n] == src.skip(src.len() - n)[0]);
        }
        assert(hanoi_ready(m, f, t, v, st));
        lemma_hanoi(m, f, t, v, st);
        let st1 = play(st, l);
        assert(st1 == hanoi_result(m, f, v, st));
        let src1 = peg_stack(st1, f);
        assert(src1 == src.take(src.len() - m));
        assert(peg_stack(st1, v) == peg_stack(st, v) + ramp(m));
        assert(peg_stack(st1, t) == peg_stack(st, t));

        // The big move is legal where the first half ends.
        let bm = ((n - 1) as int, f, t);
        assert(src1.len() == src.len() - m);
        assert(src1.last() == src[src.len() - n]);
        assert(src[src.len() - n] == src.skip(src.len() - n)[0]);
        assert(src1.last() == n - 1);
        assert(legal_move(st1, bm)) by {
            if peg_stack(st1, t).len() > 0 {
                assert(peg_stack(st, t).last() >= n);
            }
        }
        let st2 = apply_move(st1, bm);
        lemma_play_single(st1, bm);
        assert(peg_stack(st2, f) == src1.drop_last());
        assert(src1.drop_last() =~= base);
        assert(peg_stack(st2, t) == peg_stack(st, t).push((n - 1) as int));
        assert(peg_stack(st2, v) == peg_stack(st1, v));

        // The second half is ready: the n-1 smaller discs sit on v,
        // and disc n-1 now caps t without being smaller than any of
        // them.
        let v2 = peg_stack(st2, v);
        assert(v2.skip(v2.len() - m) =~= ramp(m)) by {
            assert(forall|i: int|
                0 <= i < m ==> v2.skip(v2.len() - m)[i] == ramp(m)[i]);
        }
        assert(v2.take(v2.len() - m) =~= peg_stack(st, v));
        assert(all_ge(peg_stack(st2, t), m as int)) by {
            assert(forall|i: int|
                0 <= i < peg_stack(st, t).len() ==> peg_stack(st2, t)[i] == peg_stack(st, t)[i]);
            assert(peg_stack(st2, t).last() == n - 1);
        }
        assert(hanoi_ready(m, v, f, t, st2));
        lemma_hanoi(m, v, f, t, st2);
        let st3 = play(st2, r);
        assert(st3 == hanoi_result(m, v, t, st2));
        assert(peg_stack(st3, v) == v2.take(v2.len() - m));
        assert(peg_stack(st3, f) == peg_stack(st2, f));
        assert(peg_stack(st3, t) == peg_stack(st2, t) + ramp(m));

        // Assemble the run: legality and the final configuration.
        lemma_legal_concat(st, l, big);
        assert(legal_run(st1, big)) by {
            assert(big[0] == bm);
            assert(big.drop_first() =~= Seq::<SpecMove>::empty());
            assert(legal_run(apply_move(st1, bm), Seq::<SpecMove>::empty()));
        }
        lemma_play_concat(st, l, big);
        assert(play(st, l + big) == st2);
        lemma_legal_concat(st, l + big, r);
        assert(legal_run(st, hm));
        lemma_play_concat(st, l + big, r);
        assert(play(st, hm) == st3);
        assert(peg_stack(st3, t) =~= peg_stack(st, t) + ramp(n)) by {
            assert(forall|i: int|
                0 <= i < m ==> peg_stack(st2, t).len() + i < peg_stack(st3, t).len()
                    && #[trigger] ramp(m)[i] == m - 1 - i);
        }
        assert(play(st, hm) == hanoi_result(n, f, t, st)) by {
            assert(peg_stack(st3, f) == base);
            assert(peg_stack(st3, v) =~= peg_stack(st, v));
            assert(peg_stack(st3, t) =~= peg_stack(st, t) + ramp(n));
            let hr = hanoi_result(n, f, t, st);
            assert(peg_stack(hr, f) == base);
            assert(peg_stack(hr, v) == peg_stack(st, v));
            assert(peg_stack(hr, t) == peg_stack(st, t) + ramp(n));
            assert(st3.0 =~= hr.0);
            assert(st3.1 =~= hr.1);
            assert(st3.2 =~= hr.2);
        }

    }
}

} // verus!

verus! {

/// The smallest disc always travels along one fixed cycle of the
/// pegs, determined once by the parity of the number of discs.
pub proof fn lemma_hanoi_rot(n: nat, f: Peg, v: Peg, t: Peg)
    requires
        f != v && v != t && f != t,
    ensures
        forall|i: int|
            0 <= i < hanoi_moves(n, f, v, t).len() && #[trigger] hanoi_moves(n, f, v, t)[i].0 == 0
                ==> hanoi_moves(n, f, v, t)[i].2 == rot_next(
                n,
                f,
                v,
                t,
                hanoi_moves(n, f, v, t)[i].1,
            ),
    decreases n,
{
    if n > 0 {
        let m = (n - 1) as nat;
        let hm = hanoi_moves(n, f, v, t);
        let l = hanoi_moves(m, f, t, v);
        let big = seq![((n - 1) as int, f, t)];
        let r = hanoi_moves(m, v, f, t);
        assert(hm == (l + big) + r);
        lemma_hanoi_rot(m, f, t, v);
        lemma_hanoi_rot(m, v, f, t);
        assert(forall|p: Peg| rot_next(m, f, t, v, p) == rot_next(n, f, v, t, p));
        assert(forall|p: Peg| rot_next(m, v, f, t, p) == rot_next(n, f, v, t, p));
        assert forall|i: int| 0 <= i < hm.len() && #[trigger] hm[i].0 == 0 implies hm[i].2
            == rot_next(n, f, v, t, hm[i].1) by {
            if i < l.len() {
                assert(hm[i] == l[i]);
                assert(l[i].2 == rot_next(m, f, t, v, l[i].1));
            } else if i == l.len() {
                assert(hm[i] == ((n - 1) as int, f, t));
                assert(n == 1);
            } else {
                let j = i - l.len() - 1;
                assert(hm[i] == r[j]);
                assert(r[j].2 == rot_next(m, v, f, t, r[j].1));
            }
        }
    }
}

/// Whenever a disc other than the smallest moves, the spare peg (the
/// one it neither leaves nor lands on) shows a strictly smaller disc:
/// the chosen destination is the only legal one for that disc.
#[verifier::rlimit(100)]
pub proof fn lemma_hanoi_spare(n: nat, f: Peg, v: Peg, t: Peg, st: Towers)
    requires
        hanoi_ready(n, f, v, t, st),
    ensures
        forall|i: int|
            0 <= i < hanoi_moves(n, f, v, t).len() && #[trigger] hanoi_moves(n, f, v, t)[i].0 != 0
                ==> peg_stack(
                play(st, hanoi_moves(n, f, v, t).take(i)),
                other_peg(hanoi_moves(n, f, v, t)[i].1, hanoi_moves(n, f, v, t)[i].2),
            ).len() > 0 && peg_stack(
                play(st, hanoi_moves(n, f, v, t).take(i)),
                other_peg(hanoi_moves(n, f, v, t)[i].1, hanoi_moves(n, f, v, t)[i].2),
            ).last() < hanoi_moves(n, f, v, t)[i].0,
    decreases n,
{
    if n > 0 {
        let m = (n - 1) as nat;
        let hm = hanoi_moves(n, f, v, t);
        let l = hanoi_moves(m, f, t, v);
        let big = seq![((n - 1) as int, f, t)];
        let bm = ((n - 1) as int, f, t);
        let r = hanoi_moves(m, v, f, t);
        assert(hm == (l + big) + r);
        let src = peg_stack(st, f);
        let base = src.take(src.len() - n);

        // The first half starts ready.
        assert(src.skip(src.len() - m) =~= ramp(m)) by {
            assert(forall|i: int|
                0 <= i < m ==> #[trigger] src.skip(src.len() - m)[i] == src.skip(
                    src.len() - n,
                )[i + 1]);
        }
        assert(all_ge(src.take(src.len() - m), m as int)) by {
            assert(forall|i: int|
                0 <= i < src.len() - n ==> src.take(src.len() - m)[i] == base[i]);
            assert(src.take(src.len() - m)[src.len() - n] == src.skip(src.len() - n)[0]);
        }
        assert(hanoi_ready(m, f, t, v, st));
        lemma_hanoi(m, f, t, v, st);
        lemma_hanoi_spare(m, f, t, v, st);
        let st1 = play(st, l);
        let src1 = peg_stack(st1, f);
        assert(src1 == src.take(src.len() - m));
        let st2 = apply_move(st1, bm);
        lemma_play_single(st1, bm);

        // The second half starts ready where the big move ends.
        assert(peg_stack(st2, f) =~= base);
        assert(peg_stack(st2, v) == peg_stack(st, v) + ramp(m));
        assert(peg_stack(st2, t) == peg_stack(st, t).push((n - 1) as int));
        let v2 = peg_stack(st2, v);
        assert(v2.skip(v2.len() - m) =~= ramp(m)) by {
            assert(forall|i: int| 0 <= i < m ==> v2.skip(v2.len() - m)[i] == ramp(m)[i]);
        }
        assert(v2.take(v2.len() - m) =~= peg_stack(st, v));
        assert(all_ge(peg_stack(st2, t), m as int)) by {
            assert(forall|i: int|
                0 <= i < peg_stack(st, t).len() ==> peg_stack(st2, t)[i] == peg_stack(st, t)[i]);
            assert(peg_stack(st2, t).last() == n - 1);
        }
        assert(hanoi_ready(m, v, f, t, st2));
        lemma_hanoi_spare(m, v, f, t, st2);

        lemma_hanoi_len(m, f, t, v);
        assert forall|i: int|
            0 <= i < hm.len() && #[trigger] hm[i].0 != 0 implies peg_stack(
            play(st, hm.take(i)),
            other_peg(hm[i].1, hm[i].2),
        ).len() > 0 && peg_stack(play(st, hm.take(i)), other_peg(hm[i].1, hm[i].2)).last()
            < hm[i].0 by {
            if i < l.len() {
                assert(hm[i] == l[i]);
                assert(hm.take(i) =~= l.take(i));
            } else if i == l.len() {
                assert(hm[i] == bm);
                assert(hm.take(i) =~= l);
                assert(play(st, hm.take(i)) == st1);
                assert(other_peg(f, t) == v);
                assert(peg_stack(st1, v) == peg_stack(st, v) + ramp(m));
                assert(m >= 1);
                assert(peg_stack(st1, v).last() == ramp(m)[m - 1]);
                assert(peg_stack(st1, v).last() == 0);
            } else {
                let j = i - l.len() - 1;
                assert(hm[i] == r[j]);
                assert(hm.take(i) =~= (l + big) + r.take(j));
                lemma_play_concat(st, l + big, r.take(j));
                lemma_play_concat(st, l, big);
                assert(play(st, l + big) == st2);
                assert(play(st, hm.take(i)) == play(st2, r.take(j)));
            }
        }
    }
}

} // verus!

verus! {

/// The destination never shows the finished tower before the run is
/// over: as long as moves remain, peg `t` differs from its final
/// content. In particular the first configuration with all discs on
/// `t` is the last one.
#[verifier::rlimit(100)]
pub proof fn lemma_no_early_full(n: nat, f: Peg, v: Peg, t: Peg, st: Towers, i: int)
    requires
        hanoi_ready(n, f, v, t, st),
        0 <= i < hanoi_moves(n, f, v, t).len(),
    ensures
        peg_stack(play(st, hanoi_moves(n, f, v, t).take(i)), t) != peg_stack(st, t) + ramp(n),
    decreases n,
{
    broadcast use vstd::seq_lib::group_to_multiset_ensures;
    broadcast use vstd::multiset::group_multiset_axioms;

    let m = (n - 1) as nat;
    let hm = hanoi_moves(n, f, v, t);
    let l = hanoi_moves(m, f, t, v);
    let big = seq![((n - 1) as int, f, t)];
    let bm = ((n - 1) as int, f, t);
    let r = hanoi_moves(m, v, f, t);
    assert(n >= 1);
    assert(hm == (l + big) + r);
    let src = peg_stack(st, f);
    let base = src.take(src.len() - n);
    let full = peg_stack(st, t) + ramp(n);

    // The first half starts ready.
    assert(src.skip(src.len() - m) =~= ramp(m)) by {
        assert(forall|i: int|
            0 <= i < m ==> #[trigger] src.skip(src.len() - m)[i] == src.skip(
                src.len() - n,
            )[i + 1]);
    }
    assert(all_ge(src.take(src.len() - m), m as int)) by {
        assert(forall|i: int| 0 <= i < src.len() - n ==> src.take(src.len() - m)[i] == base[i]);
        assert(src.take(src.len() - m)[src.len() - n] == src.skip(src.len() - n)[0]);
    }
    assert(hanoi_ready(m, f, t, v, st));
    lemma_hanoi(m, f, t, v, st);
    lemma_hanoi_len(m, f, t, v);
    let st1 = play(st, l);
    let st2 = apply_move(st1, bm);
    lemma_play_single(st1, bm);

    if i <= l.len() {
        // Disc n-1 is still on f, so t cannot show the full tower,
        // which contains disc n-1: the board holds it only once.
        let pre = l.take(i);
        let sti = play(st, pre);
        assert(hm.take(i) =~= pre);
        lemma_legal_take(st, l, i);
        lemma_hanoi_discs(m, f, t, v);
        assert(forall|j: int| 0 <= j < pre.len() ==> #[trigger] pre[j].0 != n - 1) by {
            assert(forall|j: int| 0 <= j < pre.len() ==> pre[j] == l[j]);
        }
        lemma_play_contains(st, pre, n - 1);
        assert(src[src.len() - n] == src.skip(src.len() - n)[0]);
        assert(src.contains(n - 1));
        assert(peg_stack(sti, f).contains(n - 1));
        lemma_play_state(st, pre);
        assert(all_discs(sti) == all_discs(st));
        assert(src =~= base + ramp(n));
        vstd::seq_lib::lemma_multiset_commutative(base, ramp(n));
        lemma_ramp_multiset(n, n - 1);
        assert(!base.contains(n - 1));
        assert(base.to_multiset().count(n - 1) == 0);
        assert(src.to_multiset().count(n - 1) == 1);
        assert(!peg_stack(st, v).contains(n - 1));
        assert(peg_stack(st, v).to_multiset().count(n - 1) == 0);
        assert(!peg_stack(st, t).contains(n - 1));
        assert(peg_stack(st, t).to_multiset().count(n - 1) == 0);
        assert(all_discs(st).count(n - 1) == 1) by {
            assert(all_discs(st).count(n - 1) == st.0.to_multiset().count(n - 1)
                + st.1.to_multiset().count(n - 1) + st.2.to_multiset().count(n - 1));
        }
        if peg_stack(sti, t) == full {
            assert(full[peg_stack(st, t).len() as int] == n - 1);
            assert(full.contains(n - 1));
            assert(peg_stack(sti, t).to_multiset().count(n - 1) > 0);
            assert(peg_stack(sti, f).to_multiset().count(n - 1) > 0);
            assert(f != t);
            assert(all_discs(sti).count(n - 1) >= 2) by {
                assert(all_discs(sti).count(n - 1) == sti.0.to_multiset().count(n - 1)
                    + sti.1.to_multiset().count(n - 1) + sti.2.to_multiset().count(n - 1));
            }
            assert(false);
        }
    } else {
        // Within the second half the claim is the same claim one disc
        // down: its full tower on t is the whole full tower.
        let j = i - l.len() - 1;
        assert(hm.take(i) =~= (l + big) + r.take(j));
        lemma_play_concat(st, l + big, r.take(j));
        lemma_play_concat(st, l, big);
        assert(play(st, hm.take(i)) == play(st2, r.take(j)));
        assert(peg_stack(st2, f) =~= base);
        assert(peg_stack(st2, v) == peg_stack(st, v) + ramp(m));
        assert(peg_stack(st2, t) == peg_stack(st, t).push((n - 1) as int));
        let v2 = peg_stack(st2, v);
        assert(v2.skip(v2.len() - m) =~= ramp(m)) by {
            assert(forall|i: int| 0 <= i < m ==> v2.skip(v2.len() - m)[i] == ramp(m)[i]);
        }
        assert(v2.take(v2.len() - m) =~= peg_stack(st, v));
        assert(all_ge(peg_stack(st2, t), m as int)) by {
            assert(forall|i: int|
                0 <= i < peg_stack(st, t).len() ==> peg_stack(st2, t)[i] == peg_stack(st, t)[i]);
            assert(peg_stack(st2, t).last() == n - 1);
        }
        assert(hanoi_ready(m, v, f, t, st2));
        lemma_no_early_full(m, v, f, t, st2, j);
        assert(peg_stack(st2, t) + ramp(m) =~= full);
    }
}

} // verus!

verus! {

/// The starting configuration: the full tower on `A`, nothing else.
pub open spec fn start_state(n: nat) -> Towers {
    (ramp(n), Seq::<int>::empty(), Seq::<int>::empty())
}

/// The starting configuration is ready for a full solve from `A` to
/// `C` via `B`.
pub proof fn lemma_start_ready(n: nat)
    ensures
        hanoi_ready(n, Peg::A, Peg::B, Peg::C, start_state(n)),
        all_valid(start_state(n)),
{
    let st = start_state(n);
    assert(peg_stack(st, Peg::A).skip(peg_stack(st, Peg::A).len() - n) =~= ramp(n));
    assert(peg_stack(st, Peg::A).take(peg_stack(st, Peg::A).len() - n) =~= Seq::<int>::empty());
}

/// The whole solution, for every number of discs: the run from the
/// start configuration is legal, takes exactly `pow2(n) - 1` moves,
/// and ends with every disc on the destination peg and the other two
/// pegs empty. Any solver that performs exactly this move sequence —
/// the step-counting one and the recursive one alike — therefore
/// moves `pow2(n) - 1` discs and lands the full tower on the same
/// destination peg.
pub proof fn lemma_solution_complete(n: nat)
    ensures
        legal_run(start_state(n), hanoi_moves(n, Peg::A, Peg::B, Peg::C)),
        hanoi_moves(n, Peg::A, Peg::B, Peg::C).len() == pow2(n) - 1,
        play(start_state(n), hanoi_moves(n, Peg::A, Peg::B, Peg::C)) == (
            Seq::<int>::empty(),
            Seq::<int>::empty(),
            ramp(n),
        ),
{
    lemma_start_ready(n);
    lemma_hanoi(n, Peg::A, Peg::B, Peg::C, start_state(n));
    lemma_hanoi_len(n, Peg::A, Peg::B, Peg::C);
    let st = start_state(n);
    let res = hanoi_result(n, Peg::A, Peg::C, st);
    assert(res.0 =~= Seq::<int>::empty());
    assert(res.1 =~= Seq::<int>::empty());
    assert(res.2 =~= ramp(n));
}

/// Throughout any legal run from the start configuration, the discs
/// across the three towers are exactly `0, 1, ..., n-1`, each present
/// once: moves transfer discs and never create, drop or duplicate one.
pub proof fn lemma_run_partition(n: nat, ms: Seq<SpecMove>, i: int, x: int)
    requires
        legal_run(start_state(n), ms),
        0 <= i <= ms.len(),
    ensures
        all_discs(play(start_state(n), ms.take(i))).count(x) == if 0 <= x < n {
            1nat
        } else {
            0nat
        },
{
    broadcast use vstd::seq_lib::group_to_multiset_ensures;
    broadcast use vstd::multiset::group_multiset_axioms;

    let st = start_state(n);
    lemma_legal_take(st, ms, i);
    lemma_play_state(st, ms.take(i));
    lemma_ramp_multiset(n, x);
    assert(!Seq::<int>::empty().contains(x));
    assert(all_discs(st).count(x) == ramp(n).to_multiset().count(x) + Seq::<int>::empty(
    ).to_multiset().count(x) + Seq::<int>::empty().to_multiset().count(x));
}

/// Throughout any legal run from the start configuration, every tower
/// stays physically legal: no move ever lays a larger disc on a
/// smaller one.
pub proof fn lemma_run_valid(n: nat, ms: Seq<SpecMove>, i: int)
    requires
        legal_run(start_state(n), ms),
        0 <= i <= ms.len(),
    ensures
        all_valid(play(start_state(n), ms.take(i))),
{
    let st = start_state(n);
    lemma_legal_take(st, ms, i);
    lemma_start_ready(n);
    lemma_play_state(st, ms.take(i));
}

} // verus!
