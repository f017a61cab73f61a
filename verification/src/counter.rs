use vstd::prelude::*;
use vstd::arithmetic::power2::pow2;
use vstd::arithmetic::power2::lemma2_to64;
use vstd::arithmetic::power2::lemma_pow2_adds;
use vstd::arithmetic::power2::lemma_pow2_pos;
use vstd::arithmetic::power2::lemma_pow2_unfold;
use vstd::arithmetic::div_mod::lemma_add_mod_noop;
use vstd::arithmetic::div_mod::lemma_div_multiples_vanish;
use vstd::arithmetic::div_mod::lemma_fundamental_div_mod;
use vstd::arithmetic::div_mod::lemma_mod_multiples_basic;
use vstd::arithmetic::div_mod::lemma_small_mod;
use vstd::arithmetic::mul::lemma_mul_is_distributive_add_other_way;
use vstd::arithmetic::mul::lemma_mul_inequality;
use vstd::bits::lemma_u64_shr_is_div;

verus! {

/// The number represented by a sequence of 64-bit words, most
/// significant word first.
pub open spec fn word_val(s: Seq<u64>) -> nat
    decreases s.len(),
{
    if s.len() == 0 {
        0
    } else {
        (word_val(s.drop_last()) * pow2(64) + s.last()) as nat
    }
}

/// Zero-based position of the lowest set bit of `v`; 0 when `v == 0`.
pub open spec fn lsb(v: nat) -> nat
    decreases v,
{
    if v % 2 == 1 {
        0
    } else if v == 0 {
        0
    } else {
        1 + lsb(v / 2)
    }
}

/// All-zero words represent zero.
pub proof fn lemma_word_val_all_zero(s: Seq<u64>)
    requires
        forall|j: int| 0 <= j < s.len() ==> s[j] == 0,
    ensures
        word_val(s) == 0,
    decreases s.len(),
{
    if s.len() > 0 {
        let dl = s.drop_last();
        assert(forall|j: int| 0 <= j < dl.len() ==> dl[j] == s[j]);
        lemma_word_val_all_zero(dl);
        assert(word_val(dl) == 0);
        assert(s.last() == 0);
        assert(word_val(s) == (word_val(dl) * pow2(64) + s.last()) as nat);
        assert(word_val(dl) * pow2(64) == 0);
        assert(word_val(s) == 0);
    }
}

/// All-ones words represent the largest value of their width.
pub proof fn lemma_word_val_all_max(s: Seq<u64>)
    requires
        forall|j: int| 0 <= j < s.len() ==> s[j] == u64::MAX,
    ensures
        word_val(s) == pow2(64 * s.len()) - 1,
    decreases s.len(),
{
    if s.len() == 0 {
        lemma2_to64();
    } else {
        let dl = s.drop_last();
        assert(forall|j: int| 0 <= j < dl.len() ==> dl[j] == s[j]);
        lemma_word_val_all_max(dl);
        assert(s.last() == u64::MAX);
        lemma_pow2_adds(64 * dl.len(), 64);
        assert(64 * dl.len() + 64 == 64 * s.len());
        lemma2_to64();
        assert(word_val(s) == (word_val(dl) * pow2(64) + s.last()) as nat);
        assert((pow2(64 * dl.len()) - 1) * pow2(64) == pow2(64 * dl.len()) * pow2(64) - pow2(
            64,
        )) by {
            lemma_mul_is_distributive_add_other_way(
                pow2(64) as int,
                pow2(64 * dl.len()) as int,
                -1,
            );
        }
        assert(word_val(s) == pow2(64 * s.len()) - 1);
    }
}

/// Splitting a word sequence splits its value positionally.
pub proof fn lemma_word_val_concat(x: Seq<u64>, y: Seq<u64>)
    ensures
        word_val(x + y) == word_val(x) * pow2(64 * y.len()) + word_val(y),
    decreases y.len(),
{
    if y.len() == 0 {
        assert(x + y =~= x);
        lemma2_to64();
        assert(word_val(x) * pow2(64 * y.len()) == word_val(x) * 1);
        assert(word_val(x + y) == word_val(x) * pow2(64 * y.len()) + word_val(y));
    } else {
        let dl = y.drop_last();
        assert((x + y).drop_last() =~= x + dl);
        assert((x + y).last() == y.last());
        lemma_word_val_concat(x, dl);
        lemma_pow2_adds(64 * dl.len(), 64);
        assert(64 * dl.len() + 64 == 64 * y.len());
        assert(word_val(x + y) == (word_val(x + dl) * pow2(64) + y.last()) as nat);
        assert(word_val(y) == (word_val(dl) * pow2(64) + y.last()) as nat);
        assert((word_val(x) * pow2(64 * dl.len()) + word_val(dl)) * pow2(64) == word_val(x) * (pow2(
            64 * dl.len(),
        ) * pow2(64)) + word_val(dl) * pow2(64)) by (nonlinear_arith);
        assert(word_val(x + y) == word_val(x) * pow2(64 * y.len()) + word_val(y));
    }
}

/// A value divisible by `pow2(i)` whose quotient is odd has its
/// lowest set bit exactly at position `i`.
pub proof fn lemma_lsb_from_mod(v: nat, i: nat)
    requires
        v % pow2(i) == 0,
        (v / pow2(i)) % 2 == 1,
    ensures
        lsb(v) == i,
    decreases i,
{
    lemma_pow2_pos(i);
    if i == 0 {
        lemma2_to64();
        assert(v / 1 == v) by {
            lemma_div_multiples_vanish(v as int, 1);
        }
    } else {
        let p = pow2((i - 1) as nat);
        let q = v / pow2(i);
        lemma_pow2_pos((i - 1) as nat);
        lemma_pow2_unfold(i);
        lemma_fundamental_div_mod(v as int, pow2(i) as int);
        assert(v == pow2(i) * q);
        assert(v == 2 * (p * q)) by (nonlinear_arith)
            requires
                v == pow2(i) * q && pow2(i) == 2 * p,
        ;
        assert(v % 2 == 0) by {
            lemma_mod_multiples_basic((p * q) as int, 2);
        }
        assert(v / 2 == p * q) by {
            lemma_div_multiples_vanish((p * q) as int, 2);
        }
        assert((p * q) % p == 0) by {
            lemma_mod_multiples_basic(q as int, p as int);
        }
        assert((p * q) / p == q) by {
            lemma_div_multiples_vanish(q as int, p as int);
        }
        assert(v != 0) by (nonlinear_arith)
            requires
                v == 2 * (p * q) && q % 2 == 1 && p > 0,
        ;
        lemma_lsb_from_mod(v / 2, (i - 1) as nat);
    }
}

/// Scaling by `pow2(m)` shifts the lowest set bit up by `m`.
pub proof fn lemma_lsb_shift(x: nat, m: nat)
    requires
        x > 0,
    ensures
        lsb(x * pow2(m)) == m + lsb(x),
    decreases m,
{
    if m == 0 {
        lemma2_to64();
    } else {
        let p = pow2((m - 1) as nat);
        lemma_pow2_pos((m - 1) as nat);
        lemma_pow2_unfold(m);
        let v = x * pow2(m);
        assert(v == 2 * (x * p)) by (nonlinear_arith)
            requires
                v == x * pow2(m) && pow2(m) == 2 * p,
        ;
        assert(v % 2 == 0) by {
            lemma_mod_multiples_basic((x * p) as int, 2);
        }
        assert(v / 2 == x * p) by {
            lemma_div_multiples_vanish((x * p) as int, 2);
        }
        assert(v != 0) by (nonlinear_arith)
            requires
                v == 2 * (x * p) && x > 0 && p > 0,
        ;
        lemma_lsb_shift(x, (m - 1) as nat);
    }
}

/// Adding multiples of `pow2(m)` on top of a non-zero remainder below
/// `pow2(m)` leaves the lowest set bit where the remainder has it.
pub proof fn lemma_lsb_low(q: nat, r: nat, m: nat)
    requires
        0 < r < pow2(m),
    ensures
        lsb(q * pow2(m) + r) == lsb(r),
    decreases m,
{
    lemma2_to64();
    if m == 0 {
    } else {
        let p = pow2((m - 1) as nat);
        lemma_pow2_pos((m - 1) as nat);
        lemma_pow2_unfold(m);
        let v = q * pow2(m) + r;
        assert(v == 2 * (q * p) + r) by (nonlinear_arith)
            requires
                v == q * pow2(m) + r && pow2(m) == 2 * p,
        ;
        assert(((q * p) * 2) % 2 == 0) by {
            lemma_mod_multiples_basic((q * p) as int, 2);
        }
        assert(v % 2 == r % 2) by {
            lemma_add_mod_noop(((q * p) * 2) as int, r as int, 2);
            lemma_small_mod((r % 2) as nat, 2);
        }
        if r % 2 == 1 {
        } else {
            assert(r / 2 < p) by {
                lemma_fundamental_div_mod(r as int, 2);
            }
            assert(0 < r / 2) by {
                lemma_fundamental_div_mod(r as int, 2);
            }
            assert(v / 2 == q * p + r / 2) by {
                lemma_fundamental_div_mod(r as int, 2);
                assert(v == 2 * (q * p + r / 2)) by (nonlinear_arith)
                    requires
                        v == 2 * (q * p) + r && r == 2 * (r / 2),
                ;
                lemma_div_multiples_vanish((q * p + r / 2) as int, 2);
            }
            assert(v != 0);
            lemma_lsb_low(q, r / 2, (m - 1) as nat);
        }
    }
}

/// `pow2(m)` has its lowest set bit at `m`.
pub proof fn lemma_lsb_pow2(m: nat)
    ensures
        lsb(pow2(m)) == m,
{
    lemma_pow2_pos(m);
    lemma_lsb_shift(1, m);
}

/// Adding `pow2(m)` to a non-zero value below `pow2(m)` leaves the
/// lowest set bit unchanged.
pub proof fn lemma_lsb_add_pow2(x: nat, m: nat)
    requires
        0 < x < pow2(m),
    ensures
        lsb(x + pow2(m)) == lsb(x),
{
    lemma_lsb_low(1, x, m);
}

/// An arbitrary-width binary counter: an ordered sequence of 64-bit
/// words, most significant first, that is only ever incremented.
/// `last_rollover` records the position of the bit that the most
/// recent increment flipped from 0 to 1 — the lowest set bit of the
/// new value — which selects the disc that must move on that step.
pub struct Counter {
    pub counter: Vec<u64>,
    pub last_rollover: usize,
    pub capacity: usize,
}

impl Counter {
    /// Shape invariant: at least one word, `capacity` is the index of
    /// the least significant word, and bit positions fit in `usize`.
    pub open spec fn wf(&self) -> bool {
        &&& self.counter@.len() >= 1
        &&& self.capacity as int == self.counter@.len() - 1
        &&& 64 * self.counter@.len() <= usize::MAX as int
    }

    /// The value currently represented.
    pub open spec fn value(&self) -> nat {
        word_val(self.counter@)
    }

    /// Number of bits the counter can hold.
    pub open spec fn width(&self) -> nat {
        64 * self.counter@.len()
    }

    /// A zeroed counter wide enough to count to `pow2(num_discs) - 1`.
    pub fn new(num_discs: usize) -> (r: Counter)
        requires
            num_discs <= usize::MAX - 64,
        ensures
            r.wf(),
            r.value() == 0,
            r.last_rollover == 0,
            r.width() >= num_discs,
    {
        let scale: usize = 64;
        let mut real_size: usize = num_discs / scale;
        if num_discs % scale != 0 || real_size == 0 {
            real_size = real_size + 1;
        }
        proof {
            lemma_fundamental_div_mod(num_discs as int, 64);
        }
        let mut words: Vec<u64> = Vec::new();
        let mut i: usize = 0;
        while i < real_size
            invariant
                i <= real_size,
                words@.len() == i,
                forall|j: int| 0 <= j < i ==> words@[j] == 0,
            decreases real_size - i,
        {
            words.push(0);
            i = i + 1;
        }
        proof {
            lemma_word_val_all_zero(words@);
        }
        Counter { counter: words, last_rollover: 0, capacity: real_size - 1 }
    }

    /// Adds one by word-level ripple carry from the least significant
    /// word upward, then records in `last_rollover` the position of
    /// the first bit found set — the bit this increment rolled over
    /// to 1. After `t` increments from zero, `last_rollover` is the
    /// position of the lowest set bit of `t`.
    pub fn increment(&mut self)
        requires
            old(self).wf(),
            old(self).value() + 1 < pow2(old(self).width()),
        ensures
            final(self).wf(),
            final(self).counter@.len() == old(self).counter@.len(),
            final(self).value() == old(self).value() + 1,
            final(self).last_rollover as nat == lsb(final(self).value()),
    {
        let ghost orig = self.counter@;
        let ghost len = orig.len() as int;
        let mut word_index: usize = 0;
        while word_index <= self.capacity && self.counter[self.capacity - word_index] == u64::MAX
            invariant
                self.wf(),
                self.capacity == old(self).capacity,
                self.counter@.len() == len,
                word_index as int <= len,
                forall|j: int| len - word_index <= j < len ==> orig[j] == u64::MAX,
                forall|j: int| len - word_index <= j < len ==> self.counter@[j] == 0,
                forall|j: int| 0 <= j < len - word_index ==> self.counter@[j] == orig[j],
            decreases len - word_index,
        {
            let i = self.capacity - word_index;
            self.counter.set(i, 0);
            word_index = word_index + 1;
        }
        proof {
            if word_index as int == len {
                lemma_word_val_all_max(orig);
                assert(false);
            }
        }
        let ghost k = word_index as nat;
        let ghost after_carry = self.counter@;
        let i = self.capacity - word_index;
        let w = self.counter[i];
        assert(w != u64::MAX);
        self.counter.set(i, w + 1);
        proof {
            assert(self.counter@ == after_carry.update(i as int, (w + 1) as u64));
            assert(i as int == len - k - 1);
            assert forall|j: int| len - k <= j < len implies self.counter@[j] == 0 by {
                assert(orig[j] == u64::MAX && after_carry[j] == 0);
            }
        }

        // The new word is non-zero; scan for its lowest set bit.
        let w1 = w + 1;
        let ghost mid = self.counter@;
        let ghost cap = self.capacity;
        let ghost roll = self.last_rollover;
        let mut bit_index: usize = 0;
        proof {
            lemma2_to64();
            lemma_mod_multiples_basic(w1 as int, 1);
        }
        while bit_index < 64 && (self.counter[i] >> (bit_index as u64)) & 1 == 0
            invariant
                self.counter@ == mid,
                self.capacity == cap,
                self.last_rollover == roll,
                self.wf(),
                i < self.counter@.len(),
                self.counter@[i as int] == w1,
                0 < w1,
                bit_index <= 64,
                (w1 as nat) % pow2(bit_index as nat) == 0,
            decreases 64 - bit_index,
        {
            proof {
                let bi = bit_index as nat;
                lemma_pow2_pos(bi);
                assert((w1 >> (bit_index as u64)) & 1 == 0);
                lemma_u64_shr_is_div(w1, bit_index as u64);
                assert((w1 >> (bit_index as u64)) & 1 == (w1 >> (bit_index as u64)) % 2)
                    by (bit_vector);
                let q = (w1 as nat) / pow2(bi);
                assert(q % 2 == 0);
                lemma_fundamental_div_mod(w1 as int, pow2(bi) as int);
                assert(w1 == pow2(bi) * q);
                lemma_fundamental_div_mod(q as int, 2);
                assert(q == 2 * (q / 2));
                assert(w1 == (2 * pow2(bi)) * (q / 2)) by (nonlinear_arith)
                    requires
                        w1 == pow2(bi) * q && q == 2 * (q / 2),
                ;
                lemma_mod_multiples_basic((q / 2) as int, (2 * pow2(bi)) as int);
                assert(((q / 2) * (2 * pow2(bi))) % (2 * pow2(bi)) == 0);
                assert((w1 as nat) == (q / 2) * (2 * pow2(bi))) by (nonlinear_arith)
                    requires
                        w1 == (2 * pow2(bi)) * (q / 2),
                ;
                lemma_pow2_unfold(bi + 1);
                assert(pow2(bi + 1) == 2 * pow2(bi));
                assert((w1 as nat) % pow2(bi + 1) == 0);
            }
            bit_index = bit_index + 1;
        }
        proof {
            lemma2_to64();
            if bit_index == 64 {
                lemma_small_mod(w1 as nat, pow2(64));
                assert(false);
            }
            let bi = bit_index as nat;
            lemma_pow2_pos(bi);
            lemma_u64_shr_is_div(w1, bit_index as u64);
            assert((w1 >> (bit_index as u64)) & 1 == (w1 >> (bit_index as u64)) % 2)
                by (bit_vector);
            lemma_lsb_from_mod(w1 as nat, bi);
            assert(lsb(w1 as nat) == bi);
        }
        self.last_rollover = word_index * 64 + bit_index;

        proof {
            assert(forall|j: int| len - k <= j < len ==> orig[j] == u64::MAX);
            assert(forall|j: int| len - k <= j < len ==> self.counter@[j] == 0);
            assert(self.counter@[len - k - 1] == w1);
            assert(w1 == orig[len - k - 1] + 1);
            lemma_increment_reassemble(orig, self.counter@, k, w1);
            assert(self.last_rollover as nat == 64 * k + lsb(w1 as nat));
        }
    }
}

/// After a ripple-carry increment that zeroed the lowest `k` words
/// (all ones before) and bumped the next word to the non-zero `w1`,
/// the value grew by one and its lowest set bit is the bumped word's
/// lowest set bit, `64 * k` positions up.
proof fn lemma_increment_reassemble(orig: Seq<u64>, s2: Seq<u64>, k: nat, w1: u64)
    requires
        orig.len() == s2.len(),
        k < orig.len(),
        forall|j: int| orig.len() - k <= j < orig.len() ==> orig[j] == u64::MAX && s2[j] == 0,
        forall|j: int| 0 <= j < orig.len() - k - 1 ==> s2[j] == orig[j],
        w1 == orig[orig.len() - k - 1] + 1,
        s2[orig.len() - k - 1] == w1,
        w1 > 0,
    ensures
        word_val(s2) == word_val(orig) + 1,
        lsb(word_val(s2)) == 64 * k + lsb(w1 as nat),
{
    let len = orig.len() as int;
    let p_old = orig.take(len - k);
    let p_new = s2.take(len - k);
    let m_old = orig.skip(len - k);
    let z_new = s2.skip(len - k);
    assert(orig =~= p_old + m_old);
    assert(s2 =~= p_new + z_new);
    assert(p_new =~= p_old.drop_last().push(w1));
    assert(p_new.drop_last() =~= p_old.drop_last());
    lemma_word_val_concat(p_old, m_old);
    lemma_word_val_concat(p_new, z_new);
    assert(forall|j: int| 0 <= j < m_old.len() ==> m_old[j] == orig[len - k + j]);
    assert(forall|j: int| 0 <= j < z_new.len() ==> z_new[j] == s2[len - k + j]);
    lemma_word_val_all_max(m_old);
    lemma_word_val_all_zero(z_new);
    let pk = pow2(64 * k);
    assert(word_val(p_new) == (word_val(p_new.drop_last()) * pow2(64) + w1) as nat);
    assert(word_val(p_old) == (word_val(p_old.drop_last()) * pow2(64) + (w1 - 1)) as nat);
    assert(word_val(p_new) == word_val(p_old) + 1);
    assert(word_val(orig) == word_val(p_old) * pk + pk - 1);
    assert(word_val(s2) == (word_val(p_old) + 1) * pk) by (nonlinear_arith)
        requires
            word_val(s2) == word_val(p_new) * pk + 0 && word_val(p_new) == word_val(p_old) + 1,
    ;
    assert(word_val(s2) == word_val(p_old) * pk + pk) by (nonlinear_arith)
        requires
            word_val(s2) == (word_val(p_old) + 1) * pk,
    ;
    assert(word_val(s2) == word_val(orig) + 1);

    // Lowest set bit: the zeroed words contribute 64 * k positions,
    // the bumped word contributes its own lowest set bit.
    assert(word_val(p_new) > 0);
    lemma_lsb_shift(word_val(p_new), 64 * k);
    assert(word_val(s2) == word_val(p_new) * pk);
    assert(lsb(word_val(s2)) == 64 * k + lsb(word_val(p_new)));
    lemma2_to64();
    assert(0 < w1 < pow2(64));
    lemma_lsb_low(word_val(p_new.drop_last()), w1 as nat, 64);
    assert(lsb(word_val(p_new)) == lsb(w1 as nat));
}

} // verus!
