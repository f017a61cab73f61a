use vstd::prelude::*;

verus! {

/// What `peek` and `pop` hand out: a disc with its index (0 is the
/// smallest disc, larger indices are larger discs), or the empty
/// marker when the tower has no disc left.
#[derive(Clone, Copy, PartialEq, Eq, Structural, Debug)]
pub enum Disc {
    Occupied { index: usize },
    Empty,
}

/// Outcome of a move request: either the top disc changed towers, or
/// the request was illegal and neither tower changed.
#[derive(Clone, Copy, PartialEq, Eq, Structural, Debug)]
pub enum MoveOutcome {
    Moved,
    Rejected,
}

/// The stack of discs indexed `n-1` (bottom) down to `0` (top): the
/// starting content of a full tower of `n` discs.
pub open spec fn ramp(n: nat) -> Seq<int> {
    Seq::new(n, |i: int| n - 1 - i)
}

/// A physically legal tower: every disc is strictly smaller than the
/// disc directly beneath it (the view lists discs bottom first).
pub open spec fn valid_stack(s: Seq<int>) -> bool {
    forall|i: int| 0 <= i < s.len() - 1 ==> #[trigger] s[i] > s[i + 1]
}

/// A move from `src` to `dst` is legal exactly when `src` has a disc
/// to give and `dst` is empty or its top disc is larger.
pub open spec fn spec_can_move(src: Seq<int>, dst: Seq<int>) -> bool {
    src.len() > 0 && (dst.len() == 0 || src.last() < dst.last())
}

/// One of the three pegs. A tower owns its stack of discs; the view
/// is the sequence of disc indices, bottom first, so the last element
/// is the top disc.
pub struct Tower {
    pub name: String,
    pub stack: Vec<usize>,
}

impl View for Tower {
    type V = Seq<int>;

    open spec fn view(&self) -> Seq<int> {
        self.stack@.map_values(|d: usize| d as int)
    }
}

impl Tower {
    /// A tower with no discs.
    pub fn empty(name: &str) -> (r: Tower)
        ensures
            r@ =~= Seq::<int>::empty(),
            r.name@ == name@,
    {
        let r = Tower { name: name.to_string(), stack: Vec::new() };
        proof {
            assert(r@ =~= Seq::<int>::empty());
        }
        r
    }

    /// A tower holding discs `size-1` (bottom) through `0` (top).
    pub fn full(name: &str, size: usize) -> (r: Tower)
        ensures
            r@ == ramp(size as nat),
            r.name@ == name@,
    {
        let mut stack: Vec<usize> = Vec::new();
        for i in 0..size
            invariant
                stack@.len() == i,
                stack@.map_values(|d: usize| d as int) =~= ramp(size as nat).take(i as int),
        {
            stack.push(size - 1 - i);
            proof {
                assert(stack@.map_values(|d: usize| d as int) =~= ramp(size as nat).take(
                    i + 1,
                ));
            }
        }
        proof {
            assert(ramp(size as nat).take(size as int) =~= ramp(size as nat));
        }
        Tower { name: name.to_string(), stack }
    }

    /// Prepends `disc` as the new top; pushing the empty marker does
    /// nothing. Legality is the caller's concern, not `push`'s.
    pub fn push(&mut self, disc: Disc)
        ensures
            disc matches Disc::Occupied { index } ==> final(self)@ == old(self)@.push(index as int),
            disc is Empty ==> final(self)@ == old(self)@,
            final(self).name@ == old(self).name@,
    {
        match disc {
            Disc::Occupied { index } => {
                self.stack.push(index);
                proof {
                    assert(self@ =~= old(self)@.push(index as int));
                }
            },
            Disc::Empty => {},
        }
    }

    /// Detaches and returns the current top disc, or `None` when the
    /// tower is empty.
    pub fn pop(&mut self) -> (r: Option<Disc>)
        ensures
            old(self)@.len() == 0 ==> r is None && final(self)@ == old(self)@,
            old(self)@.len() > 0 ==> (r matches Some(d) && d matches Disc::Occupied { index }
                && index as int == old(self)@.last() && final(self)@ == old(self)@.drop_last()),
            final(self).name@ == old(self).name@,
    {
        if self.stack.len() == 0 {
            None
        } else {
            let index = self.stack.pop().unwrap();
            proof {
                assert(self@ =~= old(self)@.drop_last());
            }
            Some(Disc::Occupied { index })
        }
    }

    /// The top disc, read without mutation.
    pub fn peek(&self) -> (r: Disc)
        ensures
            self@.len() == 0 ==> r is Empty,
            self@.len() > 0 ==> (r matches Disc::Occupied { index } && index as int
                == self@.last()),
    {
        if self.stack.len() == 0 {
            Disc::Empty
        } else {
            Disc::Occupied { index: self.stack[self.stack.len() - 1] }
        }
    }

    /// Number of discs currently on the tower.
    pub fn count(&self) -> (r: usize)
        ensures
            r as nat == self@.len(),
    {
        self.stack.len()
    }

    /// True exactly when disc indices strictly decrease from bottom to
    /// top, i.e. no disc rests on a smaller one.
    pub fn is_valid(&self) -> (r: bool)
        ensures
            r == valid_stack(self@),
    {
        let n = self.stack.len();
        if n == 0 {
            return true;
        }
        let mut i: usize = 0;
        while i < n - 1
            invariant
                0 < n == self@.len(),
                i <= n - 1,
                forall|j: int| 0 <= j < i ==> #[trigger] self@[j] > self@[j + 1],
            decreases n - i,
        {
            if self.stack[i] <= self.stack[i + 1] {
                proof {
                    assert(self@[i as int] <= self@[i as int + 1]);
                }
                return false;
            }
            i = i + 1;
        }
        true
    }

    /// A copy of the disc indices, bottom first: for display and
    /// inspection only, never for mutation.
    pub fn discs(&self) -> (r: Vec<usize>)
        ensures
            r@.map_values(|d: usize| d as int) == self@,
    {
        let mut r: Vec<usize> = Vec::new();
        let mut i: usize = 0;
        while i < self.stack.len()
            invariant
                i <= self.stack@.len(),
                r@ == self.stack@.take(i as int),
            decreases self.stack@.len() - i,
        {
            r.push(self.stack[i]);
            proof {
                assert(r@ =~= self.stack@.take(i + 1));
            }
            i = i + 1;
        }
        proof {
            assert(r@ =~= self.stack@);
        }
        r
    }

    /// The single legality predicate of the puzzle: true exactly when
    /// this tower has a top disc and it may rest on `other`'s top.
    pub fn can_move(&self, other: &Tower) -> (r: bool)
        ensures
            r == spec_can_move(self@, other@),
    {
        match self.peek() {
            Disc::Occupied { index } => {
                match other.peek() {
                    Disc::Occupied { index: other_index } => index < other_index,
                    Disc::Empty => true,
                }
            },
            Disc::Empty => false,
        }
    }

    /// Moves this tower's top disc onto `other` when that is legal;
    /// an illegal request is rejected and changes nothing.
    pub fn move_to(&mut self, other: &mut Tower) -> (r: MoveOutcome)
        ensures
            spec_can_move(old(self)@, old(other)@) ==> (r == MoveOutcome::Moved
                && final(self)@ == old(self)@.drop_last()
                && final(other)@ == old(other)@.push(old(self)@.last())),
            !spec_can_move(old(self)@, old(other)@) ==> (r == MoveOutcome::Rejected
                && final(self)@ == old(self)@ && final(other)@ == old(other)@),
            final(self).name@ == old(self).name@,
            final(other).name@ == old(other).name@,
    {
        if !self.can_move(other) {
            return MoveOutcome::Rejected;
        }
        match self.pop() {
            Some(disc) => {
                other.push(disc);
                MoveOutcome::Moved
            },
            None => {
                proof {
                    assert(false);
                }
                MoveOutcome::Rejected
            },
        }
    }
}

/// A legal move keeps both towers physically legal: taking the top
/// disc off `src` and laying it on `dst` never puts a larger disc on
/// a smaller one.
pub proof fn lemma_move_preserves_validity(src: Seq<int>, dst: Seq<int>)
    requires
        valid_stack(src),
        valid_stack(dst),
        spec_can_move(src, dst),
    ensures
        valid_stack(src.drop_last()),
        valid_stack(dst.push(src.last())),
{
    assert forall|i: int| 0 <= i < dst.push(src.last()).len() - 1 implies #[trigger] dst.push(
        src.last(),
    )[i] > dst.push(src.last())[i + 1] by {
        if i + 1 == dst.len() {
            assert(dst.push(src.last())[i] == dst[i]);
        }
    }
}

/// A legal move only transfers one disc: the discs held by the two
/// towers together form the same multiset before and after.
pub proof fn lemma_move_preserves_discs(src: Seq<int>, dst: Seq<int>)
    requires
        spec_can_move(src, dst),
    ensures
        src.drop_last().to_multiset().add(dst.push(src.last()).to_multiset())
            =~= src.to_multiset().add(dst.to_multiset()),
{
    broadcast use vstd::seq_lib::group_to_multiset_ensures;

    assert(src.drop_last() =~= src.remove(src.len() - 1));
    assert(src.remove(src.len() - 1).to_multiset() =~= src.to_multiset().remove(src.last()));
    assert(dst.push(src.last()).to_multiset() =~= dst.to_multiset().insert(src.last()));
    assert(src.to_multiset().count(src.last()) > 0);
}

/// In a physically legal tower every disc strictly beneath another is
/// larger: the adjacent ordering extends to all pairs.
pub proof fn lemma_valid_stack_pairwise(s: Seq<int>)
    requires
        valid_stack(s),
    ensures
        forall|i: int, j: int| 0 <= i < j < s.len() ==> s[i] > s[j],
    decreases s.len(),
{
    if s.len() > 1 {
        assert(s.drop_last() =~= s.take(s.len() - 1));
        assert(valid_stack(s.drop_last()));
        lemma_valid_stack_pairwise(s.drop_last());
        assert forall|i: int, j: int| 0 <= i < j < s.len() implies s[i] > s[j] by {
            if j == s.len() - 1 {
                if i < j - 1 {
                    assert(s.drop_last()[i] > s.drop_last()[j - 1]);
                }
                assert(s[j - 1] > s[j]);
            } else {
                assert(s.drop_last()[i] > s.drop_last()[j]);
            }
        }
    }
}

} // verus!
