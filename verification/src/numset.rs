//! Digit domain sets: bitmasks over the nine Sudoku digits.
//!
//! A `NumSet` holds a subset of the digits `1..=9`, identified by their
//! 0-based indices `0..9`: bit `k` of `bits` is set exactly when digit
//! `k + 1` is a member. Only the low nine bits are ever meaningful.

use vstd::prelude::*;

verus! {

/// A set of digits, one bit per digit index `0..9`.
#[derive(Clone, Copy, Debug, PartialEq, Eq, Structural)]
pub struct NumSet {
    pub bits: u16,
}

/// Whether bit `d` of `b` is set.
pub open spec fn bit(b: u16, d: u16) -> bool {
    b & (1u16 << d) != 0
}

/// Whether digit index `d` is a member of `s`.
pub open spec fn ns_has(s: NumSet, d: int) -> bool {
    0 <= d < 9 && bit(s.bits, d as u16)
}

/// The set with no members.
pub open spec fn empty_ns() -> NumSet {
    NumSet { bits: 0u16 }
}

/// The set holding all nine digits.
pub open spec fn full_ns() -> NumSet {
    NumSet { bits: 511u16 }
}

/// The singleton set holding exactly digit index `d`.
pub open spec fn one_hot_spec(d: int) -> NumSet {
    NumSet { bits: (1u16 << (d as u16)) }
}

/// Bitwise-or union of two digit sets.
pub open spec fn union_spec(a: NumSet, b: NumSet) -> NumSet {
    NumSet { bits: a.bits | b.bits }
}

/// The members of `a` that are not members of `b`.
pub open spec fn diff_spec(a: NumSet, b: NumSet) -> NumSet {
    NumSet { bits: a.bits & !b.bits }
}

/// A set with exactly one member.
pub open spec fn is_singleton(s: NumSet) -> bool {
    exists|d: int| 0 <= d < 9 && s == one_hot_spec(d)
}

/// The digit index of a singleton set.
pub open spec fn ns_val(s: NumSet) -> int {
    choose|d: int| 0 <= d < 9 && s == one_hot_spec(d)
}

/// How many of the digit indices below `k` are members of `s`.
pub open spec fn card_below(s: NumSet, k: nat) -> nat
    decreases k,
{
    if k == 0 {
        0
    } else {
        card_below(s, (k - 1) as nat) + if ns_has(s, k - 1) {
            1nat
        } else {
            0nat
        }
    }
}

/// The cardinality of `s`: how many digits it holds.
pub open spec fn ns_card(s: NumSet) -> nat {
    card_below(s, 9)
}

/// The members of `s` below `k`, in ascending order.
pub open spec fn members_below(s: NumSet, k: nat) -> Seq<int>
    decreases k,
{
    if k == 0 {
        Seq::empty()
    } else {
        members_below(s, (k - 1) as nat) + if ns_has(s, k - 1) {
            seq![(k - 1) as int]
        } else {
            Seq::empty()
        }
    }
}

/// All members of `s`, in ascending order.
pub open spec fn members_spec(s: NumSet) -> Seq<int> {
    members_below(s, 9)
}

/// The bitwise facts every other proof rests on: membership of unions,
/// differences, singletons, and the two distinguished constants.
pub proof fn lemma_bit_ops()
    by (bit_vector)
    ensures
        forall|a: u16, b: u16, d: u16| d < 9 ==> (#[trigger] bit(a | b, d) <==> bit(a, d) || bit(
            b,
            d,
        )),
        forall|a: u16, b: u16, d: u16| d < 9 ==> (#[trigger] bit(a & !b, d) <==> bit(a, d) && !bit(
            b,
            d,
        )),
        forall|a: u16, b: u16| a < 512 && b < 512 ==> (#[trigger] (a | b)) < 512,
        forall|a: u16, b: u16| a < 512 ==> (#[trigger] (a & !b)) < 512,
        forall|d: u16, k: u16| d < 9 && k < 9 ==> (#[trigger] bit(1u16 << d, k) <==> k == d),
        forall|d: u16| d < 9 ==> (#[trigger] (1u16 << d)) != 0 && (1u16 << d) < 512,
        forall|d: u16| d < 9 ==> !(#[trigger] bit(0u16, d)),
        forall|d: u16| d < 9 ==> #[trigger] bit(511u16, d),
        forall|a: u16, b: u16| #[trigger] (a & b) == b & a,
        forall|a: u16| #[trigger] (a & a) == a,
        forall|a: u16, b: u16, d: u16|
            #![trigger bit(a, d), bit(b, d)]
            d < 9 && a & b == 0 ==> !(bit(a, d) && bit(b, d)),
        forall|d: u16, e: u16| d < 9 && e < 9 && d != e ==> #[trigger] ((1u16 << d) & (1u16 << e))
            == 0,
{
}

/// Union is associative and commutative with the empty set as identity,
/// and removing the full set from itself leaves nothing.
pub proof fn lemma_union_algebra()
    by (bit_vector)
    ensures
        forall|a: u16, b: u16, c: u16| #[trigger] ((a | b) | c) == a | (b | c),
        forall|a: u16, b: u16| #[trigger] (a | b) == b | a,
        forall|a: u16| #[trigger] (a | 0) == a,
        511u16 & !511u16 == 0,
{
}

/// A set with a member is not of cardinality zero.
pub proof fn lemma_member_card_pos(s: NumSet, d: int)
    requires
        ns_has(s, d),
    ensures
        ns_card(s) >= 1,
{
    lemma_card_ge_one(s, d, 9);
}

proof fn lemma_card_ge_one(s: NumSet, d: int, k: nat)
    requires
        ns_has(s, d),
        d < k <= 9,
    ensures
        card_below(s, k) >= 1,
    decreases k,
{
    if d < k - 1 {
        lemma_card_ge_one(s, d, (k - 1) as nat);
    }
}

/// `card_below` never exceeds its bound.
pub proof fn lemma_card_below_bound(s: NumSet, k: nat)
    ensures
        card_below(s, k) <= k,
    decreases k,
{
    if k > 0 {
        lemma_card_below_bound(s, (k - 1) as nat);
    }
}

/// A singleton holding digit `d` has one member below `k` if `d < k`,
/// and none otherwise.
pub proof fn lemma_card_below_one_hot(d: int, k: nat)
    requires
        0 <= d < 9,
    ensures
        card_below(one_hot_spec(d), k) == if d < k {
            1nat
        } else {
            0nat
        },
    decreases k,
{
    lemma_bit_ops();
    if k > 0 {
        lemma_card_below_one_hot(d, (k - 1) as nat);
    }
}

/// Domain algebra: the difference of the full set with itself is empty;
/// union is associative and commutative with the empty set as identity;
/// a singleton has cardinality one and carries exactly its digit.
pub proof fn law_domain_algebra()
    ensures
        diff_spec(full_ns(), full_ns()) == empty_ns(),
        forall|a: NumSet, b: NumSet, c: NumSet| #[trigger] union_spec(union_spec(a, b), c)
            == union_spec(a, union_spec(b, c)),
        forall|a: NumSet, b: NumSet| #[trigger] union_spec(a, b) == union_spec(b, a),
        forall|a: NumSet| #[trigger] union_spec(a, empty_ns()) == a,
        forall|d: int| 0 <= d < 9 ==> ns_card(#[trigger] one_hot_spec(d)) == 1,
        forall|d: int| 0 <= d < 9 ==> ns_val(#[trigger] one_hot_spec(d)) == d,
{
    lemma_union_algebra();
    lemma_bit_ops();
    assert forall|d: int| 0 <= d < 9 implies ns_card(#[trigger] one_hot_spec(d)) == 1 by {
        lemma_card_below_one_hot(d, 9);
    }
    assert forall|d: int| 0 <= d < 9 implies ns_val(#[trigger] one_hot_spec(d)) == d by {
        let w = ns_val(one_hot_spec(d));
        assert(0 <= w < 9 && one_hot_spec(d) == one_hot_spec(w));
        assert(bit(one_hot_spec(d).bits, d as u16));
        assert(bit(one_hot_spec(w).bits, w as u16));
        if w != d {
            assert((1u16 << (d as u16)) & (1u16 << (w as u16)) == 0);
            assert(!bit(one_hot_spec(d).bits, w as u16));
        }
    }
}

/// Enumeration completeness: the enumeration sequence of `s` has exactly
/// `ns_card(s)` entries, lists the members of `s` and nothing else, and
/// is strictly ascending.
pub proof fn law_enumeration_complete(s: NumSet)
    ensures
        members_spec(s).len() == ns_card(s),
        forall|k: int| 0 <= k < members_spec(s).len() ==> ns_has(s, #[trigger] members_spec(s)[k]),
        forall|k: int, l: int| 0 <= k < l < members_spec(s).len() ==> #[trigger] members_spec(s)[k]
            < #[trigger] members_spec(s)[l],
        forall|d: int| ns_has(s, d) <==> members_spec(s).contains(d),
{
    lemma_members_below(s, 9);
    assert forall|d: int| ns_has(s, d) implies members_spec(s).contains(d) by {
        let k = lemma_members_below_contains(s, 9, d);
        assert(members_spec(s)[k] == d);
    }
}

/// The shape of `members_below`: as long as `ns_card` counts, members
/// only, ascending, all below the bound.
proof fn lemma_members_below(s: NumSet, k: nat)
    ensures
        members_below(s, k).len() == card_below(s, k),
        forall|p: int| 0 <= p < members_below(s, k).len() ==> ns_has(
            s,
            #[trigger] members_below(s, k)[p],
        ) && members_below(s, k)[p] < k,
        forall|p: int, q: int| 0 <= p < q < members_below(s, k).len()
            ==> #[trigger] members_below(s, k)[p] < #[trigger] members_below(s, k)[q],
    decreases k,
{
    if k > 0 {
        lemma_members_below(s, (k - 1) as nat);
    }
}

/// Every member of `s` below the bound appears in `members_below`;
/// returns its position.
proof fn lemma_members_below_contains(s: NumSet, k: nat, d: int) -> (p: int)
    requires
        ns_has(s, d),
        d < k,
    ensures
        0 <= p < members_below(s, k).len(),
        members_below(s, k)[p] == d,
    decreases k,
{
    if d == k - 1 {
        members_below(s, k).len() - 1
    } else {
        let p = lemma_members_below_contains(s, (k - 1) as nat, d);
        p
    }
}

impl NumSet {
    /// The set with no members.
    pub fn empty() -> (r: NumSet)
        ensures
            r == empty_ns(),
    {
        NumSet { bits: 0 }
    }

    /// The set holding all nine digits.
    pub fn full() -> (r: NumSet)
        ensures
            r == full_ns(),
    {
        NumSet { bits: 511 }
    }

    /// The singleton set holding exactly digit index `val`.
    pub fn one_hot(val: u8) -> (r: NumSet)
        requires
            val < 9,
        ensures
            r == one_hot_spec(val as int),
    {
        NumSet { bits: 1u16 << (val as u16) }
    }

    /// Whether digit index `d` is a member.
    pub fn has_digit(self, d: u8) -> (r: bool)
        requires
            d < 9,
        ensures
            r == ns_has(self, d as int),
    {
        self.bits & (1u16 << (d as u16)) != 0
    }

    /// Whether the set has no members.
    pub fn is_empty(self) -> (r: bool)
        ensures
            r == (self == empty_ns()),
    {
        self.bits == 0
    }

    /// The union of the two sets.
    pub fn union(self, other: NumSet) -> (r: NumSet)
        ensures
            r == union_spec(self, other),
    {
        NumSet { bits: self.bits | other.bits }
    }

    /// The members of `self` that are not members of `other`.
    pub fn difference(self, other: NumSet) -> (r: NumSet)
        ensures
            r == diff_spec(self, other),
    {
        NumSet { bits: self.bits & !other.bits }
    }

    /// The number of digits in the set.
    pub fn len(self) -> (r: u32)
        ensures
            r as nat == ns_card(self),
    {
        let mut c: u32 = 0;
        let mut d: u8 = 0;
        while d < 9
            invariant
                d <= 9,
                c <= d,
                c as nat == card_below(self, d as nat),
            decreases 9 - d,
        {
            if self.bits & (1u16 << (d as u16)) != 0 {
                c = c + 1;
            }
            d = d + 1;
        }
        c
    }

    /// The digit index held by a singleton set.
    pub fn val(self) -> (r: u8)
        requires
            is_singleton(self),
        ensures
            r < 9,
            self == one_hot_spec(r as int),
    {
        let mut d: u8 = 0;
        while d < 8
            invariant
                d <= 8,
                is_singleton(self),
                forall|e: int| 0 <= e < d ==> self != one_hot_spec(e),
            decreases 8 - d,
        {
            if self.bits == 1u16 << (d as u16) {
                return d;
            }
            d = d + 1;
        }
        proof {
            let w = choose|e: int| 0 <= e < 9 && self == one_hot_spec(e);
            assert(w == 8);
        }
        8
    }

    /// A lazy enumeration of the members, starting at the lowest digit.
    pub fn iter(self) -> (r: NumSetIter)
        ensures
            r.set == self,
            r.pos == 0,
    {
        NumSetIter { set: self, pos: 0 }
    }

    /// Every member, as a singleton set, in ascending digit order.
    pub fn members(self) -> (r: Vec<NumSet>)
        ensures
            r@.len() == members_spec(self).len(),
            forall|k: int| 0 <= k < r@.len() ==> r@[k] == one_hot_spec(members_spec(self)[k]),
    {
        let mut r: Vec<NumSet> = Vec::new();
        let mut d: u8 = 0;
        while d < 9
            invariant
                d <= 9,
                r@.len() == members_below(self, d as nat).len(),
                forall|k: int| 0 <= k < r@.len() ==> r@[k] == one_hot_spec(
                    members_below(self, d as nat)[k],
                ),
            decreases 9 - d,
        {
            if self.bits & (1u16 << (d as u16)) != 0 {
                r.push(NumSet { bits: 1u16 << (d as u16) });
            }
            d = d + 1;
        }
        r
    }
}

/// A lazy, restartable walk over the members of a `NumSet`, yielding
/// one singleton per member in ascending digit order.
#[derive(Clone, Copy, Debug)]
pub struct NumSetIter {
    pub set: NumSet,
    pub pos: u8,
}

impl NumSetIter {
    /// The next member at or above the current position, as a singleton,
    /// or nothing when no member is left; the position advances past the
    /// digit yielded.
    pub fn next(&mut self) -> (r: Option<NumSet>)
        requires
            old(self).pos <= 9,
        ensures
            final(self).set == old(self).set,
            old(self).pos <= final(self).pos <= 9,
            match r {
                Some(m) => {
                    &&& ns_has(old(self).set, final(self).pos - 1)
                    &&& m == one_hot_spec(final(self).pos - 1)
                    &&& old(self).pos < final(self).pos
                    &&& forall|e: int|
                        old(self).pos <= e < final(self).pos - 1 ==> !ns_has(old(self).set, e)
                },
                None => {
                    &&& final(self).pos == 9
                    &&& forall|e: int| old(self).pos <= e < 9 ==> !ns_has(old(self).set, e)
                },
            },
    {
        while self.pos < 9
            invariant
                self.set == old(self).set,
                old(self).pos <= self.pos <= 9,
                forall|e: int| old(self).pos <= e < self.pos ==> !ns_has(old(self).set, e),
            decreases 9 - self.pos,
        {
            let d = self.pos;
            self.pos = self.pos + 1;
            if self.set.bits & (1u16 << (d as u16)) != 0 {
                return Some(NumSet { bits: 1u16 << (d as u16) });
            }
        }
        None
    }
}

} // verus!
