//! Sets of hero ids, kept as 256-bit masks: bit `h` is set iff hero `h` is in
//! the set.

use vstd::prelude::*;

verus! {

/// Bit `k` of a 128-bit word.
pub open spec fn bit(word: u128, k: u8) -> bool {
    word & (1u128 << k) != 0
}

proof fn lemma_bit_of_zero(k: u8)
    requires
        k < 128,
    ensures
        !bit(0, k),
{
    assert(0u128 & (1u128 << k) == 0) by (bit_vector);
}

proof fn lemma_bit_after_or(word: u128, b: u8, k: u8)
    requires
        b < 128,
        k < 128,
    ensures
        bit(word | (1u128 << b), k) <==> (k == b || bit(word, k)),
{
    assert(((word | (1u128 << b)) & (1u128 << k) != 0) <==> (k == b || word & (1u128 << k) != 0))
        by (bit_vector)
        requires
            b < 128,
            k < 128,
    ;
}

/// A word that is not zero has a set bit below `top`, when nothing is set
/// from `top` upwards.
proof fn lemma_find_bit(word: u128, top: u8) -> (k: u8)
    requires
        word != 0,
        top <= 128,
        word >> top == 0,
    ensures
        k < top,
        bit(word, k),
    decreases top,
{
    assert(top != 0) by (bit_vector)
        requires
            word != 0,
            word >> top == 0,
    ;
    let below: u8 = (top - 1) as u8;
    if bit(word, below) {
        below
    } else {
        assert(word >> below == 0) by (bit_vector)
            requires
                0 < top <= 128,
                below == top - 1,
                word >> top == 0,
                word & (1u128 << below) == 0,
        ;
        lemma_find_bit(word, below)
    }
}

/// `outer | inner == outer` says that every bit of `inner` is a bit of
/// `outer`.
proof fn lemma_word_covers(outer: u128, inner: u128)
    ensures
        (outer | inner) == outer <==> (forall|k: u8| k < 128 && bit(inner, k) ==> bit(outer, k)),
{
    if (outer | inner) == outer {
        assert forall|k: u8| k < 128 && bit(inner, k) implies bit(outer, k) by {
            assert(outer & (1u128 << k) != 0) by (bit_vector)
                requires
                    (outer | inner) == outer,
                    inner & (1u128 << k) != 0,
            ;
        }
    } else {
        let rest: u128 = inner & !outer;
        assert(rest != 0) by (bit_vector)
            requires
                (outer | inner) != outer,
                rest == inner & !outer,
        ;
        assert(rest >> 128u8 == 0) by (bit_vector);
        let k = lemma_find_bit(rest, 128);
        assert(inner & (1u128 << k) != 0 && outer & (1u128 << k) == 0) by (bit_vector)
            requires
                rest == inner & !outer,
                rest & (1u128 << k) != 0,
        ;
        assert(bit(inner, k) && !bit(outer, k));
    }
}

/// A set of hero ids in 256 bits: `lo` holds heroes 0 to 127, `hi` heroes
/// 128 to 255.
#[derive(Clone, Copy, Debug, PartialEq, Eq, Structural)]
pub struct HeroMask {
    pub lo: u128,
    pub hi: u128,
}

impl View for HeroMask {
    type V = Set<u8>;

    open spec fn view(&self) -> Set<u8> {
        Set::new(|hero: u8| self.has(hero))
    }
}

impl HeroMask {
    /// Whether the bit of `hero` is set.
    pub open spec fn has(self, hero: u8) -> bool {
        if hero < 128 {
            bit(self.lo, hero)
        } else {
            bit(self.hi, (hero - 128) as u8)
        }
    }

    /// The mask with no hero.
    pub fn empty() -> (mask: HeroMask)
        ensures
            mask@ == Set::<u8>::empty(),
    {
        let mask = HeroMask { lo: 0, hi: 0 };
        proof {
            assert forall|hero: u8| !mask.has(hero) by {
                if hero < 128 {
                    lemma_bit_of_zero(hero);
                } else {
                    lemma_bit_of_zero((hero - 128) as u8);
                }
            }
            assert(mask@ =~= Set::<u8>::empty());
        }
        mask
    }

    /// Whether `hero` is in the set.
    pub fn contains(&self, hero: u8) -> (found: bool)
        ensures
            found == self@.contains(hero),
    {
        if hero < 128 {
            self.lo & (1u128 << hero) != 0
        } else {
            self.hi & (1u128 << (hero - 128)) != 0
        }
    }

    /// Adds `hero` to the set.
    pub fn insert(&mut self, hero: u8)
        ensures
            final(self)@ == old(self)@.insert(hero),
    {
        let ghost before = *self;
        if hero < 128 {
            self.lo = self.lo | (1u128 << hero);
        } else {
            self.hi = self.hi | (1u128 << (hero - 128));
        }
        proof {
            let after = *self;
            assert forall|other: u8| after.has(other) <==> (other == hero || before.has(other)) by {
                if hero < 128 && other < 128 {
                    lemma_bit_after_or(before.lo, hero, other);
                } else if hero >= 128 && other >= 128 {
                    lemma_bit_after_or(before.hi, (hero - 128) as u8, (other - 128) as u8);
                }
            }
            assert forall|other: u8| after@.contains(other) <==> before@.insert(hero).contains(
                other,
            ) by {
                assert(after.has(other) <==> (other == hero || before.has(other)));
            }
            assert(after@ =~= before@.insert(hero));
        }
    }

    /// Whether every hero of `other` is in this set: `self | other == self`.
    pub fn covers(&self, other: &HeroMask) -> (all: bool)
        ensures
            all == other@.subset_of(self@),
    {
        let all = (self.lo | other.lo) == self.lo && (self.hi | other.hi) == self.hi;
        proof {
            lemma_word_covers(self.lo, other.lo);
            lemma_word_covers(self.hi, other.hi);
            if all {
                assert forall|hero: u8| other@.contains(hero) implies self@.contains(hero) by {
                    if hero < 128 {
                        assert(bit(other.lo, hero));
                    } else {
                        assert(bit(other.hi, (hero - 128) as u8));
                    }
                }
            } else if (self.lo | other.lo) != self.lo {
                let k = choose|k: u8| k < 128 && bit(other.lo, k) && !bit(self.lo, k);
                assert(other@.contains(k) && !self@.contains(k));
            } else {
                let k = choose|k: u8| k < 128 && bit(other.hi, k) && !bit(self.hi, k);
                let hero: u8 = (k + 128) as u8;
                assert((hero - 128) as u8 == k);
                assert(other@.contains(hero) && !self@.contains(hero));
            }
        }
        all
    }

    /// The set of the heroes listed in `heroes`.
    pub fn from_heroes(heroes: &[u8]) -> (mask: HeroMask)
        ensures
            mask@ == heroes@.to_set(),
    {
        let mut mask = HeroMask::empty();
        let mut i: usize = 0;
        while i < heroes.len()
            invariant
                i <= heroes.len(),
                forall|hero: u8|
                    mask@.contains(hero) <==> exists|j: int| 0 <= j < i && heroes@[j] == hero,
            decreases heroes.len() - i,
        {
            let ghost before = mask;
            mask.insert(heroes[i]);
            proof {
                assert forall|hero: u8|
                    mask@.contains(hero) <==> exists|j: int|
                        0 <= j < i + 1 && heroes@[j] == hero by {
                    if before@.contains(hero) {
                        let j = choose|j: int| 0 <= j < i && heroes@[j] == hero;
                        assert(0 <= j < i + 1 && heroes@[j] == hero);
                    }
                    if hero == heroes@[i as int] {
                        assert(0 <= i < i + 1 && heroes@[i as int] == hero);
                    }
                }
            }
            i += 1;
        }
        proof {
            assert forall|hero: u8| mask@.contains(hero) <==> heroes@.to_set().contains(hero) by {
                if mask@.contains(hero) {
                    let j = choose|j: int| 0 <= j < i && heroes@[j] == hero;
                    assert(heroes@[j] == hero);
                }
                if heroes@.contains(hero) {
                    let j = choose|j: int| 0 <= j < heroes@.len() && heroes@[j] == hero;
                    assert(0 <= j < i && heroes@[j] == hero);
                }
            }
            assert(mask@ =~= heroes@.to_set());
        }
        mask
    }

    /// The heroes of the set in ascending order.
    pub fn heroes(&self) -> (list: Vec<u8>)
        ensures
            list@ == members(*self, 256),
            forall|hero: u8| list@.contains(hero) <==> self@.contains(hero),
            forall|j: int, k: int| 0 <= j < k < list@.len() ==> list@[j] < list@[k],
    {
        proof {
            lemma_members(*self, 256);
            assert forall|hero: u8| members(*self, 256).contains(hero) implies self@.contains(
                hero,
            ) by {
                let k = choose|k: int|
                    0 <= k < members(*self, 256).len() && members(*self, 256)[k] == hero;
                assert(self.has(members(*self, 256)[k]));
            }
        }
        let mut list: Vec<u8> = Vec::new();
        let mut hero: u16 = 0;
        while hero < 256
            invariant
                hero <= 256,
                list@ == members(*self, hero as int),
            decreases 256 - hero,
        {
            if self.contains(hero as u8) {
                list.push(hero as u8);
            }
            hero += 1;
        }
        list
    }
}

/// The heroes of `mask` with an id below `below`, in ascending order.
pub open spec fn members(mask: HeroMask, below: int) -> Seq<u8>
    decreases below,
{
    if below <= 0 {
        Seq::empty()
    } else {
        let rest = members(mask, below - 1);
        if mask.has((below - 1) as u8) {
            rest.push((below - 1) as u8)
        } else {
            rest
        }
    }
}

/// The list of the heroes of a mask names each hero of the mask once, and
/// nothing else, and ascends.
pub proof fn lemma_members(mask: HeroMask, below: int)
    requires
        below <= 256,
    ensures
        forall|k: int|
            0 <= k < members(mask, below).len() ==> (#[trigger] members(mask, below)[k]) < below
                && mask.has(members(mask, below)[k]),
        forall|j: int, k: int|
            0 <= j < k < members(mask, below).len() ==> members(mask, below)[j] < members(
                mask,
                below,
            )[k],
        forall|hero: u8| hero < below && mask.has(hero) ==> members(mask, below).contains(hero),
    decreases below,
{
    if below > 0 {
        lemma_members(mask, below - 1);
        let rest = members(mask, below - 1);
        let all = members(mask, below);
        let top = (below - 1) as u8;
        assert forall|hero: u8| hero < below && mask.has(hero) implies all.contains(hero) by {
            if hero == top {
                assert(all[all.len() - 1] == hero);
            } else {
                let k = choose|k: int| 0 <= k < rest.len() && rest[k] == hero;
                assert(all[k] == hero);
            }
        }
    }
}

} // verus!
