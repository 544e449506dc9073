//! The interval ladder: the fixed, ascending spacings between two reviews of
//! a card.

use vstd::prelude::*;

verus! {

/// The ladder. It has no state: its functions are the policy.
#[derive(Debug)]
pub struct Intervals;

impl Intervals {
    /// The rungs, from the lowest to the highest.
    pub open spec fn rungs() -> Seq<u32> {
        seq![2u32, 3u32, 5u32, 8u32, 13u32, 21u32, 34u32, 55u32]
    }

    /// Whether `interval` is one of the rungs.
    pub open spec fn on_ladder(interval: u32) -> bool {
        exists|i: int| 0 <= i < Self::rungs().len() && Self::rungs()[i] == interval
    }

    /// The lowest rung.
    pub open spec fn lowest() -> u32 {
        Self::rungs()[0]
    }

    /// The highest rung.
    pub open spec fn highest() -> u32 {
        Self::rungs()[Self::rungs().len() - 1]
    }

    /// The rung after `interval`: the rung that follows it on the ladder, the
    /// highest rung where `interval` is the highest already, and the lowest
    /// rung where `interval` is no rung at all.
    pub open spec fn following(interval: u32) -> u32 {
        if Self::on_ladder(interval) {
            let i = choose|i: int| 0 <= i < Self::rungs().len() && Self::rungs()[i] == interval;
            if i + 1 < Self::rungs().len() {
                Self::rungs()[i + 1]
            } else {
                Self::highest()
            }
        } else {
            Self::lowest()
        }
    }

    /// The rungs are positive and strictly ascending.
    pub proof fn lemma_ascending()
        ensures
            forall|i: int| 0 <= i < Self::rungs().len() ==> 0 < #[trigger] Self::rungs()[i],
            forall|i: int, j: int|
                0 <= i < j < Self::rungs().len() ==> Self::rungs()[i] < Self::rungs()[j],
    {
    }

    /// The rung at position `i`.
    fn rung(i: usize) -> (rung: u32)
        requires
            i < Self::rungs().len(),
        ensures
            rung == Self::rungs()[i as int],
    {
        let ladder: [u32; 8] = [2, 3, 5, 8, 13, 21, 34, 55];
        ladder[i]
    }

    /// The lowest rung: where a card goes after a bad answer.
    pub fn first() -> (rung: u32)
        ensures
            rung == Self::lowest(),
            rung == 2,
    {
        Self::rung(0)
    }

    /// The highest rung: a card that reaches it counts as learned.
    pub fn last() -> (rung: u32)
        ensures
            rung == Self::highest(),
            rung == 55,
    {
        Self::rung(7)
    }

    /// The rung a card moves to after a good answer.
    pub fn next(interval: u32) -> (rung: u32)
        ensures
            rung == Self::following(interval),
            Self::on_ladder(rung),
            Self::lowest() <= rung <= Self::highest(),
    {
        proof {
            Self::lemma_ascending();
        }
        let mut i: usize = 0;
        while i < 8
            invariant
                i <= 8,
                forall|j: int| 0 <= j < i ==> Self::rungs()[j] != interval,
            decreases 8 - i,
        {
            if Self::rung(i) == interval {
                proof {
                    Self::lemma_ascending();
                    let k = choose|k: int|
                        0 <= k < Self::rungs().len() && Self::rungs()[k] == interval;
                    assert(k == i);
                }
                if i + 1 < 8 {
                    return Self::rung(i + 1);
                } else {
                    return Self::rung(7);
                }
            }
            i += 1;
        }
        Self::rung(0)
    }

    /// The ladder saturates: after the highest rung comes the highest rung.
    pub proof fn lemma_next_saturates()
        ensures
            Self::following(Self::highest()) == Self::highest(),
    {
        Self::lemma_ascending();
        assert(Self::rungs()[7] == Self::highest());
    }

    /// An interval that is no rung is followed by the lowest rung.
    pub proof fn lemma_next_falls_back(interval: u32)
        requires
            !Self::on_ladder(interval),
        ensures
            Self::following(interval) == Self::lowest(),
    {
    }

    /// A rung below the highest is followed by the rung one position up.
    pub proof fn lemma_next_climbs(i: int)
        requires
            0 <= i < Self::rungs().len() - 1,
        ensures
            Self::following(Self::rungs()[i]) == Self::rungs()[i + 1],
    {
        Self::lemma_ascending();
    }

    /// Whatever the interval, the next one is a rung, and it is the highest
    /// rung only after the two highest.
    pub proof fn lemma_next_is_rung(interval: u32)
        ensures
            Self::on_ladder(Self::following(interval)),
            Self::lowest() <= Self::following(interval) <= Self::highest(),
            Self::following(interval) == Self::highest() <==> interval == 34 || interval == 55,
    {
        Self::lemma_ascending();
        if Self::on_ladder(interval) {
            let i = choose|i: int| 0 <= i < Self::rungs().len() && Self::rungs()[i] == interval;
            if i + 1 < Self::rungs().len() {
                assert(Self::rungs()[i + 1] == Self::following(interval));
            } else {
                assert(Self::rungs()[7] == Self::following(interval));
            }
        } else {
            assert(Self::rungs()[0] == Self::following(interval));
            assert(Self::rungs()[6] == 34);
            assert(Self::rungs()[7] == 55);
        }
    }
}

} // verus!
