//! Cards: what is asked, where the card stands on the ladder, and what became
//! of it when it was last shown.

use vstd::prelude::*;
use crate::intervals::Intervals;

verus! {

/// The two factors of a drill item. They identify a card across sessions.
#[derive(Hash, Debug, PartialEq, Eq, Clone, Copy, Structural)]
pub struct Factors(pub u8, pub u8);

impl Factors {
    /// The expected answer as a mathematical integer.
    pub open spec fn product(self) -> int {
        self.0 * self.1
    }

    /// Whether both factors lie in the table, from 2 to 9.
    pub open spec fn in_table(self) -> bool {
        2 <= self.0 <= 9 && 2 <= self.1 <= 9
    }

    /// The expected answer. It has to fit in a byte, which it does for every
    /// item of the table.
    pub fn compute(&self) -> (answer: u8)
        requires
            self.product() <= u8::MAX,
        ensures
            answer == self.product(),
    {
        self.0 * self.1
    }
}

/// Where a card stands in its life. `due` is a tick of the session's clock.
#[derive(Hash, Debug, PartialEq, Eq, Clone, Copy, Structural)]
pub enum Status {
    /// Never reviewed, not scheduled.
    Unseen,
    /// Scheduled, below the top rung.
    Learning(u32),
    /// Scheduled, on the top rung.
    Learned(u32),
}

impl Status {
    /// The tick at which the card is due, if it is scheduled.
    pub open spec fn due(self) -> Option<u32> {
        match self {
            Status::Unseen => None,
            Status::Learning(due) => Some(due),
            Status::Learned(due) => Some(due),
        }
    }

    /// The same variant with another due tick; `Unseen` stays as it is.
    pub open spec fn with_due(self, due: u32) -> Status {
        match self {
            Status::Unseen => Status::Unseen,
            Status::Learning(_) => Status::Learning(due),
            Status::Learned(_) => Status::Learned(due),
        }
    }

    /// Whether two statuses are the same variant, whatever their due ticks.
    pub open spec fn same_variant(self, other: Status) -> bool {
        match self {
            Status::Unseen => other is Unseen,
            Status::Learning(_) => other is Learning,
            Status::Learned(_) => other is Learned,
        }
    }

    /// Applies `f` to the due tick and keeps the variant. `Unseen` has no due
    /// tick: `f` is not called and the status comes back unchanged.
    pub fn map_due<F: FnOnce(u32) -> u32>(self, f: F) -> (mapped: Status)
        requires
            self.due() matches Some(due) ==> f.requires((due,)),
        ensures
            mapped.same_variant(self),
            self.due() matches Some(due) ==> mapped.due() matches Some(new_due) && f.ensures(
                (due,),
                new_due,
            ),
    {
        match self {
            Status::Unseen => Status::Unseen,
            Status::Learning(due) => Status::Learning(f(due)),
            Status::Learned(due) => Status::Learned(f(due)),
        }
    }
}

/// The outcome of one review.
#[derive(Hash, Debug, PartialEq, Eq, Clone, Copy, Structural)]
pub enum Rating {
    Good,
    Bad,
}

/// One card of the deck. `value` never changes; the other fields change only
/// when the card is reviewed.
#[derive(Hash, Debug, PartialEq, Eq, Clone, Copy)]
pub struct Card {
    pub value: Factors,
    /// The rung the card stands on.
    pub interval: u32,
    pub status: Status,
    pub last_result: Option<Rating>,
    /// Seconds since the Unix epoch at the last review, where the clock could
    /// be read.
    pub last_seen: Option<u64>,
}

impl Card {
    /// The card as it is before its first review.
    pub open spec fn fresh(x: u8, y: u8) -> Card {
        Card {
            value: Factors(x, y),
            interval: Intervals::lowest(),
            status: Status::Unseen,
            last_result: None,
            last_seen: None,
        }
    }

    /// Whether the card has been reviewed at least once.
    pub open spec fn is_scheduled(self) -> bool {
        !(self.status is Unseen)
    }

    /// The card after a review with outcome `rating`, made when the clock
    /// stood at `tick` and stamped with `seen`. A bad answer sends the card to
    /// the lowest rung, a good one to the next rung. The card is due again
    /// that many ticks after the tick that follows the review, and counts as
    /// learned if the rung it has reached is the highest.
    pub open spec fn reviewed(self, rating: Rating, tick: u32, seen: Option<u64>) -> Card {
        let interval = match rating {
            Rating::Good => Intervals::following(self.interval),
            Rating::Bad => Intervals::lowest(),
        };
        let due = (tick + 1 + interval) as u32;
        Card {
            value: self.value,
            interval,
            status: if interval == Intervals::highest() {
                Status::Learned(due)
            } else {
                Status::Learning(due)
            },
            last_result: Some(rating),
            last_seen: seen,
        }
    }

    /// Reviews the card: see [`Card::reviewed`]. The due tick has to fit in
    /// the clock's type.
    pub fn review(&self, rating: Rating, tick: u32, seen: Option<u64>) -> (card: Card)
        requires
            tick + 1 + Intervals::highest() <= u32::MAX,
        ensures
            card == self.reviewed(rating, tick, seen),
    {
        let interval = match rating {
            Rating::Good => Intervals::next(self.interval),
            Rating::Bad => Intervals::first(),
        };
        let due = tick + 1 + interval;
        Card {
            value: self.value,
            interval,
            status: if interval == Intervals::last() {
                Status::Learned(due)
            } else {
                Status::Learning(due)
            },
            last_result: Some(rating),
            last_seen: seen,
        }
    }

    /// A card that has never been reviewed. It starts on the lowest rung, so
    /// that its first good answer moves it one rung up and does not count it
    /// as mastered at once.
    pub fn new(x: u8, y: u8) -> (card: Card)
        ensures
            card == Card::fresh(x, y),
    {
        Card {
            value: Factors(x, y),
            interval: Intervals::first(),
            status: Status::Unseen,
            last_result: None,
            last_seen: None,
        }
    }
}

} // verus!
