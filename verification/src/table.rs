//! The universe of drill items: the times table from 2 x 2 to 9 x 9.

use rand::seq::SliceRandom;
use rand::thread_rng;
use vstd::prelude::*;
use crate::card::Factors;

verus! {

/// The times table.
pub struct TimeTables;

impl TimeTables {
    /// The table row by row: 2 x 2, 2 x 3, and so on to 9 x 9.
    pub open spec fn table() -> Seq<Factors> {
        Seq::new(64, |i: int| Factors((2 + i / 8) as u8, (2 + i % 8) as u8))
    }

    /// The table holds each item with factors from 2 to 9, and each once.
    pub proof fn lemma_table_is_the_universe()
        ensures
            Self::table().no_duplicates(),
            forall|item: Factors| item.in_table() <==> Self::table().contains(item),
    {
        let table = Self::table();
        assert forall|item: Factors| item.in_table() implies table.contains(item) by {
            let i = (item.0 - 2) * 8 + (item.1 - 2);
            assert(table[i] == item);
        }
    }

    /// The items of the table, shuffled: each item once, in an order that
    /// differs from call to call.
    pub fn gen() -> (items: Vec<Factors>)
        ensures
            items@.to_multiset() == Self::table().to_multiset(),
    {
        let mut items: Vec<Factors> = Vec::new();
        let mut x: u8 = 2;
        while x < 10
            invariant
                2 <= x <= 10,
                items@ == Self::table().take((x - 2) * 8),
            decreases 10 - x,
        {
            let mut y: u8 = 2;
            while y < 10
                invariant
                    2 <= x < 10,
                    2 <= y <= 10,
                    items@ == Self::table().take((x - 2) * 8 + (y - 2)),
                decreases 10 - y,
            {
                items.push(Factors(x, y));
                y += 1;
            }
            x += 1;
        }
        assert(items@ == Self::table());
        shuffle(&mut items);
        items
    }
}

/// `shuffle` of `rand`'s `SliceRandom`, with the generator of the current
/// thread. It swaps items of the slice in place: afterwards the vector holds
/// the items it held, each as often as before. Nothing is said of their
/// order.
#[verifier::external_body]
fn shuffle(items: &mut Vec<Factors>)
    ensures
        final(items)@.to_multiset() == old(items)@.to_multiset(),
{
    items.shuffle(&mut thread_rng());
}

} // verus!
