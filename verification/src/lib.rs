//! A spaced-repetition scheduler for times-table drills.
//!
//! The deck is the fixed table of products from 2 x 2 to 9 x 9. Every card
//! climbs a ladder of intervals as it is answered well and falls back to the
//! lowest rung when it is answered badly. A session keeps the cards in the
//! order in which they are to be shown, a logical clock, and what is needed to
//! undo the last review.
//!
//! The scheduler is in [`card`], [`intervals`], [`order`], [`session`] and
//! [`persist`]. The drill around it, as far as it decides anything, is in
//! [`state`], [`keys`], [`screen`] and [`report`]: it takes keys and gives
//! back what to show, and leaves the terminal and the files to the caller.

pub mod card;
pub mod clock;
pub mod intervals;
pub mod keys;
pub mod options;
pub mod order;
pub mod persist;
pub mod report;
pub mod screen;
pub mod session;
pub mod stable;
pub mod state;
pub mod table;
pub mod text;

pub use card::{Card, Factors, Rating, Status};
pub use intervals::Intervals;
pub use keys::{Event, Key, Step};
pub use options::{Opts, ReportOpts};
pub use report::report;
pub use screen::{Piece, Tone};
pub use session::{Session, SessionView, Snapshot};
pub use state::{Action, RatedCard, State, Summary};
pub use table::TimeTables;
