//! What holds of the library as a whole.

pub mod blanking;
pub mod blocks;
pub mod comments;
pub mod counting;
pub mod decoding;
pub mod documents;
pub mod emitting;
pub mod entries;
pub mod escaping;
pub mod flowing;
pub mod gathering;
pub mod indenting;
pub mod inferring;
pub mod layout;
pub mod leaves;
pub mod lines;
pub mod padding;
pub mod places;
pub mod positions;
pub mod relayout;
pub mod removing;
pub mod requoting;
pub mod scalars;
pub mod scanning;
pub mod sense;
pub mod shapes;
pub mod sixties;
pub mod standing;
pub mod stepping;
pub mod surviving;
pub mod trimming;
pub mod writing;
