//! Classification of a fourteen-tile hand into winning shapes, and
//! enumeration of every distinct way to split it into melds and a pair.
pub mod tile;
pub mod melds;
pub mod hand;
