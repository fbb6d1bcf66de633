//! Form-field engines: numeric text normalisation, calendar arithmetic for a
//! three-field date picker, and ranked suggestions for a chip selector.
//!
//! Every function carries a contract over a mathematical model of its data:
//! texts are sequences of characters, dates are triples of integers.

pub mod calendar;
pub mod chips;
pub mod datepicker;
pub mod integer;
pub mod number;
pub mod numberinput;
pub mod text;
