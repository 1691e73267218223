//! A multi-dimensional cellular-automaton simulation engine.
//!
//! Two variants are provided. The `seating` module is a two-dimensional
//! automaton over seat layouts with two neighbour-counting policies
//! (adjacent seats, or the first seat visible along each of the eight
//! compass directions); it runs until the aggregate occupied-seat count
//! reaches a fixed point. The `life` module is a life-like automaton in
//! three or four dimensions whose grid grows by one inactive layer per
//! dimension before every generation; it runs for a fixed number of
//! generations.

pub mod life;
pub mod seating;
