//! A keyed, invertible byte-substitution cipher driven by a finite-state
//! transducer, with a flat binary key format.
pub mod model;
pub mod transducer;
