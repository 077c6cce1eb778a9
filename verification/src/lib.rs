//! Music-theory primitives: exact rational arithmetic (`Fraction`), dotted
//! power-of-two note durations (`Duration`) with a verified bidirectional
//! `Duration`/`Fraction` conversion, absolute pitches, and the integer parts
//! of the pitch/frequency mapping used by tuning systems.

pub mod math;
pub mod music;

pub use math::fraction::Fraction;
pub use math::gcd;
pub use math::is_power_of_2;
pub use music::duration::Duration;
pub use music::duration::DurationError;
pub use music::pitch::Pitch;
pub use music::tune_sys;
pub use music::Accidental;
pub use music::Chord;
pub use music::NoteName;
