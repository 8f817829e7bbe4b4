//! A peaking filter as the search holds it.
//!
//! A filter has a centre frequency, a quality and a gain, and works at a fixed sample rate. The
//! search never computes with these values: it only moves them. So each is held as a word,
//! the bit pattern of the number it stands for, which the owner of a bank writes and reads.
use vstd::prelude::*;

verus! {

/// The word of the sample rate at which every filter works: 44100 Hz.
pub const SAMPLE_RATE: u64 = 0x40e5_8880_0000_0000;

/// One of the three parameters of a filter that the search changes, in the order in which it
/// tries them.
#[derive(Clone, Copy, Debug, PartialEq, Eq, Structural)]
pub enum Parameter {
    Center,
    Quality,
    Gain,
}

/// One peaking filter.
#[derive(Clone, Copy, Debug, PartialEq, Eq, Structural)]
pub struct Filter {
    pub center: u64,
    pub q: u64,
    pub gain: u64,
    pub sample_rate: u64,
}

impl Filter {
    /// The value of one parameter.
    pub open spec fn value(self, parameter: Parameter) -> u64 {
        match parameter {
            Parameter::Center => self.center,
            Parameter::Quality => self.q,
            Parameter::Gain => self.gain,
        }
    }

    /// The filter with one parameter replaced.
    pub open spec fn with(self, parameter: Parameter, value: u64) -> Filter {
        match parameter {
            Parameter::Center => Filter { center: value, ..self },
            Parameter::Quality => Filter { q: value, ..self },
            Parameter::Gain => Filter { gain: value, ..self },
        }
    }

    /// A filter with the given centre, quality and gain, at the fixed sample rate.
    pub fn new(center: u64, q: u64, gain: u64) -> (f: Filter)
        ensures
            f == (Filter { center, q, gain, sample_rate: SAMPLE_RATE }),
    {
        Filter { sample_rate: SAMPLE_RATE, center, q, gain }
    }

    /// The value of one parameter.
    pub fn get(&self, parameter: Parameter) -> (v: u64)
        ensures
            v == self.value(parameter),
    {
        match parameter {
            Parameter::Center => self.center,
            Parameter::Quality => self.q,
            Parameter::Gain => self.gain,
        }
    }

    /// The filter with one parameter replaced.
    pub fn replaced(&self, parameter: Parameter, value: u64) -> (f: Filter)
        ensures
            f == self.with(parameter, value),
    {
        match parameter {
            Parameter::Center => Filter {
                center: value,
                q: self.q,
                gain: self.gain,
                sample_rate: self.sample_rate,
            },
            Parameter::Quality => Filter {
                center: self.center,
                q: value,
                gain: self.gain,
                sample_rate: self.sample_rate,
            },
            Parameter::Gain => Filter {
                center: self.center,
                q: self.q,
                gain: value,
                sample_rate: self.sample_rate,
            },
        }
    }
}

} // verus!
