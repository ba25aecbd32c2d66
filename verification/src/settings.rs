//! Settings of the decode entry points.
use vstd::prelude::*;
use crate::limits::ParseLimits;

verus! {

/// How many worker threads to use.
#[derive(Clone, Copy, Debug, PartialEq, Eq, Structural)]
pub enum DecodeThreads {
    /// As many as the machine offers.
    Available,
    /// A fixed number; zero counts as one.
    Fixed(usize),
}

impl Default for DecodeThreads {
    fn default() -> (r: Self)
        ensures
            r == DecodeThreads::Available,
    {
        DecodeThreads::Available
    }
}

impl DecodeThreads {
    /// The number of workers, given what the machine offers if that is known.
    pub open spec fn workers(self, available: Option<usize>) -> int {
        match self {
            DecodeThreads::Available => match available {
                Some(n) => n as int,
                None => 1,
            },
            DecodeThreads::Fixed(n) => if n < 1 {
                1
            } else {
                n as int
            },
        }
    }

    /// The number of workers, given what the machine offers if that is known.
    pub fn worker_count(self, available: Option<usize>) -> (r: usize)
        ensures
            r == self.workers(available),
            available != Some(0usize) ==> r >= 1,
    {
        match self {
            DecodeThreads::Available => match available {
                Some(n) => n,
                None => 1,
            },
            DecodeThreads::Fixed(n) => if n < 1 {
                1
            } else {
                n
            },
        }
    }
}

/// Settings shared by all decode entry points.
#[derive(Clone, Copy, Debug)]
pub struct HeicSettings {
    pub threads: DecodeThreads,
    /// Limits on the container and on decoded dimensions.
    pub limits: ParseLimits,
    /// Whether an alpha image is decoded.
    pub decode_alpha: bool,
    /// Whether a gain map is decoded.
    pub decode_gain_map: bool,
}

impl HeicSettings {
    /// The default settings: all auxiliary images, default limits, all available threads.
    pub open spec fn standard() -> HeicSettings {
        HeicSettings {
            threads: DecodeThreads::Available,
            limits: ParseLimits::standard(),
            decode_alpha: true,
            decode_gain_map: true,
        }
    }

    /// The default settings.
    pub fn new() -> (r: Self)
        ensures
            r == HeicSettings::standard(),
    {
        HeicSettings {
            threads: DecodeThreads::Available,
            limits: ParseLimits::new(),
            decode_alpha: true,
            decode_gain_map: true,
        }
    }

    /// Fixes the number of worker threads.
    pub fn with_threads(self, threads: usize) -> (r: Self)
        ensures
            r == (HeicSettings { threads: DecodeThreads::Fixed(threads), ..self }),
    {
        HeicSettings { threads: DecodeThreads::Fixed(threads), ..self }
    }

    /// Replaces all limits.
    pub fn with_limits(self, limits: ParseLimits) -> (r: Self)
        ensures
            r == (HeicSettings { limits, ..self }),
    {
        HeicSettings { limits, ..self }
    }

    /// Turns decoding of the alpha image on or off.
    pub fn with_decode_alpha(self, decode_alpha: bool) -> (r: Self)
        ensures
            r == (HeicSettings { decode_alpha, ..self }),
    {
        HeicSettings { decode_alpha, ..self }
    }

    /// Turns decoding of the gain map on or off.
    pub fn with_decode_gain_map(self, decode_gain_map: bool) -> (r: Self)
        ensures
            r == (HeicSettings { decode_gain_map, ..self }),
    {
        HeicSettings { decode_gain_map, ..self }
    }

    /// The settings with all auxiliary images off.
    pub open spec fn primary(self) -> HeicSettings {
        HeicSettings { decode_alpha: false, decode_gain_map: false, ..self }
    }

    /// Turns decoding of all auxiliary images off.
    pub fn primary_only(self) -> (r: Self)
        ensures
            r == self.primary(),
    {
        HeicSettings { decode_alpha: false, decode_gain_map: false, ..self }
    }
}

impl Default for HeicSettings {
    fn default() -> (r: Self)
        ensures
            r == HeicSettings::standard(),
    {
        HeicSettings::new()
    }
}

/// There is always a worker: as many as asked for, or as the machine has.
pub proof fn there_is_always_a_worker(n: usize, available: Option<usize>)
    ensures
        n >= 1 ==> DecodeThreads::Fixed(n).workers(available) == n,
        n == 0 ==> DecodeThreads::Fixed(n).workers(available) == 1,
        DecodeThreads::Available.workers(Some(n)) == n,
        DecodeThreads::Available.workers(None) == 1,
{
}

/// Alpha and gain map are decoded unless the settings leave them out; only the primary image is
/// decoded without both, and nothing else changes.
pub proof fn only_the_primary_image_may_be_asked_for(s: HeicSettings)
    ensures
        HeicSettings::standard().decode_alpha,
        HeicSettings::standard().decode_gain_map,
        HeicSettings::standard().threads is Available,
        !s.primary().decode_alpha,
        !s.primary().decode_gain_map,
        s.primary().threads == s.threads,
        s.primary().limits == s.limits,
{
}

} // verus!
