//! The command protocol: a closed set of command variants, each carrying a
//! typed payload. A message on the wire is a single-key JSON object whose
//! key names the variant in lowercase.

use vstd::prelude::*;

verus! {

/// Longest string payload field, in bytes.
pub const MAX_STRING_BYTES: usize = 16;

/// Longest numeric sequence field, in elements.
pub const MAX_SERIES_LEN: usize = 32;

/// A numeric payload field, kept as the decimal the wire carries: an
/// optional sign, an integer part, and a fractional part given as digit
/// values (each `0..=9`, not ASCII). The fractional part is canonical:
/// at least one digit, and no trailing zero unless it is the single
/// digit `0`, so `1.0` and `0.25` have exactly one representation.
#[derive(Debug, PartialEq, Eq)]
pub struct Num {
    pub neg: bool,
    pub int_part: u64,
    pub frac: Vec<u8>,
}

/// Mathematical model of [`Num`].
pub struct NumV {
    pub neg: bool,
    pub int_part: u64,
    pub frac: Seq<u8>,
}

impl View for Num {
    type V = NumV;

    open spec fn view(&self) -> NumV {
        NumV { neg: self.neg, int_part: self.int_part, frac: self.frac@ }
    }
}

/// The model of a sequence of numbers.
pub open spec fn nums_view(ns: Seq<Num>) -> Seq<NumV> {
    ns.map_values(|n: Num| n@)
}

impl NumV {
    /// The fractional part is canonical and made of decimal digit values.
    pub open spec fn wf(self) -> bool {
        &&& self.frac.len() >= 1
        &&& (forall|i: int| 0 <= i < self.frac.len() ==> self.frac[i] <= 9)
        &&& (self.frac.len() == 1 || self.frac[self.frac.len() - 1] != 0)
    }
}

/// A string payload field fits its bound and needs no JSON escaping.
pub open spec fn str_wf(s: Seq<u8>) -> bool {
    &&& s.len() <= MAX_STRING_BYTES
    &&& (forall|i: int| 0 <= i < s.len() ==> s[i] != 34 && s[i] != 92)
}

/// A numeric sequence field fits its bound and holds canonical numbers.
pub open spec fn nums_wf(ns: Seq<NumV>) -> bool {
    &&& ns.len() <= MAX_SERIES_LEN
    &&& (forall|i: int| 0 <= i < ns.len() ==> ns[i].wf())
}

/// A thermal profile to run: a name and two parallel series.
#[derive(Debug, PartialEq)]
pub struct Profile {
    pub name: Vec<u8>,
    pub time: Vec<Num>,
    pub temperature: Vec<Num>,
}

/// Mathematical model of [`Profile`].
pub struct ProfileV {
    pub name: Seq<u8>,
    pub time: Seq<NumV>,
    pub temperature: Seq<NumV>,
}

impl View for Profile {
    type V = ProfileV;

    open spec fn view(&self) -> ProfileV {
        ProfileV {
            name: self.name@,
            time: nums_view(self.time@),
            temperature: nums_view(self.temperature@),
        }
    }
}

impl ProfileV {
    pub open spec fn wf(self) -> bool {
        str_wf(self.name) && nums_wf(self.time) && nums_wf(self.temperature)
    }
}

/// A controller status report.
#[derive(Debug, PartialEq)]
pub struct Feedback {
    pub status: Vec<u8>,
    pub time: Num,
    pub temperature: Num,
    pub error: Num,
    pub setpoint: Num,
    pub dutycycle: Num,
}

/// Mathematical model of [`Feedback`].
pub struct FeedbackV {
    pub status: Seq<u8>,
    pub time: NumV,
    pub temperature: NumV,
    pub error: NumV,
    pub setpoint: NumV,
    pub dutycycle: NumV,
}

impl View for Feedback {
    type V = FeedbackV;

    open spec fn view(&self) -> FeedbackV {
        FeedbackV {
            status: self.status@,
            time: self.time@,
            temperature: self.temperature@,
            error: self.error@,
            setpoint: self.setpoint@,
            dutycycle: self.dutycycle@,
        }
    }
}

impl FeedbackV {
    pub open spec fn wf(self) -> bool {
        &&& str_wf(self.status)
        &&& self.time.wf()
        &&& self.temperature.wf()
        &&& self.error.wf()
        &&& self.setpoint.wf()
        &&& self.dutycycle.wf()
    }
}

/// An order to start, with the reason it was given.
#[derive(Debug, PartialEq)]
pub struct Start {
    pub reason: Vec<u8>,
}

/// Mathematical model of [`Start`].
pub struct StartV {
    pub reason: Seq<u8>,
}

impl View for Start {
    type V = StartV;

    open spec fn view(&self) -> StartV {
        StartV { reason: self.reason@ }
    }
}

impl StartV {
    pub open spec fn wf(self) -> bool {
        str_wf(self.reason)
    }
}

/// An order to stop, with the reason it was given.
#[derive(Debug, PartialEq)]
pub struct Stop {
    pub reason: Vec<u8>,
}

/// Mathematical model of [`Stop`].
pub struct StopV {
    pub reason: Seq<u8>,
}

impl View for Stop {
    type V = StopV;

    open spec fn view(&self) -> StopV {
        StopV { reason: self.reason@ }
    }
}

impl StopV {
    pub open spec fn wf(self) -> bool {
        str_wf(self.reason)
    }
}

/// One decoded command. Exactly one variant is active per message.
#[derive(Debug, PartialEq)]
pub enum Protocol {
    Profile(Profile),
    Feedback(Feedback),
    Start(Start),
    Stop(Stop),
}

/// Mathematical model of [`Protocol`].
pub enum ProtocolV {
    Profile(ProfileV),
    Feedback(FeedbackV),
    Start(StartV),
    Stop(StopV),
}

impl View for Protocol {
    type V = ProtocolV;

    open spec fn view(&self) -> ProtocolV {
        match self {
            Protocol::Profile(p) => ProtocolV::Profile(p@),
            Protocol::Feedback(f) => ProtocolV::Feedback(f@),
            Protocol::Start(s) => ProtocolV::Start(s@),
            Protocol::Stop(s) => ProtocolV::Stop(s@),
        }
    }
}

impl ProtocolV {
    /// Every payload field fits its documented bound.
    pub open spec fn wf(self) -> bool {
        match self {
            ProtocolV::Profile(p) => p.wf(),
            ProtocolV::Feedback(f) => f.wf(),
            ProtocolV::Start(s) => s.wf(),
            ProtocolV::Stop(s) => s.wf(),
        }
    }
}

impl Protocol {
    /// Every payload field fits its documented bound.
    pub open spec fn wf(&self) -> bool {
        self@.wf()
    }
}

} // verus!
