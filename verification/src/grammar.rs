//! The wire grammar, at specification level.
//!
//! A message is a JSON object with exactly one key, the lowercase variant
//! name, whose value is an object holding the payload fields. Payload
//! values are strings (no escapes), decimal numbers, or arrays of decimal
//! numbers. `spec_encode` gives the canonical serialized form;
//! `spec_decode` gives the meaning of an arbitrary byte sequence. The
//! executable codec in [`crate::codec`] is proved equal to these.

use vstd::prelude::*;

use crate::protocol::{
    FeedbackV, NumV, ProfileV, ProtocolV, StartV, StopV, MAX_SERIES_LEN, MAX_STRING_BYTES,
};

verus! {

/// A payload field value as it stands in a message.
pub enum ValV {
    VStr(Seq<u8>),
    VNum(NumV),
    VArr(Seq<NumV>),
}

impl ValV {
    /// The value fits the documented bounds and needs no escaping.
    pub open spec fn wf(self) -> bool {
        match self {
            ValV::VStr(s) => forall|i: int| 0 <= i < s.len() ==> s[i] != 34 && s[i] != 92,
            ValV::VNum(n) => n.wf(),
            ValV::VArr(ns) => crate::protocol::nums_wf(ns),
        }
    }
}

/// One `"key": value` pair of a payload object.
pub type MemberV = (Seq<u8>, ValV);

// --- the key literals -------------------------------------------------

/// The bytes of `"profile"`.
pub open spec fn k_profile() -> Seq<u8> {
    seq![112u8, 114u8, 111u8, 102u8, 105u8, 108u8, 101u8]
}

/// The bytes of `"feedback"`.
pub open spec fn k_feedback() -> Seq<u8> {
    seq![102u8, 101u8, 101u8, 100u8, 98u8, 97u8, 99u8, 107u8]
}

/// The bytes of `"start"`.
pub open spec fn k_start() -> Seq<u8> {
    seq![115u8, 116u8, 97u8, 114u8, 116u8]
}

/// The bytes of `"stop"`.
pub open spec fn k_stop() -> Seq<u8> {
    seq![115u8, 116u8, 111u8, 112u8]
}

/// The bytes of `"name"`.
pub open spec fn k_name() -> Seq<u8> {
    seq![110u8, 97u8, 109u8, 101u8]
}

/// The bytes of `"time"`.
pub open spec fn k_time() -> Seq<u8> {
    seq![116u8, 105u8, 109u8, 101u8]
}

/// The bytes of `"temperature"`.
pub open spec fn k_temperature() -> Seq<u8> {
    seq![116u8, 101u8, 109u8, 112u8, 101u8, 114u8, 97u8, 116u8, 117u8, 114u8, 101u8]
}

/// The bytes of `"status"`.
pub open spec fn k_status() -> Seq<u8> {
    seq![115u8, 116u8, 97u8, 116u8, 117u8, 115u8]
}

/// The bytes of `"error"`.
pub open spec fn k_error() -> Seq<u8> {
    seq![101u8, 114u8, 114u8, 111u8, 114u8]
}

/// The bytes of `"setpoint"`.
pub open spec fn k_setpoint() -> Seq<u8> {
    seq![115u8, 101u8, 116u8, 112u8, 111u8, 105u8, 110u8, 116u8]
}

/// The bytes of `"dutycycle"`.
pub open spec fn k_dutycycle() -> Seq<u8> {
    seq![100u8, 117u8, 116u8, 121u8, 99u8, 121u8, 99u8, 108u8, 101u8]
}

/// The bytes of `"reason"`.
pub open spec fn k_reason() -> Seq<u8> {
    seq![114u8, 101u8, 97u8, 115u8, 111u8, 110u8]
}

// --- encoding ----------------------------------------------------------

/// The decimal digits of `n`, most significant first, no leading zero.
pub open spec fn dec_digits(n: nat) -> Seq<u8>
    decreases n,
{
    if n < 10 {
        seq![(48 + n) as u8]
    } else {
        dec_digits(n / 10).push((48 + n % 10) as u8)
    }
}

/// Fraction digit values turned into their ASCII characters.
pub open spec fn enc_frac(ds: Seq<u8>) -> Seq<u8> {
    ds.map_values(|d: u8| (48 + d) as u8)
}

/// A number in canonical decimal form, always with a fractional part,
/// such as `0.0` or `-12.5`.
pub open spec fn enc_num(n: NumV) -> Seq<u8> {
    let sign: Seq<u8> = if n.neg { seq![45u8] } else { Seq::empty() };
    sign + dec_digits(n.int_part as nat) + seq![46u8] + enc_frac(n.frac)
}

/// A string in quotes, written byte for byte.
pub open spec fn enc_str(s: Seq<u8>) -> Seq<u8> {
    seq![34u8] + s + seq![34u8]
}

/// Array elements joined by commas, in order.
pub open spec fn enc_items(ns: Seq<NumV>) -> Seq<u8>
    decreases ns.len(),
{
    if ns.len() == 0 {
        Seq::empty()
    } else if ns.len() == 1 {
        enc_num(ns[0])
    } else {
        enc_num(ns[0]) + seq![44u8] + enc_items(ns.drop_first())
    }
}

/// An array of numbers in brackets.
pub open spec fn enc_arr(ns: Seq<NumV>) -> Seq<u8> {
    seq![91u8] + enc_items(ns) + seq![93u8]
}

/// One payload field value.
pub open spec fn enc_val(v: ValV) -> Seq<u8> {
    match v {
        ValV::VStr(s) => enc_str(s),
        ValV::VNum(n) => enc_num(n),
        ValV::VArr(ns) => enc_arr(ns),
    }
}

/// Object members joined by commas, in order.
pub open spec fn enc_members(ms: Seq<MemberV>) -> Seq<u8>
    decreases ms.len(),
{
    if ms.len() == 0 {
        Seq::empty()
    } else if ms.len() == 1 {
        enc_str(ms[0].0) + seq![58u8] + enc_val(ms[0].1)
    } else {
        enc_str(ms[0].0) + seq![58u8] + enc_val(ms[0].1) + seq![44u8] + enc_members(
            ms.drop_first(),
        )
    }
}

/// An object in braces.
pub open spec fn enc_obj(ms: Seq<MemberV>) -> Seq<u8> {
    seq![123u8] + enc_members(ms) + seq![125u8]
}

/// The members of a profile payload, in serialization order.
pub open spec fn profile_members(p: ProfileV) -> Seq<MemberV> {
    seq![
        (k_name(), ValV::VStr(p.name)),
        (k_time(), ValV::VArr(p.time)),
        (k_temperature(), ValV::VArr(p.temperature)),
    ]
}

/// The members of a feedback payload, in serialization order.
pub open spec fn feedback_members(f: FeedbackV) -> Seq<MemberV> {
    seq![
        (k_status(), ValV::VStr(f.status)),
        (k_time(), ValV::VNum(f.time)),
        (k_temperature(), ValV::VNum(f.temperature)),
        (k_error(), ValV::VNum(f.error)),
        (k_setpoint(), ValV::VNum(f.setpoint)),
        (k_dutycycle(), ValV::VNum(f.dutycycle)),
    ]
}

/// The single member of a start or stop payload.
pub open spec fn reason_members(reason: Seq<u8>) -> Seq<MemberV> {
    seq![(k_reason(), ValV::VStr(reason))]
}

/// The variant key and payload members of a command.
pub open spec fn command_members(c: ProtocolV) -> (Seq<u8>, Seq<MemberV>) {
    match c {
        ProtocolV::Profile(p) => (k_profile(), profile_members(p)),
        ProtocolV::Feedback(f) => (k_feedback(), feedback_members(f)),
        ProtocolV::Start(s) => (k_start(), reason_members(s.reason)),
        ProtocolV::Stop(s) => (k_stop(), reason_members(s.reason)),
    }
}

/// The canonical wire form of a command: a single-key object whose key
/// names the variant, with the payload fields in serialization order.
pub open spec fn spec_encode(c: ProtocolV) -> Seq<u8> {
    let km = command_members(c);
    seq![123u8] + enc_str(km.0) + seq![58u8] + enc_obj(km.1) + seq![125u8]
}

// --- decoding ----------------------------------------------------------

/// JSON insignificant whitespace.
pub open spec fn is_ws(b: u8) -> bool {
    b == 32 || b == 9 || b == 13 || b == 10
}

/// An ASCII decimal digit.
pub open spec fn is_digit(b: u8) -> bool {
    48 <= b <= 57
}

/// The input without its leading whitespace.
pub open spec fn skip_ws(s: Seq<u8>) -> Seq<u8>
    decreases s.len(),
{
    if s.len() > 0 && is_ws(s[0]) {
        skip_ws(s.drop_first())
    } else {
        s
    }
}

/// String content up to the closing quote. Fails on a backslash (no
/// escapes on this wire) and on an unterminated string.
pub open spec fn scan_str(s: Seq<u8>) -> Option<(Seq<u8>, Seq<u8>)>
    decreases s.len(),
{
    if s.len() == 0 {
        None
    } else if s[0] == 34 {
        Some((Seq::empty(), s.drop_first()))
    } else if s[0] == 92 {
        None
    } else {
        match scan_str(s.drop_first()) {
            Some(p) => Some((seq![s[0]] + p.0, p.1)),
            None => None,
        }
    }
}

/// A quoted string token.
pub open spec fn parse_str(s: Seq<u8>) -> Option<(Seq<u8>, Seq<u8>)> {
    if s.len() > 0 && s[0] == 34 {
        scan_str(s.drop_first())
    } else {
        None
    }
}

/// The longest digit prefix of the input, and the rest.
pub open spec fn scan_digits(s: Seq<u8>) -> (Seq<u8>, Seq<u8>)
    decreases s.len(),
{
    if s.len() > 0 && is_digit(s[0]) {
        let p = scan_digits(s.drop_first());
        (seq![s[0]] + p.0, p.1)
    } else {
        (Seq::empty(), s)
    }
}

/// The value of a sequence of ASCII digits, most significant first.
pub open spec fn digits_val(ds: Seq<u8>) -> int
    decreases ds.len(),
{
    if ds.len() == 0 {
        0
    } else {
        digits_val(ds.drop_last()) * 10 + (ds.last() - 48)
    }
}

/// An integer part is well formed if it is nonempty, has no leading
/// zero, and fits a 64-bit integer.
pub open spec fn digits_ok(ds: Seq<u8>) -> bool {
    &&& ds.len() >= 1
    &&& !(ds.len() > 1 && ds[0] == 48)
    &&& digits_val(ds) <= u64::MAX
}

/// Digit values with trailing zeros removed.
pub open spec fn strip_zeros(ds: Seq<u8>) -> Seq<u8>
    decreases ds.len(),
{
    if ds.len() > 0 && ds.last() == 0 {
        strip_zeros(ds.drop_last())
    } else {
        ds
    }
}

/// ASCII fraction digits turned into canonical digit values: trailing
/// zeros dropped, and an all-zero fraction kept as the single digit 0.
pub open spec fn norm_frac(ds: Seq<u8>) -> Seq<u8> {
    let vals = strip_zeros(ds.map_values(|d: u8| (d - 48) as u8));
    if vals.len() == 0 {
        seq![0u8]
    } else {
        vals
    }
}

/// A decimal number token: an optional sign, an integer part, and an
/// optional fractional part, normalized to canonical form.
pub open spec fn parse_num(s: Seq<u8>) -> Option<(NumV, Seq<u8>)> {
    let neg = s.len() > 0 && s[0] == 45;
    let s1 = if neg {
        s.drop_first()
    } else {
        s
    };
    let dr = scan_digits(s1);
    if !digits_ok(dr.0) {
        None
    } else {
        let ip = digits_val(dr.0) as u64;
        let s2 = dr.1;
        if s2.len() > 0 && s2[0] == 46 {
            let fr = scan_digits(s2.drop_first());
            if fr.0.len() == 0 {
                None
            } else {
                Some((NumV { neg, int_part: ip, frac: norm_frac(fr.0) }, fr.1))
            }
        } else {
            Some((NumV { neg, int_part: ip, frac: seq![0u8] }, s2))
        }
    }
}

/// Comma-separated array elements after the opening bracket, up to and
/// including the closing bracket. `fuel` bounds the element count: an
/// array longer than the series bound is a decode failure.
pub open spec fn parse_arr_items(s: Seq<u8>, fuel: nat) -> Option<(Seq<NumV>, Seq<u8>)>
    decreases fuel,
{
    if fuel == 0 {
        None
    } else {
        match parse_num(s) {
            Some(p) => {
                let r1 = skip_ws(p.1);
                if r1.len() > 0 && r1[0] == 44 {
                    match parse_arr_items(skip_ws(r1.drop_first()), (fuel - 1) as nat) {
                        Some(q) => Some((seq![p.0] + q.0, q.1)),
                        None => None,
                    }
                } else if r1.len() > 0 && r1[0] == 93 {
                    Some((seq![p.0], r1.drop_first()))
                } else {
                    None
                }
            },
            None => None,
        }
    }
}

/// A bracketed array of numbers.
pub open spec fn parse_arr(s: Seq<u8>) -> Option<(Seq<NumV>, Seq<u8>)> {
    if s.len() > 0 && s[0] == 91 {
        let s1 = skip_ws(s.drop_first());
        if s1.len() > 0 && s1[0] == 93 {
            Some((Seq::empty(), s1.drop_first()))
        } else {
            parse_arr_items(s1, MAX_SERIES_LEN as nat)
        }
    } else {
        None
    }
}

/// One payload field value, told apart by its first byte.
pub open spec fn parse_val(s: Seq<u8>) -> Option<(ValV, Seq<u8>)> {
    if s.len() == 0 {
        None
    } else if s[0] == 34 {
        match parse_str(s) {
            Some(p) => Some((ValV::VStr(p.0), p.1)),
            None => None,
        }
    } else if s[0] == 91 {
        match parse_arr(s) {
            Some(p) => Some((ValV::VArr(p.0), p.1)),
            None => None,
        }
    } else {
        match parse_num(s) {
            Some(p) => Some((ValV::VNum(p.0), p.1)),
            None => None,
        }
    }
}

/// Comma-separated object members after the opening brace, up to and
/// including the closing brace. `fuel` bounds the member count: no
/// payload has more than six fields, so more members than that can
/// only mean a duplicated or extra field, which is a decode failure.
pub open spec fn parse_members(s: Seq<u8>, fuel: nat) -> Option<(Seq<MemberV>, Seq<u8>)>
    decreases fuel,
{
    if fuel == 0 {
        None
    } else {
        match parse_str(s) {
            Some(kp) => {
                let r1 = skip_ws(kp.1);
                if r1.len() > 0 && r1[0] == 58 {
                    match parse_val(skip_ws(r1.drop_first())) {
                        Some(vp) => {
                            let r3 = skip_ws(vp.1);
                            if r3.len() > 0 && r3[0] == 44 {
                                match parse_members(skip_ws(r3.drop_first()), (fuel - 1) as nat) {
                                    Some(q) => Some((seq![(kp.0, vp.0)] + q.0, q.1)),
                                    None => None,
                                }
                            } else if r3.len() > 0 && r3[0] == 125 {
                                Some((seq![(kp.0, vp.0)], r3.drop_first()))
                            } else {
                                None
                            }
                        },
                        None => None,
                    }
                } else {
                    None
                }
            },
            None => None,
        }
    }
}

/// How many members a payload object may carry at most.
pub open spec fn member_fuel() -> nat {
    6
}

/// A braced payload object as a member list.
pub open spec fn parse_obj(s: Seq<u8>) -> Option<(Seq<MemberV>, Seq<u8>)> {
    if s.len() > 0 && s[0] == 123 {
        let s1 = skip_ws(s.drop_first());
        if s1.len() > 0 && s1[0] == 125 {
            Some((Seq::empty(), s1.drop_first()))
        } else {
            parse_members(s1, member_fuel())
        }
    } else {
        None
    }
}

// --- building payloads out of member lists ------------------------------

/// Fold the members of a profile payload into its three fields. A
/// duplicated, unknown, or ill-typed field fails; at the end every
/// field must have been seen and the name must fit its bound.
pub open spec fn fill_profile(
    ms: Seq<MemberV>,
    name: Option<Seq<u8>>,
    time: Option<Seq<NumV>>,
    temperature: Option<Seq<NumV>>,
) -> Option<ProfileV>
    decreases ms.len(),
{
    if ms.len() == 0 {
        match (name, time, temperature) {
            (Some(n), Some(t), Some(p)) => {
                if n.len() <= MAX_STRING_BYTES {
                    Some(ProfileV { name: n, time: t, temperature: p })
                } else {
                    None
                }
            },
            _ => None,
        }
    } else {
        let k = ms[0].0;
        let v = ms[0].1;
        if k == k_name() {
            match (v, name) {
                (ValV::VStr(s), Option::None) => fill_profile(
                    ms.drop_first(),
                    Some(s),
                    time,
                    temperature,
                ),
                _ => None,
            }
        } else if k == k_time() {
            match (v, time) {
                (ValV::VArr(a), Option::None) => fill_profile(
                    ms.drop_first(),
                    name,
                    Some(a),
                    temperature,
                ),
                _ => None,
            }
        } else if k == k_temperature() {
            match (v, temperature) {
                (ValV::VArr(a), Option::None) => fill_profile(
                    ms.drop_first(),
                    name,
                    time,
                    Some(a),
                ),
                _ => None,
            }
        } else {
            None
        }
    }
}

/// Fold the members of a feedback payload into its six fields, with the
/// same policy as [`fill_profile`].
pub open spec fn fill_feedback(
    ms: Seq<MemberV>,
    status: Option<Seq<u8>>,
    time: Option<NumV>,
    temperature: Option<NumV>,
    error: Option<NumV>,
    setpoint: Option<NumV>,
    dutycycle: Option<NumV>,
) -> Option<FeedbackV>
    decreases ms.len(),
{
    if ms.len() == 0 {
        match (status, time, temperature, error, setpoint, dutycycle) {
            (Some(st), Some(t), Some(p), Some(e), Some(sp), Some(d)) => {
                if st.len() <= MAX_STRING_BYTES {
                    Some(
                        FeedbackV {
                            status: st,
                            time: t,
                            temperature: p,
                            error: e,
                            setpoint: sp,
                            dutycycle: d,
                        },
                    )
                } else {
                    None
                }
            },
            _ => None,
        }
    } else {
        let k = ms[0].0;
        let v = ms[0].1;
        if k == k_status() {
            match (v, status) {
                (ValV::VStr(s), Option::None) => fill_feedback(
                    ms.drop_first(),
                    Some(s),
                    time,
                    temperature,
                    error,
                    setpoint,
                    dutycycle,
                ),
                _ => None,
            }
        } else if k == k_time() {
            match (v, time) {
                (ValV::VNum(n), Option::None) => fill_feedback(
                    ms.drop_first(),
                    status,
                    Some(n),
                    temperature,
                    error,
                    setpoint,
                    dutycycle,
                ),
                _ => None,
            }
        } else if k == k_temperature() {
            match (v, temperature) {
                (ValV::VNum(n), Option::None) => fill_feedback(
                    ms.drop_first(),
                    status,
                    time,
                    Some(n),
                    error,
                    setpoint,
                    dutycycle,
                ),
                _ => None,
            }
        } else if k == k_error() {
            match (v, error) {
                (ValV::VNum(n), Option::None) => fill_feedback(
                    ms.drop_first(),
                    status,
                    time,
                    temperature,
                    Some(n),
                    setpoint,
                    dutycycle,
                ),
                _ => None,
            }
        } else if k == k_setpoint() {
            match (v, setpoint) {
                (ValV::VNum(n), Option::None) => fill_feedback(
                    ms.drop_first(),
                    status,
                    time,
                    temperature,
                    error,
                    Some(n),
                    dutycycle,
                ),
                _ => None,
            }
        } else if k == k_dutycycle() {
            match (v, dutycycle) {
                (ValV::VNum(n), Option::None) => fill_feedback(
                    ms.drop_first(),
                    status,
                    time,
                    temperature,
                    error,
                    setpoint,
                    Some(n),
                ),
                _ => None,
            }
        } else {
            None
        }
    }
}

/// Fold the single member of a start or stop payload into its reason.
pub open spec fn fill_reason(ms: Seq<MemberV>, reason: Option<Seq<u8>>) -> Option<Seq<u8>>
    decreases ms.len(),
{
    if ms.len() == 0 {
        match reason {
            Some(r) => {
                if r.len() <= MAX_STRING_BYTES {
                    Some(r)
                } else {
                    None
                }
            },
            None => None,
        }
    } else {
        let k = ms[0].0;
        let v = ms[0].1;
        if k == k_reason() {
            match (v, reason) {
                (ValV::VStr(s), Option::None) => fill_reason(ms.drop_first(), Some(s)),
                _ => None,
            }
        } else {
            None
        }
    }
}

/// A payload member list under its variant key, or a decode failure for
/// an unrecognized key.
pub open spec fn decode_body(k: Seq<u8>, ms: Seq<MemberV>) -> Option<ProtocolV> {
    if k == k_profile() {
        match fill_profile(ms, None, None, None) {
            Some(p) => Some(ProtocolV::Profile(p)),
            None => None,
        }
    } else if k == k_feedback() {
        match fill_feedback(ms, None, None, None, None, None, None) {
            Some(f) => Some(ProtocolV::Feedback(f)),
            None => None,
        }
    } else if k == k_start() {
        match fill_reason(ms, None) {
            Some(r) => Some(ProtocolV::Start(StartV { reason: r })),
            None => None,
        }
    } else if k == k_stop() {
        match fill_reason(ms, None) {
            Some(r) => Some(ProtocolV::Stop(StopV { reason: r })),
            None => None,
        }
    } else {
        None
    }
}

/// The meaning of one complete buffered message: a single-key object,
/// nothing but whitespace around the tokens, nothing after the closing
/// brace.
pub open spec fn spec_decode(s: Seq<u8>) -> Option<ProtocolV> {
    let s0 = skip_ws(s);
    if s0.len() > 0 && s0[0] == 123 {
        match parse_str(skip_ws(s0.drop_first())) {
            Some(kp) => {
                let r1 = skip_ws(kp.1);
                if r1.len() > 0 && r1[0] == 58 {
                    match parse_obj(skip_ws(r1.drop_first())) {
                        Some(op) => {
                            let r2 = skip_ws(op.1);
                            if r2.len() > 0 && r2[0] == 125 && skip_ws(r2.drop_first()).len()
                                == 0 {
                                decode_body(kp.0, op.0)
                            } else {
                                None
                            }
                        },
                        None => None,
                    }
                } else {
                    None
                }
            },
            None => None,
        }
    } else {
        None
    }
}

} // verus!
