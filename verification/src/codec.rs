//! The executable codec: encoding a command into its canonical wire form
//! and decoding one complete buffered message, both proved equal to the
//! grammar in [`crate::grammar`].

use vstd::prelude::*;

use crate::grammar::{
    dec_digits, digits_ok, digits_val, enc_arr, enc_frac, enc_items, enc_members, enc_num,
    enc_obj, enc_str, feedback_members, fill_feedback, fill_profile, fill_reason, is_digit,
    k_dutycycle, k_error, k_feedback, k_name, k_profile, k_reason, k_setpoint, k_start,
    k_status, k_stop, k_temperature, k_time, member_fuel, parse_arr, parse_arr_items,
    parse_members, parse_num, parse_obj, parse_str, parse_val, profile_members, reason_members,
    scan_digits, scan_str, skip_ws, spec_decode, spec_encode, MemberV, ValV,
};
use crate::protocol::{
    nums_view, Feedback, FeedbackV, Num, NumV, Profile, ProfileV, Protocol, ProtocolV, Start,
    Stop, MAX_SERIES_LEN, MAX_STRING_BYTES,
};

verus! {

/// A payload field value as decoded, before it is folded into a command.
pub enum Val {
    VStr(Vec<u8>),
    VNum(Num),
    VArr(Vec<Num>),
}

impl View for Val {
    type V = ValV;

    open spec fn view(&self) -> ValV {
        match self {
            Val::VStr(s) => ValV::VStr(s@),
            Val::VNum(n) => ValV::VNum(n@),
            Val::VArr(ns) => ValV::VArr(nums_view(ns@)),
        }
    }
}

/// The model of a decoded member list.
pub open spec fn members_view(ms: Seq<(Vec<u8>, Val)>) -> Seq<MemberV> {
    ms.map_values(|m: (Vec<u8>, Val)| (m.0@, m.1@))
}

proof fn lemma_skip_step(s: Seq<u8>, i: int)
    requires
        0 <= i < s.len(),
    ensures
        s.skip(i).drop_first() == s.skip(i + 1),
{
    assert(s.skip(i).drop_first() =~= s.skip(i + 1));
}

// --- encoding ----------------------------------------------------------

/// The decimal digits of `n`, most significant first.
fn push_dec_digits(out: &mut Vec<u8>, n: u64)
    ensures
        final(out)@ == old(out)@ + dec_digits(n as nat),
    decreases n,
{
    if n < 10 {
        out.push((48 + n) as u8);
        proof {
            assert(old(out)@.push((48 + n) as u8) =~= old(out)@ + dec_digits(n as nat));
        }
    } else {
        push_dec_digits(out, n / 10);
        let ghost mid = out@;
        out.push((48 + n % 10) as u8);
        proof {
            assert((48 + n % 10) as u8 == (48 + (n as nat) % 10) as u8);
            assert(mid.push((48 + (n as nat) % 10) as u8) =~= old(out)@ + dec_digits(n as nat));
        }
    }
}

/// The fraction digits of a canonical number, as ASCII.
fn push_frac(out: &mut Vec<u8>, frac: &Vec<u8>)
    requires
        forall|i: int| 0 <= i < frac@.len() ==> frac@[i] <= 9,
    ensures
        final(out)@ == old(out)@ + enc_frac(frac@),
{
    let mut i: usize = 0;
    while i < frac.len()
        invariant
            0 <= i <= frac@.len(),
            forall|k: int| 0 <= k < frac@.len() ==> frac@[k] <= 9,
            out@ == old(out)@ + enc_frac(frac@.take(i as int)),
        decreases frac@.len() - i,
    {
        let ghost mid = out@;
        out.push(48 + frac[i]);
        proof {
            assert(mid.push((48 + frac@[i as int]) as u8) =~= old(out)@ + enc_frac(
                frac@.take(i + 1),
            ));
        }
        i = i + 1;
    }
    proof {
        assert(frac@.take(frac@.len() as int) =~= frac@);
    }
}

/// One number in canonical decimal form.
fn push_num(out: &mut Vec<u8>, n: &Num)
    requires
        n@.wf(),
    ensures
        final(out)@ == old(out)@ + enc_num(n@),
{
    if n.neg {
        out.push(45);
    }
    push_dec_digits(out, n.int_part);
    out.push(46);
    push_frac(out, &n.frac);
    proof {
        assert(final(out)@ =~= old(out)@ + enc_num(n@));
    }
}

/// One quoted string, written byte for byte.
fn push_quoted(out: &mut Vec<u8>, s: &Vec<u8>)
    ensures
        final(out)@ == old(out)@ + enc_str(s@),
{
    out.push(34);
    let mut i: usize = 0;
    while i < s.len()
        invariant
            0 <= i <= s@.len(),
            out@ == old(out)@.push(34u8) + s@.take(i as int),
        decreases s@.len() - i,
    {
        let ghost mid = out@;
        out.push(s[i]);
        proof {
            assert(mid.push(s@[i as int]) =~= old(out)@.push(34u8) + s@.take(i + 1));
        }
        i = i + 1;
    }
    out.push(34);
    proof {
        assert(final(out)@ =~= old(out)@ + enc_str(s@));
    }
}

/// The array elements from index `i` on, joined by commas.
fn push_items(out: &mut Vec<u8>, ns: &Vec<Num>, i: usize)
    requires
        i <= ns@.len(),
        forall|k: int| 0 <= k < ns@.len() ==> (#[trigger] ns@[k])@.wf(),
    ensures
        final(out)@ == old(out)@ + enc_items(nums_view(ns@).skip(i as int)),
    decreases ns@.len() - i,
{
    let ghost vs = nums_view(ns@);
    if i == ns.len() {
        proof {
            assert(vs.skip(i as int).len() == 0);
            assert(old(out)@ + enc_items(vs.skip(i as int)) =~= old(out)@);
        }
    } else if i + 1 == ns.len() {
        push_num(out, &ns[i]);
        proof {
            assert(vs.skip(i as int).len() == 1);
            assert(vs.skip(i as int)[0] == ns@[i as int]@);
        }
    } else {
        push_num(out, &ns[i]);
        out.push(44);
        push_items(out, ns, i + 1);
        proof {
            assert(vs.skip(i as int)[0] == ns@[i as int]@);
            assert(vs.skip(i as int).drop_first() =~= vs.skip(i + 1));
            assert(final(out)@ =~= old(out)@ + enc_items(vs.skip(i as int)));
        }
    }
}

/// One whole array of numbers.
fn push_arr(out: &mut Vec<u8>, ns: &Vec<Num>)
    requires
        forall|k: int| 0 <= k < ns@.len() ==> (#[trigger] ns@[k])@.wf(),
    ensures
        final(out)@ == old(out)@ + enc_arr(nums_view(ns@)),
{
    out.push(91);
    push_items(out, ns, 0);
    out.push(93);
    proof {
        assert(nums_view(ns@).skip(0) =~= nums_view(ns@));
        assert(final(out)@ =~= old(out)@ + enc_arr(nums_view(ns@)));
    }
}

// --- key literals, executable ------------------------------------------

/// The bytes of `"profile"`.
fn key_profile() -> (r: Vec<u8>)
    ensures
        r@ == k_profile(),
{
    let mut v: Vec<u8> = Vec::new();
    v.push(112);
    v.push(114);
    v.push(111);
    v.push(102);
    v.push(105);
    v.push(108);
    v.push(101);
    proof {
        assert(v@ =~= k_profile());
    }
    v
}

/// The bytes of `"feedback"`.
fn key_feedback() -> (r: Vec<u8>)
    ensures
        r@ == k_feedback(),
{
    let mut v: Vec<u8> = Vec::new();
    v.push(102);
    v.push(101);
    v.push(101);
    v.push(100);
    v.push(98);
    v.push(97);
    v.push(99);
    v.push(107);
    proof {
        assert(v@ =~= k_feedback());
    }
    v
}

/// The bytes of `"start"`.
fn key_start() -> (r: Vec<u8>)
    ensures
        r@ == k_start(),
{
    let mut v: Vec<u8> = Vec::new();
    v.push(115);
    v.push(116);
    v.push(97);
    v.push(114);
    v.push(116);
    proof {
        assert(v@ =~= k_start());
    }
    v
}

/// The bytes of `"stop"`.
fn key_stop() -> (r: Vec<u8>)
    ensures
        r@ == k_stop(),
{
    let mut v: Vec<u8> = Vec::new();
    v.push(115);
    v.push(116);
    v.push(111);
    v.push(112);
    proof {
        assert(v@ =~= k_stop());
    }
    v
}

/// The bytes of `"name"`.
fn key_name() -> (r: Vec<u8>)
    ensures
        r@ == k_name(),
{
    let mut v: Vec<u8> = Vec::new();
    v.push(110);
    v.push(97);
    v.push(109);
    v.push(101);
    proof {
        assert(v@ =~= k_name());
    }
    v
}

/// The bytes of `"time"`.
fn key_time() -> (r: Vec<u8>)
    ensures
        r@ == k_time(),
{
    let mut v: Vec<u8> = Vec::new();
    v.push(116);
    v.push(105);
    v.push(109);
    v.push(101);
    proof {
        assert(v@ =~= k_time());
    }
    v
}

/// The bytes of `"temperature"`.
fn key_temperature() -> (r: Vec<u8>)
    ensures
        r@ == k_temperature(),
{
    let mut v: Vec<u8> = Vec::new();
    v.push(116);
    v.push(101);
    v.push(109);
    v.push(112);
    v.push(101);
    v.push(114);
    v.push(97);
    v.push(116);
    v.push(117);
    v.push(114);
    v.push(101);
    proof {
        assert(v@ =~= k_temperature());
    }
    v
}

/// The bytes of `"status"`.
fn key_status() -> (r: Vec<u8>)
    ensures
        r@ == k_status(),
{
    let mut v: Vec<u8> = Vec::new();
    v.push(115);
    v.push(116);
    v.push(97);
    v.push(116);
    v.push(117);
    v.push(115);
    proof {
        assert(v@ =~= k_status());
    }
    v
}

/// The bytes of `"error"`.
fn key_error() -> (r: Vec<u8>)
    ensures
        r@ == k_error(),
{
    let mut v: Vec<u8> = Vec::new();
    v.push(101);
    v.push(114);
    v.push(114);
    v.push(111);
    v.push(114);
    proof {
        assert(v@ =~= k_error());
    }
    v
}

/// The bytes of `"setpoint"`.
fn key_setpoint() -> (r: Vec<u8>)
    ensures
        r@ == k_setpoint(),
{
    let mut v: Vec<u8> = Vec::new();
    v.push(115);
    v.push(101);
    v.push(116);
    v.push(112);
    v.push(111);
    v.push(105);
    v.push(110);
    v.push(116);
    proof {
        assert(v@ =~= k_setpoint());
    }
    v
}

/// The bytes of `"dutycycle"`.
fn key_dutycycle() -> (r: Vec<u8>)
    ensures
        r@ == k_dutycycle(),
{
    let mut v: Vec<u8> = Vec::new();
    v.push(100);
    v.push(117);
    v.push(116);
    v.push(121);
    v.push(99);
    v.push(121);
    v.push(99);
    v.push(108);
    v.push(101);
    proof {
        assert(v@ =~= k_dutycycle());
    }
    v
}

/// The bytes of `"reason"`.
fn key_reason() -> (r: Vec<u8>)
    ensures
        r@ == k_reason(),
{
    let mut v: Vec<u8> = Vec::new();
    v.push(114);
    v.push(101);
    v.push(97);
    v.push(115);
    v.push(111);
    v.push(110);
    proof {
        assert(v@ =~= k_reason());
    }
    v
}

/// Byte-for-byte comparison of two byte strings.
fn eq_bytes(a: &[u8], b: &[u8]) -> (r: bool)
    ensures
        r == (a@ == b@),
{
    if a.len() != b.len() {
        return false;
    }
    let mut i: usize = 0;
    while i < a.len()
        invariant
            0 <= i <= a@.len(),
            a@.len() == b@.len(),
            forall|k: int| 0 <= k < i ==> a@[k] == b@[k],
        decreases a@.len() - i,
    {
        if a[i] != b[i] {
            return false;
        }
        i = i + 1;
    }
    proof {
        assert(a@ =~= b@);
    }
    true
}

/// One `"key": value` member where the value is a quoted string.
fn push_str_member(out: &mut Vec<u8>, key: Vec<u8>, s: &Vec<u8>)
    ensures
        final(out)@ == old(out)@ + enc_str(key@) + seq![58u8] + enc_str(s@),
{
    push_quoted(out, &key);
    out.push(58);
    push_quoted(out, s);
    proof {
        assert(final(out)@ =~= old(out)@ + enc_str(key@) + seq![58u8] + enc_str(s@));
    }
}

/// One `"key": value` member where the value is a number.
fn push_num_member(out: &mut Vec<u8>, key: Vec<u8>, n: &Num)
    requires
        n@.wf(),
    ensures
        final(out)@ == old(out)@ + enc_str(key@) + seq![58u8] + enc_num(n@),
{
    push_quoted(out, &key);
    out.push(58);
    push_num(out, n);
    proof {
        assert(final(out)@ =~= old(out)@ + enc_str(key@) + seq![58u8] + enc_num(n@));
    }
}

/// One `"key": value` member where the value is an array of numbers.
fn push_arr_member(out: &mut Vec<u8>, key: Vec<u8>, ns: &Vec<Num>)
    requires
        forall|k: int| 0 <= k < ns@.len() ==> (#[trigger] ns@[k])@.wf(),
    ensures
        final(out)@ == old(out)@ + enc_str(key@) + seq![58u8] + enc_arr(nums_view(ns@)),
{
    push_quoted(out, &key);
    out.push(58);
    push_arr(out, ns);
    proof {
        assert(final(out)@ =~= old(out)@ + enc_str(key@) + seq![58u8] + enc_arr(
            nums_view(ns@),
        ));
    }
}

/// The canonical wire form of a profile command.
#[verifier::rlimit(100)]
fn encode_profile(p: &Profile) -> (r: Vec<u8>)
    requires
        p@.wf(),
    ensures
        r@ == spec_encode(ProtocolV::Profile(p@)),
{
    proof {
        assert forall|k: int| 0 <= k < p.time@.len() implies (
        #[trigger] p.time@[k])@.wf() by {
            assert(nums_view(p.time@)[k] == p.time@[k]@);
        }
        assert forall|k: int| 0 <= k < p.temperature@.len() implies (
        #[trigger] p.temperature@[k])@.wf() by {
            assert(nums_view(p.temperature@)[k] == p.temperature@[k]@);
        }
    }
    let mut out: Vec<u8> = Vec::new();
    out.push(123);
    push_quoted(&mut out, &key_profile());
    out.push(58);
    out.push(123);
    push_str_member(&mut out, key_name(), &p.name);
    out.push(44);
    push_arr_member(&mut out, key_time(), &p.time);
    out.push(44);
    push_arr_member(&mut out, key_temperature(), &p.temperature);
    out.push(125);
    out.push(125);
    proof {
        lemma_profile_members_flat(p@);
        assert(out@ =~= spec_encode(ProtocolV::Profile(p@)));
    }
    out
}

/// `enc_members` of a profile payload, written out flat.
proof fn lemma_profile_members_flat(p: ProfileV)
    ensures
        enc_members(profile_members(p)) == enc_str(k_name()) + seq![58u8] + enc_str(p.name)
            + seq![44u8] + enc_str(k_time()) + seq![58u8] + enc_arr(p.time) + seq![44u8]
            + enc_str(k_temperature()) + seq![58u8] + enc_arr(p.temperature),
{
    let ms = profile_members(p);
    assert(ms.drop_first() =~= seq![
        (k_time(), ValV::VArr(p.time)),
        (k_temperature(), ValV::VArr(p.temperature)),
    ]);
    assert(ms.drop_first().drop_first() =~= seq![(k_temperature(), ValV::VArr(p.temperature))]);
    assert(enc_members(ms.drop_first().drop_first()) == enc_str(k_temperature()) + seq![58u8]
        + enc_arr(p.temperature));
    assert(enc_members(ms.drop_first()) == enc_str(k_time()) + seq![58u8] + enc_arr(p.time)
        + seq![44u8] + enc_members(ms.drop_first().drop_first()));
    assert(enc_members(ms) == enc_str(k_name()) + seq![58u8] + enc_str(p.name) + seq![44u8]
        + enc_members(ms.drop_first()));
    assert(enc_members(profile_members(p)) =~= enc_str(k_name()) + seq![58u8] + enc_str(p.name)
        + seq![44u8] + enc_str(k_time()) + seq![58u8] + enc_arr(p.time) + seq![44u8]
        + enc_str(k_temperature()) + seq![58u8] + enc_arr(p.temperature));
}

/// The canonical wire form of a feedback command.
#[verifier::rlimit(100)]
fn encode_feedback(f: &Feedback) -> (r: Vec<u8>)
    requires
        f@.wf(),
    ensures
        r@ == spec_encode(ProtocolV::Feedback(f@)),
{
    let mut out: Vec<u8> = Vec::new();
    out.push(123);
    push_quoted(&mut out, &key_feedback());
    out.push(58);
    out.push(123);
    proof {
        assert(out@ =~= seq![123u8] + enc_str(k_feedback()) + seq![58u8] + seq![123u8]);
    }
    let ghost g0 = out@;
    push_str_member(&mut out, key_status(), &f.status);
    out.push(44);
    proof {
        assert(out@ =~= g0 + enc_str(k_status()) + seq![58u8] + enc_str(f@.status)
            + seq![44u8]);
    }
    let ghost g1 = out@;
    push_num_member(&mut out, key_time(), &f.time);
    out.push(44);
    proof {
        assert(out@ =~= g1 + enc_str(k_time()) + seq![58u8] + enc_num(f@.time) + seq![44u8]);
    }
    let ghost g2 = out@;
    push_num_member(&mut out, key_temperature(), &f.temperature);
    out.push(44);
    proof {
        assert(out@ =~= g2 + enc_str(k_temperature()) + seq![58u8] + enc_num(f@.temperature)
            + seq![44u8]);
    }
    let ghost g3 = out@;
    push_num_member(&mut out, key_error(), &f.error);
    out.push(44);
    proof {
        assert(out@ =~= g3 + enc_str(k_error()) + seq![58u8] + enc_num(f@.error) + seq![44u8]);
    }
    let ghost g4 = out@;
    push_num_member(&mut out, key_setpoint(), &f.setpoint);
    out.push(44);
    proof {
        assert(out@ =~= g4 + enc_str(k_setpoint()) + seq![58u8] + enc_num(f@.setpoint)
            + seq![44u8]);
    }
    let ghost g5 = out@;
    push_num_member(&mut out, key_dutycycle(), &f.dutycycle);
    out.push(125);
    out.push(125);
    proof {
        assert(out@ =~= g5 + enc_str(k_dutycycle()) + seq![58u8] + enc_num(f@.dutycycle)
            + seq![125u8] + seq![125u8]);
        assert(out@ =~= feedback_wire_flat(f@));
        lemma_feedback_assemble(f@, out@);
    }
    out
}

/// The whole feedback message, written out flat.
spec fn feedback_wire_flat(f: FeedbackV) -> Seq<u8> {
    seq![123u8] + enc_str(k_feedback()) + seq![58u8] + seq![123u8] + enc_str(k_status())
        + seq![58u8] + enc_str(f.status) + seq![44u8] + enc_str(k_time()) + seq![58u8] + enc_num(
        f.time,
    ) + seq![44u8] + enc_str(k_temperature()) + seq![58u8] + enc_num(f.temperature) + seq![44u8]
        + enc_str(k_error()) + seq![58u8] + enc_num(f.error) + seq![44u8] + enc_str(k_setpoint())
        + seq![58u8] + enc_num(f.setpoint) + seq![44u8] + enc_str(k_dutycycle()) + seq![58u8]
        + enc_num(f.dutycycle) + seq![125u8] + seq![125u8]
}

/// Regrouping the flat feedback message gives the canonical encoding.
#[verifier::rlimit(100)]
proof fn lemma_feedback_assemble(f: FeedbackV, out: Seq<u8>)
    requires
        out == feedback_wire_flat(f),
    ensures
        out == spec_encode(ProtocolV::Feedback(f)),
{
    lemma_feedback_members_flat(f);
    assert(out =~= spec_encode(ProtocolV::Feedback(f)));
}

/// `enc_members` of a feedback payload, written out flat.
#[verifier::rlimit(100)]
proof fn lemma_feedback_members_flat(f: FeedbackV)
    ensures
        enc_members(feedback_members(f)) == enc_str(k_status()) + seq![58u8] + enc_str(f.status)
            + seq![44u8] + enc_str(k_time()) + seq![58u8] + enc_num(f.time) + seq![44u8]
            + enc_str(k_temperature()) + seq![58u8] + enc_num(f.temperature) + seq![44u8]
            + enc_str(k_error()) + seq![58u8] + enc_num(f.error) + seq![44u8] + enc_str(
            k_setpoint(),
        ) + seq![58u8] + enc_num(f.setpoint) + seq![44u8] + enc_str(k_dutycycle()) + seq![58u8]
            + enc_num(f.dutycycle),
{
    let ms = feedback_members(f);
    let m1 = ms.drop_first();
    let m2 = m1.drop_first();
    let m3 = m2.drop_first();
    let m4 = m3.drop_first();
    let m5 = m4.drop_first();
    assert(m1 =~= seq![
        (k_time(), ValV::VNum(f.time)),
        (k_temperature(), ValV::VNum(f.temperature)),
        (k_error(), ValV::VNum(f.error)),
        (k_setpoint(), ValV::VNum(f.setpoint)),
        (k_dutycycle(), ValV::VNum(f.dutycycle)),
    ]);
    assert(m2 =~= seq![
        (k_temperature(), ValV::VNum(f.temperature)),
        (k_error(), ValV::VNum(f.error)),
        (k_setpoint(), ValV::VNum(f.setpoint)),
        (k_dutycycle(), ValV::VNum(f.dutycycle)),
    ]);
    assert(m3 =~= seq![
        (k_error(), ValV::VNum(f.error)),
        (k_setpoint(), ValV::VNum(f.setpoint)),
        (k_dutycycle(), ValV::VNum(f.dutycycle)),
    ]);
    assert(m4 =~= seq![
        (k_setpoint(), ValV::VNum(f.setpoint)),
        (k_dutycycle(), ValV::VNum(f.dutycycle)),
    ]);
    assert(m5 =~= seq![(k_dutycycle(), ValV::VNum(f.dutycycle))]);
    assert(enc_members(m5) == enc_str(k_dutycycle()) + seq![58u8] + enc_num(f.dutycycle));
    assert(enc_members(m4) == enc_str(k_setpoint()) + seq![58u8] + enc_num(f.setpoint)
        + seq![44u8] + enc_members(m5));
    assert(enc_members(m3) == enc_str(k_error()) + seq![58u8] + enc_num(f.error) + seq![44u8]
        + enc_members(m4));
    assert(enc_members(m2) == enc_str(k_temperature()) + seq![58u8] + enc_num(f.temperature)
        + seq![44u8] + enc_members(m3));
    assert(enc_members(m1) == enc_str(k_time()) + seq![58u8] + enc_num(f.time) + seq![44u8]
        + enc_members(m2));
    assert(enc_members(ms) == enc_str(k_status()) + seq![58u8] + enc_str(f.status) + seq![44u8]
        + enc_members(m1));
    assert(enc_members(feedback_members(f)) =~= enc_str(k_status()) + seq![58u8] + enc_str(
        f.status,
    ) + seq![44u8] + enc_str(k_time()) + seq![58u8] + enc_num(f.time) + seq![44u8] + enc_str(
        k_temperature(),
    ) + seq![58u8] + enc_num(f.temperature) + seq![44u8] + enc_str(k_error()) + seq![58u8]
        + enc_num(f.error) + seq![44u8] + enc_str(k_setpoint()) + seq![58u8] + enc_num(f.setpoint)
        + seq![44u8] + enc_str(k_dutycycle()) + seq![58u8] + enc_num(f.dutycycle));
}

/// The canonical wire form of a start or stop command: both carry a
/// bare reason, only the variant key differs.
fn encode_reason(key: Vec<u8>, reason: &Vec<u8>) -> (r: Vec<u8>)
    ensures
        r@ == seq![123u8] + enc_str(key@) + seq![58u8] + enc_obj(reason_members(reason@))
            + seq![125u8],
{
    let mut out: Vec<u8> = Vec::new();
    out.push(123);
    push_quoted(&mut out, &key);
    out.push(58);
    out.push(123);
    push_str_member(&mut out, key_reason(), reason);
    out.push(125);
    out.push(125);
    proof {
        assert(out@ =~= seq![123u8] + enc_str(key@) + seq![58u8] + enc_obj(
            reason_members(reason@),
        ) + seq![125u8]);
    }
    out
}

/// Serialize one command into its canonical wire form: a single-key
/// object whose key names the variant, with the payload fields in
/// serialization order and numbers in canonical decimal form.
pub fn encode(c: &Protocol) -> (r: Vec<u8>)
    requires
        c.wf(),
    ensures
        r@ == spec_encode(c@),
{
    match c {
        Protocol::Profile(p) => encode_profile(p),
        Protocol::Feedback(f) => encode_feedback(f),
        Protocol::Start(s) => encode_reason(key_start(), &s.reason),
        Protocol::Stop(s) => encode_reason(key_stop(), &s.reason),
    }
}

// --- decoding ----------------------------------------------------------

/// Index just past the leading whitespace, from `i` on.
fn ws_end(s: &[u8], i: usize) -> (j: usize)
    requires
        i <= s@.len(),
    ensures
        i <= j <= s@.len(),
        s@.skip(j as int) == skip_ws(s@.skip(i as int)),
    decreases s@.len() - i,
{
    if i < s.len() {
        let b = s[i];
        if b == 32 || b == 9 || b == 13 || b == 10 {
            proof {
                lemma_skip_step(s@, i as int);
            }
            return ws_end(s, i + 1);
        }
    }
    i
}

/// String content from `i` on, up to the closing quote, appended to `out`.
fn scan_str_from(s: &[u8], i: usize, out: &mut Vec<u8>) -> (r: Option<usize>)
    requires
        i <= s@.len(),
    ensures
        ({
            let sp = scan_str(s@.skip(i as int));
            match r {
                Some(j) => i <= j <= s@.len() && match sp {
                    Some(p) => final(out)@ == old(out)@ + p.0 && s@.skip(j as int) == p.1,
                    None => false,
                },
                None => sp is None,
            }
        }),
    decreases s@.len() - i,
{
    if i == s.len() {
        return None;
    }
    let b = s[i];
    proof {
        lemma_skip_step(s@, i as int);
    }
    if b == 34 {
        proof {
            assert(old(out)@ + Seq::<u8>::empty() =~= old(out)@);
        }
        Some(i + 1)
    } else if b == 92 {
        None
    } else {
        let ghost pre = out@;
        out.push(b);
        let r = scan_str_from(s, i + 1, out);
        match r {
            Some(j) => {
                proof {
                    let p = scan_str(s@.skip(i + 1)).unwrap();
                    assert(pre.push(b) + p.0 =~= pre + (seq![b] + p.0));
                }
                Some(j)
            },
            None => None,
        }
    }
}

/// One quoted string token at `i`.
fn parse_str_at(s: &[u8], i: usize) -> (r: Option<(Vec<u8>, usize)>)
    requires
        i <= s@.len(),
    ensures
        ({
            let sp = parse_str(s@.skip(i as int));
            match r {
                Some(p) => i <= p.1 <= s@.len() && sp == Some((p.0@, s@.skip(p.1 as int))),
                None => sp is None,
            }
        }),
{
    if i < s.len() && s[i] == 34 {
        proof {
            lemma_skip_step(s@, i as int);
        }
        let mut out: Vec<u8> = Vec::new();
        match scan_str_from(s, i + 1, &mut out) {
            Some(j) => {
                proof {
                    let p = scan_str(s@.skip(i + 1)).unwrap();
                    assert(Seq::<u8>::empty() + p.0 =~= p.0);
                }
                Some((out, j))
            },
            None => None,
        }
    } else {
        None
    }
}

/// Index just past the digits at `i`.
fn digits_end(s: &[u8], i: usize) -> (j: usize)
    requires
        i <= s@.len(),
    ensures
        i <= j <= s@.len(),
        scan_digits(s@.skip(i as int)).0 == s@.subrange(i as int, j as int),
        scan_digits(s@.skip(i as int)).1 == s@.skip(j as int),
        forall|k: int| i <= k < j ==> is_digit(s@[k]),
    decreases s@.len() - i,
{
    if i < s.len() {
        let b = s[i];
        if 48 <= b && b <= 57 {
            proof {
                lemma_skip_step(s@, i as int);
            }
            let j = digits_end(s, i + 1);
            proof {
                assert(seq![s@[i as int]] + s@.subrange(i + 1, j as int) =~= s@.subrange(
                    i as int,
                    j as int,
                ));
            }
            return j;
        }
    }
    proof {
        assert(s@.subrange(i as int, i as int) =~= Seq::<u8>::empty());
    }
    i
}

proof fn lemma_digits_val_nonneg(ds: Seq<u8>)
    requires
        forall|k: int| 0 <= k < ds.len() ==> is_digit(ds[k]),
    ensures
        digits_val(ds) >= 0,
    decreases ds.len(),
{
    if ds.len() > 0 {
        lemma_digits_val_nonneg(ds.drop_last());
    }
}

/// A digit string's value only grows as digits are appended.
proof fn lemma_digits_val_grow(s: Seq<u8>, i: int, k: int, j: int)
    requires
        0 <= i <= k <= j <= s.len(),
        forall|t: int| i <= t < j ==> is_digit(s[t]),
    ensures
        digits_val(s.subrange(i, k)) <= digits_val(s.subrange(i, j)),
    decreases j - k,
{
    if k < j {
        lemma_digits_val_grow(s, i, k, j - 1);
        let a = s.subrange(i, j - 1);
        let b = s.subrange(i, j);
        assert(b.drop_last() =~= a);
        lemma_digits_val_nonneg(a);
        assert(digits_val(b) == digits_val(a) * 10 + (b.last() - 48));
    }
}

/// The value of the digits in `s[i..j)`, if it fits a 64-bit integer.
fn digits_to_u64(s: &[u8], i: usize, j: usize) -> (r: Option<u64>)
    requires
        i <= j <= s@.len(),
        forall|k: int| i <= k < j ==> is_digit(s@[k]),
    ensures
        ({
            let ds = s@.subrange(i as int, j as int);
            match r {
                Some(v) => v == digits_val(ds),
                None => digits_val(ds) > u64::MAX,
            }
        }),
{
    let mut acc: u64 = 0;
    let mut k: usize = i;
    proof {
        assert(s@.subrange(i as int, i as int) =~= Seq::<u8>::empty());
    }
    while k < j
        invariant
            i <= k <= j <= s@.len(),
            forall|t: int| i <= t < j ==> is_digit(s@[t]),
            acc == digits_val(s@.subrange(i as int, k as int)),
        decreases j - k,
    {
        let d = s[k] - 48;
        let dd = d as u64;
        proof {
            assert(s@.subrange(i as int, k + 1).drop_last() =~= s@.subrange(
                i as int,
                k as int,
            ));
            assert(s@.subrange(i as int, k + 1).last() == s@[k as int]);
        }
        let next = match acc.checked_mul(10) {
            Some(m) => m.checked_add(dd),
            None => None,
        };
        match next {
            Some(v) => {
                acc = v;
            },
            None => {
                proof {
                    assert(digits_val(s@.subrange(i as int, k + 1)) > u64::MAX);
                    lemma_digits_val_grow(s@, i as int, k + 1, j as int);
                }
                return None;
            },
        }
        k = k + 1;
    }
    Some(acc)
}

/// The canonical fraction built from the ASCII digits in `s[i..j)`.
fn frac_digits(s: &[u8], i: usize, j: usize) -> (r: Vec<u8>)
    requires
        i <= j <= s@.len(),
        forall|k: int| i <= k < j ==> is_digit(s@[k]),
    ensures
        r@ == crate::grammar::norm_frac(s@.subrange(i as int, j as int)),
{
    let ghost ds = s@.subrange(i as int, j as int);
    let ghost vals = ds.map_values(|d: u8| (d - 48) as u8);
    let mut v: Vec<u8> = Vec::new();
    let mut k: usize = i;
    while k < j
        invariant
            i <= k <= j <= s@.len(),
            forall|t: int| i <= t < j ==> is_digit(s@[t]),
            v@ == s@.subrange(i as int, k as int).map_values(|d: u8| (d - 48) as u8),
        decreases j - k,
    {
        let ghost pre = v@;
        v.push(s[k] - 48);
        proof {
            assert(pre.push((s@[k as int] - 48) as u8) =~= s@.subrange(i as int, k + 1)
                .map_values(|d: u8| (d - 48) as u8));
        }
        k = k + 1;
    }
    proof {
        assert(v@ =~= vals);
    }
    while v.len() > 0 && v[v.len() - 1] == 0
        invariant
            crate::grammar::strip_zeros(v@) == crate::grammar::strip_zeros(vals),
        decreases v@.len(),
    {
        let ghost pre = v@;
        v.pop();
        proof {
            assert(v@ =~= pre.drop_last());
        }
    }
    if v.len() == 0 {
        v.push(0);
        proof {
            assert(v@ =~= seq![0u8]);
        }
    }
    v
}

/// One decimal number token at `i`.
fn num_at(s: &[u8], i: usize) -> (r: Option<(Num, usize)>)
    requires
        i <= s@.len(),
    ensures
        ({
            let sp = parse_num(s@.skip(i as int));
            match r {
                Some(p) => i <= p.1 <= s@.len() && sp == Some((p.0@, s@.skip(p.1 as int))),
                None => sp is None,
            }
        }),
{
    let neg = i < s.len() && s[i] == 45;
    let i1 = if neg {
        proof {
            lemma_skip_step(s@, i as int);
        }
        i + 1
    } else {
        i
    };
    let j = digits_end(s, i1);
    let ghost ds = s@.subrange(i1 as int, j as int);
    if j == i1 {
        return None;
    }
    if j - i1 > 1 && s[i1] == 48 {
        return None;
    }
    let ip = match digits_to_u64(s, i1, j) {
        Some(v) => v,
        None => {
            return None;
        },
    };
    proof {
        assert(digits_ok(ds));
    }
    if j < s.len() && s[j] == 46 {
        proof {
            lemma_skip_step(s@, j as int);
        }
        let j2 = digits_end(s, j + 1);
        if j2 == j + 1 {
            proof {
                assert(s@.subrange(j + 1, j + 1) =~= Seq::<u8>::empty());
            }
            return None;
        }
        let frac = frac_digits(s, j + 1, j2);
        let n = Num { neg, int_part: ip, frac };
        Some((n, j2))
    } else {
        let mut frac: Vec<u8> = Vec::new();
        frac.push(0);
        proof {
            assert(frac@ =~= seq![0u8]);
        }
        let n = Num { neg, int_part: ip, frac };
        Some((n, j))
    }
}

/// Array elements from `i` on, appended to `out`, up to and including
/// the closing bracket.
fn items_at(s: &[u8], i: usize, fuel: usize, out: &mut Vec<Num>) -> (r: Option<usize>)
    requires
        i <= s@.len(),
    ensures
        ({
            let sp = parse_arr_items(s@.skip(i as int), fuel as nat);
            match r {
                Some(j) => i <= j <= s@.len() && match sp {
                    Some(p) => nums_view(final(out)@) == nums_view(old(out)@) + p.0 && s@.skip(
                        j as int,
                    ) == p.1,
                    None => false,
                },
                None => sp is None,
            }
        }),
    decreases fuel,
{
    if fuel == 0 {
        return None;
    }
    match num_at(s, i) {
        Some(nj) => {
            let (n, j) = nj;
            let r1 = ws_end(s, j);
            let ghost pre = out@;
            out.push(n);
            proof {
                assert(nums_view(pre.push(n)) =~= nums_view(pre) + seq![n@]);
            }
            if r1 < s.len() && s[r1] == 44 {
                proof {
                    lemma_skip_step(s@, r1 as int);
                }
                let r2 = ws_end(s, r1 + 1);
                match items_at(s, r2, fuel - 1, out) {
                    Some(j2) => {
                        proof {
                            let q = parse_arr_items(s@.skip(r2 as int), (fuel - 1) as nat)
                                .unwrap();
                            assert(nums_view(pre) + seq![n@] + q.0 =~= nums_view(pre) + (
                            seq![n@] + q.0));
                        }
                        Some(j2)
                    },
                    None => None,
                }
            } else if r1 < s.len() && s[r1] == 93 {
                proof {
                    lemma_skip_step(s@, r1 as int);
                }
                Some(r1 + 1)
            } else {
                None
            }
        },
        None => None,
    }
}

/// One bracketed array of numbers at `i`.
fn arr_at(s: &[u8], i: usize) -> (r: Option<(Vec<Num>, usize)>)
    requires
        i <= s@.len(),
    ensures
        ({
            let sp = parse_arr(s@.skip(i as int));
            match r {
                Some(p) => i <= p.1 <= s@.len() && sp == Some((nums_view(p.0@), s@.skip(
                    p.1 as int,
                ))),
                None => sp is None,
            }
        }),
{
    if !(i < s.len() && s[i] == 91) {
        return None;
    }
    proof {
        lemma_skip_step(s@, i as int);
    }
    let i1 = ws_end(s, i + 1);
    if i1 < s.len() && s[i1] == 93 {
        proof {
            lemma_skip_step(s@, i1 as int);
            assert(nums_view(Seq::<Num>::empty()) =~= Seq::<NumV>::empty());
        }
        let out: Vec<Num> = Vec::new();
        return Some((out, i1 + 1));
    }
    let mut out: Vec<Num> = Vec::new();
    match items_at(s, i1, MAX_SERIES_LEN, &mut out) {
        Some(j) => {
            proof {
                let p = parse_arr_items(s@.skip(i1 as int), MAX_SERIES_LEN as nat).unwrap();
                assert(nums_view(Seq::<Num>::empty()) =~= Seq::<NumV>::empty());
                assert(Seq::<NumV>::empty() + p.0 =~= p.0);
            }
            Some((out, j))
        },
        None => None,
    }
}

/// One payload field value at `i`, told apart by its first byte.
fn val_at(s: &[u8], i: usize) -> (r: Option<(Val, usize)>)
    requires
        i <= s@.len(),
    ensures
        ({
            let sp = parse_val(s@.skip(i as int));
            match r {
                Some(p) => i <= p.1 <= s@.len() && sp == Some((p.0@, s@.skip(p.1 as int))),
                None => sp is None,
            }
        }),
{
    if i == s.len() {
        return None;
    }
    let b = s[i];
    if b == 34 {
        match parse_str_at(s, i) {
            Some(p) => Some((Val::VStr(p.0), p.1)),
            None => None,
        }
    } else if b == 91 {
        match arr_at(s, i) {
            Some(p) => Some((Val::VArr(p.0), p.1)),
            None => None,
        }
    } else {
        match num_at(s, i) {
            Some(p) => Some((Val::VNum(p.0), p.1)),
            None => None,
        }
    }
}

/// Object members from `i` on, appended to `out`, up to and including
/// the closing brace.
fn members_at(s: &[u8], i: usize, fuel: usize, out: &mut Vec<(Vec<u8>, Val)>) -> (r: Option<
    usize,
>)
    requires
        i <= s@.len(),
    ensures
        ({
            let sp = parse_members(s@.skip(i as int), fuel as nat);
            match r {
                Some(j) => i <= j <= s@.len() && match sp {
                    Some(p) => members_view(final(out)@) == members_view(old(out)@) + p.0
                        && s@.skip(j as int) == p.1,
                    None => false,
                },
                None => sp is None,
            }
        }),
    decreases fuel,
{
    if fuel == 0 {
        return None;
    }
    match parse_str_at(s, i) {
        Some(kj) => {
            let (key, j) = kj;
            let r1 = ws_end(s, j);
            if !(r1 < s.len() && s[r1] == 58) {
                return None;
            }
            proof {
                lemma_skip_step(s@, r1 as int);
            }
            let r2 = ws_end(s, r1 + 1);
            match val_at(s, r2) {
                Some(vj) => {
                    let (v, j3) = vj;
                    let r3 = ws_end(s, j3);
                    let ghost pre = out@;
                    let ghost kv = (key@, v@);
                    out.push((key, v));
                    proof {
                        assert(members_view(pre.push((key, v))) =~= members_view(pre)
                            + seq![kv]);
                    }
                    if r3 < s.len() && s[r3] == 44 {
                        proof {
                            lemma_skip_step(s@, r3 as int);
                        }
                        let r4 = ws_end(s, r3 + 1);
                        match members_at(s, r4, fuel - 1, out) {
                            Some(j4) => {
                                proof {
                                    let q = parse_members(
                                        s@.skip(r4 as int),
                                        (fuel - 1) as nat,
                                    ).unwrap();
                                    assert(members_view(pre) + seq![kv] + q.0 =~= members_view(
                                        pre,
                                    ) + (seq![kv] + q.0));
                                }
                                Some(j4)
                            },
                            None => None,
                        }
                    } else if r3 < s.len() && s[r3] == 125 {
                        proof {
                            lemma_skip_step(s@, r3 as int);
                        }
                        Some(r3 + 1)
                    } else {
                        None
                    }
                },
                None => None,
            }
        },
        None => None,
    }
}

/// One braced payload object at `i`, as a member list.
fn obj_at(s: &[u8], i: usize) -> (r: Option<(Vec<(Vec<u8>, Val)>, usize)>)
    requires
        i <= s@.len(),
    ensures
        ({
            let sp = parse_obj(s@.skip(i as int));
            match r {
                Some(p) => i <= p.1 <= s@.len() && sp == Some((members_view(p.0@), s@.skip(
                    p.1 as int,
                ))),
                None => sp is None,
            }
        }),
{
    if !(i < s.len() && s[i] == 123) {
        return None;
    }
    proof {
        lemma_skip_step(s@, i as int);
    }
    let i1 = ws_end(s, i + 1);
    if i1 < s.len() && s[i1] == 125 {
        proof {
            lemma_skip_step(s@, i1 as int);
            assert(members_view(Seq::<(Vec<u8>, Val)>::empty()) =~= Seq::<MemberV>::empty());
        }
        let out: Vec<(Vec<u8>, Val)> = Vec::new();
        return Some((out, i1 + 1));
    }
    let mut out: Vec<(Vec<u8>, Val)> = Vec::new();
    proof {
        assert(member_fuel() == 6);
    }
    match members_at(s, i1, 6, &mut out) {
        Some(j) => {
            proof {
                let p = parse_members(s@.skip(i1 as int), member_fuel()).unwrap();
                assert(members_view(Seq::<(Vec<u8>, Val)>::empty()) =~= Seq::<MemberV>::empty());
                assert(Seq::<MemberV>::empty() + p.0 =~= p.0);
            }
            Some((out, j))
        },
        None => None,
    }
}

// --- folding member lists into payloads ---------------------------------

/// The model of an optional byte string slot.
pub open spec fn opt_bytes(o: Option<Vec<u8>>) -> Option<Seq<u8>> {
    match o {
        Some(v) => Some(v@),
        None => None,
    }
}

/// The model of an optional number slot.
pub open spec fn opt_num(o: Option<Num>) -> Option<NumV> {
    match o {
        Some(n) => Some(n@),
        None => None,
    }
}

/// The model of an optional number series slot.
pub open spec fn opt_nums(o: Option<Vec<Num>>) -> Option<Seq<NumV>> {
    match o {
        Some(v) => Some(nums_view(v@)),
        None => None,
    }
}

/// Fold decoded members into a profile payload.
fn fold_profile(
    ms: Vec<(Vec<u8>, Val)>,
    name: Option<Vec<u8>>,
    time: Option<Vec<Num>>,
    temperature: Option<Vec<Num>>,
) -> (r: Option<Profile>)
    ensures
        ({
            let sp = fill_profile(members_view(ms@), opt_bytes(name), opt_nums(time), opt_nums(
                temperature,
            ));
            match r {
                Some(p) => sp == Some(p@),
                None => sp is None,
            }
        }),
    decreases ms@.len(),
{
    let ghost mv = members_view(ms@);
    let mut ms = ms;
    if ms.len() == 0 {
        match (name, time, temperature) {
            (Some(n), Some(t), Some(p)) => {
                if n.len() <= MAX_STRING_BYTES {
                    Some(Profile { name: n, time: t, temperature: p })
                } else {
                    None
                }
            },
            _ => None,
        }
    } else {
        let kv = ms.remove(0);
        proof {
            assert(mv[0] == (kv.0@, kv.1@));
            assert(members_view(ms@) =~= mv.drop_first());
        }
        let k = kv.0;
        let v = kv.1;
        if eq_bytes(k.as_slice(), key_name().as_slice()) {
            match (v, name) {
                (Val::VStr(sv), Option::None) => fold_profile(ms, Some(sv), time, temperature),
                _ => None,
            }
        } else if eq_bytes(k.as_slice(), key_time().as_slice()) {
            match (v, time) {
                (Val::VArr(a), Option::None) => fold_profile(ms, name, Some(a), temperature),
                _ => None,
            }
        } else if eq_bytes(k.as_slice(), key_temperature().as_slice()) {
            match (v, temperature) {
                (Val::VArr(a), Option::None) => fold_profile(ms, name, time, Some(a)),
                _ => None,
            }
        } else {
            None
        }
    }
}

/// Fold decoded members into a feedback payload.
fn fold_feedback(
    ms: Vec<(Vec<u8>, Val)>,
    status: Option<Vec<u8>>,
    time: Option<Num>,
    temperature: Option<Num>,
    error: Option<Num>,
    setpoint: Option<Num>,
    dutycycle: Option<Num>,
) -> (r: Option<Feedback>)
    ensures
        ({
            let sp = fill_feedback(
                members_view(ms@),
                opt_bytes(status),
                opt_num(time),
                opt_num(temperature),
                opt_num(error),
                opt_num(setpoint),
                opt_num(dutycycle),
            );
            match r {
                Some(f) => sp == Some(f@),
                None => sp is None,
            }
        }),
    decreases ms@.len(),
{
    let ghost mv = members_view(ms@);
    let mut ms = ms;
    if ms.len() == 0 {
        match (status, time, temperature, error, setpoint, dutycycle) {
            (Some(st), Some(t), Some(p), Some(e), Some(sp), Some(d)) => {
                if st.len() <= MAX_STRING_BYTES {
                    Some(
                        Feedback {
                            status: st,
                            time: t,
                            temperature: p,
                            error: e,
                            setpoint: sp,
                            dutycycle: d,
                        },
                    )
                } else {
                    None
                }
            },
            _ => None,
        }
    } else {
        let kv = ms.remove(0);
        proof {
            assert(mv[0] == (kv.0@, kv.1@));
            assert(members_view(ms@) =~= mv.drop_first());
        }
        let k = kv.0;
        let v = kv.1;
        if eq_bytes(k.as_slice(), key_status().as_slice()) {
            match (v, status) {
                (Val::VStr(sv), Option::None) => fold_feedback(
                    ms,
                    Some(sv),
                    time,
                    temperature,
                    error,
                    setpoint,
                    dutycycle,
                ),
                _ => None,
            }
        } else if eq_bytes(k.as_slice(), key_time().as_slice()) {
            match (v, time) {
                (Val::VNum(n), Option::None) => fold_feedback(
                    ms,
                    status,
                    Some(n),
                    temperature,
                    error,
                    setpoint,
                    dutycycle,
                ),
                _ => None,
            }
        } else if eq_bytes(k.as_slice(), key_temperature().as_slice()) {
            match (v, temperature) {
                (Val::VNum(n), Option::None) => fold_feedback(
                    ms,
                    status,
                    time,
                    Some(n),
                    error,
                    setpoint,
                    dutycycle,
                ),
                _ => None,
            }
        } else if eq_bytes(k.as_slice(), key_error().as_slice()) {
            match (v, error) {
                (Val::VNum(n), Option::None) => fold_feedback(
                    ms,
                    status,
                    time,
                    temperature,
                    Some(n),
                    setpoint,
                    dutycycle,
                ),
                _ => None,
            }
        } else if eq_bytes(k.as_slice(), key_setpoint().as_slice()) {
            match (v, setpoint) {
                (Val::VNum(n), Option::None) => fold_feedback(
                    ms,
                    status,
                    time,
                    temperature,
                    error,
                    Some(n),
                    dutycycle,
                ),
                _ => None,
            }
        } else if eq_bytes(k.as_slice(), key_dutycycle().as_slice()) {
            match (v, dutycycle) {
                (Val::VNum(n), Option::None) => fold_feedback(
                    ms,
                    status,
                    time,
                    temperature,
                    error,
                    setpoint,
                    Some(n),
                ),
                _ => None,
            }
        } else {
            None
        }
    }
}

/// Fold the single member of a start or stop payload into its reason.
fn fold_reason(ms: Vec<(Vec<u8>, Val)>, reason: Option<Vec<u8>>) -> (r: Option<Vec<u8>>)
    ensures
        ({
            let sp = fill_reason(members_view(ms@), opt_bytes(reason));
            match r {
                Some(b) => sp == Some(b@),
                None => sp is None,
            }
        }),
    decreases ms@.len(),
{
    let ghost mv = members_view(ms@);
    let mut ms = ms;
    if ms.len() == 0 {
        match reason {
            Some(b) => {
                if b.len() <= MAX_STRING_BYTES {
                    Some(b)
                } else {
                    None
                }
            },
            None => None,
        }
    } else {
        let kv = ms.remove(0);
        proof {
            assert(mv[0] == (kv.0@, kv.1@));
            assert(members_view(ms@) =~= mv.drop_first());
        }
        let k = kv.0;
        let v = kv.1;
        if eq_bytes(k.as_slice(), key_reason().as_slice()) {
            match (v, reason) {
                (Val::VStr(sv), Option::None) => fold_reason(ms, Some(sv)),
                _ => None,
            }
        } else {
            None
        }
    }
}

/// Decode one complete buffered message. `Some` is returned exactly on
/// the inputs the wire grammar accepts; the command is then the
/// grammar's meaning of the bytes, with every field within its bound.
pub fn decode(bytes: &[u8]) -> (r: Option<Protocol>)
    ensures
        match r {
            Some(c) => spec_decode(bytes@) == Some(c@) && c.wf(),
            None => spec_decode(bytes@) is None,
        },
{
    proof {
        crate::laws::lemma_spec_decode_wf(bytes@);
    }
    proof {
        assert(bytes@.skip(0) =~= bytes@);
    }
    let i0 = ws_end(bytes, 0);
    if !(i0 < bytes.len() && bytes[i0] == 123) {
        return None;
    }
    proof {
        lemma_skip_step(bytes@, i0 as int);
    }
    let i1 = ws_end(bytes, i0 + 1);
    let kj = match parse_str_at(bytes, i1) {
        Some(kj) => kj,
        None => {
            return None;
        },
    };
    let (key, j) = kj;
    let r1 = ws_end(bytes, j);
    if !(r1 < bytes.len() && bytes[r1] == 58) {
        return None;
    }
    proof {
        lemma_skip_step(bytes@, r1 as int);
    }
    let r2 = ws_end(bytes, r1 + 1);
    let oj = match obj_at(bytes, r2) {
        Some(oj) => oj,
        None => {
            return None;
        },
    };
    let (ms, j2) = oj;
    let r3 = ws_end(bytes, j2);
    if !(r3 < bytes.len() && bytes[r3] == 125) {
        return None;
    }
    proof {
        lemma_skip_step(bytes@, r3 as int);
    }
    let r4 = ws_end(bytes, r3 + 1);
    if r4 != bytes.len() {
        proof {
            assert(skip_ws(bytes@.skip(r3 + 1)).len() > 0);
        }
        return None;
    }
    let c = if eq_bytes(key.as_slice(), key_profile().as_slice()) {
        match fold_profile(ms, None, None, None) {
            Some(p) => Some(Protocol::Profile(p)),
            None => None,
        }
    } else if eq_bytes(key.as_slice(), key_feedback().as_slice()) {
        match fold_feedback(ms, None, None, None, None, None, None) {
            Some(f) => Some(Protocol::Feedback(f)),
            None => None,
        }
    } else if eq_bytes(key.as_slice(), key_start().as_slice()) {
        match fold_reason(ms, None) {
            Some(b) => Some(Protocol::Start(Start { reason: b })),
            None => None,
        }
    } else if eq_bytes(key.as_slice(), key_stop().as_slice()) {
        match fold_reason(ms, None) {
            Some(b) => Some(Protocol::Stop(Stop { reason: b })),
            None => None,
        }
    } else {
        None
    };
    c
}

} // verus!
