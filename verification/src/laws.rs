//! The protocol laws: encoding then decoding gives the command back,
//! and messages with an unrecognized variant key or a missing payload
//! field are rejected.

use vstd::prelude::*;

use crate::grammar::{
    dec_digits, decode_body, digits_ok, digits_val, enc_arr, enc_frac, enc_items, enc_members,
    enc_num, enc_obj, enc_str, enc_val, feedback_members, fill_feedback, fill_profile,
    fill_reason, is_digit, is_ws, k_dutycycle, k_error, k_feedback, k_name, k_profile, k_reason,
    k_setpoint, k_start, k_status, k_stop, k_temperature, k_time, member_fuel, norm_frac,
    parse_arr, parse_arr_items, parse_members, parse_num, parse_obj, parse_str, parse_val,
    profile_members, reason_members, scan_digits, scan_str, skip_ws, spec_decode, spec_encode,
    strip_zeros, MemberV, ValV,
};
use crate::protocol::{
    nums_wf, str_wf, FeedbackV, NumV, ProfileV, ProtocolV, MAX_SERIES_LEN, MAX_STRING_BYTES,
};

verus! {

/// A key as this protocol writes one: plain bytes, no quote, no
/// backslash.
pub open spec fn key_canon(k: Seq<u8>) -> bool {
    forall|i: int| 0 <= i < k.len() ==> k[i] != 34 && k[i] != 92
}

/// One member as the canonical encoder writes it.
pub open spec fn member_canon(m: MemberV) -> bool {
    key_canon(m.0) && m.1.wf()
}

// --- token round trips --------------------------------------------------

proof fn lemma_scan_str_of(content: Seq<u8>, rest: Seq<u8>)
    requires
        key_canon(content),
    ensures
        scan_str(content + seq![34u8] + rest) == Some((content, rest)),
    decreases content.len(),
{
    let s = content + seq![34u8] + rest;
    if content.len() == 0 {
        assert(s =~= seq![34u8] + rest);
        assert(s[0] == 34);
        assert(s.drop_first() =~= rest);
        assert(Seq::<u8>::empty() =~= content);
    } else {
        assert(s[0] == content[0]);
        assert(s.drop_first() =~= content.drop_first() + seq![34u8] + rest);
        lemma_scan_str_of(content.drop_first(), rest);
        assert(seq![content[0]] + content.drop_first() =~= content);
    }
}

proof fn lemma_parse_str_of(content: Seq<u8>, rest: Seq<u8>)
    requires
        key_canon(content),
    ensures
        parse_str(enc_str(content) + rest) == Some((content, rest)),
{
    let s = enc_str(content) + rest;
    assert(s[0] == 34);
    assert(s.drop_first() =~= content + seq![34u8] + rest);
    lemma_scan_str_of(content, rest);
}

proof fn lemma_dec_digits(n: nat)
    ensures
        dec_digits(n).len() >= 1,
        forall|i: int| 0 <= i < dec_digits(n).len() ==> is_digit(#[trigger] dec_digits(n)[i]),
        digits_val(dec_digits(n)) == n,
        dec_digits(n).len() > 1 ==> dec_digits(n)[0] != 48,
        n >= 10 ==> dec_digits(n).len() > 1,
        dec_digits(n)[0] != 45 && dec_digits(n)[0] != 34 && dec_digits(n)[0] != 91,
    decreases n,
{
    assert(digits_val(Seq::<u8>::empty()) == 0);
    if n < 10 {
        let ds = dec_digits(n);
        assert(ds =~= seq![(48 + n) as u8]);
        assert(ds.drop_last() =~= Seq::<u8>::empty());
        assert(ds.last() == (48 + n) as u8);
        assert(digits_val(ds) == digits_val(ds.drop_last()) * 10 + (ds.last() - 48));
        assert(digits_val(ds) == n);
    } else {
        lemma_dec_digits(n / 10);
        let a = dec_digits(n / 10);
        let ds = dec_digits(n);
        assert(ds == a.push((48 + n % 10) as u8));
        assert(ds.drop_last() =~= a);
        assert(ds.last() == (48 + n % 10) as u8);
        assert(digits_val(ds) == digits_val(a) * 10 + (n % 10));
        assert(ds[0] == a[0]);
        if n / 10 < 10 {
            assert(a[0] == (48 + n / 10) as u8);
            assert(n / 10 >= 1);
        }
    }
}

proof fn lemma_scan_digits_of(ds: Seq<u8>, rest: Seq<u8>)
    requires
        forall|i: int| 0 <= i < ds.len() ==> is_digit(#[trigger] ds[i]),
        rest.len() == 0 || !is_digit(rest[0]),
    ensures
        scan_digits(ds + rest) == (ds, rest),
    decreases ds.len(),
{
    let s = ds + rest;
    if ds.len() == 0 {
        assert(s =~= rest);
        assert(Seq::<u8>::empty() =~= ds);
    } else {
        assert(s[0] == ds[0]);
        assert(s.drop_first() =~= ds.drop_first() + rest);
        lemma_scan_digits_of(ds.drop_first(), rest);
        assert(seq![ds[0]] + ds.drop_first() =~= ds);
    }
}

proof fn lemma_norm_enc_frac(f: Seq<u8>)
    requires
        f.len() >= 1,
        forall|i: int| 0 <= i < f.len() ==> f[i] <= 9,
        f.len() == 1 || f[f.len() - 1] != 0,
    ensures
        norm_frac(enc_frac(f)) == f,
{
    let vals = enc_frac(f).map_values(|d: u8| (d - 48) as u8);
    assert(vals =~= f);
    if f.last() != 0 {
        assert(strip_zeros(f) == f);
    } else {
        assert(f =~= seq![0u8]);
        assert(f.drop_last() =~= Seq::<u8>::empty());
        assert(strip_zeros(Seq::<u8>::empty()) == Seq::<u8>::empty());
        assert(strip_zeros(f) == Seq::<u8>::empty());
        assert(norm_frac(enc_frac(f)) =~= f);
    }
}

proof fn lemma_parse_num_of(n: NumV, rest: Seq<u8>)
    requires
        n.wf(),
        rest.len() == 0 || !is_digit(rest[0]),
    ensures
        parse_num(enc_num(n) + rest) == Some((n, rest)),
{
    let s = enc_num(n) + rest;
    let ip = n.int_part as nat;
    lemma_dec_digits(ip);
    let tail1 = seq![46u8] + enc_frac(n.frac) + rest;
    if n.neg {
        assert(s[0] == 45);
        assert(s.drop_first() =~= dec_digits(ip) + tail1);
    } else {
        assert(s[0] == dec_digits(ip)[0]);
        assert(!(s.len() > 0 && s[0] == 45));
        assert(s =~= dec_digits(ip) + tail1);
    }
    let s1 = if n.neg {
        s.drop_first()
    } else {
        s
    };
    assert(s1 == dec_digits(ip) + tail1);
    assert(tail1[0] == 46 && !is_digit(46));
    lemma_scan_digits_of(dec_digits(ip), tail1);
    assert(scan_digits(s1) == (dec_digits(ip), tail1));
    assert(digits_ok(dec_digits(ip)));
    assert(tail1.drop_first() =~= enc_frac(n.frac) + rest);
    assert forall|i: int| 0 <= i < enc_frac(n.frac).len() implies is_digit(
        #[trigger] enc_frac(n.frac)[i],
    ) by {
        assert(enc_frac(n.frac)[i] == (48 + n.frac[i]) as u8);
    }
    lemma_scan_digits_of(enc_frac(n.frac), rest);
    assert(enc_frac(n.frac).len() == n.frac.len() >= 1);
    lemma_norm_enc_frac(n.frac);
}

/// The first byte of an encoded value: a quote, a bracket, a sign, or a
/// digit — never whitespace, a comma, a colon, or a closing brace.
proof fn lemma_enc_val_first(v: ValV)
    ensures
        enc_val(v).len() > 0,
        enc_val(v)[0] == 34 || enc_val(v)[0] == 91 || enc_val(v)[0] == 45 || is_digit(
            enc_val(v)[0],
        ),
        v is VStr ==> enc_val(v)[0] == 34,
        v is VArr ==> enc_val(v)[0] == 91,
        v is VNum ==> enc_val(v)[0] == 45 || is_digit(enc_val(v)[0]),
{
    match v {
        ValV::VStr(s) => {
            assert(enc_val(v)[0] == 34);
        },
        ValV::VNum(n) => {
            if n.neg {
                assert(enc_val(v)[0] == 45);
            } else {
                lemma_dec_digits(n.int_part as nat);
                assert(enc_val(v)[0] == dec_digits(n.int_part as nat)[0]);
            }
        },
        ValV::VArr(ns) => {
            assert(enc_val(v)[0] == 91);
        },
    }
}

proof fn lemma_parse_items_of(ns: Seq<NumV>, rest: Seq<u8>, fuel: nat)
    requires
        1 <= ns.len() <= fuel,
        forall|i: int| 0 <= i < ns.len() ==> (#[trigger] ns[i]).wf(),
    ensures
        parse_arr_items(enc_items(ns) + seq![93u8] + rest, fuel) == Some((ns, rest)),
    decreases ns.len(),
{
    let s = enc_items(ns) + seq![93u8] + rest;
    if ns.len() == 1 {
        let tail = seq![93u8] + rest;
        assert(s =~= enc_num(ns[0]) + tail);
        assert(!is_digit(93));
        lemma_parse_num_of(ns[0], tail);
        assert(skip_ws(tail) == tail);
        assert(tail.drop_first() =~= rest);
        assert(seq![ns[0]] =~= ns);
    } else {
        let tail = seq![44u8] + enc_items(ns.drop_first()) + seq![93u8] + rest;
        assert(s =~= enc_num(ns[0]) + tail);
        assert(!is_digit(44));
        lemma_parse_num_of(ns[0], tail);
        assert(skip_ws(tail) == tail);
        assert(tail[0] == 44);
        let after = enc_items(ns.drop_first()) + seq![93u8] + rest;
        assert(tail.drop_first() =~= after);
        lemma_enc_val_first(ValV::VNum(ns.drop_first()[0]));
        assert(enc_items(ns.drop_first())[0] == enc_num(ns.drop_first()[0])[0]);
        assert(after[0] == enc_items(ns.drop_first())[0]);
        assert(!is_ws(after[0]));
        assert(skip_ws(after) == after);
        lemma_parse_items_of(ns.drop_first(), rest, (fuel - 1) as nat);
        assert(seq![ns[0]] + ns.drop_first() =~= ns);
    }
}

proof fn lemma_parse_arr_of(ns: Seq<NumV>, rest: Seq<u8>)
    requires
        nums_wf(ns),
    ensures
        parse_arr(enc_arr(ns) + rest) == Some((ns, rest)),
{
    let s = enc_arr(ns) + rest;
    assert(s[0] == 91);
    let inner = enc_items(ns) + seq![93u8] + rest;
    assert(s.drop_first() =~= inner);
    if ns.len() == 0 {
        assert(inner =~= seq![93u8] + rest);
        assert(skip_ws(inner) == inner);
        assert(inner.drop_first() =~= rest);
        assert(Seq::<NumV>::empty() =~= ns);
    } else {
        lemma_enc_val_first(ValV::VNum(ns[0]));
        assert(enc_items(ns)[0] == enc_num(ns[0])[0]);
        assert(inner[0] == enc_items(ns)[0]);
        assert(!is_ws(inner[0]));
        assert(skip_ws(inner) == inner);
        assert(inner[0] != 93);
        lemma_parse_items_of(ns, rest, MAX_SERIES_LEN as nat);
    }
}

proof fn lemma_parse_val_of(v: ValV, rest: Seq<u8>)
    requires
        v.wf(),
        rest.len() == 0 || !is_digit(rest[0]),
    ensures
        parse_val(enc_val(v) + rest) == Some((v, rest)),
{
    let s = enc_val(v) + rest;
    lemma_enc_val_first(v);
    assert(s[0] == enc_val(v)[0]);
    match v {
        ValV::VStr(c) => {
            lemma_parse_str_of(c, rest);
        },
        ValV::VNum(n) => {
            assert(s[0] != 34 && s[0] != 91);
            lemma_parse_num_of(n, rest);
        },
        ValV::VArr(ns) => {
            assert(s[0] == 91 && s[0] != 34);
            lemma_parse_arr_of(ns, rest);
        },
    }
}

#[verifier::rlimit(100)]
proof fn lemma_parse_members_of(ms: Seq<MemberV>, rest: Seq<u8>, fuel: nat)
    requires
        1 <= ms.len() <= fuel,
        forall|i: int| 0 <= i < ms.len() ==> member_canon(#[trigger] ms[i]),
    ensures
        parse_members(enc_members(ms) + seq![125u8] + rest, fuel) == Some((ms, rest)),
    decreases ms.len(),
{
    let s = enc_members(ms) + seq![125u8] + rest;
    let k = ms[0].0;
    let v = ms[0].1;
    assert(member_canon(ms[0]));
    if ms.len() == 1 {
        let tail1 = seq![58u8] + enc_val(v) + seq![125u8] + rest;
        assert(s =~= enc_str(k) + tail1);
        lemma_parse_str_of(k, tail1);
        assert(skip_ws(tail1) == tail1);
        assert(tail1[0] == 58);
        let tail2 = enc_val(v) + seq![125u8] + rest;
        assert(tail1.drop_first() =~= tail2);
        lemma_enc_val_first(v);
        assert(tail2[0] == enc_val(v)[0]);
        assert(!is_ws(tail2[0]));
        assert(skip_ws(tail2) == tail2);
        let tail3 = seq![125u8] + rest;
        assert(tail2 =~= enc_val(v) + tail3);
        assert(!is_digit(125));
        lemma_parse_val_of(v, tail3);
        assert(skip_ws(tail3) == tail3);
        assert(tail3[0] == 125);
        assert(tail3.drop_first() =~= rest);
        assert(seq![(k, v)] =~= ms);
    } else {
        let more = enc_members(ms.drop_first());
        let tail1 = seq![58u8] + enc_val(v) + seq![44u8] + more + seq![125u8] + rest;
        assert(s =~= enc_str(k) + tail1);
        lemma_parse_str_of(k, tail1);
        assert(skip_ws(tail1) == tail1);
        assert(tail1[0] == 58);
        let tail2 = enc_val(v) + seq![44u8] + more + seq![125u8] + rest;
        assert(tail1.drop_first() =~= tail2);
        lemma_enc_val_first(v);
        assert(tail2[0] == enc_val(v)[0]);
        assert(!is_ws(tail2[0]));
        assert(skip_ws(tail2) == tail2);
        let tail3 = seq![44u8] + more + seq![125u8] + rest;
        assert(tail2 =~= enc_val(v) + tail3);
        assert(!is_digit(44));
        lemma_parse_val_of(v, tail3);
        assert(skip_ws(tail3) == tail3);
        assert(tail3[0] == 44);
        let tail4 = more + seq![125u8] + rest;
        assert(tail3.drop_first() =~= tail4);
        let m1 = ms.drop_first();
        assert(m1.len() >= 1);
        assert(member_canon(m1[0]));
        assert(more[0] == enc_str(m1[0].0)[0]);
        assert(more[0] == 34);
        assert(tail4[0] == 34);
        assert(!is_ws(tail4[0]));
        assert(skip_ws(tail4) == tail4);
        assert forall|i: int| 0 <= i < m1.len() implies member_canon(#[trigger] m1[i]) by {
            assert(m1[i] == ms[i + 1]);
        }
        lemma_parse_members_of(m1, rest, (fuel - 1) as nat);
        assert(seq![(k, v)] + m1 =~= ms);
    }
}

proof fn lemma_parse_obj_of(ms: Seq<MemberV>, rest: Seq<u8>)
    requires
        1 <= ms.len() <= member_fuel(),
        forall|i: int| 0 <= i < ms.len() ==> member_canon(#[trigger] ms[i]),
    ensures
        parse_obj(enc_obj(ms) + rest) == Some((ms, rest)),
{
    let s = enc_obj(ms) + rest;
    assert(s[0] == 123);
    let inner = enc_members(ms) + seq![125u8] + rest;
    assert(s.drop_first() =~= inner);
    assert(member_canon(ms[0]));
    assert(enc_members(ms)[0] == enc_str(ms[0].0)[0]);
    assert(inner[0] == 34);
    assert(!is_ws(inner[0]));
    assert(skip_ws(inner) == inner);
    assert(inner[0] != 125);
    lemma_parse_members_of(ms, rest, member_fuel());
}

// --- the key literals are pairwise distinct -----------------------------

proof fn lemma_keys_distinct()
    ensures
        k_profile() != k_feedback() && k_profile() != k_start() && k_profile() != k_stop(),
        k_feedback() != k_start() && k_feedback() != k_stop(),
        k_start() != k_stop(),
        k_time() != k_name() && k_temperature() != k_name() && k_temperature() != k_time(),
        k_time() != k_status() && k_temperature() != k_status() && k_temperature() != k_time(),
        k_error() != k_status() && k_error() != k_time() && k_error() != k_temperature(),
        k_setpoint() != k_status() && k_setpoint() != k_time() && k_setpoint()
            != k_temperature() && k_setpoint() != k_error(),
        k_dutycycle() != k_status() && k_dutycycle() != k_time() && k_dutycycle()
            != k_temperature() && k_dutycycle() != k_error() && k_dutycycle() != k_setpoint(),
{
    assert(k_profile()[0] == 112 && k_feedback()[0] == 102 && k_start()[0] == 115 && k_stop()[0]
        == 115 && k_name()[0] == 110 && k_time()[0] == 116 && k_temperature()[0] == 116
        && k_status()[0] == 115 && k_error()[0] == 101 && k_setpoint()[0] == 115
        && k_dutycycle()[0] == 100);
    assert(k_start().len() == 5 && k_stop().len() == 4);
    assert(k_time().len() == 4 && k_temperature().len() == 11);
    assert(k_status().len() == 6 && k_setpoint().len() == 8);
    assert(k_setpoint()[1] == 101 && k_status()[1] == 116);
}

// --- folding canonical member lists -------------------------------------

proof fn lemma_fill_profile_of(p: ProfileV)
    requires
        p.wf(),
    ensures
        fill_profile(profile_members(p), None, None, None) == Some(p),
{
    lemma_keys_distinct();
    let ms = profile_members(p);
    let m1 = ms.drop_first();
    let m2 = m1.drop_first();
    let m3 = m2.drop_first();
    assert(m1 =~= seq![
        (k_time(), ValV::VArr(p.time)),
        (k_temperature(), ValV::VArr(p.temperature)),
    ]);
    assert(m2 =~= seq![(k_temperature(), ValV::VArr(p.temperature))]);
    assert(m3 =~= Seq::<MemberV>::empty());
    assert(fill_profile(ms, None, None, None) == fill_profile(m1, Some(p.name), None, None));
    assert(fill_profile(m1, Some(p.name), None, None) == fill_profile(
        m2,
        Some(p.name),
        Some(p.time),
        None,
    ));
    assert(fill_profile(m2, Some(p.name), Some(p.time), None) == fill_profile(
        m3,
        Some(p.name),
        Some(p.time),
        Some(p.temperature),
    ));
    assert(fill_profile(m3, Some(p.name), Some(p.time), Some(p.temperature)) == Some(p));
}

proof fn lemma_fill_feedback_of(f: FeedbackV)
    requires
        f.wf(),
    ensures
        fill_feedback(feedback_members(f), None, None, None, None, None, None) == Some(f),
{
    lemma_keys_distinct();
    let ms = feedback_members(f);
    let m1 = ms.drop_first();
    let m2 = m1.drop_first();
    let m3 = m2.drop_first();
    let m4 = m3.drop_first();
    let m5 = m4.drop_first();
    assert(m1 =~= seq![
        (k_time(), ValV::VNum(f.time)),
        (k_temperature(), ValV::VNum(f.temperature)),
        (k_error(), ValV::VNum(f.error)),
        (k_setpoint(), ValV::VNum(f.setpoint)),
        (k_dutycycle(), ValV::VNum(f.dutycycle)),
    ]);
    assert(m2 =~= seq![
        (k_temperature(), ValV::VNum(f.temperature)),
        (k_error(), ValV::VNum(f.error)),
        (k_setpoint(), ValV::VNum(f.setpoint)),
        (k_dutycycle(), ValV::VNum(f.dutycycle)),
    ]);
    assert(m3 =~= seq![
        (k_error(), ValV::VNum(f.error)),
        (k_setpoint(), ValV::VNum(f.setpoint)),
        (k_dutycycle(), ValV::VNum(f.dutycycle)),
    ]);
    assert(m4 =~= seq![
        (k_setpoint(), ValV::VNum(f.setpoint)),
        (k_dutycycle(), ValV::VNum(f.dutycycle)),
    ]);
    assert(m5 =~= seq![(k_dutycycle(), ValV::VNum(f.dutycycle))]);
    let m6 = m5.drop_first();
    assert(m6 =~= Seq::<MemberV>::empty());
    let st = Some(f.status);
    let ti = Some(f.time);
    let te = Some(f.temperature);
    let er = Some(f.error);
    let se = Some(f.setpoint);
    let du = Some(f.dutycycle);
    assert(fill_feedback(ms, None, None, None, None, None, None) == fill_feedback(
        m1,
        st,
        None,
        None,
        None,
        None,
        None,
    ));
    assert(fill_feedback(m1, st, None, None, None, None, None) == fill_feedback(
        m2,
        st,
        ti,
        None,
        None,
        None,
        None,
    ));
    assert(fill_feedback(m2, st, ti, None, None, None, None) == fill_feedback(
        m3,
        st,
        ti,
        te,
        None,
        None,
        None,
    ));
    assert(fill_feedback(m3, st, ti, te, None, None, None) == fill_feedback(
        m4,
        st,
        ti,
        te,
        er,
        None,
        None,
    ));
    assert(fill_feedback(m4, st, ti, te, er, None, None) == fill_feedback(
        m5,
        st,
        ti,
        te,
        er,
        se,
        None,
    ));
    assert(fill_feedback(m5, st, ti, te, er, se, None) == fill_feedback(m6, st, ti, te, er, se,
        du,
    ));
    assert(fill_feedback(m6, st, ti, te, er, se, du) == Some(f));
}

proof fn lemma_fill_reason_of(reason: Seq<u8>)
    requires
        reason.len() <= MAX_STRING_BYTES,
    ensures
        fill_reason(reason_members(reason), None) == Some(reason),
{
    let ms = reason_members(reason);
    let m1 = ms.drop_first();
    assert(m1 =~= Seq::<MemberV>::empty());
    assert(fill_reason(ms, None) == fill_reason(m1, Some(reason)));
    assert(fill_reason(m1, Some(reason)) == Some(reason));
}

// --- round trip ----------------------------------------------------------

/// Every canonical key is quote- and backslash-free.
proof fn lemma_keys_canon()
    ensures
        key_canon(k_profile()) && key_canon(k_feedback()) && key_canon(k_start()) && key_canon(
            k_stop(),
        ),
        key_canon(k_name()) && key_canon(k_time()) && key_canon(k_temperature()),
        key_canon(k_status()) && key_canon(k_error()) && key_canon(k_setpoint()) && key_canon(
            k_dutycycle(),
        ),
        key_canon(k_reason()),
{
}

/// The members the encoder writes are canonical whenever the command is
/// well formed.
proof fn lemma_command_members_canon(c: ProtocolV)
    requires
        c.wf(),
    ensures
        ({
            let km = crate::grammar::command_members(c);
            &&& key_canon(km.0)
            &&& 1 <= km.1.len() <= member_fuel()
            &&& forall|i: int| 0 <= i < km.1.len() ==> member_canon(#[trigger] km.1[i])
        }),
{
    lemma_keys_canon();
    match c {
        ProtocolV::Profile(p) => {
            let ms = profile_members(p);
            assert forall|i: int| 0 <= i < ms.len() implies member_canon(#[trigger] ms[i]) by {
                assert(str_wf(p.name));
            }
        },
        ProtocolV::Feedback(f) => {
            let ms = feedback_members(f);
            assert forall|i: int| 0 <= i < ms.len() implies member_canon(#[trigger] ms[i]) by {
                assert(str_wf(f.status));
            }
        },
        ProtocolV::Start(s) => {
            let ms = reason_members(s.reason);
            assert forall|i: int| 0 <= i < ms.len() implies member_canon(#[trigger] ms[i]) by {
                assert(str_wf(s.reason));
            }
        },
        ProtocolV::Stop(s) => {
            let ms = reason_members(s.reason);
            assert forall|i: int| 0 <= i < ms.len() implies member_canon(#[trigger] ms[i]) by {
                assert(str_wf(s.reason));
            }
        },
    }
}

/// Round trip: decoding the canonical encoding of any well-formed
/// command gives exactly that command back.
pub proof fn lemma_round_trip(c: ProtocolV)
    requires
        c.wf(),
    ensures
        spec_decode(spec_encode(c)) == Some(c),
{
    lemma_keys_distinct();
    lemma_command_members_canon(c);
    let km = crate::grammar::command_members(c);
    let k = km.0;
    let ms = km.1;
    let s = spec_encode(c);
    assert(s == seq![123u8] + enc_str(k) + seq![58u8] + enc_obj(ms) + seq![125u8]);
    assert(s[0] == 123);
    assert(!is_ws(123));
    assert(skip_ws(s) == s);
    let t1 = enc_str(k) + seq![58u8] + enc_obj(ms) + seq![125u8];
    assert(s.drop_first() =~= t1);
    assert(t1[0] == 34);
    assert(skip_ws(t1) == t1);
    let t2 = seq![58u8] + enc_obj(ms) + seq![125u8];
    assert(t1 =~= enc_str(k) + t2);
    lemma_parse_str_of(k, t2);
    assert(skip_ws(t2) == t2);
    assert(t2[0] == 58);
    let t3 = enc_obj(ms) + seq![125u8];
    assert(t2.drop_first() =~= t3);
    assert(t3[0] == 123);
    assert(skip_ws(t3) == t3);
    lemma_parse_obj_of(ms, seq![125u8]);
    let t4 = seq![125u8];
    assert(skip_ws(t4) == t4);
    assert(t4[0] == 125);
    assert(t4.drop_first() =~= Seq::<u8>::empty());
    assert(skip_ws(Seq::<u8>::empty()).len() == 0);
    match c {
        ProtocolV::Profile(p) => {
            lemma_fill_profile_of(p);
        },
        ProtocolV::Feedback(f) => {
            lemma_fill_feedback_of(f);
        },
        ProtocolV::Start(st) => {
            lemma_fill_reason_of(st.reason);
        },
        ProtocolV::Stop(st) => {
            lemma_fill_reason_of(st.reason);
        },
    }
}

// --- rejection ------------------------------------------------------------

/// Whether some member of the list carries the given key.
pub open spec fn has_key(ms: Seq<MemberV>, k: Seq<u8>) -> bool {
    exists|i: int| 0 <= i < ms.len() && (#[trigger] ms[i]).0 == k
}

/// A message whose top-level key is none of the four variant names
/// never yields a command, whatever its payload holds.
pub proof fn lemma_unknown_key_rejected(k: Seq<u8>, ms: Seq<MemberV>)
    requires
        k != k_profile(),
        k != k_feedback(),
        k != k_start(),
        k != k_stop(),
    ensures
        decode_body(k, ms) is None,
{
}

/// A profile payload that lacks one of its required fields never yields
/// a command: when the fold succeeds, every field was present.
pub proof fn lemma_profile_requires_fields(
    ms: Seq<MemberV>,
    name: Option<Seq<u8>>,
    time: Option<Seq<NumV>>,
    temperature: Option<Seq<NumV>>,
)
    requires
        fill_profile(ms, name, time, temperature) is Some,
    ensures
        name is Some || has_key(ms, k_name()),
        time is Some || has_key(ms, k_time()),
        temperature is Some || has_key(ms, k_temperature()),
    decreases ms.len(),
{
    if ms.len() > 0 {
        let k = ms[0].0;
        if k == k_name() {
            lemma_profile_requires_fields(
                ms.drop_first(),
                Some(ms[0].1->VStr_0),
                time,
                temperature,
            );
        } else if k == k_time() {
            lemma_profile_requires_fields(
                ms.drop_first(),
                name,
                Some(ms[0].1->VArr_0),
                temperature,
            );
        } else {
            lemma_profile_requires_fields(ms.drop_first(), name, time, Some(ms[0].1->VArr_0));
        }
        assert forall|k2: Seq<u8>| has_key(ms.drop_first(), k2) implies has_key(ms, k2) by {
            let i = choose|i: int| 0 <= i < ms.drop_first().len() && (#[trigger] ms.drop_first()[
                i
            ]).0 == k2;
            assert(ms[i + 1].0 == k2);
        }
        assert(ms[0].0 == k ==> has_key(ms, k));
    }
}

/// A start or stop payload that lacks its reason never yields a command.
pub proof fn lemma_reason_requires_field(ms: Seq<MemberV>, reason: Option<Seq<u8>>)
    requires
        fill_reason(ms, reason) is Some,
    ensures
        reason is Some || has_key(ms, k_reason()),
    decreases ms.len(),
{
    if ms.len() > 0 {
        lemma_reason_requires_field(ms.drop_first(), Some(ms[0].1->VStr_0));
        assert(ms[0].0 == k_reason());
    }
}

/// A feedback payload that lacks one of its six required fields never
/// yields a command.
pub proof fn lemma_feedback_requires_fields(
    ms: Seq<MemberV>,
    status: Option<Seq<u8>>,
    time: Option<NumV>,
    temperature: Option<NumV>,
    error: Option<NumV>,
    setpoint: Option<NumV>,
    dutycycle: Option<NumV>,
)
    requires
        fill_feedback(ms, status, time, temperature, error, setpoint, dutycycle) is Some,
    ensures
        status is Some || has_key(ms, k_status()),
        time is Some || has_key(ms, k_time()),
        temperature is Some || has_key(ms, k_temperature()),
        error is Some || has_key(ms, k_error()),
        setpoint is Some || has_key(ms, k_setpoint()),
        dutycycle is Some || has_key(ms, k_dutycycle()),
    decreases ms.len(),
{
    if ms.len() > 0 {
        let k = ms[0].0;
        let v = ms[0].1;
        if k == k_status() {
            lemma_feedback_requires_fields(
                ms.drop_first(),
                Some(v->VStr_0),
                time,
                temperature,
                error,
                setpoint,
                dutycycle,
            );
        } else if k == k_time() {
            lemma_feedback_requires_fields(
                ms.drop_first(),
                status,
                Some(v->VNum_0),
                temperature,
                error,
                setpoint,
                dutycycle,
            );
        } else if k == k_temperature() {
            lemma_feedback_requires_fields(
                ms.drop_first(),
                status,
                time,
                Some(v->VNum_0),
                error,
                setpoint,
                dutycycle,
            );
        } else if k == k_error() {
            lemma_feedback_requires_fields(
                ms.drop_first(),
                status,
                time,
                temperature,
                Some(v->VNum_0),
                setpoint,
                dutycycle,
            );
        } else if k == k_setpoint() {
            lemma_feedback_requires_fields(
                ms.drop_first(),
                status,
                time,
                temperature,
                error,
                Some(v->VNum_0),
                dutycycle,
            );
        } else {
            lemma_feedback_requires_fields(
                ms.drop_first(),
                status,
                time,
                temperature,
                error,
                setpoint,
                Some(v->VNum_0),
            );
        }
        assert forall|k2: Seq<u8>| has_key(ms.drop_first(), k2) implies has_key(ms, k2) by {
            let i = choose|i: int| 0 <= i < ms.drop_first().len() && (#[trigger] ms.drop_first()[
                i
            ]).0 == k2;
            assert(ms[i + 1].0 == k2);
        }
        assert(ms[0].0 == k ==> has_key(ms, k));
    }
}

// --- decoded values are well formed ---------------------------------------

proof fn lemma_scan_str_wf(s: Seq<u8>)
    ensures
        scan_str(s) matches Some(p) ==> key_canon(p.0),
    decreases s.len(),
{
    if s.len() > 0 && s[0] != 34 && s[0] != 92 {
        lemma_scan_str_wf(s.drop_first());
        if scan_str(s.drop_first()) is Some {
            let p = scan_str(s.drop_first()).unwrap();
            assert forall|i: int| 0 <= i < (seq![s[0]] + p.0).len() implies (seq![s[0]] + p.0)[i]
                != 34 && (seq![s[0]] + p.0)[i] != 92 by {
                if i > 0 {
                    assert((seq![s[0]] + p.0)[i] == p.0[i - 1]);
                }
            }
        }
    }
}

proof fn lemma_scan_digits_digits(s: Seq<u8>)
    ensures
        forall|i: int| 0 <= i < scan_digits(s).0.len() ==> is_digit(
            #[trigger] scan_digits(s).0[i],
        ),
    decreases s.len(),
{
    if s.len() > 0 && is_digit(s[0]) {
        lemma_scan_digits_digits(s.drop_first());
        let p = scan_digits(s.drop_first());
        assert forall|i: int| 0 <= i < (seq![s[0]] + p.0).len() implies is_digit(
            #[trigger] (seq![s[0]] + p.0)[i],
        ) by {
            if i > 0 {
                assert((seq![s[0]] + p.0)[i] == p.0[i - 1]);
            }
        }
    }
}

proof fn lemma_strip_zeros_wf(ds: Seq<u8>)
    requires
        forall|i: int| 0 <= i < ds.len() ==> ds[i] <= 9,
    ensures
        forall|i: int| 0 <= i < strip_zeros(ds).len() ==> #[trigger] strip_zeros(ds)[i] <= 9,
        strip_zeros(ds).len() == 0 || strip_zeros(ds).last() != 0,
        strip_zeros(ds).len() <= ds.len(),
    decreases ds.len(),
{
    if ds.len() > 0 && ds.last() == 0 {
        lemma_strip_zeros_wf(ds.drop_last());
    }
}

proof fn lemma_norm_frac_wf(ds: Seq<u8>)
    requires
        forall|i: int| 0 <= i < ds.len() ==> is_digit(#[trigger] ds[i]),
    ensures
        ({
            let f = norm_frac(ds);
            &&& f.len() >= 1
            &&& (forall|i: int| 0 <= i < f.len() ==> f[i] <= 9)
            &&& (f.len() == 1 || f[f.len() - 1] != 0)
        }),
{
    let vals = ds.map_values(|d: u8| (d - 48) as u8);
    assert forall|i: int| 0 <= i < vals.len() implies #[trigger] vals[i] <= 9 by {
        assert(vals[i] == (ds[i] - 48) as u8);
    }
    lemma_strip_zeros_wf(vals);
}

proof fn lemma_parse_num_wf(s: Seq<u8>)
    ensures
        parse_num(s) matches Some(p) ==> p.0.wf(),
{
    let neg = s.len() > 0 && s[0] == 45;
    let s1 = if neg {
        s.drop_first()
    } else {
        s
    };
    let dr = scan_digits(s1);
    if digits_ok(dr.0) && dr.1.len() > 0 && dr.1[0] == 46 {
        lemma_scan_digits_digits(dr.1.drop_first());
        lemma_norm_frac_wf(scan_digits(dr.1.drop_first()).0);
    }
}

proof fn lemma_parse_items_wf(s: Seq<u8>, fuel: nat)
    ensures
        parse_arr_items(s, fuel) matches Some(p) ==> p.0.len() <= fuel && forall|i: int|
            0 <= i < p.0.len() ==> (#[trigger] p.0[i]).wf(),
    decreases fuel,
{
    if fuel > 0 {
        lemma_parse_num_wf(s);
        if parse_num(s) is Some {
            let np = parse_num(s).unwrap();
            let r1 = skip_ws(np.1);
            if r1.len() > 0 && r1[0] == 44 {
                lemma_parse_items_wf(skip_ws(r1.drop_first()), (fuel - 1) as nat);
                if parse_arr_items(skip_ws(r1.drop_first()), (fuel - 1) as nat) is Some {
                    let q = parse_arr_items(skip_ws(r1.drop_first()), (fuel - 1) as nat)
                        .unwrap();
                    assert forall|i: int| 0 <= i < (seq![np.0] + q.0).len() implies (
                    #[trigger] (seq![np.0] + q.0)[i]).wf() by {
                        if i > 0 {
                            assert((seq![np.0] + q.0)[i] == q.0[i - 1]);
                        }
                    }
                }
            }
        }
    }
}

proof fn lemma_parse_val_wf(s: Seq<u8>)
    ensures
        parse_val(s) matches Some(p) ==> p.0.wf(),
{
    if s.len() > 0 {
        if s[0] == 34 {
            if s.len() > 0 && s[0] == 34 {
                lemma_scan_str_wf(s.drop_first());
            }
        } else if s[0] == 91 {
            let s1 = skip_ws(s.drop_first());
            if !(s1.len() > 0 && s1[0] == 93) {
                lemma_parse_items_wf(s1, MAX_SERIES_LEN as nat);
            }
        } else {
            lemma_parse_num_wf(s);
        }
    }
}

/// Every value handed over by the member parser is well formed.
proof fn lemma_parse_members_wf(s: Seq<u8>, fuel: nat)
    ensures
        parse_members(s, fuel) matches Some(p) ==> forall|i: int| 0 <= i < p.0.len() ==> (
        #[trigger] p.0[i]).1.wf(),
    decreases fuel,
{
    if fuel > 0 {
        if parse_str(s) is Some {
            let kp = parse_str(s).unwrap();
            let r1 = skip_ws(kp.1);
            if r1.len() > 0 && r1[0] == 58 {
                lemma_parse_val_wf(skip_ws(r1.drop_first()));
                if parse_val(skip_ws(r1.drop_first())) is Some {
                    let vp = parse_val(skip_ws(r1.drop_first())).unwrap();
                    let r3 = skip_ws(vp.1);
                    if r3.len() > 0 && r3[0] == 44 {
                        lemma_parse_members_wf(skip_ws(r3.drop_first()), (fuel - 1) as nat);
                        if parse_members(skip_ws(r3.drop_first()), (fuel - 1) as nat)
                            is Some {
                            let q = parse_members(
                                skip_ws(r3.drop_first()),
                                (fuel - 1) as nat,
                            ).unwrap();
                            let whole = seq![(kp.0, vp.0)] + q.0;
                            assert forall|i: int| 0 <= i < whole.len() implies (
                            #[trigger] whole[i]).1.wf() by {
                                if i > 0 {
                                    assert(whole[i] == q.0[i - 1]);
                                }
                            }
                        }
                    }
                }
            }
        }
    }
}

proof fn lemma_fill_profile_wf(
    ms: Seq<MemberV>,
    name: Option<Seq<u8>>,
    time: Option<Seq<NumV>>,
    temperature: Option<Seq<NumV>>,
)
    requires
        forall|i: int| 0 <= i < ms.len() ==> (#[trigger] ms[i]).1.wf(),
        name matches Some(n) ==> key_canon(n),
        time matches Some(t) ==> nums_wf(t),
        temperature matches Some(t) ==> nums_wf(t),
    ensures
        fill_profile(ms, name, time, temperature) matches Some(p) ==> p.wf(),
    decreases ms.len(),
{
    if ms.len() > 0 {
        let k = ms[0].0;
        let v = ms[0].1;
        if k == k_name() {
            if v is VStr && name is None {
                lemma_fill_profile_wf(ms.drop_first(), Some(v->VStr_0), time, temperature);
            }
        } else if k == k_time() {
            if v is VArr && time is None {
                lemma_fill_profile_wf(ms.drop_first(), name, Some(v->VArr_0), temperature);
            }
        } else if k == k_temperature() {
            if v is VArr && temperature is None {
                lemma_fill_profile_wf(ms.drop_first(), name, time, Some(v->VArr_0));
            }
        }
    }
}

proof fn lemma_fill_feedback_wf(
    ms: Seq<MemberV>,
    status: Option<Seq<u8>>,
    time: Option<NumV>,
    temperature: Option<NumV>,
    error: Option<NumV>,
    setpoint: Option<NumV>,
    dutycycle: Option<NumV>,
)
    requires
        forall|i: int| 0 <= i < ms.len() ==> (#[trigger] ms[i]).1.wf(),
        status matches Some(n) ==> key_canon(n),
        time matches Some(n) ==> n.wf(),
        temperature matches Some(n) ==> n.wf(),
        error matches Some(n) ==> n.wf(),
        setpoint matches Some(n) ==> n.wf(),
        dutycycle matches Some(n) ==> n.wf(),
    ensures
        fill_feedback(ms, status, time, temperature, error, setpoint, dutycycle) matches Some(
            f,
        ) ==> f.wf(),
    decreases ms.len(),
{
    if ms.len() > 0 {
        let k = ms[0].0;
        let v = ms[0].1;
        let m1 = ms.drop_first();
        if k == k_status() {
            if v is VStr && status is None {
                lemma_fill_feedback_wf(
                    m1,
                    Some(v->VStr_0),
                    time,
                    temperature,
                    error,
                    setpoint,
                    dutycycle,
                );
            }
        } else if k == k_time() {
            if v is VNum && time is None {
                lemma_fill_feedback_wf(
                    m1,
                    status,
                    Some(v->VNum_0),
                    temperature,
                    error,
                    setpoint,
                    dutycycle,
                );
            }
        } else if k == k_temperature() {
            if v is VNum && temperature is None {
                lemma_fill_feedback_wf(
                    m1,
                    status,
                    time,
                    Some(v->VNum_0),
                    error,
                    setpoint,
                    dutycycle,
                );
            }
        } else if k == k_error() {
            if v is VNum && error is None {
                lemma_fill_feedback_wf(
                    m1,
                    status,
                    time,
                    temperature,
                    Some(v->VNum_0),
                    setpoint,
                    dutycycle,
                );
            }
        } else if k == k_setpoint() {
            if v is VNum && setpoint is None {
                lemma_fill_feedback_wf(
                    m1,
                    status,
                    time,
                    temperature,
                    error,
                    Some(v->VNum_0),
                    dutycycle,
                );
            }
        } else if k == k_dutycycle() {
            if v is VNum && dutycycle is None {
                lemma_fill_feedback_wf(
                    m1,
                    status,
                    time,
                    temperature,
                    error,
                    setpoint,
                    Some(v->VNum_0),
                );
            }
        }
    }
}

proof fn lemma_fill_reason_wf(ms: Seq<MemberV>, reason: Option<Seq<u8>>)
    requires
        forall|i: int| 0 <= i < ms.len() ==> (#[trigger] ms[i]).1.wf(),
        reason matches Some(n) ==> key_canon(n),
    ensures
        fill_reason(ms, reason) matches Some(r) ==> str_wf(r),
    decreases ms.len(),
{
    if ms.len() > 0 {
        let v = ms[0].1;
        if ms[0].0 == k_reason() && v is VStr && reason is None {
            lemma_fill_reason_wf(ms.drop_first(), Some(v->VStr_0));
        }
    }
}

/// Whatever bytes a message holds, a command that decodes out of them
/// is well formed: every string fits its bound, every series fits its
/// bound, and every number is canonical.
pub proof fn lemma_spec_decode_wf(s: Seq<u8>)
    ensures
        spec_decode(s) matches Some(c) ==> c.wf(),
{
    let s0 = skip_ws(s);
    if s0.len() > 0 && s0[0] == 123 && parse_str(skip_ws(s0.drop_first())) is Some {
        let kp = parse_str(skip_ws(s0.drop_first())).unwrap();
        let r1 = skip_ws(kp.1);
        if r1.len() > 0 && r1[0] == 58 {
            let t = skip_ws(r1.drop_first());
            if parse_obj(t) is Some {
                let op = parse_obj(t).unwrap();
                let ms = op.0;
                if t.len() > 0 && t[0] == 123 {
                    let t1 = skip_ws(t.drop_first());
                    if !(t1.len() > 0 && t1[0] == 125) {
                        lemma_parse_members_wf(t1, member_fuel());
                    }
                }
                assert(forall|i: int| 0 <= i < ms.len() ==> (#[trigger] ms[i]).1.wf());
                lemma_fill_profile_wf(ms, None, None, None);
                lemma_fill_feedback_wf(ms, None, None, None, None, None, None);
                lemma_fill_reason_wf(ms, None);
            }
        }
    }
}

} // verus!
