//! The persistence codec: a self-describing text encoding of a full
//! session, lossless by proof.
//!
//! Every variable-length piece is written as a fixed 20-digit decimal
//! length followed by the piece itself, so the encoding needs no escaping
//! and no external schema: credential, endpoint, the number of turns, then
//! each turn as a role tag (`u` or `a`) and its length-prefixed content.
//! [`enc_session`] is the encoding at the level of values, [`dec_session`]
//! the matching parser, and [`lemma_codec_round_trip`] proves that decoding
//! an encoding always gives back exactly the session that was encoded.
//! [`encode_session`] and [`decode_session`] are the executable pair,
//! proved to agree with the two specification functions; reading and
//! writing the durable location itself is the caller's affair.

use vstd::prelude::*;
use crate::data_struct::{
    ChatContext, ChatGPTAPIContext, Message, MessageView, PersistError, Role, SessionView,
};

verus! {

/// Ten to the `w`.
pub open spec fn pow10(w: nat) -> nat
    decreases w,
{
    if w == 0 {
        1
    } else {
        10 * pow10((w - 1) as nat)
    }
}

/// The character for one decimal digit.
pub open spec fn digit_char(d: nat) -> char {
    if d == 0 {
        '0'
    } else if d == 1 {
        '1'
    } else if d == 2 {
        '2'
    } else if d == 3 {
        '3'
    } else if d == 4 {
        '4'
    } else if d == 5 {
        '5'
    } else if d == 6 {
        '6'
    } else if d == 7 {
        '7'
    } else if d == 8 {
        '8'
    } else {
        '9'
    }
}

pub open spec fn is_digit_char(c: char) -> bool {
    c == '0' || c == '1' || c == '2' || c == '3' || c == '4' || c == '5' || c == '6' || c == '7'
        || c == '8' || c == '9'
}

/// The value of one digit character.
pub open spec fn digit_val(c: char) -> nat {
    if c == '0' {
        0
    } else if c == '1' {
        1
    } else if c == '2' {
        2
    } else if c == '3' {
        3
    } else if c == '4' {
        4
    } else if c == '5' {
        5
    } else if c == '6' {
        6
    } else if c == '7' {
        7
    } else if c == '8' {
        8
    } else {
        9
    }
}

/// `n` written as exactly `w` decimal digits, most significant first,
/// zero padded.
pub open spec fn enc_fixed(n: nat, w: nat) -> Seq<char>
    decreases w,
{
    if w == 0 {
        Seq::<char>::empty()
    } else {
        enc_fixed(n / 10, (w - 1) as nat).push(digit_char(n % 10))
    }
}

/// The value of a digit string, or `None` if any character is not a
/// digit.
pub open spec fn dec_digits(s: Seq<char>) -> Option<nat>
    decreases s.len(),
{
    if s.len() == 0 {
        Some(0)
    } else {
        match dec_digits(s.drop_last()) {
            Some(h) => if is_digit_char(s.last()) {
                Some(h * 10 + digit_val(s.last()))
            } else {
                None
            },
            None => None,
        }
    }
}

/// A string, written as its 20-digit length then its characters.
pub open spec fn enc_str(t: Seq<char>) -> Seq<char> {
    enc_fixed(t.len(), 20) + t
}

/// The tag character of a role.
pub open spec fn enc_role(r: Role) -> char {
    if r is User {
        'u'
    } else {
        'a'
    }
}

/// One turn: its role tag, then its length-prefixed content.
pub open spec fn enc_msg(m: MessageView) -> Seq<char> {
    seq![enc_role(m.role)] + enc_str(m.content)
}

/// The turns in order, each encoded by [`enc_msg`].
pub open spec fn enc_msgs(ms: Seq<MessageView>) -> Seq<char>
    decreases ms.len(),
{
    if ms.len() == 0 {
        Seq::<char>::empty()
    } else {
        enc_msg(ms[0]) + enc_msgs(ms.drop_first())
    }
}

/// A whole session: credential, endpoint, turn count, then the turns.
pub open spec fn enc_session(v: SessionView) -> Seq<char> {
    enc_str(v.api_key) + enc_str(v.api_url) + enc_fixed(v.log.len(), 20) + enc_msgs(v.log)
}

/// Parses a 20-digit number from the front; the value must fit a `u64`.
pub open spec fn dec_num(s: Seq<char>) -> Option<(nat, Seq<char>)> {
    if s.len() < 20 {
        None
    } else {
        match dec_digits(s.take(20)) {
            Some(v) => if v <= u64::MAX as nat {
                Some((v, s.skip(20)))
            } else {
                None
            },
            None => None,
        }
    }
}

/// Parses one length-prefixed string from the front.
pub open spec fn dec_str(s: Seq<char>) -> Option<(Seq<char>, Seq<char>)> {
    match dec_num(s) {
        Some((v, r)) => if r.len() >= v {
            Some((r.take(v as int), r.skip(v as int)))
        } else {
            None
        },
        None => None,
    }
}

/// Parses one turn from the front: a role tag, then its content.
pub open spec fn dec_msg(s: Seq<char>) -> Option<(MessageView, Seq<char>)> {
    if s.len() == 0 {
        None
    } else if s[0] == 'u' || s[0] == 'a' {
        match dec_str(s.skip(1)) {
            Some((c, r)) => Some(
                (
                    MessageView {
                        role: if s[0] == 'u' {
                            Role::User
                        } else {
                            Role::Assistant
                        },
                        content: c,
                    },
                    r,
                ),
            ),
            None => None,
        }
    } else {
        None
    }
}

/// Parses exactly `count` turns from the front.
pub open spec fn dec_msgs(s: Seq<char>, count: nat) -> Option<(Seq<MessageView>, Seq<char>)>
    decreases count,
{
    if count == 0 {
        Some((Seq::<MessageView>::empty(), s))
    } else {
        match dec_msg(s) {
            Some((m, r)) => match dec_msgs(r, (count - 1) as nat) {
                Some((ms, r2)) => Some((seq![m] + ms, r2)),
                None => None,
            },
            None => None,
        }
    }
}

/// Parses a whole session; the input must be consumed exactly.
pub open spec fn dec_session(s: Seq<char>) -> Option<SessionView> {
    match dec_str(s) {
        Some((key, r1)) => match dec_str(r1) {
            Some((url, r2)) => match dec_num(r2) {
                Some((count, r3)) => match dec_msgs(r3, count) {
                    Some((ms, r4)) => if r4.len() == 0 {
                        Some(SessionView { api_key: key, api_url: url, log: ms })
                    } else {
                        None
                    },
                    None => None,
                },
                None => None,
            },
            None => None,
        },
        None => None,
    }
}

/// Every turn's content is short enough for a 20-digit length.
pub open spec fn wf_msgs(ms: Seq<MessageView>) -> bool {
    forall|i: int| 0 <= i < ms.len() ==> (#[trigger] ms[i]).content.len() <= u64::MAX as nat
}

/// Every piece of the session is short enough for a 20-digit length.
/// Any session held in memory satisfies this; [`encode_session`]
/// establishes it for its argument.
pub open spec fn wf_view(v: SessionView) -> bool {
    &&& v.api_key.len() <= u64::MAX as nat
    &&& v.api_url.len() <= u64::MAX as nat
    &&& v.log.len() <= u64::MAX as nat
    &&& wf_msgs(v.log)
}

pub proof fn lemma_pow10_pos(w: nat)
    ensures
        pow10(w) >= 1,
    decreases w,
{
    if w > 0 {
        lemma_pow10_pos((w - 1) as nat);
    }
}

pub proof fn lemma_pow10_mono(a: nat, b: nat)
    requires
        a <= b,
    ensures
        pow10(a) <= pow10(b),
    decreases b,
{
    if a < b {
        lemma_pow10_mono(a, (b - 1) as nat);
        lemma_pow10_pos((b - 1) as nat);
    }
}

pub proof fn lemma_enc_fixed_len(n: nat, w: nat)
    ensures
        enc_fixed(n, w).len() == w,
    decreases w,
{
    if w > 0 {
        lemma_enc_fixed_len(n / 10, (w - 1) as nat);
    }
}

pub proof fn lemma_pow10_20()
    ensures
        pow10(20) == 100000000000000000000,
{
    assert(pow10(0) == 1);
    assert(pow10(1) == 10);
    assert(pow10(2) == 100);
    assert(pow10(3) == 1000);
    assert(pow10(4) == 10000);
    assert(pow10(5) == 100000);
    assert(pow10(6) == 1000000);
    assert(pow10(7) == 10000000);
    assert(pow10(8) == 100000000);
    assert(pow10(9) == 1000000000);
    assert(pow10(10) == 10000000000);
    assert(pow10(11) == 100000000000);
    assert(pow10(12) == 1000000000000);
    assert(pow10(13) == 10000000000000);
    assert(pow10(14) == 100000000000000);
    assert(pow10(15) == 1000000000000000);
    assert(pow10(16) == 10000000000000000);
    assert(pow10(17) == 100000000000000000);
    assert(pow10(18) == 1000000000000000000);
    assert(pow10(19) == 10000000000000000000);
    assert(pow10(20) == 100000000000000000000);
}

/// Reading back the fixed-width digits of `n` gives `n`.
pub proof fn lemma_dec_enc(n: nat, w: nat)
    requires
        n < pow10(w),
    ensures
        dec_digits(enc_fixed(n, w)) == Some(n),
    decreases w,
{
    if w == 0 {
        assert(enc_fixed(n, 0) =~= Seq::<char>::empty());
    } else {
        let prefix = enc_fixed(n / 10, (w - 1) as nat);
        let s = enc_fixed(n, w);
        assert(s == prefix.push(digit_char(n % 10)));
        assert(s.drop_last() =~= prefix);
        assert(s.last() == digit_char(n % 10));
        assert(pow10(w) == 10 * pow10((w - 1) as nat));
        assert(n / 10 < pow10((w - 1) as nat)) by (nonlinear_arith)
            requires
                n < 10 * pow10((w - 1) as nat),
        ;
        lemma_dec_enc(n / 10, (w - 1) as nat);
        assert(is_digit_char(digit_char(n % 10)) && digit_val(digit_char(n % 10)) == n % 10);
        assert((n / 10) * 10 + n % 10 == n) by (nonlinear_arith);
    }
}

/// A digit string with a non-digit in it has no value.
pub proof fn lemma_dec_digits_nondigit(s: Seq<char>, k: int)
    requires
        0 <= k < s.len(),
        !is_digit_char(s[k]),
    ensures
        dec_digits(s) is None,
    decreases s.len(),
{
    if k < s.len() - 1 {
        lemma_dec_digits_nondigit(s.drop_last(), k);
    }
}

pub proof fn lemma_dec_num_enc(n: nat, rest: Seq<char>)
    requires
        n <= u64::MAX as nat,
    ensures
        dec_num(enc_fixed(n, 20) + rest) == Some((n, rest)),
{
    let s = enc_fixed(n, 20) + rest;
    lemma_enc_fixed_len(n, 20);
    lemma_pow10_20();
    assert(s.take(20) =~= enc_fixed(n, 20));
    lemma_dec_enc(n, 20);
    assert(s.skip(20) =~= rest);
}

pub proof fn lemma_dec_str_enc(t: Seq<char>, rest: Seq<char>)
    requires
        t.len() <= u64::MAX as nat,
    ensures
        dec_str(enc_str(t) + rest) == Some((t, rest)),
{
    let s = enc_str(t) + rest;
    assert(s =~= enc_fixed(t.len(), 20) + (t + rest));
    lemma_dec_num_enc(t.len(), t + rest);
    assert((t + rest).len() >= t.len());
    assert((t + rest).take(t.len() as int) =~= t);
    assert((t + rest).skip(t.len() as int) =~= rest);
}

pub proof fn lemma_dec_msg_enc(m: MessageView, rest: Seq<char>)
    requires
        m.content.len() <= u64::MAX as nat,
    ensures
        dec_msg(enc_msg(m) + rest) == Some((m, rest)),
{
    let s = enc_msg(m) + rest;
    assert(s.len() > 0);
    assert(s[0] == enc_role(m.role));
    assert(s.skip(1) =~= enc_str(m.content) + rest);
    lemma_dec_str_enc(m.content, rest);
    assert(dec_msg(s) matches Some(p) && p.0 =~= m && p.1 == rest);
}

pub proof fn lemma_dec_msgs_enc(ms: Seq<MessageView>, rest: Seq<char>)
    requires
        wf_msgs(ms),
    ensures
        dec_msgs(enc_msgs(ms) + rest, ms.len()) == Some((ms, rest)),
    decreases ms.len(),
{
    if ms.len() == 0 {
        assert(enc_msgs(ms) + rest =~= rest);
        assert(Seq::<MessageView>::empty() =~= ms);
    } else {
        let m0 = ms[0];
        let tail = ms.drop_first();
        assert(enc_msgs(ms) == enc_msg(m0) + enc_msgs(tail));
        assert(enc_msgs(ms) + rest =~= enc_msg(m0) + (enc_msgs(tail) + rest));
        lemma_dec_msg_enc(m0, enc_msgs(tail) + rest);
        assert(wf_msgs(tail)) by {
            assert forall|i: int| 0 <= i < tail.len() implies (#[trigger] tail[i]).content.len()
                <= u64::MAX as nat by {
                assert(tail[i] == ms[i + 1]);
            }
        }
        lemma_dec_msgs_enc(tail, rest);
        assert(seq![m0] + tail =~= ms);
    }
}

/// Law: the codec is lossless. Decoding the encoding of any session value
/// yields exactly that session — same credential, same endpoint, and the
/// same turns in the same order. Together with the contracts of
/// [`encode_session`] and [`decode_session`], a load after a save returns
/// a session equal to the saved one, field by field.
pub proof fn lemma_codec_round_trip(v: SessionView)
    requires
        wf_view(v),
    ensures
        dec_session(enc_session(v)) == Some(v),
{
    let s = enc_session(v);
    let after_key = enc_str(v.api_url) + (enc_fixed(v.log.len(), 20) + enc_msgs(v.log));
    let after_url = enc_fixed(v.log.len(), 20) + enc_msgs(v.log);
    assert(s =~= enc_str(v.api_key) + after_key);
    lemma_dec_str_enc(v.api_key, after_key);
    lemma_dec_str_enc(v.api_url, after_url);
    lemma_dec_num_enc(v.log.len(), enc_msgs(v.log));
    assert(enc_msgs(v.log) =~= enc_msgs(v.log) + Seq::<char>::empty());
    lemma_dec_msgs_enc(v.log, Seq::<char>::empty());
    assert(dec_session(s) matches Some(got) && got =~= v);
}

/// Appends the character of one digit.
fn push_digit(out: &mut String, d: u64)
    requires
        d < 10,
    ensures
        final(out)@ == old(out)@.push(digit_char(d as nat)),
{
    let ghost before = out@;
    if d == 0 {
        out.append("0");
        proof {
            reveal_strlit("0");
            assert(out@ =~= before.push(digit_char(d as nat)));
        }
    } else if d == 1 {
        out.append("1");
        proof {
            reveal_strlit("1");
            assert(out@ =~= before.push(digit_char(d as nat)));
        }
    } else if d == 2 {
        out.append("2");
        proof {
            reveal_strlit("2");
            assert(out@ =~= before.push(digit_char(d as nat)));
        }
    } else if d == 3 {
        out.append("3");
        proof {
            reveal_strlit("3");
            assert(out@ =~= before.push(digit_char(d as nat)));
        }
    } else if d == 4 {
        out.append("4");
        proof {
            reveal_strlit("4");
            assert(out@ =~= before.push(digit_char(d as nat)));
        }
    } else if d == 5 {
        out.append("5");
        proof {
            reveal_strlit("5");
            assert(out@ =~= before.push(digit_char(d as nat)));
        }
    } else if d == 6 {
        out.append("6");
        proof {
            reveal_strlit("6");
            assert(out@ =~= before.push(digit_char(d as nat)));
        }
    } else if d == 7 {
        out.append("7");
        proof {
            reveal_strlit("7");
            assert(out@ =~= before.push(digit_char(d as nat)));
        }
    } else if d == 8 {
        out.append("8");
        proof {
            reveal_strlit("8");
            assert(out@ =~= before.push(digit_char(d as nat)));
        }
    } else {
        out.append("9");
        proof {
            reveal_strlit("9");
            assert(out@ =~= before.push(digit_char(d as nat)));
        }
    }
}

/// Appends `n` as exactly `w` decimal digits, zero padded.
fn push_fixed(out: &mut String, n: u64, w: usize)
    ensures
        final(out)@ == old(out)@ + enc_fixed(n as nat, w as nat),
    decreases w,
{
    if w == 0 {
        proof {
            assert(out@ =~= old(out)@ + enc_fixed(n as nat, 0));
        }
    } else {
        push_fixed(out, n / 10, w - 1);
        push_digit(out, n % 10);
        proof {
            assert(out@ =~= old(out)@ + enc_fixed(n as nat, w as nat));
        }
    }
}

/// Appends one length-prefixed string field.
fn push_str_field(out: &mut String, s: &String)
    ensures
        final(out)@ == old(out)@ + enc_str(s@),
        s@.len() <= u64::MAX as nat,
{
    let l: usize = s.as_str().unicode_len();
    push_fixed(out, l as u64, 20);
    out.append(s.as_str());
    proof {
        assert(out@ =~= old(out)@ + enc_str(s@));
    }
}

/// Encodes a whole session into its textual form. The result is exactly
/// [`enc_session`] of the session's value, so by
/// [`lemma_codec_round_trip`] it decodes back to an equal session.
pub fn encode_session(ctx: &ChatGPTAPIContext) -> (out: String)
    ensures
        out@ == enc_session(ctx@),
        wf_view(ctx@),
{
    let mut out = String::new();
    push_str_field(&mut out, &ctx.api_key);
    push_str_field(&mut out, &ctx.api_url);
    let count: usize = ctx.chat_context.messages.len();
    push_fixed(&mut out, count as u64, 20);
    proof {
        assert(ctx@.log.take(0) =~= Seq::<MessageView>::empty());
        assert(out@ =~= enc_str(ctx@.api_key) + enc_str(ctx@.api_url) + enc_fixed(
            count as nat,
            20,
        ) + enc_msgs(ctx@.log.take(0)));
    }
    let mut k: usize = 0;
    while k < count
        invariant
            count == ctx.chat_context.messages@.len(),
            0 <= k <= count,
            ctx@.api_key.len() <= u64::MAX as nat,
            ctx@.api_url.len() <= u64::MAX as nat,
            wf_msgs(ctx@.log.take(k as int)),
            out@ == enc_str(ctx@.api_key) + enc_str(ctx@.api_url) + enc_fixed(count as nat, 20)
                + enc_msgs(ctx@.log.take(k as int)),
        decreases count - k,
    {
        let ghost prefix = out@;
        let m = &ctx.chat_context.messages[k];
        match m.role {
            Role::User => out.append("u"),
            Role::Assistant => out.append("a"),
        }
        proof {
            reveal_strlit("u");
            reveal_strlit("a");
            assert(out@ =~= prefix + seq![enc_role(m.role)]);
        }
        push_str_field(&mut out, &m.content);
        proof {
            let mv = ctx@.log[k as int];
            assert(mv == m@);
            lemma_enc_msgs_push(ctx@.log.take(k as int), mv);
            assert(ctx@.log.take(k as int + 1) =~= ctx@.log.take(k as int).push(mv));
            assert(out@ =~= enc_str(ctx@.api_key) + enc_str(ctx@.api_url) + enc_fixed(
                count as nat,
                20,
            ) + enc_msgs(ctx@.log.take(k as int + 1)));
            assert(wf_msgs(ctx@.log.take(k as int + 1))) by {
                assert forall|i: int|
                    0 <= i < k as int + 1 implies (#[trigger] ctx@.log.take(k as int + 1)[i]).content.len()
                    <= u64::MAX as nat by {
                    if i < k as int {
                        assert(ctx@.log.take(k as int + 1)[i] == ctx@.log.take(k as int)[i]);
                    } else {
                        assert(ctx@.log.take(k as int + 1)[i] == mv);
                    }
                }
            }
        }
        k = k + 1;
    }
    proof {
        assert(ctx@.log.take(count as int) =~= ctx@.log);
        assert(out@ == enc_session(ctx@));
    }
    out
}

/// One step of [`encode_session`]'s loop at the level of values:
/// appending one turn extends the encoding by that turn's encoding.
pub proof fn lemma_enc_msgs_push(ms: Seq<MessageView>, m: MessageView)
    ensures
        enc_msgs(ms.push(m)) == enc_msgs(ms) + enc_msg(m),
    decreases ms.len(),
{
    if ms.len() == 0 {
        assert(ms.push(m)[0] == m);
        assert(ms.push(m).drop_first() =~= Seq::<MessageView>::empty());
        assert(enc_msgs(ms.push(m)) == enc_msg(m) + enc_msgs(Seq::<MessageView>::empty()));
        assert(enc_msgs(ms.push(m)) =~= enc_msgs(ms) + enc_msg(m));
    } else {
        assert(ms.push(m).drop_first() =~= ms.drop_first().push(m));
        lemma_enc_msgs_push(ms.drop_first(), m);
        assert(ms.push(m)[0] == ms[0]);
        assert(enc_msgs(ms.push(m)) == enc_msg(ms[0]) + (enc_msgs(ms.drop_first()) + enc_msg(m)));
        assert(enc_msg(ms[0]) + (enc_msgs(ms.drop_first()) + enc_msg(m)) =~= (enc_msg(ms[0])
            + enc_msgs(ms.drop_first())) + enc_msg(m));
        assert(enc_msgs(ms) == enc_msg(ms[0]) + enc_msgs(ms.drop_first()));
    }
}

fn encoding_error() -> (e: PersistError)
    ensures
        e is EncodingError,
{
    PersistError::EncodingError("not a session encoding".to_owned())
}

/// Reads a 20-digit number at position `i`.
fn read_num(data: &str, i: usize, n: usize) -> (r: Result<(u64, usize), PersistError>)
    requires
        n == data@.len(),
        i <= n,
    ensures
        match r {
            Ok(p) => {
                &&& p.1 == i + 20
                &&& p.1 <= n
                &&& dec_num(data@.skip(i as int)) == Some((p.0 as nat, data@.skip(p.1 as int)))
            },
            Err(e) => dec_num(data@.skip(i as int)) is None && e is EncodingError,
        },
{
    let ghost s = data@.skip(i as int);
    if n - i < 20 {
        return Err(encoding_error());
    }
    proof {
        lemma_pow10_20();
    }
    let mut acc: u128 = 0;
    let mut j: usize = 0;
    while j < 20
        invariant
            n == data@.len(),
            i + 20 <= n,
            s == data@.skip(i as int),
            0 <= j <= 20,
            dec_digits(s.take(j as int)) == Some(acc as nat),
            acc < pow10(j as nat),
            pow10(20) == 100000000000000000000,
        decreases 20 - j,
    {
        let c: char = data.get_char(i + j);
        proof {
            assert(s[j as int] == data@[i as int + j]);
        }
        let d: u128 = if c == '0' {
            0
        } else if c == '1' {
            1
        } else if c == '2' {
            2
        } else if c == '3' {
            3
        } else if c == '4' {
            4
        } else if c == '5' {
            5
        } else if c == '6' {
            6
        } else if c == '7' {
            7
        } else if c == '8' {
            8
        } else if c == '9' {
            9
        } else {
            proof {
                lemma_dec_digits_nondigit(s.take(20), j as int);
            }
            return Err(encoding_error());
        };
        proof {
            assert(pow10(j as nat + 1) == 10 * pow10(j as nat));
            lemma_pow10_mono(j as nat + 1, 20);
            assert(acc * 10 + d < pow10(j as nat + 1));
            assert(s.take(j as int + 1).drop_last() =~= s.take(j as int));
            assert(s.take(j as int + 1).last() == s[j as int]);
            assert(is_digit_char(s[j as int]) && digit_val(s[j as int]) == d as nat);
        }
        acc = acc * 10 + d;
        j = j + 1;
    }
    if acc > u64::MAX as u128 {
        return Err(encoding_error());
    }
    let v: u64 = acc as u64;
    proof {
        assert(s.skip(20) =~= data@.skip(i as int + 20));
    }
    Ok((v, i + 20))
}

/// Reads one length-prefixed string at position `i`.
fn read_str(data: &str, i: usize, n: usize) -> (r: Result<(String, usize), PersistError>)
    requires
        n == data@.len(),
        i <= n,
    ensures
        match r {
            Ok(p) => {
                &&& i <= p.1 <= n
                &&& dec_str(data@.skip(i as int)) == Some((p.0@, data@.skip(p.1 as int)))
            },
            Err(e) => dec_str(data@.skip(i as int)) is None && e is EncodingError,
        },
{
    let (v, j) = match read_num(data, i, n) {
        Ok(p) => p,
        Err(e) => return Err(e),
    };
    let rem: usize = n - j;
    if v > rem as u64 {
        return Err(encoding_error());
    }
    let l: usize = v as usize;
    let piece: &str = data.substring_char(j, j + l);
    let s: String = piece.to_owned();
    proof {
        let r = data@.skip(j as int);
        assert(r.len() == n - j);
        assert(r.take(v as int) =~= data@.subrange(j as int, j as int + l as int));
        assert(r.skip(v as int) =~= data@.skip(j as int + l as int));
    }
    Ok((s, j + l))
}

/// Decodes a session from its textual form. `Ok` is returned exactly on
/// the strings that [`dec_session`] accepts, with the session it denotes;
/// anything else is an encoding error.
pub fn decode_session(data: &str) -> (r: Result<ChatGPTAPIContext, PersistError>)
    ensures
        match r {
            Ok(c) => dec_session(data@) == Some(c@),
            Err(e) => dec_session(data@) is None && e is EncodingError,
        },
{
    let n: usize = data.unicode_len();
    proof {
        assert(data@.skip(0) =~= data@);
    }
    let (key, i1) = match read_str(data, 0, n) {
        Ok(p) => p,
        Err(e) => return Err(e),
    };
    let (url, i2) = match read_str(data, i1, n) {
        Ok(p) => p,
        Err(e) => return Err(e),
    };
    let (count, i3) = match read_num(data, i2, n) {
        Ok(p) => p,
        Err(e) => return Err(e),
    };
    let mut msgs: Vec<Message> = Vec::new();
    let mut k: u64 = 0;
    let mut i: usize = i3;
    proof {
        assert(msgs@.map_values(|m: Message| m@) =~= Seq::<MessageView>::empty());
        match dec_msgs(data@.skip(i3 as int), count as nat) {
            Some(p) => {
                assert(msgs@.map_values(|m: Message| m@) + p.0 =~= p.0);
            },
            None => {},
        }
    }
    while k < count
        invariant
            n == data@.len(),
            i <= n,
            0 <= k <= count,
            dec_str(data@) == Some((key@, data@.skip(i1 as int))),
            dec_str(data@.skip(i1 as int)) == Some((url@, data@.skip(i2 as int))),
            dec_num(data@.skip(i2 as int)) == Some((count as nat, data@.skip(i3 as int))),
            match dec_msgs(data@.skip(i as int), (count - k) as nat) {
                Some(p) => dec_msgs(data@.skip(i3 as int), count as nat) == Some(
                    (msgs@.map_values(|m: Message| m@) + p.0, p.1),
                ),
                None => dec_msgs(data@.skip(i3 as int), count as nat) is None,
            },
        decreases count - k,
    {
        let ghost cur = data@.skip(i as int);
        if i >= n {
            proof {
                assert(cur.len() == 0);
                assert(dec_msg(cur) is None);
                assert(dec_msgs(cur, (count - k) as nat) is None);
                assert(dec_session(data@) is None);
            }
            return Err(encoding_error());
        }
        let rc: char = data.get_char(i);
        proof {
            assert(cur[0] == data@[i as int]);
        }
        let role: Role = if rc == 'u' {
            Role::User
        } else if rc == 'a' {
            Role::Assistant
        } else {
            proof {
                assert(dec_msg(cur) is None);
                assert(dec_msgs(cur, (count - k) as nat) is None);
                assert(dec_session(data@) is None);
            }
            return Err(encoding_error());
        };
        proof {
            assert(cur.skip(1) =~= data@.skip(i as int + 1));
        }
        let (content, i4) = match read_str(data, i + 1, n) {
            Ok(p) => p,
            Err(e) => {
                proof {
                    assert(dec_str(cur.skip(1)) is None);
                    assert(dec_msg(cur) is None);
                    assert(dec_msgs(cur, (count - k) as nat) is None);
                    assert(dec_session(data@) is None);
                }
                return Err(e);
            },
        };
        let ghost before_msgs = msgs@.map_values(|m: Message| m@);
        let ghost mv = MessageView { role, content: content@ };
        proof {
            assert(dec_msg(cur) == Some((mv, data@.skip(i4 as int))));
        }
        msgs.push(Message { role, content });
        proof {
            assert(msgs@.map_values(|m: Message| m@) =~= before_msgs.push(mv));
            match dec_msgs(data@.skip(i4 as int), (count - k - 1) as nat) {
                Some(p) => {
                    assert(before_msgs.push(mv) + p.0 =~= before_msgs + (seq![mv] + p.0));
                },
                None => {},
            }
        }
        i = i4;
        k = k + 1;
    }
    if i != n {
        proof {
            assert(data@.skip(i as int).len() > 0);
        }
        return Err(encoding_error());
    }
    let ctx = ChatGPTAPIContext {
        api_key: key,
        api_url: url,
        chat_context: ChatContext { messages: msgs },
    };
    proof {
        assert(data@.skip(i as int).len() == 0);
        assert(msgs@.map_values(|m: Message| m@) + Seq::<MessageView>::empty() =~= ctx@.log);
        assert(dec_session(data@) matches Some(got) && got =~= ctx@);
    }
    Ok(ctx)
}

} // verus!
