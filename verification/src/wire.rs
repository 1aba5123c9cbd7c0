//! Verified wire encoding: the JSON frames the pipeline emits for
//! envelopes, receipt events and private messages.
//!
//! Strings are escaped as JSON requires: quote, backslash and control
//! characters only, the latter with the short forms `\b \f \n \r \t`
//! where they exist and `\u00XX` otherwise.

use vstd::prelude::*;
use vstd::string::StringExecFns;
use vstd::string::StrSliceExecFns;

use crate::models::InsertMessage;
use crate::models::Receipt;

verus! {

/// Relies on String::push: appends one character to the string.
#[verifier::external_body]
fn push_char(s: &mut String, c: char)
    ensures
        final(s)@ == old(s)@.push(c),
{
    s.push(c);
}

/// The lowercase hex digit for `n`.
pub open spec fn hex_digit(n: int) -> char {
    if n == 0 {
        '0'
    } else if n == 1 {
        '1'
    } else if n == 2 {
        '2'
    } else if n == 3 {
        '3'
    } else if n == 4 {
        '4'
    } else if n == 5 {
        '5'
    } else if n == 6 {
        '6'
    } else if n == 7 {
        '7'
    } else if n == 8 {
        '8'
    } else if n == 9 {
        '9'
    } else if n == 10 {
        'a'
    } else if n == 11 {
        'b'
    } else if n == 12 {
        'c'
    } else if n == 13 {
        'd'
    } else if n == 14 {
        'e'
    } else {
        'f'
    }
}

fn hex_char(n: u32) -> (r: char)
    requires
        n < 16,
    ensures
        r == hex_digit(n as int),
{
    if n == 0 {
        '0'
    } else if n == 1 {
        '1'
    } else if n == 2 {
        '2'
    } else if n == 3 {
        '3'
    } else if n == 4 {
        '4'
    } else if n == 5 {
        '5'
    } else if n == 6 {
        '6'
    } else if n == 7 {
        '7'
    } else if n == 8 {
        '8'
    } else if n == 9 {
        '9'
    } else if n == 10 {
        'a'
    } else if n == 11 {
        'b'
    } else if n == 12 {
        'c'
    } else if n == 13 {
        'd'
    } else if n == 14 {
        'e'
    } else {
        'f'
    }
}

/// How one character is written inside a JSON string.
pub open spec fn escaped_char(c: char) -> Seq<char> {
    if c == '"' {
        seq!['\\', '"']
    } else if c == '\\' {
        seq!['\\', '\\']
    } else if c == '\u{8}' {
        seq!['\\', 'b']
    } else if c == '\u{c}' {
        seq!['\\', 'f']
    } else if c == '\n' {
        seq!['\\', 'n']
    } else if c == '\r' {
        seq!['\\', 'r']
    } else if c == '\t' {
        seq!['\\', 't']
    } else if (c as u32) < 0x20 {
        seq!['\\', 'u', '0', '0', hex_digit((c as u32) as int / 16), hex_digit(
            (c as u32) as int % 16,
        )]
    } else {
        seq![c]
    }
}

/// The body of a JSON string: every character escaped.
pub open spec fn json_escaped(s: Seq<char>) -> Seq<char>
    decreases s.len(),
{
    if s.len() == 0 {
        Seq::empty()
    } else {
        escaped_char(s[0]) + json_escaped(s.skip(1))
    }
}

/// A JSON string literal for `s`.
pub open spec fn json_string(s: Seq<char>) -> Seq<char> {
    seq!['"'] + json_escaped(s) + seq!['"']
}

proof fn lemma_json_escaped_push(s: Seq<char>, c: char)
    ensures
        json_escaped(s.push(c)) == json_escaped(s) + escaped_char(c),
    decreases s.len(),
{
    if s.len() == 0 {
        assert(s.push(c)[0] == c);
        assert(s.push(c).skip(1) =~= Seq::<char>::empty());
        assert(json_escaped(Seq::<char>::empty()) =~= Seq::<char>::empty());
        assert(json_escaped(s.push(c)) =~= json_escaped(s) + escaped_char(c));
    } else {
        assert(s.push(c)[0] == s[0]);
        assert(s.push(c).skip(1) =~= s.skip(1).push(c));
        lemma_json_escaped_push(s.skip(1), c);
        assert(escaped_char(s[0]) + (json_escaped(s.skip(1)) + escaped_char(c)) =~= (escaped_char(
            s[0],
        ) + json_escaped(s.skip(1))) + escaped_char(c));
    }
}

fn push_escaped_char(out: &mut String, c: char)
    ensures
        final(out)@ == old(out)@ + escaped_char(c),
{
    let ghost pre = out@;
    if c == '"' {
        push_char(out, '\\');
        push_char(out, '"');
        proof {
            assert(out@ =~= pre + escaped_char(c));
        }
    } else if c == '\\' {
        push_char(out, '\\');
        push_char(out, '\\');
        proof {
            assert(out@ =~= pre + escaped_char(c));
        }
    } else if c == '\u{8}' {
        push_char(out, '\\');
        push_char(out, 'b');
        proof {
            assert(out@ =~= pre + escaped_char(c));
        }
    } else if c == '\u{c}' {
        push_char(out, '\\');
        push_char(out, 'f');
        proof {
            assert(out@ =~= pre + escaped_char(c));
        }
    } else if c == '\n' {
        push_char(out, '\\');
        push_char(out, 'n');
        proof {
            assert(out@ =~= pre + escaped_char(c));
        }
    } else if c == '\r' {
        push_char(out, '\\');
        push_char(out, 'r');
        proof {
            assert(out@ =~= pre + escaped_char(c));
        }
    } else if c == '\t' {
        push_char(out, '\\');
        push_char(out, 't');
        proof {
            assert(out@ =~= pre + escaped_char(c));
        }
    } else if (c as u32) < 0x20 {
        let n = c as u32;
        push_char(out, '\\');
        push_char(out, 'u');
        push_char(out, '0');
        push_char(out, '0');
        push_char(out, hex_char(n / 16));
        push_char(out, hex_char(n % 16));
        proof {
            assert(out@ =~= pre + escaped_char(c));
        }
    } else {
        push_char(out, c);
        proof {
            assert(out@ =~= pre + escaped_char(c));
        }
    }
}

/// Append `s` as a JSON string literal, quotes and escapes included.
fn push_json_string(out: &mut String, s: &str)
    ensures
        final(out)@ == old(out)@ + json_string(s@),
{
    push_char(out, '"');
    let ghost pre = out@;
    let n = s.unicode_len();
    for i in 0..n
        invariant
            n == s@.len(),
            out@ == pre + json_escaped(s@.take(i as int)),
    {
        proof {
            assert(s@.take(0) =~= Seq::<char>::empty());
        }
        let c = s.get_char(i);
        push_escaped_char(out, c);
        proof {
            assert(s@.take(i as int).push(s@[i as int]) =~= s@.take(i as int + 1));
            lemma_json_escaped_push(s@.take(i as int), s@[i as int]);
            assert((pre + json_escaped(s@.take(i as int))) + escaped_char(s@[i as int]) =~= pre
                + json_escaped(s@.take(i as int + 1)));
        }
    }
    proof {
        assert(s@.take(n as int) =~= s@);
    }
    push_char(out, '"');
    proof {
        assert(out@ =~= old(out)@ + json_string(s@));
    }
}

/// The decimal digit for `n`.
pub open spec fn dec_digit(n: int) -> char {
    if n == 0 {
        '0'
    } else if n == 1 {
        '1'
    } else if n == 2 {
        '2'
    } else if n == 3 {
        '3'
    } else if n == 4 {
        '4'
    } else if n == 5 {
        '5'
    } else if n == 6 {
        '6'
    } else if n == 7 {
        '7'
    } else if n == 8 {
        '8'
    } else {
        '9'
    }
}

/// Decimal notation of a non-negative integer, no sign, no leading zero.
pub open spec fn dec_nat(n: nat) -> Seq<char>
    decreases n,
{
    if n < 10 {
        seq![dec_digit(n as int)]
    } else {
        dec_nat(n / 10).push(dec_digit((n % 10) as int))
    }
}

/// Decimal notation of an integer, `-` sign for negatives.
pub open spec fn dec_int(n: int) -> Seq<char> {
    if n < 0 {
        seq!['-'] + dec_nat((-n) as nat)
    } else {
        dec_nat(n as nat)
    }
}

fn dec_char(n: u64) -> (r: char)
    requires
        n < 10,
    ensures
        r == dec_digit(n as int),
{
    if n == 0 {
        '0'
    } else if n == 1 {
        '1'
    } else if n == 2 {
        '2'
    } else if n == 3 {
        '3'
    } else if n == 4 {
        '4'
    } else if n == 5 {
        '5'
    } else if n == 6 {
        '6'
    } else if n == 7 {
        '7'
    } else if n == 8 {
        '8'
    } else {
        '9'
    }
}

fn push_dec_u64(out: &mut String, n: u64)
    ensures
        final(out)@ == old(out)@ + dec_nat(n as nat),
    decreases n,
{
    if n < 10 {
        push_char(out, dec_char(n));
        proof {
            assert(out@ =~= old(out)@ + dec_nat(n as nat));
        }
    } else {
        push_dec_u64(out, n / 10);
        push_char(out, dec_char(n % 10));
        proof {
            assert(out@ =~= old(out)@ + dec_nat(n as nat));
        }
    }
}

/// Append the decimal notation of `n`.
fn push_dec_i64(out: &mut String, n: i64)
    ensures
        final(out)@ == old(out)@ + dec_int(n as int),
{
    if n >= 0 {
        push_dec_u64(out, n as u64);
    } else {
        let up = n + 1;
        let mag: u64 = ((-up) as u64) + 1;
        proof {
            assert(mag as int == -(n as int));
        }
        push_char(out, '-');
        let ghost mid = out@;
        push_dec_u64(out, mag);
        proof {
            assert(out@ =~= old(out)@ + dec_int(n as int));
        }
    }
}

/// The JSON for an optional integer: its decimal notation, or `null`.
pub open spec fn opt_i64_json(o: Option<i64>) -> Seq<char> {
    match o {
        Some(n) => dec_int(n as int),
        None => "null"@,
    }
}

fn push_opt_i64(out: &mut String, o: &Option<i64>)
    ensures
        final(out)@ == old(out)@ + opt_i64_json(*o),
{
    match o {
        Some(n) => push_dec_i64(out, *n),
        None => out.append("null"),
    }
}

/// The JSON for a boolean.
pub open spec fn bool_json(b: bool) -> Seq<char> {
    if b {
        "true"@
    } else {
        "false"@
    }
}

fn push_bool(out: &mut String, b: bool)
    ensures
        final(out)@ == old(out)@ + bool_json(b),
{
    if b {
        out.append("true");
    } else {
        out.append("false");
    }
}

/// The wire form of an envelope:
/// `{"source":…,"mbox":…,"text":…,"reply_to":…,"created":…,"id":…}`.
pub open spec fn envelope_json(m: InsertMessage) -> Seq<char> {
    "{\"source\":"@ + json_string(m.source@) + ",\"mbox\":"@ + json_string(m.mbox@) + ",\"text\":"@
        + json_string(m.text@) + ",\"reply_to\":"@ + opt_i64_json(m.reply_to) + ",\"created\":"@
        + dec_int(m.created as int) + ",\"id\":"@ + json_string(m.id@) + "}"@
}

/// Encode an envelope for the queue and the live sessions.
pub fn encode_envelope(m: &InsertMessage) -> (r: String)
    ensures
        r@ == envelope_json(*m),
{
    let mut out = String::new();
    out.append("{\"source\":");
    push_json_string(&mut out, m.source.as_str());
    out.append(",\"mbox\":");
    push_json_string(&mut out, m.mbox.as_str());
    out.append(",\"text\":");
    push_json_string(&mut out, m.text.as_str());
    out.append(",\"reply_to\":");
    push_opt_i64(&mut out, &m.reply_to);
    out.append(",\"created\":");
    push_dec_i64(&mut out, m.created);
    out.append(",\"id\":");
    push_json_string(&mut out, m.id.as_str());
    out.append("}");
    proof {
        assert(out@ =~= envelope_json(*m));
    }
    out
}

/// The wire form of a receipt event:
/// `{"message":…,"user":…,"delivered":…,"read":…,"reaction":…}`.
pub open spec fn receipt_json(e: Receipt) -> Seq<char> {
    "{\"message\":"@ + json_string(e.message@) + ",\"user\":"@ + json_string(e.user@)
        + ",\"delivered\":"@ + bool_json(e.delivered) + ",\"read\":"@ + bool_json(e.read)
        + ",\"reaction\":"@ + opt_i64_json(e.reaction) + "}"@
}

/// Encode a receipt event for the receipt queue.
pub fn encode_receipt(e: &Receipt) -> (r: String)
    ensures
        r@ == receipt_json(*e),
{
    let mut out = String::new();
    out.append("{\"message\":");
    push_json_string(&mut out, e.message.as_str());
    out.append(",\"user\":");
    push_json_string(&mut out, e.user.as_str());
    out.append(",\"delivered\":");
    push_bool(&mut out, e.delivered);
    out.append(",\"read\":");
    push_bool(&mut out, e.read);
    out.append(",\"reaction\":");
    push_opt_i64(&mut out, &e.reaction);
    out.append("}");
    proof {
        assert(out@ =~= receipt_json(*e));
    }
    out
}

/// The frame a private message produces on the recipient's session:
/// `{"from":…,"content":…}`.
pub open spec fn private_frame_json(from: Seq<char>, content: Seq<char>) -> Seq<char> {
    "{\"from\":"@ + json_string(from) + ",\"content\":"@ + json_string(content) + "}"@
}

/// Encode a private-message frame.
pub fn encode_private_frame(from: &String, content: &String) -> (r: String)
    ensures
        r@ == private_frame_json(from@, content@),
{
    let mut out = String::new();
    out.append("{\"from\":");
    push_json_string(&mut out, from.as_str());
    out.append(",\"content\":");
    push_json_string(&mut out, content.as_str());
    out.append("}");
    proof {
        assert(out@ =~= private_frame_json(from@, content@));
    }
    out
}

} // verus!
