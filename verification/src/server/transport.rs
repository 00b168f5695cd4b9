//! The wire codec: one UDP datagram is one JSON frame, with no length prefix.
//!
//! An outbound frame is the object `{"sequence":S,"data":[W,…]}`, written
//! compactly with unsigned decimal numbers; the encoder
//! is proved to produce exactly this form, and decoding an encoded outbound
//! frame is proved to give back its sequence and words. An inbound status
//! frame is any JSON object carrying `last_command_sequence_number` as an
//! unsigned 32-bit integer: whitespace and field order are free, and other
//! fields are validated as JSON and ignored. The decoder is proved to
//! accept exactly the grammar `spec_decode_status` lays down.

use vstd::prelude::*;

use crate::server::Error;

verus! {

/// An outbound frame: the command's words under its assigned sequence.
#[derive(Debug)]
pub struct Command {
    pub data: Vec<u32>,
    pub sequence: u32,
}

/// An inbound status frame: the device's acknowledgement, which doubles as
/// its liveness heartbeat.
#[derive(Debug)]
pub struct Status {
    pub last_command_sequence_number: u32,
}

/// An ASCII decimal digit.
pub open spec fn is_digit(b: u8) -> bool {
    48 <= b <= 57
}

/// The decimal digits of `n`, most significant first, without leading zeros.
pub open spec fn dec_digits(n: nat) -> Seq<u8>
    decreases n,
{
    if n < 10 {
        seq![(48 + n) as u8]
    } else {
        dec_digits(n / 10).push((48 + n % 10) as u8)
    }
}

/// The number a run of decimal digits denotes.
pub open spec fn dec_value(s: Seq<u8>) -> int
    decreases s.len(),
{
    if s.len() == 0 {
        0
    } else {
        dec_value(s.drop_last()) * 10 + s.last() - 48
    }
}

/// How many digits stand at the head of `s`.
pub open spec fn digit_run(s: Seq<u8>) -> nat
    decreases s.len(),
{
    if s.len() == 0 || !is_digit(s[0]) {
        0
    } else {
        (1 + digit_run(s.skip(1))) as nat
    }
}

/// The bytes of `{"sequence":`.
pub open spec fn seq_label() -> Seq<u8> {
    seq![123u8, 34u8, 115u8, 101u8, 113u8, 117u8, 101u8, 110u8, 99u8, 101u8, 34u8, 58u8]
}

/// The bytes of `,"data":[`.
pub open spec fn data_label() -> Seq<u8> {
    seq![44u8, 34u8, 100u8, 97u8, 116u8, 97u8, 34u8, 58u8, 91u8]
}

/// The bytes of `]}`.
pub open spec fn frame_close() -> Seq<u8> {
    seq![93u8, 125u8]
}

/// The bytes of the acknowledgement field's name,
/// `last_command_sequence_number`.
pub open spec fn ack_name() -> Seq<u8> {
    seq![
        108u8, 97u8, 115u8, 116u8, 95u8, 99u8, 111u8, 109u8, 109u8, 97u8, 110u8, 100u8, 95u8,
        115u8, 101u8, 113u8, 117u8, 101u8, 110u8, 99u8, 101u8, 95u8, 110u8, 117u8, 109u8, 98u8,
        101u8, 114u8,
    ]
}

/// A JSON whitespace byte.
pub open spec fn is_ws(b: u8) -> bool {
    b == 32 || b == 9 || b == 10 || b == 13
}

/// A hexadecimal digit, four of which follow a `\u` escape.
pub open spec fn is_hex(b: u8) -> bool {
    (48 <= b <= 57) || (97 <= b <= 102) || (65 <= b <= 70)
}

/// An escape character that may follow a backslash in a JSON string.
pub open spec fn is_simple_escape(b: u8) -> bool {
    b == 34 || b == 92 || b == 47 || b == 98 || b == 102 || b == 110 || b == 114 || b == 116
}

/// The comma-separated decimal rendering of the command's words.
pub open spec fn spec_encode_items(data: Seq<u32>) -> Seq<u8>
    decreases data.len(),
{
    if data.len() == 0 {
        Seq::empty()
    } else if data.len() == 1 {
        dec_digits(data[0] as nat)
    } else {
        dec_digits(data[0] as nat) + seq![44u8] + spec_encode_items(data.skip(1))
    }
}

/// The whole outbound frame for a sequence and its words.
pub open spec fn spec_encode_command(sequence: u32, data: Seq<u32>) -> Seq<u8> {
    seq_label() + dec_digits(sequence as nat) + data_label() + spec_encode_items(data)
        + frame_close()
}

/// A `u32` written at the head of `s` in canonical decimal: its value and
/// how many bytes it spans. Rejected: no digit, a leading zero, or a value
/// beyond `u32`.
pub open spec fn parse_number(s: Seq<u8>) -> Option<(u32, int)> {
    let k = digit_run(s) as int;
    if k == 0 {
        None
    } else if k > 1 && s[0] == 48 {
        None
    } else if dec_value(s.take(k)) > u32::MAX {
        None
    } else {
        Some((dec_value(s.take(k)) as u32, k))
    }
}

/// The words read from `s`, which must be `W(,W)*` followed by exactly `]}`.
pub open spec fn spec_decode_items(s: Seq<u8>) -> Option<Seq<u32>>
    decreases s.len(),
{
    match parse_number(s) {
        Option::None => None,
        Option::Some((v, k)) => {
            if k < 1 || k > s.len() {
                None
            } else {
                let r = s.skip(k);
                if r =~= frame_close() {
                    Some(seq![v])
                } else if r.len() > 0 && r[0] == 44 {
                    match spec_decode_items(r.skip(1)) {
                        Option::None => None,
                        Option::Some(rest) => Some(seq![v] + rest),
                    }
                } else {
                    None
                }
            }
        },
    }
}

/// The sequence and words read from a whole outbound frame; `None` when the
/// bytes are not exactly one canonical frame.
pub open spec fn spec_decode_command(s: Seq<u8>) -> Option<(u32, Seq<u32>)> {
    if s.len() < 12 || s.take(12) != seq_label() {
        None
    } else {
        let r1 = s.skip(12);
        match parse_number(r1) {
            Option::None => None,
            Option::Some((sequence, k)) => {
                let r2 = r1.skip(k);
                if r2.len() < 9 || r2.take(9) != data_label() {
                    None
                } else {
                    let r3 = r2.skip(9);
                    if r3 =~= frame_close() {
                        Some((sequence, Seq::empty()))
                    } else {
                        match spec_decode_items(r3) {
                            Option::None => None,
                            Option::Some(items) => Some((sequence, items)),
                        }
                    }
                }
            },
        }
    }
}

/// The first position at or after `i` that holds no whitespace.
pub open spec fn spec_ws(s: Seq<u8>, i: int) -> int
    decreases s.len() - i,
{
    if i < 0 || i >= s.len() {
        i
    } else if is_ws(s[i]) {
        spec_ws(s, i + 1)
    } else {
        i
    }
}

/// How many digits stand at position `i`.
pub open spec fn digit_run_at(s: Seq<u8>, i: int) -> nat {
    if 0 <= i <= s.len() {
        digit_run(s.skip(i))
    } else {
        0
    }
}

/// The position after a JSON string's remaining characters and closing
/// quote, entered just past the opening quote. Escapes must be well formed
/// and control characters escaped; bytes beyond ASCII pass through
/// unexamined.
pub open spec fn spec_string_tail(s: Seq<u8>, i: int) -> Option<int>
    decreases s.len() - i,
{
    if i < 0 || i >= s.len() {
        None
    } else if s[i] == 34 {
        Some(i + 1)
    } else if s[i] == 92 {
        if i + 1 < s.len() && is_simple_escape(s[i + 1]) {
            spec_string_tail(s, i + 2)
        } else if i + 1 < s.len() && s[i + 1] == 117 {
            if i + 6 <= s.len() && is_hex(s[i + 2]) && is_hex(s[i + 3]) && is_hex(s[i + 4])
                && is_hex(s[i + 5]) {
                spec_string_tail(s, i + 6)
            } else {
                None
            }
        } else {
            None
        }
    } else if s[i] < 32 {
        None
    } else {
        spec_string_tail(s, i + 1)
    }
}

/// The position after a JSON number's exponent part, if one stands at `i`.
pub open spec fn spec_exp_end(s: Seq<u8>, i: int) -> Option<int> {
    if 0 <= i < s.len() && (s[i] == 101 || s[i] == 69) {
        let j = if i + 1 < s.len() && (s[i + 1] == 43 || s[i + 1] == 45) {
            i + 2
        } else {
            i + 1
        };
        let k = digit_run_at(s, j);
        if k == 0 {
            None
        } else {
            Some(j + k)
        }
    } else {
        Some(i)
    }
}

/// The position after a JSON number standing at `i`: an optional minus, an
/// integer part without leading zeros, an optional fraction and exponent.
pub open spec fn spec_number_end(s: Seq<u8>, i: int) -> Option<int> {
    if i < 0 || i >= s.len() {
        None
    } else {
        let j0 = if s[i] == 45 {
            i + 1
        } else {
            i
        };
        let k = digit_run_at(s, j0);
        if k == 0 {
            None
        } else if k > 1 && s[j0] == 48 {
            None
        } else {
            let j1 = j0 + k;
            if j1 < s.len() && s[j1] == 46 {
                let kf = digit_run_at(s, j1 + 1);
                if kf == 0 {
                    None
                } else {
                    spec_exp_end(s, j1 + 1 + kf)
                }
            } else {
                spec_exp_end(s, j1)
            }
        }
    }
}

/// The position after any JSON value standing at `i`.
pub open spec fn spec_value_end(s: Seq<u8>, i: int) -> Option<int>
    decreases s.len() - i, 1int,
{
    if i < 0 || i >= s.len() {
        None
    } else if s[i] == 34 {
        spec_string_tail(s, i + 1)
    } else if s[i] == 123 {
        spec_object_end(s, i)
    } else if s[i] == 91 {
        spec_array_end(s, i)
    } else if s[i] == 116 {
        if i + 4 <= s.len() && s[i + 1] == 114 && s[i + 2] == 117 && s[i + 3] == 101 {
            Some(i + 4)
        } else {
            None
        }
    } else if s[i] == 102 {
        if i + 5 <= s.len() && s[i + 1] == 97 && s[i + 2] == 108 && s[i + 3] == 115 && s[i + 4]
            == 101 {
            Some(i + 5)
        } else {
            None
        }
    } else if s[i] == 110 {
        if i + 4 <= s.len() && s[i + 1] == 117 && s[i + 2] == 108 && s[i + 3] == 108 {
            Some(i + 4)
        } else {
            None
        }
    } else if s[i] == 45 || is_digit(s[i]) {
        spec_number_end(s, i)
    } else {
        None
    }
}

/// The position after a whole skipped JSON object standing at `i`.
pub open spec fn spec_object_end(s: Seq<u8>, i: int) -> Option<int>
    decreases s.len() - i, 0int,
{
    if i < 0 || i >= s.len() || s[i] != 123 {
        None
    } else {
        let j = spec_ws(s, i + 1);
        if j < s.len() && s[j] == 125 {
            Some(j + 1)
        } else if j <= i || j > s.len() {
            None
        } else {
            spec_object_tail(s, j)
        }
    }
}

/// The position after a skipped object's remaining `"key": value` fields
/// and its closing brace, entered at a key.
pub open spec fn spec_object_tail(s: Seq<u8>, i: int) -> Option<int>
    decreases s.len() - i, 2int,
{
    if i < 0 || i >= s.len() || s[i] != 34 {
        None
    } else {
        match spec_string_tail(s, i + 1) {
            Option::None => None,
            Option::Some(e) => {
                let jc = spec_ws(s, e);
                if jc >= s.len() || s[jc] != 58 {
                    None
                } else {
                    let jv = spec_ws(s, jc + 1);
                    if jv < i || jv > s.len() {
                        None
                    } else {
                        match spec_value_end(s, jv) {
                            Option::None => None,
                            Option::Some(j) => {
                                let ja = spec_ws(s, j);
                                if ja >= s.len() {
                                    None
                                } else if s[ja] == 125 {
                                    Some(ja + 1)
                                } else if s[ja] == 44 {
                                    let jn = spec_ws(s, ja + 1);
                                    if jn <= i || jn > s.len() {
                                        None
                                    } else {
                                        spec_object_tail(s, jn)
                                    }
                                } else {
                                    None
                                }
                            },
                        }
                    }
                }
            },
        }
    }
}

/// The position after a whole skipped JSON array standing at `i`.
pub open spec fn spec_array_end(s: Seq<u8>, i: int) -> Option<int>
    decreases s.len() - i, 0int,
{
    if i < 0 || i >= s.len() || s[i] != 91 {
        None
    } else {
        let j = spec_ws(s, i + 1);
        if j < s.len() && s[j] == 93 {
            Some(j + 1)
        } else if j <= i || j > s.len() {
            None
        } else {
            spec_array_tail(s, j)
        }
    }
}

/// The position after a skipped array's remaining items and its closing
/// bracket, entered at an item.
pub open spec fn spec_array_tail(s: Seq<u8>, i: int) -> Option<int>
    decreases s.len() - i, 2int,
{
    if i < 0 || i > s.len() {
        None
    } else {
        match spec_value_end(s, i) {
            Option::None => None,
            Option::Some(j) => {
                let ja = spec_ws(s, j);
                if ja >= s.len() {
                    None
                } else if s[ja] == 93 {
                    Some(ja + 1)
                } else if s[ja] == 44 {
                    let jn = spec_ws(s, ja + 1);
                    if jn <= i || jn > s.len() {
                        None
                    } else {
                        spec_array_tail(s, jn)
                    }
                } else {
                    None
                }
            },
        }
    }
}

/// Walk the top-level object's fields from a key at `i`: skip every field,
/// read the acknowledgement field's value — an unsigned 32-bit integer —
/// and reject a duplicate of that field, as strict JSON decoding does.
/// Yields the position after the closing brace and the value read. A key
/// written with escape sequences is not recognized as the acknowledgement
/// field; it is skipped like any other.
pub open spec fn spec_fields(s: Seq<u8>, i: int, acc: Option<u32>) -> Option<(int, Option<u32>)>
    decreases s.len() - i,
{
    if i < 0 || i >= s.len() || s[i] != 34 {
        None
    } else {
        match spec_string_tail(s, i + 1) {
            Option::None => None,
            Option::Some(e) => {
                let is_ack = e == i + 30 && s.subrange(i + 1, i + 29) == ack_name();
                let jc = spec_ws(s, e);
                if jc >= s.len() || s[jc] != 58 {
                    None
                } else {
                    let jv = spec_ws(s, jc + 1);
                    let step: Option<(int, Option<u32>)> = if is_ack {
                        if acc is Some {
                            None
                        } else if !(0 <= jv <= s.len()) {
                            None
                        } else {
                            match parse_number(s.skip(jv)) {
                                Option::None => None,
                                Option::Some((v, k)) => Some((jv + k, Some(v))),
                            }
                        }
                    } else {
                        match spec_value_end(s, jv) {
                            Option::None => None,
                            Option::Some(j) => Some((j, acc)),
                        }
                    };
                    match step {
                        Option::None => None,
                        Option::Some((j, acc2)) => {
                            let ja = spec_ws(s, j);
                            if ja >= s.len() {
                                None
                            } else if s[ja] == 125 {
                                Some((ja + 1, acc2))
                            } else if s[ja] == 44 {
                                let jn = spec_ws(s, ja + 1);
                                if jn <= i || jn > s.len() {
                                    None
                                } else {
                                    spec_fields(s, jn, acc2)
                                }
                            } else {
                                None
                            }
                        },
                    }
                }
            },
        }
    }
}

/// The acknowledgement read from a status frame: one JSON object carrying
/// the field `last_command_sequence_number` exactly once with an unsigned
/// 32-bit integer value. Whitespace and field order are free; other fields
/// are validated as JSON and ignored. `None` when the bytes are no such
/// object.
pub open spec fn spec_decode_status(s: Seq<u8>) -> Option<u32> {
    let i0 = spec_ws(s, 0);
    if i0 >= s.len() || s[i0] != 123 {
        None
    } else {
        let j = spec_ws(s, i0 + 1);
        if j < s.len() && s[j] == 125 {
            None
        } else {
            match spec_fields(s, j, None) {
                Option::None => None,
                Option::Some((e, acc)) => {
                    if spec_ws(s, e) == s.len() {
                        acc
                    } else {
                        None
                    }
                },
            }
        }
    }
}

proof fn lemma_digit_run_le(s: Seq<u8>)
    ensures
        digit_run(s) <= s.len(),
    decreases s.len(),
{
    if s.len() == 0 || !is_digit(s[0]) {
    } else {
        lemma_digit_run_le(s.skip(1));
    }
}

proof fn lemma_digit_run_exact(s: Seq<u8>, m: int)
    requires
        0 <= m <= s.len(),
        forall|t: int| 0 <= t < m ==> is_digit(#[trigger] s[t]),
        m == s.len() || !is_digit(s[m]),
    ensures
        digit_run(s) == m,
    decreases m,
{
    if m == 0 {
    } else {
        assert(is_digit(s[0]));
        lemma_digit_run_exact(s.skip(1), m - 1);
    }
}

proof fn lemma_dec_digits_props(n: nat)
    ensures
        dec_digits(n).len() >= 1,
        forall|i: int| 0 <= i < dec_digits(n).len() ==> is_digit(#[trigger] dec_digits(n)[i]),
        dec_digits(n).len() > 1 ==> dec_digits(n)[0] != 48,
        dec_value(dec_digits(n)) == n,
    decreases n,
{
    if n < 10 {
        let d = dec_digits(n);
        assert(48 + n < 256);
        assert(((48 + n) as u8) as int == 48 + n);
        assert(d =~= seq![(48 + n) as u8]);
        assert(d.len() == 1);
        assert(d.last() == (48 + n) as u8);
        assert(d.drop_last() =~= Seq::<u8>::empty());
        assert(dec_value(d) == dec_value(d.drop_last()) * 10 + d.last() - 48);
        assert(dec_value(Seq::<u8>::empty()) == 0);
        assert(dec_value(d) == n);
    } else {
        lemma_dec_digits_props(n / 10);
        let p = dec_digits(n / 10);
        let d = dec_digits(n);
        assert(48 + n % 10 < 256);
        assert(((48 + n % 10) as u8) as int == 48 + n % 10);
        assert(d == p.push((48 + n % 10) as u8));
        assert(d.drop_last() =~= p);
        assert(d.last() == (48 + n % 10) as u8);
        assert(dec_value(d) == dec_value(p) * 10 + (48 + n % 10) - 48);
        assert(dec_value(d) == n);
        assert forall|i: int| 0 <= i < d.len() implies is_digit(#[trigger] d[i]) by {
            if i < p.len() {
                assert(d[i] == p[i]);
            }
        }
        assert(d[0] == p[0]);
        if p.len() == 1 {
            assert(n / 10 >= 1);
            if n / 10 >= 10 {
                assert(p == dec_digits(n / 10 / 10).push((48 + (n / 10) % 10) as u8));
                assert(dec_digits(n / 10 / 10).len() >= 1) by {
                    if n / 10 / 10 >= 10 {
                    }
                }
                assert(false);
            }
            assert(p =~= seq![(48 + n / 10) as u8]);
            assert(48 + n / 10 < 256);
            assert(((48 + n / 10) as u8) as int == 48 + n / 10);
        }
    }
}

proof fn lemma_dec_value_nonneg(s: Seq<u8>)
    requires
        forall|t: int| 0 <= t < s.len() ==> is_digit(#[trigger] s[t]),
    ensures
        dec_value(s) >= 0,
    decreases s.len(),
{
    if s.len() > 0 {
        assert(forall|t: int|
            0 <= t < s.drop_last().len() ==> is_digit(#[trigger] s.drop_last()[t]));
        lemma_dec_value_nonneg(s.drop_last());
    }
}

proof fn lemma_dec_value_prefix_mono(s: Seq<u8>, m: int)
    requires
        forall|t: int| 0 <= t < s.len() ==> is_digit(#[trigger] s[t]),
        0 <= m <= s.len(),
    ensures
        dec_value(s) >= dec_value(s.take(m)),
    decreases s.len() - m,
{
    if m == s.len() {
        assert(s.take(m) =~= s);
    } else {
        assert(s.take(m + 1).drop_last() =~= s.take(m));
        assert(s.take(m + 1).last() == s[m]);
        assert(forall|t: int| 0 <= t < s.take(m).len() ==> is_digit(#[trigger] s.take(m)[t]));
        lemma_dec_value_nonneg(s.take(m));
        assert(dec_value(s.take(m + 1)) == dec_value(s.take(m)) * 10 + s[m] - 48);
        assert(dec_value(s.take(m + 1)) >= dec_value(s.take(m)));
        lemma_dec_value_prefix_mono(s, m + 1);
    }
}

/// Parsing a canonically written number followed by a non-digit recovers the
/// number and consumes exactly its digits.
proof fn lemma_parse_number_at(n: u32, rest: Seq<u8>)
    requires
        rest.len() == 0 || !is_digit(rest[0]),
    ensures
        parse_number(dec_digits(n as nat) + rest) == Some(
            (n, dec_digits(n as nat).len() as int),
        ),
        (dec_digits(n as nat) + rest).skip(dec_digits(n as nat).len() as int) =~= rest,
{
    let d = dec_digits(n as nat);
    let s = d + rest;
    lemma_dec_digits_props(n as nat);
    assert forall|t: int| 0 <= t < d.len() implies is_digit(#[trigger] s[t]) by {
        assert(s[t] == d[t]);
    }
    if rest.len() > 0 {
        assert(s[d.len() as int] == rest[0]);
    }
    lemma_digit_run_exact(s, d.len() as int);
    assert(s.take(d.len() as int) =~= d);
    assert(s[0] == d[0]);
}

/// Decoding the rendering of at least one word, closed by `]}`, recovers
/// exactly those words.
proof fn lemma_items_round(data: Seq<u32>)
    requires
        data.len() >= 1,
    ensures
        spec_decode_items(spec_encode_items(data) + frame_close()) == Some(data),
    decreases data.len(),
{
    let d0 = dec_digits(data[0] as nat);
    let s = spec_encode_items(data) + frame_close();
    lemma_dec_digits_props(data[0] as nat);
    lemma_digit_run_le(s);
    if data.len() == 1 {
        assert(s =~= d0 + frame_close());
        lemma_parse_number_at(data[0], frame_close());
        let k = d0.len() as int;
        assert(s.skip(k) =~= frame_close());
        assert(spec_decode_items(s) == Some(seq![data[0]]));
        assert(seq![data[0]] =~= data);
    } else {
        let tail = seq![44u8] + spec_encode_items(data.skip(1)) + frame_close();
        assert(s =~= d0 + tail);
        assert(tail[0] == 44u8);
        lemma_parse_number_at(data[0], tail);
        let k = d0.len() as int;
        assert(s.skip(k) =~= tail);
        lemma_dec_digits_props(data[1] as nat);
        assert(spec_encode_items(data.skip(1)).len() >= 1) by {
            if data.skip(1).len() == 1 {
                assert(spec_encode_items(data.skip(1)) == dec_digits(data.skip(1)[0] as nat));
                lemma_dec_digits_props(data.skip(1)[0] as nat);
            } else {
                lemma_dec_digits_props(data.skip(1)[0] as nat);
            }
        }
        assert(tail.len() > 2);
        assert(!(tail =~= frame_close()));
        assert(tail.skip(1) =~= spec_encode_items(data.skip(1)) + frame_close());
        lemma_items_round(data.skip(1));
        assert(spec_decode_items(s) == Some(seq![data[0]] + data.skip(1)));
        assert(seq![data[0]] + data.skip(1) =~= data);
    }
}

/// Law: the codec loses nothing on outbound frames. Encoding a sequence and
/// its words and decoding the bytes as an outbound frame gives back exactly
/// that sequence and those words.
#[verifier::rlimit(50)]
pub proof fn lemma_command_round_trip(sequence: u32, data: Seq<u32>)
    ensures
        spec_decode_command(spec_encode_command(sequence, data)) == Some((sequence, data)),
{
    let s = spec_encode_command(sequence, data);
    let d = dec_digits(sequence as nat);
    let rest = data_label() + spec_encode_items(data) + frame_close();
    lemma_dec_digits_props(sequence as nat);
    assert(s =~= seq_label() + (d + rest));
    assert(s.take(12) =~= seq_label());
    let r1 = s.skip(12);
    assert(r1 =~= d + rest);
    assert(rest[0] == 44u8);
    lemma_parse_number_at(sequence, rest);
    let k = d.len() as int;
    let r2 = r1.skip(k);
    assert(r2 =~= rest);
    assert(r2.take(9) =~= data_label());
    let r3 = r2.skip(9);
    assert(r3 =~= spec_encode_items(data) + frame_close());
    if data.len() == 0 {
        assert(r3 =~= frame_close());
        assert(spec_decode_command(s) == Some((sequence, Seq::<u32>::empty())));
        assert(Seq::<u32>::empty() =~= data);
    } else {
        lemma_dec_digits_props(data[0] as nat);
        assert(spec_encode_items(data).len() >= 1) by {
            if data.len() == 1 {
                assert(spec_encode_items(data) == dec_digits(data[0] as nat));
            }
        }
        assert(r3[0] == spec_encode_items(data)[0]);
        assert(is_digit(r3[0])) by {
            if data.len() == 1 {
                assert(spec_encode_items(data)[0] == dec_digits(data[0] as nat)[0]);
            } else {
                assert(spec_encode_items(data)[0] == dec_digits(data[0] as nat)[0]);
            }
        }
        assert(!(r3 =~= frame_close()));
        lemma_items_round(data);
        assert(spec_decode_command(s) == Some((sequence, data)));
    }
}

/// `spec_encode_items` grows at the tail by a comma and the new last word.
proof fn lemma_items_snoc(d: Seq<u32>)
    requires
        d.len() >= 2,
    ensures
        spec_encode_items(d) == spec_encode_items(d.drop_last()) + seq![44u8] + dec_digits(
            d.last() as nat,
        ),
    decreases d.len(),
{
    if d.len() == 2 {
        assert(d.skip(1) =~= seq![d[1]]);
        assert(d.drop_last() =~= seq![d[0]]);
        assert(spec_encode_items(d.skip(1)) == dec_digits(d[1] as nat));
        assert(spec_encode_items(d.drop_last()) == dec_digits(d[0] as nat));
        assert(spec_encode_items(d) =~= spec_encode_items(d.drop_last()) + seq![44u8]
            + dec_digits(d.last() as nat));
    } else {
        lemma_items_snoc(d.skip(1));
        assert(d.skip(1).drop_last() =~= d.drop_last().skip(1));
        assert(d.skip(1).last() == d.last());
        assert(d.drop_last().len() >= 2);
        assert(d.drop_last()[0] == d[0]);
        assert(spec_encode_items(d) =~= spec_encode_items(d.drop_last()) + seq![44u8]
            + dec_digits(d.last() as nat));
    }
}

fn push_seq_label(dst: &mut Vec<u8>)
    ensures
        final(dst)@ == old(dst)@ + seq_label(),
{
    dst.push(123);
    dst.push(34);
    dst.push(115);
    dst.push(101);
    dst.push(113);
    dst.push(117);
    dst.push(101);
    dst.push(110);
    dst.push(99);
    dst.push(101);
    dst.push(34);
    dst.push(58);
    assert(dst@ =~= old(dst)@ + seq_label());
}

fn push_data_label(dst: &mut Vec<u8>)
    ensures
        final(dst)@ == old(dst)@ + data_label(),
{
    dst.push(44);
    dst.push(34);
    dst.push(100);
    dst.push(97);
    dst.push(116);
    dst.push(97);
    dst.push(34);
    dst.push(58);
    dst.push(91);
    assert(dst@ =~= old(dst)@ + data_label());
}

fn ack_name_vec() -> (r: Vec<u8>)
    ensures
        r@ == ack_name(),
{
    let mut r: Vec<u8> = Vec::new();
    r.push(108);
    r.push(97);
    r.push(115);
    r.push(116);
    r.push(95);
    r.push(99);
    r.push(111);
    r.push(109);
    r.push(109);
    r.push(97);
    r.push(110);
    r.push(100);
    r.push(95);
    r.push(115);
    r.push(101);
    r.push(113);
    r.push(117);
    r.push(101);
    r.push(110);
    r.push(99);
    r.push(101);
    r.push(95);
    r.push(110);
    r.push(117);
    r.push(109);
    r.push(98);
    r.push(101);
    r.push(114);
    assert(r@ =~= ack_name());
    r
}

fn seq_label_vec() -> (r: Vec<u8>)
    ensures
        r@ == seq_label(),
{
    let mut r: Vec<u8> = Vec::new();
    push_seq_label(&mut r);
    assert(r@ =~= seq_label());
    r
}

fn data_label_vec() -> (r: Vec<u8>)
    ensures
        r@ == data_label(),
{
    let mut r: Vec<u8> = Vec::new();
    push_data_label(&mut r);
    assert(r@ =~= data_label());
    r
}

fn push_dec(dst: &mut Vec<u8>, n: u32)
    ensures
        final(dst)@ == old(dst)@ + dec_digits(n as nat),
    decreases n,
{
    if n < 10 {
        dst.push(48 + n as u8);
        assert(dst@ =~= old(dst)@ + dec_digits(n as nat));
    } else {
        push_dec(dst, n / 10);
        dst.push(48 + (n % 10) as u8);
        assert(dst@ =~= old(dst)@ + dec_digits(n as nat));
    }
}

/// How many digits stand at and after position `i`.
fn run_digits(s: &Vec<u8>, i: usize) -> (k: usize)
    requires
        i <= s@.len(),
    ensures
        k == digit_run(s@.skip(i as int)),
        i + k <= s@.len(),
        forall|t: int| i <= t < i + k ==> is_digit(#[trigger] s@[t]),
{
    let mut j = i;
    while j < s.len() && s[j] >= 48 && s[j] <= 57
        invariant
            i <= j <= s@.len(),
            forall|t: int| i <= t < j ==> is_digit(#[trigger] s@[t]),
        decreases s@.len() - j,
    {
        j = j + 1;
    }
    proof {
        let u = s@.skip(i as int);
        assert(forall|t: int| 0 <= t < j - i ==> u[t] == s@[i + t]);
        if (j as int) < s@.len() {
            assert(u[j - i] == s@[j as int]);
        }
        lemma_digit_run_exact(u, j - i);
    }
    j - i
}

/// A canonical decimal `u32` read at position `i`, with the count of bytes
/// it spans; mirrors `parse_number` on the bytes from `i` on.
fn parse_dec(s: &Vec<u8>, i: usize) -> (r: Option<(u32, usize)>)
    requires
        i <= s@.len(),
    ensures
        r matches Some(p) ==> (parse_number(s@.skip(i as int)) == Some((p.0, p.1 as int)) && p.1
            >= 1 && i + p.1 <= s@.len()),
        r is None ==> parse_number(s@.skip(i as int)) is None,
{
    let ghost u = s@.skip(i as int);
    let k = run_digits(s, i);
    if k == 0 {
        return None;
    }
    if k > 1 && s[i] == 48 {
        proof {
            assert(u[0] == s@[i as int]);
        }
        return None;
    }
    let slen = s.len();
    let end = i + k;
    let mut v: u64 = 0;
    let mut t = i;
    while t < end
        invariant
            end == i + k,
            i <= t <= i + k,
            i + k <= s@.len(),
            s@.len() <= usize::MAX,
            u == s@.skip(i as int),
            k == digit_run(u),
            forall|q: int| i <= q < i + k ==> is_digit(#[trigger] s@[q]),
            v == dec_value(s@.subrange(i as int, t as int)),
            v <= u32::MAX,
        decreases i + k - t,
    {
        let d = s[t] - 48;
        let nv = v * 10 + d as u64;
        proof {
            assert(s@.subrange(i as int, t + 1).drop_last() =~= s@.subrange(i as int, t as int));
            assert(s@.subrange(i as int, t + 1).last() == s@[t as int]);
            assert(nv == dec_value(s@.subrange(i as int, t + 1)));
        }
        if nv > 0xFFFF_FFFFu64 {
            proof {
                let full = u.take(k as int);
                assert(full =~= s@.subrange(i as int, i + k));
                assert(forall|q: int| 0 <= q < full.len() ==> is_digit(#[trigger] full[q]));
                lemma_dec_value_prefix_mono(full, t + 1 - i);
                assert(full.take(t + 1 - i) =~= s@.subrange(i as int, t + 1));
                assert(dec_value(full) > u32::MAX);
            }
            return None;
        }
        v = nv;
        t = t + 1;
    }
    proof {
        assert(u.take(k as int) =~= s@.subrange(i as int, i + k));
        assert(u[0] == s@[i as int]);
    }
    Some((v as u32, k))
}

/// Whether the bytes of `pat` stand in `s` at position `i`.
fn match_at(s: &Vec<u8>, i: usize, pat: &Vec<u8>) -> (b: bool)
    ensures
        b == (i + pat@.len() <= s@.len() && s@.subrange(i as int, i + pat@.len()) == pat@),
{
    if i > s.len() || pat.len() > s.len() - i {
        return false;
    }
    let end = i + pat.len();
    let mut t: usize = 0;
    while t < pat.len()
        invariant
            end == i + pat@.len(),
            t <= pat@.len(),
            i + pat@.len() <= s@.len(),
            s@.len() <= usize::MAX,
            forall|q: int| 0 <= q < t ==> s@[i + q] == pat@[q],
        decreases pat@.len() - t,
    {
        if s[i + t] != pat[t] {
            proof {
                let sub = s@.subrange(i as int, i + pat@.len());
                assert(sub[t as int] == s@[i + t]);
            }
            return false;
        }
        t = t + 1;
    }
    proof {
        assert(s@.subrange(i as int, i + pat@.len()) =~= pat@);
    }
    true
}

/// The comma-separated words at position `i`, which must close the frame
/// with `]}`; mirrors `spec_decode_items` on the bytes from `i` on.
fn parse_items(s: &Vec<u8>, i: usize) -> (r: Option<Vec<u32>>)
    requires
        i <= s@.len(),
    ensures
        (match spec_decode_items(s@.skip(i as int)) {
            Option::Some(d) => r matches Some(v) && v@ == d,
            Option::None => r is None,
        }),
    decreases s@.len() - i,
{
    let slen = s.len();
    let ghost u = s@.skip(i as int);
    match parse_dec(s, i) {
        None => None,
        Some((v, k)) => {
            let j = i + k;
            proof {
                assert(u.skip(k as int) =~= s@.skip(j as int));
            }
            if slen >= 2 && j == slen - 2 && s[j] == 93 && s[j + 1] == 125 {
                proof {
                    assert(s@.skip(j as int) =~= frame_close());
                }
                let mut out: Vec<u32> = Vec::new();
                out.push(v);
                proof {
                    assert(out@ =~= seq![v]);
                }
                Some(out)
            } else if j < s.len() && s[j] == 44 {
                proof {
                    let rr = s@.skip(j as int);
                    assert(rr[0] == s@[j as int]);
                    assert(!(rr =~= frame_close())) by {
                        if rr =~= frame_close() {
                            assert(rr[0] == 93u8);
                        }
                    }
                    assert(rr.skip(1) =~= s@.skip(j + 1));
                }
                match parse_items(s, j + 1) {
                    None => None,
                    Some(rest) => {
                        let mut rest = rest;
                        rest.insert(0, v);
                        proof {
                            let rr = s@.skip(j as int);
                            let dec = spec_decode_items(rr.skip(1));
                            if dec is Some {
                                assert(rest@ =~= seq![v] + dec.unwrap());
                            }
                        }
                        Some(rest)
                    },
                }
            } else {
                proof {
                    let rr = s@.skip(j as int);
                    assert(!(rr =~= frame_close())) by {
                        if rr =~= frame_close() {
                            assert(rr.len() == 2);
                            assert(rr[0] == 93u8 && rr[1] == 125u8);
                            assert(s@[j as int] == 93u8 && s@[j + 1] == 125u8);
                        }
                    }
                    if rr.len() > 0 {
                        assert(rr[0] == s@[j as int]);
                    }
                }
                None
            }
        },
    }
}


/// The first position at or after `i` that holds no whitespace.
fn ws_from(s: &Vec<u8>, i: usize) -> (r: usize)
    requires
        i <= s@.len(),
    ensures
        r == spec_ws(s@, i as int),
        i <= r <= s@.len(),
{
    let slen = s.len();
    let mut j = i;
    while j < slen && (s[j] == 32 || s[j] == 9 || s[j] == 10 || s[j] == 13)
        invariant
            i <= j <= slen,
            slen == s@.len(),
            spec_ws(s@, i as int) == spec_ws(s@, j as int),
        decreases slen - j,
    {
        j = j + 1;
    }
    proof {
        if (j as int) < s@.len() {
            assert(!is_ws(s@[j as int]));
        }
        assert(spec_ws(s@, j as int) == j);
    }
    j
}

/// Scan a JSON string from just past its opening quote to just past its
/// closing one.
fn string_tail(s: &Vec<u8>, start: usize) -> (r: Option<usize>)
    requires
        start <= s@.len(),
    ensures
        r matches Some(j) ==> (spec_string_tail(s@, start as int) == Some(j as int) && start < j
            <= s@.len()),
        r is None ==> spec_string_tail(s@, start as int) is None,
{
    let slen = s.len();
    let mut i = start;
    loop
        invariant
            start <= i <= slen,
            slen == s@.len(),
            spec_string_tail(s@, start as int) == spec_string_tail(s@, i as int),
        decreases slen - i,
    {
        if i >= slen {
            return None;
        }
        let b = s[i];
        if b == 34 {
            return Some(i + 1);
        }
        if b == 92 {
            if i + 1 >= slen {
                return None;
            }
            let e = s[i + 1];
            if e == 34 || e == 92 || e == 47 || e == 98 || e == 102 || e == 110 || e == 114 || e
                == 116 {
                i = i + 2;
            } else if e == 117 {
                if slen - i < 6 {
                    return None;
                }
                if hex_digit(s[i + 2]) && hex_digit(s[i + 3]) && hex_digit(s[i + 4]) && hex_digit(
                    s[i + 5],
                ) {
                    i = i + 6;
                } else {
                    return None;
                }
            } else {
                return None;
            }
        } else if b < 32 {
            return None;
        } else {
            i = i + 1;
        }
    }
}

fn hex_digit(b: u8) -> (r: bool)
    ensures
        r == is_hex(b),
{
    (48 <= b && b <= 57) || (97 <= b && b <= 102) || (65 <= b && b <= 70)
}

/// The position after a JSON number's exponent part, if one stands at `i`.
fn exp_end(s: &Vec<u8>, i: usize) -> (r: Option<usize>)
    requires
        i <= s@.len(),
    ensures
        r matches Some(j) ==> (spec_exp_end(s@, i as int) == Some(j as int) && i <= j
            <= s@.len()),
        r is None ==> spec_exp_end(s@, i as int) is None,
{
    let slen = s.len();
    if i < slen && (s[i] == 101 || s[i] == 69) {
        let j = if i + 1 < slen && (s[i + 1] == 43 || s[i + 1] == 45) {
            i + 2
        } else {
            i + 1
        };
        let k = run_digits(s, j);
        if k == 0 {
            None
        } else {
            Some(j + k)
        }
    } else {
        Some(i)
    }
}

/// The position after a whole JSON number standing at `i`.
fn number_end(s: &Vec<u8>, i: usize) -> (r: Option<usize>)
    requires
        i <= s@.len(),
    ensures
        r matches Some(j) ==> (spec_number_end(s@, i as int) == Some(j as int) && i <= j
            <= s@.len()),
        r is None ==> spec_number_end(s@, i as int) is None,
{
    let slen = s.len();
    if i >= slen {
        return None;
    }
    let j0 = if s[i] == 45 {
        i + 1
    } else {
        i
    };
    let k = run_digits(s, j0);
    if k == 0 {
        return None;
    }
    if k > 1 && s[j0] == 48 {
        return None;
    }
    let j1 = j0 + k;
    if j1 < slen && s[j1] == 46 {
        let kf = run_digits(s, j1 + 1);
        if kf == 0 {
            return None;
        }
        exp_end(s, j1 + 1 + kf)
    } else {
        exp_end(s, j1)
    }
}

/// The position after any JSON value standing at `i`.
fn value_end(s: &Vec<u8>, i: usize) -> (r: Option<usize>)
    requires
        i <= s@.len(),
    ensures
        r matches Some(j) ==> (spec_value_end(s@, i as int) == Some(j as int) && i < j
            <= s@.len()),
        r is None ==> spec_value_end(s@, i as int) is None,
    decreases s@.len() - i, 1int,
{
    let slen = s.len();
    if i >= slen {
        return None;
    }
    let b = s[i];
    if b == 34 {
        string_tail(s, i + 1)
    } else if b == 123 {
        object_end(s, i)
    } else if b == 91 {
        array_end(s, i)
    } else if b == 116 {
        if slen - i >= 4 && s[i + 1] == 114 && s[i + 2] == 117 && s[i + 3] == 101 {
            Some(i + 4)
        } else {
            None
        }
    } else if b == 102 {
        if slen - i >= 5 && s[i + 1] == 97 && s[i + 2] == 108 && s[i + 3] == 115 && s[i + 4]
            == 101 {
            Some(i + 5)
        } else {
            None
        }
    } else if b == 110 {
        if slen - i >= 4 && s[i + 1] == 117 && s[i + 2] == 108 && s[i + 3] == 108 {
            Some(i + 4)
        } else {
            None
        }
    } else if b == 45 || (48 <= b && b <= 57) {
        number_end(s, i)
    } else {
        None
    }
}

/// The position after a whole skipped JSON object standing at `i`.
fn object_end(s: &Vec<u8>, i: usize) -> (r: Option<usize>)
    requires
        i <= s@.len(),
    ensures
        r matches Some(j) ==> (spec_object_end(s@, i as int) == Some(j as int) && i < j
            <= s@.len()),
        r is None ==> spec_object_end(s@, i as int) is None,
    decreases s@.len() - i, 0int,
{
    let slen = s.len();
    if i >= slen || s[i] != 123 {
        return None;
    }
    let j = ws_from(s, i + 1);
    if j < slen && s[j] == 125 {
        return Some(j + 1);
    }
    object_tail(s, j)
}

/// The position after a skipped object's remaining fields and its closing
/// brace, entered at a key.
fn object_tail(s: &Vec<u8>, i: usize) -> (r: Option<usize>)
    requires
        i <= s@.len(),
    ensures
        r matches Some(j) ==> (spec_object_tail(s@, i as int) == Some(j as int) && i < j
            <= s@.len()),
        r is None ==> spec_object_tail(s@, i as int) is None,
    decreases s@.len() - i, 2int,
{
    let slen = s.len();
    if i >= slen || s[i] != 34 {
        return None;
    }
    let e = match string_tail(s, i + 1) {
        None => {
            return None;
        },
        Some(e) => e,
    };
    let jc = ws_from(s, e);
    if jc >= slen || s[jc] != 58 {
        return None;
    }
    let jv = ws_from(s, jc + 1);
    let j = match value_end(s, jv) {
        None => {
            return None;
        },
        Some(j) => j,
    };
    let ja = ws_from(s, j);
    if ja >= slen {
        return None;
    }
    if s[ja] == 125 {
        return Some(ja + 1);
    }
    if s[ja] == 44 {
        let jn = ws_from(s, ja + 1);
        return object_tail(s, jn);
    }
    None
}

/// The position after a whole skipped JSON array standing at `i`.
fn array_end(s: &Vec<u8>, i: usize) -> (r: Option<usize>)
    requires
        i <= s@.len(),
    ensures
        r matches Some(j) ==> (spec_array_end(s@, i as int) == Some(j as int) && i < j
            <= s@.len()),
        r is None ==> spec_array_end(s@, i as int) is None,
    decreases s@.len() - i, 0int,
{
    let slen = s.len();
    if i >= slen || s[i] != 91 {
        return None;
    }
    let j = ws_from(s, i + 1);
    if j < slen && s[j] == 93 {
        return Some(j + 1);
    }
    array_tail(s, j)
}

/// The position after a skipped array's remaining items and its closing
/// bracket, entered at an item.
fn array_tail(s: &Vec<u8>, i: usize) -> (r: Option<usize>)
    requires
        i <= s@.len(),
    ensures
        r matches Some(j) ==> (spec_array_tail(s@, i as int) == Some(j as int) && i < j
            <= s@.len()),
        r is None ==> spec_array_tail(s@, i as int) is None,
    decreases s@.len() - i, 2int,
{
    let slen = s.len();
    let j = match value_end(s, i) {
        None => {
            return None;
        },
        Some(j) => j,
    };
    let ja = ws_from(s, j);
    if ja >= slen {
        return None;
    }
    if s[ja] == 93 {
        return Some(ja + 1);
    }
    if s[ja] == 44 {
        let jn = ws_from(s, ja + 1);
        return array_tail(s, jn);
    }
    None
}

/// Walk the top-level object's fields from a key at `i`, reading the
/// acknowledgement field and skipping the rest; mirrors `spec_fields`.
fn fields_ack(s: &Vec<u8>, i: usize, acc: Option<u32>) -> (r: Option<(usize, Option<u32>)>)
    requires
        i <= s@.len(),
    ensures
        r matches Some(p) ==> (spec_fields(s@, i as int, acc) == Some(((p.0 as int), p.1)) && p.0
            <= s@.len()),
        r is None ==> spec_fields(s@, i as int, acc) is None,
    decreases s@.len() - i,
{
    let slen = s.len();
    if i >= slen || s[i] != 34 {
        return None;
    }
    let e = match string_tail(s, i + 1) {
        None => {
            return None;
        },
        Some(e) => e,
    };
    let name = ack_name_vec();
    let is_ack = e - i == 30 && match_at(s, i + 1, &name);
    let jc = ws_from(s, e);
    if jc >= slen || s[jc] != 58 {
        return None;
    }
    let jv = ws_from(s, jc + 1);
    let step: Option<(usize, Option<u32>)> = if is_ack {
        if acc.is_some() {
            None
        } else {
            match parse_dec(s, jv) {
                None => None,
                Some((v, k)) => Some((jv + k, Some(v))),
            }
        }
    } else {
        match value_end(s, jv) {
            None => None,
            Some(j) => Some((j, acc)),
        }
    };
    let (j, acc2) = match step {
        None => {
            return None;
        },
        Some(p) => p,
    };
    let ja = ws_from(s, j);
    if ja >= slen {
        return None;
    }
    if s[ja] == 125 {
        return Some((ja + 1, acc2));
    }
    if s[ja] == 44 {
        let jn = ws_from(s, ja + 1);
        return fields_ack(s, jn, acc2);
    }
    None
}

/// The frame codec. Outbound frames are encoded into and decoded from plain
/// byte vectors; the runner's transport hands those bytes to the socket.
pub struct Codec;

impl Codec {
    /// Append the frame for `item` to `dst`: exactly
    /// `{"sequence":S,"data":[W,…]}`.
    pub fn encode(&self, item: &Command, dst: &mut Vec<u8>)
        ensures
            final(dst)@ == old(dst)@ + spec_encode_command(item.sequence, item.data@),
    {
        let ghost base = dst@;
        push_seq_label(dst);
        push_dec(dst, item.sequence);
        push_data_label(dst);
        let ghost mid = base + seq_label() + dec_digits(item.sequence as nat) + data_label();
        assert(dst@ =~= mid);
        let n = item.data.len();
        let mut i: usize = 0;
        while i < n
            invariant
                i <= n,
                n == item.data@.len(),
                mid == base + seq_label() + dec_digits(item.sequence as nat) + data_label(),
                dst@ == mid + spec_encode_items(item.data@.take(i as int)),
            decreases n - i,
        {
            let ghost before = dst@;
            if i > 0 {
                dst.push(44);
            }
            push_dec(dst, item.data[i]);
            proof {
                let d = item.data@;
                if i == 0 {
                    assert(d.take(1) =~= seq![d[0]]);
                    assert(spec_encode_items(d.take(1)) == dec_digits(d[0] as nat));
                    assert(dst@ =~= mid + spec_encode_items(d.take(1)));
                } else {
                    lemma_items_snoc(d.take(i + 1));
                    assert(d.take(i + 1).drop_last() =~= d.take(i as int));
                    assert(d.take(i + 1).last() == d[i as int]);
                    assert(dst@ =~= mid + spec_encode_items(d.take(i + 1)));
                }
            }
            i = i + 1;
        }
        proof {
            assert(item.data@.take(n as int) =~= item.data@);
        }
        dst.push(93);
        dst.push(125);
        assert(dst@ =~= base + spec_encode_command(item.sequence, item.data@));
    }

    /// Read one whole outbound frame back; `None` unless the bytes are
    /// exactly one canonical frame.
    pub fn decode_command(&self, src: &Vec<u8>) -> (r: Option<Command>)
        ensures
            (match spec_decode_command(src@) {
                Option::Some(p) => r matches Some(c) && c.sequence == p.0 && c.data@ == p.1,
                Option::None => r is None,
            }),
    {
        let slen = src.len();
        let lab = seq_label_vec();
        if !match_at(src, 0, &lab) {
            proof {
                if src@.len() >= 12 {
                    assert(src@.take(12) =~= src@.subrange(0, 12));
                }
            }
            return None;
        }
        proof {
            assert(src@.take(12) =~= src@.subrange(0, 12));
        }
        match parse_dec(src, 12) {
            None => None,
            Some((sequence, k)) => {
                let j = 12 + k;
                proof {
                    assert(src@.skip(12).skip(k as int) =~= src@.skip(j as int));
                }
                let dlab = data_label_vec();
                if !match_at(src, j, &dlab) {
                    proof {
                        if j + 9 <= src@.len() {
                            assert(src@.skip(j as int).take(9) =~= src@.subrange(
                                j as int,
                                j + 9,
                            ));
                        } else {
                            assert(src@.skip(j as int).len() < 9);
                        }
                    }
                    return None;
                }
                proof {
                    assert(src@.skip(j as int).take(9) =~= src@.subrange(j as int, j + 9));
                }
                let j2 = j + 9;
                proof {
                    assert(src@.skip(j as int).skip(9) =~= src@.skip(j2 as int));
                }
                if slen >= 2 && j2 == slen - 2 && src[j2] == 93 && src[j2 + 1] == 125 {
                    proof {
                        assert(src@.skip(j2 as int) =~= frame_close());
                    }
                    Some(Command { data: Vec::new(), sequence })
                } else {
                    proof {
                        let r3 = src@.skip(j2 as int);
                        assert(!(r3 =~= frame_close())) by {
                            if r3 =~= frame_close() {
                                assert(r3.len() == 2);
                                assert(r3[0] == 93u8 && r3[1] == 125u8);
                                assert(src@[j2 as int] == 93u8 && src@[j2 + 1] == 125u8);
                            }
                        }
                    }
                    match parse_items(src, j2) {
                        None => None,
                        Some(items) => Some(Command { data: items, sequence }),
                    }
                }
            },
        }
    }

    /// Read one status frame. An empty datagram carries no frame; any other
    /// bytes must be one JSON object of the subset `spec_decode_status`
    /// reads, carrying the acknowledgement field, or the result is a decode
    /// error.
    pub fn decode(&self, src: &Vec<u8>) -> (r: Result<Option<Status>, Error>)
        ensures
            src@.len() == 0 ==> (r matches Ok(f) && f is None),
            src@.len() > 0 ==> (match spec_decode_status(src@) {
                Option::Some(n) => r matches Ok(f) && f matches Some(st)
                    && st.last_command_sequence_number == n,
                Option::None => r matches Err(e) && e is JsonError,
            }),
    {
        if src.len() == 0 {
            return Ok(None);
        }
        let slen = src.len();
        let i0 = ws_from(src, 0);
        if i0 >= slen || src[i0] != 123 {
            return Err(Error::JsonError("status frame is not a JSON object".to_owned()));
        }
        let j = ws_from(src, i0 + 1);
        if j < slen && src[j] == 125 {
            return Err(Error::JsonError("status frame carries no acknowledgement".to_owned()));
        }
        match fields_ack(src, j, None) {
            None => Err(Error::JsonError("status frame did not parse".to_owned())),
            Some((e, acc)) => {
                if ws_from(src, e) != slen {
                    return Err(Error::JsonError("status frame has trailing bytes".to_owned()));
                }
                match acc {
                    Some(n) => Ok(Some(Status { last_command_sequence_number: n })),
                    None => Err(
                        Error::JsonError("status frame carries no acknowledgement".to_owned()),
                    ),
                }
            },
        }
    }
}

} // verus!
