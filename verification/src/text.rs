//! Small text builders for refusal messages: decimal numbers, bracketed
//! number lists, and the truncated echo of untrusted strings.

use vstd::prelude::*;
use vstd::string::*;
use vstd::utf8::*;

verus! {

/// The character of one decimal digit.
pub open spec fn digit_char(d: int) -> char {
    if d == 0 {
        '0'
    } else if d == 1 {
        '1'
    } else if d == 2 {
        '2'
    } else if d == 3 {
        '3'
    } else if d == 4 {
        '4'
    } else if d == 5 {
        '5'
    } else if d == 6 {
        '6'
    } else if d == 7 {
        '7'
    } else if d == 8 {
        '8'
    } else {
        '9'
    }
}

/// The decimal spelling of `n`, most significant digit first, no padding.
pub open spec fn dec(n: nat) -> Seq<char>
    decreases n,
{
    if n < 10 {
        seq![digit_char(n as int)]
    } else {
        dec(n / 10) + seq![digit_char((n % 10) as int)]
    }
}

/// `[a, b, c]`: the items in decimal, comma-space separated.
pub open spec fn dec_list(items: Seq<nat>) -> Seq<char> {
    seq!['['] + dec_join(items) + seq![']']
}

pub open spec fn dec_join(items: Seq<nat>) -> Seq<char>
    decreases items.len(),
{
    if items.len() == 0 {
        Seq::empty()
    } else if items.len() == 1 {
        dec(items[0])
    } else {
        dec_join(items.drop_last()) + seq![',', ' '] + dec(items.last())
    }
}

/// At most 64 characters of `s`, with `...` appended when it was longer.
pub open spec fn echo_text(s: Seq<char>) -> Seq<char> {
    if s.len() > 64 {
        s.take(64) + seq!['.', '.', '.']
    } else {
        s
    }
}

fn digit_str(d: u64) -> (s: &'static str)
    requires
        d < 10,
    ensures
        s@ == seq![digit_char(d as int)],
{
    proof {
        reveal_strlit("0");
        reveal_strlit("1");
        reveal_strlit("2");
        reveal_strlit("3");
        reveal_strlit("4");
        reveal_strlit("5");
        reveal_strlit("6");
        reveal_strlit("7");
        reveal_strlit("8");
        reveal_strlit("9");
    }
    if d == 0 {
        "0"
    } else if d == 1 {
        "1"
    } else if d == 2 {
        "2"
    } else if d == 3 {
        "3"
    } else if d == 4 {
        "4"
    } else if d == 5 {
        "5"
    } else if d == 6 {
        "6"
    } else if d == 7 {
        "7"
    } else if d == 8 {
        "8"
    } else {
        "9"
    }
}

/// Append the decimal spelling of `n`.
pub fn push_dec(out: &mut String, n: u64)
    ensures
        final(out)@ == old(out)@ + dec(n as nat),
    decreases n,
{
    if n >= 10 {
        push_dec(out, n / 10);
    }
    out.append(digit_str(n % 10));
}

/// Append `s`.
pub fn push_str(out: &mut String, s: &str)
    ensures
        final(out)@ == old(out)@ + s@,
{
    out.append(s);
}

/// Append `[a, b, c]` for the given numbers.
pub fn push_dec_list(out: &mut String, items: &[u64])
    ensures
        final(out)@ == old(out)@ + dec_list(items@.map_values(|x: u64| x as nat)),
{
    let ghost start = out@;
    let ghost nats = items@.map_values(|x: u64| x as nat);
    proof {
        reveal_strlit("[");
        reveal_strlit("]");
        reveal_strlit(", ");
    }
    out.append("[");
    let mut i: usize = 0;
    while i < items.len()
        invariant
            i <= items.len(),
            nats == items@.map_values(|x: u64| x as nat),
            out@ == start + seq!['['] + dec_join(nats.take(i as int)),
        decreases items.len() - i,
    {
        let ghost before = out@;
        proof {
            reveal_strlit(", ");
        }
        if i > 0 {
            out.append(", ");
        }
        push_dec(out, items[i]);
        proof {
            let t = nats.take(i + 1);
            assert(t.drop_last() =~= nats.take(i as int));
            assert(t.last() == items@[i as int] as nat);
            if i == 0 {
                assert(t =~= seq![nats[0]]);
                assert(out@ =~= start + seq!['['] + dec_join(t));
            } else {
                assert(out@ =~= before + seq![',', ' '] + dec(t.last()));
                assert(out@ =~= start + seq!['['] + dec_join(t));
            }
        }
        i = i + 1;
    }
    out.append("]");
    proof {
        assert(nats.take(items.len() as int) =~= nats);
        assert(out@ =~= start + dec_list(nats));
    }
}

/// A fresh string holding `s`.
pub fn text(s: &str) -> (r: String)
    ensures
        r@ == s@,
{
    String::from_str(s)
}

/// An untrusted string cut to 64 characters for an error message, with
/// `...` marking the cut.
pub fn echo(s: &str) -> (r: String)
    ensures
        r@ == echo_text(s@),
{
    proof {
        reveal_strlit("...");
    }
    if s.unicode_len() > 64 {
        let mut out = String::from_str(s.substring_char(0, 64));
        out.append("...");
        out
    } else {
        String::from_str(s)
    }
}

/// Whether two strings hold the same characters, compared byte by byte.
pub fn str_eq(a: &str, b: &str) -> (r: bool)
    ensures
        r == (a@ == b@),
{
    let x = a.as_bytes();
    let y = b.as_bytes();
    proof {
        encode_utf8_decode_utf8(a@);
        encode_utf8_decode_utf8(b@);
    }
    if x.len() != y.len() {
        return false;
    }
    let mut i: usize = 0;
    while i < x.len()
        invariant
            x@.len() == y@.len(),
            x@ == encode_utf8(a@),
            y@ == encode_utf8(b@),
            i <= x@.len(),
            forall|j: int| 0 <= j < i ==> x@[j] == y@[j],
        decreases x.len() - i,
    {
        if x[i] != y[i] {
            proof {
                assert(x@[i as int] != y@[i as int]);
            }
            return false;
        }
        i = i + 1;
    }
    proof {
        assert(x@ =~= y@);
    }
    true
}

/// `bytes` as a string when they are valid UTF-8 (std's `String::from_utf8`).
#[verifier::external_body]
pub(crate) fn utf8_string(bytes: &[u8]) -> (r: Option<String>)
    ensures
        r is Some <==> valid_utf8(bytes@),
        r matches Some(s) ==> s@ == decode_utf8(bytes@),
{
    String::from_utf8(bytes.to_vec()).ok()
}

/// A decimal digit character.
pub open spec fn is_digit(c: char) -> bool {
    '0' <= c && c <= '9'
}

/// A decimal spelling is a non-empty run of digits.
pub proof fn lemma_dec_digits(n: nat)
    ensures
        dec(n).len() >= 1,
        forall|k: int| 0 <= k < dec(n).len() ==> is_digit(#[trigger] dec(n)[k]),
    decreases n,
{
    if n >= 10 {
        lemma_dec_digits(n / 10);
    }
}

/// Distinct numbers have distinct decimal spellings.
pub proof fn lemma_dec_injective(a: nat, b: nat)
    requires
        dec(a) == dec(b),
    ensures
        a == b,
    decreases a,
{
    lemma_dec_digits(a / 10);
    lemma_dec_digits(b / 10);
    if a >= 10 && b >= 10 {
        let da = dec(a);
        let db = dec(b);
        assert(da.drop_last() =~= dec(a / 10));
        assert(db.drop_last() =~= dec(b / 10));
        assert(da.last() == db.last());
        assert(digit_char((a % 10) as int) == digit_char((b % 10) as int));
        assert(a % 10 == b % 10);
        lemma_dec_injective(a / 10, b / 10);
        assert(a == 10 * (a / 10) + a % 10);
        assert(b == 10 * (b / 10) + b % 10);
    } else if a < 10 && b >= 10 {
        assert(dec(b).len() >= 2);
    } else if a >= 10 && b < 10 {
        assert(dec(a).len() >= 2);
    } else {
        assert(dec(a) == seq![digit_char(a as int)]);
        assert(dec(b) == seq![digit_char(b as int)]);
        assert(seq![digit_char(a as int)][0] == digit_char(a as int));
        assert(seq![digit_char(b as int)][0] == digit_char(b as int));
    }
}

/// The character of hex digit `d`, in upper or lower case.
pub open spec fn hex_char(d: int, upper: bool) -> char {
    if d < 10 {
        digit_char(d)
    } else if d == 10 {
        if upper { 'A' } else { 'a' }
    } else if d == 11 {
        if upper { 'B' } else { 'b' }
    } else if d == 12 {
        if upper { 'C' } else { 'c' }
    } else if d == 13 {
        if upper { 'D' } else { 'd' }
    } else if d == 14 {
        if upper { 'E' } else { 'e' }
    } else {
        if upper { 'F' } else { 'f' }
    }
}

/// Two hex digits for a byte, as `{:02x}` / `{:02X}` print it.
pub open spec fn hex2(b: u8, upper: bool) -> Seq<char> {
    seq![hex_char((b / 16) as int, upper), hex_char((b % 16) as int, upper)]
}

fn hex_digit_str(d: u8, upper: bool) -> (s: &'static str)
    requires
        d < 16,
    ensures
        s@ == seq![hex_char(d as int, upper)],
{
    proof {
        reveal_strlit("a");
        reveal_strlit("b");
        reveal_strlit("c");
        reveal_strlit("d");
        reveal_strlit("e");
        reveal_strlit("f");
        reveal_strlit("A");
        reveal_strlit("B");
        reveal_strlit("C");
        reveal_strlit("D");
        reveal_strlit("E");
        reveal_strlit("F");
    }
    if d < 10 {
        digit_str(d as u64)
    } else if d == 10 {
        if upper { "A" } else { "a" }
    } else if d == 11 {
        if upper { "B" } else { "b" }
    } else if d == 12 {
        if upper { "C" } else { "c" }
    } else if d == 13 {
        if upper { "D" } else { "d" }
    } else if d == 14 {
        if upper { "E" } else { "e" }
    } else {
        if upper { "F" } else { "f" }
    }
}

/// Append a byte as two hex digits.
pub fn push_hex2(out: &mut String, b: u8, upper: bool)
    ensures
        final(out)@ == old(out)@ + hex2(b, upper),
{
    out.append(hex_digit_str(b / 16, upper));
    out.append(hex_digit_str(b % 16, upper));
    proof {
        assert(final(out)@ =~= old(out)@ + hex2(b, upper));
    }
}

/// Append the character with code point `code` (below U+0800, so one or
/// two UTF-8 bytes).
pub fn push_code_char(out: &mut String, code: u32)
    requires
        code < 0x800,
    ensures
        final(out)@ == old(out)@ + seq![code as char],
{
    let mut bytes: Vec<u8> = Vec::new();
    if code < 0x80 {
        bytes.push((code & 0x7F) as u8);
    } else {
        bytes.push(0xC0 | ((code >> 6) & 0x1F) as u8);
        bytes.push(0x80 | (code & 0x3F) as u8);
    }
    let ghost c = code as char;
    proof {
        assert((code as char) as u32 == code);
        assert(bytes@ =~= encode_scalar(code));
        assert(seq![c].drop_first() =~= Seq::<char>::empty());
        assert(seq![c][0] == c);
        assert(encode_utf8(Seq::<char>::empty()) =~= Seq::<u8>::empty());
        assert(encode_utf8(seq![c]) == encode_scalar(seq![c][0] as u32) + encode_utf8(
            seq![c].drop_first(),
        ));
        assert(encode_utf8(seq![c]) =~= encode_scalar(code));
        encode_utf8_valid_utf8(seq![c]);
        encode_utf8_decode_utf8(seq![c]);
    }
    match utf8_string(bytes.as_slice()) {
        Some(s) => out.append(s.as_str()),
        None => {},
    }
}

/// At most the first 64 characters of `s`, with no mark of the cut.
pub open spec fn head_text(s: Seq<char>) -> Seq<char> {
    if s.len() > 64 {
        s.take(64)
    } else {
        s
    }
}

/// The first 64 characters of `s` (all of it when shorter).
pub fn head(s: &str) -> (r: String)
    ensures
        r@ == head_text(s@),
{
    if s.unicode_len() > 64 {
        String::from_str(s.substring_char(0, 64))
    } else {
        String::from_str(s)
    }
}

} // verus!
