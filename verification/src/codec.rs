//! The persisted textual form of the directory: one line per entry,
//! `key=start_end` with decimal offsets, entries in sequence order, each
//! line terminated by a newline.  An empty text is an empty directory.
//!
//! Keys may not hold the separators `=`, `_` or newline, and the parser
//! rejects any line that is not of that exact shape instead of panicking on
//! a corrupted file.

use vstd::prelude::*;
use vstd::string::StrSliceExecFns;
use vstd::utf8::{
    decode_utf8, encode_scalar, encode_utf8, has_width_1_encoding, has_width_2_encoding,
    has_width_3_encoding, last_continuation_byte, leading_byte_width_2, leading_byte_width_3,
    leading_byte_width_4, second_last_continuation_byte, third_last_continuation_byte, valid_utf8,
};

use crate::errors::DbError;
use crate::index::{valid_key, views_of, EntryView, Index, IndexEntry, check_key};

verus! {

broadcast use vstd::utf8::encode_utf8_valid_utf8, vstd::utf8::encode_utf8_decode_utf8, vstd::utf8::valid_utf8_concat;

/// The decimal digits of `n`, most significant first (ASCII bytes).
pub open spec fn dec_bytes(n: nat) -> Seq<u8>
    decreases n,
{
    if n < 10 {
        seq![(48 + n) as u8]
    } else {
        dec_bytes(n / 10).push((48 + n % 10) as u8)
    }
}

/// An ASCII decimal digit.
pub open spec fn is_digit(b: u8) -> bool {
    48 <= b <= 57
}

/// All bytes are ASCII decimal digits.
pub open spec fn all_digits(s: Seq<u8>) -> bool {
    forall|i: int| 0 <= i < s.len() ==> is_digit(#[trigger] s[i])
}

/// The numeric value of a run of decimal digit bytes.
pub open spec fn digits_val(s: Seq<u8>) -> int
    decreases s.len(),
{
    if s.len() == 0 {
        0
    } else {
        digits_val(s.drop_last()) * 10 + s.last() - 48
    }
}

/// One persisted line: the key's UTF-8 bytes, `=`, the start offset, `_`,
/// the end offset, and a terminating newline.
pub open spec fn line_bytes(e: EntryView) -> Seq<u8> {
    encode_utf8(e.key) + seq![61u8] + dec_bytes(e.start as nat) + seq![95u8] + dec_bytes(
        e.end as nat,
    ) + seq![10u8]
}

/// The persisted directory: the lines of all entries, in order.
pub open spec fn spec_serialize(s: Seq<EntryView>) -> Seq<u8>
    decreases s.len(),
{
    if s.len() == 0 {
        Seq::<u8>::empty()
    } else {
        line_bytes(s[0]) + spec_serialize(s.drop_first())
    }
}

/// The position of the first occurrence of `b`, or `-1` if there is none.
pub open spec fn find_byte(s: Seq<u8>, b: u8) -> int
    decreases s.len(),
{
    if s.len() == 0 {
        -1
    } else if s[0] == b {
        0
    } else {
        let r = find_byte(s.drop_first(), b);
        if r < 0 {
            -1
        } else {
            r + 1
        }
    }
}

/// What one line (without its newline) means: `key=start_end`, with a valid
/// UTF-8, separator-free key and non-empty in-range decimal offsets.
pub open spec fn parse_line(l: Seq<u8>) -> Option<EntryView> {
    let e = find_byte(l, 61);
    if e < 0 {
        None
    } else {
        let keyb = l.take(e);
        let rest = l.skip(e + 1);
        let u = find_byte(rest, 95);
        if u < 0 {
            None
        } else {
            let sb = rest.take(u);
            let eb = rest.skip(u + 1);
            if valid_utf8(keyb) && valid_key(decode_utf8(keyb)) && sb.len() > 0 && eb.len() > 0
                && all_digits(sb) && all_digits(eb) && digits_val(sb) <= usize::MAX as int
                && digits_val(eb) <= usize::MAX as int {
                Some(
                    EntryView {
                        key: decode_utf8(keyb),
                        start: digits_val(sb),
                        end: digits_val(eb),
                    },
                )
            } else {
                None
            }
        }
    }
}

/// What the persisted directory means: an empty text is an empty directory,
/// and otherwise each newline-terminated line parses in turn.
pub open spec fn spec_parse(b: Seq<u8>) -> Option<Seq<EntryView>>
    decreases b.len(),
{
    if b.len() == 0 {
        Some(Seq::<EntryView>::empty())
    } else {
        let nl = find_byte(b, 10);
        if !(0 <= nl < b.len()) {
            None
        } else {
            match parse_line(b.take(nl)) {
                Some(e) => match spec_parse(b.skip(nl + 1)) {
                    Some(rest) => Some(seq![e] + rest),
                    None => None,
                },
                None => None,
            }
        }
    }
}

/// `find_byte` finds exactly the first occurrence.
proof fn lemma_find_byte_at(s: Seq<u8>, b: u8, i: int)
    requires
        0 <= i < s.len(),
        s[i] == b,
        forall|j: int| 0 <= j < i ==> s[j] != b,
    ensures
        find_byte(s, b) == i,
    decreases i,
{
    if i > 0 {
        lemma_find_byte_at(s.drop_first(), b, i - 1);
    }
}

/// `find_byte` reports absence exactly.
proof fn lemma_find_byte_none(s: Seq<u8>, b: u8)
    requires
        forall|j: int| 0 <= j < s.len() ==> s[j] != b,
    ensures
        find_byte(s, b) == -1,
    decreases s.len(),
{
    if s.len() > 0 {
        lemma_find_byte_none(s.drop_first(), b);
    }
}

/// Decimal digit runs are non-empty and hold digits only.
proof fn lemma_dec_bytes_digits(n: nat)
    ensures
        dec_bytes(n).len() >= 1,
        all_digits(dec_bytes(n)),
    decreases n,
{
    if n >= 10 {
        lemma_dec_bytes_digits(n / 10);
    }
}

/// Rendering a number and reading the digits back yields the number.
proof fn lemma_digits_val_dec_bytes(n: nat)
    ensures
        digits_val(dec_bytes(n)) == n,
    decreases n,
{
    if n >= 10 {
        lemma_digits_val_dec_bytes(n / 10);
        let d = (48 + n % 10) as u8;
        assert(dec_bytes(n) == dec_bytes(n / 10).push(d));
        assert(dec_bytes(n).drop_last() =~= dec_bytes(n / 10));
        assert(dec_bytes(n).last() == d);
        assert(d as int == 48 + n % 10);
        assert(digits_val(dec_bytes(n)) == digits_val(dec_bytes(n / 10)) * 10 + n % 10);
        assert(n == (n / 10) * 10 + n % 10) by (nonlinear_arith);
    } else {
        let d = (48 + n) as u8;
        assert(dec_bytes(n) == seq![d]);
        assert(dec_bytes(n).last() == d);
        assert(dec_bytes(n).drop_last() =~= Seq::<u8>::empty());
        assert(digits_val(Seq::<u8>::empty()) == 0);
        assert(digits_val(dec_bytes(n)) == d - 48);
    }
}

/// A digit run's value is non-negative.
proof fn lemma_digits_val_nonneg(s: Seq<u8>)
    requires
        all_digits(s),
    ensures
        0 <= digits_val(s),
    decreases s.len(),
{
    if s.len() > 0 {
        assert(all_digits(s.drop_last()));
        lemma_digits_val_nonneg(s.drop_last());
        assert(is_digit(s.last()));
    }
}

/// The value of a prefix of a digit run never exceeds the value of the
/// whole run.
proof fn lemma_digits_val_take(s: Seq<u8>, i: int)
    requires
        all_digits(s),
        0 <= i <= s.len(),
    ensures
        0 <= digits_val(s.take(i)),
        digits_val(s.take(i)) <= digits_val(s),
    decreases s.len() - i,
{
    assert(all_digits(s.take(i)));
    lemma_digits_val_nonneg(s.take(i));
    if i == s.len() {
        assert(s.take(i) =~= s);
    } else {
        lemma_digits_val_take(s, i + 1);
        assert(s.take(i + 1).drop_last() =~= s.take(i));
        assert(s.take(i + 1).last() == s[i]);
        assert(digits_val(s.take(i + 1)) == digits_val(s.take(i)) * 10 + s[i] - 48);
        assert(is_digit(s[i]));
    }
}

/// No byte of a character's UTF-8 encoding equals a given ASCII byte other
/// than the character itself: a multi-byte encoding holds only bytes with
/// the high bit set.
proof fn lemma_scalar_no_byte(c: char, b: u8)
    requires
        b < 128,
        c as u32 != b as u32,
    ensures
        forall|i: int|
            0 <= i < encode_scalar(c as u32).len() ==> #[trigger] encode_scalar(c as u32)[i] != b,
{
    let s = c as u32;
    if has_width_1_encoding(s) {
        let lb = (s & 0x7F) as u8;
        assert(((s & 0x7F) as u8) as u32 == s) by (bit_vector)
            requires
                s <= 0x7F,
        ;
        assert(encode_scalar(s) == seq![lb]);
        assert(lb != b);
    } else {
        let l2 = 0xC0u8 | ((s >> 6) & 0x1F) as u8;
        let l3 = 0xE0u8 | ((s >> 12) & 0x0F) as u8;
        let l4 = 0xF0u8 | ((s >> 18) & 0x7) as u8;
        let c1 = 0x80u8 | (s & 0x3F) as u8;
        let c2 = 0x80u8 | ((s >> 6) & 0x3F) as u8;
        let c3 = 0x80u8 | ((s >> 12) & 0x3F) as u8;
        assert((0xC0u8 | ((s >> 6) & 0x1F) as u8) >= 0x80) by (bit_vector);
        assert((0xE0u8 | ((s >> 12) & 0x0F) as u8) >= 0x80) by (bit_vector);
        assert((0xF0u8 | ((s >> 18) & 0x7) as u8) >= 0x80) by (bit_vector);
        assert((0x80u8 | (s & 0x3F) as u8) >= 0x80) by (bit_vector);
        assert((0x80u8 | ((s >> 6) & 0x3F) as u8) >= 0x80) by (bit_vector);
        assert((0x80u8 | ((s >> 12) & 0x3F) as u8) >= 0x80) by (bit_vector);
        assert(leading_byte_width_2(s) == l2);
        assert(leading_byte_width_3(s) == l3);
        assert(leading_byte_width_4(s) == l4);
        assert(last_continuation_byte(s) == c1);
        assert(second_last_continuation_byte(s) == c2);
        assert(third_last_continuation_byte(s) == c3);
        assert forall|i: int|
            0 <= i < encode_scalar(s).len() implies #[trigger] encode_scalar(s)[i] >= 0x80 by {
            if has_width_2_encoding(s) {
                assert(encode_scalar(s) == seq![l2, c1]);
            } else if has_width_3_encoding(s) {
                assert(encode_scalar(s) == seq![l3, c2, c1]);
            } else {
                assert(encode_scalar(s) == seq![l4, c3, c2, c1]);
            }
        }
    }
}

/// The UTF-8 bytes of a separator-free key hold no separator byte.
proof fn lemma_key_bytes_no_sep(k: Seq<char>, b: u8)
    requires
        valid_key(k),
        b == 61 || b == 95 || b == 10,
    ensures
        forall|i: int| 0 <= i < encode_utf8(k).len() ==> #[trigger] encode_utf8(k)[i] != b,
    decreases k.len(),
{
    if k.len() > 0 {
        let c = k[0];
        assert(c != '=' && c != '_' && c != '\n');
        assert(('=' as u32) == 61 && ('_' as u32) == 95 && ('\n' as u32) == 10);
        assert(c as u32 != b as u32) by {
            if c as u32 == b as u32 {
                vstd::utf8::char_u32_cast(c, c as u32);
                assert((b as u32) as char == c);
                assert(((61u32) as char) == '=');
                assert(((95u32) as char) == '_');
                assert(((10u32) as char) == '\n');
            }
        }
        lemma_scalar_no_byte(c, b);
        assert(valid_key(k.drop_first()));
        lemma_key_bytes_no_sep(k.drop_first(), b);
        let first = encode_scalar(c as u32);
        let rest = encode_utf8(k.drop_first());
        assert(encode_utf8(k) == first + rest);
        assert forall|i: int| 0 <= i < encode_utf8(k).len() implies #[trigger] encode_utf8(k)[i]
            != b by {
            if i < first.len() {
                assert(encode_utf8(k)[i] == first[i]);
            } else {
                assert(encode_utf8(k)[i] == rest[i - first.len()]);
            }
        }
    }
}

/// An all-ASCII byte sequence is valid UTF-8 and decodes byte for byte.
proof fn lemma_ascii_bytes(b: Seq<u8>)
    requires
        forall|i: int| 0 <= i < b.len() ==> #[trigger] b[i] < 128,
    ensures
        valid_utf8(b),
        decode_utf8(b) == Seq::new(b.len(), |i: int| b[i] as char),
        encode_utf8(Seq::new(b.len(), |i: int| b[i] as char)) == b,
{
    let chars = Seq::new(b.len(), |i: int| b[i] as char);
    assert(vstd::utf8::is_ascii_chars(chars)) by {
        assert forall|i: int| 0 <= i < chars.len() implies '\0' <= #[trigger] chars[i]
            <= '\u{7f}' by {
            assert(chars[i] == b[i] as char);
            assert(b[i] < 128);
        }
    }
    vstd::utf8::is_ascii_chars_encode_utf8(chars);
    assert(encode_utf8(chars) =~= b);
}

proof fn lemma_parse_line_bytes(e: EntryView)
    requires
        valid_key(e.key),
        0 <= e.start <= usize::MAX as int,
        0 <= e.end <= usize::MAX as int,
    ensures
        ({
            let l = encode_utf8(e.key) + seq![61u8] + dec_bytes(e.start as nat) + seq![95u8]
                + dec_bytes(e.end as nat);
            &&& line_bytes(e) == l + seq![10u8]
            &&& parse_line(l) == Some(e)
            &&& forall|i: int| 0 <= i < l.len() ==> #[trigger] l[i] != 10
        }),
{
    let kb = encode_utf8(e.key);
    let sbb = dec_bytes(e.start as nat);
    let ebb = dec_bytes(e.end as nat);
    let l = kb + seq![61u8] + sbb + seq![95u8] + ebb;
    assert(line_bytes(e) =~= l + seq![10u8]);
    lemma_key_bytes_no_sep(e.key, 61);
    lemma_key_bytes_no_sep(e.key, 95);
    lemma_key_bytes_no_sep(e.key, 10);
    lemma_dec_bytes_digits(e.start as nat);
    lemma_dec_bytes_digits(e.end as nat);
    lemma_digits_val_dec_bytes(e.start as nat);
    lemma_digits_val_dec_bytes(e.end as nat);
    assert(l[kb.len() as int] == 61);
    assert forall|j: int| 0 <= j < kb.len() implies l[j] != 61 by {
        assert(l[j] == kb[j]);
    }
    lemma_find_byte_at(l, 61, kb.len() as int);
    assert(l.take(kb.len() as int) =~= kb);
    let rest = l.skip(kb.len() as int + 1);
    assert(rest =~= sbb + seq![95u8] + ebb);
    assert(rest[sbb.len() as int] == 95);
    assert forall|j: int| 0 <= j < sbb.len() implies rest[j] != 95 by {
        assert(rest[j] == sbb[j]);
        assert(is_digit(sbb[j]));
    }
    lemma_find_byte_at(rest, 95, sbb.len() as int);
    assert(rest.take(sbb.len() as int) =~= sbb);
    assert(rest.skip(sbb.len() as int + 1) =~= ebb);
    assert(valid_utf8(kb));
    assert(decode_utf8(kb) == e.key);
    assert(parse_line(l) == Some(e));
    assert forall|i: int| 0 <= i < l.len() implies #[trigger] l[i] != 10 by {
        if i < kb.len() {
            assert(l[i] == kb[i]);
        } else if i == kb.len() {
        } else {
            let j = i - kb.len() - 1;
            assert(l[i] == rest[j]);
            if j < sbb.len() {
                assert(rest[j] == sbb[j]);
                assert(is_digit(sbb[j]));
            } else if j == sbb.len() {
            } else {
                assert(rest[j] == ebb[j - sbb.len() - 1]);
                assert(is_digit(ebb[j - sbb.len() - 1]));
            }
        }
    }
}

/// Persistence round trip: the serialized directory parses back to exactly
/// the same sequence of entries.
pub proof fn lemma_serialize_parse_round_trip(s: Seq<EntryView>)
    requires
        forall|i: int|
            0 <= i < s.len() ==> valid_key((#[trigger] s[i]).key) && 0 <= s[i].start
                <= usize::MAX as int && 0 <= s[i].end <= usize::MAX as int,
    ensures
        spec_parse(spec_serialize(s)) == Some(s),
    decreases s.len(),
{
    if s.len() > 0 {
        let e = s[0];
        lemma_parse_line_bytes(e);
        let l = encode_utf8(e.key) + seq![61u8] + dec_bytes(e.start as nat) + seq![95u8]
            + dec_bytes(e.end as nat);
        let tail = spec_serialize(s.drop_first());
        let total = spec_serialize(s);
        assert(total == line_bytes(e) + tail);
        assert(total =~= l + seq![10u8] + tail);
        assert(total[l.len() as int] == 10);
        assert forall|j: int| 0 <= j < l.len() implies total[j] != 10 by {
            assert(total[j] == l[j]);
        }
        lemma_find_byte_at(total, 10, l.len() as int);
        assert(total.take(l.len() as int) =~= l);
        assert(total.skip(l.len() as int + 1) =~= tail);
        lemma_serialize_parse_round_trip(s.drop_first());
        assert(seq![e] + s.drop_first() =~= s);
    }
}

proof fn lemma_serialize_snoc(s: Seq<EntryView>, i: int)
    requires
        0 <= i < s.len(),
    ensures
        spec_serialize(s.take(i + 1)) == spec_serialize(s.take(i)) + line_bytes(s[i]),
    decreases i,
{
    if i == 0 {
        assert(s.take(0) =~= Seq::<EntryView>::empty());
        assert(s.take(1).drop_first() =~= Seq::<EntryView>::empty());
        assert(s.take(1)[0] == s[0]);
        assert(spec_serialize(s.take(1)) =~= spec_serialize(s.take(0)) + line_bytes(s[0]));
    } else {
        lemma_serialize_snoc(s.drop_first(), i - 1);
        assert(s.take(i + 1).drop_first() =~= s.drop_first().take(i));
        assert(s.take(i).drop_first() =~= s.drop_first().take(i - 1));
        assert(s.take(i + 1)[0] == s[0] && s.take(i)[0] == s[0]);
        assert(s.drop_first()[i - 1] == s[i]);
        assert(spec_serialize(s.take(i + 1)) == line_bytes(s[0]) + spec_serialize(
            s.drop_first().take(i),
        ));
        assert(spec_serialize(s.drop_first().take(i)) == spec_serialize(
            s.drop_first().take(i - 1),
        ) + line_bytes(s[i]));
        assert(spec_serialize(s.take(i)) == line_bytes(s[0]) + spec_serialize(
            s.drop_first().take(i - 1),
        ));
        assert(line_bytes(s[0]) + (spec_serialize(s.drop_first().take(i - 1)) + line_bytes(s[i]))
            =~= (line_bytes(s[0]) + spec_serialize(s.drop_first().take(i - 1))) + line_bytes(
            s[i],
        ));
    }
}

/// The serialized directory is valid UTF-8, whatever the entries hold.
proof fn lemma_serialize_valid(s: Seq<EntryView>)
    ensures
        valid_utf8(spec_serialize(s)),
    decreases s.len(),
{
    if s.len() == 0 {
        assert(valid_utf8(Seq::<u8>::empty()));
    } else {
        let e = s[0];
        let kb = encode_utf8(e.key);
        assert(valid_utf8(kb));
        lemma_dec_bytes_digits(e.start as nat);
        lemma_dec_bytes_digits(e.end as nat);
        lemma_ascii_bytes(seq![61u8]);
        lemma_ascii_bytes(seq![95u8]);
        lemma_ascii_bytes(seq![10u8]);
        assert forall|i: int|
            0 <= i < dec_bytes(e.start as nat).len() implies #[trigger] dec_bytes(
            e.start as nat,
        )[i] < 128 by {
            assert(is_digit(dec_bytes(e.start as nat)[i]));
        }
        assert forall|i: int|
            0 <= i < dec_bytes(e.end as nat).len() implies #[trigger] dec_bytes(e.end as nat)[i]
            < 128 by {
            assert(is_digit(dec_bytes(e.end as nat)[i]));
        }
        lemma_ascii_bytes(dec_bytes(e.start as nat));
        lemma_ascii_bytes(dec_bytes(e.end as nat));
        lemma_serialize_valid(s.drop_first());
        let sbb = dec_bytes(e.start as nat);
        let ebb = dec_bytes(e.end as nat);
        assert(valid_utf8(kb + seq![61u8]));
        assert(valid_utf8(kb + seq![61u8] + sbb));
        assert(valid_utf8(kb + seq![61u8] + sbb + seq![95u8]));
        assert(valid_utf8(kb + seq![61u8] + sbb + seq![95u8] + ebb));
        assert(valid_utf8(kb + seq![61u8] + sbb + seq![95u8] + ebb + seq![10u8]));
        assert(valid_utf8(line_bytes(e)));
        assert(valid_utf8(line_bytes(e) + spec_serialize(s.drop_first())));
        assert(valid_utf8(spec_serialize(s)));
    }
}

/// Relies on String::from_utf8: it succeeds exactly on valid UTF-8 input
/// and returns the decoded string.
#[verifier::external_body]
fn bytes_to_string_checked(v: &Vec<u8>) -> (r: Option<String>)
    ensures
        r is Some <==> valid_utf8(v@),
        r is Some ==> r->Some_0@ == decode_utf8(v@),
{
    match String::from_utf8(v.clone()) {
        Ok(s) => Some(s),
        Err(_) => None,
    }
}

/// Appends the decimal digits of `n`, most significant first.
fn push_dec(out: &mut Vec<u8>, n: usize)
    ensures
        final(out)@ == old(out)@ + dec_bytes(n as nat),
    decreases n,
{
    if n < 10 {
        out.push(48 + (n as u8));
        proof {
            assert(out@ =~= old(out)@ + dec_bytes(n as nat));
        }
    } else {
        push_dec(out, n / 10);
        out.push(48 + ((n % 10) as u8));
        proof {
            assert(out@ =~= old(out)@ + dec_bytes(n as nat));
        }
    }
}

/// Copies the bytes in `[from, to)` out of the buffer.
fn copy_range(data: &Vec<u8>, from: usize, to: usize) -> (r: Vec<u8>)
    requires
        from <= to <= data@.len(),
    ensures
        r@ == data@.subrange(from as int, to as int),
{
    let mut r: Vec<u8> = Vec::new();
    let mut i: usize = from;
    while i < to
        invariant
            from <= i <= to <= data@.len(),
            r@.len() == i - from,
            forall|x: int| 0 <= x < i - from ==> r@[x] == data@[from + x],
        decreases to - i,
    {
        r.push(data[i]);
        i += 1;
    }
    proof {
        assert(r@ =~= data@.subrange(from as int, to as int));
    }
    r
}

/// The position of the first occurrence of `b` within `[from, to)`.
fn find_byte_in(data: &Vec<u8>, from: usize, to: usize, b: u8) -> (r: Option<usize>)
    requires
        from <= to <= data@.len(),
    ensures
        r is Some ==> from <= r->Some_0 < to && data@[r->Some_0 as int] == b && forall|j: int|
            from <= j < r->Some_0 ==> data@[j] != b,
        r is None ==> forall|j: int| from <= j < to ==> data@[j] != b,
{
    let mut i: usize = from;
    while i < to
        invariant
            from <= i <= to <= data@.len(),
            forall|j: int| from <= j < i ==> data@[j] != b,
        decreases to - i,
    {
        if data[i] == b {
            return Some(i);
        }
        i += 1;
    }
    None
}

/// Reads the decimal number in `[from, to)`; `None` when the range is
/// empty, holds a non-digit, or the value does not fit in `usize`.
fn parse_usize(data: &Vec<u8>, from: usize, to: usize) -> (r: Option<usize>)
    requires
        from <= to <= data@.len(),
    ensures
        ({
            let sb = data@.subrange(from as int, to as int);
            &&& (r is Some <==> to > from && all_digits(sb) && digits_val(sb)
                <= usize::MAX as int)
            &&& r is Some ==> r->Some_0 as int == digits_val(sb)
        }),
{
    let ghost sb = data@.subrange(from as int, to as int);
    if from == to {
        return None;
    }
    let mut acc: usize = 0;
    let mut i: usize = from;
    while i < to
        invariant
            from <= i <= to <= data@.len(),
            sb == data@.subrange(from as int, to as int),
            all_digits(sb.take(i - from)),
            acc as int == digits_val(sb.take(i - from)),
        decreases to - i,
    {
        let b = data[i];
        proof {
            assert(sb[i - from] == data@[i as int]);
        }
        if b < 48 || b > 57 {
            proof {
                assert(!is_digit(sb[i - from]));
                assert(!all_digits(sb));
            }
            return None;
        }
        let d = (b - 48) as usize;
        let next = match acc.checked_mul(10) {
            Some(x) => match x.checked_add(d) {
                Some(y) => y,
                None => {
                    proof {
                        lemma_digits_overflow(sb, i as int - from, acc as int, d as int);
                    }
                    return None;
                },
            },
            None => {
                proof {
                    lemma_digits_overflow(sb, i as int - from, acc as int, d as int);
                }
                return None;
            },
        };
        proof {
            assert(sb.take(i - from + 1).drop_last() =~= sb.take(i - from));
            assert(sb.take(i - from + 1).last() == sb[i - from]);
            assert(all_digits(sb.take(i - from + 1)));
        }
        acc = next;
        i += 1;
    }
    proof {
        assert(sb.take(to - from) =~= sb);
        lemma_digits_val_take(sb, sb.len() as int);
    }
    Some(acc)
}

/// If the next digit pushes the running value past `usize::MAX`, the whole
/// run's value is past it too (when the run is all digits).
proof fn lemma_digits_overflow(sb: Seq<u8>, i: int, acc: int, d: int)
    requires
        0 <= i < sb.len(),
        acc == digits_val(sb.take(i)),
        is_digit(sb[i]),
        d == sb[i] - 48,
        acc * 10 + d > usize::MAX as int,
    ensures
        all_digits(sb) ==> digits_val(sb) > usize::MAX as int,
{
    if all_digits(sb) {
        assert(sb.take(i + 1).drop_last() =~= sb.take(i));
        assert(sb.take(i + 1).last() == sb[i]);
        assert(digits_val(sb.take(i + 1)) == acc * 10 + d);
        lemma_digits_val_take(sb, i + 1);
    }
}

/// Reads one `key=start_end` line from `[from, to)` (without its newline).
fn parse_line_exec(data: &Vec<u8>, from: usize, to: usize) -> (r: Option<IndexEntry>)
    requires
        from <= to <= data@.len(),
    ensures
        r is Some <==> parse_line(data@.subrange(from as int, to as int)) is Some,
        r is Some ==> r->Some_0@ == parse_line(data@.subrange(from as int, to as int))->Some_0,
{
    let ghost l = data@.subrange(from as int, to as int);
    let ep = match find_byte_in(data, from, to, 61) {
        Some(p) => p,
        None => {
            proof {
                lemma_find_byte_none(l, 61);
            }
            return None;
        },
    };
    proof {
        lemma_find_byte_at(l, 61, ep - from);
        assert(l.take(ep - from) =~= data@.subrange(from as int, ep as int));
        assert(l.skip(ep - from + 1) =~= data@.subrange(ep as int + 1, to as int));
    }
    let ghost rest = l.skip(ep - from + 1);
    let up = match find_byte_in(data, ep + 1, to, 95) {
        Some(p) => p,
        None => {
            proof {
                lemma_find_byte_none(rest, 95);
            }
            return None;
        },
    };
    proof {
        lemma_find_byte_at(rest, 95, up - ep - 1);
        assert(rest.take(up - ep - 1) =~= data@.subrange(ep as int + 1, up as int));
        assert(rest.skip(up - ep - 1 + 1) =~= data@.subrange(up as int + 1, to as int));
    }
    let keyb = copy_range(data, from, ep);
    let key_s = match bytes_to_string_checked(&keyb) {
        Some(s) => s,
        None => {
            return None;
        },
    };
    if !check_key(key_s.as_str()) {
        return None;
    }
    let sv = match parse_usize(data, ep + 1, up) {
        Some(v) => v,
        None => {
            return None;
        },
    };
    let ev = match parse_usize(data, up + 1, to) {
        Some(v) => v,
        None => {
            return None;
        },
    };
    proof {
        assert(parse_line(l) is Some);
        assert(parse_line(l)->Some_0 == (EntryView {
            key: key_s@,
            start: sv as int,
            end: ev as int,
        }));
    }
    Some(IndexEntry::new(key_s, sv, ev))
}

impl Index {
    /// The persisted form as raw bytes: `key=start_end`, one line per
    /// entry, each line newline-terminated.
    pub fn to_bytes(&self) -> (r: Vec<u8>)
        ensures
            r@ == spec_serialize(self@),
    {
        let mut out: Vec<u8> = Vec::new();
        let n = self.len();
        let mut i: usize = 0;
        while i < n
            invariant
                n == self@.len(),
                0 <= i <= n,
                out@ == spec_serialize(self@.take(i as int)),
            decreases n - i,
        {
            let e = self.entry_at(i);
            let mut kb = e.key().as_str().as_bytes_vec();
            out.append(&mut kb);
            out.push(61);
            push_dec(&mut out, e.start());
            out.push(95);
            push_dec(&mut out, e.end());
            out.push(10);
            proof {
                lemma_serialize_snoc(self@, i as int);
                assert(out@ =~= spec_serialize(self@.take(i as int)) + line_bytes(
                    self@[i as int],
                ));
            }
            i += 1;
        }
        proof {
            assert(self@.take(n as int) =~= self@);
        }
        out
    }

    /// The persisted textual form, decoded.
    pub fn index_to_string(index: &Index) -> (r: String)
        ensures
            r@ == decode_utf8(spec_serialize(index@)),
    {
        let bytes = index.to_bytes();
        proof {
            lemma_serialize_valid(index@);
        }
        crate::store::bytes_to_string_lossy(&bytes)
    }

    /// Parses a persisted directory: one `key=start_end` line per entry.
    /// Malformed lines are rejected, never a cause for panic.
    pub fn parse_index(data: &Vec<u8>) -> (r: Result<Vec<IndexEntry>, DbError>)
        ensures
            r is Ok <==> spec_parse(data@) is Some,
            r is Ok ==> views_of(r->Ok_0@) == spec_parse(data@)->Some_0,
            r is Err ==> r->Err_0 == DbError::MalformedIndex,
    {
        let n = data.len();
        let mut out: Vec<IndexEntry> = Vec::new();
        let mut pos: usize = 0;
        proof {
            assert(data@.skip(0) =~= data@);
            assert(views_of(out@) =~= Seq::<EntryView>::empty());
            if spec_parse(data@) is Some {
                assert(views_of(out@) + spec_parse(data@)->Some_0 =~= spec_parse(data@)->Some_0);
            }
        }
        while pos < n
            invariant
                n == data@.len(),
                0 <= pos <= n,
                spec_parse(data@.skip(pos as int)) is None ==> spec_parse(data@) is None,
                spec_parse(data@.skip(pos as int)) is Some ==> spec_parse(data@) == Some(
                    views_of(out@) + spec_parse(data@.skip(pos as int))->Some_0,
                ),
            decreases n - pos,
        {
            let ghost b = data@.skip(pos as int);
            let q = match find_byte_in(data, pos, n, 10) {
                Some(q) => q,
                None => {
                    proof {
                        lemma_find_byte_none(b, 10);
                        assert(b.len() > 0);
                        assert(spec_parse(b) is None);
                    }
                    return Err(DbError::MalformedIndex);
                },
            };
            proof {
                lemma_find_byte_at(b, 10, q - pos);
                assert(b.take(q - pos) =~= data@.subrange(pos as int, q as int));
                assert(b.skip(q - pos + 1) =~= data@.skip(q as int + 1));
            }
            let entry = match parse_line_exec(data, pos, q) {
                Some(e) => e,
                None => {
                    proof {
                        assert(spec_parse(b) is None);
                    }
                    return Err(DbError::MalformedIndex);
                },
            };
            let ghost out_before = views_of(out@);
            out.push(entry);
            proof {
                assert(views_of(out@) =~= out_before + seq![entry@]);
                let tail = data@.skip(q as int + 1);
                assert(spec_parse(b) is None <==> spec_parse(tail) is None);
                if spec_parse(tail) is Some {
                    assert(spec_parse(b) == Some(seq![entry@] + spec_parse(tail)->Some_0));
                    assert(views_of(out@) + spec_parse(tail)->Some_0 =~= out_before + (seq![
                        entry@,
                    ] + spec_parse(tail)->Some_0));
                }
            }
            pos = q + 1;
        }
        proof {
            assert(data@.skip(n as int) =~= Seq::<u8>::empty());
            assert(spec_parse(data@.skip(pos as int)) == Some(Seq::<EntryView>::empty()));
            assert(views_of(out@) + Seq::<EntryView>::empty() =~= views_of(out@));
        }
        Ok(out)
    }
}

} // verus!
