//! Content comparison, text decoding, size strings and output naming.

use crate::text::{
    chars_eq, find_last, from_chars, last_index, lemma_last_index_bounds, lower, sub_vec, to_chars,
    to_lower,
};
use sha2::Digest;
use vstd::prelude::*;
use vstd::utf8::{decode_utf8, valid_utf8};

verus! {

/// The SHA-256 digest of a byte sequence.
pub uninterp spec fn sha256_digest(bytes: Seq<u8>) -> Seq<u8>;

/// What the Windows-1252 decoder of `encoding_rs` makes of a byte sequence,
/// byte-order-mark sniffing included.
pub uninterp spec fn windows_1252_text(bytes: Seq<u8>) -> Seq<char>;

/// The lower-case hexadecimal digit for a value below sixteen.
pub open spec fn hex_digit(n: u8) -> char {
    if n < 10 {
        ((48 + n) as u8) as char
    } else {
        ((87 + n) as u8) as char
    }
}

/// Two lower-case hexadecimal digits per byte, high half first.
pub open spec fn hex_of(bytes: Seq<u8>) -> Seq<char> {
    Seq::new(
        2 * bytes.len(),
        |i: int|
            if i % 2 == 0 {
                hex_digit(bytes[i / 2] / 16)
            } else {
                hex_digit(bytes[i / 2] % 16)
            },
    )
}

/// `sha2::Sha256::digest`: the result is the SHA-256 digest of `bytes`,
/// a function of the bytes alone.
#[verifier::external_body]
fn sha256(bytes: &Vec<u8>) -> (digest: Vec<u8>)
    ensures
        digest@ == sha256_digest(bytes@),
{
    sha2::Sha256::digest(bytes.as_slice()).to_vec()
}

/// `hex::encode`: every byte becomes two lower-case hexadecimal digits.
#[verifier::external_body]
fn hex_encode(bytes: &Vec<u8>) -> (out: String)
    ensures
        out@ == hex_of(bytes@),
{
    hex::encode(bytes)
}

/// `String::from_utf8`: the decoded text where the bytes are well-formed
/// UTF-8, nothing where they are not.
#[verifier::external_body]
fn utf8_text(bytes: &Vec<u8>) -> (out: Option<String>)
    ensures
        out is Some <==> valid_utf8(bytes@),
        out matches Some(s) ==> s@ == decode_utf8(bytes@),
{
    String::from_utf8(bytes.clone()).ok()
}

/// `encoding_rs::Encoding::decode` on `WINDOWS_1252`: the decoded text, a
/// function of the bytes alone. The decoder sizes its buffer at a little
/// over three times the input, which has to fit in `usize`.
#[verifier::external_body]
fn decode_windows_1252(bytes: &Vec<u8>) -> (out: String)
    requires
        bytes.len() <= usize::MAX / 4,
    ensures
        out@ == windows_1252_text(bytes@),
{
    encoding_rs::WINDOWS_1252.decode(bytes.as_slice()).0.into_owned()
}

/// `text` with every CR LF pair and every remaining CR turned into LF.
pub open spec fn normalized_eol(text: Seq<char>) -> Seq<char>
    decreases text.len(),
{
    if text.len() == 0 {
        text
    } else if text[0] == '\r' {
        if text.len() > 1 && text[1] == '\n' {
            seq!['\n'] + normalized_eol(text.skip(2))
        } else {
            seq!['\n'] + normalized_eol(text.skip(1))
        }
    } else {
        seq![text[0]] + normalized_eol(text.skip(1))
    }
}

/// The text that a file's bytes stand for: their UTF-8 reading where they
/// are well-formed UTF-8, their Windows-1252 reading otherwise.
pub open spec fn decoded_text(bytes: Seq<u8>) -> Seq<char> {
    if valid_utf8(bytes) {
        decode_utf8(bytes)
    } else {
        windows_1252_text(bytes)
    }
}

/// The decoded text, with line ends normalised where asked.
pub open spec fn text_of(bytes: Seq<u8>, normalize_eol: bool) -> Seq<char> {
    if normalize_eol {
        normalized_eol(decoded_text(bytes))
    } else {
        decoded_text(bytes)
    }
}

/// Rewrites CR LF and lone CR to LF.
pub fn normalize_line_ends(text: &str) -> (out: String)
    ensures
        out@ == normalized_eol(text@),
{
    let chars = to_chars(text);
    let mut out = String::new();
    let mut i: usize = 0;
    proof {
        assert(chars@.skip(0) =~= chars@);
    }
    while i < chars.len()
        invariant
            i <= chars.len(),
            out@ + normalized_eol(chars@.skip(i as int)) == normalized_eol(chars@),
        decreases chars.len() - i,
    {
        let ghost rest = chars@.skip(i as int);
        let ghost before = out@;
        assert(rest[0] == chars@[i as int]);
        if chars[i] == '\r' {
            out.push('\n');
            if i + 1 < chars.len() && chars[i + 1] == '\n' {
                proof {
                    assert(rest[1] == chars@[i + 1]);
                    assert(rest.skip(2) =~= chars@.skip(i + 2));
                    assert(out@ + normalized_eol(chars@.skip(i + 2)) =~= before
                        + normalized_eol(rest));
                }
                i += 2;
            } else {
                proof {
                    assert(rest.len() > 1 ==> rest[1] == chars@[i + 1]);
                    assert(rest.skip(1) =~= chars@.skip(i + 1));
                    assert(out@ + normalized_eol(chars@.skip(i + 1)) =~= before
                        + normalized_eol(rest));
                }
                i += 1;
            }
        } else {
            out.push(chars[i]);
            proof {
                assert(rest.skip(1) =~= chars@.skip(i + 1));
                assert(out@ + normalized_eol(chars@.skip(i + 1)) =~= before + normalized_eol(
                    rest,
                ));
            }
            i += 1;
        }
    }
    proof {
        assert(out@ + normalized_eol(chars@.skip(i as int)) =~= out@);
    }
    out
}

/// Decodes a file's bytes as text: strict UTF-8 first, Windows-1252 where
/// that fails, so every input decodes. Line ends are normalised on request.
pub fn read_text_best_effort(bytes: &Vec<u8>, normalize_eol: bool) -> (out: String)
    requires
        bytes.len() <= usize::MAX / 4,
    ensures
        out@ == text_of(bytes@, normalize_eol),
{
    let content = match utf8_text(bytes) {
        Some(s) => s,
        None => decode_windows_1252(bytes),
    };
    if normalize_eol {
        normalize_line_ends(content.as_str())
    } else {
        content
    }
}

/// The number of leading bytes that the binary sniff looks at.
pub const SNIFF_LEN: usize = 4096;

/// The leading bytes of `content` that the sniff reads.
pub open spec fn sniff_sample(content: Seq<u8>) -> Seq<u8> {
    if content.len() > SNIFF_LEN {
        content.take(SNIFF_LEN as int)
    } else {
        content
    }
}

/// Whether content counts as binary: unreadable content does; an empty
/// sample does not; otherwise a NUL byte or malformed UTF-8 in the sample
/// decides.
pub open spec fn sniffed_binary(content: Option<Vec<u8>>) -> bool {
    match content {
        None => true,
        Some(bytes) => {
            let sample = sniff_sample(bytes@);
            sample.len() > 0 && (sample.contains(0u8) || !valid_utf8(sample))
        },
    }
}

/// Sniffs the first 4096 bytes of a file's content (`None` where the file
/// could not be read) and says whether the file is to be treated as binary.
pub fn is_probably_binary(content: &Option<Vec<u8>>) -> (binary: bool)
    ensures
        binary == sniffed_binary(*content),
{
    match content {
        None => true,
        Some(bytes) => {
            let n: usize = if bytes.len() > SNIFF_LEN {
                SNIFF_LEN
            } else {
                bytes.len()
            };
            if n == 0 {
                return false;
            }
            let mut sample: Vec<u8> = Vec::new();
            let mut has_nul = false;
            let mut i: usize = 0;
            while i < n
                invariant
                    i <= n <= bytes.len(),
                    sample@ == bytes@.take(i as int),
                    has_nul == sample@.contains(0u8),
                decreases n - i,
            {
                let ghost before = sample@;
                sample.push(bytes[i]);
                proof {
                    assert(sample@ =~= bytes@.take(i + 1));
                    assert(sample@.drop_last() =~= before);
                    if has_nul {
                        let k = choose|k: int| 0 <= k < before.len() && before[k] == 0u8;
                        assert(sample@[k] == 0u8);
                    }
                    if bytes[i as int] == 0u8 {
                        assert(sample@[i as int] == 0u8);
                    }
                    if sample@.contains(0u8) && !has_nul && bytes[i as int] != 0u8 {
                        let k = choose|k: int| 0 <= k < sample@.len() && sample@[k] == 0u8;
                        assert(before[k] == 0u8);
                    }
                }
                if bytes[i] == 0 {
                    has_nul = true;
                }
                i += 1;
            }
            proof {
                assert(sample@ =~= sniff_sample(bytes@));
            }
            if has_nul {
                return true;
            }
            utf8_text(&sample).is_none()
        },
    }
}

/// The fingerprint of a content: its SHA-256 digest in hexadecimal.
pub open spec fn fingerprint(bytes: Seq<u8>) -> Seq<char> {
    hex_of(sha256_digest(bytes))
}

/// Whether two contents have the same digest; unreadable content equals
/// nothing.
pub open spec fn digests_agree(a: Option<Vec<u8>>, b: Option<Vec<u8>>) -> bool {
    match (a, b) {
        (Some(x), Some(y)) => fingerprint(x@) == fingerprint(y@),
        _ => false,
    }
}

/// The SHA-256 digest of a content, in lower-case hexadecimal.
pub fn content_digest(bytes: &Vec<u8>) -> (out: String)
    ensures
        out@ == fingerprint(bytes@),
{
    hex_encode(&sha256(bytes))
}

/// Compares two files by the SHA-256 digest of their content. A file that
/// could not be read (`None`) is never equal to anything, so that a changed
/// file is not passed over.
pub fn file_bytes_equal(a: &Option<Vec<u8>>, b: &Option<Vec<u8>>) -> (equal: bool)
    ensures
        equal == digests_agree(*a, *b),
        (a matches Some(x) && b matches Some(y) && x@ == y@) ==> equal,
{
    match (a, b) {
        (Some(x), Some(y)) => {
            content_digest(x) == content_digest(y)
        },
        _ => false,
    }
}

/// The size that an unreadable size string stands for.
pub const DEFAULT_SIZE: u64 = 5_000_000;

/// Blank characters that may surround a size string: the white space of
/// Unicode.
pub open spec fn is_space(c: char) -> bool {
    ('\u{9}' <= c && c <= '\u{d}') || c == ' ' || c == '\u{85}' || c == '\u{a0}' || c
        == '\u{1680}' || ('\u{2000}' <= c && c <= '\u{200a}') || c == '\u{2028}' || c
        == '\u{2029}' || c == '\u{202f}' || c == '\u{205f}' || c == '\u{3000}'
}

fn is_blank(c: char) -> (out: bool)
    ensures
        out == is_space(c),
{
    ('\u{9}' <= c && c <= '\u{d}') || c == ' ' || c == '\u{85}' || c == '\u{a0}' || c
        == '\u{1680}' || ('\u{2000}' <= c && c <= '\u{200a}') || c == '\u{2028}' || c
        == '\u{2029}' || c == '\u{202f}' || c == '\u{205f}' || c == '\u{3000}'
}

/// Whether `c` is a decimal digit.
pub open spec fn is_digit(c: char) -> bool {
    '0' <= c && c <= '9'
}

/// `s` without its leading blanks.
pub open spec fn trim_start(s: Seq<char>) -> Seq<char>
    decreases s.len(),
{
    if s.len() > 0 && is_space(s[0]) {
        trim_start(s.skip(1))
    } else {
        s
    }
}

/// `s` without its trailing blanks.
pub open spec fn trim_end(s: Seq<char>) -> Seq<char>
    decreases s.len(),
{
    if s.len() > 0 && is_space(s.last()) {
        trim_end(s.drop_last())
    } else {
        s
    }
}

/// The length of the run of digits that `s` starts with.
pub open spec fn digit_count(s: Seq<char>) -> nat
    decreases s.len(),
{
    if s.len() > 0 && is_digit(s[0]) {
        1 + digit_count(s.skip(1))
    } else {
        0
    }
}

/// The number that a sequence of decimal digits spells.
pub open spec fn digits_value(s: Seq<char>) -> nat
    decreases s.len(),
{
    if s.len() == 0 {
        0
    } else {
        digits_value(s.drop_last()) * 10 + (s.last() as nat - '0' as nat) as nat
    }
}

/// The number of bytes that a lower-case unit stands for.
pub open spec fn unit_multiplier(unit: Seq<char>) -> Option<nat> {
    if unit == "b"@ {
        Some(1)
    } else if unit == "k"@ || unit == "kb"@ {
        Some(1000)
    } else if unit == "kib"@ {
        Some(1024)
    } else if unit == "m"@ || unit == "mb"@ {
        Some(1000 * 1000)
    } else if unit == "mib"@ {
        Some(1024 * 1024)
    } else if unit == "g"@ || unit == "gb"@ {
        Some(1000 * 1000 * 1000)
    } else if unit == "gib"@ {
        Some(1024 * 1024 * 1024)
    } else {
        None
    }
}

/// The value of a decimal digit.
pub open spec fn digit_of(c: char) -> nat {
    (c as nat - '0' as nat) as nat
}

/// The whole part of `m` times the fraction `0.d1d2...` that the digits
/// spell: a tenth of `m * d1` plus what the later digits give, rounded
/// down, which loses nothing because the rest is below one.
pub open spec fn fraction_of(digits: Seq<char>, m: nat) -> nat
    decreases digits.len(),
{
    if digits.len() == 0 {
        0
    } else {
        (m * digit_of(digits[0]) + fraction_of(digits.skip(1), m)) / 10
    }
}

/// Ten to the `n`.
pub open spec fn pow10(n: nat) -> nat
    decreases n,
{
    if n == 0 {
        1
    } else {
        10 * pow10((n - 1) as nat)
    }
}

proof fn lemma_digits_value_front(digits: Seq<char>)
    requires
        digits.len() > 0,
    ensures
        digits_value(digits) == digit_of(digits[0]) * pow10((digits.len() - 1) as nat)
            + digits_value(digits.skip(1)),
    decreases digits.len(),
{
    if digits.len() == 1 {
        assert(digits.drop_last() =~= Seq::<char>::empty());
        assert(digits.skip(1) =~= Seq::<char>::empty());
        assert(digits_value(digits.drop_last()) == 0);
        assert(digits_value(digits.skip(1)) == 0);
        assert(digits.last() == digits[0]);
        assert(pow10(0) == 1);
        assert(digits_value(digits) == digit_of(digits[0]));
        assert(digit_of(digits[0]) * 1 == digit_of(digits[0])) by (nonlinear_arith);
    } else {
        let shorter = digits.drop_last();
        lemma_digits_value_front(shorter);
        assert(shorter.skip(1) =~= digits.skip(1).drop_last());
        assert(shorter[0] == digits[0]);
        assert(digits.skip(1).last() == digits.last());
        let d = digit_of(digits[0]);
        let p = pow10((shorter.len() - 1) as nat);
        let v = digits_value(shorter.skip(1));
        let l = digit_of(digits.last());
        assert(pow10((digits.len() - 1) as nat) == 10 * p);
        assert(digits_value(shorter) == d * p + v);
        assert(digits_value(digits) == digits_value(shorter) * 10 + l);
        assert(digits_value(digits.skip(1)) == digits_value(digits.skip(1).drop_last()) * 10 + l);
        assert(digits_value(digits.skip(1)) == v * 10 + l);
        assert((d * p + v) * 10 + l == d * (10 * p) + (v * 10 + l)) by (nonlinear_arith);
    }
}

/// The fraction of `m`, taken digit by digit, is `m` times the number that
/// the digits spell, divided by ten to the number of digits, rounded down.
pub proof fn lemma_fraction_of_is_floor(digits: Seq<char>, m: nat)
    ensures
        fraction_of(digits, m) == (m * digits_value(digits)) / pow10(digits.len()),
    decreases digits.len(),
{
    if digits.len() == 0 {
        assert(m * 0 == 0) by (nonlinear_arith);
    } else {
        let rest = digits.skip(1);
        lemma_fraction_of_is_floor(rest, m);
        lemma_digits_value_front(digits);
        let d = digit_of(digits[0]);
        let p = pow10(rest.len());
        let v = digits_value(rest);
        lemma_pow10_positive(rest.len());
        assert(pow10(digits.len()) == 10 * p);
        assert(m * (d * p + v) == (m * v) + (m * d) * p) by (nonlinear_arith);
        assert(0 <= m * v) by (nonlinear_arith);
        vstd::arithmetic::div_mod::lemma_hoist_over_denominator(
            (m * v) as int,
            (m * d) as int,
            p,
        );
        vstd::arithmetic::div_mod::lemma_div_denominator(
            (m * (d * p + v)) as int,
            p as int,
            10,
        );
        assert(p * 10 == 10 * p) by (nonlinear_arith);
    }
}

proof fn lemma_pow10_positive(n: nat)
    ensures
        pow10(n) > 0,
    decreases n,
{
    if n > 0 {
        lemma_pow10_positive((n - 1) as nat);
    }
}

/// How many digits a trimmed, lower-case size string starts with.
pub open spec fn whole_digits(s: Seq<char>) -> int {
    digit_count(s) as int
}

/// Whether a point follows the leading digits.
pub open spec fn has_point(s: Seq<char>) -> bool {
    whole_digits(s) < s.len() && s[whole_digits(s)] == '.'
}

/// How many digits follow the point.
pub open spec fn fraction_digits(s: Seq<char>) -> int {
    if has_point(s) {
        digit_count(s.skip(whole_digits(s) + 1)) as int
    } else {
        0
    }
}

/// Where the unit of a size string starts.
pub open spec fn unit_start(s: Seq<char>) -> int {
    if has_point(s) {
        whole_digits(s) + 1 + fraction_digits(s)
    } else {
        whole_digits(s)
    }
}

/// The digits after the point of a size string.
pub open spec fn fraction_text(s: Seq<char>) -> Seq<char> {
    if has_point(s) {
        s.subrange(whole_digits(s) + 1, unit_start(s))
    } else {
        Seq::empty()
    }
}

/// The size in bytes that a size string stands for, surrounding blanks and
/// letter case aside. A number with a unit is a decimal number (digits,
/// with or without a point and further digits) and then the unit; its
/// number of bytes is rounded down and capped at `u64::MAX`. A number
/// without a unit is a whole number of bytes that fits in `u64`. A string
/// of any other shape gives the default size.
pub open spec fn size_of(text: Seq<char>) -> nat {
    let s = lower(trim_end(trim_start(text)));
    let k = whole_digits(s);
    let j = fraction_digits(s);
    let unit = s.skip(unit_start(s));
    if unit.len() == 0 {
        if k > 0 && !has_point(s) && digits_value(s.take(k)) <= u64::MAX {
            digits_value(s.take(k))
        } else {
            DEFAULT_SIZE as nat
        }
    } else {
        match unit_multiplier(unit) {
            Some(m) => if k + j > 0 {
                let bytes = digits_value(s.take(k)) * m + fraction_of(fraction_text(s), m);
                if bytes > u64::MAX {
                    u64::MAX as nat
                } else {
                    bytes
                }
            } else {
                DEFAULT_SIZE as nat
            },
            None => DEFAULT_SIZE as nat,
        }
    }
}

fn trim(chars: &Vec<char>) -> (out: Vec<char>)
    ensures
        out@ == trim_end(trim_start(chars@)),
{
    let mut from: usize = 0;
    proof {
        assert(chars@.skip(0) =~= chars@);
    }
    while from < chars.len() && is_blank(chars[from])
        invariant
            from <= chars.len(),
            trim_start(chars@) == trim_start(chars@.skip(from as int)),
        decreases chars.len() - from,
    {
        proof {
            assert(chars@.skip(from as int).skip(1) =~= chars@.skip(from + 1));
        }
        from += 1;
    }
    let mut to: usize = chars.len();
    proof {
        assert(chars@.skip(from as int) =~= chars@.subrange(from as int, to as int));
    }
    while to > from && is_blank(chars[to - 1])
        invariant
            from <= to <= chars.len(),
            trim_start(chars@) == chars@.skip(from as int),
            trim_end(trim_start(chars@)) == trim_end(chars@.subrange(from as int, to as int)),
        decreases to - from,
    {
        proof {
            assert(chars@.subrange(from as int, to as int).drop_last() =~= chars@.subrange(
                from as int,
                to - 1,
            ));
        }
        to -= 1;
    }
    sub_vec(chars, from, to)
}

fn multiplier_of(unit: &Vec<char>) -> (m: Option<u64>)
    ensures
        m is Some <==> unit_multiplier(unit@) is Some,
        m matches Some(v) ==> unit_multiplier(unit@) == Some(v as nat),
{
    if chars_eq(unit, "b") {
        Some(1)
    } else if chars_eq(unit, "k") || chars_eq(unit, "kb") {
        Some(1000)
    } else if chars_eq(unit, "kib") {
        Some(1024)
    } else if chars_eq(unit, "m") || chars_eq(unit, "mb") {
        Some(1000 * 1000)
    } else if chars_eq(unit, "mib") {
        Some(1024 * 1024)
    } else if chars_eq(unit, "g") || chars_eq(unit, "gb") {
        Some(1000 * 1000 * 1000)
    } else if chars_eq(unit, "gib") {
        Some(1024 * 1024 * 1024)
    } else {
        None
    }
}

/// The fraction of `m` that the digits `chars[from..to]` after a point
/// stand for, rounded down.
fn fraction_bytes(chars: &Vec<char>, from: usize, to: usize, m: u64) -> (out: u64)
    requires
        from <= to <= chars.len(),
        1 <= m <= 1024 * 1024 * 1024,
        forall|i: int| from <= i < to ==> is_digit(chars@[i]),
    ensures
        out as nat == fraction_of(chars@.subrange(from as int, to as int), m as nat),
        out < m,
{
    let mut out: u64 = 0;
    let mut i: usize = to;
    while i > from
        invariant
            from <= i <= to <= chars.len(),
            1 <= m <= 1024 * 1024 * 1024,
            forall|i: int| from <= i < to ==> is_digit(chars@[i]),
            out as nat == fraction_of(chars@.subrange(i as int, to as int), m as nat),
            out < m,
        decreases i - from,
    {
        i -= 1;
        let d: u64 = (chars[i] as u8 - 48) as u64;
        proof {
            let digits = chars@.subrange(i as int, to as int);
            assert(digits[0] == chars@[i as int]);
            assert(digits.skip(1) =~= chars@.subrange(i + 1, to as int));
            assert(d as nat == digit_of(digits[0]));
            assert(m * d <= m * 9) by (nonlinear_arith)
                requires
                    d <= 9,
            ;
            assert((m as nat) * (d as nat) == (m * d) as nat) by (nonlinear_arith);
        }
        out = (m * d + out) / 10;
    }
    out
}

/// Reads a size such as `5MB`, `1.5gib`, `64kib` or `102400`. Units are
/// `b`, `k`/`kb`, `kib`, `m`/`mb`, `mib`, `g`/`gb` and `gib`, in either
/// case. With a unit the number may have a decimal fraction, and the number
/// of bytes is rounded down and capped at `u64::MAX`; without one it is a
/// whole number that fits in `u64`. Anything else gives the default of
/// 5,000,000 bytes.
pub fn parse_size(s: &str) -> (size: u64)
    ensures
        size as nat == size_of(s@),
{
    let raw = to_chars(s);
    let trimmed = trim(&raw);
    let chars = to_lower(&trimmed);
    let mut k: usize = 0;
    let mut value: u64 = 0;
    let mut big = false;
    proof {
        assert(chars@.skip(0) =~= chars@);
        assert(chars@.take(0) =~= Seq::<char>::empty());
    }
    while k < chars.len() && '0' <= chars[k] && chars[k] <= '9'
        invariant
            k <= chars.len(),
            digit_count(chars@) == k + digit_count(chars@.skip(k as int)),
            !big ==> value as nat == digits_value(chars@.take(k as int)),
            big ==> digits_value(chars@.take(k as int)) > u64::MAX,
        decreases chars.len() - k,
    {
        let d: u64 = (chars[k] as u8 - 48) as u64;
        proof {
            assert(chars@.skip(k as int).skip(1) =~= chars@.skip(k + 1));
            assert(chars@.take(k + 1).drop_last() =~= chars@.take(k as int));
            assert(digits_value(chars@.take(k + 1)) == digits_value(chars@.take(k as int)) * 10
                + d);
        }
        if !big {
            if value > (u64::MAX - d) / 10 {
                big = true;
            } else {
                value = value * 10 + d;
            }
        }
        k += 1;
    }
    assert(whole_digits(chars@) == k);
    let pointed = k < chars.len() && chars[k] == '.';
    assert(pointed == has_point(chars@));
    let mut end: usize = k;
    if pointed {
        end = k + 1;
        proof {
            assert(chars@.skip(k + 1).skip(0) =~= chars@.skip(k + 1));
        }
        while end < chars.len() && '0' <= chars[end] && chars[end] <= '9'
            invariant
                k + 1 <= end <= chars.len(),
                digit_count(chars@.skip(k + 1)) == (end - (k + 1)) + digit_count(
                    chars@.skip(end as int),
                ),
                forall|i: int| k + 1 <= i < end ==> is_digit(chars@[i]),
            decreases chars.len() - end,
        {
            proof {
                assert(chars@.skip(end as int).skip(1) =~= chars@.skip(end + 1));
            }
            end += 1;
        }
    }
    assert(end == unit_start(chars@));
    let unit = sub_vec(&chars, end, chars.len());
    proof {
        assert(unit@ =~= chars@.skip(end as int));
    }
    if unit.len() == 0 {
        return if k > 0 && !pointed && !big {
            value
        } else {
            DEFAULT_SIZE
        };
    }
    match multiplier_of(&unit) {
        Some(m) => {
            if end == k && k == 0 || pointed && k == 0 && end == 1 {
                return DEFAULT_SIZE;
            }
            assert(1 <= m <= 1024 * 1024 * 1024);
            let from: usize = if pointed {
                k + 1
            } else {
                end
            };
            let part = fraction_bytes(&chars, from, end, m);
            proof {
                assert(chars@.subrange(from as int, end as int) =~= fraction_text(chars@));
            }
            if big {
                proof {
                    assert(digits_value(chars@.take(k as int)) * (m as nat) > u64::MAX)
                        by (nonlinear_arith)
                        requires
                            digits_value(chars@.take(k as int)) > u64::MAX,
                            m >= 1,
                    ;
                }
                u64::MAX
            } else {
                assert((value as u128) * (m as u128) + (part as u128) <= u128::MAX)
                    by (nonlinear_arith)
                    requires
                        value <= u64::MAX,
                        m <= 1024 * 1024 * 1024,
                        part < m,
                ;
                let bytes: u128 = (value as u128) * (m as u128) + (part as u128);
                if bytes > u64::MAX as u128 {
                    u64::MAX
                } else {
                    bytes as u64
                }
            }
        },
        None => DEFAULT_SIZE,
    }
}

/// The decimal digit for a value below ten.
pub open spec fn digit_char(d: nat) -> char {
    ((48 + d) as u8) as char
}

/// `n` in decimal, without leading zeros.
pub open spec fn decimal(n: nat) -> Seq<char>
    decreases n,
{
    if n < 10 {
        seq![digit_char(n)]
    } else {
        decimal(n / 10).push(digit_char(n % 10))
    }
}

/// Appends `n` in decimal to `out`.
pub fn push_decimal(out: &mut Vec<char>, n: u128)
    ensures
        final(out)@ == old(out)@ + decimal(n as nat),
    decreases n,
{
    if n >= 10 {
        push_decimal(out, n / 10);
    }
    let d: u8 = (n % 10) as u8;
    out.push((48 + d) as char);
    proof {
        assert(final(out)@ =~= old(out)@ + decimal(n as nat));
    }
}

/// Where the numbering goes into a path: before the dot of the file name's
/// extension, or at the very end where the name has none.
pub open spec fn numbering_point(path: Seq<char>) -> int {
    let start = last_index(path, '/') + 1;
    let dot = last_index(path.subrange(start, path.len() as int), '.');
    if dot > 0 {
        start + dot
    } else {
        path.len() as int
    }
}

/// The `n`-th alternative to `path`: `name (n).ext` beside it.
pub open spec fn numbered(path: Seq<char>, n: nat) -> Seq<char> {
    path.take(numbering_point(path)) + " ("@ + decimal(n) + ")"@ + path.skip(
        numbering_point(path),
    )
}

/// The paths that `taken` holds, as character sequences.
pub open spec fn names(taken: Seq<String>) -> Seq<Seq<char>> {
    Seq::new(taken.len(), |i: int| taken[i]@)
}

/// Whether `path` is among `taken`.
pub fn is_taken(taken: &Vec<String>, path: &String) -> (found: bool)
    ensures
        found == names(taken@).contains(path@),
{
    let mut i: usize = 0;
    while i < taken.len()
        invariant
            i <= taken.len(),
            forall|j: int| 0 <= j < i ==> names(taken@)[j] != path@,
        decreases taken.len() - i,
    {
        if taken[i] == *path {
            assert(names(taken@)[i as int] == path@);
            return true;
        }
        i += 1;
    }
    false
}

/// Reading the decimal form of a number gives the number back.
pub proof fn lemma_decimal_value(n: nat)
    ensures
        digits_value(decimal(n)) == n,
    decreases n,
{
    if n < 10 {
        assert(decimal(n).drop_last() =~= Seq::<char>::empty());
        assert(digits_value(decimal(n).drop_last()) == 0);
    } else {
        lemma_decimal_value(n / 10);
        assert(decimal(n).drop_last() =~= decimal(n / 10));
    }
}

/// The numbering point lies inside the path.
pub proof fn lemma_numbering_point_bounds(path: Seq<char>)
    ensures
        0 <= numbering_point(path) <= path.len(),
{
    lemma_last_index_bounds(path, '/');
    let start = last_index(path, '/') + 1;
    lemma_last_index_bounds(path.subrange(start, path.len() as int), '.');
}

/// Different numbers give different alternatives to one path.
pub proof fn lemma_numbered_injective(path: Seq<char>, n: nat, m: nat)
    requires
        numbered(path, n) == numbered(path, m),
    ensures
        n == m,
{
    reveal_strlit(" (");
    reveal_strlit(")");
    lemma_numbering_point_bounds(path);
    let a = numbering_point(path);
    let tail = path.len() - a;
    let sn = numbered(path, n);
    let sm = numbered(path, m);
    assert(sn.len() == path.len() + 3 + decimal(n).len());
    assert(sm.len() == path.len() + 3 + decimal(m).len());
    assert(sn.subrange(a + 2, sn.len() - 1 - tail) =~= decimal(n));
    assert(sm.subrange(a + 2, sm.len() - 1 - tail) =~= decimal(m));
    lemma_decimal_value(n);
    lemma_decimal_value(m);
}

/// Where the first `k` alternatives to a path are all taken, at least `k`
/// paths are taken.
pub proof fn lemma_alternatives_run_out(path: Seq<char>, taken: Seq<Seq<char>>, k: nat)
    requires
        forall|m: nat| 1 <= m <= k ==> taken.contains(#[trigger] numbered(path, m)),
    ensures
        k <= taken.len(),
    decreases k,
{
    if k > 0 {
        assert(taken.contains(numbered(path, k)));
        let i = choose|i: int| 0 <= i < taken.len() && taken[i] == numbered(path, k);
        let rest = taken.remove(i);
        assert forall|m: nat| 1 <= m <= k - 1 implies rest.contains(
            #[trigger] numbered(path, m),
        ) by {
            assert(taken.contains(numbered(path, m)));
            let j = choose|j: int| 0 <= j < taken.len() && taken[j] == numbered(path, m);
            if j == i {
                lemma_numbered_injective(path, m, k);
            }
            if j < i {
                assert(rest[j] == taken[j]);
            } else {
                assert(rest[j - 1] == taken[j]);
            }
        }
        lemma_alternatives_run_out(path, rest, (k - 1) as nat);
    }
}

fn numbered_path(chars: &Vec<char>, point: usize, n: u128) -> (out: String)
    requires
        point == numbering_point(chars@),
    ensures
        out@ == numbered(chars@, n as nat),
{
    proof {
        lemma_numbering_point_bounds(chars@);
        reveal_strlit(" (");
        reveal_strlit(")");
    }
    let mut buf = sub_vec(chars, 0, point);
    buf.push(' ');
    buf.push('(');
    push_decimal(&mut buf, n);
    buf.push(')');
    let mut i: usize = point;
    while i < chars.len()
        invariant
            point <= i <= chars.len(),
            buf@ == chars@.take(point as int) + " ("@ + decimal(n as nat) + ")"@
                + chars@.subrange(point as int, i as int),
        decreases chars.len() - i,
    {
        let ghost before = buf@;
        buf.push(chars[i]);
        proof {
            assert(chars@.subrange(point as int, i + 1) =~= chars@.subrange(
                point as int,
                i as int,
            ).push(chars@[i as int]));
            assert(buf@ =~= chars@.take(point as int) + " ("@ + decimal(n as nat) + ")"@
                + chars@.subrange(point as int, i + 1));
        }
        i += 1;
    }
    proof {
        assert(chars@.subrange(point as int, chars.len() as int) =~= chars@.skip(point as int));
    }
    let len = buf.len();
    from_chars(&buf, 0, len)
}

fn find_numbering_point(chars: &Vec<char>) -> (point: usize)
    ensures
        point == numbering_point(chars@),
{
    let start: usize = match find_last(chars, '/') {
        Some(i) => {
            proof {
                lemma_last_index_bounds(chars@, '/');
            }
            assert(i < chars.len());
            i + 1
        },
        None => 0,
    };
    let name = sub_vec(chars, start, chars.len());
    proof {
        lemma_last_index_bounds(name@, '.');
    }
    match find_last(&name, '.') {
        Some(dot) => if dot > 0 {
            start + dot
        } else {
            chars.len()
        },
        None => chars.len(),
    }
}

/// Whether `n` is the first number whose alternative to `path` is free.
pub open spec fn first_free(taken: Seq<Seq<char>>, path: Seq<char>, n: nat) -> bool {
    &&& n >= 1
    &&& !taken.contains(numbered(path, n))
    &&& forall|m: nat| 1 <= m < n ==> taken.contains(#[trigger] numbered(path, m))
}

/// The path under which an artifact meant for `path` is written when the
/// paths in `taken` exist already: `path` itself where it is free, else the
/// first free one of `name (1).ext`, `name (2).ext`, ...
pub open spec fn placed(taken: Seq<Seq<char>>, path: Seq<char>) -> Seq<char> {
    if !taken.contains(path) {
        path
    } else {
        numbered(path, choose|n: nat| first_free(taken, path, n))
    }
}

/// The name under which an artifact meant for `path` is written, given the
/// paths that the output tree already holds. The result is never one of
/// them.
pub fn avoid_collision(path: &str, taken: &Vec<String>) -> (out: String)
    ensures
        out@ == placed(names(taken@), path@),
        !names(taken@).contains(out@),
{
    let plain = String::from_str(path);
    if !is_taken(taken, &plain) {
        return plain;
    }
    let chars = to_chars(path);
    let point = find_numbering_point(&chars);
    let mut n: u128 = 1;
    loop
        invariant
            1 <= n <= taken.len() + 1,
            chars@ == path@,
            point == numbering_point(chars@),
            names(taken@).contains(path@),
            forall|m: nat| 1 <= m < n ==> names(taken@).contains(#[trigger] numbered(path@, m)),
        decreases taken.len() + 1 - n,
    {
        let candidate = numbered_path(&chars, point, n);
        if !is_taken(taken, &candidate) {
            proof {
                assert(first_free(names(taken@), path@, n as nat));
                let k = choose|k: nat| first_free(names(taken@), path@, k);
                assert(k == n);
            }
            return candidate;
        }
        proof {
            lemma_alternatives_run_out(path@, names(taken@), n as nat);
        }
        n += 1;
    }
}

/// Some alternative to a path is always free, so a placed path is never a
/// taken one; and where the path is taken and its first alternative is
/// free, the placed path is that alternative, `name (1).ext`.
pub proof fn lemma_placed_is_free(taken: Seq<Seq<char>>, path: Seq<char>)
    ensures
        !taken.contains(placed(taken, path)),
        taken.contains(path) && !taken.contains(numbered(path, 1)) ==> placed(taken, path)
            == numbered(path, 1),
{
    if taken.contains(path) {
        if forall|n: nat| !first_free(taken, path, n) {
            lemma_all_taken_up_to(taken, path, taken.len() + 1);
            lemma_alternatives_run_out(path, taken, taken.len() + 1);
        }
        let n = choose|n: nat| first_free(taken, path, n);
        assert(first_free(taken, path, n));
        if !taken.contains(numbered(path, 1)) {
            assert(first_free(taken, path, 1));
            assert(n == 1);
        }
    }
}

proof fn lemma_all_taken_up_to(taken: Seq<Seq<char>>, path: Seq<char>, k: nat)
    requires
        forall|n: nat| !first_free(taken, path, n),
    ensures
        forall|m: nat| 1 <= m <= k ==> taken.contains(#[trigger] numbered(path, m)),
    decreases k,
{
    if k > 0 {
        lemma_all_taken_up_to(taken, path, (k - 1) as nat);
        assert(!first_free(taken, path, k));
    }
}

/// The components of a path: what stands between its separators, empty
/// components included. There is always at least one.
pub open spec fn components(path: Seq<char>) -> Seq<Seq<char>>
    decreases path.len(),
{
    if path.len() == 0 {
        seq![Seq::empty()]
    } else if path.last() == '/' {
        components(path.drop_last()).push(Seq::empty())
    } else {
        components(path.drop_last()).drop_last().push(
            components(path.drop_last()).last().push(path.last()),
        )
    }
}

/// Whether a path starts at the root.
pub open spec fn is_rooted(path: Seq<char>) -> bool {
    path.len() > 0 && path[0] == '/'
}

/// Whether a component counts for nothing when a path is walked: an empty
/// one, and a `.` anywhere but at the very start.
pub open spec fn dropped_component(component: Seq<char>, leading: bool) -> bool {
    component.len() == 0 || (component == "."@ && !leading)
}

/// A component with the deleted marker behind it. `.` and `..` are no
/// names and stay as they are.
pub open spec fn marked_component(component: Seq<char>) -> Seq<char> {
    if component == "."@ || component == ".."@ {
        component
    } else {
        component + ".deleted"@
    }
}

/// `path` with one more component behind it.
pub open spec fn joined(path: Seq<char>, component: Seq<char>) -> Seq<char> {
    if path.len() == 0 || path.last() == '/' {
        path + component
    } else {
        path.push('/') + component
    }
}

/// The path made of the given components, each name among them marked as
/// deleted, behind the root where the path is rooted.
pub open spec fn marked_parts(parts: Seq<Seq<char>>, rooted: bool) -> Seq<char>
    decreases parts.len(),
{
    if parts.len() == 0 {
        if rooted {
            seq!['/']
        } else {
            Seq::empty()
        }
    } else if dropped_component(parts.last(), parts.len() == 1) {
        marked_parts(parts.drop_last(), rooted)
    } else {
        joined(marked_parts(parts.drop_last(), rooted), marked_component(parts.last()))
    }
}

/// `path` with the deleted marker behind each of its names. Repeated and
/// trailing separators and `.` components inside the path fall away; `..`
/// and a leading `.` stay as they are.
pub open spec fn marked_deleted(path: Seq<char>) -> Seq<char> {
    marked_parts(components(path), is_rooted(path))
}

fn append_chars(out: &mut Vec<char>, more: &Vec<char>)
    ensures
        final(out)@ == old(out)@ + more@,
{
    let mut i: usize = 0;
    while i < more.len()
        invariant
            i <= more.len(),
            out@ == old(out)@ + more@.take(i as int),
        decreases more.len() - i,
    {
        out.push(more[i]);
        proof {
            assert(out@ =~= old(out)@ + more@.take(i + 1));
        }
        i += 1;
    }
    proof {
        assert(more@.take(more.len() as int) =~= more@);
    }
}

fn push_component(out: &mut Vec<char>, component: &Vec<char>, leading: bool)
    ensures
        final(out)@ == if dropped_component(component@, leading) {
            old(out)@
        } else {
            joined(old(out)@, marked_component(component@))
        },
{
    if component.len() == 0 {
        return;
    }
    let is_dot = chars_eq(component, ".");
    if is_dot && !leading {
        return;
    }
    if out.len() > 0 && out[out.len() - 1] != '/' {
        out.push('/');
    }
    append_chars(out, component);
    if !is_dot && !chars_eq(component, "..") {
        let marker = to_chars(".deleted");
        append_chars(out, &marker);
    }
    proof {
        assert(final(out)@ =~= joined(old(out)@, marked_component(component@)));
    }
}

/// Appends `.deleted` to every name of a `/`-separated path. Components
/// that are no names (`..`, a leading `.`, the root) pass through as they
/// are, and the result has one separator between components.
pub fn rel_parts_with_deleted_suffix(rel: &str) -> (out: String)
    ensures
        out@ == marked_deleted(rel@),
{
    let chars = to_chars(rel);
    let rooted = chars.len() > 0 && chars[0] == '/';
    let mut out: Vec<char> = Vec::new();
    if rooted {
        out.push('/');
    }
    let mut component: Vec<char> = Vec::new();
    let mut leading = true;
    let mut i: usize = 0;
    proof {
        assert(chars@.take(0) =~= Seq::<char>::empty());
        assert(components(chars@.take(0)).drop_last() =~= Seq::<Seq<char>>::empty());
        assert(out@ =~= marked_parts(Seq::<Seq<char>>::empty(), rooted));
    }
    while i < chars.len()
        invariant
            i <= chars.len(),
            components(chars@.take(i as int)).len() >= 1,
            out@ == marked_parts(components(chars@.take(i as int)).drop_last(), rooted),
            component@ == components(chars@.take(i as int)).last(),
            leading == (components(chars@.take(i as int)).len() == 1),
        decreases chars.len() - i,
    {
        let ghost parts = components(chars@.take(i as int));
        let ghost next = components(chars@.take(i + 1));
        proof {
            assert(chars@.take(i + 1).drop_last() =~= chars@.take(i as int));
            assert(chars@.take(i + 1).last() == chars@[i as int]);
        }
        if chars[i] == '/' {
            push_component(&mut out, &component, leading);
            component = Vec::new();
            leading = false;
            proof {
                assert(next == parts.push(Seq::empty()));
                assert(next.drop_last() =~= parts);
            }
        } else {
            component.push(chars[i]);
            proof {
                assert(next == parts.drop_last().push(parts.last().push(chars@[i as int])));
                assert(next.drop_last() =~= parts.drop_last());
            }
        }
        i += 1;
    }
    proof {
        assert(chars@.take(chars.len() as int) =~= chars@);
    }
    push_component(&mut out, &component, leading);
    let len = out.len();
    proof {
        assert(out@.subrange(0, len as int) =~= out@);
    }
    from_chars(&out, 0, len)
}

} // verus!
