//! Byte-level building blocks of the RESP wire format: lines as `read_line`
//! delimits them, unsigned decimal numbers, and UTF-8 text.
use vstd::prelude::*;
use vstd::utf8::*;

verus! {

/// The byte `\r`.
pub const CR: u8 = 13;

/// The byte `\n`.
pub const LF: u8 = 10;

/// How many bytes `BufRead::read_line` takes from `s`: everything through the
/// first `\n`, or all of `s` when it holds no `\n`.
pub open spec fn line_len(s: Seq<u8>) -> nat
    decreases s.len(),
{
    if s.len() == 0 {
        0
    } else if s[0] == LF {
        1
    } else {
        1 + line_len(s.drop_first())
    }
}

/// The line that `BufRead::read_line` reads from the front of `s`.
pub open spec fn first_line(s: Seq<u8>) -> Seq<u8> {
    s.take(line_len(s) as int)
}

/// `s` holds no `\n`.
pub open spec fn no_newline(s: Seq<u8>) -> bool {
    forall|i: int| 0 <= i < s.len() ==> s[i] != LF
}

/// `s` ends with `\r\n`.
pub open spec fn ends_with_crlf(s: Seq<u8>) -> bool {
    s.len() >= 2 && s[s.len() - 2] == CR && s[s.len() - 1] == LF
}

/// `str::strip_prefix` with a one-byte ASCII pattern, falling back to the
/// whole text when the prefix is absent.
pub open spec fn strip_byte_prefix(s: Seq<u8>, b: u8) -> Seq<u8> {
    if s.len() > 0 && s[0] == b {
        s.drop_first()
    } else {
        s
    }
}

/// `str::strip_suffix("\r\n")`, falling back to the whole text when the
/// suffix is absent.
pub open spec fn strip_crlf(s: Seq<u8>) -> Seq<u8> {
    if ends_with_crlf(s) {
        s.take(s.len() - 2)
    } else {
        s
    }
}

/// An ASCII decimal digit.
pub open spec fn is_digit(b: u8) -> bool {
    48 <= b <= 57
}

/// Every byte of `s` is a decimal digit.
pub open spec fn all_digits(s: Seq<u8>) -> bool {
    forall|i: int| 0 <= i < s.len() ==> is_digit(s[i])
}

/// The number that the decimal digits `s` spell.
pub open spec fn digits_value(s: Seq<u8>) -> nat
    decreases s.len(),
{
    if s.len() == 0 {
        0
    } else {
        digits_value(s.drop_last()) * 10 + (s.last() - 48) as nat
    }
}

/// What `str::parse::<usize>` gives on the text `s`: an optional `+`, then
/// one or more decimal digits whose value fits in a `usize`.
pub open spec fn parse_usize(s: Seq<u8>) -> Option<nat> {
    let digits = strip_byte_prefix(s, 43);
    if digits.len() > 0 && all_digits(digits) && digits_value(digits) <= usize::MAX {
        Some(digits_value(digits))
    } else {
        None
    }
}

/// The decimal text of `n`, as `Display` writes an unsigned integer: no sign
/// and no leading zeros.
pub open spec fn decimal(n: nat) -> Seq<u8>
    decreases n,
{
    if n < 10 {
        seq![(48 + n) as u8]
    } else {
        decimal(n / 10).push((48 + n % 10) as u8)
    }
}

/// Every byte of `s` is ASCII.
pub open spec fn is_ascii_bytes(s: Seq<u8>) -> bool {
    forall|i: int| 0 <= i < s.len() ==> s[i] < 128
}

/// `std::str::from_utf8`: the bytes are accepted exactly when they are valid
/// UTF-8, and the text handed back is made of those same bytes.
#[verifier::external_body]
pub(crate) fn str_from_utf8(bytes: &[u8]) -> (text: Option<&str>)
    ensures
        text is Some <==> valid_utf8(bytes@),
        text matches Some(t) ==> encode_utf8(t@) == bytes@,
{
    std::str::from_utf8(bytes).ok()
}

/// Turns `bytes` into an owned string when they are valid UTF-8.
pub fn string_from_utf8(bytes: &[u8]) -> (text: Option<String>)
    ensures
        text is Some <==> valid_utf8(bytes@),
        text matches Some(t) ==> t@ == decode_utf8(bytes@),
{
    match str_from_utf8(bytes) {
        Some(t) => {
            proof {
                encode_utf8_decode_utf8(t@);
            }
            Some(t.to_owned())
        },
        None => None,
    }
}

/// Whether `bytes` are valid UTF-8, as `read_line` checks each line it reads.
pub fn is_utf8(bytes: &[u8]) -> (valid: bool)
    ensures
        valid == valid_utf8(bytes@),
{
    str_from_utf8(bytes).is_some()
}

/// The UTF-8 bytes of a string.
pub fn string_bytes(s: &String) -> (bytes: &[u8])
    ensures
        bytes@ == encode_utf8(s@),
{
    s.as_str().as_bytes()
}

/// Appends `bytes` to `out`.
pub fn append_bytes(out: &mut Vec<u8>, bytes: &[u8])
    ensures
        final(out)@ == old(out)@ + bytes@,
{
    let mut i: usize = 0;
    while i < bytes.len()
        invariant
            i <= bytes@.len(),
            out@ == old(out)@ + bytes@.take(i as int),
        decreases bytes@.len() - i,
    {
        out.push(bytes[i]);
        i = i + 1;
        assert(bytes@.take(i as int) == bytes@.take(i - 1).push(bytes@[i - 1]));
    }
    assert(bytes@.take(i as int) == bytes@);
}

/// A copy of `bytes[start..end]`.
pub fn copy_range(bytes: &[u8], start: usize, end: usize) -> (part: Vec<u8>)
    requires
        start <= end <= bytes@.len(),
    ensures
        part@ == bytes@.subrange(start as int, end as int),
{
    let mut part: Vec<u8> = Vec::new();
    append_bytes(&mut part, &bytes[start..end]);
    part
}

/// The index just past the line that starts at `start`, that is `start`
/// plus what `read_line` would take from `bytes[start..]`.
pub fn line_end(bytes: &[u8], start: usize) -> (end: usize)
    requires
        start <= bytes@.len(),
    ensures
        start <= end <= bytes@.len(),
        end - start == line_len(bytes@.skip(start as int)),
{
    let mut j: usize = start;
    while j < bytes.len()
        invariant
            start <= j <= bytes@.len(),
            line_len(bytes@.skip(start as int)) == (j - start) + line_len(bytes@.skip(j as int)),
        decreases bytes@.len() - j,
    {
        let ghost rest = bytes@.skip(j as int);
        if bytes[j] == LF {
            assert(rest[0] == LF);
            return j + 1;
        }
        assert(rest.drop_first() == bytes@.skip(j + 1));
        j = j + 1;
    }
    assert(bytes@.skip(j as int).len() == 0);
    j
}

/// Parses the text `bytes[start..end]` as `str::parse::<usize>` does.
pub fn parse_usize_at(bytes: &[u8], start: usize, end: usize) -> (value: Option<usize>)
    requires
        start <= end <= bytes@.len(),
    ensures
        value matches Some(v) ==> parse_usize(bytes@.subrange(start as int, end as int)) == Some(
            v as nat,
        ),
        value is None ==> parse_usize(bytes@.subrange(start as int, end as int)) is None,
{
    let ghost text = bytes@.subrange(start as int, end as int);
    let mut i: usize = start;
    if start < end && bytes[start] == 43 {
        i = start + 1;
    }
    let ghost digits = bytes@.subrange(i as int, end as int);
    assert(digits == strip_byte_prefix(text, 43));
    if i == end {
        return None;
    }
    let mut acc: usize = 0;
    let mut k: usize = i;
    while k < end
        invariant
            i <= k <= end <= bytes@.len(),
            i < end,
            text == bytes@.subrange(start as int, end as int),
            digits == bytes@.subrange(i as int, end as int),
            digits == strip_byte_prefix(text, 43),
            all_digits(digits.take(k - i)),
            acc == digits_value(digits.take(k - i)),
        decreases end - k,
    {
        let b = bytes[k];
        if b < 48 || b > 57 {
            assert(digits[k - i] == b);
            return None;
        }
        let ghost prefix = digits.take(k - i + 1);
        assert(prefix.drop_last() == digits.take(k - i));
        assert(prefix.last() == b);
        match acc.checked_mul(10) {
            Some(m) => match m.checked_add((b - 48) as usize) {
                Some(next) => {
                    acc = next;
                },
                None => {
                    proof {
                        lemma_digits_value_monotone(digits, k - i + 1, digits.len() as int);
                        assert(digits.take(digits.len() as int) == digits);
                        assert(digits_value(prefix) > usize::MAX);
                    }
                    return None;
                },
            },
            None => {
                proof {
                    lemma_digits_value_monotone(digits, k - i + 1, digits.len() as int);
                    assert(digits.take(digits.len() as int) == digits);
                    assert(digits_value(prefix) >= acc * 10);
                }
                return None;
            },
        }
        k = k + 1;
    }
    assert(digits.take(k - i) == digits);
    Some(acc)
}

/// Appends the decimal text of `n` to `out`.
pub fn push_decimal(out: &mut Vec<u8>, n: usize)
    ensures
        final(out)@ == old(out)@ + decimal(n as nat),
    decreases n,
{
    if n >= 10 {
        push_decimal(out, n / 10);
    }
    out.push((48 + n % 10) as u8);
    proof {
        if n >= 10 {
            assert(decimal(n as nat) == decimal((n / 10) as nat).push((48 + n % 10) as u8));
        } else {
            assert(decimal(n as nat) == seq![(48 + n) as u8]);
        }
    }
}

/// A longer run of digits is worth at least as much as its prefix.
pub proof fn lemma_digits_value_monotone(s: Seq<u8>, i: int, j: int)
    requires
        0 <= i <= j <= s.len(),
    ensures
        digits_value(s.take(i)) <= digits_value(s.take(j)),
    decreases j - i,
{
    if i < j {
        lemma_digits_value_monotone(s, i, j - 1);
        assert(s.take(j).drop_last() == s.take(j - 1));
    }
}

/// The decimal text of a number is all digits, does not start with `+`, and
/// spells that number back.
pub proof fn lemma_decimal_digits(n: nat)
    ensures
        decimal(n).len() > 0,
        all_digits(decimal(n)),
        decimal(n)[0] != 43,
        digits_value(decimal(n)) == n,
        is_ascii_bytes(decimal(n)),
        no_newline(decimal(n)),
    decreases n,
{
    if n >= 10 {
        lemma_decimal_digits(n / 10);
        let d = decimal(n);
        assert(d.drop_last() == decimal(n / 10));
        assert(n == (n / 10) * 10 + n % 10) by (nonlinear_arith);
        assert(n % 10 < 10);
        assert(d.last() == (48 + n % 10) as u8);
        assert(d.last() as int == 48 + n % 10);
        assert(digits_value(d) == digits_value(d.drop_last()) * 10 + (d.last() - 48) as nat);
    } else {
        let d = decimal(n);
        assert(d.last() as int == 48 + n);
        assert(d.drop_last().len() == 0);
        assert(digits_value(d) == digits_value(d.drop_last()) * 10 + (d.last() - 48) as nat);
    }
}

/// `parse_usize` reads back the decimal text of any number that fits in a
/// `usize`.
pub proof fn lemma_parse_decimal(n: nat)
    requires
        n <= usize::MAX,
    ensures
        parse_usize(decimal(n)) == Some(n),
{
    lemma_decimal_digits(n);
}

/// Facts about the line `read_line` takes: it is a prefix of the input, it
/// holds no `\n` but possibly at its end, and it ends in `\n` unless it runs
/// to the end of the input.
pub proof fn lemma_line_len(s: Seq<u8>)
    ensures
        line_len(s) <= s.len(),
        no_newline(s.take(line_len(s) - 1)) || line_len(s) == 0,
        line_len(s) < s.len() ==> line_len(s) > 0 && s[line_len(s) - 1] == LF,
        line_len(s) > 0 && s[line_len(s) - 1] != LF ==> line_len(s) == s.len() && no_newline(s),
        line_len(s) == 0 ==> s.len() == 0,
    decreases s.len(),
{
    if s.len() > 0 && s[0] != LF {
        let t = s.drop_first();
        lemma_line_len(t);
        let n = line_len(s);
        assert forall|i: int| 0 <= i < n - 1 implies #[trigger] s.take(n - 1)[i] != LF by {
            if i > 0 {
                assert(s.take(n - 1)[i] == t[i - 1]);
                assert(t.take(line_len(t) - 1)[i - 1] == t[i - 1]);
            }
        }
        if line_len(t) > 0 && t[line_len(t) - 1] != LF {
            assert forall|i: int| 0 <= i < s.len() implies s[i] != LF by {
                if i > 0 {
                    assert(s[i] == t[i - 1]);
                }
            }
        }
    }
}

/// The line `read_line` takes from text that has no `\n` before a given
/// `\n` ends at that `\n`.
pub proof fn lemma_line_len_at_newline(s: Seq<u8>, k: int)
    requires
        0 <= k < s.len(),
        s[k] == LF,
        no_newline(s.take(k)),
    ensures
        line_len(s) == k + 1,
    decreases k,
{
    if k > 0 {
        assert(s[0] == s.take(k)[0]);
        let t = s.drop_first();
        assert(t.take(k - 1) =~= s.take(k).drop_first());
        lemma_line_len_at_newline(t, k - 1);
    }
}

/// An ASCII byte sequence is valid UTF-8.
pub proof fn lemma_ascii_valid(s: Seq<u8>)
    requires
        is_ascii_bytes(s),
    ensures
        valid_utf8(s),
    decreases s.len(),
{
    if s.len() > 0 {
        let t = s.drop_first();
        assert(pop_first_scalar(s) == t);
        lemma_ascii_valid(t);
    }
}

/// Bytes framed by ASCII on either side are valid UTF-8 exactly when the
/// middle part is.
pub proof fn lemma_ascii_frame_valid(pre: Seq<u8>, mid: Seq<u8>, post: Seq<u8>)
    requires
        is_ascii_bytes(pre),
        is_ascii_bytes(post),
    ensures
        valid_utf8(pre + mid + post) <==> valid_utf8(mid),
    decreases pre.len(),
{
    lemma_ascii_valid(pre);
    lemma_ascii_valid(post);
    if valid_utf8(mid) {
        valid_utf8_concat(pre, mid);
        valid_utf8_concat(pre + mid, post);
    }
    if valid_utf8(pre + mid + post) {
        if pre.len() > 0 {
            let whole = pre + mid + post;
            assert(pop_first_scalar(whole) =~= pre.drop_first() + mid + post);
            lemma_ascii_frame_valid(pre.drop_first(), mid, post);
        } else {
            assert(pre + mid + post =~= mid + post);
            lemma_ascii_suffix_valid(mid, post);
        }
    }
}

/// Stripping an ASCII tail from valid UTF-8 leaves valid UTF-8.
proof fn lemma_ascii_suffix_valid(mid: Seq<u8>, post: Seq<u8>)
    requires
        is_ascii_bytes(post),
        valid_utf8(mid + post),
    ensures
        valid_utf8(mid),
{
    let whole = mid + post;
    if mid.len() < whole.len() {
        is_char_boundary_iff_not_is_continuation_byte(whole, mid.len() as int);
        assert(whole[mid.len() as int] == post[0]);
        valid_utf8_split(whole, mid.len() as int);
        assert(whole.subrange(0, mid.len() as int) =~= mid);
    } else {
        assert(whole =~= mid);
    }
}

} // verus!
