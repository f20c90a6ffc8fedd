//! Short texts shown by the companion apps: truncated titles, clock read-outs and
//! countdowns.

use vstd::prelude::*;
use crate::text::{chars_of, push_char, string_of, string_of_range};

verus! {

/// `title` cut to its first `max_chars` characters followed by `…`, when it is
/// longer than that.
pub open spec fn truncated_spec(title: Seq<char>, max_chars: nat) -> Seq<char> {
    if title.len() <= max_chars {
        title
    } else {
        title.subrange(0, max_chars as int).push('…')
    }
}

/// `title` cut to at most `max_chars` characters, with `…` marking a cut.
pub fn truncated_label(title: &str, max_chars: usize) -> (r: String)
    ensures
        r@ == truncated_spec(title@, max_chars as nat),
{
    let v = chars_of(title);
    if v.len() <= max_chars {
        string_of(&v)
    } else {
        let mut r = string_of_range(&v, 0, max_chars);
        push_char(&mut r, '…');
        r
    }
}

/// The decimal digit character for `d`, which is below ten.
pub open spec fn digit_char(d: int) -> char {
    if d == 0 {
        '0'
    } else if d == 1 {
        '1'
    } else if d == 2 {
        '2'
    } else if d == 3 {
        '3'
    } else if d == 4 {
        '4'
    } else if d == 5 {
        '5'
    } else if d == 6 {
        '6'
    } else if d == 7 {
        '7'
    } else if d == 8 {
        '8'
    } else {
        '9'
    }
}

/// The decimal notation of `n`, without leading zeros.
pub open spec fn decimal_spec(n: nat) -> Seq<char>
    decreases n,
{
    if n < 10 {
        seq![digit_char(n as int)]
    } else {
        decimal_spec(n / 10).push(digit_char((n % 10) as int))
    }
}

/// The decimal notation of `n`, padded with zeros to at least two digits (`{:02}`).
pub open spec fn pad2_spec(n: nat) -> Seq<char> {
    if n < 10 {
        seq!['0', digit_char(n as int)]
    } else {
        decimal_spec(n)
    }
}

/// The non-negative part of `n`.
pub open spec fn clamp_nonneg(n: int) -> nat {
    if n < 0 {
        0
    } else {
        n as nat
    }
}

/// `HH:MM:SS` for a number of seconds; negative counts read as zero and the hours
/// are not bounded.
pub open spec fn hms_spec(total_seconds: int) -> Seq<char> {
    let s = clamp_nonneg(total_seconds);
    pad2_spec(s / 3600) + seq![':'] + pad2_spec((s % 3600) / 60) + seq![':'] + pad2_spec(s % 60)
}

fn digit(d: u64) -> (c: char)
    requires
        d < 10,
    ensures
        c == digit_char(d as int),
{
    if d == 0 {
        '0'
    } else if d == 1 {
        '1'
    } else if d == 2 {
        '2'
    } else if d == 3 {
        '3'
    } else if d == 4 {
        '4'
    } else if d == 5 {
        '5'
    } else if d == 6 {
        '6'
    } else if d == 7 {
        '7'
    } else if d == 8 {
        '8'
    } else {
        '9'
    }
}

fn push_decimal(out: &mut String, n: u64)
    ensures
        final(out)@ == old(out)@ + decimal_spec(n as nat),
    decreases n,
{
    if n >= 10 {
        push_decimal(out, n / 10);
    }
    push_char(out, digit(n % 10));
    if n < 10 {
        assert(old(out)@.push(digit_char(n as int)) =~= old(out)@ + seq![digit_char(n as int)]);
    } else {
        assert(old(out)@ + decimal_spec((n / 10) as nat) + seq![digit_char((n % 10) as int)]
            =~= old(out)@ + decimal_spec(n as nat));
    }
}

fn push_pad2(out: &mut String, n: u64)
    ensures
        final(out)@ == old(out)@ + pad2_spec(n as nat),
{
    if n < 10 {
        push_char(out, '0');
        push_char(out, digit(n));
        assert(old(out)@.push('0').push(digit_char(n as int)) =~= old(out)@ + seq![
            '0',
            digit_char(n as int),
        ]);
    } else {
        push_decimal(out, n);
    }
}

/// A number of seconds as `HH:MM:SS`, each part at least two digits; negative
/// counts read as zero.
pub fn format_hms(total_seconds: i64) -> (r: String)
    ensures
        r@ == hms_spec(total_seconds as int),
{
    let s: u64 = if total_seconds < 0 {
        0
    } else {
        total_seconds as u64
    };
    let h = s / 3600;
    let m = (s % 3600) / 60;
    let sec = s % 60;
    let mut r = String::new();
    push_pad2(&mut r, h);
    push_char(&mut r, ':');
    push_pad2(&mut r, m);
    push_char(&mut r, ':');
    push_pad2(&mut r, sec);
    assert(r@ =~= hms_spec(total_seconds as int));
    r
}

/// Whole seconds left until `next_reset_ms`, never negative.
pub open spec fn countdown_spec(next_reset_ms: int, now_ms: int) -> int {
    let d = next_reset_ms - now_ms;
    if d > 0 {
        d / 1000
    } else {
        0
    }
}

/// Whole seconds from `now_ms` until `next_reset_ms` (both in milliseconds), or
/// zero once the reset has passed.
pub fn countdown_seconds(next_reset_ms: i64, now_ms: i64) -> (r: i64)
    requires
        i64::MIN <= next_reset_ms - now_ms <= i64::MAX,
    ensures
        r == countdown_spec(next_reset_ms as int, now_ms as int),
{
    let d = next_reset_ms - now_ms;
    let q = d / 1000;
    if q > 0 {
        q
    } else {
        0
    }
}

/// The countdown pill: the time left and the card mode when a card is shown, a
/// dash otherwise.
pub open spec fn pill_spec(countdown: int, mode: Option<Seq<char>>) -> Seq<char> {
    match mode {
        Some(m) => "Next card in "@ + hms_spec(countdown) + " • UTC reset • mode: "@ + m,
        None => "Next card: —"@,
    }
}

/// The text of the countdown pill.
pub fn countdown_pill(countdown: i64, mode: Option<&str>) -> (r: String)
    ensures
        r@ == pill_spec(countdown as int, match mode {
            Some(m) => Some(m@),
            None => None,
        }),
{
    match mode {
        Some(m) => {
            let hms = format_hms(countdown);
            let mut r = String::from_str("Next card in ");
            r.append(hms.as_str());
            r.append(" • UTC reset • mode: ");
            r.append(m);
            r
        },
        None => String::from_str("Next card: —"),
    }
}

/// A label keeps the title's first characters and is at most one character (the
/// ellipsis) longer than `max_chars`.
pub proof fn law_label_keeps_title_start(title: Seq<char>, max_chars: nat)
    ensures
        truncated_spec(title, max_chars).len() <= max_chars + 1,
        ({
            let k = if title.len() <= max_chars {
                title.len()
            } else {
                max_chars
            };
            truncated_spec(title, max_chars).subrange(0, k as int) == title.subrange(0, k as int)
        }),
{
    if title.len() <= max_chars {
        assert(title.subrange(0, title.len() as int) =~= title);
    } else {
        let r = truncated_spec(title, max_chars);
        assert(r.subrange(0, max_chars as int) =~= title.subrange(0, max_chars as int));
    }
}

proof fn lemma_pad2_two_digits(n: nat)
    requires
        n < 100,
    ensures
        pad2_spec(n).len() == 2,
{
    if n >= 10 {
        assert(n / 10 < 10);
        assert(decimal_spec(n / 10).len() == 1);
        assert(decimal_spec(n) == decimal_spec(n / 10).push(digit_char((n % 10) as int)));
    }
}

/// Under one hundred hours the read-out is exactly `HH:MM:SS`: eight characters
/// with colons at the third and sixth place.
pub proof fn law_hms_fixed_width(total_seconds: int)
    requires
        total_seconds < 360000,
    ensures
        hms_spec(total_seconds).len() == 8,
        hms_spec(total_seconds)[2] == ':',
        hms_spec(total_seconds)[5] == ':',
{
    let s = clamp_nonneg(total_seconds);
    lemma_pad2_two_digits(s / 3600);
    lemma_pad2_two_digits((s % 3600) / 60);
    lemma_pad2_two_digits(s % 60);
}

/// Whether every character of `s` is one of the ASCII digits `0`..`9`.
pub open spec fn all_ascii_digits(s: Seq<char>) -> bool {
    forall|t: int| 0 <= t < s.len() ==> is_ascii_digit(#[trigger] s[t])
}

/// Whether `c` is one of the ASCII digits `0`..`9`.
pub open spec fn is_ascii_digit(c: char) -> bool {
    48 <= c as u32 <= 57
}

/// The number that the ASCII digits `s` denote in base ten.
pub open spec fn decimal_value(s: Seq<char>) -> int
    decreases s.len(),
{
    if s.len() == 0 {
        0
    } else {
        decimal_value(s.drop_last()) * 10 + (s.last() as u32 - 48)
    }
}

/// Each digit character is the ASCII character of its value.
pub proof fn law_digit_char_is_ascii_digit(d: int)
    requires
        0 <= d < 10,
    ensures
        digit_char(d) as u32 == 48 + d,
{
}

/// The decimal notation of `n` is made of ASCII digits, has no leading zero, and
/// reads back as `n`.
pub proof fn law_decimal_reads_back(n: nat)
    ensures
        all_ascii_digits(decimal_spec(n)),
        decimal_value(decimal_spec(n)) == n,
        decimal_spec(n).len() >= 1,
        decimal_spec(n).len() > 1 ==> decimal_spec(n)[0] != '0',
    decreases n,
{
    if n < 10 {
        law_digit_char_is_ascii_digit(n as int);
        let s = decimal_spec(n);
        assert(s.drop_last() =~= Seq::<char>::empty());
        assert(decimal_value(Seq::<char>::empty()) == 0);
        assert(s.last() == digit_char(n as int));
        assert(decimal_value(s) == decimal_value(s.drop_last()) * 10 + (s.last() as u32 - 48));
    } else {
        law_decimal_reads_back(n / 10);
        law_digit_char_is_ascii_digit((n % 10) as int);
        let p = decimal_spec(n / 10);
        let s = decimal_spec(n);
        assert(s == p.push(digit_char((n % 10) as int)));
        assert(s.drop_last() =~= p);
        assert(s.last() == digit_char((n % 10) as int));
        assert forall|t: int| 0 <= t < s.len() implies is_ascii_digit(#[trigger] s[t]) by {
            if t < p.len() {
                assert(s[t] == p[t]);
            }
        }
        assert(s[0] == p[0]);
        if p.len() == 1 {
            assert(n / 10 < 10) by {
                if n / 10 >= 10 {
                    law_decimal_reads_back((n / 10) / 10);
                    assert(decimal_spec(n / 10) == decimal_spec((n / 10) / 10).push(digit_char(((n / 10) % 10) as int)));
                }
            }
            law_digit_char_is_ascii_digit((n / 10) as int);
            assert(p[0] == digit_char((n / 10) as int));
        }
        assert((n / 10) * 10 + n % 10 == n);
        assert(s.last() as u32 == 48 + n % 10);
        assert(decimal_value(s) == decimal_value(s.drop_last()) * 10 + (s.last() as u32 - 48));
        assert(decimal_value(p) == n / 10);
    }
}

/// The zero-padded notation of `n` is made of ASCII digits, has at least two of
/// them, and reads back as `n`.
pub proof fn law_pad2_reads_back(n: nat)
    ensures
        all_ascii_digits(pad2_spec(n)),
        decimal_value(pad2_spec(n)) == n,
        pad2_spec(n).len() >= 2,
{
    if n < 10 {
        law_digit_char_is_ascii_digit(n as int);
        let s = pad2_spec(n);
        assert(s.drop_last() =~= seq!['0']);
        assert(seq!['0'].drop_last() =~= Seq::<char>::empty());
        assert(decimal_value(Seq::<char>::empty()) == 0);
        assert(decimal_value(seq!['0']) == decimal_value(seq!['0'].drop_last()) * 10 + ('0' as u32 - 48));
        assert(decimal_value(seq!['0']) == 0);
        assert(s.last() == digit_char(n as int));
        assert(decimal_value(s) == decimal_value(s.drop_last()) * 10 + (s.last() as u32 - 48));
        assert forall|t: int| 0 <= t < s.len() implies is_ascii_digit(#[trigger] s[t]) by {
            if t == 0 {
                assert(s[0] == '0');
            }
        }
    } else {
        law_decimal_reads_back(n);
        law_decimal_reads_back(n / 10);
        assert(decimal_spec(n).len() == decimal_spec(n / 10).len() + 1);
    }
}

/// The read-out of a number of seconds `s` (negative read as zero) consists of
/// the hours, minutes and seconds of `s` in ASCII decimal, separated by colons;
/// minutes and seconds take exactly two digits.
pub proof fn law_hms_reads_back(total_seconds: int)
    ensures
        ({
            let t = hms_spec(total_seconds);
            let s = if total_seconds < 0 {
                0
            } else {
                total_seconds
            };
            let k = t.len() - 6;
            &&& k >= 2
            &&& all_ascii_digits(t.subrange(0, k))
            &&& decimal_value(t.subrange(0, k)) == s / 3600
            &&& t[k] == ':'
            &&& all_ascii_digits(t.subrange(k + 1, k + 3))
            &&& decimal_value(t.subrange(k + 1, k + 3)) == (s % 3600) / 60
            &&& t[k + 3] == ':'
            &&& all_ascii_digits(t.subrange(k + 4, k + 6))
            &&& decimal_value(t.subrange(k + 4, k + 6)) == s % 60
        }),
{
    let s = clamp_nonneg(total_seconds);
    let h = pad2_spec(s / 3600);
    let m = pad2_spec((s % 3600) / 60);
    let c = pad2_spec(s % 60);
    law_pad2_reads_back(s / 3600);
    law_pad2_reads_back((s % 3600) / 60);
    law_pad2_reads_back(s % 60);
    lemma_pad2_two_digits((s % 3600) / 60);
    lemma_pad2_two_digits(s % 60);
    let t = hms_spec(total_seconds);
    let k = t.len() - 6;
    assert(t == h + seq![':'] + m + seq![':'] + c);
    assert(k == h.len());
    assert(t.subrange(0, k) =~= h);
    assert(t.subrange(k + 1, k + 3) =~= m);
    assert(t.subrange(k + 4, k + 6) =~= c);
}

/// A title that fits is shown whole; a longer one is cut to exactly `max_chars`
/// of its first characters followed by the ellipsis character U+2026.
pub proof fn law_label_cut_marked_by_ellipsis(title: Seq<char>, max_chars: nat)
    ensures
        title.len() <= max_chars ==> truncated_spec(title, max_chars) == title,
        title.len() > max_chars ==> truncated_spec(title, max_chars).len() == max_chars + 1
            && truncated_spec(title, max_chars).last() as u32 == 0x2026 && truncated_spec(title, max_chars).subrange(
            0,
            max_chars as int,
        ) == title.subrange(0, max_chars as int),
{
    if title.len() > max_chars {
        let r = truncated_spec(title, max_chars);
        assert(r.subrange(0, max_chars as int) =~= title.subrange(0, max_chars as int));
    }
}

/// The countdown is the number of whole seconds in the time left: zero once the
/// reset is due, otherwise the largest `c` with `c` seconds fitting into the
/// milliseconds left.
pub proof fn law_countdown_whole_seconds(next_reset_ms: int, now_ms: int)
    ensures
        next_reset_ms <= now_ms ==> countdown_spec(next_reset_ms, now_ms) == 0,
        next_reset_ms > now_ms ==> countdown_spec(next_reset_ms, now_ms) * 1000 <= next_reset_ms - now_ms < (
        countdown_spec(next_reset_ms, now_ms) + 1) * 1000,
{
}

} // verus!
