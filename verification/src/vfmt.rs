//! Number and string FORMATTING, in one place, because the emitted text is a contract everywhere it
//! is used: the committed URDF the converter writes, the recorder document and the JSON compared
//! against pinned text. This module holds the text side of the rules — where the point goes, how an
//! exponent is spelled, how a list is laid out, how a JSON string is escaped; the shortest digits of
//! a float themselves come from the float formatter.
use crate::text::{opt_view, push_char};
use vstd::prelude::*;

verus! {

/// The decimal digit `d` (0..=9) as a character.
pub open spec fn digit_char(d: nat) -> char {
    (48 + d) as char
}

/// The decimal spelling of `n`, without leading zeros.
pub open spec fn decimal(n: nat) -> Seq<char>
    decreases n,
{
    if n < 10 {
        seq![digit_char(n)]
    } else {
        decimal(n / 10).push(digit_char(n % 10))
    }
}

/// Appends the decimal spelling of `n`.
pub fn push_decimal(out: &mut String, n: u64)
    ensures
        final(out)@ == old(out)@ + decimal(n as nat),
    decreases n,
{
    if n >= 10 {
        push_decimal(out, n / 10);
    }
    let d = (n % 10) as u8;
    let c = (48u8 + d) as char;
    assert(c == digit_char((n % 10) as nat));
    push_char(out, c);
}

/// `n` in at least two digits, zero-padded on the left (`{:02}`).
pub open spec fn two_digits(n: nat) -> Seq<char> {
    if n < 10 {
        seq!['0'] + decimal(n)
    } else {
        decimal(n)
    }
}

/// The exponent as the pinned text writes it: always signed, at least two digits.
pub open spec fn exponent_text(exp: int) -> Seq<char> {
    if exp < 0 {
        seq!['-'] + two_digits((-exp) as nat)
    } else {
        seq!['+'] + two_digits(exp as nat)
    }
}

fn push_exponent(out: &mut String, exp: i32)
    requires
        exp > i32::MIN,
    ensures
        final(out)@ == old(out)@ + exponent_text(exp as int),
{
    let mag: u32 = if exp < 0 {
        push_char(out, '-');
        (-exp) as u32
    } else {
        push_char(out, '+');
        exp as u32
    };
    if mag < 10 {
        push_char(out, '0');
    }
    push_decimal(out, mag as u64);
    assert(mag as int == if exp < 0 { -exp } else { exp as int });
}

/// `n` copies of `c`.
pub open spec fn repeat_char(c: char, n: nat) -> Seq<char> {
    Seq::new(n, |_i: int| c)
}

fn push_repeat(out: &mut String, c: char, n: usize)
    ensures
        final(out)@ == old(out)@ + repeat_char(c, n as nat),
{
    let mut i: usize = 0;
    let ghost start = out@;
    while i < n
        invariant
            i <= n,
            out@ == start + repeat_char(c, i as nat),
        decreases n - i,
    {
        push_char(out, c);
        assert(repeat_char(c, (i + 1) as nat) =~= repeat_char(c, i as nat).push(c));
        i = i + 1;
    }
}

fn push_range(out: &mut String, s: &str, from: usize, to: usize)
    requires
        from <= to <= s@.len(),
    ensures
        final(out)@ == old(out)@ + s@.subrange(from as int, to as int),
{
    let mut i = from;
    let ghost start = out@;
    while i < to
        invariant
            from <= i <= to,
            to <= s@.len(),
            out@ == start + s@.subrange(from as int, i as int),
        decreases to - i,
    {
        push_char(out, s.get_char(i));
        assert(s@.subrange(from as int, i + 1) =~= s@.subrange(from as int, i as int).push(
            s@[i as int],
        ));
        i = i + 1;
    }
}

/// The sign of a negative number.
pub open spec fn sign_text(neg: bool) -> Seq<char> {
    if neg {
        seq!['-']
    } else {
        Seq::empty()
    }
}

/// The pinned decimal notation of `d0.d1d2... * 10^exp`: no exponent, the point placed by `exp`,
/// and a `.0` when every digit is integer part.
pub open spec fn spec_decimal_form(neg: bool, digits: Seq<char>, exp: int) -> Seq<char> {
    sign_text(neg) + if exp < 0 {
        "0."@ + repeat_char('0', (-exp - 1) as nat) + digits
    } else {
        let ip = exp + 1;
        if ip >= digits.len() {
            digits + repeat_char('0', (ip - digits.len()) as nat) + ".0"@
        } else {
            digits.take(ip) + seq!['.'] + digits.skip(ip)
        }
    }
}

/// decimal_form places the point in the pinned decimal notation: no exponent, and a `.0` when every
/// digit is integer part.
pub fn decimal_form(neg: bool, digits: &str, exp: i32) -> (r: String)
    requires
        exp > i32::MIN,
    ensures
        r@ == spec_decimal_form(neg, digits@, exp as int),
{
    let mut out = String::new();
    if neg {
        push_char(&mut out, '-');
    }
    let ghost head = out@;
    assert(head == sign_text(neg));
    let n = digits.unicode_len();
    if exp < 0 {
        out.append("0.");
        push_repeat(&mut out, '0', (-exp - 1) as usize);
        out.append(digits);
    } else {
        let ip = (exp as usize) + 1;
        if ip >= n {
            out.append(digits);
            push_repeat(&mut out, '0', ip - n);
            out.append(".0");
        } else {
            push_range(&mut out, digits, 0, ip);
            push_char(&mut out, '.');
            push_range(&mut out, digits, ip, n);
            assert(digits@.subrange(0, ip as int) =~= digits@.take(ip as int));
            assert(digits@.subrange(ip as int, n as int) =~= digits@.skip(ip as int));
        }
    }
    assert(out@ =~= spec_decimal_form(neg, digits@, exp as int));
    out
}

/// `s` without its trailing '0's.
pub open spec fn trim_zeros(s: Seq<char>) -> Seq<char>
    decreases s.len(),
{
    if s.len() > 0 && s.last() == '0' {
        trim_zeros(s.drop_last())
    } else {
        s
    }
}

/// The pinned scientific notation: one digit, then the rest with trailing zeros dropped and no
/// point when there is no fraction, and an exponent that always carries its sign and at least two
/// digits (`1e+06`, `6.103515625e-05`).
pub open spec fn spec_scientific_form(neg: bool, digits: Seq<char>, exp: int) -> Seq<char> {
    let frac = trim_zeros(digits.skip(1));
    sign_text(neg) + seq![digits[0]] + (if frac.len() > 0 {
        seq!['.'] + frac
    } else {
        Seq::empty()
    }) + seq!['e'] + exponent_text(exp)
}

/// scientific_form is the pinned scientific notation of `d0.d1d2... * 10^exp`.
pub fn scientific_form(neg: bool, digits: &str, exp: i32) -> (r: String)
    requires
        digits@.len() > 0,
        exp > i32::MIN,
    ensures
        r@ == spec_scientific_form(neg, digits@, exp as int),
{
    let mut out = String::new();
    if neg {
        push_char(&mut out, '-');
    }
    let n = digits.unicode_len();
    push_char(&mut out, digits.get_char(0));
    // the fraction ends at the last non-zero digit
    let mut end = n;
    assert(digits@.skip(1).subrange(0, end - 1) =~= digits@.skip(1));
    while end > 1 && digits.get_char(end - 1) == '0'
        invariant
            1 <= end <= n,
            n == digits@.len(),
            trim_zeros(digits@.skip(1)) == trim_zeros(digits@.skip(1).subrange(0, end - 1)),
        decreases end,
    {
        let ghost s = digits@.skip(1).subrange(0, end - 1);
        assert(s.last() == '0');
        assert(s.drop_last() =~= digits@.skip(1).subrange(0, end - 2));
        end = end - 1;
    }
    let ghost frac = digits@.skip(1).subrange(0, end - 1);
    assert(frac.len() == 0 || frac.last() != '0');
    assert(trim_zeros(frac) == frac);
    if end > 1 {
        push_char(&mut out, '.');
        push_range(&mut out, digits, 1, end);
        assert(digits@.subrange(1, end as int) =~= frac);
    }
    push_char(&mut out, 'e');
    push_exponent(&mut out, exp);
    assert(out@ =~= spec_scientific_form(neg, digits@, exp as int));
    out
}

proof fn lemma_decimal_digits(n: nat)
    ensures
        decimal(n).len() >= 1,
        all_digits(decimal(n)),
    decreases n,
{
    if n >= 10 {
        lemma_decimal_digits(n / 10);
        let d = decimal(n / 10).push(digit_char(n % 10));
        assert forall|i: int| 0 <= i < d.len() implies is_digit(#[trigger] d[i]) by {
            if i < d.len() - 1 {
                assert(d[i] == decimal(n / 10)[i]);
            }
        }
    }
}

/// The pinned exponent always carries its sign and at least two digits.
pub proof fn law_exponent_signed_two_digits(exp: int)
    ensures
        exponent_text(exp).len() >= 3,
        exponent_text(exp)[0] == '+' || exponent_text(exp)[0] == '-',
        exponent_text(exp)[0] == '-' <==> exp < 0,
        all_digits(exponent_text(exp).skip(1)),
{
    let m: nat = if exp < 0 {
        (-exp) as nat
    } else {
        exp as nat
    };
    lemma_decimal_digits(m);
    if m >= 10 {
        lemma_decimal_digits(m / 10);
        assert(decimal(m).len() == decimal(m / 10).len() + 1);
    }
    let t = exponent_text(exp);
    assert(t.skip(1) =~= two_digits(m));
    assert forall|i: int| 0 <= i < two_digits(m).len() implies is_digit(#[trigger] two_digits(m)[i]) by {
        if m < 10 && i > 0 {
            assert(two_digits(m)[i] == decimal(m)[i - 1]);
        }
    }
}

/// A decimal form always has a point, so it reads back as a float, not an integer.
pub proof fn law_decimal_form_has_point(neg: bool, digits: Seq<char>, exp: int)
    ensures
        exists|i: int| 0 <= i < spec_decimal_form(neg, digits, exp).len() && spec_decimal_form(neg, digits, exp)[i] == '.',
{
    reveal_strlit("0.");
    reveal_strlit(".0");
    let t = spec_decimal_form(neg, digits, exp);
    let h = sign_text(neg).len() as int;
    if exp < 0 {
        assert(t[h + 1] == '.');
    } else {
        let ip = exp + 1;
        if ip >= digits.len() {
            assert(t[t.len() - 2] == '.');
        } else {
            assert(t[h + ip] == '.');
        }
    }
}

/// The escape of one character inside a JSON string.
pub open spec fn json_escape_char(c: char) -> Seq<char> {
    if c == '"' {
        seq!['\\', '"']
    } else if c == '\\' {
        seq!['\\', '\\']
    } else if c == '\n' {
        seq!['\\', 'n']
    } else if c == '\r' {
        seq!['\\', 'r']
    } else if c == '\t' {
        seq!['\\', 't']
    } else {
        seq![c]
    }
}

/// Every character of `s` escaped.
pub open spec fn json_escaped(s: Seq<char>) -> Seq<char>
    decreases s.len(),
{
    if s.len() == 0 {
        Seq::empty()
    } else {
        json_escaped(s.drop_last()) + json_escape_char(s.last())
    }
}

/// The escaped text of a JSON string carries no raw newline, return or tab.
pub proof fn law_json_escaped_has_no_raw_controls(s: Seq<char>)
    ensures
        forall|i: int|
            0 <= i < json_escaped(s).len() ==> #[trigger] json_escaped(s)[i] != '\n' && json_escaped(s)[i]
                != '\r' && json_escaped(s)[i] != '\t',
    decreases s.len(),
{
    if s.len() > 0 {
        law_json_escaped_has_no_raw_controls(s.drop_last());
        let pre = json_escaped(s.drop_last());
        let e = json_escape_char(s.last());
        assert forall|i: int| 0 <= i < json_escaped(s).len() implies #[trigger] json_escaped(s)[i] != '\n'
            && json_escaped(s)[i] != '\r' && json_escaped(s)[i] != '\t' by {
            if i < pre.len() {
                assert(json_escaped(s)[i] == pre[i]);
            } else {
                assert(json_escaped(s)[i] == e[i - pre.len()]);
            }
        }
    }
}

/// json_string quotes and escapes a string for a JSON document (the quote, the backslash, and the
/// newline, return and tab controls).
pub fn json_string(s: &str) -> (r: String)
    ensures
        r@ == seq!['"'] + json_escaped(s@) + seq!['"'],
{
    let mut out = String::new();
    push_char(&mut out, '"');
    let n = s.unicode_len();
    let mut i: usize = 0;
    while i < n
        invariant
            n == s@.len(),
            i <= n,
            out@ == seq!['"'] + json_escaped(s@.take(i as int)),
        decreases n - i,
    {
        let c = s.get_char(i);
        let ghost before = out@;
        if c == '"' {
            push_char(&mut out, '\\');
            push_char(&mut out, '"');
        } else if c == '\\' {
            push_char(&mut out, '\\');
            push_char(&mut out, '\\');
        } else if c == '\n' {
            push_char(&mut out, '\\');
            push_char(&mut out, 'n');
        } else if c == '\r' {
            push_char(&mut out, '\\');
            push_char(&mut out, 'r');
        } else if c == '\t' {
            push_char(&mut out, '\\');
            push_char(&mut out, 't');
        } else {
            push_char(&mut out, c);
        }
        assert(s@.take(i + 1).drop_last() =~= s@.take(i as int));
        assert(out@ =~= before + json_escape_char(c));
        i = i + 1;
    }
    assert(s@.take(n as int) =~= s@);
    push_char(&mut out, '"');
    out
}

/// A rendered number as JSON writes it: a trailing ".0" dropped, so an integral value is `1` in a
/// JSON document and `1.0` in a printout.
pub open spec fn spec_json_number_text(s: Seq<char>) -> Seq<char> {
    if s.len() > 2 && s.skip(s.len() - 2) == ".0"@ {
        s.take(s.len() - 2)
    } else {
        s
    }
}

/// Drops the trailing ".0" of an integral rendered number.
pub fn json_number_text(s: &str) -> (r: String)
    ensures
        r@ == spec_json_number_text(s@),
{
    let n = s.unicode_len();
    proof {
        reveal_strlit(".0");
    }
    if n > 2 && s.get_char(n - 2) == '.' && s.get_char(n - 1) == '0' {
        let mut out = String::new();
        push_range(&mut out, s, 0, n - 2);
        assert(s@.skip(n - 2) =~= ".0"@);
        assert(out@ =~= s@.take(n - 2));
        out
    } else {
        if n > 2 {
            assert(s@.skip(n - 2) != ".0"@) by {
                if s@.skip(n - 2) == ".0"@ {
                    assert(s@.skip(n - 2)[0] == s@[n - 2]);
                    assert(s@.skip(n - 2)[1] == s@[n - 1]);
                }
            }
        }
        String::from_str(s)
    }
}

/// A rendered number that reads as a float: the text itself when it has a point, else the text
/// with ".0" appended (the pinned form keeps `.0` on an integral value).
pub open spec fn spec_with_point(s: Seq<char>) -> Seq<char> {
    if exists|i: int| 0 <= i < s.len() && s[i] == '.' {
        s
    } else {
        s + ".0"@
    }
}

/// Keeps a rendered number reading as a float.
pub fn with_point(s: &str) -> (r: String)
    ensures
        r@ == spec_with_point(s@),
{
    let n = s.unicode_len();
    let mut i: usize = 0;
    while i < n
        invariant
            n == s@.len(),
            i <= n,
            forall|j: int| 0 <= j < i ==> s@[j] != '.',
        decreases n - i,
    {
        if s.get_char(i) == '.' {
            return String::from_str(s);
        }
        i = i + 1;
    }
    let mut out = String::from_str(s);
    out.append(".0");
    out
}

/// The parts joined by `sep`.
pub open spec fn joined(parts: Seq<Seq<char>>, sep: Seq<char>) -> Seq<char>
    decreases parts.len(),
{
    if parts.len() == 0 {
        Seq::empty()
    } else if parts.len() == 1 {
        parts[0]
    } else {
        joined(parts.drop_last(), sep) + sep + parts.last()
    }
}

/// A rendered list: `[`, the parts joined by `sep`, `]` (`[a, b, c]` with ", ", `[1,2]` with ",").
pub fn bracketed(parts: &Vec<String>, sep: &str) -> (r: String)
    ensures
        r@ == seq!['['] + joined(parts@.map_values(|p: String| p@), sep@) + seq![']'],
{
    let ghost pv = parts@.map_values(|p: String| p@);
    let mut out = String::new();
    push_char(&mut out, '[');
    let mut i: usize = 0;
    while i < parts.len()
        invariant
            i <= parts@.len(),
            pv == parts@.map_values(|p: String| p@),
            out@ == seq!['['] + joined(pv.take(i as int), sep@),
        decreases parts@.len() - i,
    {
        let ghost before = out@;
        if i > 0 {
            out.append(sep);
        }
        out.append(parts[i].as_str());
        assert(pv.take(i + 1).drop_last() =~= pv.take(i as int));
        assert(pv.take(i + 1).last() == parts@[i as int]@);
        if i == 0 {
            assert(joined(pv.take(1), sep@) == pv.take(1)[0]);
        }
        assert(out@ =~= seq!['['] + joined(pv.take(i + 1), sep@));
        i = i + 1;
    }
    assert(pv.take(parts@.len() as int) =~= pv);
    push_char(&mut out, ']');
    out
}

/// The pinned exponent spelling of a float formatter's `{:e}` text: the exponent after the first
/// 'e' gets an explicit sign and at least two digits (`1e6` reads `1e+06`, `1.5e-7` reads
/// `1.5e-07`); a text without an 'e' (a non-finite value) has no exponent to rewrite.
pub open spec fn spec_signed_exponent(sci: Seq<char>) -> Option<Seq<char>> {
    if exists|i: int| 0 <= i < sci.len() && sci[i] == 'e' {
        let i = choose|i: int|
            0 <= i < sci.len() && sci[i] == 'e' && forall|j: int| 0 <= j < i ==> sci[j] != 'e';
        let mant = sci.take(i);
        let exp = sci.skip(i + 1);
        let (sign, digits) = if exp.len() > 0 && exp[0] == '-' {
            ('-', exp.skip(1))
        } else {
            ('+', exp)
        };
        let pad: nat = if digits.len() < 2 {
            (2 - digits.len()) as nat
        } else {
            0
        };
        Some(mant + seq!['e', sign] + repeat_char('0', pad) + digits)
    } else {
        None
    }
}

/// Rewrites the exponent of a `{:e}` text in the pinned spelling.
pub fn signed_exponent(sci: &str) -> (r: Option<String>)
    ensures
        opt_view(r) == spec_signed_exponent(sci@),
{
    let n = sci.unicode_len();
    let mut i: usize = 0;
    while i < n && sci.get_char(i) != 'e'
        invariant
            n == sci@.len(),
            i <= n,
            forall|j: int| 0 <= j < i ==> sci@[j] != 'e',
        decreases n - i,
    {
        i = i + 1;
    }
    if i == n {
        return None;
    }
    let ghost c = choose|k: int|
        0 <= k < sci@.len() && sci@[k] == 'e' && forall|j: int| 0 <= j < k ==> sci@[j] != 'e';
    assert(sci@[i as int] == 'e');
    assert(c == i) by {
        if c < i {
        } else if c > i {
        }
    }
    let mut out = String::new();
    push_range(&mut out, sci, 0, i);
    push_char(&mut out, 'e');
    let mut start = i + 1;
    if start < n && sci.get_char(start) == '-' {
        push_char(&mut out, '-');
        start = start + 1;
    } else {
        push_char(&mut out, '+');
    }
    let len = n - start;
    if len < 2 {
        push_repeat(&mut out, '0', 2 - len);
    } else {
        push_repeat(&mut out, '0', 0);
    }
    push_range(&mut out, sci, start, n);
    proof {
        let exp = sci@.skip(i + 1);
        assert(sci@.subrange(0, i as int) =~= sci@.take(i as int));
        if i + 1 < n && sci@[i + 1] == '-' {
            assert(exp[0] == '-');
            assert(sci@.subrange(start as int, n as int) =~= exp.skip(1));
        } else {
            assert(sci@.subrange(start as int, n as int) =~= exp);
        }
    }
    Some(out)
}

/// Whether `c` is an ASCII decimal digit.
pub open spec fn is_digit(c: char) -> bool {
    '0' <= c <= '9'
}

/// The ASCII digits of a text, in order.
pub open spec fn ascii_digits(s: Seq<char>) -> Seq<char>
    decreases s.len(),
{
    if s.len() == 0 {
        Seq::empty()
    } else if is_digit(s.last()) {
        ascii_digits(s.drop_last()).push(s.last())
    } else {
        ascii_digits(s.drop_last())
    }
}

/// The value of a digit string.
pub open spec fn digits_value(s: Seq<char>) -> int
    decreases s.len(),
{
    if s.len() == 0 {
        0
    } else {
        digits_value(s.drop_last()) * 10 + (s.last() as int - '0' as int)
    }
}

/// Every character of `d` is a digit.
pub open spec fn all_digits(d: Seq<char>) -> bool {
    forall|i: int| 0 <= i < d.len() ==> is_digit(#[trigger] d[i])
}

/// A text's leading sign (whether it is '-') and the rest after it.
pub open spec fn sign_and_rest(s: Seq<char>) -> (bool, Seq<char>) {
    if s.len() > 0 && s[0] == '-' {
        (true, s.skip(1))
    } else if s.len() > 0 && s[0] == '+' {
        (false, s.skip(1))
    } else {
        (false, s)
    }
}

/// The integer an integer parse reads from a text: an optional sign, then one or more digits.
pub open spec fn int_text(s: Seq<char>) -> Option<int> {
    let d = sign_and_rest(s).1;
    if d.len() > 0 && all_digits(d) {
        Some(
            if sign_and_rest(s).0 {
                -digits_value(d)
            } else {
                digits_value(d)
            },
        )
    } else {
        None
    }
}

/// The position of the first 'e' of a text.
pub open spec fn first_e(s: Seq<char>) -> int {
    choose|i: int| 0 <= i < s.len() && s[i] == 'e' && forall|j: int| 0 <= j < i ==> s[j] != 'e'
}

pub open spec fn has_e(s: Seq<char>) -> bool {
    exists|i: int| 0 <= i < s.len() && s[i] == 'e'
}

proof fn lemma_digits_prefix(d: Seq<char>, k: int)
    requires
        0 <= k <= d.len(),
        all_digits(d),
    ensures
        0 <= digits_value(d.take(k)) <= digits_value(d),
    decreases d.len(),
{
    if d.len() > 0 {
        let p = d.drop_last();
        assert(all_digits(p)) by {
            assert forall|i: int| 0 <= i < p.len() implies is_digit(#[trigger] p[i]) by {
                assert(p[i] == d[i]);
            }
        }
        if k < d.len() {
            lemma_digits_prefix(p, k);
            assert(p.take(k) =~= d.take(k));
        } else {
            lemma_digits_prefix(p, 0);
            assert(d.take(k) =~= d);
        }
        lemma_digits_prefix(p, p.len() as int);
        assert(p.take(p.len() as int) =~= p);
        assert(is_digit(d[d.len() - 1]));
    }
}

/// The digits and the exponent of a float formatter's `{:e}` text (`d.ddd` then `e` and the
/// exponent): the ASCII digits before the first 'e', and the integer after it.
pub fn digits_and_exponent(sci: &str) -> (r: (String, i32))
    requires
        has_e(sci@),
        int_text(sci@.skip(first_e(sci@) + 1)) matches Some(v) && i32::MIN <= v <= i32::MAX,
    ensures
        r.0@ == ascii_digits(sci@.take(first_e(sci@))),
        Some(r.1 as int) == int_text(sci@.skip(first_e(sci@) + 1)),
{
    let n = sci.unicode_len();
    let mut digits = String::new();
    let mut i: usize = 0;
    assert(sci@.take(0) =~= Seq::<char>::empty());
    while i < n && sci.get_char(i) != 'e'
        invariant
            n == sci@.len(),
            i <= n,
            forall|j: int| 0 <= j < i ==> sci@[j] != 'e',
            digits@ == ascii_digits(sci@.take(i as int)),
        decreases n - i,
    {
        let c = sci.get_char(i);
        assert(sci@.take(i + 1).drop_last() =~= sci@.take(i as int));
        if '0' <= c && c <= '9' {
            push_char(&mut digits, c);
        }
        i = i + 1;
    }
    let ghost e = first_e(sci@);
    assert(i < n) by {
        if i == n {
            let k = choose|k: int| 0 <= k < sci@.len() && sci@[k] == 'e';
            assert(sci@[k] != 'e');
        }
    }
    assert(e == i) by {
        if e < i {
        } else if e > i {
        }
    }
    let ghost exp = sci@.skip(i + 1);
    let mut start = i + 1;
    let mut neg = false;
    if start < n && sci.get_char(start) == '-' {
        neg = true;
        start = start + 1;
    } else if start < n && sci.get_char(start) == '+' {
        start = start + 1;
    }
    let ghost d = sci@.skip(start as int);
    proof {
        if i + 1 < n && (sci@[i + 1] == '-' || sci@[i + 1] == '+') {
            assert(exp[0] == sci@[i + 1]);
            assert(d =~= exp.skip(1));
        } else {
            assert(d =~= exp);
        }
        assert(sign_and_rest(exp) == (neg, d));
    }
    let ghost v = digits_value(d);
    assert(v <= 0x8000_0000) by {
        if neg {
            assert(int_text(exp) == Some(-v));
        } else {
            assert(int_text(exp) == Some(v));
        }
    }
    let mut acc: i64 = 0;
    let mut k = start;
    assert(d.take(0) =~= Seq::<char>::empty());
    while k < n
        invariant
            n == sci@.len(),
            start <= k <= n,
            d == sci@.skip(start as int),
            all_digits(d),
            v == digits_value(d),
            v <= 0x8000_0000,
            acc == digits_value(d.take(k - start)),
        decreases n - k,
    {
        proof {
            lemma_digits_prefix(d, k - start + 1);
            assert(d.take(k - start + 1).drop_last() =~= d.take(k - start));
            assert(d[k - start] == sci@[k as int]);
            assert(is_digit(d[k - start]));
        }
        let c = sci.get_char(k);
        let dv = (c as u32 - '0' as u32) as i64;
        acc = acc * 10 + dv;
        k = k + 1;
    }
    assert(d.take(n - start) =~= d);
    let val: i32 = if neg {
        (-acc) as i32
    } else {
        acc as i32
    };
    (digits, val)
}

} // verus!
