//! Decimal digit strings, bucket keys, and the civil-time model.
//!
//! A bucket directory name is exactly ten ASCII digits, `yyyyMMddHH`.
//! A segment's instant is modelled as the number `yyyyMMddHHmmss`:
//! for valid civil times this encoding is strictly monotone in
//! chronological order, so it serves as the sort key everywhere.

use vstd::prelude::*;

verus! {

/// True for the ten ASCII decimal digit characters.
pub open spec fn is_digit(c: char) -> bool {
    digit_val(c) < 10
}

/// Numeric value of a digit character; 10 marks a non-digit.
pub open spec fn digit_val(c: char) -> nat {
    if c == '0' {
        0
    } else if c == '1' {
        1
    } else if c == '2' {
        2
    } else if c == '3' {
        3
    } else if c == '4' {
        4
    } else if c == '5' {
        5
    } else if c == '6' {
        6
    } else if c == '7' {
        7
    } else if c == '8' {
        8
    } else if c == '9' {
        9
    } else {
        10
    }
}

/// The digit character for a value below ten.
pub open spec fn digit_char(v: nat) -> char {
    if v == 0 {
        '0'
    } else if v == 1 {
        '1'
    } else if v == 2 {
        '2'
    } else if v == 3 {
        '3'
    } else if v == 4 {
        '4'
    } else if v == 5 {
        '5'
    } else if v == 6 {
        '6'
    } else if v == 7 {
        '7'
    } else if v == 8 {
        '8'
    } else {
        '9'
    }
}

pub open spec fn is_digit_seq(s: Seq<char>) -> bool {
    forall|i: int| 0 <= i < s.len() ==> is_digit(#[trigger] s[i])
}

/// Numeric value of a digit string, most significant digit first.
pub open spec fn num_val(s: Seq<char>) -> nat
    decreases s.len(),
{
    if s.len() == 0 {
        0
    } else {
        num_val(s.drop_last()) * 10 + digit_val(s.last())
    }
}

pub proof fn lemma_digit_round_trip(c: char)
    requires
        is_digit(c),
    ensures
        digit_char(digit_val(c)) == c,
{
}

pub open spec fn pow10(n: nat) -> nat
    decreases n,
{
    if n == 0 {
        1
    } else {
        10 * pow10((n - 1) as nat)
    }
}

/// A digit string's value is bounded by ten to its length.
pub proof fn lemma_num_val_bound(s: Seq<char>)
    requires
        is_digit_seq(s),
    ensures
        num_val(s) < pow10(s.len()),
    decreases s.len(),
{
    if s.len() > 0 {
        lemma_num_val_bound(s.drop_last());
    }
}

/// Appending digits never decreases the value.
pub proof fn lemma_num_val_prefix_le(s: Seq<char>, n: int)
    requires
        0 <= n <= s.len(),
    ensures
        num_val(s.subrange(0, n)) <= num_val(s),
    decreases s.len() - n,
{
    if n < s.len() {
        lemma_num_val_prefix_le(s.subrange(0, s.len() - 1), n);
        assert(s.subrange(0, s.len() - 1).subrange(0, n) =~= s.subrange(0, n));
        assert(s.drop_last() =~= s.subrange(0, s.len() - 1));
    } else {
        assert(s.subrange(0, n) =~= s);
    }
}

/// A bucket directory name: exactly ten ASCII digits, `yyyyMMddHH`.
pub open spec fn is_bucket_key(s: Seq<char>) -> bool {
    s.len() == 10 && is_digit_seq(s)
}

/// A day key: the first eight digits of a bucket key, `yyyyMMdd`.
pub open spec fn is_date_key(s: Seq<char>) -> bool {
    s.len() == 8 && is_digit_seq(s)
}

pub open spec fn key_year(s: Seq<char>) -> nat {
    num_val(s.subrange(0, 4))
}

pub open spec fn key_month(s: Seq<char>) -> nat {
    num_val(s.subrange(4, 6))
}

pub open spec fn key_day(s: Seq<char>) -> nat {
    num_val(s.subrange(6, 8))
}

pub open spec fn key_hour(s: Seq<char>) -> nat {
    num_val(s.subrange(8, 10))
}

pub open spec fn is_leap_year(y: nat) -> bool {
    y % 4 == 0 && (y % 100 != 0 || y % 400 == 0)
}

pub open spec fn days_in_month(y: nat, m: nat) -> nat {
    if m == 2 {
        if is_leap_year(y) {
            29
        } else {
            28
        }
    } else if m == 4 || m == 6 || m == 9 || m == 11 {
        30
    } else {
        31
    }
}

/// The calendar fields of a bucket key together with a minute and a
/// second form a valid civil timestamp.
pub open spec fn valid_civil(y: nat, mo: nat, d: nat, h: nat, mi: nat, se: nat) -> bool {
    &&& 1 <= mo <= 12
    &&& 1 <= d <= days_in_month(y, mo)
    &&& h <= 23
    &&& mi <= 59
    &&& se <= 59
}

/// The instant `yyyyMMddHHmmss` as one number: strictly monotone in
/// chronological order over valid civil times.
pub open spec fn encode_instant(key: Seq<char>, mi: nat, se: nat) -> nat {
    num_val(key) * 10000 + mi * 100 + se
}

/// The two-digit rendering of `n % 100`, zero padded.
pub open spec fn digits2(n: nat) -> Seq<char> {
    seq![digit_char((n / 10) % 10), digit_char(n % 10)]
}

/// The four-digit rendering of `n % 10000`, zero padded.
pub open spec fn digits4(n: nat) -> Seq<char> {
    seq![
        digit_char((n / 1000) % 10),
        digit_char((n / 100) % 10),
        digit_char((n / 10) % 10),
        digit_char(n % 10),
    ]
}

/// A bucket key rendered from its calendar fields.
pub open spec fn format_bucket_key(y: nat, mo: nat, d: nat, h: nat) -> Seq<char> {
    digits4(y) + digits2(mo) + digits2(d) + digits2(h)
}

pub proof fn lemma_digits2_round(t: Seq<char>)
    requires
        is_digit_seq(t),
        t.len() == 2,
    ensures
        digits2(num_val(t)) =~= t,
        num_val(t) <= 99,
{
    reveal_with_fuel(num_val, 3);
    let d0 = digit_val(t[0]);
    let d1 = digit_val(t[1]);
    assert(t.drop_last() =~= seq![t[0]]);
    assert(seq![t[0]].drop_last() =~= Seq::<char>::empty());
    assert(num_val(seq![t[0]]) == d0);
    assert(num_val(t) == num_val(t.drop_last()) * 10 + digit_val(t.last()));
    assert(num_val(t) == d0 * 10 + d1);
    assert(is_digit(t[0]) && is_digit(t[1]));
    assert((d0 * 10 + d1) / 10 % 10 == d0);
    assert((d0 * 10 + d1) % 10 == d1);
    lemma_digit_round_trip(t[0]);
    lemma_digit_round_trip(t[1]);
}

/// The value of a two-character digit string, written out.
pub proof fn lemma_num_val2(t: Seq<char>)
    requires
        t.len() == 2,
    ensures
        num_val(t) == digit_val(t[0]) * 10 + digit_val(t[1]),
{
    reveal_with_fuel(num_val, 3);
    assert(t.drop_last() =~= seq![t[0]]);
    assert(seq![t[0]].drop_last() =~= Seq::<char>::empty());
    assert(num_val(seq![t[0]]) == digit_val(t[0]));
}

pub proof fn lemma_digits4_round(t: Seq<char>)
    requires
        is_digit_seq(t),
        t.len() == 4,
    ensures
        digits4(num_val(t)) =~= t,
        num_val(t) <= 9999,
{
    reveal_with_fuel(num_val, 5);
    let d0 = digit_val(t[0]);
    let d1 = digit_val(t[1]);
    let d2 = digit_val(t[2]);
    let d3 = digit_val(t[3]);
    assert(t.drop_last() =~= seq![t[0], t[1], t[2]]);
    assert(seq![t[0], t[1], t[2]].drop_last() =~= seq![t[0], t[1]]);
    assert(seq![t[0], t[1]].drop_last() =~= seq![t[0]]);
    assert(seq![t[0]].drop_last() =~= Seq::<char>::empty());
    let v = num_val(t);
    assert(num_val(seq![t[0]]) == d0);
    assert(num_val(seq![t[0], t[1]]) == d0 * 10 + d1);
    assert(num_val(seq![t[0], t[1], t[2]]) == (d0 * 10 + d1) * 10 + d2);
    assert(v == ((d0 * 10 + d1) * 10 + d2) * 10 + d3);
    assert(is_digit(t[0]) && is_digit(t[1]) && is_digit(t[2]) && is_digit(t[3]));
    assert(v == d0 * 1000 + d1 * 100 + d2 * 10 + d3);
    assert(v / 1000 % 10 == d0);
    assert(v / 100 % 10 == d1);
    assert(v / 10 % 10 == d2);
    assert(v % 10 == d3);
    lemma_digit_round_trip(t[0]);
    lemma_digit_round_trip(t[1]);
    lemma_digit_round_trip(t[2]);
    lemma_digit_round_trip(t[3]);
}

/// Decomposing a valid bucket key into year, month, day and hour and
/// rendering those fields again reproduces the key exactly.
pub proof fn lemma_bucket_key_round_trip(s: Seq<char>)
    requires
        is_bucket_key(s),
    ensures
        format_bucket_key(key_year(s), key_month(s), key_day(s), key_hour(s)) =~= s,
{
    let y = s.subrange(0, 4);
    let mo = s.subrange(4, 6);
    let d = s.subrange(6, 8);
    let h = s.subrange(8, 10);
    assert(is_digit_seq(y) && is_digit_seq(mo) && is_digit_seq(d) && is_digit_seq(h)) by {
        assert forall|i: int| 0 <= i < 4 implies is_digit(#[trigger] y[i]) by {
            assert(y[i] == s[i]);
        }
        assert forall|i: int| 0 <= i < 2 implies is_digit(#[trigger] mo[i]) by {
            assert(mo[i] == s[i + 4]);
        }
        assert forall|i: int| 0 <= i < 2 implies is_digit(#[trigger] d[i]) by {
            assert(d[i] == s[i + 6]);
        }
        assert forall|i: int| 0 <= i < 2 implies is_digit(#[trigger] h[i]) by {
            assert(h[i] == s[i + 8]);
        }
    }
    lemma_digits4_round(y);
    lemma_digits2_round(mo);
    lemma_digits2_round(d);
    lemma_digits2_round(h);
}

/// A rendered date key is a well-formed date key.
pub proof fn lemma_format_date_key_wf(y: nat, mo: nat, d: nat)
    ensures
        is_date_key(format_date_key(y, mo, d)),
{
    let k = format_date_key(y, mo, d);
    assert forall|i: int| 0 <= i < k.len() implies is_digit(#[trigger] k[i]) by {
        if i < 4 {
            assert(k[i] == digits4(y)[i]);
        } else if i < 6 {
            assert(k[i] == digits2(mo)[i - 4]);
        } else {
            assert(k[i] == digits2(d)[i - 6]);
        }
    }
}

/// A rendered bucket key is a well-formed bucket key.
pub proof fn lemma_format_bucket_key_wf(y: nat, mo: nat, d: nat, h: nat)
    ensures
        is_bucket_key(format_bucket_key(y, mo, d, h)),
{
    let k = format_bucket_key(y, mo, d, h);
    assert forall|i: int| 0 <= i < k.len() implies is_digit(#[trigger] k[i]) by {
        if i < 4 {
            assert(k[i] == digits4(y)[i]);
        } else if i < 6 {
            assert(k[i] == digits2(mo)[i - 4]);
        } else if i < 8 {
            assert(k[i] == digits2(d)[i - 6]);
        } else {
            assert(k[i] == digits2(h)[i - 8]);
        }
    }
}

/// Digit characters are ASCII, so a digit string may be sliced bytewise.
pub proof fn lemma_digit_seq_ascii(s: Seq<char>)
    requires
        is_digit_seq(s),
    ensures
        vstd::utf8::is_ascii_chars(s),
{
    assert forall|i: int| 0 <= i < s.len() implies '\0' <= #[trigger] s[i] <= '\u{7f}' by {
        assert(is_digit(s[i]));
    }
}

/// Digit value of one character, or `None` for a non-digit.
pub fn char_digit(c: char) -> (r: Option<u8>)
    ensures
        match r {
            Some(v) => is_digit(c) && v == digit_val(c),
            None => !is_digit(c),
        },
{
    match c {
        '0' => Some(0),
        '1' => Some(1),
        '2' => Some(2),
        '3' => Some(3),
        '4' => Some(4),
        '5' => Some(5),
        '6' => Some(6),
        '7' => Some(7),
        '8' => Some(8),
        '9' => Some(9),
        _ => None,
    }
}

/// One-character string for a digit value.
pub fn digit_str(v: u8) -> (r: &'static str)
    requires
        v < 10,
    ensures
        r@ =~= seq![digit_char(v as nat)],
        r@.len() == 1,
{
    proof {
        reveal_strlit("0");
        reveal_strlit("1");
        reveal_strlit("2");
        reveal_strlit("3");
        reveal_strlit("4");
        reveal_strlit("5");
        reveal_strlit("6");
        reveal_strlit("7");
        reveal_strlit("8");
        reveal_strlit("9");
    }
    match v {
        0 => "0",
        1 => "1",
        2 => "2",
        3 => "3",
        4 => "4",
        5 => "5",
        6 => "6",
        7 => "7",
        8 => "8",
        _ => "9",
    }
}

/// True exactly when `name` is a bucket directory name: ten digits.
pub fn is_bucket_dir_name(name: &str) -> (b: bool)
    ensures
        b == is_bucket_key(name@),
{
    let n = name.unicode_len();
    if n != 10 {
        return false;
    }
    let mut i: usize = 0;
    while i < 10
        invariant
            0 <= i <= 10,
            name@.len() == 10,
            forall|j: int| 0 <= j < i ==> is_digit(#[trigger] name@[j]),
        decreases 10 - i,
    {
        let c = name.get_char(i);
        if char_digit(c).is_none() {
            return false;
        }
        i += 1;
    }
    true
}

/// Numeric value of the digits of `s` in `[from, to)`, which the caller
/// has established are digits whose value fits the result type.
pub fn parse_digits_u32(s: &str, from: usize, to: usize) -> (r: u32)
    requires
        from <= to <= s@.len(),
        to - from <= 9,
        is_digit_seq(s@.subrange(from as int, to as int)),
    ensures
        r == num_val(s@.subrange(from as int, to as int)),
{
    let ghost whole = s@.subrange(from as int, to as int);
    proof {
        lemma_num_val_bound(whole);
        assert(pow10(whole.len()) <= pow10(9)) by {
            reveal_with_fuel(pow10, 10);
        }
    }
    let mut acc: u32 = 0;
    let mut i: usize = from;
    while i < to
        invariant
            from <= i <= to <= s@.len(),
            to - from <= 9,
            is_digit_seq(whole),
            whole =~= s@.subrange(from as int, to as int),
            acc == num_val(s@.subrange(from as int, i as int)),
            num_val(whole) < pow10(9),
        decreases to - i,
    {
        let ghost pre = s@.subrange(from as int, i as int);
        let c = s.get_char(i);
        proof {
            assert(whole[i - from] == s@[i as int]);
            assert(is_digit(s@[i as int]));
            let post = s@.subrange(from as int, i + 1int);
            assert(post.drop_last() =~= pre);
            assert(post.last() == s@[i as int]);
            lemma_num_val_prefix_le(whole, i + 1 - from);
            assert(whole.subrange(0, i + 1 - from) =~= post);
            assert(pow10(9) == 1000000000) by {
                reveal_with_fuel(pow10, 10);
            }
        }
        let d = match char_digit(c) {
            Some(d) => d,
            None => 0,
        };
        acc = acc * 10 + d as u32;
        i += 1;
    }
    proof {
        assert(s@.subrange(from as int, to as int) =~= whole);
    }
    acc
}

/// Splitting a digit string multiplies the left part's value by ten to
/// the length of the right part.
pub proof fn lemma_num_val_concat(a: Seq<char>, b: Seq<char>)
    ensures
        num_val(a + b) == num_val(a) * pow10(b.len()) + num_val(b),
    decreases b.len(),
{
    if b.len() == 0 {
        assert(a + b =~= a);
        assert(num_val(b) == 0);
        assert(pow10(b.len()) == 1);
        assert(num_val(a + b) == num_val(a) * pow10(b.len()) + num_val(b));
    } else {
        lemma_num_val_concat(a, b.drop_last());
        assert((a + b).drop_last() =~= a + b.drop_last());
        assert((a + b).last() == b.last());
        let x = num_val(a);
        let p = pow10((b.len() - 1) as nat);
        let nb = num_val(b.drop_last());
        let d = digit_val(b.last());
        assert(num_val(a + b) == (x * p + nb) * 10 + d);
        assert(pow10(b.len()) == 10 * p);
        assert(num_val(b) == nb * 10 + d);
        assert(num_val(a + b) == x * pow10(b.len()) + num_val(b)) by (nonlinear_arith)
            requires
                num_val(a + b) == (x * p + nb) * 10 + d,
                pow10(b.len()) == 10 * p,
                num_val(b) == nb * 10 + d,
        ;
    }
}

/// A bucket key's value decomposes over its calendar fields.
pub proof fn lemma_key_val_fields(s: Seq<char>)
    requires
        is_bucket_key(s),
    ensures
        num_val(s) == ((key_year(s) * 100 + key_month(s)) * 100 + key_day(s)) * 100 + key_hour(s),
{
    let y = s.subrange(0, 4);
    let mo = s.subrange(4, 6);
    let d = s.subrange(6, 8);
    let h = s.subrange(8, 10);
    assert(s =~= y + mo + d + h);
    lemma_num_val_concat(y + mo + d, h);
    lemma_num_val_concat(y + mo, d);
    lemma_num_val_concat(y, mo);
    assert((y + mo + d) + h =~= s);
    assert((y + mo) + d =~= y + mo + d);
    assert(pow10(2) == 100) by {
        reveal_with_fuel(pow10, 3);
    }
}

/// Calendar fields of a bucket key name, or `None` if the name is not
/// ten digits.
pub fn parse_bucket_key(name: &str) -> (r: Option<(u32, u32, u32, u32)>)
    ensures
        r == if is_bucket_key(name@) {
            Some((key_year(name@) as u32, key_month(name@) as u32, key_day(name@) as u32, key_hour(name@) as u32))
        } else {
            Option::<(u32, u32, u32, u32)>::None
        },
{
    if !is_bucket_dir_name(name) {
        return None;
    }
    proof {
        assert forall|j: int| 0 <= j < 4 implies is_digit(#[trigger] name@.subrange(0, 4)[j]) by {
            assert(name@.subrange(0, 4)[j] == name@[j]);
        }
        assert forall|j: int| 0 <= j < 2 implies is_digit(#[trigger] name@.subrange(4, 6)[j]) by {
            assert(name@.subrange(4, 6)[j] == name@[j + 4]);
        }
        assert forall|j: int| 0 <= j < 2 implies is_digit(#[trigger] name@.subrange(6, 8)[j]) by {
            assert(name@.subrange(6, 8)[j] == name@[j + 6]);
        }
        assert forall|j: int| 0 <= j < 2 implies is_digit(#[trigger] name@.subrange(8, 10)[j]) by {
            assert(name@.subrange(8, 10)[j] == name@[j + 8]);
        }
    }
    let y = parse_digits_u32(name, 0, 4);
    let mo = parse_digits_u32(name, 4, 6);
    let d = parse_digits_u32(name, 6, 8);
    let h = parse_digits_u32(name, 8, 10);
    Some((y, mo, d, h))
}

/// Two zero-padded digits of `n`, which is at most 99.
pub fn render_2digits(n: u32) -> (r: String)
    requires
        n <= 99,
    ensures
        r@ =~= digits2(n as nat),
{
    let mut out = String::new();
    out.append(digit_str(((n / 10) % 10) as u8));
    out.append(digit_str((n % 10) as u8));
    out
}

/// Four zero-padded digits of `n`, which is at most 9999.
pub fn render_4digits(n: u32) -> (r: String)
    requires
        n <= 9999,
    ensures
        r@ =~= digits4(n as nat),
{
    let mut out = String::new();
    out.append(digit_str(((n / 1000) % 10) as u8));
    out.append(digit_str(((n / 100) % 10) as u8));
    out.append(digit_str(((n / 10) % 10) as u8));
    out.append(digit_str((n % 10) as u8));
    out
}

/// The day key `yyyyMMdd` rendered from calendar fields.
pub open spec fn format_date_key(y: nat, mo: nat, d: nat) -> Seq<char> {
    digits4(y) + digits2(mo) + digits2(d)
}

/// Renders a day key from calendar fields.
pub fn render_date_key(y: u32, mo: u32, d: u32) -> (r: String)
    requires
        y <= 9999,
        mo <= 99,
        d <= 99,
    ensures
        r@ =~= format_date_key(y as nat, mo as nat, d as nat),
{
    let mut out = render_4digits(y);
    out.append(render_2digits(mo).as_str());
    out.append(render_2digits(d).as_str());
    out
}

/// Renders a bucket key from calendar fields.
pub fn render_bucket_key(y: u32, mo: u32, d: u32, h: u32) -> (r: String)
    requires
        y <= 9999,
        mo <= 99,
        d <= 99,
        h <= 99,
    ensures
        r@ =~= format_bucket_key(y as nat, mo as nat, d as nat, h as nat),
{
    let mut out = render_date_key(y, mo, d);
    out.append(render_2digits(h).as_str());
    out
}

/// True exactly when the fields form a valid civil timestamp.
pub fn civil_fields_valid(y: u32, mo: u32, d: u32, h: u32, mi: u32, se: u32) -> (b: bool)
    ensures
        b == valid_civil(y as nat, mo as nat, d as nat, h as nat, mi as nat, se as nat),
{
    if mo < 1 || mo > 12 || h > 23 || mi > 59 || se > 59 {
        return false;
    }
    let leap = y % 4 == 0 && (y % 100 != 0 || y % 400 == 0);
    let dim: u32 = if mo == 2 {
        if leap {
            29
        } else {
            28
        }
    } else if mo == 4 || mo == 6 || mo == 9 || mo == 11 {
        30
    } else {
        31
    };
    1 <= d && d <= dim
}

} // verus!
