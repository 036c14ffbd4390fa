use vstd::prelude::*;
use crate::error::WebVTTError;
use crate::text::{
    chars_of, split_chars, split_on, lemma_split_on_nonempty, lemma_split_on_join,
    lemma_split_on_lacking, lacks, string_of, push_char, all_chars, lemma_all_chars_add,
};

verus! {

pub open spec fn is_digit(c: char) -> bool {
    '0' <= c && c <= '9'
}

pub open spec fn digit_value(c: char) -> nat {
    (c as u32 - '0' as u32) as nat
}

pub open spec fn all_digits(s: Seq<char>) -> bool {
    forall|i: int| 0 <= i < s.len() ==> is_digit(#[trigger] s[i])
}

/// The value of a string of decimal digits.
pub open spec fn digits_value(s: Seq<char>) -> nat
    decreases s.len(),
{
    if s.len() == 0 {
        0
    } else {
        digits_value(s.drop_last()) * 10 + digit_value(s.last())
    }
}

/// A whole number: one or more decimal digits.
pub open spec fn is_number(s: Seq<char>) -> bool {
    s.len() > 0 && all_digits(s)
}

/// A place of the decimal point in `s`, with digits on both sides of it.
pub open spec fn is_point_at(s: Seq<char>, k: int) -> bool {
    &&& 0 <= k < s.len()
    &&& s[k] == '.'
    &&& all_digits(s.take(k))
    &&& all_digits(s.skip(k + 1))
}

/// A non-negative decimal number: digits with at most one point among them,
/// and at least one digit.
pub open spec fn is_decimal(s: Seq<char>) -> bool {
    is_number(s) || (s.len() >= 2 && exists|k: int| is_point_at(s, k))
}

/// The `i`-th digit after the point, zero past the end.
pub open spec fn frac_digit(f: Seq<char>, i: int) -> nat {
    if i < f.len() {
        digit_value(f[i])
    } else {
        0
    }
}

/// A decimal number of seconds in milliseconds; digits past the third after
/// the point are dropped.
pub open spec fn decimal_millis(s: Seq<char>) -> nat {
    if all_digits(s) {
        digits_value(s) * 1000
    } else {
        let k = choose|k: int| is_point_at(s, k);
        let f = s.skip(k + 1);
        digits_value(s.take(k)) * 1000 + 100 * frac_digit(f, 0) + 10 * frac_digit(f, 1)
            + frac_digit(f, 2)
    }
}

pub open spec fn pow60(i: nat) -> nat
    decreases i,
{
    if i == 0 {
        1
    } else {
        60 * pow60((i - 1) as nat)
    }
}

/// The component at distance `i` before the last (seconds) component.
pub open spec fn unit(segs: Seq<Seq<char>>, i: int) -> Seq<char> {
    segs[segs.len() - 1 - i]
}

/// Milliseconds contributed by the components at distance 1 to `i - 1` from
/// the seconds: `60^j` seconds for each unit at distance `j`.
pub open spec fn units_below(segs: Seq<Seq<char>>, i: nat) -> nat
    decreases i,
{
    if i <= 1 {
        0
    } else {
        units_below(segs, (i - 1) as nat) + 1000 * pow60((i - 1) as nat) * digits_value(
            unit(segs, i - 1),
        )
    }
}

/// The nearest component to the seconds that is no whole number.
pub open spec fn first_bad_unit(segs: Seq<Seq<char>>, j: int) -> bool {
    &&& 1 <= j < segs.len()
    &&& !is_number(unit(segs, j))
    &&& forall|k: int| 1 <= k < j ==> is_number(#[trigger] unit(segs, k))
}

pub open spec fn msg_decimal() -> Seq<char> {
    "a decimal number"@
}

pub open spec fn msg_number() -> Seq<char> {
    "a number"@
}

pub open spec fn msg_timestamp() -> Seq<char> {
    "a timestamp"@
}

/// Reads a timestamp: `:`-separated components, the last a decimal number of
/// seconds, each one before it a whole number of the next larger unit (60
/// times the one after it). The result is in milliseconds and must fit in
/// `u64`.
pub open spec fn timestamp_parse(t: Seq<char>) -> Result<nat, (Seq<char>, Seq<char>)> {
    let segs = split_on(t, ':');
    let n = segs.len();
    if !is_decimal(segs.last()) {
        Err((msg_decimal(), segs.last()))
    } else if exists|j: int| first_bad_unit(segs, j) {
        let j = choose|j: int| first_bad_unit(segs, j);
        Err((msg_number(), unit(segs, j)))
    } else {
        let v = decimal_millis(segs.last()) + units_below(segs, n);
        if v <= u64::MAX {
            Ok(v)
        } else {
            Err((msg_timestamp(), t))
        }
    }
}

/// `x`, where it fits in `u64`; `None` where it is larger.
pub open spec fn fits(x: nat, o: Option<u64>) -> bool {
    match o {
        Some(v) => v == x,
        None => x > u64::MAX,
    }
}

fn mul_fit(a: Option<u64>, b: Option<u64>, Ghost(x): Ghost<nat>, Ghost(y): Ghost<nat>) -> (r:
    Option<u64>)
    requires
        fits(x, a),
        fits(y, b),
    ensures
        fits(x * y, r),
{
    match (a, b) {
        (Some(u), Some(v)) => u.checked_mul(v),
        (Some(u), None) => {
            if u == 0 {
                assert(x * y == 0) by (nonlinear_arith)
                    requires
                        x == 0,
                ;
                Some(0)
            } else {
                assert(x * y >= y) by (nonlinear_arith)
                    requires
                        x >= 1,
                ;
                None
            }
        },
        (None, Some(v)) => {
            if v == 0 {
                assert(x * y == 0) by (nonlinear_arith)
                    requires
                        y == 0,
                ;
                Some(0)
            } else {
                assert(x * y >= x) by (nonlinear_arith)
                    requires
                        y >= 1,
                ;
                None
            }
        },
        (None, None) => {
            assert(x * y >= x) by (nonlinear_arith)
                requires
                    y >= 1,
            ;
            None
        },
    }
}

fn add_fit(a: Option<u64>, b: Option<u64>, Ghost(x): Ghost<nat>, Ghost(y): Ghost<nat>) -> (r:
    Option<u64>)
    requires
        fits(x, a),
        fits(y, b),
    ensures
        fits(x + y, r),
{
    match (a, b) {
        (Some(u), Some(v)) => u.checked_add(v),
        _ => None,
    }
}

fn is_digit_char(c: char) -> (r: bool)
    ensures
        r == is_digit(c),
{
    '0' <= c && c <= '9'
}

/// Whether `s[from..to]` holds only digits.
fn all_digits_in(s: &Vec<char>, from: usize, to: usize) -> (r: bool)
    requires
        from <= to <= s.len(),
    ensures
        r == all_digits(s@.subrange(from as int, to as int)),
{
    let mut i = from;
    while i < to
        invariant
            from <= i <= to <= s.len(),
            all_digits(s@.subrange(from as int, i as int)),
        decreases to - i,
    {
        if !is_digit_char(s[i]) {
            assert(s@.subrange(from as int, to as int)[i - from] == s@[i as int]);
            return false;
        }
        i = i + 1;
        assert forall|j: int| 0 <= j < i - from implies is_digit(
            #[trigger] s@.subrange(from as int, i as int)[j],
        ) by {
            if j < i - 1 - from {
                assert(s@.subrange(from as int, i as int)[j] == s@.subrange(
                    from as int,
                    i - 1,
                )[j]);
            }
        }
    }
    true
}

/// The value of the digits `s[from..to]`.
fn digits_in(s: &Vec<char>, from: usize, to: usize) -> (r: Option<u64>)
    requires
        from <= to <= s.len(),
        all_digits(s@.subrange(from as int, to as int)),
    ensures
        fits(digits_value(s@.subrange(from as int, to as int)), r),
{
    let mut acc: Option<u64> = Some(0);
    let mut i = from;
    assert(s@.subrange(from as int, from as int).len() == 0);
    while i < to
        invariant
            from <= i <= to <= s.len(),
            all_digits(s@.subrange(from as int, to as int)),
            fits(digits_value(s@.subrange(from as int, i as int)), acc),
        decreases to - i,
    {
        let ghost old_v = digits_value(s@.subrange(from as int, i as int));
        assert(s@.subrange(from as int, to as int)[i - from] == s@[i as int]);
        let d = (s[i] as u32 - '0' as u32) as u64;
        let ten = mul_fit(acc, Some(10), Ghost(old_v), Ghost(10));
        acc = add_fit(ten, Some(d), Ghost(old_v * 10), Ghost(digit_value(s@[i as int])));
        assert(s@.subrange(from as int, i + 1).drop_last() =~= s@.subrange(from as int, i as int));
        i = i + 1;
    }
    acc
}

/// Reads a decimal number of seconds: `None` where `s` is none, else its
/// value in milliseconds where that fits.
fn read_decimal(s: &Vec<char>) -> (r: Option<Option<u64>>)
    ensures
        r is None <==> !is_decimal(s@),
        r matches Some(o) ==> fits(decimal_millis(s@), o),
{
    let n = s.len();
    let mut k: usize = 0;
    while k < n && is_digit_char(s[k])
        invariant
            k <= n == s.len(),
            all_digits(s@.take(k as int)),
        decreases n - k,
    {
        assert(s@.take(k + 1) =~= s@.take(k as int).push(s@[k as int]));
        k = k + 1;
    }
    if k == n {
        assert(s@.take(n as int) =~= s@);
        assert(s@.subrange(0, n as int) =~= s@);
        if n == 0 {
            return None;
        }
        let v = digits_in(s, 0, n);
        return Some(mul_fit(v, Some(1000), Ghost(digits_value(s@)), Ghost(1000)));
    }
    assert(!is_digit(s@[k as int]));
    assert(!all_digits(s@));
    if s[k] != '.' || n < 2 || !all_digits_in(s, k + 1, n) {
        assert(s@.skip(k + 1) =~= s@.subrange(k + 1, n as int));
        assert forall|j: int| n >= 2 implies !is_point_at(s@, j) by {
            if is_point_at(s@, j) {
                if j < k {
                    assert(s@.take(k as int)[j] == s@[j]);
                } else if j > k {
                    assert(s@.take(j)[k as int] == s@[k as int]);
                }
            }
        }
        return None;
    }
    assert(s@.skip(k + 1) =~= s@.subrange(k + 1, n as int));
    assert(is_point_at(s@, k as int));
    let ghost j = choose|j: int| is_point_at(s@, j);
    proof {
        if j < k {
            assert(is_digit(s@.take(k as int)[j]));
        } else if j > k {
            assert(is_digit(s@.take(j)[k as int]));
        }
    }
    assert(j == k);
    assert(s@.subrange(0, k as int) =~= s@.take(k as int));
    let int_part = digits_in(s, 0, k);
    let ghost f = s@.skip(k + 1);
    assert forall|i: int| k + 1 <= i < n implies is_digit(#[trigger] s@[i]) by {
        assert(f[i - k - 1] == s@[i]);
    }
    let d0: u64 = if k + 1 < n {
        digit_at(s, k + 1)
    } else {
        0
    };
    let d1: u64 = if n - k > 2 {
        digit_at(s, k + 2)
    } else {
        0
    };
    let d2: u64 = if n - k > 3 {
        digit_at(s, k + 3)
    } else {
        0
    };
    assert(d0 == frac_digit(f, 0) && d1 == frac_digit(f, 1) && d2 == frac_digit(f, 2));
    let whole = mul_fit(int_part, Some(1000), Ghost(digits_value(s@.take(k as int))), Ghost(1000));
    let frac = 100 * d0 + 10 * d1 + d2;
    Some(
        add_fit(
            whole,
            Some(frac),
            Ghost(digits_value(s@.take(k as int)) * 1000),
            Ghost(frac as nat),
        ),
    )
}

fn digit_at(s: &Vec<char>, i: usize) -> (r: u64)
    requires
        i < s.len(),
        is_digit(s@[i as int]),
    ensures
        r == digit_value(s@[i as int]),
        r <= 9,
{
    (s[i] as u32 - '0' as u32) as u64
}

/// Whether `s` is a whole number.
fn is_number_chars(s: &Vec<char>) -> (r: bool)
    ensures
        r == is_number(s@),
{
    assert(s@.subrange(0, s.len() as int) =~= s@);
    s.len() > 0 && all_digits_in(s, 0, s.len())
}

/// The character of a decimal digit.
pub open spec fn digit_char(d: nat) -> char {
    if d == 0 {
        '0'
    } else if d == 1 {
        '1'
    } else if d == 2 {
        '2'
    } else if d == 3 {
        '3'
    } else if d == 4 {
        '4'
    } else if d == 5 {
        '5'
    } else if d == 6 {
        '6'
    } else if d == 7 {
        '7'
    } else if d == 8 {
        '8'
    } else {
        '9'
    }
}

/// `n` in decimal digits, without leading zeros.
pub open spec fn decimal(n: nat) -> Seq<char>
    decreases n,
{
    if n < 10 {
        seq![digit_char(n)]
    } else {
        decimal(n / 10).push(digit_char(n % 10))
    }
}

/// `n` in decimal, padded with zeros to at least two digits.
pub open spec fn pad2(n: nat) -> Seq<char> {
    if n < 10 {
        seq!['0', digit_char(n)]
    } else {
        decimal(n)
    }
}

/// A timestamp as `HH:MM:SS.mmm`; the hours are not bounded and take as many
/// digits as they need.
pub open spec fn timestamp_text(millis: nat) -> Seq<char> {
    let secs = millis / 1000;
    pad2(secs / 3600) + seq![':'] + pad2(secs / 60 % 60) + seq![':'] + pad2(secs % 60) + seq![
        '.',
        digit_char(millis % 1000 / 100),
        digit_char(millis % 100 / 10),
        digit_char(millis % 10),
    ]
}

pub proof fn lemma_digit_char(d: nat)
    requires
        d < 10,
    ensures
        is_digit(digit_char(d)),
        digit_value(digit_char(d)) == d,
{
}

pub proof fn lemma_all_digits_lacks(s: Seq<char>)
    requires
        all_digits(s),
    ensures
        lacks(s, ':'),
        lacks(s, '.'),
{
    assert forall|i: int| 0 <= i < s.len() implies s[i] != ':' && s[i] != '.' by {
        assert(is_digit(s[i]));
    }
}

pub proof fn lemma_digits_value_single(c: char)
    ensures
        digits_value(seq![c]) == digit_value(c),
{
    let x = seq![c];
    assert(x.drop_last() =~= Seq::<char>::empty());
    assert(digits_value(Seq::<char>::empty()) == 0);
    assert(digits_value(x) == digits_value(x.drop_last()) * 10 + digit_value(x.last()));
}

pub proof fn lemma_decimal(n: nat)
    ensures
        all_digits(decimal(n)),
        decimal(n).len() >= 1,
        n < 100 ==> decimal(n).len() <= 2,
        digits_value(decimal(n)) == n,
    decreases n,
{
    if n < 10 {
        lemma_digit_char(n);
        lemma_digits_value_single(digit_char(n));
    } else {
        lemma_decimal(n / 10);
        lemma_digit_char(n % 10);
        let d = decimal(n / 10);
        assert(d.push(digit_char(n % 10)).drop_last() =~= d);
        assert(d.push(digit_char(n % 10)).last() == digit_char(n % 10));
        assert(digits_value(decimal(n)) == digits_value(d) * 10 + n % 10);
        assert((n / 10) * 10 + n % 10 == n);
        assert forall|i: int| 0 <= i < decimal(n).len() implies is_digit(
            #[trigger] decimal(n)[i],
        ) by {
            if i < d.len() {
                assert(decimal(n)[i] == d[i]);
            }
        }
    }
}

pub proof fn lemma_pad2(n: nat)
    ensures
        all_digits(pad2(n)),
        pad2(n).len() >= 2,
        n < 100 ==> pad2(n).len() == 2,
        digits_value(pad2(n)) == n,
{
    if n < 10 {
        lemma_digit_char(n);
        lemma_digit_char(0);
        let p = seq!['0', digit_char(n)];
        assert(p.drop_last() =~= seq!['0']);
        lemma_digits_value_single('0');
        assert(p.last() == digit_char(n));
        assert(digits_value(p) == digits_value(seq!['0']) * 10 + digit_value(digit_char(n)));
        assert forall|i: int| 0 <= i < p.len() implies is_digit(#[trigger] p[i]) by {}
    } else {
        lemma_decimal(n);
        lemma_decimal(n / 10);
    }
}

/// The text of a timestamp has three components, and reads back as the same
/// timestamp.
pub proof fn lemma_timestamp_text_parse(v: nat)
    requires
        v <= u64::MAX,
    ensures
        split_on(timestamp_text(v), ':').len() == 3,
        timestamp_parse(timestamp_text(v)) == Ok::<nat, (Seq<char>, Seq<char>)>(v),
{
    let secs = v / 1000;
    let h = secs / 3600;
    let m = secs / 60 % 60;
    let s = secs % 60;
    let hh = pad2(h);
    let mm = pad2(m);
    let ss = pad2(s);
    let d0 = v % 1000 / 100;
    let d1 = v % 100 / 10;
    let d2 = v % 10;
    let f = seq![digit_char(d0), digit_char(d1), digit_char(d2)];
    let last = ss + seq!['.'] + f;
    lemma_pad2(h);
    lemma_pad2(m);
    lemma_pad2(s);
    lemma_digit_char(d0);
    lemma_digit_char(d1);
    lemma_digit_char(d2);
    assert(all_digits(f)) by {
        assert forall|i: int| 0 <= i < f.len() implies is_digit(#[trigger] f[i]) by {}
    }
    lemma_all_digits_lacks(hh);
    lemma_all_digits_lacks(mm);
    lemma_all_digits_lacks(ss);
    lemma_all_digits_lacks(f);
    let t = timestamp_text(v);
    assert(t =~= hh + seq![':'] + (mm + seq![':'] + last));
    assert(lacks(last, ':')) by {
        assert forall|i: int| 0 <= i < last.len() implies last[i] != ':' by {
            if i < 2 {
                assert(last[i] == ss[i]);
            } else if i > 2 {
                assert(last[i] == f[i - 3]);
            }
        }
    }
    lemma_split_on_join(hh, mm + seq![':'] + last, ':');
    lemma_split_on_join(mm, last, ':');
    lemma_split_on_lacking(hh, ':');
    lemma_split_on_lacking(mm, ':');
    lemma_split_on_lacking(last, ':');
    let segs = split_on(t, ':');
    assert(segs =~= seq![hh, mm, last]);
    assert(last.take(2) =~= ss);
    assert(last.skip(3) =~= f);
    assert(is_point_at(last, 2));
    assert(!all_digits(last)) by {
        assert(!is_digit(last[2]));
    }
    let k = choose|k: int| is_point_at(last, k);
    assert(k == 2) by {
        if k < 2 {
            assert(last.take(2)[k] == last[k]);
        } else if k > 2 {
            assert(last.take(k)[2] == last[2]);
        }
    }
    assert(decimal_millis(last) == s * 1000 + 100 * d0 + 10 * d1 + d2);
    assert(unit(segs, 1) == mm && unit(segs, 2) == hh);
    assert(!exists|j: int| first_bad_unit(segs, j));
    assert(pow60(2) == 3600) by {
        reveal_with_fuel(pow60, 3);
    }
    assert(pow60(1) == 60) by {
        reveal_with_fuel(pow60, 2);
    }
    assert(units_below(segs, 1) == 0);
    assert(units_below(segs, 2) == 1000 * pow60(1) * m);
    assert(units_below(segs, 3) == 1000 * pow60(1) * m + 1000 * pow60(2) * h);
    assert(units_below(segs, 3) == 1000 * 60 * m + 1000 * 3600 * h);
    assert(s * 1000 + 100 * d0 + 10 * d1 + d2 + 1000 * 60 * m + 1000 * 3600 * h == v)
        by (nonlinear_arith)
        requires
            secs == v / 1000,
            h == secs / 3600,
            m == secs / 60 % 60,
            s == secs % 60,
            d0 == v % 1000 / 100,
            d1 == v % 100 / 10,
            d2 == v % 10,
    ;
}

/// A character of the text of a timestamp.
pub open spec fn is_time_char(c: char) -> bool {
    is_digit(c) || c == ':' || c == '.'
}

/// The text of a timestamp is made of digits, `:` and `.`, and starts and ends
/// with a digit.
pub proof fn lemma_timestamp_text_chars(v: nat)
    ensures
        all_chars(timestamp_text(v), |c: char| is_time_char(c)),
        timestamp_text(v).len() > 0,
        is_digit(timestamp_text(v)[0]),
        is_digit(timestamp_text(v).last()),
{
    let p = |c: char| is_time_char(c);
    let secs = v / 1000;
    let hh = pad2(secs / 3600);
    let mm = pad2(secs / 60 % 60);
    let ss = pad2(secs % 60);
    let d0 = v % 1000 / 100;
    let d1 = v % 100 / 10;
    let d2 = v % 10;
    let f = seq!['.', digit_char(d0), digit_char(d1), digit_char(d2)];
    lemma_pad2(secs / 3600);
    lemma_pad2(secs / 60 % 60);
    lemma_pad2(secs % 60);
    lemma_digit_char(d0);
    lemma_digit_char(d1);
    lemma_digit_char(d2);
    assert(all_chars(hh, p)) by {
        assert forall|i: int| 0 <= i < hh.len() implies p(#[trigger] hh[i]) by {
            assert(is_digit(hh[i]));
        }
    }
    assert(all_chars(mm, p)) by {
        assert forall|i: int| 0 <= i < mm.len() implies p(#[trigger] mm[i]) by {
            assert(is_digit(mm[i]));
        }
    }
    assert(all_chars(ss, p)) by {
        assert forall|i: int| 0 <= i < ss.len() implies p(#[trigger] ss[i]) by {
            assert(is_digit(ss[i]));
        }
    }
    assert(all_chars(f, p));
    assert(all_chars(seq![':'], p));
    lemma_all_chars_add(hh, seq![':'], p);
    lemma_all_chars_add(hh + seq![':'], mm, p);
    lemma_all_chars_add(hh + seq![':'] + mm, seq![':'], p);
    lemma_all_chars_add(hh + seq![':'] + mm + seq![':'], ss, p);
    lemma_all_chars_add(hh + seq![':'] + mm + seq![':'] + ss, f, p);
    let t = timestamp_text(v);
    assert(t =~= hh + seq![':'] + mm + seq![':'] + ss + f);
    assert(t[0] == hh[0]);
    assert(t.last() == f.last());
}

fn digit_to_char(d: u64) -> (c: char)
    requires
        d < 10,
    ensures
        c == digit_char(d as nat),
{
    match d {
        0 => '0',
        1 => '1',
        2 => '2',
        3 => '3',
        4 => '4',
        5 => '5',
        6 => '6',
        7 => '7',
        8 => '8',
        _ => '9',
    }
}

/// Appends `n` in decimal.
fn push_decimal(out: &mut String, n: u64)
    ensures
        final(out)@ == old(out)@ + decimal(n as nat),
    decreases n,
{
    if n >= 10 {
        push_decimal(out, n / 10);
    }
    push_char(out, digit_to_char(n % 10));
    assert(out@ =~= old(out)@ + decimal(n as nat));
}

/// Appends `n` in decimal, padded to two digits.
fn push_pad2(out: &mut String, n: u64)
    ensures
        final(out)@ == old(out)@ + pad2(n as nat),
{
    if n < 10 {
        push_char(out, '0');
        push_char(out, digit_to_char(n));
        assert(out@ =~= old(out)@ + pad2(n as nat));
    } else {
        push_decimal(out, n);
    }
}

/// A point in a track, in milliseconds from its start.
#[derive(Debug, Clone, Copy, PartialEq, Eq, Structural, PartialOrd, Ord)]
pub struct Timestamp {
    pub millis: u64,
}

impl Timestamp {
    /// Reads a timestamp such as `01:02:03.456`.
    pub fn from(string: &str) -> (r: Result<Timestamp, WebVTTError>)
        ensures
            match r {
                Ok(t) => timestamp_parse(string@) == Ok::<nat, (Seq<char>, Seq<char>)>(
                    t.millis as nat,
                ),
                Err(e) => timestamp_parse(string@) == Err::<nat, (Seq<char>, Seq<char>)>(e@),
            },
    {
        let cs = chars_of(string);
        let segs = split_chars(&cs, ':');
        let ghost sv = split_on(string@, ':');
        proof {
            lemma_split_on_nonempty(string@, ':');
        }
        let n = segs.len();
        assert(segs@[n - 1]@ == sv.last());
        let base = match read_decimal(&segs[n - 1]) {
            None => {
                let found = string_of(&segs[n - 1]);
                return Err(WebVTTError::parsing("a decimal number", found.as_str()));
            },
            Some(o) => o,
        };
        let mut total = base;
        let mut weight: Option<u64> = Some(60000);
        let mut i: usize = 1;
        assert(units_below(sv, 1) == 0);
        assert(pow60(1) == 60) by {
            reveal_with_fuel(pow60, 2);
        }
        while i < n
            invariant
                n == segs.len() == sv.len(),
                sv == split_on(string@, ':'),
                segs@.map_values(|p: Vec<char>| p@) == sv,
                1 <= i <= n,
                is_decimal(sv.last()),
                forall|k: int| 1 <= k < i ==> is_number(#[trigger] unit(sv, k)),
                fits(decimal_millis(sv.last()) + units_below(sv, i as nat), total),
                fits(1000 * pow60(i as nat), weight),
            decreases n - i,
        {
            let seg = &segs[n - 1 - i];
            assert(seg@ == unit(sv, i as int));
            if !is_number_chars(seg) {
                assert(first_bad_unit(sv, i as int));
                let ghost j = choose|j: int| first_bad_unit(sv, j);
                assert(j == i) by {
                    if j < i {
                        assert(is_number(unit(sv, j)));
                    } else if j > i {
                        assert(is_number(unit(sv, i as int)));
                    }
                }
                let found = string_of(seg);
                return Err(WebVTTError::parsing("a number", found.as_str()));
            }
            assert(seg@.subrange(0, seg.len() as int) =~= seg@);
            let v = digits_in(seg, 0, seg.len());
            let ghost w = 1000 * pow60(i as nat);
            let ghost dv = digits_value(seg@);
            let term = mul_fit(weight, v, Ghost(w), Ghost(dv));
            total = add_fit(
                total,
                term,
                Ghost(decimal_millis(sv.last()) + units_below(sv, i as nat)),
                Ghost(w * dv),
            );
            weight = mul_fit(weight, Some(60), Ghost(w), Ghost(60));
            assert(w * 60 == 1000 * pow60((i + 1) as nat)) by (nonlinear_arith)
                requires
                    w == 1000 * pow60(i as nat),
                    pow60((i + 1) as nat) == 60 * pow60(i as nat),
            ;
            assert(units_below(sv, (i + 1) as nat) == units_below(sv, i as nat) + w * dv);
            i = i + 1;
        }
        assert(!exists|j: int| first_bad_unit(sv, j));
        match total {
            Some(millis) => Ok(Timestamp { millis }),
            None => Err(WebVTTError::parsing("a timestamp", string)),
        }
    }

    /// Appends the `HH:MM:SS.mmm` form of this timestamp.
    pub fn write_to(&self, out: &mut String)
        ensures
            final(out)@ == old(out)@ + timestamp_text(self.millis as nat),
    {
        let ms = self.millis;
        let secs = ms / 1000;
        push_pad2(out, secs / 3600);
        push_char(out, ':');
        push_pad2(out, secs / 60 % 60);
        push_char(out, ':');
        push_pad2(out, secs % 60);
        push_char(out, '.');
        push_char(out, digit_to_char(ms % 1000 / 100));
        push_char(out, digit_to_char(ms % 100 / 10));
        push_char(out, digit_to_char(ms % 10));
        assert(out@ =~= old(out)@ + timestamp_text(self.millis as nat));
    }

    /// The `HH:MM:SS.mmm` form of this timestamp.
    pub fn to_string(&self) -> (r: String)
        ensures
            r@ == timestamp_text(self.millis as nat),
    {
        let mut out = String::new();
        self.write_to(&mut out);
        assert(out@ =~= timestamp_text(self.millis as nat));
        out
    }
}

} // verus!
