//! Character classes, number parsing and number formatting on text.
use vstd::prelude::*;

verus! {

/// Character classes that the scanners below recognise.
pub enum Class {
    Space,
    Word,
    Digit,
}

/// Unicode `White_Space`, as `char::is_whitespace` classifies it.
pub open spec fn is_space(c: char) -> bool {
    let u = c as u32;
    (9 <= u && u <= 13) || u == 32 || u == 0x85 || u == 0xa0 || u == 0x1680 || (0x2000 <= u
        && u <= 0x200a) || u == 0x2028 || u == 0x2029 || u == 0x202f || u == 0x205f || u == 0x3000
}

pub open spec fn is_digit(c: char) -> bool {
    48 <= (c as u32) && (c as u32) <= 57
}

pub open spec fn digit_of(c: char) -> nat {
    ((c as u32) - 48) as nat
}

pub open spec fn in_class(c: char, k: Class) -> bool {
    match k {
        Class::Space => is_space(c),
        Class::Word => !is_space(c),
        Class::Digit => is_digit(c),
    }
}

/// Number of leading characters of `s` that belong to class `k`.
pub open spec fn lead_len(s: Seq<char>, k: Class) -> nat
    decreases s.len(),
{
    if s.len() == 0 || !in_class(s[0], k) {
        0
    } else {
        1 + lead_len(s.drop_first(), k)
    }
}

pub open spec fn all_digits(t: Seq<char>) -> bool {
    forall|i: int| 0 <= i < t.len() ==> is_digit(#[trigger] t[i])
}

/// Value of a string of decimal digits.
pub open spec fn digits_val(s: Seq<char>) -> nat
    decreases s.len(),
{
    if s.len() == 0 {
        0
    } else {
        digits_val(s.drop_last()) * 10 + digit_of(s.last())
    }
}

/// Number of trailing whitespace characters of `s`.
pub open spec fn trail_space(s: Seq<char>) -> nat
    decreases s.len(),
{
    if s.len() == 0 || !is_space(s.last()) {
        0
    } else {
        1 + trail_space(s.drop_last())
    }
}

/// `s` without leading and trailing whitespace.
pub open spec fn trimmed(s: Seq<char>) -> Seq<char> {
    let t = s.skip(lead_len(s, Class::Space) as int);
    t.take(t.len() - trail_space(t))
}

/// The second whitespace-separated word of `s`, if it has one.
pub open spec fn second_word(s: Seq<char>) -> Option<Seq<char>> {
    let t = s.skip(lead_len(s, Class::Space) as int);
    let u = t.skip(lead_len(t, Class::Word) as int);
    let v = u.skip(lead_len(u, Class::Space) as int);
    if v.len() > 0 {
        Some(v.take(lead_len(v, Class::Word) as int))
    } else {
        None
    }
}

/// Splits off one leading sign character.
pub open spec fn split_sign(s: Seq<char>) -> (bool, Seq<char>) {
    if s.len() > 0 && s[0] == '-' {
        (true, s.skip(1))
    } else if s.len() > 0 && s[0] == '+' {
        (false, s.skip(1))
    } else {
        (false, s)
    }
}

/// An optionally signed decimal integer that fits in an `i32`.
pub open spec fn int_value(s: Seq<char>) -> Option<int> {
    let (neg, b) = split_sign(s);
    let v = if neg {
        -digits_val(b)
    } else {
        digits_val(b) as int
    };
    if b.len() > 0 && all_digits(b) && i32::MIN <= v <= i32::MAX {
        Some(v)
    } else {
        None
    }
}

pub open spec fn pow10(n: nat) -> nat
    decreases n,
{
    if n == 0 {
        1
    } else {
        10 * pow10((n - 1) as nat)
    }
}

/// `m` times ten to the power `sh`, truncated toward zero where `sh` is
/// negative.
pub open spec fn shift10(m: nat, sh: int) -> nat {
    if sh >= 0 {
        m * pow10(sh as nat)
    } else {
        m / pow10((-sh) as nat)
    }
}

/// An exponent: an optional sign and at least one digit.
pub open spec fn exp_value(t: Seq<char>) -> Option<int> {
    let (neg, b) = split_sign(t);
    if b.len() > 0 && all_digits(b) {
        Some(
            if neg {
                -digits_val(b)
            } else {
                digits_val(b) as int
            },
        )
    } else {
        None
    }
}

/// Thousandths in an unsigned decimal, truncated toward zero: digits with an
/// optional fraction (`ddd`, `ddd.ddd`, `ddd.`, `.ddd`), then an optional
/// exponent (`e` or `E`, an optional sign, digits).
pub open spec fn unsigned_milli(b: Seq<char>) -> Option<nat> {
    let k = lead_len(b, Class::Digit) as int;
    let rest = b.skip(k);
    let has_dot = rest.len() > 0 && rest[0] == '.';
    let fl = if has_dot {
        lead_len(rest.skip(1), Class::Digit) as int
    } else {
        0
    };
    let tail = if has_dot {
        rest.skip(1 + fl)
    } else {
        rest
    };
    let e = if tail.len() == 0 {
        Some(0int)
    } else if tail[0] == 'e' || tail[0] == 'E' {
        exp_value(tail.skip(1))
    } else {
        None
    };
    let digits = b.take(k) + if has_dot {
        rest.subrange(1, 1 + fl)
    } else {
        Seq::empty()
    };
    if k + fl > 0 && e is Some {
        Some(shift10(digits_val(digits), e.unwrap() + 3 - fl))
    } else {
        None
    }
}

/// An optionally signed decimal number, in thousandths rounded toward zero,
/// when that fits in an `i64`.
pub open spec fn decimal_milli(s: Seq<char>) -> Option<int> {
    let (neg, b) = split_sign(s);
    match unsigned_milli(b) {
        Some(m) => if m <= i64::MAX {
            Some(
                if neg {
                    -m
                } else {
                    m as int
                },
            )
        } else {
            None
        },
        None => None,
    }
}

pub open spec fn digit_char(d: nat) -> char {
    if d == 0 {
        '0'
    } else if d == 1 {
        '1'
    } else if d == 2 {
        '2'
    } else if d == 3 {
        '3'
    } else if d == 4 {
        '4'
    } else if d == 5 {
        '5'
    } else if d == 6 {
        '6'
    } else if d == 7 {
        '7'
    } else if d == 8 {
        '8'
    } else {
        '9'
    }
}

/// Decimal text of a natural number, without leading zeros.
pub open spec fn nat_text(n: nat) -> Seq<char>
    decreases n,
{
    if n < 10 {
        seq![digit_char(n)]
    } else {
        nat_text(n / 10).push(digit_char(n % 10))
    }
}

/// Decimal text of an integer, with `-` before a negative one.
pub open spec fn int_text(i: int) -> Seq<char> {
    if i < 0 {
        seq!['-'] + nat_text((-i) as nat)
    } else {
        nat_text(i as nat)
    }
}

pub open spec fn abs(m: int) -> nat {
    if m < 0 {
        (-m) as nat
    } else {
        m as nat
    }
}

/// Thousandths `m` rounded to tenths, halves away from zero, without sign.
pub open spec fn tenths_of(m: int) -> nat {
    (abs(m) + 50) / 100
}

/// `m` thousandths written with one decimal place and no sign.
pub open spec fn unsigned_tenths_text(m: int) -> Seq<char> {
    nat_text(tenths_of(m) / 10) + seq!['.', digit_char(tenths_of(m) % 10)]
}

/// `m` thousandths written with one decimal place, `-` before a negative value.
pub open spec fn one_decimal(m: int) -> Seq<char> {
    if m < 0 {
        seq!['-'] + unsigned_tenths_text(m)
    } else {
        unsigned_tenths_text(m)
    }
}

/// `m` thousandths written with one decimal place and a sign always shown.
pub open spec fn signed_one_decimal(m: int) -> Seq<char> {
    if m < 0 {
        seq!['-'] + unsigned_tenths_text(m)
    } else {
        seq!['+'] + unsigned_tenths_text(m)
    }
}

proof fn lemma_lead_len(s: Seq<char>, k: Class, n: int)
    requires
        0 <= n <= s.len(),
        forall|j: int| 0 <= j < n ==> in_class(#[trigger] s[j], k),
        n == s.len() || !in_class(s[n], k),
    ensures
        lead_len(s, k) == n,
    decreases n,
{
    if n > 0 {
        let t = s.drop_first();
        assert forall|j: int| 0 <= j < n - 1 implies in_class(#[trigger] t[j], k) by {
            assert(t[j] == s[j + 1]);
        }
        lemma_lead_len(t, k, n - 1);
    }
}

fn char_in_class(c: char, k: &Class) -> (r: bool)
    ensures
        r == in_class(c, *k),
{
    let u = c as u32;
    match k {
        Class::Space => (9 <= u && u <= 13) || u == 32 || u == 0x85 || u == 0xa0 || u == 0x1680
            || (0x2000 <= u && u <= 0x200a) || u == 0x2028 || u == 0x2029 || u == 0x202f || u
            == 0x205f || u == 0x3000,
        Class::Word => !((9 <= u && u <= 13) || u == 32 || u == 0x85 || u == 0xa0 || u == 0x1680
            || (0x2000 <= u && u <= 0x200a) || u == 0x2028 || u == 0x2029 || u == 0x202f || u
            == 0x205f || u == 0x3000),
        Class::Digit => 48 <= u && u <= 57,
    }
}

/// Index just past the run of class `k` that starts at `from`.
fn scan(s: &str, len: usize, from: usize, k: &Class) -> (r: usize)
    requires
        len == s@.len(),
        from <= len,
    ensures
        from <= r <= len,
        r - from == lead_len(s@.subrange(from as int, len as int), *k),
        forall|j: int| from <= j < r ==> in_class(#[trigger] s@[j], *k),
        r < len ==> !in_class(s@[r as int], *k),
{
    let mut i = from;
    while i < len && char_in_class(s.get_char(i), k)
        invariant
            len == s@.len(),
            from <= i <= len,
            forall|j: int| from <= j < i ==> in_class(#[trigger] s@[j], *k),
        decreases len - i,
    {
        i = i + 1;
    }
    proof {
        let t = s@.subrange(from as int, len as int);
        assert forall|j: int| 0 <= j < i - from implies in_class(#[trigger] t[j], *k) by {
            assert(t[j] == s@[from + j]);
        }
        lemma_lead_len(t, *k, i - from);
    }
    i
}


proof fn lemma_digits_step(s: Seq<char>, a: int, i: int)
    requires
        0 <= a <= i < s.len(),
    ensures
        digits_val(s.subrange(a, i + 1)) == digits_val(s.subrange(a, i)) * 10 + digit_of(s[i]),
{
    assert(s.subrange(a, i + 1).drop_last() =~= s.subrange(a, i));
}

/// Value of the digits in `from..to`, or `over` when it exceeds `bound`.
fn digits_run(s: &str, len: usize, from: usize, to: usize, bound: u128) -> (r: (u128, bool))
    requires
        len == s@.len(),
        from <= to <= len,
        bound <= u128::MAX / 10 - 9,
        forall|j: int| from <= j < to ==> is_digit(#[trigger] s@[j]),
    ensures
        !r.1 ==> r.0 == digits_val(s@.subrange(from as int, to as int)) && r.0 <= bound,
        r.1 ==> digits_val(s@.subrange(from as int, to as int)) > bound,
{
    let mut acc: u128 = 0;
    let mut over = false;
    let mut i = from;
    assert(s@.subrange(from as int, from as int) =~= Seq::<char>::empty());
    while i < to
        invariant
            len == s@.len(),
            from <= i <= to <= len,
            bound <= u128::MAX / 10 - 9,
            forall|j: int| from <= j < to ==> is_digit(#[trigger] s@[j]),
            !over ==> acc == digits_val(s@.subrange(from as int, i as int)) && acc <= bound,
            over ==> digits_val(s@.subrange(from as int, i as int)) > bound,
        decreases to - i,
    {
        let c = s.get_char(i);
        proof {
            lemma_digits_step(s@, from as int, i as int);
            assert(is_digit(s@[i as int]));
        }
        if !over {
            let d = (c as u32 - 48) as u128;
            let next = acc * 10 + d;
            if next > bound {
                over = true;
            } else {
                acc = next;
            }
        }
        i = i + 1;
    }
    (acc, over)
}

/// The second whitespace-separated word of `s`.
pub fn second_word_of(s: &str) -> (r: Option<&str>)
    ensures
        match second_word(s@) {
            Some(w) => r is Some && r.unwrap()@ == w,
            None => r is None,
        },
{
    let len = s.unicode_len();
    let a = scan(s, len, 0, &Class::Space);
    let b = scan(s, len, a, &Class::Word);
    let c = scan(s, len, b, &Class::Space);
    proof {
        let t = s@.skip(lead_len(s@, Class::Space) as int);
        assert(s@.subrange(0, len as int) =~= s@);
        assert(t =~= s@.subrange(a as int, len as int));
        let u = t.skip(lead_len(t, Class::Word) as int);
        assert(u =~= s@.subrange(b as int, len as int));
        let v = u.skip(lead_len(u, Class::Space) as int);
        assert(v =~= s@.subrange(c as int, len as int));
    }
    if c < len {
        let d = scan(s, len, c, &Class::Word);
        let w = s.substring_char(c, d);
        proof {
            let v = s@.subrange(c as int, len as int);
            assert(v.take(lead_len(v, Class::Word) as int) =~= w@);
        }
        Some(w)
    } else {
        None
    }
}

/// Parses an optionally signed decimal integer that fits in an `i32`.
pub fn parse_int(s: &str) -> (r: Option<i32>)
    ensures
        match int_value(s@) {
            Some(v) => r == Some(v as i32),
            None => r is None,
        },
{
    let len = s.unicode_len();
    let mut start: usize = 0;
    let mut neg = false;
    if len > 0 {
        let c0 = s.get_char(0);
        if c0 == '-' {
            neg = true;
            start = 1;
        } else if c0 == '+' {
            start = 1;
        }
    }
    let ghost b = s@.subrange(start as int, len as int);
    assert(split_sign(s@) == (neg, b)) by {
        if len > 0 {
            assert(s@.skip(1) =~= s@.subrange(1, len as int));
        }
        assert(s@ =~= s@.subrange(0, len as int));
    }
    let end = scan(s, len, start, &Class::Digit);
    if start == len || end < len {
        proof {
            if end < len {
                assert(b[end - start] == s@[end as int]);
                assert(!is_digit(b[end - start]));
            }
        }
        return None;
    }
    assert(s@.subrange(start as int, end as int) =~= b);
    let (acc, over) = digits_run(s, len, start, end, 2147483648);
    if over {
        return None;
    }
    if neg {
        Some((0 - acc as i128) as i32)
    } else if acc <= 2147483647 {
        Some(acc as i32)
    } else {
        None
    }
}

proof fn lemma_pow10_mono(a: nat, b: nat)
    requires
        a <= b,
    ensures
        1 <= pow10(a) <= pow10(b),
    decreases b,
{
    if b > 0 {
        if a < b {
            lemma_pow10_mono(a, (b - 1) as nat);
        } else {
            lemma_pow10_mono((a - 1) as nat, (b - 1) as nat);
        }
    }
}

proof fn lemma_pow10_19()
    ensures
        pow10(19) > i64::MAX,
{
    reveal_with_fuel(pow10, 20);
}

/// Splitting a digit string at `j` splits its value.
proof fn lemma_digits_split(d: Seq<char>, j: int)
    requires
        0 <= j <= d.len(),
        all_digits(d),
    ensures
        digits_val(d) == digits_val(d.take(j)) * pow10((d.len() - j) as nat) + digits_val(d.skip(j)),
        digits_val(d.skip(j)) < pow10((d.len() - j) as nat),
    decreases d.len(),
{
    if j == d.len() {
        assert(pow10(0) == 1);
        assert(d.take(j) =~= d);
        assert(d.skip(j) =~= Seq::<char>::empty());
        assert(digits_val(d.skip(j)) == 0);
        assert(digits_val(d) * 1 == digits_val(d));
    } else {
        let e = d.drop_last();
        assert forall|i: int| 0 <= i < e.len() implies is_digit(#[trigger] e[i]) by {
            assert(e[i] == d[i]);
        }
        lemma_digits_split(e, j);
        assert(e.take(j) =~= d.take(j));
        assert(d.skip(j).drop_last() =~= e.skip(j));
        assert(d.skip(j).last() == d.last());
        assert(is_digit(d[d.len() - 1]));
        let v = digits_val(d.take(j));
        let p = pow10((e.len() - j) as nat);
        let r = digits_val(e.skip(j));
        let x = digit_of(d.last());
        assert(pow10((d.len() - j) as nat) == 10 * p);
        assert(digits_val(d) == (v * p + r) * 10 + x);
        assert(digits_val(d.skip(j)) == r * 10 + x);
        assert((v * p + r) * 10 + x == v * (10 * p) + (r * 10 + x)) by (nonlinear_arith);
        assert(r * 10 + x < 10 * p) by (nonlinear_arith)
            requires
                r < p,
                x < 10,
        ;
        assert(digits_val(d) == v * pow10((d.len() - j) as nat) + digits_val(d.skip(j)));
    }
}

/// Value of the first `keep` digits of the runs `start..ie` and `fs..fe`
/// taken together, or `over` when it exceeds `bound`.
fn prefix_value(s: &str, len: usize, start: usize, ie: usize, fs: usize, fe: usize, keep: usize, bound: u128) -> (r: (u128, bool))
    requires
        len == s@.len(),
        start <= ie <= fs <= fe <= len,
        keep <= (ie - start) + (fe - fs),
        bound <= u128::MAX / 10 - 9,
        forall|j: int| start <= j < ie ==> is_digit(#[trigger] s@[j]),
        forall|j: int| fs <= j < fe ==> is_digit(#[trigger] s@[j]),
    ensures
        ({
            let d = (s@.subrange(start as int, ie as int) + s@.subrange(fs as int, fe as int)).take(
                keep as int,
            );
            &&& !r.1 ==> r.0 == digits_val(d) && r.0 <= bound
            &&& r.1 ==> digits_val(d) > bound
        }),
{
    let ghost d = s@.subrange(start as int, ie as int) + s@.subrange(fs as int, fe as int);
    let k = ie - start;
    let mut acc: u128 = 0;
    let mut over = false;
    let mut p: usize = 0;
    assert(d.take(0) =~= Seq::<char>::empty());
    while p < keep
        invariant
            len == s@.len(),
            start <= ie <= fs <= fe <= len,
            k == ie - start,
            keep <= k + (fe - fs),
            p <= keep,
            bound <= u128::MAX / 10 - 9,
            d == s@.subrange(start as int, ie as int) + s@.subrange(fs as int, fe as int),
            forall|j: int| start <= j < ie ==> is_digit(#[trigger] s@[j]),
            forall|j: int| fs <= j < fe ==> is_digit(#[trigger] s@[j]),
            !over ==> acc == digits_val(d.take(p as int)) && acc <= bound,
            over ==> digits_val(d.take(p as int)) > bound,
        decreases keep - p,
    {
        let idx = if p < k {
            start + p
        } else {
            fs + (p - k)
        };
        assert(d[p as int] == s@[idx as int]);
        assert(d.take(p as int + 1).drop_last() =~= d.take(p as int));
        assert(d.take(p as int + 1).last() == d[p as int]);
        assert(is_digit(s@[idx as int]));
        if !over {
            let c = s.get_char(idx);
            let next = acc * 10 + (c as u32 - 48) as u128;
            if next > bound {
                over = true;
            } else {
                acc = next;
            }
        }
        p = p + 1;
    }
    (acc, over)
}

const EXP_BOUND: u128 = 1267650600228229401496703205376;

/// The exponent written in `at..len`: its sign, its magnitude, and `over`
/// where the magnitude exceeds `EXP_BOUND`.
fn exponent_of(s: &str, len: usize, at: usize) -> (r: Option<(bool, u128, bool)>)
    requires
        len == s@.len(),
        at <= len,
    ensures
        match exp_value(s@.subrange(at as int, len as int)) {
            None => r is None,
            Some(e) => r is Some && ({
                let (neg, mag, over) = r.unwrap();
                &&& !over ==> mag <= EXP_BOUND && e == if neg {
                    -(mag as int)
                } else {
                    mag as int
                }
                &&& over && neg ==> e < -EXP_BOUND
                &&& over && !neg ==> e > EXP_BOUND
            }),
        },
{
    let ghost t = s@.subrange(at as int, len as int);
    let mut neg = false;
    let mut es = at;
    if at < len {
        let c1 = s.get_char(at);
        if c1 == '-' {
            neg = true;
            es = at + 1;
        } else if c1 == '+' {
            es = at + 1;
        }
    }
    proof {
        if at < len {
            assert(t.skip(1) =~= s@.subrange(at + 1, len as int));
        }
        assert(split_sign(t).1 =~= s@.subrange(es as int, len as int));
    }
    let ed = scan(s, len, es, &Class::Digit);
    if ed == es || ed < len {
        proof {
            if ed < len {
                assert(split_sign(t).1[ed - es] == s@[ed as int]);
            }
        }
        return None;
    }
    let (m, o) = digits_run(s, len, es, ed, EXP_BOUND);
    assert(s@.subrange(es as int, ed as int) =~= split_sign(t).1);
    Some((neg, m, o))
}

/// The digits of `start..ie` and `fs..fe` taken together, as a number
/// times ten to the power `ev + 3 - (fe - fs)`, truncated toward zero; `None`
/// where that exceeds `i64::MAX`.
#[verifier::rlimit(50)]
fn scale_digits(
    s: &str,
    len: usize,
    start: usize,
    ie: usize,
    fs: usize,
    fe: usize,
    e_neg: bool,
    e_mag: u128,
    e_over: bool,
    ev: Ghost<int>,
) -> (r: Option<u128>)
    requires
        len == s@.len(),
        start <= ie <= fs <= fe <= len,
        forall|j: int| start <= j < ie ==> is_digit(#[trigger] s@[j]),
        forall|j: int| fs <= j < fe ==> is_digit(#[trigger] s@[j]),
        !e_over ==> e_mag <= EXP_BOUND && ev@ == if e_neg {
            -(e_mag as int)
        } else {
            e_mag as int
        },
        e_over && e_neg ==> ev@ < -EXP_BOUND,
        e_over && !e_neg ==> ev@ > EXP_BOUND,
    ensures
        ({
            let dg = s@.subrange(start as int, ie as int) + s@.subrange(fs as int, fe as int);
            let v = shift10(digits_val(dg), ev@ + 3 - (fe - fs));
            match r {
                Some(m) => m == v && m <= i64::MAX,
                None => v > i64::MAX,
            }
        }),
{
    let ghost dg = s@.subrange(start as int, ie as int) + s@.subrange(fs as int, fe as int);
    let k = ie - start;
    let fl = fe - fs;
    let n = k + fl;
    let ghost shv: int = ev@ + 3 - fl;
    proof {
        assert forall|j: int| 0 <= j < dg.len() implies is_digit(#[trigger] dg[j]) by {
            if j < k {
                assert(dg[j] == s@[start + j]);
            } else {
                assert(dg[j] == s@[fs + j - k]);
            }
        }
        lemma_digits_split(dg, 0);
        assert(dg.take(0) =~= Seq::<char>::empty());
        assert(dg.skip(0) =~= dg);
        assert(dg.take(n as int) =~= dg);
    }
    let max: u128 = 9223372036854775807;
    let mag: u128;
    if e_over && e_neg {
        proof {
            lemma_pow10_mono(n as nat, (-shv) as nat);
            vstd::arithmetic::div_mod::lemma_basic_div_specific_divisor(pow10((-shv) as nat) as int);
        }
        mag = 0;
    } else if e_over {
        let (m, o) = prefix_value(s, len, start, ie, fs, fe, n, max);
        if o || m > 0 {
            proof {
                lemma_pow10_mono(19, shv as nat);
                lemma_pow10_19();
                let mm = digits_val(dg);
                let pp = pow10(shv as nat);
                assert(mm * pp >= pp) by (nonlinear_arith)
                    requires
                        mm >= 1,
                ;
            }
            return None;
        }
        mag = 0;
    } else {
        let sh: i128 = if e_neg {
            0 - e_mag as i128 + 3 - fl as i128
        } else {
            e_mag as i128 + 3 - fl as i128
        };
        assert(sh == shv);
        if sh >= 0 {
            let (m, o) = prefix_value(s, len, start, ie, fs, fe, n, max);
            if o {
                proof {
                    lemma_pow10_mono(0, shv as nat);
                    let mm = digits_val(dg);
                    let pp = pow10(shv as nat);
                    assert(mm * pp >= mm) by (nonlinear_arith)
                        requires
                            pp >= 1,
                    ;
                }
                return None;
            }
            let mut acc = m;
            if m > 0 {
                let mut j: i128 = 0;
                assert(pow10(0) == 1);
                assert(m * 1 == m);
                while j < sh
                    invariant
                        0 <= j <= sh,
                        sh == shv,
                        shv == ev@ + 3 - (fe - fs),
                        dg == s@.subrange(start as int, ie as int) + s@.subrange(fs as int, fe as int),
                        m == digits_val(dg),
                        m >= 1,
                        max == i64::MAX,
                        acc == m * pow10(j as nat),
                        acc <= max,
                    decreases sh - j,
                {
                    let next = acc * 10;
                    proof {
                        assert(pow10((j + 1) as nat) == 10 * pow10(j as nat));
                        assert(m * (10 * pow10(j as nat)) == (m * pow10(j as nat)) * 10) by (nonlinear_arith);
                    }
                    if next > max {
                        proof {
                            lemma_pow10_mono((j + 1) as nat, sh as nat);
                            let p1 = pow10((j + 1) as nat);
                            let p2 = pow10(sh as nat);
                            assert(m * p1 <= m * p2) by (nonlinear_arith)
                                requires
                                    p1 <= p2,
                            ;
                            assert(next as int == m * p1);
                        }
                        return None;
                    }
                    acc = next;
                    j = j + 1;
                }
            } else {
                assert(0 * pow10(shv as nat) == 0);
            }
            mag = acc;
        } else {
            let kd = (0 - sh) as u128;
            if kd >= n as u128 {
                proof {
                    lemma_pow10_mono(n as nat, (-shv) as nat);
                    vstd::arithmetic::div_mod::lemma_basic_div_specific_divisor(pow10((-shv) as nat) as int);
                }
                mag = 0;
            } else {
                let keep = n - kd as usize;
                let (v, o) = prefix_value(s, len, start, ie, fs, fe, keep, max);
                proof {
                    lemma_digits_split(dg, keep as int);
                    let pp = pow10((n - keep) as nat);
                    lemma_pow10_mono(0, (n - keep) as nat);
                    vstd::arithmetic::div_mod::lemma_fundamental_div_mod_converse(
                        digits_val(dg) as int,
                        pp as int,
                        digits_val(dg.take(keep as int)) as int,
                        digits_val(dg.skip(keep as int)) as int,
                    );
                }
                if o {
                    return None;
                }
                mag = v;
            }
        }
    }
    Some(mag)
}

/// Parses an optionally signed decimal number, with an optional exponent,
/// into thousandths truncated toward zero; `None` where the text is no such
/// number or the value does not fit in an `i64`.
#[verifier::rlimit(100)]
pub fn parse_milli(s: &str) -> (r: Option<i64>)
    ensures
        match decimal_milli(s@) {
            Some(v) => r == Some(v as i64),
            None => r is None,
        },
{
    let len = s.unicode_len();
    let mut start: usize = 0;
    let mut neg = false;
    if len > 0 {
        let c0 = s.get_char(0);
        if c0 == '-' {
            neg = true;
            start = 1;
        } else if c0 == '+' {
            start = 1;
        }
    }
    let ghost b = s@.subrange(start as int, len as int);
    assert(split_sign(s@) == (neg, b)) by {
        if len > 0 {
            assert(s@.skip(1) =~= s@.subrange(1, len as int));
        }
        assert(s@ =~= s@.subrange(0, len as int));
    }
    let ie = scan(s, len, start, &Class::Digit);
    let k = ie - start;
    let ghost rest = b.skip(k as int);
    assert(rest =~= s@.subrange(ie as int, len as int));
    assert(b.take(k as int) =~= s@.subrange(start as int, ie as int));
    let has_dot = ie < len && s.get_char(ie) == '.';
    let fs = if has_dot {
        ie + 1
    } else {
        ie
    };
    let fe = if has_dot {
        scan(s, len, ie + 1, &Class::Digit)
    } else {
        ie
    };
    let fl = fe - fs;
    let ghost tail = s@.subrange(fe as int, len as int);
    proof {
        if has_dot {
            assert(rest.skip(1) =~= s@.subrange(ie + 1, len as int));
            assert(rest.skip(1 + fl) =~= tail);
            assert(rest.subrange(1, 1 + fl) =~= s@.subrange(fs as int, fe as int));
        } else {
            assert(s@.subrange(fs as int, fe as int) =~= Seq::<char>::empty());
        }
    }
    let ghost dg = s@.subrange(start as int, ie as int) + s@.subrange(fs as int, fe as int);
    assert(dg =~= b.take(k as int) + if has_dot {
        rest.subrange(1, 1 + fl as int)
    } else {
        Seq::empty()
    });
    if k + fl == 0 {
        return None;
    }
    let n = k + fl;
    let mut e_neg = false;
    let mut e_mag: u128 = 0;
    let mut e_over = false;
    if fe < len {
        let c = s.get_char(fe);
        if c != 'e' && c != 'E' {
            return None;
        }
        assert(tail.skip(1) =~= s@.subrange(fe + 1, len as int));
        match exponent_of(s, len, fe + 1) {
            Some((en, em, eo)) => {
                e_neg = en;
                e_mag = em;
                e_over = eo;
            },
            None => {
                return None;
            },
        }
    }
    let ghost ev: int = if fe < len {
        exp_value(tail.skip(1)).unwrap()
    } else {
        0
    };
    assert(fe == len ==> tail.len() == 0);
    let mag = match scale_digits(s, len, start, ie, fs, fe, e_neg, e_mag, e_over, Ghost(ev)) {
        Some(m) => m,
        None => {
            return None;
        },
    };
    assert(unsigned_milli(b) == Some(mag as nat));
    if neg {
        Some(0 - mag as i64)
    } else {
        Some(mag as i64)
    }
}

fn digit_str(d: u128) -> (r: &'static str)
    requires
        d < 10,
    ensures
        r@ == seq![digit_char(d as nat)],
{
    proof {
        reveal_strlit("0");
        reveal_strlit("1");
        reveal_strlit("2");
        reveal_strlit("3");
        reveal_strlit("4");
        reveal_strlit("5");
        reveal_strlit("6");
        reveal_strlit("7");
        reveal_strlit("8");
        reveal_strlit("9");
    }
    if d == 0 {
        "0"
    } else if d == 1 {
        "1"
    } else if d == 2 {
        "2"
    } else if d == 3 {
        "3"
    } else if d == 4 {
        "4"
    } else if d == 5 {
        "5"
    } else if d == 6 {
        "6"
    } else if d == 7 {
        "7"
    } else if d == 8 {
        "8"
    } else {
        "9"
    }
}

/// Appends the decimal text of `n`.
pub fn push_nat(out: &mut String, n: u128)
    ensures
        final(out)@ == old(out)@ + nat_text(n as nat),
    decreases n,
{
    if n >= 10 {
        push_nat(out, n / 10);
    }
    out.append(digit_str(n % 10));
    assert(nat_text(n as nat) == if n < 10 {
        seq![digit_char(n as nat)]
    } else {
        nat_text((n / 10) as nat).push(digit_char((n % 10) as nat))
    });
    assert(final(out)@ =~= old(out)@ + nat_text(n as nat));
}

/// Appends the decimal text of `i`.
pub fn push_int(out: &mut String, i: i64)
    ensures
        final(out)@ == old(out)@ + int_text(i as int),
{
    if i < 0 {
        proof {
            reveal_strlit("-");
        }
        out.append("-");
        let m: u128 = (0 - (i as i128)) as u128;
        push_nat(out, m);
        assert(final(out)@ =~= old(out)@ + int_text(i as int));
    } else {
        push_nat(out, i as u128);
    }
}

fn push_unsigned_tenths(out: &mut String, m: i128)
    ensures
        final(out)@ == old(out)@ + unsigned_tenths_text(m as int),
{
    let a: u128 = if m < 0 {
        ((0 - (m + 1)) as u128) + 1
    } else {
        m as u128
    };
    assert(a == abs(m as int));
    let t = (a + 50) / 100;
    push_nat(out, t / 10);
    proof {
        reveal_strlit(".");
    }
    out.append(".");
    out.append(digit_str(t % 10));
    assert(final(out)@ =~= old(out)@ + unsigned_tenths_text(m as int));
}

/// `m` thousandths with one decimal place, `-` before a negative value.
pub fn one_decimal_text(m: i128) -> (r: String)
    ensures
        r@ == one_decimal(m as int),
{
    let mut out = String::new();
    if m < 0 {
        proof {
            reveal_strlit("-");
        }
        out.append("-");
    }
    push_unsigned_tenths(&mut out, m);
    assert(out@ =~= one_decimal(m as int));
    out
}

/// `m` thousandths with one decimal place and its sign always shown.
pub fn signed_one_decimal_text(m: i128) -> (r: String)
    ensures
        r@ == signed_one_decimal(m as int),
{
    let mut out = String::new();
    if m < 0 {
        proof {
            reveal_strlit("-");
        }
        out.append("-");
    } else {
        proof {
            reveal_strlit("+");
        }
        out.append("+");
    }
    push_unsigned_tenths(&mut out, m);
    assert(out@ =~= signed_one_decimal(m as int));
    out
}

/// Whether two texts are equal, character for character.
pub fn same_text(a: &str, b: &str) -> (r: bool)
    ensures
        r == (a@ == b@),
{
    let n = a.unicode_len();
    if n != b.unicode_len() {
        return false;
    }
    let mut i: usize = 0;
    while i < n
        invariant
            n == a@.len() == b@.len(),
            i <= n,
            forall|j: int| 0 <= j < i ==> a@[j] == b@[j],
        decreases n - i,
    {
        if a.get_char(i) != b.get_char(i) {
            return false;
        }
        i = i + 1;
    }
    assert(a@ =~= b@);
    true
}

proof fn lemma_digit_char(d: nat)
    requires
        d < 10,
    ensures
        is_digit(digit_char(d)),
        digit_of(digit_char(d)) == d,
{
}

pub proof fn lemma_nat_text_digits(n: nat)
    ensures
        nat_text(n).len() >= 1,
        n >= 10 ==> nat_text(n).len() >= 2,
        forall|i: int| 0 <= i < nat_text(n).len() ==> is_digit(#[trigger] nat_text(n)[i]),
    decreases n,
{
    lemma_digit_char(n % 10);
    if n >= 10 {
        lemma_nat_text_digits(n / 10);
        let t = nat_text(n / 10);
        assert forall|i: int| 0 <= i < nat_text(n).len() implies is_digit(#[trigger] nat_text(n)[i]) by {
            if i < t.len() {
                assert(nat_text(n)[i] == t[i]);
            }
        }
    }
}

proof fn lemma_nat_text_injective(a: nat, b: nat)
    requires
        nat_text(a) == nat_text(b),
    ensures
        a == b,
    decreases a,
{
    lemma_nat_text_digits(a);
    lemma_nat_text_digits(b);
    lemma_digit_char(a % 10);
    lemma_digit_char(b % 10);
    if a >= 10 && b >= 10 {
        assert(nat_text(a).last() == digit_char(a % 10));
        assert(nat_text(b).last() == digit_char(b % 10));
        assert(nat_text(a).drop_last() =~= nat_text(a / 10));
        assert(nat_text(b).drop_last() =~= nat_text(b / 10));
        lemma_nat_text_injective(a / 10, b / 10);
    } else if a < 10 && b < 10 {
        assert(nat_text(a)[0] == digit_char(a));
        assert(nat_text(b)[0] == digit_char(b));
    }
}

/// Different integers have different decimal texts.
pub proof fn lemma_int_text_injective(a: int, b: int)
    requires
        int_text(a) == int_text(b),
    ensures
        a == b,
{
    lemma_nat_text_digits(abs(a));
    lemma_nat_text_digits(abs(b));
    if a < 0 && b < 0 {
        assert(int_text(a).skip(1) =~= nat_text(abs(a)));
        assert(int_text(b).skip(1) =~= nat_text(abs(b)));
        lemma_nat_text_injective(abs(a), abs(b));
    } else if a >= 0 && b >= 0 {
        lemma_nat_text_injective(abs(a), abs(b));
    } else if a < 0 {
        assert(int_text(a)[0] == '-');
        assert(is_digit(int_text(b)[0]));
    } else {
        assert(int_text(b)[0] == '-');
        assert(is_digit(int_text(a)[0]));
    }
}

proof fn lemma_trail_space(s: Seq<char>, n: int)
    requires
        0 <= n <= s.len(),
        forall|j: int| s.len() - n <= j < s.len() ==> is_space(#[trigger] s[j]),
        n == s.len() || !is_space(s[s.len() - n - 1]),
    ensures
        trail_space(s) == n,
    decreases n,
{
    if n > 0 {
        let t = s.drop_last();
        assert forall|j: int| t.len() - (n - 1) <= j < t.len() implies is_space(#[trigger] t[j]) by {
            assert(t[j] == s[j]);
        }
        if n - 1 < t.len() {
            assert(t[t.len() - (n - 1) - 1] == s[s.len() - n - 1]);
        }
        lemma_trail_space(t, n - 1);
    }
}

/// `s` without leading and trailing whitespace.
pub fn trim_text(s: &str) -> (r: &str)
    ensures
        r@ == trimmed(s@),
{
    let len = s.unicode_len();
    let a = scan(s, len, 0, &Class::Space);
    let mut e = len;
    while e > a && char_in_class(s.get_char(e - 1), &Class::Space)
        invariant
            len == s@.len(),
            a <= e <= len,
            forall|j: int| e <= j < len ==> is_space(#[trigger] s@[j]),
        decreases e,
    {
        e = e - 1;
    }
    proof {
        let t = s@.skip(lead_len(s@, Class::Space) as int);
        assert(s@.subrange(0, len as int) =~= s@);
        assert(t =~= s@.subrange(a as int, len as int));
        assert forall|j: int| t.len() - (len - e) <= j < t.len() implies is_space(#[trigger] t[j]) by {
            assert(t[j] == s@[a + j]);
        }
        if e > a {
            assert(t[t.len() - (len - e) - 1] == s@[e - 1]);
        }
        lemma_trail_space(t, (len - e) as int);
        assert(t.take(t.len() - trail_space(t)) =~= s@.subrange(a as int, e as int));
    }
    s.substring_char(a, e)
}

} // verus!
