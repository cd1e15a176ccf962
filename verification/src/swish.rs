use vstd::prelude::*;

use crate::order::push_char;

verus! {

/// Payment reference that payers are told to send money to.
pub const ELEVKAREN_NR: &'static str = "123-345 69 51";

/// Why a report failed to parse. Any failure aborts the whole report: partial
/// ingestion is never committed.
#[derive(Clone, Copy, Debug, PartialEq, Eq, Structural)]
pub enum ParseError {
    /// A named column of the schema is missing from the header line.
    MissingColumn,
    /// A data row has a different number of fields than the header.
    UnequalRow,
    /// A date field is not a valid `YYYY-MM-DD` calendar date.
    BadDate,
    /// A time field is not a valid `HH:MM` time of day.
    BadTime,
    /// An amount field is not a plain decimal number.
    BadNumber,
}

/// One party of a transfer, as the report names it.
#[derive(Debug)]
pub struct Part {
    pub phone: String,
    pub name: String,
}

#[verifier::ext_equal]
pub ghost struct PartModel {
    pub phone: Seq<char>,
    pub name: Seq<char>,
}

impl View for Part {
    type V = PartModel;

    open spec fn view(&self) -> PartModel {
        PartModel { phone: self.phone@, name: self.name@ }
    }
}

pub open spec fn spec_pow10(n: nat) -> int
    decreases n,
{
    if n == 0 {
        1
    } else {
        10 * spec_pow10((n - 1) as nat)
    }
}

pub proof fn lemma_pow10_positive(n: nat)
    ensures
        spec_pow10(n) >= 1,
    decreases n,
{
    if n > 0 {
        lemma_pow10_positive((n - 1) as nat);
    }
}

pub proof fn lemma_pow10_mono(a: nat, b: nat)
    requires
        a <= b,
    ensures
        spec_pow10(a) <= spec_pow10(b),
    decreases b,
{
    if a < b {
        lemma_pow10_mono(a, (b - 1) as nat);
        lemma_pow10_positive(a);
    }
}

/// The most fraction digits an amount may carry.
pub const MAX_AMOUNT_SCALE: u32 = 28;

/// An exact decimal number: `mantissa / 10^scale`. Amounts are compared
/// exactly, never through floating point, because reconciliation matches them
/// bit for bit against order totals.
#[derive(Clone, Copy, Debug, PartialEq, Eq, Structural)]
pub struct Amount {
    pub mantissa: i64,
    pub scale: u32,
}

#[verifier::ext_equal]
pub ghost struct AmountModel {
    pub mantissa: int,
    pub scale: nat,
}

impl View for Amount {
    type V = AmountModel;

    open spec fn view(&self) -> AmountModel {
        AmountModel { mantissa: self.mantissa as int, scale: self.scale as nat }
    }
}

/// Whether the decimal `a` is exactly the integer `n`.
pub open spec fn amount_eq_int(a: AmountModel, n: int) -> bool {
    a.mantissa == n * spec_pow10(a.scale)
}

impl Amount {
    /// Whether this decimal equals the integer `n` exactly; `115.00` equals
    /// `115`, while `115.5` and `1150` do not.
    pub fn equals_i32(&self, n: i32) -> (r: bool)
        ensures
            r == amount_eq_int(self@, n as int),
    {
        if self.scale > MAX_AMOUNT_SCALE {
            // The power of ten alone exceeds any 64-bit mantissa.
            proof {
                lemma_pow10_mono((MAX_AMOUNT_SCALE + 1) as nat, self.scale as nat);
                reveal_with_fuel(spec_pow10, 30);
                assert(spec_pow10((MAX_AMOUNT_SCALE + 1) as nat) == 100000000000000000000000000000);
                let p = spec_pow10(self@.scale);
                if n > 0 {
                    assert((n as int) * p >= p) by (nonlinear_arith)
                        requires
                            n >= 1,
                            p >= 1,
                    ;
                }
                if n < 0 {
                    assert((n as int) * p <= -p) by (nonlinear_arith)
                        requires
                            n <= -1,
                            p >= 1,
                    ;
                }
            }
            return self.mantissa == 0 && n == 0;
        }
        let mut p: i128 = 1;
        let mut k: u32 = 0;
        while k < self.scale
            invariant
                k <= self.scale <= MAX_AMOUNT_SCALE,
                p == spec_pow10(k as nat),
                1 <= p,
            decreases self.scale - k,
        {
            proof {
                lemma_pow10_mono((k + 1) as nat, MAX_AMOUNT_SCALE as nat);
                reveal_with_fuel(spec_pow10, 29);
                assert(spec_pow10(MAX_AMOUNT_SCALE as nat) == 10000000000000000000000000000);
            }
            p = p * 10;
            k = k + 1;
        }
        match (n as i128).checked_mul(p) {
            Some(rhs) => (self.mantissa as i128) == rhs,
            None => {
                proof {
                    lemma_pow10_positive(self.scale as nat);
                }
                false
            },
        }
    }
}

pub open spec fn is_digit(c: char) -> bool {
    '0' <= c && c <= '9'
}

pub open spec fn digit_val(c: char) -> int {
    c as int - '0' as int
}

pub open spec fn all_digits(s: Seq<char>) -> bool {
    forall|i: int| 0 <= i < s.len() ==> is_digit(#[trigger] s[i])
}

/// The number that a run of decimal digits denotes.
pub open spec fn digits_val(s: Seq<char>) -> int
    decreases s.len(),
{
    if s.len() == 0 {
        0
    } else {
        digits_val(s.drop_last()) * 10 + digit_val(s.last())
    }
}

pub proof fn lemma_digits_val_nonneg(s: Seq<char>)
    requires
        all_digits(s),
    ensures
        digits_val(s) >= 0,
    decreases s.len(),
{
    if s.len() > 0 {
        assert(is_digit(s[s.len() - 1]));
        lemma_digits_val_nonneg(s.drop_last());
    }
}

/// A prefix of a digit run never denotes more than the whole run.
pub proof fn lemma_digits_prefix_le(s: Seq<char>, j: int)
    requires
        all_digits(s),
        0 <= j <= s.len(),
    ensures
        digits_val(s.take(j)) <= digits_val(s),
    decreases s.len(),
{
    if j == s.len() {
        assert(s.take(j) =~= s);
    } else {
        assert(is_digit(s[s.len() - 1]));
        lemma_digits_val_nonneg(s.drop_last());
        assert(s.take(j) =~= s.drop_last().take(j));
        lemma_digits_prefix_le(s.drop_last(), j);
    }
}

/// Index of the first occurrence of `c` in `s`, or -1.
pub open spec fn find_first(s: Seq<char>, c: char) -> int
    decreases s.len(),
{
    if s.len() == 0 {
        -1
    } else if s[0] == c {
        0
    } else {
        let r = find_first(s.drop_first(), c);
        if r == -1 {
            -1
        } else {
            r + 1
        }
    }
}

pub proof fn lemma_find_first(s: Seq<char>, c: char)
    ensures
        find_first(s, c) == -1 ==> forall|i: int| 0 <= i < s.len() ==> s[i] != c,
        find_first(s, c) != -1 ==> 0 <= find_first(s, c) < s.len() && s[find_first(s, c)] == c
            && forall|i: int| 0 <= i < find_first(s, c) ==> s[i] != c,
    decreases s.len(),
{
    if s.len() > 0 && s[0] != c {
        let t = s.drop_first();
        lemma_find_first(t, c);
        let r = find_first(t, c);
        assert(forall|i: int| 0 <= i < t.len() ==> #[trigger] t[i] == s[i + 1]);
        if r == -1 {
            assert forall|i: int| 0 <= i < s.len() implies s[i] != c by {
                if i >= 1 {
                    assert(t[i - 1] == s[i]);
                }
            }
        } else {
            assert(s[r + 1] == t[r]);
            assert forall|i: int| 0 <= i < r + 1 implies s[i] != c by {
                if i >= 1 {
                    assert(t[i - 1] == s[i]);
                }
            }
        }
    }
}

pub open spec fn is_leap_year(y: int) -> bool {
    y % 4 == 0 && (y % 100 != 0 || y % 400 == 0)
}

pub open spec fn days_in_month(y: int, m: int) -> int {
    if m == 2 {
        if is_leap_year(y) {
            29
        } else {
            28
        }
    } else if m == 4 || m == 6 || m == 9 || m == 11 {
        30
    } else {
        31
    }
}

pub open spec fn valid_date(y: int, m: int, d: int) -> bool {
    0 <= y <= 9999 && 1 <= m <= 12 && 1 <= d <= days_in_month(y, m)
}

pub open spec fn valid_time(h: int, mi: int) -> bool {
    0 <= h < 24 && 0 <= mi < 60
}

/// A report date: exactly `YYYY-MM-DD`, a valid proleptic Gregorian calendar day.
pub open spec fn spec_parse_date(s: Seq<char>) -> Option<(int, int, int)> {
    if s.len() == 10 && all_digits(s.subrange(0, 4)) && s[4] == '-' && all_digits(
        s.subrange(5, 7),
    ) && s[7] == '-' && all_digits(s.subrange(8, 10)) {
        let y = digits_val(s.subrange(0, 4));
        let m = digits_val(s.subrange(5, 7));
        let d = digits_val(s.subrange(8, 10));
        if valid_date(y, m, d) {
            Some((y, m, d))
        } else {
            None
        }
    } else {
        None
    }
}

/// A report time of day: exactly `HH:MM`.
pub open spec fn spec_parse_time(s: Seq<char>) -> Option<(int, int)> {
    if s.len() == 5 && all_digits(s.subrange(0, 2)) && s[2] == ':' && all_digits(s.subrange(3, 5)) {
        let h = digits_val(s.subrange(0, 2));
        let mi = digits_val(s.subrange(3, 5));
        if valid_time(h, mi) {
            Some((h, mi))
        } else {
            None
        }
    } else {
        None
    }
}

pub proof fn lemma_digits_val2(s: Seq<char>)
    requires
        s.len() == 2,
    ensures
        digits_val(s) == 10 * digit_val(s[0]) + digit_val(s[1]),
{
    reveal_with_fuel(digits_val, 3);
    assert(s.drop_last().drop_last() =~= Seq::<char>::empty());
    assert(s.drop_last().last() == s[0]);
    assert(s.last() == s[1]);
}

pub proof fn lemma_digits_val4(s: Seq<char>)
    requires
        s.len() == 4,
    ensures
        digits_val(s) == 1000 * digit_val(s[0]) + 100 * digit_val(s[1]) + 10 * digit_val(s[2])
            + digit_val(s[3]),
{
    reveal_with_fuel(digits_val, 5);
    let s3 = s.drop_last();
    let s2 = s3.drop_last();
    let s1 = s2.drop_last();
    assert(s1.drop_last() =~= Seq::<char>::empty());
    assert(s1.last() == s[0]);
    assert(s2.last() == s[1]);
    assert(s3.last() == s[2]);
    assert(s.last() == s[3]);
}

/// A report amount: an optional minus sign, then digits with at most one
/// decimal point and digits on both of its sides. The number must be exactly
/// representable with a 63-bit mantissa and at most 28 fraction digits.
pub open spec fn spec_parse_amount(s: Seq<char>) -> Option<AmountModel> {
    let neg = s.len() > 0 && s[0] == '-';
    let body = if neg {
        s.drop_first()
    } else {
        s
    };
    let dot = find_first(body, '.');
    if dot == -1 {
        if body.len() >= 1 && all_digits(body) && digits_val(body) <= i64::MAX {
            Some(
                AmountModel {
                    mantissa: if neg {
                        -digits_val(body)
                    } else {
                        digits_val(body)
                    },
                    scale: 0,
                },
            )
        } else {
            None
        }
    } else {
        let ip = body.take(dot);
        let fp = body.skip(dot + 1);
        if ip.len() >= 1 && fp.len() >= 1 && fp.len() <= MAX_AMOUNT_SCALE && all_digits(ip)
            && all_digits(fp) && digits_val(ip + fp) <= i64::MAX {
            Some(
                AmountModel {
                    mantissa: if neg {
                        -digits_val(ip + fp)
                    } else {
                        digits_val(ip + fp)
                    },
                    scale: fp.len(),
                },
            )
        } else {
            None
        }
    }
}

/// Accumulate the digits `s[from..to]` appended to those already denoted by
/// `acc0` as `base`, failing exactly when the value leaves `i64`.
fn accumulate_digits(s: &Vec<char>, from: usize, to: usize, acc0: i64, Ghost(base): Ghost<
    Seq<char>,
>) -> (r: Option<i64>)
    requires
        from <= to <= s@.len(),
        all_digits(s@.subrange(from as int, to as int)),
        all_digits(base),
        acc0 == digits_val(base),
        acc0 >= 0,
    ensures
        ({
            let whole = base + s@.subrange(from as int, to as int);
            match r {
                Some(v) => v == digits_val(whole) && 0 <= v,
                None => digits_val(whole) > i64::MAX,
            }
        }),
{
    let ghost sub = s@.subrange(from as int, to as int);
    let ghost whole = base + sub;
    proof {
        assert(all_digits(whole)) by {
            assert(forall|i: int|
                0 <= i < base.len() ==> #[trigger] whole[i] == base[i]);
            assert(forall|i: int|
                base.len() <= i < whole.len() ==> #[trigger] whole[i] == sub[i - base.len()]);
        }
    }
    let mut acc: i64 = acc0;
    let mut i = from;
    proof {
        assert(base + sub.take(0) =~= base);
    }
    while i < to
        invariant
            from <= i <= to <= s@.len(),
            sub == s@.subrange(from as int, to as int),
            whole == base + sub,
            all_digits(sub),
            all_digits(whole),
            acc == digits_val(base + sub.take(i - from)),
            acc >= 0,
        decreases to - i,
    {
        let ghost pref = base + sub.take(i - from);
        proof {
            assert(is_digit(sub[i - from]));
            assert(sub[i - from] == s@[i as int]);
            assert((base + sub.take(i - from + 1)).drop_last() =~= pref);
            assert((base + sub.take(i - from + 1)).last() == sub[i - from]);
        }
        let d = digit_of(s[i]);
        let acc10 = match acc.checked_mul(10) {
            Some(v) => v,
            None => {
                proof {
                    assert(base + sub.take(i - from + 1) =~= whole.take(
                        base.len() + i - from + 1,
                    ));
                    lemma_digits_prefix_le(whole, base.len() as int + i - from + 1);
                }
                return None;
            },
        };
        let acc2 = match acc10.checked_add(d as i64) {
            Some(v) => v,
            None => {
                proof {
                    assert(base + sub.take(i - from + 1) =~= whole.take(
                        base.len() + i - from + 1,
                    ));
                    lemma_digits_prefix_le(whole, base.len() as int + i - from + 1);
                }
                return None;
            },
        };
        acc = acc2;
        i = i + 1;
    }
    proof {
        assert(base + sub.take(to - from) =~= whole);
    }
    Some(acc)
}

/// Parse a decimal amount field.
pub fn parse_amount(s: &Vec<char>) -> (r: Option<Amount>)
    ensures
        match r {
            Some(a) => spec_parse_amount(s@) == Some(a@) && a.scale <= MAX_AMOUNT_SCALE,
            None => spec_parse_amount(s@) is None,
        },
{
    let n = s.len();
    let neg = n > 0 && s[0] == '-';
    let start: usize = if neg {
        1
    } else {
        0
    };
    let ghost body = s@.skip(start as int);
    proof {
        if neg {
            assert(body =~= s@.drop_first());
        } else {
            assert(body =~= s@);
        }
        assert(forall|i: int| 0 <= i < body.len() ==> #[trigger] body[i] == s@[i + start]);
        lemma_find_first(body, '.');
    }
    // Find the first decimal point.
    let mut dot: usize = n;
    let mut i = start;
    while i < n && dot == n
        invariant
            start <= i <= n,
            n == s@.len(),
            dot == n ==> forall|j: int| start <= j < i ==> s@[j] != '.',
            dot != n ==> start <= dot < n && s@[dot as int] == '.' && (forall|j: int|
                start <= j < dot ==> s@[j] != '.'),
        decreases n - i + if dot == n {
            1int
        } else {
            0int
        },
    {
        if s[i] == '.' {
            dot = i;
        } else {
            i = i + 1;
        }
    }
    if dot == n {
        // No fraction part.
        proof {
            assert(forall|j: int| 0 <= j < body.len() ==> #[trigger] body[j] != '.');
            assert(find_first(body, '.') == -1) by {
                if find_first(body, '.') != -1 {
                    assert(body[find_first(body, '.')] == '.');
                }
            }
        }
        if n == start {
            return None;
        }
        if !scan_digits(s, start, n) {
            proof {
                assert(body =~= s@.subrange(start as int, n as int));
            }
            return None;
        }
        proof {
            assert(body =~= s@.subrange(start as int, n as int));
            assert(Seq::<char>::empty() + s@.subrange(start as int, n as int) =~= body);
        }
        match accumulate_digits(s, start, n, 0, Ghost(Seq::<char>::empty())) {
            None => None,
            Some(v) => {
                let mantissa: i64 = if neg {
                    -v
                } else {
                    v
                };
                Some(Amount { mantissa, scale: 0 })
            },
        }
    } else {
        // A fraction part follows the first decimal point.
        let ghost drel = dot - start;
        proof {
            assert(body[drel as int] == '.');
            assert(find_first(body, '.') == drel) by {
                let r = find_first(body, '.');
                if r == -1 {
                    assert(body[drel as int] != '.');
                } else {
                    if r < drel {
                        assert(s@[r + start] == '.');
                    }
                    if r > drel {
                        assert(body[drel as int] != '.');
                    }
                }
            }
        }
        let ghost ip = body.take(drel as int);
        let ghost fp = body.skip(drel + 1);
        if dot == start || n - dot - 1 < 1 || n - dot - 1 > 28 {
            return None;
        }
        if !scan_digits(s, start, dot) {
            proof {
                assert(ip =~= s@.subrange(start as int, dot as int));
            }
            return None;
        }
        if !scan_digits(s, dot + 1, n) {
            proof {
                assert(fp =~= s@.subrange(dot + 1, n as int));
            }
            return None;
        }
        proof {
            assert(ip =~= s@.subrange(start as int, dot as int));
            assert(fp =~= s@.subrange(dot + 1, n as int));
            assert(Seq::<char>::empty() + s@.subrange(start as int, dot as int) =~= ip);
        }
        let v1 = match accumulate_digits(s, start, dot, 0, Ghost(Seq::<char>::empty())) {
            None => {
                proof {
                    lemma_digits_val_nonneg(fp);
                    assert((ip + fp).take(ip.len() as int) =~= ip);
                    lemma_digits_prefix_le(ip + fp, ip.len() as int);
                    assert(all_digits(ip + fp)) by {
                        assert(forall|i: int|
                            0 <= i < ip.len() ==> #[trigger] (ip + fp)[i] == ip[i]);
                        assert(forall|i: int|
                            ip.len() <= i < (ip + fp).len() ==> #[trigger] (ip + fp)[i] == fp[i
                                - ip.len()]);
                    }
                }
                return None;
            },
            Some(v) => v,
        };
        match accumulate_digits(s, dot + 1, n, v1, Ghost(ip)) {
            None => None,
            Some(v) => {
                let mantissa: i64 = if neg {
                    -v
                } else {
                    v
                };
                let scale: u32 = (n - dot - 1) as u32;
                Some(Amount { mantissa, scale })
            },
        }
    }
}

/// The character that the byte `b` denotes in the report's legacy single-byte
/// Western European encoding: bytes below 0x80 and from 0xA0 up keep their
/// code point, the 32 in between map through a fixed table.
pub open spec fn decode_1252_byte(b: u8) -> char {
    if b < 0x80 || b >= 0xA0 {
        b as char
    } else if b == 0x80 {
        '\u{20AC}'
    } else if b == 0x81 {
        '\u{0081}'
    } else if b == 0x82 {
        '\u{201A}'
    } else if b == 0x83 {
        '\u{0192}'
    } else if b == 0x84 {
        '\u{201E}'
    } else if b == 0x85 {
        '\u{2026}'
    } else if b == 0x86 {
        '\u{2020}'
    } else if b == 0x87 {
        '\u{2021}'
    } else if b == 0x88 {
        '\u{02C6}'
    } else if b == 0x89 {
        '\u{2030}'
    } else if b == 0x8A {
        '\u{0160}'
    } else if b == 0x8B {
        '\u{2039}'
    } else if b == 0x8C {
        '\u{0152}'
    } else if b == 0x8D {
        '\u{008D}'
    } else if b == 0x8E {
        '\u{017D}'
    } else if b == 0x8F {
        '\u{008F}'
    } else if b == 0x90 {
        '\u{0090}'
    } else if b == 0x91 {
        '\u{2018}'
    } else if b == 0x92 {
        '\u{2019}'
    } else if b == 0x93 {
        '\u{201C}'
    } else if b == 0x94 {
        '\u{201D}'
    } else if b == 0x95 {
        '\u{2022}'
    } else if b == 0x96 {
        '\u{2013}'
    } else if b == 0x97 {
        '\u{2014}'
    } else if b == 0x98 {
        '\u{02DC}'
    } else if b == 0x99 {
        '\u{2122}'
    } else if b == 0x9A {
        '\u{0161}'
    } else if b == 0x9B {
        '\u{203A}'
    } else if b == 0x9C {
        '\u{0153}'
    } else if b == 0x9D {
        '\u{009D}'
    } else if b == 0x9E {
        '\u{017E}'
    } else {
        '\u{0178}'
    }
}

pub open spec fn spec_decode_1252(bytes: Seq<u8>) -> Seq<char> {
    bytes.map_values(|b: u8| decode_1252_byte(b))
}

fn decode_byte(b: u8) -> (c: char)
    ensures
        c == decode_1252_byte(b),
{
    if b < 0x80 || b >= 0xA0 {
        b as char
    } else if b == 0x80 {
        '\u{20AC}'
    } else if b == 0x81 {
        '\u{0081}'
    } else if b == 0x82 {
        '\u{201A}'
    } else if b == 0x83 {
        '\u{0192}'
    } else if b == 0x84 {
        '\u{201E}'
    } else if b == 0x85 {
        '\u{2026}'
    } else if b == 0x86 {
        '\u{2020}'
    } else if b == 0x87 {
        '\u{2021}'
    } else if b == 0x88 {
        '\u{02C6}'
    } else if b == 0x89 {
        '\u{2030}'
    } else if b == 0x8A {
        '\u{0160}'
    } else if b == 0x8B {
        '\u{2039}'
    } else if b == 0x8C {
        '\u{0152}'
    } else if b == 0x8D {
        '\u{008D}'
    } else if b == 0x8E {
        '\u{017D}'
    } else if b == 0x8F {
        '\u{008F}'
    } else if b == 0x90 {
        '\u{0090}'
    } else if b == 0x91 {
        '\u{2018}'
    } else if b == 0x92 {
        '\u{2019}'
    } else if b == 0x93 {
        '\u{201C}'
    } else if b == 0x94 {
        '\u{201D}'
    } else if b == 0x95 {
        '\u{2022}'
    } else if b == 0x96 {
        '\u{2013}'
    } else if b == 0x97 {
        '\u{2014}'
    } else if b == 0x98 {
        '\u{02DC}'
    } else if b == 0x99 {
        '\u{2122}'
    } else if b == 0x9A {
        '\u{0161}'
    } else if b == 0x9B {
        '\u{203A}'
    } else if b == 0x9C {
        '\u{0153}'
    } else if b == 0x9D {
        '\u{009D}'
    } else if b == 0x9E {
        '\u{017E}'
    } else {
        '\u{0178}'
    }
}

/// Decode a whole report byte stream; every byte denotes a character, so
/// decoding never fails.
pub fn decode_1252(bytes: &[u8]) -> (r: Vec<char>)
    ensures
        r@ == spec_decode_1252(bytes@),
{
    let mut r: Vec<char> = Vec::new();
    let n = bytes.len();
    let mut i: usize = 0;
    proof {
        assert(r@ =~= spec_decode_1252(bytes@.take(0)));
    }
    while i < n
        invariant
            i <= n == bytes@.len(),
            r@ == spec_decode_1252(bytes@.take(i as int)),
        decreases n - i,
    {
        r.push(decode_byte(bytes[i]));
        proof {
            assert(bytes@.take(i + 1) =~= bytes@.take(i as int).push(bytes@[i as int]));
            assert(r@ =~= spec_decode_1252(bytes@.take(i + 1)));
        }
        i = i + 1;
    }
    proof {
        assert(bytes@.take(n as int) =~= bytes@);
    }
    r
}

/// Where the field splitter stands inside a record.
#[derive(Clone, Copy, Debug, PartialEq, Eq, Structural)]
pub enum CsvMode {
    /// At the start of a field, where a quote opens a quoted field.
    StartField,
    /// Inside an unquoted field.
    Unquoted,
    /// Inside a quoted field.
    Quoted,
    /// Just after a quote inside a quoted field: a second quote is a literal
    /// quote, anything else closes the quoting.
    QuoteEnd,
}

/// The whole state of the field splitter: finished records, the fields and
/// partial field of the current record, whether the current record has
/// consumed any character yet, and the mode.
#[verifier::ext_equal]
pub ghost struct CsvState {
    pub records: Seq<Seq<Seq<char>>>,
    pub rec: Seq<Seq<char>>,
    pub field: Seq<char>,
    pub started: bool,
    pub mode: CsvMode,
}

pub open spec fn csv_init() -> CsvState {
    CsvState {
        records: Seq::empty(),
        rec: Seq::empty(),
        field: Seq::empty(),
        started: false,
        mode: CsvMode::StartField,
    }
}

/// A record terminator closes the current record; a terminator on a record
/// that has consumed nothing (an empty line, or the `\n` of `\r\n`) is
/// skipped.
pub open spec fn csv_end_record(st: CsvState) -> CsvState {
    if st.started {
        CsvState {
            records: st.records.push(st.rec.push(st.field)),
            rec: Seq::empty(),
            field: Seq::empty(),
            started: false,
            mode: CsvMode::StartField,
        }
    } else {
        st
    }
}

/// One character of input drives the splitter. Fields are separated by
/// commas, records by `\r`, `\n` or `\r\n`; a field whose first character is
/// a quote runs to the closing quote and may contain separators, and a
/// doubled quote inside it denotes one literal quote.
pub open spec fn csv_step(st: CsvState, c: char) -> CsvState {
    match st.mode {
        CsvMode::StartField => {
            if c == '"' {
                CsvState { mode: CsvMode::Quoted, started: true, ..st }
            } else if c == ',' {
                CsvState { rec: st.rec.push(st.field), field: Seq::empty(), started: true, ..st }
            } else if c == '\n' || c == '\r' {
                csv_end_record(st)
            } else {
                CsvState { field: st.field.push(c), mode: CsvMode::Unquoted, started: true, ..st }
            }
        },
        CsvMode::Unquoted => {
            if c == ',' {
                CsvState {
                    rec: st.rec.push(st.field),
                    field: Seq::empty(),
                    mode: CsvMode::StartField,
                    started: true,
                    ..st
                }
            } else if c == '\n' || c == '\r' {
                csv_end_record(st)
            } else {
                CsvState { field: st.field.push(c), started: true, ..st }
            }
        },
        CsvMode::Quoted => {
            if c == '"' {
                CsvState { mode: CsvMode::QuoteEnd, started: true, ..st }
            } else {
                CsvState { field: st.field.push(c), started: true, ..st }
            }
        },
        CsvMode::QuoteEnd => {
            if c == '"' {
                CsvState { field: st.field.push('"'), mode: CsvMode::Quoted, started: true, ..st }
            } else if c == ',' {
                CsvState {
                    rec: st.rec.push(st.field),
                    field: Seq::empty(),
                    mode: CsvMode::StartField,
                    started: true,
                    ..st
                }
            } else if c == '\n' || c == '\r' {
                csv_end_record(st)
            } else {
                CsvState { field: st.field.push(c), mode: CsvMode::Unquoted, started: true, ..st }
            }
        },
    }
}

pub open spec fn csv_fold(st: CsvState, s: Seq<char>) -> CsvState
    decreases s.len(),
{
    if s.len() == 0 {
        st
    } else {
        csv_step(csv_fold(st, s.drop_last()), s.last())
    }
}

/// At the end of the input an unterminated record is closed and kept.
pub open spec fn csv_finish(st: CsvState) -> Seq<Seq<Seq<char>>> {
    if st.started {
        st.records.push(st.rec.push(st.field))
    } else {
        st.records
    }
}

/// The records that the report text splits into.
pub open spec fn csv_records(s: Seq<char>) -> Seq<Seq<Seq<char>>> {
    csv_finish(csv_fold(csv_init(), s))
}

pub open spec fn fields_view(r: Vec<Vec<char>>) -> Seq<Seq<char>> {
    r@.map_values(|f: Vec<char>| f@)
}

pub open spec fn records_view(r: Vec<Vec<Vec<char>>>) -> Seq<Seq<Seq<char>>> {
    r@.map_values(|rec: Vec<Vec<char>>| fields_view(rec))
}

/// Split the decoded report text into records of fields.
pub fn split_records(chars: &Vec<char>) -> (r: Vec<Vec<Vec<char>>>)
    ensures
        records_view(r) == csv_records(chars@),
{
    let mut records: Vec<Vec<Vec<char>>> = Vec::new();
    let mut rec: Vec<Vec<char>> = Vec::new();
    let mut field: Vec<char> = Vec::new();
    let mut started: bool = false;
    let mut mode: CsvMode = CsvMode::StartField;
    let n = chars.len();
    let mut i: usize = 0;
    proof {
        assert((CsvState {
            records: records_view(records),
            rec: fields_view(rec),
            field: field@,
            started,
            mode,
        }) =~~= csv_fold(csv_init(), chars@.take(0)));
    }
    while i < n
        invariant
            i <= n == chars@.len(),
            (CsvState {
                records: records_view(records),
                rec: fields_view(rec),
                field: field@,
                started,
                mode,
            }) == csv_fold(csv_init(), chars@.take(i as int)),
            mode == CsvMode::StartField || started,
        decreases n - i,
    {
        let ghost st_old = csv_fold(csv_init(), chars@.take(i as int));
        proof {
            assert(chars@.take(i + 1) =~= chars@.take(i as int).push(chars@[i as int]));
            assert(csv_fold(csv_init(), chars@.take(i + 1)) == csv_step(
                st_old,
                chars@[i as int],
            )) by {
                assert(chars@.take(i + 1).len() == i + 1);
                assert(chars@.take(i + 1).drop_last() =~= chars@.take(i as int));
                assert(chars@.take(i + 1).last() == chars@[i as int]);
            }
        }
        let c = chars[i];
        match mode {
            CsvMode::StartField => {
                if c == '"' {
                    mode = CsvMode::Quoted;
                    started = true;
                } else if c == ',' {
                    let done = field;
                    field = Vec::new();
                    rec.push(done);
                    started = true;
                    proof {
                        assert(fields_view(rec) =~= st_old.rec.push(st_old.field));
                    }
                } else if c == '\n' || c == '\r' {
                    if started {
                        let done = field;
                        field = Vec::new();
                        rec.push(done);
                        let done_rec = rec;
                        rec = Vec::new();
                        records.push(done_rec);
                        started = false;
                        proof {
                            assert(fields_view(done_rec) =~= st_old.rec.push(st_old.field));
                            assert(records_view(records) =~= st_old.records.push(
                                st_old.rec.push(st_old.field),
                            ));
                            assert(fields_view(rec) =~= Seq::<Seq<char>>::empty());
                        }
                    }
                } else {
                    field.push(c);
                    mode = CsvMode::Unquoted;
                    started = true;
                }
            },
            CsvMode::Unquoted => {
                if c == ',' {
                    let done = field;
                    field = Vec::new();
                    rec.push(done);
                    mode = CsvMode::StartField;
                    started = true;
                    proof {
                        assert(fields_view(rec) =~= st_old.rec.push(st_old.field));
                    }
                } else if c == '\n' || c == '\r' {
                    let done = field;
                    field = Vec::new();
                    rec.push(done);
                    let done_rec = rec;
                    rec = Vec::new();
                    records.push(done_rec);
                    started = false;
                    mode = CsvMode::StartField;
                    proof {
                        assert(fields_view(done_rec) =~= st_old.rec.push(st_old.field));
                        assert(records_view(records) =~= st_old.records.push(
                            st_old.rec.push(st_old.field),
                        ));
                        assert(fields_view(rec) =~= Seq::<Seq<char>>::empty());
                    }
                } else {
                    field.push(c);
                }
            },
            CsvMode::Quoted => {
                if c == '"' {
                    mode = CsvMode::QuoteEnd;
                    started = true;
                } else {
                    field.push(c);
                    started = true;
                }
            },
            CsvMode::QuoteEnd => {
                if c == '"' {
                    field.push('"');
                    mode = CsvMode::Quoted;
                } else if c == ',' {
                    let done = field;
                    field = Vec::new();
                    rec.push(done);
                    mode = CsvMode::StartField;
                    proof {
                        assert(fields_view(rec) =~= st_old.rec.push(st_old.field));
                    }
                } else if c == '\n' || c == '\r' {
                    let done = field;
                    field = Vec::new();
                    rec.push(done);
                    let done_rec = rec;
                    rec = Vec::new();
                    records.push(done_rec);
                    started = false;
                    mode = CsvMode::StartField;
                    proof {
                        assert(fields_view(done_rec) =~= st_old.rec.push(st_old.field));
                        assert(records_view(records) =~= st_old.records.push(
                            st_old.rec.push(st_old.field),
                        ));
                        assert(fields_view(rec) =~= Seq::<Seq<char>>::empty());
                    }
                } else {
                    field.push(c);
                    mode = CsvMode::Unquoted;
                }
            },
        }
        proof {
            assert((CsvState {
                records: records_view(records),
                rec: fields_view(rec),
                field: field@,
                started,
                mode,
            }) =~~= csv_step(st_old, chars@[i as int]));
        }
        i = i + 1;
    }
    proof {
        assert(chars@.take(n as int) =~= chars@);
    }
    if started {
        let done = field;
        rec.push(done);
        let done_rec = rec;
        records.push(done_rec);
        proof {
            let st = csv_fold(csv_init(), chars@);
            assert(fields_view(done_rec) =~= st.rec.push(st.field));
            assert(records_view(records) =~= st.records.push(st.rec.push(st.field)));
        }
    }
    records
}

/// Value of the digit character `c`.
fn digit_of(c: char) -> (d: u8)
    requires
        is_digit(c),
    ensures
        d == digit_val(c),
        0 <= d <= 9,
{
    (c as u8) - 48
}

/// Whether every character of `s[from..to]` is a decimal digit.
fn scan_digits(s: &Vec<char>, from: usize, to: usize) -> (r: bool)
    requires
        from <= to <= s@.len(),
    ensures
        r == all_digits(s@.subrange(from as int, to as int)),
{
    let ghost sub = s@.subrange(from as int, to as int);
    let mut i = from;
    while i < to
        invariant
            from <= i <= to <= s@.len(),
            sub == s@.subrange(from as int, to as int),
            forall|j: int| 0 <= j < i - from ==> is_digit(#[trigger] sub[j]),
        decreases to - i,
    {
        let c = s[i];
        if !('0' <= c && c <= '9') {
            proof {
                assert(sub[i - from] == c);
            }
            return false;
        }
        i = i + 1;
    }
    true
}

/// Parse a `YYYY-MM-DD` field.
pub fn parse_date(s: &Vec<char>) -> (r: Option<(i32, u8, u8)>)
    ensures
        match r {
            Some((y, m, d)) => spec_parse_date(s@) == Some((y as int, m as int, d as int)),
            None => spec_parse_date(s@) is None,
        },
{
    if s.len() != 10 {
        return None;
    }
    if !(s[4] == '-' && s[7] == '-') {
        return None;
    }
    if !(scan_digits(s, 0, 4) && scan_digits(s, 5, 7) && scan_digits(s, 8, 10)) {
        return None;
    }
    let ghost ys = s@.subrange(0, 4);
    let ghost ms = s@.subrange(5, 7);
    let ghost ds = s@.subrange(8, 10);
    proof {
        assert(ys[0] == s@[0] && ys[1] == s@[1] && ys[2] == s@[2] && ys[3] == s@[3]);
        assert(ms[0] == s@[5] && ms[1] == s@[6]);
        assert(ds[0] == s@[8] && ds[1] == s@[9]);
        assert(is_digit(s@[0]) && is_digit(s@[1]) && is_digit(s@[2]) && is_digit(s@[3]));
        assert(is_digit(s@[5]) && is_digit(s@[6]) && is_digit(s@[8]) && is_digit(s@[9]));
    }
    let y: i32 = 1000 * (digit_of(s[0]) as i32) + 100 * (digit_of(s[1]) as i32) + 10 * (digit_of(
        s[2],
    ) as i32) + (digit_of(s[3]) as i32);
    let m: u8 = 10 * digit_of(s[5]) + digit_of(s[6]);
    let d: u8 = 10 * digit_of(s[8]) + digit_of(s[9]);
    proof {
        lemma_digits_val4(ys);
        lemma_digits_val2(ms);
        lemma_digits_val2(ds);
        assert(ys[0] == s@[0] && ys[1] == s@[1] && ys[2] == s@[2] && ys[3] == s@[3]);
        assert(ms[0] == s@[5] && ms[1] == s@[6]);
        assert(ds[0] == s@[8] && ds[1] == s@[9]);
    }
    if m < 1 || m > 12 {
        return None;
    }
    let dim = month_len(y, m as i32);
    if d < 1 || (d as i32) > dim {
        return None;
    }
    Some((y, m, d))
}

/// Parse an `HH:MM` field.
pub fn parse_time(s: &Vec<char>) -> (r: Option<(u8, u8)>)
    ensures
        match r {
            Some((h, mi)) => spec_parse_time(s@) == Some((h as int, mi as int)),
            None => spec_parse_time(s@) is None,
        },
{
    if s.len() != 5 {
        return None;
    }
    if !(s[2] == ':') {
        return None;
    }
    if !(scan_digits(s, 0, 2) && scan_digits(s, 3, 5)) {
        return None;
    }
    let ghost hs = s@.subrange(0, 2);
    let ghost ms = s@.subrange(3, 5);
    proof {
        assert(hs[0] == s@[0] && hs[1] == s@[1]);
        assert(ms[0] == s@[3] && ms[1] == s@[4]);
        assert(is_digit(s@[0]) && is_digit(s@[1]) && is_digit(s@[3]) && is_digit(s@[4]));
    }
    let h: u8 = 10 * digit_of(s[0]) + digit_of(s[1]);
    let mi: u8 = 10 * digit_of(s[3]) + digit_of(s[4]);
    proof {
        lemma_digits_val2(hs);
        lemma_digits_val2(ms);
        assert(hs[0] == s@[0] && hs[1] == s@[1]);
        assert(ms[0] == s@[3] && ms[1] == s@[4]);
    }
    if h >= 24 || mi >= 60 {
        return None;
    }
    Some((h, mi))
}

/// A calendar day of the report, as year, month and day numbers.
#[derive(Clone, Copy, Debug, PartialEq, Eq, Structural)]
pub struct Date {
    pub year: i32,
    pub month: u8,
    pub day: u8,
}

/// A wall-clock time of the report, to the minute.
#[derive(Clone, Copy, Debug, PartialEq, Eq, Structural)]
pub struct Time {
    pub hour: u8,
    pub minute: u8,
}

pub open spec fn clamp_int(x: int, lo: int, hi: int) -> int {
    if x < lo {
        lo
    } else if x > hi {
        hi
    } else {
        x
    }
}

/// Days between a proleptic Gregorian calendar day and the epoch day
/// 1970-01-01, by the standard civil-from-days formula, for years 0 to 9999.
pub open spec fn spec_days_from_civil(y: int, m: int, d: int) -> int {
    let yy = if m <= 2 {
        y + 399
    } else {
        y + 400
    };
    let era = yy / 400;
    let yoe = yy - era * 400;
    let mp = if m > 2 {
        m - 3
    } else {
        m + 9
    };
    let doy = (153 * mp + 2) / 5 + d - 1;
    let doe = yoe * 365 + yoe / 4 - yoe / 100 + doy;
    era * 146097 + doe - 719468 - 146097
}

/// Seconds east of UTC that Europe/Stockholm observes at the instant `t`
/// (unix seconds). The offset is a function of the instant alone, fixed by
/// the timezone database.
pub uninterp spec fn stockholm_offset_seconds(t: int) -> int;

/// Relies on `time_tz::TimeZone::get_offset_utc` for the
/// `timezones::db::europe::STOCKHOLM` zone, with
/// `time::OffsetDateTime::from_unix_timestamp` converting the argument and
/// `UtcOffset::whole_seconds` the result. The offset is a pure lookup in the
/// zone data compiled into the crate, so it depends on the instant alone;
/// `UtcOffset` is bounded by 25:59:59 either way of UTC, and the required argument
/// range (years 0 to 9999) keeps the timestamp conversion from failing.
#[verifier::external_body]
fn stockholm_offset_at(t: i64) -> (r: i32)
    requires
        -62167219200 <= t <= 253402300799,
    ensures
        r == stockholm_offset_seconds(t as int),
        -93600 < r < 93600,
{
    let odt = time::OffsetDateTime::from_unix_timestamp(t).unwrap();
    let off = time_tz::TimeZone::get_offset_utc(time_tz::timezones::db::europe::STOCKHOLM, &odt);
    time_tz::Offset::to_utc(&off).whole_seconds()
}

/// The instant (unix seconds) that a report's naive local date and time
/// denote: the naive seconds, read in the event's fixed timezone the way the
/// report pipeline does, with out-of-range fields pinned to the calendar.
pub open spec fn spec_report_instant(y: int, m: int, d: int, h: int, mi: int) -> int {
    let yc = clamp_int(y, 0, 9999);
    let mc = clamp_int(m, 1, 12);
    let dc = clamp_int(d, 1, days_in_month(yc, mc));
    let hc = clamp_int(h, 0, 23);
    let mic = clamp_int(mi, 0, 59);
    let naive = spec_days_from_civil(yc, mc, dc) * 86400 + hc * 3600 + mic * 60;
    naive - stockholm_offset_seconds(naive)
}

/// How many days the month `m` of year `y` has.
fn month_len(y: i32, m: i32) -> (r: i32)
    requires
        0 <= y,
        1 <= m <= 12,
    ensures
        r == days_in_month(y as int, m as int),
{
    if m == 2 {
        if (y % 4 == 0) && (y % 100 != 0 || y % 400 == 0) {
            29
        } else {
            28
        }
    } else if m == 4 || m == 6 || m == 9 || m == 11 {
        30
    } else {
        31
    }
}

fn days_from_civil(y: i64, m: i64, d: i64) -> (r: i64)
    requires
        0 <= y <= 9999,
        1 <= m <= 12,
        1 <= d <= 31,
    ensures
        r == spec_days_from_civil(y as int, m as int, d as int),
        -719528 <= r <= 2932896,
{
    let yy: i64 = if m <= 2 {
        y + 399
    } else {
        y + 400
    };
    let era: i64 = yy / 400;
    assert(0 <= era <= 25);
    let yoe: i64 = yy - era * 400;
    assert(0 <= yoe <= 399);
    let mp: i64 = if m > 2 {
        m - 3
    } else {
        m + 9
    };
    let doy: i64 = (153 * mp + 2) / 5 + d - 1;
    assert(0 <= doy <= 396);
    let doe: i64 = yoe * 365 + yoe / 4 - yoe / 100 + doy;
    assert(0 <= doe <= 146431);
    era * 146097 + doe - 719468 - 146097
}

/// The instant a report row's date and time denote.
fn report_instant(y: i32, m: u8, d: u8, h: u8, mi: u8) -> (r: i64)
    ensures
        r == spec_report_instant(y as int, m as int, d as int, h as int, mi as int),
{
    let yc: i64 = if y < 0 {
        0
    } else if y > 9999 {
        9999
    } else {
        y as i64
    };
    let mc: i64 = if m < 1 {
        1
    } else if m > 12 {
        12
    } else {
        m as i64
    };
    let dim: i64 = month_len(yc as i32, mc as i32) as i64;
    let dc: i64 = if (d as i64) < 1 {
        1
    } else if (d as i64) > dim {
        dim
    } else {
        d as i64
    };
    let hc: i64 = if h > 23 {
        23
    } else {
        h as i64
    };
    let mic: i64 = if mi > 59 {
        59
    } else {
        mi as i64
    };
    let days = days_from_civil(yc, mc, dc);
    let naive: i64 = days * 86400 + hc * 3600 + mic * 60;
    let off = stockholm_offset_at(naive);
    naive - (off as i64)
}

/// One data row of the report, under its fixed column schema.
#[derive(Debug)]
pub struct Row {
    pub transdag: Date,
    pub mottagarnr: String,
    pub mottagarnamn: String,
    pub avsandarnr: String,
    pub avsandarnamn: String,
    pub meddelande: String,
    pub tid: Time,
    pub belopp: Amount,
}

#[verifier::ext_equal]
pub ghost struct RowModel {
    pub year: int,
    pub month: int,
    pub day: int,
    pub hour: int,
    pub minute: int,
    pub mottagarnr: Seq<char>,
    pub mottagarnamn: Seq<char>,
    pub avsandarnr: Seq<char>,
    pub avsandarnamn: Seq<char>,
    pub meddelande: Seq<char>,
    pub belopp: AmountModel,
}

impl View for Row {
    type V = RowModel;

    open spec fn view(&self) -> RowModel {
        RowModel {
            year: self.transdag.year as int,
            month: self.transdag.month as int,
            day: self.transdag.day as int,
            hour: self.tid.hour as int,
            minute: self.tid.minute as int,
            mottagarnr: self.mottagarnr@,
            mottagarnamn: self.mottagarnamn@,
            avsandarnr: self.avsandarnr@,
            avsandarnamn: self.avsandarnamn@,
            meddelande: self.meddelande@,
            belopp: self.belopp@,
        }
    }
}

/// A normalized payment record: when, how much, the free-text message, and
/// the two parties.
#[derive(Debug)]
pub struct Transaction {
    pub time: i64,
    pub amount: Amount,
    pub message: String,
    /// The one who sent the money.
    pub payor: Part,
    /// The one who received the money.
    pub payee: Part,
}

#[verifier::ext_equal]
pub ghost struct TransactionModel {
    pub time: int,
    pub amount: AmountModel,
    pub message: Seq<char>,
    pub payor: PartModel,
    pub payee: PartModel,
}

impl View for Transaction {
    type V = TransactionModel;

    open spec fn view(&self) -> TransactionModel {
        TransactionModel {
            time: self.time as int,
            amount: self.amount@,
            message: self.message@,
            payor: self.payor@,
            payee: self.payee@,
        }
    }
}

/// The record a row denotes, as a model: the date and time become one instant
/// in the event's timezone, the named parties keep their roles.
pub open spec fn spec_row_to_transaction(r: RowModel) -> TransactionModel {
    TransactionModel {
        time: spec_report_instant(r.year, r.month, r.day, r.hour, r.minute),
        amount: r.belopp,
        message: r.meddelande,
        payor: PartModel { phone: r.avsandarnr, name: r.avsandarnamn },
        payee: PartModel { phone: r.mottagarnr, name: r.mottagarnamn },
    }
}

impl Transaction {
    /// Normalize one report row into a payment record.
    pub fn from_row(row: Row) -> (r: Transaction)
        ensures
            r@ == spec_row_to_transaction(row@),
    {
        let time = report_instant(
            row.transdag.year,
            row.transdag.month,
            row.transdag.day,
            row.tid.hour,
            row.tid.minute,
        );
        Transaction {
            time,
            amount: row.belopp,
            message: row.meddelande,
            payor: Part { phone: row.avsandarnr, name: row.avsandarnamn },
            payee: Part { phone: row.mottagarnr, name: row.mottagarnamn },
        }
    }
}

impl From<Row> for Transaction {
    fn from(row: Row) -> (r: Self) {
        let time = report_instant(
            row.transdag.year,
            row.transdag.month,
            row.transdag.day,
            row.tid.hour,
            row.tid.minute,
        );
        Transaction {
            time,
            amount: row.belopp,
            message: row.meddelande,
            payor: Part { phone: row.avsandarnr, name: row.avsandarnamn },
            payee: Part { phone: row.mottagarnr, name: row.mottagarnamn },
        }
    }
}

impl vstd::std_specs::convert::FromSpecImpl<Row> for Transaction {
    open spec fn obeys_from_spec() -> bool {
        true
    }

    open spec fn from_spec(row: Row) -> Self {
        Transaction {
            time: spec_report_instant(
                row@.year,
                row@.month,
                row@.day,
                row@.hour,
                row@.minute,
            ) as i64,
            amount: row.belopp,
            message: row.meddelande,
            payor: Part { phone: row.avsandarnr, name: row.avsandarnamn },
            payee: Part { phone: row.mottagarnr, name: row.mottagarnamn },
        }
    }
}

/// Index of the first field of `s` equal to `x`, or -1.
pub open spec fn find_seq_first(s: Seq<Seq<char>>, x: Seq<char>) -> int
    decreases s.len(),
{
    if s.len() == 0 {
        -1
    } else if s[0] == x {
        0
    } else {
        let r = find_seq_first(s.drop_first(), x);
        if r == -1 {
            -1
        } else {
            r + 1
        }
    }
}

pub proof fn lemma_find_seq_first(s: Seq<Seq<char>>, x: Seq<char>)
    ensures
        find_seq_first(s, x) == -1 ==> forall|i: int| 0 <= i < s.len() ==> s[i] != x,
        find_seq_first(s, x) != -1 ==> 0 <= find_seq_first(s, x) < s.len() && s[find_seq_first(
            s,
            x,
        )] == x && forall|i: int| 0 <= i < find_seq_first(s, x) ==> s[i] != x,
    decreases s.len(),
{
    if s.len() > 0 && s[0] != x {
        let t = s.drop_first();
        lemma_find_seq_first(t, x);
        let r = find_seq_first(t, x);
        assert(forall|i: int| 0 <= i < t.len() ==> #[trigger] t[i] == s[i + 1]);
        if r == -1 {
            assert forall|i: int| 0 <= i < s.len() implies s[i] != x by {
                if i >= 1 {
                    assert(t[i - 1] == s[i]);
                }
            }
        } else {
            assert(s[r + 1] == t[r]);
            assert forall|i: int| 0 <= i < r + 1 implies s[i] != x by {
                if i >= 1 {
                    assert(t[i - 1] == s[i]);
                }
            }
        }
    }
}

/// What one data record denotes under the header: every named column must be
/// present, the row must have as many fields as the header, and the typed
/// fields must parse.
pub open spec fn spec_row(header: Seq<Seq<char>>, r: Seq<Seq<char>>) -> Result<
    RowModel,
    ParseError,
> {
    if r.len() != header.len() {
        Err(ParseError::UnequalRow)
    } else {
        let i_dag = find_seq_first(header, "Transdag"@);
        let i_mnr = find_seq_first(header, "Mottagarnr"@);
        let i_mnamn = find_seq_first(header, "Mottagarnamn"@);
        let i_anr = find_seq_first(header, "Avs\u{e4}ndarnr"@);
        let i_anamn = find_seq_first(header, "Avs\u{e4}ndarnamn"@);
        let i_msg = find_seq_first(header, "Meddelande"@);
        let i_tid = find_seq_first(header, "Tid"@);
        let i_bel = find_seq_first(header, "Belopp"@);
        if i_dag == -1 || i_mnr == -1 || i_mnamn == -1 || i_anr == -1 || i_anamn == -1 || i_msg
            == -1 || i_tid == -1 || i_bel == -1 {
            Err(ParseError::MissingColumn)
        } else {
            match spec_parse_date(r[i_dag]) {
                None => Err(ParseError::BadDate),
                Some(ymd) => match spec_parse_time(r[i_tid]) {
                    None => Err(ParseError::BadTime),
                    Some(hm) => match spec_parse_amount(r[i_bel]) {
                        None => Err(ParseError::BadNumber),
                        Some(a) => Ok(
                            RowModel {
                                year: ymd.0,
                                month: ymd.1,
                                day: ymd.2,
                                hour: hm.0,
                                minute: hm.1,
                                mottagarnr: r[i_mnr],
                                mottagarnamn: r[i_mnamn],
                                avsandarnr: r[i_anr],
                                avsandarnamn: r[i_anamn],
                                meddelande: r[i_msg],
                                belopp: a,
                            },
                        ),
                    },
                },
            }
        }
    }
}

/// The rows that the data records denote, in order; the first bad record
/// fails the whole report.
pub open spec fn spec_rows(header: Seq<Seq<char>>, rows: Seq<Seq<Seq<char>>>) -> Result<
    Seq<RowModel>,
    ParseError,
>
    decreases rows.len(),
{
    if rows.len() == 0 {
        Ok(Seq::empty())
    } else {
        match spec_row(header, rows[0]) {
            Err(e) => Err(e),
            Ok(rm) => match spec_rows(header, rows.drop_first()) {
                Err(e) => Err(e),
                Ok(rest) => Ok(Seq::empty().push(rm) + rest),
            },
        }
    }
}

pub proof fn lemma_spec_rows_push(header: Seq<Seq<char>>, rows: Seq<Seq<Seq<char>>>, r: Seq<
    Seq<char>,
>)
    ensures
        spec_rows(header, rows.push(r)) == (match spec_rows(header, rows) {
            Err(e) => Err::<Seq<RowModel>, ParseError>(e),
            Ok(v) => match spec_row(header, r) {
                Err(e) => Err(e),
                Ok(m) => Ok(v.push(m)),
            },
        }),
    decreases rows.len(),
{
    if rows.len() == 0 {
        assert(rows.push(r)[0] == r);
        assert(rows.push(r).drop_first() =~= Seq::<Seq<Seq<char>>>::empty());
        if spec_row(header, r) is Ok {
            assert(Seq::empty().push(spec_row(header, r)->Ok_0) + Seq::empty() =~= Seq::empty().push(
                spec_row(header, r)->Ok_0,
            ));
        }
    } else {
        assert(rows.push(r)[0] == rows[0]);
        assert(rows.push(r).drop_first() =~= rows.drop_first().push(r));
        lemma_spec_rows_push(header, rows.drop_first(), r);
        if spec_row(header, rows[0]) is Ok && spec_rows(header, rows.drop_first()) is Ok
            && spec_row(header, r) is Ok {
            let rm = spec_row(header, rows[0])->Ok_0;
            let rest = spec_rows(header, rows.drop_first())->Ok_0;
            let m = spec_row(header, r)->Ok_0;
            assert(Seq::empty().push(rm) + rest.push(m) =~= (Seq::empty().push(rm) + rest).push(m));
        }
    }
}

pub proof fn lemma_spec_rows_first_err(
    header: Seq<Seq<char>>,
    rows: Seq<Seq<Seq<char>>>,
    i: int,
    e: ParseError,
)
    requires
        0 <= i < rows.len(),
        spec_rows(header, rows.take(i)) is Ok,
        spec_row(header, rows[i]) == Err::<RowModel, ParseError>(e),
    ensures
        spec_rows(header, rows) == Err::<Seq<RowModel>, ParseError>(e),
    decreases i,
{
    if i == 0 {
    } else {
        let t = rows.drop_first();
        assert(rows.take(i)[0] == rows[0]);
        assert(rows.take(i).drop_first() =~= t.take(i - 1));
        assert(t[i - 1] == rows[i]);
        lemma_spec_rows_first_err(header, t, i - 1, e);
    }
}

/// What a report text denotes: the first record is the header, the rest are
/// data rows; a report without records is empty.
pub open spec fn spec_read_records(records: Seq<Seq<Seq<char>>>) -> Result<
    Seq<RowModel>,
    ParseError,
> {
    if records.len() == 0 {
        Ok(Seq::empty())
    } else {
        spec_rows(records[0], records.drop_first())
    }
}

/// A conventional free-text note line, marked by a leading `*`, is dropped
/// before tabular parsing; without a line break the text stands as it is.
pub open spec fn spec_strip_header_note(s: Seq<char>) -> Seq<char> {
    if s.len() > 0 && s[0] == '*' && find_first(s, '\n') != -1 {
        s.skip(find_first(s, '\n') + 1)
    } else {
        s
    }
}

pub open spec fn spec_read_chars(chars: Seq<char>) -> Result<Seq<RowModel>, ParseError> {
    spec_read_records(csv_records(spec_strip_header_note(chars)))
}

/// What a raw report byte stream denotes, as normalized payment records.
pub open spec fn spec_parse_transactions(bytes: Seq<u8>) -> Result<
    Seq<TransactionModel>,
    ParseError,
> {
    match spec_read_chars(spec_decode_1252(bytes)) {
        Err(e) => Err(e),
        Ok(rows) => Ok(rows.map_values(|r: RowModel| spec_row_to_transaction(r))),
    }
}

/// Relies on `String::push` (see `push_char`): builds the string of exactly
/// these characters.
fn chars_to_string(v: &Vec<char>) -> (s: String)
    ensures
        s@ == v@,
{
    let mut s = String::new();
    let mut i: usize = 0;
    while i < v.len()
        invariant
            i <= v@.len(),
            s@ == v@.take(i as int),
        decreases v@.len() - i,
    {
        push_char(&mut s, v[i]);
        proof {
            assert(v@.take(i + 1) =~= v@.take(i as int).push(v@[i as int]));
        }
        i = i + 1;
    }
    proof {
        assert(v@.take(v@.len() as int) =~= v@);
    }
    s
}

/// The characters of a string slice, in order.
fn str_to_chars(s: &str) -> (r: Vec<char>)
    ensures
        r@ == s@,
{
    let n = s.unicode_len();
    let mut r: Vec<char> = Vec::new();
    let mut i: usize = 0;
    while i < n
        invariant
            i <= n == s@.len(),
            r@ == s@.take(i as int),
        decreases n - i,
    {
        r.push(s.get_char(i));
        proof {
            assert(s@.take(i + 1) =~= s@.take(i as int).push(s@[i as int]));
        }
        i = i + 1;
    }
    proof {
        assert(s@.take(n as int) =~= s@);
    }
    r
}

/// Whether two character vectors hold the same characters.
fn chars_eq(a: &Vec<char>, b: &Vec<char>) -> (r: bool)
    ensures
        r == (a@ == b@),
{
    if a.len() != b.len() {
        return false;
    }
    let mut i: usize = 0;
    while i < a.len()
        invariant
            i <= a@.len() == b@.len(),
            forall|j: int| 0 <= j < i ==> a@[j] == b@[j],
        decreases a@.len() - i,
    {
        if a[i] != b[i] {
            return false;
        }
        i = i + 1;
    }
    proof {
        assert(a@ =~= b@);
    }
    true
}

/// First field of the header equal to `name`, if any.
fn find_column(header: &Vec<Vec<char>>, name: &Vec<char>) -> (r: Option<usize>)
    ensures
        match r {
            Some(i) => i < header@.len() && find_seq_first(fields_view(*header), name@) == i,
            None => find_seq_first(fields_view(*header), name@) == -1,
        },
{
    let ghost hv = fields_view(*header);
    proof {
        lemma_find_seq_first(hv, name@);
    }
    let mut i: usize = 0;
    while i < header.len()
        invariant
            i <= header@.len(),
            hv == fields_view(*header),
            hv.len() == header@.len(),
            forall|j: int| 0 <= j < i ==> #[trigger] hv[j] != name@,
        decreases header@.len() - i,
    {
        if chars_eq(&header[i], name) {
            proof {
                lemma_find_seq_first(hv, name@);
                assert(hv[i as int] == name@);
                let r = find_seq_first(hv, name@);
                if r < i as int && r >= 0 {
                    assert(hv[r] != name@);
                }
                if r > i as int {
                    assert(hv[i as int] != name@);
                }
                if r == -1 {
                    assert(hv[i as int] != name@);
                }
            }
            return Some(i);
        }
        i = i + 1;
    }
    proof {
        let r = find_seq_first(hv, name@);
        if r != -1 {
            assert(hv[r] != name@);
        }
    }
    None
}

/// Drop the `*`-marked note line, if one is there.
fn strip_header_note(chars: Vec<char>) -> (r: Vec<char>)
    ensures
        r@ == spec_strip_header_note(chars@),
{
    proof {
        lemma_find_first(chars@, '\n');
    }
    let n = chars.len();
    if n == 0 {
        return chars;
    }
    if !(chars[0] == '*') {
        return chars;
    }
    // Find the first line break.
    let mut k: usize = n;
    let mut i: usize = 0;
    while i < n && k == n
        invariant
            i <= n == chars@.len(),
            k == n ==> forall|j: int| 0 <= j < i ==> chars@[j] != '\n',
            k != n ==> 0 <= k < n && chars@[k as int] == '\n' && (forall|j: int|
                0 <= j < k ==> chars@[j] != '\n'),
        decreases n - i + if k == n {
            1int
        } else {
            0int
        },
    {
        if chars[i] == '\n' {
            k = i;
        } else {
            i = i + 1;
        }
    }
    if k == n {
        proof {
            let r = find_first(chars@, '\n');
            if r != -1 {
                assert(chars@[r] != '\n');
            }
        }
        return chars;
    }
    proof {
        let r = find_first(chars@, '\n');
        assert(r == k as int) by {
            if r == -1 {
                assert(chars@[k as int] != '\n');
            } else {
                if r < k as int {
                    assert(chars@[r] != '\n');
                }
                if r > k as int {
                    assert(chars@[k as int] != '\n');
                }
            }
        }
    }
    let mut out: Vec<char> = Vec::new();
    let mut j: usize = k + 1;
    proof {
        assert(out@ =~= chars@.subrange(k + 1, k + 1));
    }
    while j < n
        invariant
            k + 1 <= j <= n == chars@.len(),
            out@ == chars@.subrange(k + 1, j as int),
        decreases n - j,
    {
        out.push(chars[j]);
        proof {
            assert(chars@.subrange(k + 1, j + 1) =~= chars@.subrange(k + 1, j as int).push(
                chars@[j as int],
            ));
        }
        j = j + 1;
    }
    proof {
        assert(out@ =~= chars@.skip(k + 1));
    }
    out
}

/// The positions of the schema's named columns in the header, where present.
struct Columns {
    dag: Option<usize>,
    mnr: Option<usize>,
    mnamn: Option<usize>,
    anr: Option<usize>,
    anamn: Option<usize>,
    msg: Option<usize>,
    tid: Option<usize>,
    bel: Option<usize>,
}

pub open spec fn col_matches(header: Seq<Seq<char>>, o: Option<usize>, name: Seq<char>) -> bool {
    match o {
        Some(i) => i < header.len() && find_seq_first(header, name) == i,
        None => find_seq_first(header, name) == -1,
    }
}

/// Parse one data record against the header's column positions.
fn parse_record(
    rec: &Vec<Vec<char>>,
    cols: &Columns,
    header_len: usize,
    Ghost(header): Ghost<Seq<Seq<char>>>,
) -> (r: Result<Row, ParseError>)
    requires
        header.len() == header_len,
        col_matches(header, cols.dag, "Transdag"@),
        col_matches(header, cols.mnr, "Mottagarnr"@),
        col_matches(header, cols.mnamn, "Mottagarnamn"@),
        col_matches(header, cols.anr, "Avs\u{e4}ndarnr"@),
        col_matches(header, cols.anamn, "Avs\u{e4}ndarnamn"@),
        col_matches(header, cols.msg, "Meddelande"@),
        col_matches(header, cols.tid, "Tid"@),
        col_matches(header, cols.bel, "Belopp"@),
    ensures
        match r {
            Ok(row) => spec_row(header, fields_view(*rec)) == Ok::<RowModel, ParseError>(row@),
            Err(e) => spec_row(header, fields_view(*rec)) == Err::<RowModel, ParseError>(e),
        },
{
    let ghost rv = fields_view(*rec);
    if rec.len() != header_len {
        return Err(ParseError::UnequalRow);
    }
    let (i_dag, i_mnr, i_mnamn, i_anr, i_anamn, i_msg, i_tid, i_bel) = match (
        cols.dag,
        cols.mnr,
        cols.mnamn,
        cols.anr,
        cols.anamn,
        cols.msg,
        cols.tid,
        cols.bel,
    ) {
        (
            Some(a),
            Some(b),
            Some(c),
            Some(d),
            Some(e),
            Some(f),
            Some(g),
            Some(h),
        ) => (a, b, c, d, e, f, g, h),
        _ => {
            return Err(ParseError::MissingColumn);
        },
    };
    let (year, month, day) = match parse_date(&rec[i_dag]) {
        None => {
            return Err(ParseError::BadDate);
        },
        Some(x) => x,
    };
    let (hour, minute) = match parse_time(&rec[i_tid]) {
        None => {
            return Err(ParseError::BadTime);
        },
        Some(x) => x,
    };
    let belopp = match parse_amount(&rec[i_bel]) {
        None => {
            return Err(ParseError::BadNumber);
        },
        Some(x) => x,
    };
    let row = Row {
        transdag: Date { year, month, day },
        mottagarnr: chars_to_string(&rec[i_mnr]),
        mottagarnamn: chars_to_string(&rec[i_mnamn]),
        avsandarnr: chars_to_string(&rec[i_anr]),
        avsandarnamn: chars_to_string(&rec[i_anamn]),
        meddelande: chars_to_string(&rec[i_msg]),
        tid: Time { hour, minute },
        belopp,
    };
    Ok(row)
}

/// Parse the records of a report: the first is the header, the rest are rows.
fn read_records(records: &Vec<Vec<Vec<char>>>) -> (r: Result<Vec<Row>, ParseError>)
    ensures
        match r {
            Ok(rows) => spec_read_records(records_view(*records)) == Ok::<
                Seq<RowModel>,
                ParseError,
            >(rows@.map_values(|x: Row| x@)),
            Err(e) => spec_read_records(records_view(*records)) == Err::<
                Seq<RowModel>,
                ParseError,
            >(e),
        },
{
    let ghost recsv = records_view(*records);
    if records.len() == 0 {
        let out: Vec<Row> = Vec::new();
        proof {
            assert(out@.map_values(|x: Row| x@) =~= Seq::<RowModel>::empty());
        }
        return Ok(out);
    }
    let header = &records[0];
    let ghost hv = fields_view(*header);
    let header_len = header.len();
    let cols = Columns {
        dag: find_column(header, &str_to_chars("Transdag")),
        mnr: find_column(header, &str_to_chars("Mottagarnr")),
        mnamn: find_column(header, &str_to_chars("Mottagarnamn")),
        anr: find_column(header, &str_to_chars("Avs\u{e4}ndarnr")),
        anamn: find_column(header, &str_to_chars("Avs\u{e4}ndarnamn")),
        msg: find_column(header, &str_to_chars("Meddelande")),
        tid: find_column(header, &str_to_chars("Tid")),
        bel: find_column(header, &str_to_chars("Belopp")),
    };
    let ghost rows = recsv.drop_first();
    let mut out: Vec<Row> = Vec::new();
    let mut i: usize = 1;
    proof {
        assert(rows.take(0) =~= Seq::<Seq<Seq<char>>>::empty());
        assert(out@.map_values(|x: Row| x@) =~= Seq::<RowModel>::empty());
    }
    while i < records.len()
        invariant
            1 <= i <= records@.len(),
            recsv == records_view(*records),
            recsv.len() == records@.len(),
            hv == recsv[0],
            header_len == hv.len(),
            rows == recsv.drop_first(),
            col_matches(hv, cols.dag, "Transdag"@),
            col_matches(hv, cols.mnr, "Mottagarnr"@),
            col_matches(hv, cols.mnamn, "Mottagarnamn"@),
            col_matches(hv, cols.anr, "Avs\u{e4}ndarnr"@),
            col_matches(hv, cols.anamn, "Avs\u{e4}ndarnamn"@),
            col_matches(hv, cols.msg, "Meddelande"@),
            col_matches(hv, cols.tid, "Tid"@),
            col_matches(hv, cols.bel, "Belopp"@),
            spec_rows(hv, rows.take(i - 1)) == Ok::<Seq<RowModel>, ParseError>(
                out@.map_values(|x: Row| x@),
            ),
        decreases records@.len() - i,
    {
        proof {
            assert(forall|j: int| 0 <= j < rows.len() ==> #[trigger] rows[j] == recsv[j + 1]);
        }
        match parse_record(&records[i], &cols, header_len, Ghost(hv)) {
            Err(e) => {
                proof {
                    assert(rows[i - 1] == recsv[i as int]);
                    lemma_spec_rows_first_err(hv, rows, i - 1, e);
                }
                return Err(e);
            },
            Ok(row) => {
                let ghost prev = out@.map_values(|x: Row| x@);
                out.push(row);
                proof {
                    assert(rows[i - 1] == recsv[i as int]);
                    lemma_spec_rows_push(hv, rows.take(i - 1), rows[i - 1]);
                    assert(rows.take(i as int) =~= rows.take(i - 1).push(rows[i - 1]));
                    assert(out@.map_values(|x: Row| x@) =~= prev.push(row@));
                }
            },
        }
        i = i + 1;
    }
    proof {
        assert(rows.take(records@.len() - 1) =~= rows);
    }
    Ok(out)
}

/// Parse a decoded report text into rows. The tolerated `*`-marked note line
/// is dropped first; the first remaining record names the columns.
pub fn read(input: &str) -> (r: Result<Vec<Row>, ParseError>)
    ensures
        match r {
            Ok(rows) => spec_read_chars(input@) == Ok::<Seq<RowModel>, ParseError>(
                rows@.map_values(|x: Row| x@),
            ),
            Err(e) => spec_read_chars(input@) == Err::<Seq<RowModel>, ParseError>(e),
        },
{
    let chars = str_to_chars(input);
    let stripped = strip_header_note(chars);
    let records = split_records(&stripped);
    read_records(&records)
}

/// Decode a report from its legacy byte encoding and parse it into rows.
pub fn read_latin1(bytes: &[u8]) -> (r: Result<Vec<Row>, ParseError>)
    ensures
        match r {
            Ok(rows) => spec_read_chars(spec_decode_1252(bytes@)) == Ok::<
                Seq<RowModel>,
                ParseError,
            >(rows@.map_values(|x: Row| x@)),
            Err(e) => spec_read_chars(spec_decode_1252(bytes@)) == Err::<
                Seq<RowModel>,
                ParseError,
            >(e),
        },
{
    let chars = decode_1252(bytes);
    let stripped = strip_header_note(chars);
    let records = split_records(&stripped);
    read_records(&records)
}

/// Decode and parse a report, and normalize every row into a payment record.
pub fn parse_transactions(input: &[u8]) -> (r: Result<Vec<Transaction>, ParseError>)
    ensures
        match r {
            Ok(txs) => spec_parse_transactions(input@) == Ok::<
                Seq<TransactionModel>,
                ParseError,
            >(txs@.map_values(|x: Transaction| x@)),
            Err(e) => spec_parse_transactions(input@) == Err::<Seq<TransactionModel>, ParseError>(
                e,
            ),
        },
{
    let rows = match read_latin1(input) {
        Err(e) => {
            return Err(e);
        },
        Ok(rows) => rows,
    };
    let ghost rowsv = rows@.map_values(|x: Row| x@);
    let mut txs: Vec<Transaction> = Vec::new();
    let mut i: usize = 0;
    proof {
        assert(txs@.map_values(|x: Transaction| x@) =~= rowsv.take(0).map_values(
            |r: RowModel| spec_row_to_transaction(r),
        ));
    }
    let n = rows.len();
    let mut rest = rows;
    // Consume the rows front to back, normalizing each.
    let mut k: usize = 0;
    while k < n
        invariant
            k <= n,
            rest@.len() == n - k,
            forall|j: int| 0 <= j < rest@.len() ==> #[trigger] rest@[j]@ == rowsv[j + k],
            rowsv.len() == n,
            txs@.map_values(|x: Transaction| x@) == rowsv.take(k as int).map_values(
                |r: RowModel| spec_row_to_transaction(r),
            ),
        decreases n - k,
    {
        let row = rest.remove(0);
        let ghost prev = txs@.map_values(|x: Transaction| x@);
        let tx = Transaction::from_row(row);
        txs.push(tx);
        proof {
            assert(rowsv.take(k + 1) =~= rowsv.take(k as int).push(rowsv[k as int]));
            assert(txs@.map_values(|x: Transaction| x@) =~= rowsv.take(k + 1).map_values(
                |r: RowModel| spec_row_to_transaction(r),
            )) by {
                assert(txs@.map_values(|x: Transaction| x@) =~= prev.push(tx@));
                assert(rowsv.take(k + 1).map_values(|r: RowModel| spec_row_to_transaction(r)) =~= rowsv.take(
                    k as int,
                ).map_values(|r: RowModel| spec_row_to_transaction(r)).push(
                    spec_row_to_transaction(rowsv[k as int]),
                ));
            }
            assert(forall|j: int|
                0 <= j < rest@.len() ==> #[trigger] rest@[j]@ == rowsv[j + k + 1]);
        }
        k = k + 1;
    }
    proof {
        assert(rowsv.take(n as int) =~= rowsv);
    }
    Ok(txs)
}

} // verus!
