//! The request boundary: sides, order types and time-in-force values
//! as they cross the wire (lowercase / uppercase string enums), and the
//! disposition object handed back for a submission.

use vstd::prelude::*;

use crate::types::{MatchResult, OrderType, Side, TimeInForce, AMOUNT_SCALE};

verus! {

/// The decimal digit character for `d`.
pub open spec fn spec_digit(d: int) -> char {
    if d == 0 {
        '0'
    } else if d == 1 {
        '1'
    } else if d == 2 {
        '2'
    } else if d == 3 {
        '3'
    } else if d == 4 {
        '4'
    } else if d == 5 {
        '5'
    } else if d == 6 {
        '6'
    } else if d == 7 {
        '7'
    } else if d == 8 {
        '8'
    } else {
        '9'
    }
}

/// The decimal digit string of a non-negative integer.
pub open spec fn spec_u64_string(n: int) -> Seq<char>
    decreases n,
{
    if n < 10 {
        seq![spec_digit(n)]
    } else {
        spec_u64_string(n / 10).push(spec_digit(n % 10))
    }
}

fn digit_str(d: u64) -> (r: &'static str)
    requires
        d < 10,
    ensures
        r@ =~= seq![spec_digit(d as int)],
{
    let r: &'static str = match d {
        0 => "0",
        1 => "1",
        2 => "2",
        3 => "3",
        4 => "4",
        5 => "5",
        6 => "6",
        7 => "7",
        8 => "8",
        _ => "9",
    };
    proof {
        reveal_strlit("0");
        reveal_strlit("1");
        reveal_strlit("2");
        reveal_strlit("3");
        reveal_strlit("4");
        reveal_strlit("5");
        reveal_strlit("6");
        reveal_strlit("7");
        reveal_strlit("8");
        reveal_strlit("9");
    }
    r
}

/// Format a non-negative integer as its decimal digit string.
pub fn u64_to_string(n: u64) -> (r: String)
    ensures
        r@ == spec_u64_string(n as int),
    decreases n,
{
    if n < 10 {
        String::from_str(digit_str(n))
    } else {
        let mut s = u64_to_string(n / 10);
        s.append(digit_str(n % 10));
        proof {
            assert(s@ =~= spec_u64_string((n / 10) as int).push(spec_digit((n % 10) as int)));
        }
        s
    }
}

/// Parse a lowercase side name.
pub fn parse_side(s: &str) -> (r: Option<Side>)
    ensures
        r == (if s@ == "buy"@ {
            Option::Some(Side::Buy)
        } else if s@ == "sell"@ {
            Option::Some(Side::Sell)
        } else {
            Option::<Side>::None
        }),
{
    let owned = String::from_str(s);
    if owned == String::from_str("buy") {
        Option::Some(Side::Buy)
    } else if owned == String::from_str("sell") {
        Option::Some(Side::Sell)
    } else {
        Option::None
    }
}

/// Parse a lowercase order type name.
pub fn parse_order_type(s: &str) -> (r: Option<OrderType>)
    ensures
        r == (if s@ == "market"@ {
            Option::Some(OrderType::Market)
        } else if s@ == "limit"@ {
            Option::Some(OrderType::Limit)
        } else if s@ == "stop"@ {
            Option::Some(OrderType::Stop)
        } else if s@ == "stop_limit"@ {
            Option::Some(OrderType::StopLimit)
        } else {
            Option::<OrderType>::None
        }),
{
    let owned = String::from_str(s);
    if owned == String::from_str("market") {
        Option::Some(OrderType::Market)
    } else if owned == String::from_str("limit") {
        Option::Some(OrderType::Limit)
    } else if owned == String::from_str("stop") {
        Option::Some(OrderType::Stop)
    } else if owned == String::from_str("stop_limit") {
        Option::Some(OrderType::StopLimit)
    } else {
        Option::None
    }
}

/// Parse an uppercase time-in-force name; anything unknown falls back
/// to good-till-cancelled.
pub fn parse_time_in_force(s: &str) -> (r: TimeInForce)
    ensures
        r == (if s@ == "GTC"@ {
            TimeInForce::GTC
        } else if s@ == "IOC"@ {
            TimeInForce::IOC
        } else if s@ == "FOK"@ {
            TimeInForce::FOK
        } else if s@ == "GTD"@ {
            TimeInForce::GTD
        } else {
            TimeInForce::GTC
        }),
{
    let owned = String::from_str(s);
    if owned == String::from_str("GTC") {
        TimeInForce::GTC
    } else if owned == String::from_str("IOC") {
        TimeInForce::IOC
    } else if owned == String::from_str("FOK") {
        TimeInForce::FOK
    } else if owned == String::from_str("GTD") {
        TimeInForce::GTD
    } else {
        TimeInForce::GTC
    }
}

/// The disposition object a submission hands back over the wire.
#[derive(Debug, Clone)]
pub struct OrderResponse {
    pub success: bool,
    pub status: String,
    pub message: String,
    pub trades_count: u32,
}

/// Build the disposition object for a match result.
pub fn build_order_response(result: &MatchResult) -> (r: OrderResponse)
    ensures
        match result {
            MatchResult::Filled(trades) => {
                &&& r.success
                &&& r.status@ == "filled"@
                &&& r.message@ == spec_u64_string(trades@.len() as int) + " trades executed"@
                &&& r.trades_count == trades@.len() as u32
            },
            MatchResult::PartiallyFilled(trades, _) => {
                &&& r.success
                &&& r.status@ == "partial"@
                &&& r.message@ == spec_u64_string(trades@.len() as int)
                    + " trades executed, order partially filled"@
                &&& r.trades_count == trades@.len() as u32
            },
            MatchResult::Added(_) => {
                &&& r.success
                &&& r.status@ == "new"@
                &&& r.message@ == "Order added to orderbook"@
                &&& r.trades_count == 0
            },
            MatchResult::Rejected(reason) => {
                &&& !r.success
                &&& r.status@ == "rejected"@
                &&& r.message@ == reason@
                &&& r.trades_count == 0
            },
        },
{
    match result {
        MatchResult::Filled(trades) => {
            let mut message = u64_to_string(#[verifier::truncate] (trades.len() as u64));
            message.append(" trades executed");
            proof {
                assert(trades@.len() <= u64::MAX);
            }
            OrderResponse {
                success: true,
                status: String::from_str("filled"),
                message,
                trades_count: #[verifier::truncate] (trades.len() as u32),
            }
        },
        MatchResult::PartiallyFilled(trades, _) => {
            let mut message = u64_to_string(#[verifier::truncate] (trades.len() as u64));
            message.append(" trades executed, order partially filled");
            OrderResponse {
                success: true,
                status: String::from_str("partial"),
                message,
                trades_count: #[verifier::truncate] (trades.len() as u32),
            }
        },
        MatchResult::Added(_) => OrderResponse {
            success: true,
            status: String::from_str("new"),
            message: String::from_str("Order added to orderbook"),
            trades_count: 0,
        },
        MatchResult::Rejected(reason) => OrderResponse {
            success: false,
            status: String::from_str("rejected"),
            message: reason.clone(),
            trades_count: 0,
        },
    }
}


/// Ten to the `k`.
pub open spec fn pow10(k: int) -> int
    decreases k,
{
    if k <= 0 {
        1
    } else {
        10 * pow10(k - 1)
    }
}


/// The powers of ten this module relies on, unfolded.
pub proof fn lemma_pow10_vals()
    ensures
        pow10(8) == 100_000_000,
        pow10(10) == 10_000_000_000,
        pow10(11) == 100_000_000_000,
{
    assert(pow10(0) == 1);
    assert(pow10(1) == 10);
    assert(pow10(2) == 100);
    assert(pow10(3) == 1000);
    assert(pow10(4) == 10000);
    assert(pow10(5) == 100000);
    assert(pow10(6) == 1000000);
    assert(pow10(7) == 10000000);
    assert(pow10(8) == 100000000);
    assert(pow10(9) == 1000000000);
    assert(pow10(10) == 10000000000);
    assert(pow10(11) == 100000000000);
}

fn pow10_exec(k: u64) -> (r: u64)
    requires
        k <= 11,
    ensures
        r == pow10(k as int),
{
    let mut r: u64 = 1;
    let mut i: u64 = 0;
    while i < k
        invariant
            0 <= i <= k <= 11,
            r == pow10(i as int),
            r <= 100_000_000_000,
        decreases k - i,
    {
        proof {
            assert(pow10(i as int) <= pow10(10)) by {
                lemma_pow10_le(i as int, 10);
            }
            lemma_pow10_vals();
        }
        r = r * 10;
        i = i + 1;
    }
    r
}

pub proof fn lemma_pow10_le(a: int, b: int)
    requires
        0 <= a <= b,
    ensures
        pow10(a) <= pow10(b),
        pow10(a) >= 1,
    decreases b,
{
    if b > 0 {
        if a == b {
            lemma_pow10_le(a - 1, b - 1);
        } else {
            lemma_pow10_le(a, b - 1);
        }
    }
}

/// A decimal digit character.
pub open spec fn is_digit_char(c: char) -> bool {
    48 <= c as int <= 57
}

/// The numeric value of a digit character.
pub open spec fn digit_val(c: char) -> int {
    c as int - 48
}

/// All characters are decimal digits.
pub open spec fn all_digits(s: Seq<char>) -> bool {
    forall|i: int| 0 <= i < s.len() ==> is_digit_char(#[trigger] s[i])
}

/// The value of a digit string, most significant digit first.
pub open spec fn digits_val(s: Seq<char>) -> int
    decreases s.len(),
{
    if s.len() == 0 {
        0
    } else {
        digits_val(s.drop_last()) * 10 + digit_val(s.last())
    }
}

pub proof fn lemma_digits_val_bounds(s: Seq<char>)
    requires
        all_digits(s),
    ensures
        0 <= digits_val(s) < pow10(s.len() as int),
    decreases s.len(),
{
    if s.len() > 0 {
        assert(all_digits(s.drop_last())) by {
            assert forall|i: int| 0 <= i < s.drop_last().len() implies is_digit_char(
                #[trigger] s.drop_last()[i],
            ) by {
                assert(s.drop_last()[i] == s[i]);
            }
        }
        lemma_digits_val_bounds(s.drop_last());
        assert(is_digit_char(s.last()));
        assert(digits_val(s.drop_last()) * 10 + digit_val(s.last()) < pow10(s.len() as int))
            by (nonlinear_arith)
            requires
                0 <= digits_val(s.drop_last()) < pow10(s.len() - 1),
                0 <= digit_val(s.last()) <= 9,
                pow10(s.len() as int) == 10 * pow10(s.len() - 1),
        ;
    }
}

/// Position `k` holds the first decimal point of `s`.
pub open spec fn dot_at_first(s: Seq<char>, k: int) -> bool {
    &&& 0 <= k < s.len()
    &&& s[k] == '.'
    &&& forall|i: int| 0 <= i < k ==> s[i] != '.'
}

/// What a decimal amount string denotes on the fixed-point grid, if
/// anything: an integer part of one to eleven digits, optionally
/// followed by a point and one to eight fraction digits.
pub open spec fn spec_parse_amount(s: Seq<char>) -> Option<u64> {
    if exists|k: int| dot_at_first(s, k) {
        let k = choose|k: int| dot_at_first(s, k);
        let ip = s.take(k);
        let fp = s.skip(k + 1);
        if 1 <= ip.len() <= 11 && all_digits(ip) && 1 <= fp.len() <= 8 && all_digits(fp) {
            Option::Some(
                (digits_val(ip) * (AMOUNT_SCALE as int) + digits_val(fp) * pow10(
                    8 - fp.len(),
                )) as u64,
            )
        } else {
            Option::None
        }
    } else {
        if 1 <= s.len() <= 11 && all_digits(s) {
            Option::Some((digits_val(s) * (AMOUNT_SCALE as int)) as u64)
        } else {
            Option::None
        }
    }
}

/// Read a run of digit characters as a number.
fn digits_of(s: &str, from: usize, to: usize) -> (r: Option<u64>)
    requires
        from <= to <= s@.len(),
        to - from <= 11,
    ensures
        r matches Some(v) ==> all_digits(s@.subrange(from as int, to as int)) && v == digits_val(
            s@.subrange(from as int, to as int),
        ),
        r is None ==> !all_digits(s@.subrange(from as int, to as int)),
{
    let ghost whole = s@.subrange(from as int, to as int);
    let mut acc: u64 = 0;
    let mut i: usize = from;
    while i < to
        invariant
            from <= i <= to <= s@.len(),
            to - from <= 11,
            whole == s@.subrange(from as int, to as int),
            all_digits(s@.subrange(from as int, i as int)),
            acc == digits_val(s@.subrange(from as int, i as int)),
            acc < 100_000_000_000,
        decreases to - i,
    {
        let c = s.get_char(i);
        let code = c as u32;
        if code < 48 || code > 57 {
            proof {
                assert(whole[i - from] == s@[i as int]);
                assert(!is_digit_char(whole[i - from]));
            }
            return Option::None;
        }
        let d = (code - 48) as u64;
        proof {
            let pre = s@.subrange(from as int, i as int);
            let now = s@.subrange(from as int, i + 1);
            assert(now.drop_last() =~= pre);
            assert(now.last() == s@[i as int]);
            assert forall|j: int| 0 <= j < now.len() implies is_digit_char(#[trigger] now[j]) by {
                if j < pre.len() {
                    assert(now[j] == pre[j]);
                }
            }
            lemma_digits_val_bounds(now);
            assert(pow10(now.len() as int) <= pow10(11)) by {
                lemma_pow10_le(now.len() as int, 11);
            }
            lemma_pow10_vals();
        }
        acc = acc * 10 + d;
        i = i + 1;
    }
    proof {
        assert(s@.subrange(from as int, to as int) == whole);
    }
    Option::Some(acc)
}

/// Parse a decimal amount string to the fixed-point grid: an integer
/// part of up to eleven digits, optionally a point and up to eight
/// fraction digits. Anything else is refused.
pub fn parse_amount(s: &str) -> (r: Option<u64>)
    ensures
        r == spec_parse_amount(s@),
{
    let n = s.unicode_len();
    // find the first decimal point
    let mut dot: Option<usize> = Option::None;
    let mut i: usize = 0;
    while i < n && matches!(dot, Option::None)
        invariant
            0 <= i <= n == s@.len(),
            dot is None ==> forall|j: int| 0 <= j < i ==> s@[j] != '.',
            dot matches Some(k) ==> dot_at_first(s@, k as int),
        decreases n - i,
    {
        let c = s.get_char(i);
        if c == '.' {
            dot = Option::Some(i);
        }
        i = i + 1;
    }
    proof {
        if dot is None {
            if exists|k: int| dot_at_first(s@, k) {
                let k = choose|k: int| dot_at_first(s@, k);
                assert(s@[k] != '.');
            }
        }
    }
    match dot {
        Option::None => {
            if n == 0 || n > 11 {
                return Option::None;
            }
            proof {
                assert(s@.subrange(0, n as int) =~= s@);
            }
            match digits_of(s, 0, n) {
                Option::Some(v) => {
                    proof {
                        lemma_digits_val_bounds(s@);
                        assert(pow10(s@.len() as int) <= pow10(11)) by {
                            lemma_pow10_le(s@.len() as int, 11);
                        }
                        lemma_pow10_vals();
                        assert(digits_val(s@) * (AMOUNT_SCALE as int) < 100_000_000_000
                            * 100_000_000) by (nonlinear_arith)
                            requires
                                0 <= digits_val(s@) < 100_000_000_000,
                        ;
                    }
                    Option::Some(v * AMOUNT_SCALE)
                },
                Option::None => Option::None,
            }
        },
        Option::Some(k) => {
            proof {
                let kk = choose|k2: int| dot_at_first(s@, k2);
                assert(dot_at_first(s@, k as int));
                assert(kk == k as int) by {
                    if kk < k as int {
                        assert(s@[kk] != '.');
                    } else if kk > k as int {
                        assert(s@[k as int] != '.');
                    }
                }
            }
            let ilen = k;
            let flen = n - k - 1;
            if ilen == 0 || ilen > 11 || flen == 0 || flen > 8 {
                return Option::None;
            }
            proof {
                assert(s@.subrange(0, k as int) =~= s@.take(k as int));
                assert(s@.subrange(k + 1, n as int) =~= s@.skip(k + 1));
            }
            let int_part = match digits_of(s, 0, k) {
                Option::Some(v) => v,
                Option::None => {
                    return Option::None;
                },
            };
            let frac_part = match digits_of(s, k + 1, n) {
                Option::Some(v) => v,
                Option::None => {
                    return Option::None;
                },
            };
            let scale_up = pow10_exec(8 - (flen as u64));
            proof {
                let ip = s@.take(k as int);
                let fp = s@.skip(k + 1);
                assert(s@.subrange(0, k as int) == ip);
                assert(s@.subrange(k + 1, n as int) == fp);
                assert(all_digits(ip));
                assert(int_part == digits_val(ip));
                assert(all_digits(fp));
                assert(frac_part == digits_val(fp));
                assert(fp.len() == n - k - 1);
                lemma_digits_val_bounds(ip);
                lemma_digits_val_bounds(fp);
                lemma_pow10_le(ip.len() as int, 11);
                lemma_pow10_vals();
                assert(int_part * (AMOUNT_SCALE as int) < 100_000_000_000 * 100_000_000)
                    by (nonlinear_arith)
                    requires
                        0 <= int_part < 100_000_000_000,
                ;
                // the fraction scaled up stays below one whole unit
                lemma_pow10_mul(fp.len() as int, 8 - fp.len());
                lemma_pow10_vals();
                lemma_pow10_le(0, 8 - fp.len());
                lemma_pow10_le(8 - fp.len(), 8);
                assert(digits_val(fp) * pow10(8 - fp.len()) < pow10(8)) by (nonlinear_arith)
                    requires
                        0 <= digits_val(fp) < pow10(fp.len() as int),
                        pow10(fp.len() as int) * pow10(8 - fp.len()) == pow10(8),
                        pow10(8 - fp.len()) >= 1,
                ;
            }
            Option::Some(int_part * AMOUNT_SCALE + frac_part * scale_up)
        },
    }
}

pub proof fn lemma_pow10_mul(a: int, b: int)
    requires
        0 <= a,
        0 <= b,
    ensures
        pow10(a) * pow10(b) == pow10(a + b),
    decreases a,
{
    if a == 0 {
        assert(pow10(0) == 1);
    } else {
        lemma_pow10_mul(a - 1, b);
        assert(pow10(a) * pow10(b) == 10 * (pow10(a - 1) * pow10(b))) by (nonlinear_arith)
            requires
                pow10(a) == 10 * pow10(a - 1),
        ;
    }
}

/// The fraction digits of `f` over eight places, most significant
/// first.
pub open spec fn spec_frac_digits(f: int, k: int) -> Seq<char>
    decreases k,
{
    if k <= 0 {
        Seq::<char>::empty()
    } else {
        seq![spec_digit(f / pow10(k - 1))] + spec_frac_digits(f % pow10(k - 1), k - 1)
    }
}

/// The decimal string of a fixed-point amount: the whole units, then a
/// point and all eight fraction places when the fraction is non-zero.
pub open spec fn spec_format_amount(v: u64) -> Seq<char> {
    if v % AMOUNT_SCALE == 0 {
        spec_u64_string((v / AMOUNT_SCALE) as int)
    } else {
        spec_u64_string((v / AMOUNT_SCALE) as int) + seq!['.'] + spec_frac_digits(
            (v % AMOUNT_SCALE) as int,
            8,
        )
    }
}

fn frac_digits_exec(f: u64, k: u64) -> (r: String)
    requires
        k <= 8,
        f < pow10(k as int),
    ensures
        r@ == spec_frac_digits(f as int, k as int),
    decreases k,
{
    if k == 0 {
        let r = String::new();
        proof {
            assert(r@ =~= spec_frac_digits(f as int, 0));
        }
        r
    } else {
        let p = pow10_exec(k - 1);
        proof {
            assert(pow10(k as int) == 10 * pow10(k as int - 1));
            assert(f / p < 10) by (nonlinear_arith)
                requires
                    0 <= f,
                    f < 10 * p,
                    p == pow10(k as int - 1),
                    p >= 1,
            ;
            assert(p >= 1) by {
                lemma_pow10_le(0, k as int - 1);
            }
            assert(f % p < p) by (nonlinear_arith)
                requires
                    p >= 1,
                    f >= 0,
            ;
        }
        let d = f / p;
        let mut out = String::from_str(digit_str(d));
        let rest = frac_digits_exec(f % p, k - 1);
        out.append(rest.as_str());
        proof {
            assert(out@ =~= spec_frac_digits(f as int, k as int));
        }
        out
    }
}

/// Format a fixed-point amount as a decimal string.
pub fn format_amount(v: u64) -> (r: String)
    ensures
        r@ == spec_format_amount(v),
{
    let whole = v / AMOUNT_SCALE;
    let frac = v % AMOUNT_SCALE;
    let mut out = u64_to_string(whole);
    if frac == 0 {
        return out;
    }
    out.append(".");
    proof {
        reveal_strlit(".");
        lemma_pow10_vals();
    }
    let digits = frac_digits_exec(frac, 8);
    out.append(digits.as_str());
    proof {
        assert(out@ =~= spec_format_amount(v));
    }
    out
}

} // verus!
