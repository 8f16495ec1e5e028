//! Decimal amounts.
//!
//! Entry descriptions and the exchange rate are free-form text. A text parses
//! as an amount when it is an optional sign followed by decimal digits with at
//! most one point, at most six fraction digits, and an integer part below one
//! billion. The parsed value is expressed in micro-units (millionths), so
//! every representable amount is exact. Text that does not parse contributes
//! zero to sums and falls back to the default rate, per the widget's policy.

use vstd::prelude::*;

verus! {

/// Largest integer part a parsed amount may have.
pub const MAX_INT_PART: u64 = 999_999_999;

/// Largest magnitude of a parsed amount, in micro-units.
pub const MAX_AMOUNT_MICRO: i64 = 999_999_999_999_999;

/// One whole unit, in micro-units.
pub const MICRO_PER_UNIT: i64 = 1_000_000;

pub open spec fn is_digit(c: char) -> bool {
    '0' <= c <= '9'
}

pub open spec fn digit_val(c: char) -> int {
    c as int - '0' as int
}

pub open spec fn all_digits(s: Seq<char>) -> bool {
    forall|k: int| 0 <= k < s.len() ==> is_digit(#[trigger] s[k])
}

/// Value of a digit sequence read in base ten.
pub open spec fn digits_val(s: Seq<char>) -> int
    decreases s.len(),
{
    if s.len() == 0 {
        0
    } else {
        digits_val(s.drop_last()) * 10 + digit_val(s.last())
    }
}

/// Index of the first decimal point, or the length when there is none.
pub open spec fn first_dot(s: Seq<char>) -> int
    decreases s.len(),
{
    if s.len() == 0 {
        0
    } else if s[0] == '.' {
        0
    } else {
        1 + first_dot(s.drop_first())
    }
}

pub open spec fn pow10(n: nat) -> int
    decreases n,
{
    if n == 0 {
        1
    } else {
        10 * pow10((n - 1) as nat)
    }
}

/// Parse an unsigned decimal text into micro-units.
pub open spec fn unsigned_micro(s: Seq<char>) -> Option<int> {
    let i = first_dot(s);
    let ip = s.subrange(0, i);
    let fp = if i < s.len() {
        s.subrange(i + 1, s.len() as int)
    } else {
        Seq::<char>::empty()
    };
    if all_digits(ip) && all_digits(fp) && ip.len() + fp.len() >= 1 && fp.len() <= 6
        && digits_val(ip) <= MAX_INT_PART as int {
        Some(digits_val(ip) * (MICRO_PER_UNIT as int) + digits_val(fp) * pow10((6 - fp.len()) as nat))
    } else {
        None
    }
}

/// Parse a decimal text, with an optional leading sign, into micro-units.
pub open spec fn parse_micro(s: Seq<char>) -> Option<int> {
    if s.len() > 0 && (s[0] == '+' || s[0] == '-') {
        match unsigned_micro(s.subrange(1, s.len() as int)) {
            Some(v) => Some(if s[0] == '-' { -v } else { v }),
            None => None,
        }
    } else {
        unsigned_micro(s)
    }
}

/// The amount a description contributes to sums: its parsed value, or zero
/// when it does not parse.
pub open spec fn amount_micro(s: Seq<char>) -> int {
    match parse_micro(s) {
        Some(v) => v,
        None => 0,
    }
}

pub proof fn lemma_first_dot(s: Seq<char>)
    ensures
        0 <= first_dot(s) <= s.len(),
        first_dot(s) < s.len() ==> s[first_dot(s)] == '.',
        forall|k: int| 0 <= k < first_dot(s) ==> s[k] != '.',
    decreases s.len(),
{
    if s.len() == 0 {
    } else if s[0] == '.' {
    } else {
        lemma_first_dot(s.drop_first());
        assert forall|k: int| 0 <= k < first_dot(s) implies s[k] != '.' by {
            if k > 0 {
                assert(s.drop_first()[k - 1] != '.');
            }
        }
    }
}

pub proof fn lemma_digits_val_nonneg(s: Seq<char>)
    requires
        all_digits(s),
    ensures
        digits_val(s) >= 0,
    decreases s.len(),
{
    if s.len() > 0 {
        assert(is_digit(s[s.len() - 1]));
        lemma_digits_val_nonneg(s.drop_last());
    }
}

/// A sequence of `n` digits has value below `10^n`.
pub proof fn lemma_digits_val_len_bound(s: Seq<char>)
    requires
        all_digits(s),
    ensures
        digits_val(s) < pow10(s.len()),
    decreases s.len(),
{
    if s.len() > 0 {
        assert(is_digit(s[s.len() - 1]));
        lemma_digits_val_len_bound(s.drop_last());
    }
}

/// Reading more digits can only grow the value.
pub proof fn lemma_digits_val_prefix(s: Seq<char>, m: int)
    requires
        all_digits(s),
        0 <= m <= s.len(),
    ensures
        digits_val(s.subrange(0, m)) <= digits_val(s),
    decreases s.len() - m,
{
    if m == s.len() {
        assert(s.subrange(0, m) =~= s);
    } else {
        let t = s.drop_last();
        assert(all_digits(t));
        lemma_digits_val_prefix(t, m);
        assert(t.subrange(0, m) =~= s.subrange(0, m));
        lemma_digits_val_nonneg(t);
        assert(is_digit(s[s.len() - 1]));
    }
}

pub proof fn lemma_pow10_pos(n: nat)
    ensures
        pow10(n) >= 1,
    decreases n,
{
    if n > 0 {
        lemma_pow10_pos((n - 1) as nat);
    }
}

pub proof fn lemma_pow10_monotone(a: nat, b: nat)
    ensures
        a <= b ==> pow10(a) <= pow10(b),
    decreases b,
{
    if a < b {
        lemma_pow10_monotone(a, (b - 1) as nat);
        lemma_pow10_pos((b - 1) as nat);
    }
}

pub proof fn lemma_pow10_add(a: nat, b: nat)
    ensures
        pow10(a + b) == pow10(a) * pow10(b),
    decreases a,
{
    if a == 0 {
    } else {
        lemma_pow10_add((a - 1) as nat, b);
        assert(pow10(a + b) == 10 * pow10((a - 1) as nat + b));
        assert(10 * (pow10((a - 1) as nat) * pow10(b)) == (10 * pow10((a - 1) as nat)) * pow10(b))
            by (nonlinear_arith);
    }
}

/// A text that parses is all ASCII.
pub proof fn lemma_unsigned_ascii(s: Seq<char>)
    requires
        unsigned_micro(s) is Some,
    ensures
        vstd::utf8::is_ascii_chars(s),
{
    lemma_first_dot(s);
    let i = first_dot(s);
    let ip = s.subrange(0, i);
    let fp = if i < s.len() {
        s.subrange(i + 1, s.len() as int)
    } else {
        Seq::<char>::empty()
    };
    assert forall|k: int| 0 <= k < s.len() implies '\0' <= #[trigger] s[k] <= '\u{7f}' by {
        if k < i {
            assert(is_digit(ip[k]));
        } else if k == i {
            assert(s[k] == '.');
        } else {
            assert(is_digit(fp[k - i - 1]));
        }
    }
}

pub proof fn lemma_parse_ascii(s: Seq<char>)
    requires
        parse_micro(s) is Some,
    ensures
        vstd::utf8::is_ascii_chars(s),
{
    if s.len() > 0 && (s[0] == '+' || s[0] == '-') {
        let body = s.subrange(1, s.len() as int);
        lemma_unsigned_ascii(body);
        assert forall|k: int| 0 <= k < s.len() implies '\0' <= #[trigger] s[k] <= '\u{7f}' by {
            if k > 0 {
                assert('\0' <= body[k - 1] <= '\u{7f}');
            }
        }
    } else {
        lemma_unsigned_ascii(s);
    }
}

/// Every parsed amount lies within `MAX_AMOUNT_MICRO` in magnitude, and so
/// does the sum contribution of any description.
pub proof fn lemma_amount_bound(s: Seq<char>)
    ensures
        match parse_micro(s) {
            Some(v) => -(MAX_AMOUNT_MICRO as int) <= v <= MAX_AMOUNT_MICRO as int,
            None => true,
        },
        -(MAX_AMOUNT_MICRO as int) <= amount_micro(s) <= MAX_AMOUNT_MICRO as int,
{
    if s.len() > 0 && (s[0] == '+' || s[0] == '-') {
        lemma_unsigned_bound(s.subrange(1, s.len() as int));
    } else {
        lemma_unsigned_bound(s);
    }
}

proof fn lemma_unsigned_bound(s: Seq<char>)
    ensures
        match unsigned_micro(s) {
            Some(v) => 0 <= v <= MAX_AMOUNT_MICRO as int,
            None => true,
        },
{
    if unsigned_micro(s) is Some {
        let i = first_dot(s);
        let ip = s.subrange(0, i);
        let fp = if i < s.len() {
            s.subrange(i + 1, s.len() as int)
        } else {
            Seq::<char>::empty()
        };
        lemma_digits_val_nonneg(ip);
        lemma_digits_val_nonneg(fp);
        lemma_digits_val_len_bound(fp);
        let flen = fp.len();
        lemma_pow10_pos((6 - flen) as nat);
        lemma_pow10_add(flen, (6 - flen) as nat);
        assert(pow10(6nat) == 1_000_000) by {
            reveal_with_fuel(pow10, 7);
        }
        assert(digits_val(fp) * pow10((6 - flen) as nat) < pow10(flen) * pow10((6 - flen) as nat))
            by (nonlinear_arith)
            requires
                digits_val(fp) < pow10(flen),
                pow10((6 - flen) as nat) >= 1,
        ;
        assert(0 <= digits_val(fp) * pow10((6 - flen) as nat)) by (nonlinear_arith)
            requires
                digits_val(fp) >= 0,
                pow10((6 - flen) as nat) >= 1,
        ;
    }
}

/// If the digits read so far already exceed the cap, the text does not parse.
proof fn lemma_int_part_too_big(body: Seq<char>, m: int)
    requires
        0 <= m <= body.len(),
        forall|k: int| 0 <= k < m ==> is_digit(#[trigger] body[k]),
        digits_val(body.subrange(0, m)) > MAX_INT_PART as int,
    ensures
        unsigned_micro(body) is None,
{
    lemma_first_dot(body);
    let fd = first_dot(body);
    assert(fd >= m) by {
        if fd < m {
            assert(is_digit(body[fd]));
        }
    }
    let ip = body.subrange(0, fd);
    if all_digits(ip) {
        lemma_digits_val_prefix(ip, m);
        assert(ip.subrange(0, m) =~= body.subrange(0, m));
    }
}

/// A character that is neither a digit nor the first point stops the parse.
proof fn lemma_nondigit_before_dot(body: Seq<char>, m: int)
    requires
        0 <= m < body.len(),
        forall|k: int| 0 <= k < m ==> is_digit(#[trigger] body[k]),
        !is_digit(body[m]),
        body[m] != '.',
    ensures
        unsigned_micro(body) is None,
{
    lemma_first_dot(body);
    let fd = first_dot(body);
    assert(fd != m);
    assert(fd > m) by {
        if fd < m {
            assert(is_digit(body[fd]));
        }
    }
    let ip = body.subrange(0, fd);
    assert(ip[m] == body[m]);
    assert(!all_digits(ip));
}

/// A non-digit after the first point stops the parse.
proof fn lemma_bad_frac(body: Seq<char>, dp: int, m: int)
    requires
        0 <= dp < body.len(),
        body[dp] == '.',
        forall|k: int| 0 <= k < dp ==> #[trigger] body[k] != '.',
        dp < m < body.len(),
        !is_digit(body[m]),
    ensures
        unsigned_micro(body) is None,
{
    lemma_first_dot_unique(body, dp);
    let fp = body.subrange(dp + 1, body.len() as int);
    assert(fp[m - dp - 1] == body[m]);
    assert(!all_digits(fp));
}

/// Relates a signed parse to the parse of the text after the sign.
proof fn lemma_parse_unsigned_rel(cs: Seq<char>, sp: int, neg: bool)
    requires
        sp == 0 || sp == 1,
        sp == 1 ==> cs.len() > 0 && (cs[0] == '+' || cs[0] == '-') && (neg <==> cs[0] == '-'),
        sp == 0 ==> !(cs.len() > 0 && (cs[0] == '+' || cs[0] == '-')) && !neg,
    ensures
        parse_micro(cs) == (match unsigned_micro(cs.subrange(sp, cs.len() as int)) {
            Some(v) => Some(if neg { -v } else { v }),
            None => None::<int>,
        }),
{
    if sp == 0 {
        assert(cs.subrange(0, cs.len() as int) =~= cs);
    }
}

/// Parse a text into micro-units: exactly the value of `parse_micro` on the
/// text's characters.
#[verifier::loop_isolation(false)]
#[verifier::rlimit(60)]
pub fn parse_amount(s: &str) -> (r: Option<i64>)
    ensures
        match r {
            Some(v) => parse_micro(s@) == Some(v as int),
            None => parse_micro(s@) is None,
        },
{
    let ghost cs = s@;
    if !s.is_ascii() {
        proof {
            if parse_micro(cs) is Some {
                lemma_parse_ascii(cs);
            }
        }
        return None;
    }
    proof {
        vstd::string::is_ascii_spec_bytes(s);
    }
    let b = s.as_bytes();
    let len = b.len();
    proof {
        assert(b@.len() == cs.len());
        assert forall|k: int| 0 <= k < cs.len() implies #[trigger] b@[k] as int == cs[k] as int by {
            assert(b@[k] == cs[k] as u8);
            assert('\0' <= cs[k] <= '\u{7f}');
        }
    }
    let mut i: usize = 0;
    let mut neg = false;
    if len > 0 && (b[0] == 43 || b[0] == 45) {
        neg = b[0] == 45;
        i = 1;
    }
    let start = i;
    let ghost sp = i as int;
    let ghost body = cs.subrange(sp, cs.len() as int);
    proof {
        lemma_parse_unsigned_rel(cs, sp, neg);
        assert forall|k: int| 0 <= k < body.len() implies #[trigger] body[k] == cs[sp + k] by {}
    }
    let mut ipv: u64 = 0;
    while i < len && b[i] != 46
        invariant
            start <= i <= len,
            forall|k: int| sp <= k < i as int ==> is_digit(#[trigger] cs[k]),
            ipv as int == digits_val(cs.subrange(sp, i as int)),
            ipv <= MAX_INT_PART,
        decreases len - i,
    {
        let c = b[i];
        proof {
            assert(b@[i as int] as int == cs[i as int] as int);
        }
        if c < 48 || c > 57 {
            proof {
                assert(!is_digit(cs[i as int]));
                assert(cs[i as int] != '.');
                lemma_nondigit_before_dot(body, i as int - sp);
            }
            return None;
        }
        let d = (c - 48) as u64;
        proof {
            assert(is_digit(cs[i as int]));
            assert(digit_val(cs[i as int]) == d as int);
            assert(cs.subrange(sp, i as int + 1).drop_last() =~= cs.subrange(sp, i as int));
            assert(cs.subrange(sp, i as int + 1).last() == cs[i as int]);
        }
        let next = ipv * 10 + d;
        if next > MAX_INT_PART {
            proof {
                assert(digits_val(cs.subrange(sp, i as int + 1)) == next as int);
                assert(body.subrange(0, i as int + 1 - sp) =~= cs.subrange(sp, i as int + 1));
                lemma_int_part_too_big(body, i as int + 1 - sp);
            }
            return None;
        }
        ipv = next;
        i += 1;
    }
    if i == len {
        if i == start {
            proof {
                assert(body.len() == 0);
                assert(body.subrange(0, 0) =~= Seq::<char>::empty());
                assert(unsigned_micro(body) is None);
            }
            return None;
        }
        proof {
            lemma_first_dot(body);
            let fd = first_dot(body);
            if fd < body.len() {
                assert(body[fd] == '.');
                assert(is_digit(cs[sp + fd]));
                assert(false);
            }
            assert(body.subrange(0, fd) =~= body);
            assert(body =~= cs.subrange(sp, i as int));
            assert(all_digits(body));
            assert(digits_val(body) == ipv as int);
            assert(unsigned_micro(body) == Some(
                ipv as int * (MICRO_PER_UNIT as int) + digits_val(Seq::<char>::empty()) * pow10(
                    6nat,
                ),
            ));
        }
        let micro = ipv * 1_000_000;
        let v = micro as i64;
        return Some(if neg { -v } else { v });
    }
    // A point sits at position i; read the fraction digits after it.
    let dp = i;
    let fstart = dp + 1;
    proof {
        assert(b@[dp as int] as int == cs[dp as int] as int);
        assert(cs[dp as int] == '.');
    }
    let mut j = fstart;
    let mut fv: u64 = 0;
    while j < len
        invariant
            fstart <= j <= len,
            j - fstart <= 6,
            forall|k: int| fstart as int <= k < j as int ==> is_digit(#[trigger] cs[k]),
            fv as int == digits_val(cs.subrange(fstart as int, j as int)),
            (fv as int) < pow10((j - fstart) as nat),
        decreases len - j,
    {
        let c = b[j];
        proof {
            assert(b@[j as int] as int == cs[j as int] as int);
        }
        if c < 48 || c > 57 {
            proof {
                assert(!is_digit(cs[j as int]));
                lemma_bad_frac(body, dp as int - sp, j as int - sp);
            }
            return None;
        }
        if j - fstart >= 6 {
            proof {
                lemma_first_dot_unique(body, dp as int - sp);
                let fp = body.subrange(dp as int - sp + 1, body.len() as int);
                assert(fp.len() > 6);
                assert(unsigned_micro(body) is None);
            }
            return None;
        }
        let d = (c - 48) as u64;
        proof {
            assert(is_digit(cs[j as int]));
            assert(digit_val(cs[j as int]) == d as int);
            assert(cs.subrange(fstart as int, j as int + 1).drop_last() =~= cs.subrange(
                fstart as int,
                j as int,
            ));
            assert(cs.subrange(fstart as int, j as int + 1).last() == cs[j as int]);
            lemma_pow10_monotone((j - fstart) as nat, 5);
            assert(pow10(5nat) == 100_000) by {
                reveal_with_fuel(pow10, 6);
            }
        }
        fv = fv * 10 + d;
        j += 1;
    }
    let flen = len - fstart;
    if dp == start && flen == 0 {
        proof {
            lemma_first_dot_unique(body, 0);
            assert(body.subrange(0, 0) =~= Seq::<char>::empty());
            assert(body.subrange(1, body.len() as int).len() == 0);
            assert(unsigned_micro(body) is None);
        }
        return None;
    }
    let mut scale: u64 = 1;
    let mut k = flen;
    while k < 6
        invariant
            flen <= k <= 6,
            scale as int == pow10((k - flen) as nat),
        decreases 6 - k,
    {
        proof {
            lemma_pow10_monotone((k - flen) as nat, 5);
            assert(pow10(5nat) == 100_000) by {
                reveal_with_fuel(pow10, 6);
            }
        }
        scale = scale * 10;
        k += 1;
    }
    proof {
        lemma_first_dot_unique(body, dp as int - sp);
        let ip = body.subrange(0, dp as int - sp);
        let fp = body.subrange(dp as int - sp + 1, body.len() as int);
        assert(ip =~= cs.subrange(sp, dp as int));
        assert(fp =~= cs.subrange(fstart as int, len as int));
        assert(all_digits(ip));
        assert(all_digits(fp));
        assert(digits_val(ip) == ipv as int);
        assert(digits_val(fp) == fv as int);
        assert(fp.len() == flen as int);
        assert(ip.len() + fp.len() >= 1);
        assert(unsigned_micro(body) == Some(
            ipv as int * (MICRO_PER_UNIT as int) + fv as int * pow10((6 - flen) as nat),
        ));
        assert(scale as int == pow10((6 - flen) as nat));
        lemma_pow10_pos((6 - flen) as nat);
        lemma_pow10_add(flen as nat, (6 - flen) as nat);
        assert(pow10(6nat) == 1_000_000) by {
            reveal_with_fuel(pow10, 7);
        }
        assert((fv as int) * (scale as int) < 1_000_000) by (nonlinear_arith)
            requires
                (fv as int) < pow10(flen as nat),
                scale as int == pow10((6 - flen) as nat),
                pow10(flen as nat) * pow10((6 - flen) as nat) == 1_000_000,
                scale as int >= 1,
        ;
        assert(fv as int * scale as int >= 0) by (nonlinear_arith)
            requires
                fv as int >= 0,
                scale as int >= 1,
        ;
    }
    let micro = ipv * 1_000_000 + fv * scale;
    let v = micro as i64;
    Some(if neg { -v } else { v })
}

/// The first point is the unique point with none before it.
proof fn lemma_first_dot_unique(body: Seq<char>, dp: int)
    requires
        0 <= dp < body.len(),
        body[dp] == '.',
        forall|k: int| 0 <= k < dp ==> #[trigger] body[k] != '.',
    ensures
        first_dot(body) == dp,
{
    lemma_first_dot(body);
    let fd = first_dot(body);
    if fd < dp {
        assert(body[fd] != '.');
        assert(false);
    }
    if fd > dp {
        assert(body[dp] != '.');
        assert(false);
    }
}

} // verus!
