//! Numbers of the attribute mini-language: unsigned integers and decimal
//! numbers, read from and written as text.

use vstd::prelude::*;

verus! {

/// A decimal number: `units / 10^scale`. The text `-12.50` reads as
/// 1250 units at scale 2, negated.
#[derive(Debug, Clone, Copy, PartialEq, Eq, Structural)]
pub struct Decimal {
    pub units: i64,
    pub scale: u32,
}

pub open spec fn is_digit(c: char) -> bool {
    '0' <= c && c <= '9'
}

pub open spec fn digit_value(c: char) -> nat {
    (c as nat - '0' as nat) as nat
}

pub open spec fn digit_char(n: nat) -> char {
    (n + '0' as nat) as char
}

pub open spec fn all_digits(s: Seq<char>) -> bool {
    forall|i: int| 0 <= i < s.len() ==> is_digit(#[trigger] s[i])
}

/// The number that the digits `s` spell in base ten.
pub open spec fn digits_value(s: Seq<char>) -> nat
    decreases s.len(),
{
    if s.len() == 0 {
        0
    } else {
        digits_value(s.drop_last()) * 10 + digit_value(s.last())
    }
}

/// Ten to the power `n`.
pub open spec fn pow10(n: nat) -> nat
    decreases n,
{
    if n == 0 {
        1
    } else {
        10 * pow10((n - 1) as nat)
    }
}

/// The unsigned integer that `s` spells: an optional `+` and at least one
/// digit, of a value that fits in `u32`.
pub open spec fn u32_of(s: Seq<char>) -> Option<u32> {
    let d = if s.len() > 0 && s[0] == '+' {
        s.drop_first()
    } else {
        s
    };
    if d.len() > 0 && all_digits(d) && digits_value(d) <= u32::MAX {
        Some(digits_value(d) as u32)
    } else {
        None
    }
}

/// What stands before the decimal point of `body` (all of it without one).
pub open spec fn int_part(body: Seq<char>) -> Seq<char> {
    if body.contains('.') {
        body.take(body.index_of('.'))
    } else {
        body
    }
}

/// What follows the decimal point of `body` (nothing without one).
pub open spec fn frac_part(body: Seq<char>) -> Seq<char> {
    if body.contains('.') {
        body.skip(body.index_of('.') + 1)
    } else {
        Seq::empty()
    }
}

proof fn lemma_one_point(body: Seq<char>, k: int)
    requires
        0 <= k <= body.len(),
        forall|j: int| 0 <= j < body.len() && j != k ==> body[j] != '.',
        k < body.len() ==> body[k] == '.',
    ensures
        int_part(body) == body.take(k),
        frac_part(body) == if k < body.len() {
            body.skip(k + 1)
        } else {
            Seq::empty()
        },
{
    if k < body.len() {
        assert(body.contains('.'));
        let j = body.index_of('.');
        assert(body[j] == '.');
    } else {
        assert(!body.contains('.'));
        assert(body.take(k) =~= body);
    }
}

proof fn lemma_two_points(body: Seq<char>, k1: int, k2: int)
    requires
        0 <= k1 < k2 < body.len(),
        body[k1] == '.',
        body[k2] == '.',
    ensures
        !all_digits(int_part(body)) || !all_digits(frac_part(body)),
{
    assert(body.contains('.'));
    let j = body.index_of('.');
    assert(body[j] == '.');
    if j < k2 {
        assert(frac_part(body)[k2 - j - 1] == '.');
    } else {
        assert(int_part(body)[k1] == '.');
    }
}

/// The decimal number that `s` spells: an optional sign, then digits with at
/// most one decimal point among them, at least one and at most 18 digits in
/// all.
pub open spec fn decimal_of(s: Seq<char>) -> Option<Decimal> {
    let neg = s.len() > 0 && s[0] == '-';
    let body = if s.len() > 0 && (s[0] == '-' || s[0] == '+') {
        s.drop_first()
    } else {
        s
    };
    let ip = int_part(body);
    let fp = frac_part(body);
    let v = digits_value(ip + fp);
    if all_digits(ip) && all_digits(fp) && 1 <= ip.len() + fp.len() <= 18 {
        Some(Decimal { units: (if neg { -v } else { v as int }) as i64, scale: fp.len() as u32 })
    } else {
        None
    }
}

/// The decimal digits of `n`, without leading zeros.
pub open spec fn digits_text(n: nat) -> Seq<char>
    decreases n,
{
    if n < 10 {
        seq![digit_char(n)]
    } else {
        digits_text(n / 10).push(digit_char(n % 10))
    }
}

/// `n` zeros.
pub open spec fn zeros(n: nat) -> Seq<char> {
    Seq::new(n, |i: int| '0')
}

pub open spec fn abs(x: int) -> nat {
    if x < 0 {
        (-x) as nat
    } else {
        x as nat
    }
}

/// The digits of the units of `d`, with zeros in front where they are fewer
/// than `scale + 1`.
pub open spec fn padded_digits(d: Decimal) -> Seq<char> {
    let ds = digits_text(abs(d.units as int));
    if ds.len() < d.scale + 1 {
        zeros((d.scale + 1 - ds.len()) as nat) + ds
    } else {
        ds
    }
}

/// `d` written out: a `-` for a negative number, the digits of its units with
/// zeros in front where they are fewer than `scale + 1`, and a decimal point
/// before the last `scale` of them.
pub open spec fn decimal_text(d: Decimal) -> Seq<char> {
    let padded = padded_digits(d);
    let sign = if d.units < 0 {
        seq!['-']
    } else {
        Seq::empty()
    };
    if d.scale == 0 {
        sign + padded
    } else {
        sign + padded.take(padded.len() - d.scale) + seq!['.'] + padded.skip(padded.len() - d.scale)
    }
}

proof fn lemma_digits_bound(s: Seq<char>)
    requires
        all_digits(s),
    ensures
        digits_value(s) < pow10(s.len()),
    decreases s.len(),
{
    if s.len() > 0 {
        let t = s.drop_last();
        assert(all_digits(t)) by {
            assert forall|i: int| 0 <= i < t.len() implies is_digit(#[trigger] t[i]) by {
                assert(t[i] == s[i]);
            }
        }
        lemma_digits_bound(t);
        assert(is_digit(s[s.len() - 1]));
        let a = digits_value(t);
        let b = pow10(t.len());
        let d = digit_value(s.last());
        assert(a * 10 + d < 10 * b) by (nonlinear_arith)
            requires
                a < b,
                d <= 9,
        ;
    }
}

proof fn lemma_digits_monotone(s: Seq<char>, i: int)
    requires
        0 <= i <= s.len(),
    ensures
        digits_value(s.take(i)) <= digits_value(s),
    decreases s.len() - i,
{
    if i < s.len() {
        lemma_digits_monotone(s, i + 1);
        assert(s.take(i + 1).drop_last() =~= s.take(i));
    } else {
        assert(s.take(i) =~= s);
    }
}

/// The value of the digits `s[from..to]`, where it is below `10^18`.
fn digits_number(s: &Vec<char>, from: usize, to: usize) -> (r: Option<u64>)
    requires
        from <= to <= s@.len(),
    ensures
        match r {
            Some(v) => all_digits(s@.subrange(from as int, to as int)) && v == digits_value(
                s@.subrange(from as int, to as int),
            ) && v < 1_000_000_000_000_000_000u64,
            None => !all_digits(s@.subrange(from as int, to as int)) || digits_value(
                s@.subrange(from as int, to as int),
            ) >= 1_000_000_000_000_000_000u64,
        },
{
    let ghost d = s@.subrange(from as int, to as int);
    let mut v: u64 = 0;
    let mut i: usize = from;
    while i < to
        invariant
            from <= i <= to <= s@.len(),
            d == s@.subrange(from as int, to as int),
            all_digits(d.take(i - from)),
            v == digits_value(d.take(i - from)),
            v < 1_000_000_000_000_000_000u64,
        decreases to - i,
    {
        let c = s[i];
        if !('0' <= c && c <= '9') {
            assert(d[i - from] == c);
            return None;
        }
        let dv = (c as u32 - '0' as u32) as u64;
        assert(d.take(i - from + 1).drop_last() =~= d.take(i - from));
        assert(d.take(i - from + 1).last() == c);
        if v >= 100_000_000_000_000_000u64 {
            proof {
                lemma_digits_monotone(d, i - from + 1);
                assert(digits_value(d.take(i - from + 1)) == v * 10 + dv);
            }
            return None;
        }
        v = v * 10 + dv;
        i = i + 1;
        assert(all_digits(d.take(i - from))) by {
            assert forall|j: int| 0 <= j < i - from implies is_digit(#[trigger] d.take(i - from)[j]) by {
                if j < i - from - 1 {
                    assert(d.take(i - from - 1)[j] == d.take(i - from)[j]);
                }
            }
        }
    }
    assert(d.take(to - from) =~= d);
    Some(v)
}

/// Reads an unsigned integer as `u32_of` says.
pub fn parse_u32(s: &Vec<char>) -> (r: Option<u32>)
    ensures
        r == u32_of(s@),
{
    let start: usize = if s.len() > 0 && s[0] == '+' { 1 } else { 0 };
    let ghost d = if s@.len() > 0 && s@[0] == '+' {
        s@.drop_first()
    } else {
        s@
    };
    assert(d =~= s@.subrange(start as int, s@.len() as int));
    if start == s.len() {
        return None;
    }
    match digits_number(s, start, s.len()) {
        Some(v) => {
            if v <= 4294967295u64 {
                Some(v as u32)
            } else {
                None
            }
        },
        None => None,
    }
}

/// Where the first `c` stands in `s[from..]`, or the length of `s`.
fn find_char(s: &Vec<char>, from: usize, c: char) -> (k: usize)
    requires
        from <= s@.len(),
    ensures
        from <= k <= s@.len(),
        k < s@.len() ==> s@[k as int] == c,
        forall|j: int| from <= j < k ==> s@[j] != c,
{
    let mut k: usize = from;
    while k < s.len() && s[k] != c
        invariant
            from <= k <= s@.len(),
            forall|j: int| from <= j < k ==> s@[j] != c,
        decreases s@.len() - k,
    {
        k = k + 1;
    }
    k
}

/// Reads a decimal number as `decimal_of` says.
#[verifier::rlimit(80)]
pub fn parse_decimal(s: &Vec<char>) -> (r: Option<Decimal>)
    ensures
        r == decimal_of(s@),
{
    let n = s.len();
    let signed = n > 0 && (s[0] == '-' || s[0] == '+');
    let neg = n > 0 && s[0] == '-';
    let start: usize = if signed { 1 } else { 0 };
    let body = crate::text::slice_chars(s, start, n);
    proof {
        if signed {
            assert(body@ =~= s@.drop_first());
        } else {
            assert(body@ =~= s@);
        }
    }
    let m = body.len();
    let k = find_char(&body, 0, '.');
    let frac_from: usize = if k < m { k + 1 } else { m };
    let k2 = find_char(&body, frac_from, '.');
    if k2 < m {
        proof {
            lemma_two_points(body@, k as int, k2 as int);
        }
        return None;
    }
    proof {
        lemma_one_point(body@, k as int);
    }
    let ghost ip = int_part(body@);
    let ghost fp = frac_part(body@);
    let frac_len = m - frac_from;
    if k + frac_len == 0 || k + frac_len > 18 {
        return None;
    }
    let mut digits = crate::text::slice_chars(&body, 0, k);
    let mut frac = crate::text::slice_chars(&body, frac_from, m);
    assert(frac@ == fp);
    digits.append(&mut frac);
    assert(digits@ == ip + fp);
    let len = digits.len();
    assert(digits@.subrange(0, len as int) =~= ip + fp);
    match digits_number(&digits, 0, len) {
        Some(v) => {
            proof {
                lemma_digits_split(ip, fp);
            }
            let units: i64 = if neg { -(v as i64) } else { v as i64 };
            Some(Decimal { units, scale: frac_len as u32 })
        },
        None => {
            proof {
                lemma_digits_split(ip, fp);
                if all_digits(ip) && all_digits(fp) {
                    lemma_digits_bound(ip + fp);
                    reveal_with_fuel(pow10, 19);
                    lemma_pow10_monotone((ip + fp).len(), 18);
                }
            }
            None
        },
    }
}

proof fn lemma_digits_split(a: Seq<char>, b: Seq<char>)
    ensures
        all_digits(a + b) <==> all_digits(a) && all_digits(b),
{
    if all_digits(a + b) {
        assert forall|i: int| 0 <= i < a.len() implies is_digit(#[trigger] a[i]) by {
            assert((a + b)[i] == a[i]);
        }
        assert forall|i: int| 0 <= i < b.len() implies is_digit(#[trigger] b[i]) by {
            assert((a + b)[a.len() + i] == b[i]);
        }
    }
    if all_digits(a) && all_digits(b) {
        assert forall|i: int| 0 <= i < (a + b).len() implies is_digit(#[trigger] (a + b)[i]) by {
            if i < a.len() {
                assert((a + b)[i] == a[i]);
            } else {
                assert((a + b)[i] == b[i - a.len()]);
            }
        }
    }
}

proof fn lemma_pow10_monotone(a: nat, b: nat)
    requires
        a <= b,
    ensures
        pow10(a) <= pow10(b),
    decreases b,
{
    if a < b {
        lemma_pow10_monotone(a, (b - 1) as nat);
    }
}

/// The decimal digits of `n`, as `digits_text` says.
pub fn digits_chars(n: u64) -> (r: Vec<char>)
    ensures
        r@ == digits_text(n as nat),
{
    let mut m: u64 = n / 10;
    let mut r: Vec<char> = Vec::new();
    r.push(((n % 10) as u8 + 48u8) as char);
    proof {
        assert(r@ == seq![digit_char((n % 10) as nat)]);
        if n >= 10 {
            assert(digits_text(n as nat) == digits_text((n / 10) as nat).push(digit_char((n % 10) as nat)));
            assert(digits_text((n / 10) as nat) + r@ =~= digits_text(n as nat));
        }
    }
    while m > 0
        invariant
            (if m == 0 {
                r@
            } else {
                digits_text(m as nat) + r@
            }) == digits_text(n as nat),
        decreases m,
    {
        let ghost before = r@;
        let d = ((m % 10) as u8 + 48u8) as char;
        r.insert(0, d);
        assert(r@ =~= seq![digit_char((m % 10) as nat)] + before);
        let next = m / 10;
        proof {
            if m < 10 {
                assert(digits_text(m as nat) == seq![digit_char(m as nat)]);
                assert(next == 0);
            } else {
                assert(digits_text(m as nat) == digits_text(next as nat).push(digit_char((m % 10) as nat)));
                assert(digits_text(next as nat) + r@ =~= digits_text(m as nat) + before);
            }
        }
        m = next;
    }
    r
}

/// `d` written out, as `decimal_text` says.
pub fn decimal_chars(d: Decimal) -> (r: Vec<char>)
    ensures
        r@ == decimal_text(d),
{
    let mag: u64 = if d.units < 0 { (-(d.units as i128)) as u64 } else { d.units as u64 };
    assert(mag as nat == abs(d.units as int));
    let ds = digits_chars(mag);
    assert(ds@.len() >= 1);
    let scale = d.scale as usize;
    let mut padded: Vec<char> = Vec::new();
    if ds.len() <= scale {
        let missing = scale - ds.len() + 1;
        let mut k: usize = 0;
        while k < missing
            invariant
                k <= missing,
                padded@ == zeros(k as nat),
            decreases missing - k,
        {
            padded.push('0');
            k = k + 1;
            assert(padded@ =~= zeros(k as nat));
        }
    }
    let mut i: usize = 0;
    let ghost pre = padded@;
    while i < ds.len()
        invariant
            i <= ds@.len(),
            padded@ == pre + ds@.take(i as int),
        decreases ds@.len() - i,
    {
        padded.push(ds[i]);
        i = i + 1;
        assert(padded@ =~= pre + ds@.take(i as int));
    }
    assert(ds@.take(ds@.len() as int) =~= ds@);
    proof {
        if ds@.len() >= d.scale + 1 {
            assert(pre =~= Seq::<char>::empty());
            assert(padded@ =~= ds@);
        }
    }
    let mut r: Vec<char> = Vec::new();
    if d.units < 0 {
        r.push('-');
    }
    let len = padded.len();
    assert(len >= scale + 1);
    let cut = len - scale;
    let mut j: usize = 0;
    let ghost sign = r@;
    while j < cut
        invariant
            j <= cut <= len == padded@.len(),
            r@ == sign + padded@.take(j as int),
        decreases cut - j,
    {
        r.push(padded[j]);
        j = j + 1;
        assert(r@ =~= sign + padded@.take(j as int));
    }
    if scale > 0 {
        r.push('.');
        let ghost mid = r@;
        while j < len
            invariant
                cut <= j <= len == padded@.len(),
                r@ == mid + padded@.subrange(cut as int, j as int),
            decreases len - j,
        {
            r.push(padded[j]);
            j = j + 1;
            assert(r@ =~= mid + padded@.subrange(cut as int, j as int));
        }
        assert(padded@.subrange(cut as int, len as int) =~= padded@.skip(cut as int));
    } else {
        assert(padded@.take(cut as int) =~= padded@);
    }
    r
}

proof fn lemma_digit_char(n: nat)
    requires
        n < 10,
    ensures
        is_digit(digit_char(n)),
        digit_value(digit_char(n)) == n,
        digit_char(n) != '.',
        digit_char(n) != '-',
        digit_char(n) != '+',
{
}

pub proof fn lemma_digits_text_digits(n: nat)
    ensures
        all_digits(digits_text(n)),
        digits_value(digits_text(n)) == n,
        digits_text(n).len() >= 1,
    decreases n,
{
    if n < 10 {
        lemma_digit_char(n);
        assert(digits_text(n).drop_last() =~= Seq::<char>::empty());
        assert(digits_value(Seq::<char>::empty()) == 0);
        assert(digits_value(digits_text(n)) == digits_value(digits_text(n).drop_last()) * 10 + digit_value(
            digits_text(n).last(),
        ));
    } else {
        lemma_digits_text_digits(n / 10);
        lemma_digit_char(n % 10);
        let t = digits_text(n);
        assert(t.drop_last() == digits_text(n / 10));
        assert forall|i: int| 0 <= i < t.len() implies is_digit(#[trigger] t[i]) by {
            if i < t.len() - 1 {
                assert(t[i] == digits_text(n / 10)[i]);
            }
        }
        assert(t.last() == digit_char(n % 10));
        assert(digits_value(t) == digits_value(t.drop_last()) * 10 + digit_value(t.last()));
        assert((n / 10) * 10 + n % 10 == n) by (nonlinear_arith);
    }
}

proof fn lemma_zeros_value(z: nat, s: Seq<char>)
    ensures
        digits_value(zeros(z) + s) == digits_value(s),
    decreases s.len(), z,
{
    if s.len() == 0 {
        assert(zeros(z) + s =~= zeros(z));
        if z > 0 {
            assert(zeros(z).drop_last() =~= zeros((z - 1) as nat));
            lemma_zeros_value((z - 1) as nat, Seq::empty());
            assert(zeros((z - 1) as nat) + Seq::<char>::empty() =~= zeros((z - 1) as nat));
        }
    } else {
        lemma_zeros_value(z, s.drop_last());
        assert((zeros(z) + s).drop_last() =~= zeros(z) + s.drop_last());
    }
}

proof fn lemma_no_point(s: Seq<char>)
    requires
        all_digits(s),
    ensures
        !s.contains('.'),
{
    if s.contains('.') {
        let k = s.index_of('.');
        assert(is_digit(s[k]));
    }
}

pub proof fn lemma_padded(d: Decimal)
    ensures
        all_digits(padded_digits(d)),
        digits_value(padded_digits(d)) == abs(d.units as int),
        padded_digits(d).len() >= d.scale + 1,
        padded_digits(d).len() >= 1,
        digits_text(abs(d.units as int)).len() <= 18 && d.scale + 1 <= 18 ==> padded_digits(d).len() <= 18,
{
    let ds = digits_text(abs(d.units as int));
    lemma_digits_text_digits(abs(d.units as int));
    let padded = padded_digits(d);
    if ds.len() < d.scale + 1 {
        let z = (d.scale + 1 - ds.len()) as nat;
        lemma_zeros_value(z, ds);
        assert forall|i: int| 0 <= i < padded.len() implies is_digit(#[trigger] padded[i]) by {
            if i >= z {
                assert(padded[i] == ds[i - z]);
            }
        }
    }
}

/// Writing a decimal number out and reading it back gives the number again,
/// where it has at most 18 digits, counting the zeros written before them.
#[verifier::rlimit(80)]
pub proof fn lemma_decimal_round_trip(d: Decimal)
    requires
        digits_text(abs(d.units as int)).len() <= 18,
        d.scale + 1 <= 18,
    ensures
        decimal_of(decimal_text(d)) == Some(d),
{
    lemma_padded(d);
    let padded = padded_digits(d);
    let s = decimal_text(d);
    let body = if d.units < 0 { s.drop_first() } else { s };
    let cut = padded.len() - d.scale;
    if d.units < 0 {
        assert(s[0] == '-');
    } else {
        assert(s[0] == padded[0]);
        assert(is_digit(padded[0]));
    }
    assert(s.len() > 0 && (s[0] == '-' || s[0] == '+') <==> d.units < 0);
    if d.scale == 0 {
        assert(body =~= padded);
        lemma_no_point(padded);
        assert(padded + Seq::<char>::empty() =~= padded);
        assert(int_part(body) == padded);
        assert(frac_part(body) == Seq::<char>::empty());
    } else {
        let ip = padded.take(cut);
        let fp = padded.skip(cut);
        assert(body =~= ip + seq!['.'] + fp);
        lemma_point_at(padded, cut, body);
        assert(ip + fp =~= padded);
        lemma_digits_split(ip, fp);
    }
}

proof fn lemma_point_at(padded: Seq<char>, cut: int, body: Seq<char>)
    requires
        all_digits(padded),
        0 <= cut <= padded.len(),
        body == padded.take(cut) + seq!['.'] + padded.skip(cut),
    ensures
        int_part(body) == padded.take(cut),
        frac_part(body) == padded.skip(cut),
{
    assert(body[cut] == '.');
    assert(body.contains('.'));
    let j = body.index_of('.');
    assert(body[j] == '.');
    if j < cut {
        assert(body[j] == padded[j]);
    } else if j > cut {
        assert(body[j] == padded[j - 1]);
    }
    assert(body.take(cut) =~= padded.take(cut));
    assert(body.skip(cut + 1) =~= padded.skip(cut));
}

/// Writing an unsigned integer out and reading it back gives it again.
pub proof fn lemma_u32_round_trip(n: u32)
    ensures
        u32_of(digits_text(n as nat)) == Some(n),
{
    lemma_digits_text_digits(n as nat);
    let t = digits_text(n as nat);
    assert(is_digit(t[0]));
}

} // verus!
