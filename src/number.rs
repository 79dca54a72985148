use vstd::prelude::*;

verus! {

/// The decimal digit `n` (for `n` below ten).
pub open spec fn digit_char(n: int) -> char {
    if n == 0 { '0' }
    else if n == 1 { '1' }
    else if n == 2 { '2' }
    else if n == 3 { '3' }
    else if n == 4 { '4' }
    else if n == 5 { '5' }
    else if n == 6 { '6' }
    else if n == 7 { '7' }
    else if n == 8 { '8' }
    else { '9' }
}

pub open spec fn is_digit(c: char) -> bool {
    48 <= (c as int) <= 57
}

pub open spec fn digit_value(c: char) -> int {
    (c as int) - 48
}

pub proof fn lemma_digit_char(n: int)
    requires
        0 <= n < 10,
    ensures
        is_digit(digit_char(n)),
        digit_value(digit_char(n)) == n,
{
}

/// The decimal digits of `n`, most significant first, without leading zeros.
pub open spec fn digits(n: nat) -> Seq<char>
    decreases n,
{
    if n < 10 {
        seq![digit_char(n as int)]
    } else {
        digits(n / 10).push(digit_char((n % 10) as int))
    }
}

pub open spec fn all_digits(s: Seq<char>) -> bool {
    forall|i: int| 0 <= i < s.len() ==> is_digit(s[i])
}

/// The number a string of decimal digits denotes.
pub open spec fn digits_value(s: Seq<char>) -> int
    decreases s.len(),
{
    if s.len() == 0 {
        0
    } else {
        digits_value(s.drop_last()) * 10 + digit_value(s.last())
    }
}

pub open spec fn abs(x: int) -> int {
    if x < 0 { -x } else { x }
}

/// Amounts and share ratios are decimals held in billionths: a stored value
/// `v` stands for `v / 1_000_000_000`.
pub const UNIT: u64 = 1_000_000_000;

pub open spec fn pow10(n: nat) -> int
    decreases n,
{
    if n == 0 { 1 } else { 10 * pow10((n - 1) as nat) }
}

/// The `k` lowest decimal digits of `f`, zero-padded, most significant first.
pub open spec fn padded_digits(f: nat, k: nat) -> Seq<char>
    decreases k,
{
    if k == 0 {
        Seq::empty()
    } else {
        padded_digits(f / 10, (k - 1) as nat).push(digit_char((f % 10) as int))
    }
}

/// `s` without its trailing zeros.
pub open spec fn trim_zeros(s: Seq<char>) -> Seq<char>
    decreases s.len(),
{
    if s.len() > 0 && s.last() == '0' {
        trim_zeros(s.drop_last())
    } else {
        s
    }
}

/// How a value in billionths is written, in its shortest form: an optional
/// minus sign, the integer part, and, unless the fraction is zero, a point and
/// the fraction without trailing zeros (`4.5`, `1000`, `-0.125`).
pub open spec fn fixed_text(v: int) -> Seq<char> {
    let m = abs(v);
    let f = m % (UNIT as int);
    (if v < 0 { seq!['-'] } else { Seq::empty() }) + digits((m / (UNIT as int)) as nat) + if f == 0 {
        Seq::empty()
    } else {
        seq!['.'] + trim_zeros(padded_digits(f as nat, 9))
    }
}

/// The first nine digits of a fraction, padded with zeros: the fraction in
/// billionths. Further digits are dropped.
pub open spec fn fraction_units(f: Seq<char>) -> int {
    digits_value(Seq::new(9, |i: int| if i < f.len() { f[i] } else { '0' }))
}

/// `s[k]` is a point between two runs of digits.
pub open spec fn is_point_split(s: Seq<char>, k: int) -> bool {
    &&& 0 <= k < s.len()
    &&& s[k] == '.'
    &&& all_digits(s.subrange(0, k))
    &&& all_digits(s.subrange(k + 1, s.len() as int))
}

/// An unsigned decimal read in billionths: digits, or digits around a point
/// with at least one digit in all (`5`, `5.`, `.5`, `0.333`).
#[verifier::opaque]
pub open spec fn unsigned_fixed(s: Seq<char>) -> Option<int> {
    if s.len() > 0 && all_digits(s) {
        Some(digits_value(s) * (UNIT as int))
    } else if s.len() >= 2 && exists|k: int| is_point_split(s, k) {
        let k = choose|k: int| is_point_split(s, k);
        Some(digits_value(s.subrange(0, k)) * (UNIT as int) + fraction_units(s.subrange(k + 1, s.len() as int)))
    } else {
        None
    }
}

/// A decimal with an optional sign, read in billionths; `None` when the text
/// is no such number or the value does not fit in an `i64`.
pub open spec fn fixed_value(s: Seq<char>) -> Option<int> {
    let signed = s.len() > 0 && (s[0] == '-' || s[0] == '+');
    let body = if signed { s.drop_first() } else { s };
    match unsigned_fixed(body) {
        Some(u) => {
            let v = if s.len() > 0 && s[0] == '-' { -u } else { u };
            if i64::MIN <= v <= i64::MAX { Some(v) } else { None }
        },
        None => None,
    }
}

/// A character that the text of a number can hold.
pub open spec fn number_char(c: char) -> bool {
    is_digit(c) || c == '-' || c == '.'
}

pub proof fn lemma_digits(n: nat)
    ensures
        digits(n).len() > 0,
        all_digits(digits(n)),
        digits_value(digits(n)) == n,
    decreases n,
{
    if n < 10 {
        lemma_digit_char(n as int);
        let c = digit_char(n as int);
        assert(digits(n) == seq![c]);
        assert(seq![c].drop_last() =~= Seq::<char>::empty());
        assert(digits_value(seq![c]) == digits_value(Seq::<char>::empty()) * 10 + digit_value(c));
    } else {
        lemma_digits(n / 10);
        lemma_digit_char((n % 10) as int);
        let d = digits(n / 10);
        let c = digit_char((n % 10) as int);
        assert(digits(n) == d.push(c));
        assert(d.push(c).drop_last() =~= d);
        assert(d.push(c).last() == c);
        assert(digits_value(d.push(c)) == digits_value(d) * 10 + digit_value(c));
        assert(n == (n / 10) * 10 + n % 10);
    }
}

proof fn lemma_pow10_nine()
    ensures
        pow10(9) == 1_000_000_000,
{
    reveal_with_fuel(pow10, 10);
}

proof fn lemma_pow10_bound(i: nat)
    requires
        i <= 9,
    ensures
        1 <= pow10(i) <= 1_000_000_000,
        i < 9 ==> pow10(i) <= 100_000_000,
    decreases 9 - i,
{
    if i < 9 {
        lemma_pow10_bound(i + 1);
        assert(pow10(i + 1) == 10 * pow10(i));
    } else {
        lemma_pow10_nine();
    }
}

pub proof fn lemma_digits_value_nonneg(s: Seq<char>)
    requires
        all_digits(s),
    ensures
        digits_value(s) >= 0,
    decreases s.len(),
{
    if s.len() > 0 {
        assert(all_digits(s.drop_last())) by {
            assert forall|i: int| 0 <= i < s.drop_last().len() implies is_digit(s.drop_last()[i]) by {
                assert(s.drop_last()[i] == s[i]);
            }
        }
        lemma_digits_value_nonneg(s.drop_last());
        assert(is_digit(s[s.len() - 1]));
    }
}

proof fn lemma_fraction_units_nonneg(f: Seq<char>)
    requires
        all_digits(f),
    ensures
        fraction_units(f) >= 0,
{
    let p = Seq::new(9, |i: int| if i < f.len() { f[i] } else { '0' });
    assert(all_digits(p));
    lemma_digits_value_nonneg(p);
}

pub proof fn lemma_padded(f: nat, k: nat)
    ensures
        padded_digits(f, k).len() == k,
        all_digits(padded_digits(f, k)),
        f < pow10(k) ==> digits_value(padded_digits(f, k)) == f,
    decreases k,
{
    if k > 0 {
        lemma_padded(f / 10, (k - 1) as nat);
        lemma_digit_char((f % 10) as int);
        let d = padded_digits(f / 10, (k - 1) as nat);
        let c = digit_char((f % 10) as int);
        assert(padded_digits(f, k) == d.push(c));
        assert(d.push(c).drop_last() =~= d);
        assert(d.push(c).last() == c);
        assert(digits_value(d.push(c)) == digits_value(d) * 10 + digit_value(c));
        assert(f == (f / 10) * 10 + f % 10);
        assert(f < pow10(k) ==> f / 10 < pow10((k - 1) as nat));
    } else {
        assert(padded_digits(f, k) =~= Seq::<char>::empty());
    }
}

proof fn lemma_trim_zeros(s: Seq<char>)
    ensures
        trim_zeros(s).len() <= s.len(),
        trim_zeros(s) == s.subrange(0, trim_zeros(s).len() as int),
        forall|i: int| trim_zeros(s).len() <= i < s.len() ==> s[i] == '0',
    decreases s.len(),
{
    if s.len() > 0 && s.last() == '0' {
        lemma_trim_zeros(s.drop_last());
        let t = trim_zeros(s.drop_last());
        assert(t == s.subrange(0, t.len() as int));
        assert forall|i: int| t.len() <= i < s.len() implies s[i] == '0' by {
            if i < s.len() - 1 {
                assert(s.drop_last()[i] == s[i]);
            }
        }
    } else {
        assert(s.subrange(0, s.len() as int) =~= s);
    }
}

proof fn lemma_point_split_unique(s: Seq<char>, k: int, j: int)
    requires
        is_point_split(s, k),
        is_point_split(s, j),
    ensures
        k == j,
{
    assert(!is_digit('.'));
    if j < k {
        assert(s.subrange(0, k)[j] == s[j]);
    } else if k < j {
        assert(s.subrange(0, j)[k] == s[k]);
    }
}

/// Every character of a written number is a digit, a minus sign or a point.
pub proof fn lemma_fixed_text_chars(v: int)
    ensures
        fixed_text(v).len() > 0,
        forall|i: int| 0 <= i < fixed_text(v).len() ==> number_char(#[trigger] fixed_text(v)[i]),
{
    let m = abs(v);
    let f = m % (UNIT as int);
    let ds = digits((m / (UNIT as int)) as nat);
    lemma_digits((m / (UNIT as int)) as nat);
    let t = fixed_text(v);
    let sign: Seq<char> = if v < 0 { seq!['-'] } else { Seq::empty() };
    let tail: Seq<char> = if f == 0 { Seq::empty() } else { seq!['.'] + trim_zeros(padded_digits(f as nat, 9)) };
    assert(t == sign + ds + tail);
    if f != 0 {
        let p = padded_digits(f as nat, 9);
        lemma_padded(f as nat, 9);
        lemma_trim_zeros(p);
        assert forall|i: int| 0 <= i < tail.len() implies number_char(tail[i]) by {
            if i > 0 {
                assert(tail[i] == p[i - 1]);
            }
        }
    }
    assert forall|i: int| 0 <= i < t.len() implies number_char(#[trigger] t[i]) by {
        if i < sign.len() {
        } else if i < sign.len() + ds.len() {
            assert(t[i] == ds[i - sign.len()]);
        } else {
            assert(t[i] == tail[i - sign.len() - ds.len()]);
        }
    }
}

/// Reading back the text of a value gives the value.
pub proof fn lemma_fixed_round_trip(v: i64)
    ensures
        fixed_value(fixed_text(v as int)) == Some(v as int),
{
    reveal(unsigned_fixed);
    let m = abs(v as int);
    let u = UNIT as int;
    let q = m / u;
    let f = m % u;
    assert(m == q * u + f && 0 <= f < u) by (nonlinear_arith)
        requires
            m >= 0,
            u == 1_000_000_000,
            q == m / u,
            f == m % u,
    ;
    lemma_digits(q as nat);
    let ds = digits(q as nat);
    let body = fixed_text(v as int).subrange(if v < 0 { 1int } else { 0int }, fixed_text(v as int).len() as int);
    assert(!is_digit('.'));
    if f == 0 {
        assert(body =~= ds);
        assert(unsigned_fixed(body) == Some(m));
    } else {
        let p = padded_digits(f as nat, 9);
        lemma_padded(f as nat, 9);
        lemma_pow10_nine();
        lemma_trim_zeros(p);
        let tz = trim_zeros(p);
        assert(body =~= ds + seq!['.'] + tz);
        let k = ds.len() as int;
        assert(body.subrange(0, k) =~= ds);
        assert(body.subrange(k + 1, body.len() as int) =~= tz);
        assert(all_digits(tz)) by {
            assert forall|i: int| 0 <= i < tz.len() implies is_digit(tz[i]) by {
                assert(tz[i] == p[i]);
            }
        }
        assert(is_point_split(body, k));
        assert(!all_digits(body)) by {
            assert(!is_digit(body[k]));
        }
        let j = choose|j: int| is_point_split(body, j);
        lemma_point_split_unique(body, k, j);
        assert(Seq::new(9, |i: int| if i < tz.len() { tz[i] } else { '0' }) =~= p);
        assert(unsigned_fixed(body) == Some(m));
    }
    let t = fixed_text(v as int);
    if v < 0 {
        assert(t.drop_first() =~= body);
    } else {
        assert(body =~= t);
        assert(is_digit(t[0])) by {
            assert(t[0] == ds[0]);
        }
    }
}

fn digit_str(n: u64) -> (r: &'static str)
    requires
        n < 10,
    ensures
        r@ == seq![digit_char(n as int)],
{
    proof {
        reveal_strlit("0");
        reveal_strlit("1");
        reveal_strlit("2");
        reveal_strlit("3");
        reveal_strlit("4");
        reveal_strlit("5");
        reveal_strlit("6");
        reveal_strlit("7");
        reveal_strlit("8");
        reveal_strlit("9");
    }
    let r = if n == 0 { "0" }
    else if n == 1 { "1" }
    else if n == 2 { "2" }
    else if n == 3 { "3" }
    else if n == 4 { "4" }
    else if n == 5 { "5" }
    else if n == 6 { "6" }
    else if n == 7 { "7" }
    else if n == 8 { "8" }
    else { "9" };
    assert(r@ =~= seq![digit_char(n as int)]);
    r
}

fn push_digits(out: &mut String, n: u128)
    ensures
        final(out)@ == old(out)@ + digits(n as nat),
    decreases n,
{
    if n >= 10 {
        push_digits(out, n / 10);
    }
    out.append(digit_str((n % 10) as u64));
    assert(n < 10 ==> (n % 10) == n);
    assert(final(out)@ =~= old(out)@ + digits(n as nat));
}

fn push_padded(out: &mut String, f: u64, k: u64)
    ensures
        final(out)@ == old(out)@ + padded_digits(f as nat, k as nat),
    decreases k,
{
    if k > 0 {
        push_padded(out, f / 10, k - 1);
        out.append(digit_str(f % 10));
    }
    assert(final(out)@ =~= old(out)@ + padded_digits(f as nat, k as nat));
}

/// Writes a value in billionths as decimal text in its shortest form, e.g.
/// `-12.5` or `1000`.
pub fn fixed_to_text(v: i64) -> (r: String)
    ensures
        r@ == fixed_text(v as int),
{
    amount_to_text(v as i128)
}

/// Writes a sum of values in billionths as decimal text in its shortest form.
pub fn amount_to_text(v: i128) -> (r: String)
    ensures
        r@ == fixed_text(v as int),
{
    let m: u128 = if v < 0 { (-(v + 1)) as u128 + 1 } else { v as u128 };
    let mut out = String::new();
    if v < 0 {
        out.append("-");
        proof {
            reveal_strlit("-");
        }
    }
    push_digits(&mut out, m / (UNIT as u128));
    let f0 = (m % (UNIT as u128)) as u64;
    if f0 != 0 {
        out.append(".");
        proof {
            reveal_strlit(".");
        }
        let mut f = f0;
        let mut k: u64 = 9;
        proof {
            lemma_pow10_nine();
        }
        while f % 10 == 0
            invariant
                f != 0,
                k <= 9,
                (f as int) < pow10(k as nat),
                trim_zeros(padded_digits(f0 as nat, 9)) == trim_zeros(padded_digits(f as nat, k as nat)),
            decreases k,
        {
            assert(k > 0) by {
                if k == 0 {
                    assert(pow10(0) == 1);
                }
            }
            let ghost p = padded_digits(f as nat, k as nat);
            assert(p.last() == '0');
            assert(p.drop_last() == padded_digits((f / 10) as nat, (k - 1) as nat));
            assert((f as int) < 10 * pow10((k - 1) as nat));
            f = f / 10;
            k = k - 1;
        }
        assert(padded_digits(f as nat, k as nat).len() == k) by {
            lemma_padded(f as nat, k as nat);
        }
        assert(k > 0) by {
            if k == 0 {
                assert(pow10(0) == 1);
            }
        }
        assert(padded_digits(f as nat, k as nat).last() != '0') by {
            lemma_digit_char((f % 10) as int);
        }
        push_padded(&mut out, f, k);
    }
    assert(out@ =~= fixed_text(v as int));
    out
}

/// Where the run of digits starting at `from` ends, and its value when that is
/// at most `10^10`.
fn digit_run(s: &str, from: usize) -> (r: (usize, Option<u64>))
    requires
        from <= s@.len(),
    ensures
        from <= r.0 <= s@.len(),
        all_digits(s@.subrange(from as int, r.0 as int)),
        r.0 == s@.len() || !is_digit(s@[r.0 as int]),
        match r.1 {
            Some(v) => v == digits_value(s@.subrange(from as int, r.0 as int)) && v <= 10_000_000_000,
            None => digits_value(s@.subrange(from as int, r.0 as int)) > 10_000_000_000,
        },
{
    let n = s.unicode_len();
    let mut acc: u64 = 0;
    let mut big = false;
    let mut i: usize = from;
    while i < n
        invariant
            n == s@.len(),
            from <= i <= n,
            all_digits(s@.subrange(from as int, i as int)),
            !big ==> acc == digits_value(s@.subrange(from as int, i as int)) && acc <= 10_000_000_000,
            big ==> digits_value(s@.subrange(from as int, i as int)) > 10_000_000_000,
            digits_value(s@.subrange(from as int, i as int)) >= 0,
        ensures
            from <= i <= n,
            all_digits(s@.subrange(from as int, i as int)),
            !big ==> acc == digits_value(s@.subrange(from as int, i as int)) && acc <= 10_000_000_000,
            big ==> digits_value(s@.subrange(from as int, i as int)) > 10_000_000_000,
            i == n || !is_digit(s@[i as int]),
        decreases n - i,
    {
        let c = s.get_char(i);
        if !((c as u32) >= 48 && (c as u32) <= 57) {
            break;
        }
        assert(s@.subrange(from as int, i + 1).drop_last() =~= s@.subrange(from as int, i as int));
        if !big {
            let next = acc * 10 + (c as u32 - 48) as u64;
            if next > 10_000_000_000 {
                big = true;
            } else {
                acc = next;
            }
        }
        i = i + 1;
    }
    (i, if big { None } else { Some(acc) })
}

/// The fraction digits `s[from..]` in billionths: the first nine, padded
/// with zeros.
fn fraction_run(s: &str, from: usize) -> (r: u64)
    requires
        from <= s@.len(),
        all_digits(s@.subrange(from as int, s@.len() as int)),
    ensures
        r == fraction_units(s@.subrange(from as int, s@.len() as int)),
        r < 1_000_000_000,
{
    let n = s.unicode_len();
    let ghost f = s@.subrange(from as int, n as int);
    let ghost p = Seq::new(9, |i: int| if i < f.len() { f[i] } else { '0' });
    let mut acc: u64 = 0;
    let mut i: usize = 0;
    while i < 9
        invariant
            n == s@.len(),
            from <= n,
            f == s@.subrange(from as int, n as int),
            all_digits(f),
            p == Seq::new(9, |i: int| if i < f.len() { f[i] } else { '0' }),
            i <= 9,
            acc == digits_value(p.subrange(0, i as int)),
            (acc as int) < pow10(i as nat),
        decreases 9 - i,
    {
        proof {
            lemma_pow10_bound(i as nat);
            assert(pow10((i + 1) as nat) == 10 * pow10(i as nat));
        }
        let d: u64 = if i < n - from {
            let c = s.get_char(from + i);
            assert(c == f[i as int]);
            assert(is_digit(c));
            (c as u32 - 48) as u64
        } else {
            0
        };
        assert(p.subrange(0, i + 1).drop_last() =~= p.subrange(0, i as int));
        assert(digit_value(p[i as int]) == d);
        acc = acc * 10 + d;
        i = i + 1;
    }
    assert(p.subrange(0, 9) =~= p);
    proof {
        lemma_pow10_nine();
    }
    acc
}

/// Reads decimal text with an optional sign as a value in billionths:
/// digits, or digits around a point (`5`, `5.`, `.5`, `-0.333`); fraction
/// digits after the ninth are dropped.
pub fn parse_fixed(s: &str) -> (r: Option<i64>)
    ensures
        match r {
            Some(v) => fixed_value(s@) == Some(v as int),
            None => fixed_value(s@) is None,
        },
{
    reveal(unsigned_fixed);
    let n = s.unicode_len();
    let mut start: usize = 0;
    let mut neg = false;
    if n > 0 {
        let c = s.get_char(0);
        if c == '-' {
            neg = true;
            start = 1;
        } else if c == '+' {
            start = 1;
        }
    }
    let ghost body = s@.subrange(start as int, n as int);
    assert(start == 1 ==> body =~= s@.drop_first());
    assert(start == 0 ==> body =~= s@);
    assert(!is_digit('.'));
    let (k, int_value) = digit_run(s, start);
    let ghost kb = k - start;
    assert(body.subrange(0, kb as int) =~= s@.subrange(start as int, k as int));
    let iv = match int_value {
        Some(x) => x,
        None => {
            proof {
                if k == n {
                    assert(body =~= s@.subrange(start as int, k as int));
                } else {
                    assert(body[kb as int] == s@[k as int]);
                }
                if k != n && exists|j: int| is_point_split(body, j) {
                    let j = choose|j: int| is_point_split(body, j);
                    lemma_fraction_units_nonneg(body.subrange(j + 1, body.len() as int));
                    if j != kb {
                        if j < kb {
                            assert(body.subrange(0, kb as int)[j] == body[j]);
                        } else {
                            assert(body.subrange(0, j)[kb as int] == body[kb as int]);
                        }
                    }
                }
            }
            return None;
        },
    };
    let mut units: u64 = 0;
    if k == n {
        assert(body =~= s@.subrange(start as int, k as int));
        if k == start {
            return None;
        }
    } else {
        if s.get_char(k) != '.' {
            proof {
                assert(!all_digits(body)) by {
                    assert(body[kb as int] == s@[k as int]);
                }
                if exists|j: int| is_point_split(body, j) {
                    let j = choose|j: int| is_point_split(body, j);
                    if j < kb {
                        assert(body.subrange(0, kb as int)[j] == body[j]);
                    } else if j > kb {
                        assert(body.subrange(0, j)[kb as int] == body[kb as int]);
                    }
                }
            }
            return None;
        }
        let (e, _) = digit_run(s, k + 1);
        assert(body[kb as int] == '.');
        assert(!all_digits(body)) by {
            assert(!is_digit(body[kb as int]));
        }
        if e != n {
            proof {
                if exists|j: int| is_point_split(body, j) {
                    let j = choose|j: int| is_point_split(body, j);
                    if j < kb {
                        assert(body.subrange(0, kb as int)[j] == body[j]);
                    } else if j > kb {
                        assert(body.subrange(0, j)[kb as int] == body[kb as int]);
                    } else {
                        assert(body.subrange(kb + 1, body.len() as int)[e - k - 1] == s@[e as int]);
                    }
                }
            }
            return None;
        }
        assert(body.subrange(kb + 1, body.len() as int) =~= s@.subrange(k + 1, n as int));
        if n - start < 2 {
            return None;
        }
        assert(is_point_split(body, kb as int));
        let ghost j = choose|j: int| is_point_split(body, j);
        proof {
            lemma_point_split_unique(body, kb as int, j);
        }
        units = fraction_run(s, k + 1);
    }
    let m: u64 = iv * UNIT + units;
    let v: i128 = if neg { -(m as i128) } else { m as i128 };
    if v < i64::MIN as i128 || v > i64::MAX as i128 {
        return None;
    }
    Some(v as i64)
}

} // verus!
