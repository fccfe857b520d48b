//! Human readable numbers: digit grouping, byte sizes and counted nouns.

use vstd::prelude::*;
use vstd::arithmetic::power2::{pow2, lemma_pow2_unfold, lemma_pow2_adds};
use vstd::arithmetic::div_mod::lemma_fundamental_div_mod;
use crate::text::{decimal, digit, digit_char, push_char, push_decimal, push_str, lemma_decimal_digits};

verus! {

/// Digits grouped in threes from the right, separated by commas.
pub open spec fn grouped(ds: Seq<char>) -> Seq<char>
    decreases ds.len(),
{
    if ds.len() <= 3 {
        ds
    } else {
        grouped(ds.take(ds.len() - 3)) + seq![','] + ds.skip(ds.len() - 3)
    }
}

/// `n` in decimal with a comma between every group of three digits.
pub open spec fn thousands_spec(n: nat) -> Seq<char> {
    grouped(decimal(n))
}

fn push_grouped(out: &mut String, ds: &Vec<char>, end: usize)
    requires
        end <= ds@.len(),
    ensures
        final(out)@ == old(out)@ + grouped(ds@.take(end as int)),
    decreases end,
{
    let ghost start = out@;
    let ghost part = ds@.take(end as int);
    let first: usize = if end <= 3 {
        0
    } else {
        push_grouped(out, ds, end - 3);
        push_char(out, ',');
        end - 3
    };
    let ghost mid = out@;
    let mut i = first;
    while i < end
        invariant
            first <= i <= end,
            end <= ds@.len(),
            out@ == mid + ds@.subrange(first as int, i as int),
        decreases end - i,
    {
        assert(ds@.subrange(first as int, i + 1) =~= ds@.subrange(first as int, i as int).push(
            ds@[i as int],
        ));
        push_char(out, ds[i]);
        i = i + 1;
    }
    if end <= 3 {
        assert(ds@.subrange(0, end as int) =~= part);
    } else {
        assert(part.take(part.len() - 3) =~= ds@.take(end - 3));
        assert(part.skip(part.len() - 3) =~= ds@.subrange(end - 3, end as int));
        assert(out@ =~= start + grouped(part));
    }
}

/// Group `12345` as `12,345`.
pub fn thousands(n: u64) -> (res: String)
    ensures
        res@ == thousands_spec(n as nat),
{
    let mut digits = String::new();
    push_decimal(&mut digits, n);
    let ds = crate::text::chars_of(digits.as_str());
    let mut out = String::new();
    push_grouped(&mut out, &ds, ds.len());
    assert(ds@.take(ds@.len() as int) =~= ds@);
    assert(out@ =~= thousands_spec(n as nat));
    out
}

pub open spec fn not_comma(c: char) -> bool {
    c != ','
}

proof fn lemma_grouped_strips(ds: Seq<char>)
    requires
        forall|i: int| 0 <= i < ds.len() ==> #[trigger] ds[i] != ',',
    ensures
        grouped(ds).filter(|c: char| not_comma(c)) == ds,
    decreases ds.len(),
{
    broadcast use Seq::filter_distributes_over_add;

    if ds.len() <= 3 {
        lemma_filter_keeps_all(ds);
    } else {
        let head = ds.take(ds.len() - 3);
        let tail = ds.skip(ds.len() - 3);
        lemma_grouped_strips(head);
        lemma_filter_keeps_all(tail);
        reveal_with_fuel(Seq::filter, 2);
        assert(seq![','].filter(|c: char| not_comma(c)) =~= Seq::<char>::empty());
        assert(head + tail =~= ds);
    }
}

proof fn lemma_filter_keeps_all(s: Seq<char>)
    requires
        forall|i: int| 0 <= i < s.len() ==> #[trigger] s[i] != ',',
    ensures
        s.filter(|c: char| not_comma(c)) == s,
    decreases s.len(),
{
    reveal(Seq::filter);
    if s.len() > 0 {
        lemma_filter_keeps_all(s.drop_last());
        assert(s.drop_last().push(s.last()) =~= s);
    }
}

/// Removing the separators from a grouped number gives back its plain digits.
pub proof fn lemma_thousands_without_commas(n: nat)
    ensures
        thousands_spec(n).filter(|c: char| not_comma(c)) == decimal(n),
{
    lemma_decimal_digits(n);
    lemma_grouped_strips(decimal(n));
}

proof fn lemma_grouped_len(ds: Seq<char>)
    ensures
        grouped(ds).len() >= ds.len(),
    decreases ds.len(),
{
    if ds.len() > 3 {
        lemma_grouped_len(ds.take(ds.len() - 3));
    }
}

/// A grouped number has at least one character.
pub proof fn lemma_thousands_len(n: nat)
    ensures
        thousands_spec(n).len() >= 1,
{
    lemma_decimal_digits(n);
    lemma_grouped_len(decimal(n));
}

/// Where the commas of a grouped run of digits fall: after a first group of
/// one to three digits, before every further group of exactly three.
proof fn lemma_grouped_shape(ds: Seq<char>)
    requires
        ds.len() >= 1,
        forall|i: int| 0 <= i < ds.len() ==> #[trigger] ds[i] != ',',
    ensures
        grouped(ds).len() == ds.len() + (ds.len() - 1) / 3,
        forall|i: int|
            0 <= i < grouped(ds).len() ==> (#[trigger] grouped(ds)[i] == ',' <==> (i >= (ds.len()
                - 1) % 3 + 1 && (i - ((ds.len() - 1) % 3 + 1)) % 4 == 0)),
    decreases ds.len(),
{
    let len = ds.len() as int;
    if len > 3 {
        let head = ds.take(len - 3);
        let tail = ds.skip(len - 3);
        lemma_grouped_shape(head);
        let g = grouped(head);
        let f = (len - 1) % 3 + 1;
        let m = (len - 1) / 3;
        assert(len - 1 == 3 * m + (len - 1) % 3);
        assert((len - 4) % 3 == (len - 1) % 3 && (len - 4) / 3 == m - 1);
        assert(g.len() == f + 4 * (m - 1));
        let whole = grouped(ds);
        assert(whole == g + seq![','] + tail);
        assert forall|i: int| 0 <= i < whole.len() implies (#[trigger] whole[i] == ',' <==> (i
            >= f && (i - f) % 4 == 0)) by {
            if i < g.len() {
                assert(whole[i] == g[i]);
            } else if i == g.len() {
                assert((4 * (m - 1)) % 4 == 0) by (nonlinear_arith)
                    requires
                        m >= 1,
                ;
            } else {
                let k = i - g.len() - 1;
                assert(whole[i] == tail[k]);
                assert(tail[k] == ds[len - 3 + k]);
                assert((4 * (m - 1) + 1 + k) % 4 == 1 + k) by (nonlinear_arith)
                    requires
                        m >= 1,
                        0 <= k < 3,
                ;
            }
        }
    }
}

/// The shape of a grouped number: as long as its digits plus one comma per
/// full group of three after the first group; the first group has one to three
/// digits and every comma is followed by exactly three digits.
pub proof fn lemma_thousands_groups(n: nat)
    ensures
        ({
            let d = decimal(n).len();
            let t = thousands_spec(n);
            &&& t.len() == d + (d - 1) / 3
            &&& forall|i: int|
                0 <= i < t.len() ==> (#[trigger] t[i] == ',' <==> (i >= (d - 1) % 3 + 1 && (i - ((d
                    - 1) % 3 + 1)) % 4 == 0))
        }),
{
    lemma_decimal_digits(n);
    lemma_grouped_shape(decimal(n));
}

/// `1 file`, `3,349 files`.
pub fn plural(n: usize, word: &str) -> (res: String)
    ensures
        res@ == thousands_spec(n as nat) + seq![' '] + word@ + (if n == 1 {
            Seq::<char>::empty()
        } else {
            seq!['s']
        }),
{
    let mut out = thousands(n as u64);
    push_char(&mut out, ' ');
    push_str(&mut out, word);
    if n != 1 {
        push_char(&mut out, 's');
    }
    out
}

/// How many times `n` must be halved before it fits in 53 bits.
pub open spec fn halvings_to_fit(n: nat) -> nat
    decreases n,
{
    if n < 0x20_0000_0000_0000 {
        0
    } else {
        1 + halvings_to_fit(n / 2)
    }
}

/// The value an `f64` holds after converting the integer `n` to it: `n`
/// rounded to 53 significant bits, ties to even.
pub open spec fn f64_of(n: nat) -> nat {
    let s = halvings_to_fit(n);
    if s == 0 {
        n
    } else {
        let q = n / pow2(s);
        let r = n % pow2(s);
        let half = pow2((s - 1) as nat);
        let up = r > half || (r == half && q % 2 == 1);
        (if up { q + 1 } else { q }) * pow2(s)
    }
}

/// `1024` to the power `u`.
pub open spec fn kib_pow(u: nat) -> nat {
    pow2(10 * u)
}

/// The unit index that `human_bytes` settles on for an `f64` value `m >= 1024`.
pub open spec fn unit_for(m: nat) -> nat {
    if m >= kib_pow(4) {
        4
    } else if m >= kib_pow(3) {
        3
    } else if m >= kib_pow(2) {
        2
    } else {
        1
    }
}

/// `m / d` in tenths, rounded to nearest with ties to the even tenth.
pub open spec fn tenths(m: nat, d: nat) -> nat {
    let q = (10 * m) / d;
    let r = (10 * m) % d;
    if 2 * r > d || (2 * r == d && q % 2 == 1) {
        q + 1
    } else {
        q
    }
}

pub open spec fn unit_name(u: nat) -> Seq<char> {
    if u == 1 {
        seq!['K', 'i', 'B']
    } else if u == 2 {
        seq!['M', 'i', 'B']
    } else if u == 3 {
        seq!['G', 'i', 'B']
    } else {
        seq!['T', 'i', 'B']
    }
}

/// Byte counts as `1023 B`, `1.4 KiB`: the size divided by the largest power of
/// 1024 (up to TiB) that fits, printed with one decimal.
pub open spec fn human_bytes_spec(n: nat) -> Seq<char> {
    if n < 1024 {
        decimal(n) + seq![' ', 'B']
    } else {
        let m = f64_of(n);
        let u = unit_for(m);
        let t = tenths(m, kib_pow(u));
        decimal(t / 10) + seq!['.'] + seq![digit_char(t % 10)] + seq![' '] + unit_name(u)
    }
}

/// Rounds `n` to the value an `f64` conversion gives, as an exact integer.
fn f64_value(n: u64) -> (m: u128)
    ensures
        m == f64_of(n as nat),
        m <= 2 * (n as nat),
{
    if n < 0x20_0000_0000_0000u64 {
        return n as u128;
    }
    let nn: u128 = n as u128;
    let mut s: u64 = 0;
    let mut p: u128 = 1;
    assert(pow2(0) == 1) by {
        vstd::arithmetic::power2::lemma2_to64();
    }
    while nn / p >= 0x20_0000_0000_0000u128
        invariant
            p == pow2(s as nat),
            p >= 1,
            p <= nn,
            s <= p,
            nn == n,
            n >= 0x20_0000_0000_0000u64,
            halvings_to_fit(n as nat) == s + halvings_to_fit((nn / p) as nat),
        decreases nn / p,
    {
        proof {
            lemma_pow2_unfold((s + 1) as nat);
            vstd::arithmetic::div_mod::lemma_div_denominator(nn as int, p as int, 2);
            assert((nn / p) / 2 < nn / p);
            assert(p * 2 <= nn) by (nonlinear_arith)
                requires
                    nn / p >= 2,
                    p >= 1,
            {
                lemma_fundamental_div_mod(nn as int, p as int);
            }
        }
        s = s + 1;
        p = p * 2;
    }
    assert(halvings_to_fit((nn / p) as nat) == 0);
    let q = nn / p;
    let r = nn % p;
    proof {
        lemma_fundamental_div_mod(nn as int, p as int);
        if s == 0 {
            assert(nn / 1 == nn);
        }
        lemma_pow2_unfold(s as nat);
    }
    let half = p / 2;
    let up = r > half || (r == half && q % 2 == 1);
    let q2 = if up { q + 1 } else { q };
    proof {
        assert(q2 * p <= nn + p) by (nonlinear_arith)
            requires
                q2 <= q + 1,
                nn == p * q + r,
                r >= 0,
                p >= 1,
        {
        }
    }
    q2 * p
}

/// Byte counts as `1.4 KiB`, keeping whole bytes exact.
pub fn human_bytes(n: u64) -> (res: String)
    ensures
        res@ == human_bytes_spec(n as nat),
{
    let mut out = String::new();
    if n < 1024 {
        push_decimal(&mut out, n);
        push_char(&mut out, ' ');
        push_char(&mut out, 'B');
        return out;
    }
    let m = f64_value(n);
    proof {
        vstd::arithmetic::power2::lemma2_to64();
        vstd::arithmetic::power2::lemma2_to64_rest();
        lemma_pow2_adds(10, 10);
        lemma_pow2_adds(20, 10);
        lemma_pow2_adds(30, 10);
    }
    assert(kib_pow(1) == 1024 && kib_pow(2) == 0x10_0000 && kib_pow(3) == 0x4000_0000
        && kib_pow(4) == 0x100_0000_0000) by {
        assert(kib_pow(1) == pow2(10));
        assert(kib_pow(2) == pow2(20));
        assert(kib_pow(3) == pow2(30));
        assert(kib_pow(4) == pow2(40));
    }
    let (unit, d): (u64, u128) = if m >= 0x100_0000_0000u128 {
        (4, 0x100_0000_0000u128)
    } else if m >= 0x4000_0000u128 {
        (3, 0x4000_0000u128)
    } else if m >= 0x10_0000u128 {
        (2, 0x10_0000u128)
    } else {
        (1, 1024u128)
    };
    assert(unit == unit_for(m as nat) && d == kib_pow(unit as nat));
    let q = (10 * m) / d;
    let r = (10 * m) % d;
    let t = if 2 * r > d || (2 * r == d && q % 2 == 1) {
        q + 1
    } else {
        q
    };
    assert(t == tenths(m as nat, d as nat));
    proof {
        lemma_fundamental_div_mod((10 * m) as int, d as int);
        assert(q * 1024 <= 10 * m) by (nonlinear_arith)
            requires
                10 * m == d * q + r,
                r >= 0,
                d >= 1024,
                q >= 0,
        {
        }
    }
    assert(t / 10 <= u64::MAX);
    push_decimal(&mut out, (t / 10) as u64);
    push_char(&mut out, '.');
    push_char(&mut out, digit((t % 10) as u64));
    push_char(&mut out, ' ');
    if unit == 1 {
        push_char(&mut out, 'K');
    } else if unit == 2 {
        push_char(&mut out, 'M');
    } else if unit == 3 {
        push_char(&mut out, 'G');
    } else {
        push_char(&mut out, 'T');
    }
    push_char(&mut out, 'i');
    push_char(&mut out, 'B');
    assert(out@ =~= human_bytes_spec(n as nat));
    out
}

} // verus!
