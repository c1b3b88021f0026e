use vstd::prelude::*;

verus! {

/// The ASCII digit for `d` (0 to 9).
pub open spec fn digit_char(d: nat) -> char {
    ((d + 48) as u32) as char
}

/// The decimal text of `n`, without leading zeros.
pub open spec fn decimal_text(n: nat) -> Seq<char>
    decreases n,
{
    if n < 10 {
        seq![digit_char(n)]
    } else {
        decimal_text(n / 10).push(digit_char(n % 10))
    }
}

/// The text of one digit.
fn digit_str(d: u64) -> (r: &'static str)
    requires
        d < 10,
    ensures
        r@ == seq![digit_char(d as nat)],
{
    proof {
        reveal_strlit("0");
        reveal_strlit("1");
        reveal_strlit("2");
        reveal_strlit("3");
        reveal_strlit("4");
        reveal_strlit("5");
        reveal_strlit("6");
        reveal_strlit("7");
        reveal_strlit("8");
        reveal_strlit("9");
    }
    if d == 0 {
        "0"
    } else if d == 1 {
        "1"
    } else if d == 2 {
        "2"
    } else if d == 3 {
        "3"
    } else if d == 4 {
        "4"
    } else if d == 5 {
        "5"
    } else if d == 6 {
        "6"
    } else if d == 7 {
        "7"
    } else if d == 8 {
        "8"
    } else {
        "9"
    }
}

/// Appends the decimal text of `n` to `out`.
pub fn push_decimal(out: &mut String, n: u64)
    ensures
        final(out)@ == old(out)@ + decimal_text(n as nat),
    decreases n,
{
    if n < 10 {
        out.append(digit_str(n));
    } else {
        push_decimal(out, n / 10);
        out.append(digit_str(n % 10));
    }
}

/// The decimal text of `n`.
pub fn decimal_string(n: u64) -> (r: String)
    ensures
        r@ == decimal_text(n as nat),
{
    let mut s = String::new();
    push_decimal(&mut s, n);
    assert(Seq::<char>::empty() + decimal_text(n as nat) == decimal_text(n as nat));
    s
}

/// `1024` to the power `i`.
pub open spec fn pow1024(i: nat) -> nat
    decreases i,
{
    if i == 0 {
        1
    } else {
        1024 * pow1024((i - 1) as nat)
    }
}

/// Names of the size units, each 1024 times the one before.
pub open spec fn unit_name(i: nat) -> Seq<char> {
    if i == 0 {
        seq!['B']
    } else if i == 1 {
        seq!['K', 'B']
    } else if i == 2 {
        seq!['M', 'B']
    } else if i == 3 {
        seq!['G', 'B']
    } else if i == 4 {
        seq!['T', 'B']
    } else if i == 5 {
        seq!['P', 'B']
    } else if i == 6 {
        seq!['E', 'B']
    } else if i == 7 {
        seq!['Z', 'B']
    } else {
        seq!['Y', 'B']
    }
}

/// The unit a size of `u` bytes is shown in: the largest whose size is at
/// most `u`, and bytes for sizes under one kilobyte.
pub open spec fn unit_of(u: nat, i: nat) -> bool {
    &&& i <= 8
    &&& (i == 0 || pow1024(i) <= u)
    &&& (i == 8 || u < pow1024(i + 1))
}

/// `n / d` rounded to the nearest whole number, ties to the even one.
pub open spec fn div_round_even(n: nat, d: nat) -> nat {
    let q = n / d;
    let r = n % d;
    if 2 * r > d || (2 * r == d && q % 2 == 1) {
        q + 1
    } else {
        q
    }
}

/// The text `fmt_size` gives for a size in hundredths of unit `i`.
pub open spec fn size_text(hundredths: nat, i: nat) -> Seq<char> {
    decimal_text(hundredths / 100) + seq!['.', digit_char((hundredths % 100) / 10), digit_char(
        hundredths % 10,
    )] + seq![' '] + unit_name(i)
}

fn unit_str(i: usize) -> (r: &'static str)
    requires
        i <= 8,
    ensures
        r@ == unit_name(i as nat),
{
    proof {
        reveal_strlit("B");
        reveal_strlit("KB");
        reveal_strlit("MB");
        reveal_strlit("GB");
        reveal_strlit("TB");
        reveal_strlit("PB");
        reveal_strlit("EB");
        reveal_strlit("ZB");
        reveal_strlit("YB");
    }
    if i == 0 {
        "B"
    } else if i == 1 {
        "KB"
    } else if i == 2 {
        "MB"
    } else if i == 3 {
        "GB"
    } else if i == 4 {
        "TB"
    } else if i == 5 {
        "PB"
    } else if i == 6 {
        "EB"
    } else if i == 7 {
        "ZB"
    } else {
        "YB"
    }
}

/// The unit `u` bytes are shown in, with its size in bytes.
fn size_unit(u: usize) -> (r: (usize, u128))
    ensures
        unit_of(u as nat, r.0 as nat),
        r.1 == pow1024(r.0 as nat),
        r.1 >= 1,
        r.0 == 0 || r.1 <= u,
        r.1 == 1 ==> u < 1024,
        r.1 == 1 || r.1 >= 1024,
{
    let mut i: usize = 0;
    let mut p: u128 = 1;
    while i < 8 && (u as u128) >= p * 1024
        invariant
            i <= 8,
            p == pow1024(i as nat),
            p >= 1,
            i == 0 || p <= u,
            p <= 0xFFFF_FFFF_FFFF_FFFF,
        decreases 8 - i,
    {
        assert(pow1024((i + 1) as nat) == 1024 * pow1024(i as nat));
        p = p * 1024;
        i = i + 1;
    }
    assert(pow1024((i + 1) as nat) == 1024 * pow1024(i as nat));
    assert(pow1024(1) == 1024) by {
        assert(pow1024(0) == 1);
    }
    proof {
        if i > 0 {
            assert(pow1024(i as nat) == 1024 * pow1024((i - 1) as nat));
            lemma_pow1024_positive((i - 1) as nat);
        }
    }
    (i, p)
}

/// `100 * u / p` rounded to the nearest whole number, ties to even.
fn round_hundredths(u: usize, p: u128) -> (r: u64)
    requires
        p >= 1,
        p == 1 || p >= 1024,
        p <= 0xFFFF_FFFF_FFFF_FFFF,
        p == 1 ==> u < 1024,
    ensures
        r == div_round_even(100 * u as nat, p as nat),
{
    let n: u128 = 100 * (u as u128);
    let q = n / p;
    let rem = n % p;
    if p == 1 {
        assert(q == n && rem == 0);
    } else {
        assert(q <= n / 1024) by (nonlinear_arith)
            requires
                q == n / p,
                p >= 1024,
        ;
    }
    assert(rem < p);
    if 2 * rem > p || (2 * rem == p && q % 2 == 1) {
        (q + 1) as u64
    } else {
        q as u64
    }
}

/// A byte count for people: in the largest unit of 1024 it reaches, with
/// two decimals, rounded to the nearest hundredth (ties to even), e.g. `1.50 KB`.
pub fn fmt_size(u: usize) -> (r: String)
    ensures
        exists|i: nat|
            unit_of(u as nat, i) && r@ == size_text(div_round_even(100 * u as nat, pow1024(i)), i),
{
    let (i, p) = size_unit(u);
    let hundredths = round_hundredths(u, p);
    let mut s = String::new();
    push_decimal(&mut s, hundredths / 100);
    s.append(".");
    s.append(digit_str((hundredths % 100) / 10));
    s.append(digit_str(hundredths % 10));
    s.append(" ");
    s.append(unit_str(i));
    proof {
        reveal_strlit(".");
        reveal_strlit(" ");
        assert(s@ == size_text(hundredths as nat, i as nat));
    }
    s
}

proof fn lemma_pow1024_positive(i: nat)
    ensures
        pow1024(i) >= 1,
    decreases i,
{
    if i > 0 {
        lemma_pow1024_positive((i - 1) as nat);
    }
}

} // verus!
