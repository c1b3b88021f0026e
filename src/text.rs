use vstd::prelude::*;

verus! {

/// Unicode `White_Space`, the set that `char::is_whitespace` tests.
pub open spec fn is_white(c: char) -> bool {
    let u = c as u32;
    ||| 9 <= u <= 13
    ||| u == 32
    ||| u == 0x85
    ||| u == 0xA0
    ||| u == 0x1680
    ||| 0x2000 <= u <= 0x200A
    ||| u == 0x2028
    ||| u == 0x2029
    ||| u == 0x202F
    ||| u == 0x205F
    ||| u == 0x3000
}

pub fn white(c: char) -> (r: bool)
    ensures
        r == is_white(c),
{
    let u = c as u32;
    (9 <= u && u <= 13) || u == 32 || u == 0x85 || u == 0xA0 || u == 0x1680 || (0x2000 <= u
        && u <= 0x200A) || u == 0x2028 || u == 0x2029 || u == 0x202F || u == 0x205F || u
        == 0x3000
}

/// `s` without its leading white space.
pub open spec fn trim_start(s: Seq<char>) -> Seq<char>
    decreases s.len(),
{
    if s.len() > 0 && is_white(s[0]) {
        trim_start(s.drop_first())
    } else {
        s
    }
}

/// `s` without its trailing white space.
pub open spec fn trim_end(s: Seq<char>) -> Seq<char>
    decreases s.len(),
{
    if s.len() > 0 && is_white(s.last()) {
        trim_end(s.drop_last())
    } else {
        s
    }
}

/// `s` without white space at either end.
pub open spec fn trim(s: Seq<char>) -> Seq<char> {
    trim_end(trim_start(s))
}

/// How many characters of `s` come before the first `c` (all of them if none is `c`).
pub open spec fn count_before(s: Seq<char>, c: char) -> nat
    decreases s.len(),
{
    if s.len() == 0 || s[0] == c {
        0
    } else {
        1 + count_before(s.drop_first(), c)
    }
}

/// The pieces of `s` between occurrences of `c`; there is always at least one.
pub open spec fn split(s: Seq<char>, c: char) -> Seq<Seq<char>>
    decreases s.len(),
{
    let k = count_before(s, c);
    if k >= s.len() {
        seq![s]
    } else {
        seq![s.take(k as int)] + split(s.skip(k + 1 as int), c)
    }
}

/// The lines of `s`: split after each line feed, with the line feed and a
/// carriage return just before it dropped; no line follows a final line feed.
pub open spec fn lines(s: Seq<char>) -> Seq<Seq<char>>
    decreases s.len(),
{
    if s.len() == 0 {
        seq![]
    } else {
        let k = count_before(s, '\n');
        if k >= s.len() {
            seq![s]
        } else {
            let line = if k > 0 && s[k - 1] == '\r' {
                s.take(k - 1)
            } else {
                s.take(k as int)
            };
            seq![line] + lines(s.skip(k + 1 as int))
        }
    }
}

pub proof fn lemma_count_before_bound(s: Seq<char>, c: char)
    ensures
        count_before(s, c) <= s.len(),
        count_before(s, c) < s.len() ==> s[count_before(s, c) as int] == c,
        forall|j: int| 0 <= j < count_before(s, c) ==> s[j] != c,
    decreases s.len(),
{
    if s.len() > 0 && s[0] != c {
        lemma_count_before_bound(s.drop_first(), c);
        assert forall|j: int| 1 <= j < count_before(s, c) implies s[j] != c by {
            assert(s[j] == s.drop_first()[j - 1]);
        }
    }
}

pub proof fn lemma_split_nonempty(s: Seq<char>, c: char)
    ensures
        split(s, c).len() >= 1,
        split(s, c).len() == 1 <==> count_before(s, c) == s.len(),
    decreases s.len(),
{
    lemma_count_before_bound(s, c);
    let k = count_before(s, c);
    if k < s.len() {
        lemma_split_nonempty(s.skip(k + 1 as int), c);
    }
}

pub proof fn lemma_split_first(s: Seq<char>, c: char)
    ensures
        split(s, c)[0] == s.take(count_before(s, c) as int),
        count_before(s, c) < s.len() ==> split(s, c).drop_first() == split(
            s.skip(count_before(s, c) + 1 as int),
            c,
        ),
        count_before(s, c) < s.len() ==> split(s, c).len() == 1 + split(
            s.skip(count_before(s, c) + 1 as int),
            c,
        ).len(),
        count_before(s, c) >= s.len() ==> split(s, c).len() == 1,
{
    lemma_count_before_bound(s, c);
    let k = count_before(s, c);
    if k < s.len() {
        let rest = split(s.skip(k + 1 as int), c);
        assert((seq![s.take(k as int)] + rest).drop_first() == rest);
    } else {
        assert(s.take(k as int) == s);
    }
}

/// The characters of `s`, for constant-time access.
pub fn chars_of(s: &str) -> (r: Vec<char>)
    ensures
        r@ == s@,
{
    let n = s.unicode_len();
    let mut r: Vec<char> = Vec::new();
    let mut i: usize = 0;
    while i < n
        invariant
            n == s@.len(),
            i <= n,
            r@ == s@.take(i as int),
        decreases n - i,
    {
        r.push(s.get_char(i));
        i = i + 1;
        assert(r@ == s@.take(i as int));
    }
    assert(r@ == s@);
    r
}

/// The string of characters `from..to` of `s`.
pub fn substring(s: &str, from: usize, to: usize) -> (r: String)
    requires
        from <= to <= s@.len(),
    ensures
        r@ == s@.subrange(from as int, to as int),
{
    String::from_str(s.substring_char(from, to))
}

/// Position of the first `c` in `cs[from..to]`, or `to` when there is none.
pub fn find_char(cs: &Vec<char>, c: char, from: usize, to: usize) -> (r: usize)
    requires
        from <= to <= cs@.len(),
    ensures
        from <= r <= to,
        r - from == count_before(cs@.subrange(from as int, to as int), c),
{
    let mut i = from;
    while i < to && cs[i] != c
        invariant
            from <= i <= to <= cs@.len(),
            count_before(cs@.subrange(from as int, to as int), c) == (i - from) + count_before(
                cs@.subrange(i as int, to as int),
                c,
            ),
        decreases to - i,
    {
        assert(cs@.subrange(i as int, to as int).drop_first() == cs@.subrange(i + 1, to as int));
        i = i + 1;
    }
    i
}

/// The first line of `cs[pos..n]`: it spans `pos..r.0`, and the lines after
/// it are those of `cs[r.1..n]`.
pub fn next_line(cs: &Vec<char>, pos: usize, n: usize) -> (r: (usize, usize))
    requires
        pos < n == cs@.len(),
    ensures
        pos <= r.0 <= n,
        pos < r.1 <= n,
        lines(cs@.subrange(pos as int, n as int)) == seq![cs@.subrange(pos as int, r.0 as int)]
            + lines(cs@.subrange(r.1 as int, n as int)),
{
    let ghost t = cs@.subrange(pos as int, n as int);
    let e = find_char(cs, '\n', pos, n);
    let mut le = e;
    if e < n && e > pos && cs[e - 1] == '\r' {
        le = e - 1;
    }
    let ghost line = cs@.subrange(pos as int, le as int);
    proof {
        lemma_count_before_bound(t, '\n');
        if e < n {
            assert(t.skip(e - pos + 1) == cs@.subrange(e + 1, n as int));
            if e > pos && cs@[e - 1] == '\r' {
                assert(t.take(e - pos - 1) == line);
            } else {
                assert(t.take(e - pos) == line);
            }
        } else {
            assert(t == line);
            assert(lines(cs@.subrange(n as int, n as int)) == Seq::<Seq<char>>::empty());
            assert(seq![line] + Seq::<Seq<char>>::empty() == seq![line]);
        }
    }
    if e < n {
        (le, e + 1)
    } else {
        (le, n)
    }
}

/// Bounds of `cs[from..to]` with white space trimmed from both ends.
pub fn trim_range(cs: &Vec<char>, from: usize, to: usize) -> (r: (usize, usize))
    requires
        from <= to <= cs@.len(),
    ensures
        from <= r.0 <= r.1 <= to,
        cs@.subrange(r.0 as int, r.1 as int) == trim(cs@.subrange(from as int, to as int)),
{
    let mut i = from;
    while i < to && white(cs[i])
        invariant
            from <= i <= to <= cs@.len(),
            trim_start(cs@.subrange(from as int, to as int)) == trim_start(
                cs@.subrange(i as int, to as int),
            ),
        decreases to - i,
    {
        assert(cs@.subrange(i as int, to as int).drop_first() == cs@.subrange(i + 1, to as int));
        i = i + 1;
    }
    let mut j = to;
    while j > i && white(cs[j - 1])
        invariant
            from <= i <= j <= to <= cs@.len(),
            trim(cs@.subrange(from as int, to as int)) == trim_end(
                cs@.subrange(i as int, j as int),
            ),
        decreases j - i,
    {
        assert(cs@.subrange(i as int, j as int).drop_last() == cs@.subrange(i as int, j - 1));
        j = j - 1;
    }
    (i, j)
}

/// Whether `s` spells a decimal number: optionally `+`, then one or more ASCII digits.
pub open spec fn digits_of(s: Seq<char>) -> Seq<char> {
    if s.len() > 0 && s[0] == '+' {
        s.drop_first()
    } else {
        s
    }
}

pub open spec fn all_digits(s: Seq<char>) -> bool {
    forall|i: int| 0 <= i < s.len() ==> '0' <= #[trigger] s[i] <= '9'
}

/// The value of a string of ASCII digits.
pub open spec fn decimal_value(s: Seq<char>) -> nat
    decreases s.len(),
{
    if s.len() == 0 {
        0
    } else {
        10 * decimal_value(s.drop_last()) + ((s.last() as u32) - ('0' as u32)) as nat
    }
}

/// What `str::parse` gives for an unsigned integer type whose largest value is `max`.
pub open spec fn parse_unsigned(s: Seq<char>, max: nat) -> Option<nat> {
    let d = digits_of(s);
    if d.len() > 0 && all_digits(d) && decimal_value(d) <= max {
        Some(decimal_value(d))
    } else {
        None
    }
}

proof fn lemma_decimal_monotone(s: Seq<char>, k: int)
    requires
        0 <= k <= s.len(),
        all_digits(s),
    ensures
        decimal_value(s.take(k)) <= decimal_value(s),
    decreases s.len() - k,
{
    if k < s.len() {
        lemma_decimal_monotone(s, k + 1);
        assert(s.take(k + 1).drop_last() == s.take(k));
        assert(s.take(k + 1).last() == s[k]);
        assert('0' <= s[k]);
        assert(decimal_value(s.take(k + 1)) == 10 * decimal_value(s.take(k)) + ((s[k] as u32)
            - ('0' as u32)) as nat);
    } else {
        assert(s.take(k) == s);
    }
}

/// Parses `cs[from..to]` as an unsigned decimal number no greater than `max`.
pub fn parse_decimal(cs: &Vec<char>, from: usize, to: usize, max: u64) -> (r: Option<u64>)
    requires
        from <= to <= cs@.len(),
    ensures
        r matches Some(v) ==> parse_unsigned(cs@.subrange(from as int, to as int), max as nat)
            == Some(v as nat),
        r is None ==> parse_unsigned(cs@.subrange(from as int, to as int), max as nat) is None,
{
    let ghost s = cs@.subrange(from as int, to as int);
    let mut start = from;
    if from < to && cs[from] == '+' {
        start = from + 1;
    }
    let ghost d = cs@.subrange(start as int, to as int);
    assert(d == digits_of(s));
    if start == to {
        return None;
    }
    let mut v: u64 = 0;
    let mut i = start;
    while i < to
        invariant
            start <= i <= to <= cs@.len(),
            d == cs@.subrange(start as int, to as int),
            s == cs@.subrange(from as int, to as int),
            d == digits_of(s),
            d.len() > 0,
            all_digits(d.take(i - start)),
            v as nat == decimal_value(d.take(i - start)),
            v <= max,
        decreases to - i,
    {
        let c = cs[i];
        if c < '0' || c > '9' {
            assert(d[i - start] == c);
            assert(!all_digits(d));
            return None;
        }
        let digit = (c as u32 - '0' as u32) as u64;
        assert(d.take(i + 1 - start).drop_last() == d.take(i - start));
        if digit > max || v > (max - digit) / 10 {
            proof {
                let m = max as int;
                let g = digit as int;
                let w = v as int;
                assert(w * 10 + g > m) by (nonlinear_arith)
                    requires
                        g > m || w > (m - g) / 10,
                        0 <= g,
                        0 <= w,
                ;
                assert(d.take(i + 1 - start).last() == c);
                assert(decimal_value(d.take(i + 1 - start)) == 10 * decimal_value(
                    d.take(i - start),
                ) + digit);
                assert(all_digits(d.take(i + 1 - start)));
                if all_digits(d) {
                    lemma_decimal_monotone(d, i + 1 - start);
                }
            }
            return None;
        }
        proof {
            let m = max as int;
            let g = digit as int;
            let w = v as int;
            assert(w * 10 + g <= m) by (nonlinear_arith)
                requires
                    g <= m,
                    w <= (m - g) / 10,
            ;
            assert(d.take(i + 1 - start).last() == c);
        }
        v = v * 10 + digit;
        i = i + 1;
    }
    assert(d.take(to - start) == d);
    Some(v)
}

/// Parses `s` as an unsigned decimal number no greater than `max`, as
/// `str::parse` does for an unsigned integer type whose largest value is `max`.
pub fn parse_number(s: &str, max: u64) -> (r: Option<u64>)
    ensures
        r matches Some(v) ==> parse_unsigned(s@, max as nat) == Some(v as nat),
        r is None ==> parse_unsigned(s@, max as nat) is None,
{
    let cs = chars_of(s);
    assert(cs@.subrange(0, cs@.len() as int) == s@);
    parse_decimal(&cs, 0, cs.len(), max)
}

} // verus!
