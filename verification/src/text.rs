//! Character-level building blocks: whitespace tokenisation of a record line,
//! parsing of unsigned integers in decimal and hexadecimal, and rendering of
//! unsigned integers back to digit strings.

use vstd::prelude::*;
use vstd::string::StrSliceExecFns;
use vstd::string::StringExecFns;

verus! {

/// ASCII whitespace, the field separator of the memory-map record format.
pub open spec fn is_ws(c: char) -> bool {
    c == ' ' || c == '\t' || c == '\n' || c == '\r' || c == '\u{c}'
}

/// The suffix of `s` that remains after discarding leading whitespace.
pub open spec fn skip_ws(s: Seq<char>) -> Seq<char>
    decreases s.len(),
{
    if s.len() > 0 && is_ws(s[0]) {
        skip_ws(s.drop_first())
    } else {
        s
    }
}

/// The maximal whitespace-free prefix of `s`.
pub open spec fn take_tok(s: Seq<char>) -> Seq<char>
    decreases s.len(),
{
    if s.len() > 0 && !is_ws(s[0]) {
        seq![s[0]] + take_tok(s.drop_first())
    } else {
        Seq::empty()
    }
}

/// The suffix of `s` that remains after its maximal whitespace-free prefix.
pub open spec fn after_tok(s: Seq<char>) -> Seq<char>
    decreases s.len(),
{
    if s.len() > 0 && !is_ws(s[0]) {
        after_tok(s.drop_first())
    } else {
        s
    }
}

/// The characters of `line`, as an indexable vector.
pub fn chars_of(line: &str) -> (v: Vec<char>)
    ensures
        v@ == line@,
{
    let n = line.unicode_len();
    let mut v: Vec<char> = Vec::new();
    let mut i: usize = 0;
    while i < n
        invariant
            i <= n,
            n == line@.len(),
            v@ == line@.subrange(0, i as int),
        decreases n - i,
    {
        v.push(line.get_char(i));
        i = i + 1;
        proof {
            assert(v@ =~= line@.subrange(0, i as int));
        }
    }
    proof {
        assert(v@ =~= line@);
    }
    v
}

fn is_ws_char(c: char) -> (r: bool)
    ensures
        r == is_ws(c),
{
    c == ' ' || c == '\t' || c == '\n' || c == '\r' || c == '\u{c}'
}

/// Index of the first non-whitespace character of `v` at or after `i`
/// (or the length of `v` if there is none).
pub fn scan_ws(v: &Vec<char>, i: usize) -> (j: usize)
    requires
        i <= v@.len(),
    ensures
        i <= j <= v@.len(),
        v@.skip(j as int) == skip_ws(v@.skip(i as int)),
        j < v@.len() ==> !is_ws(v@[j as int]),
{
    let n = v.len();
    let mut j = i;
    while j < n && is_ws_char(v[j])
        invariant
            i <= j <= n,
            n == v@.len(),
            skip_ws(v@.skip(j as int)) == skip_ws(v@.skip(i as int)),
        decreases n - j,
    {
        proof {
            assert(v@.skip(j as int).drop_first() =~= v@.skip(j + 1));
        }
        j = j + 1;
    }
    proof {
        assert(skip_ws(v@.skip(j as int)) == v@.skip(j as int));
    }
    j
}

/// Index just past the token that starts at `j` (the first whitespace
/// character at or after `j`, or the length of `v` if there is none).
pub fn scan_tok(v: &Vec<char>, j: usize) -> (e: usize)
    requires
        j <= v@.len(),
    ensures
        j <= e <= v@.len(),
        v@.subrange(j as int, e as int) == take_tok(v@.skip(j as int)),
        v@.skip(e as int) == after_tok(v@.skip(j as int)),
        e < v@.len() ==> is_ws(v@[e as int]),
{
    let n = v.len();
    let mut e = j;
    while e < n && !is_ws_char(v[e])
        invariant
            j <= e <= n,
            n == v@.len(),
            take_tok(v@.skip(j as int)) == v@.subrange(j as int, e as int) + take_tok(
                v@.skip(e as int),
            ),
            after_tok(v@.skip(j as int)) == after_tok(v@.skip(e as int)),
        decreases n - e,
    {
        proof {
            assert(v@.skip(e as int).drop_first() =~= v@.skip(e + 1));
            assert(v@.subrange(j as int, e as int) + seq![v@[e as int]] =~= v@.subrange(
                j as int,
                e + 1,
            ));
            assert(v@.subrange(j as int, e as int) + (seq![v@[e as int]] + take_tok(
                v@.skip(e + 1),
            )) =~= v@.subrange(j as int, e + 1) + take_tok(v@.skip(e + 1)));
        }
        e = e + 1;
    }
    proof {
        assert(take_tok(v@.skip(e as int)) == Seq::<char>::empty());
        assert(after_tok(v@.skip(e as int)) == v@.skip(e as int));
        assert(v@.subrange(j as int, e as int) + Seq::<char>::empty() =~= v@.subrange(
            j as int,
            e as int,
        ));
    }
    e
}

/// First index of `c` in `v[a..b]`, if any, tied to `Seq::index_of_first`
/// on the corresponding subrange.
pub fn find_first(v: &Vec<char>, a: usize, b: usize, c: char) -> (r: Option<usize>)
    requires
        a <= b <= v@.len(),
    ensures
        match r {
            Some(k) => a <= k < b && v@.subrange(a as int, b as int).index_of_first(c) == Some(
                k - a,
            ),
            None => v@.subrange(a as int, b as int).index_of_first(c) is None,
        },
{
    let ghost t = v@.subrange(a as int, b as int);
    let mut k = a;
    while k < b
        invariant
            a <= k <= b <= v@.len(),
            t == v@.subrange(a as int, b as int),
            forall|m: int| a <= m < k ==> v@[m] != c,
        decreases b - k,
    {
        if v[k] == c {
            proof {
                assert(t[k - a] == c);
                assert(t.contains(c));
                t.index_of_first_ensures(c);
                let idx = t.index_of_first(c)->Some_0;
                if idx < k - a {
                    assert(v@[a + idx] != c);
                    assert(t[idx] == v@[a + idx]);
                }
                if idx > k - a {
                    assert(t[k - a] != c);
                }
            }
            return Some(k);
        }
        k = k + 1;
    }
    proof {
        if t.contains(c) {
            let w = choose|i: int| 0 <= i < t.len() && t[i] == c;
            assert(v@[a + w] == t[w]);
        }
        t.index_of_first_ensures(c);
    }
    None
}

/// Last index of `c` in `v[a..b]`, if any, tied to `Seq::index_of_last`
/// on the corresponding subrange.
pub fn find_last(v: &Vec<char>, a: usize, b: usize, c: char) -> (r: Option<usize>)
    requires
        a <= b <= v@.len(),
    ensures
        match r {
            Some(k) => a <= k < b && v@.subrange(a as int, b as int).index_of_last(c) == Some(
                k - a,
            ),
            None => v@.subrange(a as int, b as int).index_of_last(c) is None,
        },
{
    let ghost t = v@.subrange(a as int, b as int);
    let mut k = b;
    while k > a
        invariant
            a <= k <= b <= v@.len(),
            t == v@.subrange(a as int, b as int),
            forall|m: int| k <= m < b ==> v@[m] != c,
        decreases k - a,
    {
        k = k - 1;
        if v[k] == c {
            proof {
                assert(t[k - a] == c);
                assert(t.contains(c));
                t.index_of_last_ensures(c);
                let idx = t.index_of_last(c)->Some_0;
                if idx > k - a {
                    assert(v@[a + idx] != c);
                    assert(t[idx] == v@[a + idx]);
                }
                if idx < k - a {
                    assert(t[k - a] != c);
                }
            }
            return Some(k);
        }
    }
    proof {
        if t.contains(c) {
            let w = choose|i: int| 0 <= i < t.len() && t[i] == c;
            assert(v@[a + w] == t[w]);
        }
        t.index_of_last_ensures(c);
    }
    None
}

/// Decimal digit.
pub open spec fn is_dec_digit(c: char) -> bool {
    '0' <= c && c <= '9'
}

/// Hexadecimal digit, either case.
pub open spec fn is_hex_digit(c: char) -> bool {
    ('0' <= c && c <= '9') || ('a' <= c && c <= 'f') || ('A' <= c && c <= 'F')
}

/// Whether `c` is a digit of the given base (10 or 16).
pub open spec fn digit_ok(c: char, base: nat) -> bool {
    if base == 16 {
        is_hex_digit(c)
    } else {
        is_dec_digit(c)
    }
}

/// Numeric value of a digit character.
pub open spec fn digit_val(c: char) -> nat {
    if '0' <= c && c <= '9' {
        ((c as int) - ('0' as int)) as nat
    } else if 'a' <= c && c <= 'f' {
        ((c as int) - ('a' as int) + 10) as nat
    } else {
        ((c as int) - ('A' as int) + 10) as nat
    }
}

/// Value of a digit string read most-significant first.
pub open spec fn digits_value(s: Seq<char>, base: nat) -> nat
    decreases s.len(),
{
    if s.len() == 0 {
        0
    } else {
        digits_value(s.drop_last(), base) * base + digit_val(s.last())
    }
}

/// Whether every character of `s` is a digit of the given base.
pub open spec fn all_digits(s: Seq<char>, base: nat) -> bool {
    forall|i: int| 0 <= i < s.len() ==> digit_ok(s[i], base)
}

/// What `u64::from_str_radix` accepts for base 10 or 16: an optional leading
/// `+`, then one or more digits, denoting a value that fits in 64 bits.
pub open spec fn parse_uint_spec(s: Seq<char>, base: nat) -> Option<u64> {
    let d = if s.len() > 0 && s[0] == '+' {
        s.drop_first()
    } else {
        s
    };
    if d.len() > 0 && all_digits(d, base) && digits_value(d, base) <= u64::MAX {
        Some(digits_value(d, base) as u64)
    } else {
        None
    }
}

proof fn lemma_digits_value_grows(s: Seq<char>, k: int, base: nat)
    requires
        0 <= k <= s.len(),
        base >= 2,
    ensures
        digits_value(s, base) >= digits_value(s.take(k), base),
    decreases s.len() - k,
{
    if k == s.len() {
        assert(s.take(k) =~= s);
    } else {
        assert(s.take(k + 1).drop_last() =~= s.take(k));
        assert(digits_value(s.take(k + 1), base) == digits_value(s.take(k), base) * base
            + digit_val(s[k]));
        assert(digits_value(s.take(k), base) * base >= digits_value(s.take(k), base))
            by (nonlinear_arith)
            requires
                base >= 2,
        ;
        lemma_digits_value_grows(s, k + 1, base);
    }
}

fn digit_of(c: char, base: u64) -> (r: Option<u64>)
    requires
        base == 10 || base == 16,
    ensures
        match r {
            Some(d) => digit_ok(c, base as nat) && d == digit_val(c) && d < base,
            None => !digit_ok(c, base as nat),
        },
{
    if '0' <= c && c <= '9' {
        Some(c as u64 - '0' as u64)
    } else if base == 16 && 'a' <= c && c <= 'f' {
        Some(c as u64 - 'a' as u64 + 10)
    } else if base == 16 && 'A' <= c && c <= 'F' {
        Some(c as u64 - 'A' as u64 + 10)
    } else {
        None
    }
}

/// Parses `v[a..b]` as an unsigned integer of the given base, exactly as
/// `u64::from_str_radix` would (optional leading `+`, no other signs,
/// failure on any other character, on emptiness and on 64-bit overflow).
pub fn parse_uint(v: &Vec<char>, a: usize, b: usize, base: u64) -> (r: Option<u64>)
    requires
        a <= b <= v@.len(),
        base == 10 || base == 16,
    ensures
        r == parse_uint_spec(v@.subrange(a as int, b as int), base as nat),
{
    let ghost s = v@.subrange(a as int, b as int);
    let mut i = a;
    if i < b && v[i] == '+' {
        i = i + 1;
    }
    let ghost d = if s.len() > 0 && s[0] == '+' {
        s.drop_first()
    } else {
        s
    };
    proof {
        assert(d =~= v@.subrange(i as int, b as int));
    }
    if i == b {
        return None;
    }
    let mut acc: u64 = 0;
    let mut k = i;
    while k < b
        invariant
            i <= k <= b <= v@.len(),
            base == 10 || base == 16,
            s == v@.subrange(a as int, b as int),
            d == (if s.len() > 0 && s[0] == '+' {
                s.drop_first()
            } else {
                s
            }),
            d == v@.subrange(i as int, b as int),
            acc == digits_value(d.take(k - i), base as nat),
            forall|m: int| 0 <= m < k - i ==> digit_ok(d[m], base as nat),
        decreases b - k,
    {
        let c = v[k];
        proof {
            assert(d[k - i] == c);
        }
        match digit_of(c, base) {
            None => {
                proof {
                    assert(!digit_ok(d[k - i], base as nat));
                    assert(!all_digits(d, base as nat));
                }
                return None;
            },
            Some(dv) => {
                match acc.checked_mul(base) {
                    None => {
                        proof {
                            overflow_none(d, k - i, dv as nat, base as nat, acc as nat);
                        }
                        return None;
                    },
                    Some(shifted) => {
                        match shifted.checked_add(dv) {
                            None => {
                                proof {
                                    overflow_none(d, k - i, dv as nat, base as nat, acc as nat);
                                }
                                return None;
                            },
                            Some(next) => {
                                proof {
                                    assert(d.take(k - i + 1).drop_last() =~= d.take(k - i));
                                }
                                acc = next;
                            },
                        }
                    },
                }
            },
        }
        k = k + 1;
    }
    proof {
        assert(d.take(b - i) =~= d);
    }
    Some(acc)
}

proof fn overflow_none(d: Seq<char>, k: int, dv: nat, base: nat, acc: nat)
    requires
        0 <= k < d.len(),
        base >= 2,
        dv == digit_val(d[k]),
        acc == digits_value(d.take(k), base),
        acc * base + dv > u64::MAX,
    ensures
        digits_value(d, base) > u64::MAX,
{
    assert(d.take(k + 1).drop_last() =~= d.take(k));
    assert(digits_value(d.take(k + 1), base) == acc * base + dv);
    lemma_digits_value_grows(d, k + 1, base);
}

/// The canonical digit character for a value below 16 (lowercase).
pub open spec fn digit_char(d: nat) -> char {
    if d == 0 {
        '0'
    } else if d == 1 {
        '1'
    } else if d == 2 {
        '2'
    } else if d == 3 {
        '3'
    } else if d == 4 {
        '4'
    } else if d == 5 {
        '5'
    } else if d == 6 {
        '6'
    } else if d == 7 {
        '7'
    } else if d == 8 {
        '8'
    } else if d == 9 {
        '9'
    } else if d == 10 {
        'a'
    } else if d == 11 {
        'b'
    } else if d == 12 {
        'c'
    } else if d == 13 {
        'd'
    } else if d == 14 {
        'e'
    } else {
        'f'
    }
}

/// The digit string of `n` in the given base, most significant digit first,
/// without leading zeros (a single `0` for zero itself).
pub open spec fn uint_digits(n: nat, base: nat) -> Seq<char>
    decreases n,
    via uint_digits_decreases
{
    if base < 2 || n < base {
        seq![digit_char(n)]
    } else {
        uint_digits(n / base, base).push(digit_char(n % base))
    }
}

#[via_fn]
proof fn uint_digits_decreases(n: nat, base: nat) {
    if !(base < 2 || n < base) {
        assert(n / base < n) by (nonlinear_arith)
            requires
                n >= base >= 2,
        ;
    }
}

/// Appends the single digit character for `d` to `s`.
pub fn push_digit(s: &mut String, d: u64)
    requires
        d < 16,
    ensures
        final(s)@ == old(s)@ + seq![digit_char(d as nat)],
{
    let lit: &str = if d == 0 {
        "0"
    } else if d == 1 {
        "1"
    } else if d == 2 {
        "2"
    } else if d == 3 {
        "3"
    } else if d == 4 {
        "4"
    } else if d == 5 {
        "5"
    } else if d == 6 {
        "6"
    } else if d == 7 {
        "7"
    } else if d == 8 {
        "8"
    } else if d == 9 {
        "9"
    } else if d == 10 {
        "a"
    } else if d == 11 {
        "b"
    } else if d == 12 {
        "c"
    } else if d == 13 {
        "d"
    } else if d == 14 {
        "e"
    } else {
        "f"
    };
    proof {
        reveal_strlit("0");
        reveal_strlit("1");
        reveal_strlit("2");
        reveal_strlit("3");
        reveal_strlit("4");
        reveal_strlit("5");
        reveal_strlit("6");
        reveal_strlit("7");
        reveal_strlit("8");
        reveal_strlit("9");
        reveal_strlit("a");
        reveal_strlit("b");
        reveal_strlit("c");
        reveal_strlit("d");
        reveal_strlit("e");
        reveal_strlit("f");
        assert(lit@ =~= seq![digit_char(d as nat)]);
    }
    s.append(lit);
}

/// The decimal digit string of a signed number: a `-` sign for a negative
/// value, then the digits of its magnitude.
pub open spec fn int_digits(n: int, base: nat) -> Seq<char> {
    if n < 0 {
        seq!['-'] + uint_digits((-n) as nat, base)
    } else {
        uint_digits(n as nat, base)
    }
}

/// Appends the decimal rendering of a signed 32-bit value to `s`.
pub fn append_int(s: &mut String, n: i32)
    ensures
        final(s)@ == old(s)@ + int_digits(n as int, 10),
{
    if n < 0 {
        proof {
            reveal_strlit("-");
            assert("-"@ =~= seq!['-']);
        }
        s.append("-");
        let m: u64 = (-(n as i64)) as u64;
        append_uint(s, m, 10);
        proof {
            assert(old(s)@ + (seq!['-'] + uint_digits((-(n as int)) as nat, 10)) =~= (old(s)@
                + seq!['-']) + uint_digits((-(n as int)) as nat, 10));
        }
    } else {
        append_uint(s, n as u64, 10);
    }
}

/// Appends the digit string of `n` in the given base to `s`.
pub fn append_uint(s: &mut String, n: u64, base: u64)
    requires
        base == 10 || base == 16,
    ensures
        final(s)@ == old(s)@ + uint_digits(n as nat, base as nat),
    decreases n,
{
    if n >= base {
        append_uint(s, n / base, base);
    }
    push_digit(s, n % base);
}

} // verus!

verus! {

/// Discarding leading whitespace never lengthens a sequence.
pub proof fn lemma_skip_ws_len(s: Seq<char>)
    ensures
        skip_ws(s).len() <= s.len(),
    decreases s.len(),
{
    if s.len() > 0 && is_ws(s[0]) {
        lemma_skip_ws_len(s.drop_first());
    }
}

/// A sequence is exactly its first token followed by what remains after it.
pub proof fn lemma_tok_split(s: Seq<char>)
    ensures
        take_tok(s).len() + after_tok(s).len() == s.len(),
        take_tok(s) + after_tok(s) == s,
    decreases s.len(),
{
    if s.len() > 0 && !is_ws(s[0]) {
        lemma_tok_split(s.drop_first());
        assert(seq![s[0]] + (take_tok(s.drop_first()) + after_tok(s.drop_first())) =~= s);
        assert((seq![s[0]] + take_tok(s.drop_first())) + after_tok(s.drop_first()) =~= seq![
            s[0]
        ] + (take_tok(s.drop_first()) + after_tok(s.drop_first())));
    } else {
        assert(take_tok(s) + after_tok(s) =~= s);
    }
}

/// A position holding `c`, with no earlier occurrence, is where
/// `index_of_first` points.
pub proof fn lemma_index_of_first_at(t: Seq<char>, c: char, k: int)
    requires
        0 <= k < t.len(),
        t[k] == c,
        forall|j: int| 0 <= j < k ==> t[j] != c,
    ensures
        t.index_of_first(c) == Some(k),
{
    assert(t.contains(c));
    t.index_of_first_ensures(c);
    let idx = t.index_of_first(c)->Some_0;
    if idx < k {
        assert(t[idx] != c);
    }
    if idx > k {
        assert(t[k] != c);
    }
}

/// A position holding `c`, with no later occurrence, is where
/// `index_of_last` points.
pub proof fn lemma_index_of_last_at(t: Seq<char>, c: char, k: int)
    requires
        0 <= k < t.len(),
        t[k] == c,
        forall|j: int| k < j < t.len() ==> t[j] != c,
    ensures
        t.index_of_last(c) == Some(k),
{
    assert(t.contains(c));
    t.index_of_last_ensures(c);
    let idx = t.index_of_last(c)->Some_0;
    if idx > k {
        assert(t[idx] != c);
    }
    if idx < k {
        assert(t[k] != c);
    }
}

/// A sequence without `c` has no `index_of_last` for it.
pub proof fn lemma_index_of_last_none(t: Seq<char>, c: char)
    requires
        forall|j: int| 0 <= j < t.len() ==> t[j] != c,
    ensures
        t.index_of_last(c) is None,
{
    if t.contains(c) {
        let w = choose|i: int| 0 <= i < t.len() && t[i] == c;
        assert(t[w] != c);
    }
    t.index_of_last_ensures(c);
}

/// The canonical digit character of a value below the base is a digit of
/// that base, reads back as the value, and is none of the separator
/// characters of the record format.
pub proof fn lemma_digit_char_val(d: nat, base: nat)
    requires
        base == 10 || base == 16,
        d < base,
    ensures
        digit_ok(digit_char(d), base),
        digit_val(digit_char(d)) == d,
{
}

/// A digit character is not whitespace and none of the separator
/// characters of the record format.
pub proof fn lemma_digit_not_special(c: char, base: nat)
    requires
        digit_ok(c, base),
    ensures
        !is_ws(c),
        c != '-',
        c != ':',
        c != '+',
        c != '\n',
{
}

/// The digit string of a number consists of digits of its base, is never
/// empty, and never starts with a sign.
pub proof fn lemma_uint_digits_wf(n: nat, base: nat)
    requires
        base == 10 || base == 16,
    ensures
        uint_digits(n, base).len() > 0,
        all_digits(uint_digits(n, base), base),
    decreases n,
{
    if n >= base {
        lemma_uint_digits_wf(n / base, base);
        assert(n % base < base) by (nonlinear_arith)
            requires
                base > 0,
        ;
        lemma_digit_char_val(n % base, base);
        let w = uint_digits(n / base, base);
        let d = digit_char(n % base);
        assert(forall|i: int|
            0 <= i < w.push(d).len() ==> #[trigger] w.push(d)[i] == (if i < w.len() {
                w[i]
            } else {
                d
            }));
    }
}

/// Reading back the digit string of a number yields the number.
pub proof fn lemma_uint_digits_value(n: nat, base: nat)
    requires
        base == 10 || base == 16,
    ensures
        digits_value(uint_digits(n, base), base) == n,
    decreases n,
{
    if n < base {
        lemma_digit_char_val(n, base);
        assert(digits_value(Seq::<char>::empty(), base) == 0);
        assert(seq![digit_char(n)].drop_last() =~= Seq::<char>::empty());
        assert(seq![digit_char(n)].last() == digit_char(n));
        assert(digits_value(seq![digit_char(n)], base) == digit_val(digit_char(n)));
    } else {
        lemma_uint_digits_value(n / base, base);
        assert(n % base < base) by (nonlinear_arith)
            requires
                base > 0,
        ;
        lemma_digit_char_val(n % base, base);
        let w = uint_digits(n / base, base);
        let d = digit_char(n % base);
        assert(w.push(d).drop_last() =~= w);
        assert(w.push(d).last() == d);
        assert(digits_value(w.push(d), base) == (n / base) * base + n % base);
        assert((n / base) * base + n % base == n) by (nonlinear_arith)
            requires
                base > 0,
        ;
    }
}

/// Parsing the digit string of a 64-bit number yields the number back.
pub proof fn lemma_parse_uint_digits(n: u64, base: nat)
    requires
        base == 10 || base == 16,
    ensures
        parse_uint_spec(uint_digits(n as nat, base), base) == Some(n),
{
    lemma_uint_digits_wf(n as nat, base);
    lemma_uint_digits_value(n as nat, base);
    let s = uint_digits(n as nat, base);
    assert(digit_ok(s[0], base));
    assert(s[0] != '+');
}

} // verus!

verus! {

/// Whether `s` contains no whitespace.
pub open spec fn no_ws(s: Seq<char>) -> bool {
    forall|i: int| 0 <= i < s.len() ==> !is_ws(s[i])
}

/// Concatenation preserves freedom from whitespace.
pub proof fn lemma_no_ws_concat(a: Seq<char>, b: Seq<char>)
    requires
        no_ws(a),
        no_ws(b),
    ensures
        no_ws(a + b),
{
    assert forall|i: int| 0 <= i < (a + b).len() implies !is_ws((a + b)[i]) by {
        if i < a.len() {
            assert((a + b)[i] == a[i]);
        } else {
            assert((a + b)[i] == b[i - a.len()]);
        }
    }
}

/// A whitespace-free, non-empty prefix followed by nothing or by
/// whitespace is exactly the first token.
pub proof fn lemma_token_prefix(t: Seq<char>, rest: Seq<char>)
    requires
        t.len() > 0,
        no_ws(t),
        rest.len() == 0 || is_ws(rest[0]),
    ensures
        take_tok(t + rest) == t,
        after_tok(t + rest) == rest,
    decreases t.len(),
{
    let s = t + rest;
    assert(s[0] == t[0]);
    if t.len() == 1 {
        assert(s.drop_first() =~= rest);
        assert(take_tok(rest) == Seq::<char>::empty());
        assert(after_tok(rest) == rest);
        assert(seq![t[0]] + Seq::<char>::empty() =~= t);
    } else {
        assert(s.drop_first() =~= t.drop_first() + rest);
        lemma_token_prefix(t.drop_first(), rest);
        assert(seq![t[0]] + t.drop_first() =~= t);
    }
}

/// A single leading space is discarded before the next token.
pub proof fn lemma_skip_ws_space(x: Seq<char>)
    ensures
        skip_ws(seq![' '] + x) == skip_ws(x),
{
    assert((seq![' '] + x)[0] == ' ');
    assert((seq![' '] + x).drop_first() =~= x);
}

/// A sequence that does not begin with whitespace keeps all of itself.
pub proof fn lemma_skip_ws_noop(x: Seq<char>)
    requires
        x.len() == 0 || !is_ws(x[0]),
    ensures
        skip_ws(x) == x,
{
}

/// A digit string holds no whitespace and none of the separator
/// characters of the record format.
pub proof fn lemma_digits_no_ws(s: Seq<char>, base: nat)
    requires
        all_digits(s, base),
    ensures
        no_ws(s),
        forall|i: int| 0 <= i < s.len() ==> s[i] != '-' && s[i] != ':' && s[i] != '+',
{
    assert forall|i: int| 0 <= i < s.len() implies !is_ws(s[i]) && s[i] != '-' && s[i] != ':'
        && s[i] != '+' by {
        lemma_digit_not_special(s[i], base);
    }
}

} // verus!

verus! {

/// What remains after discarding leading whitespace never begins with
/// whitespace.
pub proof fn lemma_skip_ws_head(s: Seq<char>)
    ensures
        skip_ws(s).len() == 0 || !is_ws(skip_ws(s)[0]),
    decreases s.len(),
{
    if s.len() > 0 && is_ws(s[0]) {
        lemma_skip_ws_head(s.drop_first());
    }
}

} // verus!
