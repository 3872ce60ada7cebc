//! Character-level helpers shared by the parsers and the report builders.
use vstd::prelude::*;

verus! {

pub open spec fn is_digit(c: char) -> bool {
    '0' <= c && c <= '9'
}

/// The value of an ASCII decimal digit.
pub open spec fn digit_value(c: char) -> int {
    (c as int) - ('0' as int)
}

pub open spec fn all_digits(s: Seq<char>) -> bool {
    forall|i: int| 0 <= i < s.len() ==> is_digit(#[trigger] s[i])
}

/// The number a run of ASCII digits spells, most significant first.
pub open spec fn digits_value(s: Seq<char>) -> int
    decreases s.len(),
{
    if s.len() == 0 {
        0
    } else {
        digits_value(s.drop_last()) * 10 + digit_value(s.last())
    }
}

/// What `str::parse` reads as an unsigned integer, before the range of the target type: an
/// optional `+`, then at least one ASCII digit and nothing else.
pub open spec fn parse_unsigned(s: Seq<char>) -> Option<int> {
    let d = if s.len() > 0 && s[0] == '+' { s.drop_first() } else { s };
    if d.len() > 0 && all_digits(d) {
        Some(digits_value(d))
    } else {
        None
    }
}

/// The same for a signed target: a leading `-` negates.
pub open spec fn parse_signed(s: Seq<char>) -> Option<int> {
    if s.len() > 0 && s[0] == '-' {
        let d = s.drop_first();
        if d.len() > 0 && all_digits(d) {
            Some(-digits_value(d))
        } else {
            None
        }
    } else {
        parse_unsigned(s)
    }
}

/// `s.parse::<u32>()`, as a value or a refusal.
pub open spec fn u32_of(s: Seq<char>) -> Option<u32> {
    match parse_unsigned(s) {
        Some(v) => if v <= u32::MAX {
            Some(v as u32)
        } else {
            None
        },
        None => None,
    }
}

/// `s.parse::<i64>()`, as a value or a refusal.
pub open spec fn i64_of(s: Seq<char>) -> Option<i64> {
    match parse_signed(s) {
        Some(v) => if i64::MIN <= v <= i64::MAX {
            Some(v as i64)
        } else {
            None
        },
        None => None,
    }
}

/// Position of the first `c` in `s`.
pub open spec fn find_char(s: Seq<char>, c: char) -> Option<int>
    decreases s.len(),
{
    if s.len() == 0 {
        None
    } else if s[0] == c {
        Some(0)
    } else {
        match find_char(s.drop_first(), c) {
            Some(i) => Some(i + 1),
            None => None,
        }
    }
}

pub proof fn lemma_digits_value_nonneg(s: Seq<char>)
    requires
        all_digits(s),
    ensures
        digits_value(s) >= 0,
    decreases s.len(),
{
    if s.len() > 0 {
        assert(is_digit(s[s.len() - 1]));
        lemma_digits_value_nonneg(s.drop_last());
    }
}

pub proof fn lemma_parse_unsigned_nonneg(s: Seq<char>)
    ensures
        parse_unsigned(s) matches Some(v) ==> v >= 0,
{
    let d = if s.len() > 0 && s[0] == '+' { s.drop_first() } else { s };
    if d.len() > 0 && all_digits(d) {
        lemma_digits_value_nonneg(d);
    }
}

pub proof fn lemma_digits_value_prefix(s: Seq<char>, k: int)
    requires
        all_digits(s),
        0 <= k <= s.len(),
    ensures
        digits_value(s.take(k)) <= digits_value(s),
    decreases s.len(),
{
    if k < s.len() {
        assert(s.drop_last().take(k) =~= s.take(k));
        assert(all_digits(s.drop_last()));
        lemma_digits_value_prefix(s.drop_last(), k);
        lemma_digits_value_nonneg(s.drop_last());
        assert(is_digit(s[s.len() - 1]));
    } else {
        assert(s.take(k) =~= s);
    }
}

pub proof fn lemma_find_char_found(s: Seq<char>, c: char)
    ensures
        find_char(s, c) matches Some(i) ==> 0 <= i < s.len() && s[i] == c,
    decreases s.len(),
{
    if s.len() > 0 && s[0] != c {
        lemma_find_char_found(s.drop_first(), c);
    }
}

pub proof fn lemma_find_char(s: Seq<char>, c: char, i: int)
    requires
        0 <= i <= s.len(),
        forall|k: int| 0 <= k < i ==> s[k] != c,
    ensures
        i < s.len() && s[i] == c ==> find_char(s, c) == Some(i),
        i == s.len() ==> find_char(s, c) is None,
    decreases i,
{
    if i > 0 {
        lemma_find_char(s.drop_first(), c, i - 1);
    }
}

/// The characters of `s`, in order.
pub fn chars_of(s: &str) -> (out: Vec<char>)
    ensures
        out@ == s@,
{
    let mut out: Vec<char> = Vec::new();
    for c in it: s.chars()
        invariant
            out@ == it.seq().take(it.index() as int),
            it.seq() == s@,
    {
        out.push(c);
    }
    out
}

/// Where `c` first occurs in `v[lo..hi]`, counted from the start of `v`.
pub fn find_in(v: &Vec<char>, lo: usize, hi: usize, c: char) -> (r: Option<usize>)
    requires
        lo <= hi <= v@.len(),
    ensures
        r == (match find_char(v@.subrange(lo as int, hi as int), c) {
            Some(i) => Some((i + lo) as usize),
            None => None,
        }),
        r matches Some(p) ==> lo <= p < hi && v@[p as int] == c,
{
    proof {
        lemma_find_char_found(v@.subrange(lo as int, hi as int), c);
    }
    let ghost s = v@.subrange(lo as int, hi as int);
    let mut i = lo;
    while i < hi
        invariant
            lo <= i <= hi <= v@.len(),
            s == v@.subrange(lo as int, hi as int),
            forall|k: int| 0 <= k < i - lo ==> s[k] != c,
        decreases hi - i,
    {
        if v[i] == c {
            proof {
                lemma_find_char(s, c, i - lo);
            }
            return Some(i);
        }
        i += 1;
    }
    proof {
        lemma_find_char(s, c, i - lo);
    }
    None
}

/// Reads the digits `v[lo..hi]` as a magnitude of at most `bound`.
fn magnitude(v: &Vec<char>, lo: usize, hi: usize, bound: u64) -> (r: Option<u64>)
    requires
        lo <= hi <= v@.len(),
        bound >= 9,
    ensures
        ({
            let s = v@.subrange(lo as int, hi as int);
            r == if s.len() > 0 && all_digits(s) && digits_value(s) <= bound {
                Some(digits_value(s) as u64)
            } else {
                None
            }
        }),
        r matches Some(m) ==> m as int == digits_value(v@.subrange(lo as int, hi as int)),
{
    let ghost s = v@.subrange(lo as int, hi as int);
    if lo == hi {
        return None;
    }
    let mut i = lo;
    while i < hi
        invariant
            lo <= i <= hi <= v@.len(),
            s == v@.subrange(lo as int, hi as int),
            forall|k: int| 0 <= k < i - lo ==> is_digit(#[trigger] s[k]),
        decreases hi - i,
    {
        if !('0' <= v[i] && v[i] <= '9') {
            assert(!is_digit(s[i - lo]));
            return None;
        }
        i += 1;
    }
    assert(all_digits(s));
    let mut acc: u64 = 0;
    let mut i = lo;
    while i < hi
        invariant
            lo <= i <= hi <= v@.len(),
            s == v@.subrange(lo as int, hi as int),
            all_digits(s),
            acc as int == digits_value(s.take(i - lo)),
            acc <= bound,
            bound >= 9,
        decreases hi - i,
    {
        assert(s[i - lo] == v@[i as int]);
        assert(is_digit(s[i - lo]));
        let d = ((v[i] as u32) - ('0' as u32)) as u64;
        assert(d as int == digit_value(s[i - lo]));
        assert(d <= 9);
        assert(s.take(i - lo + 1).drop_last() =~= s.take(i - lo));
        if acc > (bound - d) / 10 {
            proof {
                assert(acc * 10 + d > bound) by (nonlinear_arith)
                    requires acc > (bound - d) / 10, d <= 9, d <= bound || bound < d;
                lemma_digits_value_prefix(s, i - lo + 1);
            }
            return None;
        }
        assert(acc * 10 + d <= bound) by (nonlinear_arith)
            requires acc <= (bound - d) / 10, d <= bound;
        acc = acc * 10 + d;
        i += 1;
    }
    assert(s.take(i - lo) =~= s);
    proof {
        lemma_digits_value_nonneg(s);
    }
    Some(acc)
}

/// `v[lo..hi]` read as an unsigned integer of at most `bound`, as `str::parse` reads one for a
/// type whose largest value is `bound`.
pub fn parse_bounded(v: &Vec<char>, lo: usize, hi: usize, bound: u64) -> (r: Option<u64>)
    requires
        lo <= hi <= v@.len(),
        bound >= 9,
    ensures
        r == (match parse_unsigned(v@.subrange(lo as int, hi as int)) {
            Some(x) => if x <= bound {
                Some(x as u64)
            } else {
                None
            },
            None => None,
        }),
{
    let ghost s = v@.subrange(lo as int, hi as int);
    let start = if lo < hi && v[lo] == '+' { lo + 1 } else { lo };
    let ghost d = v@.subrange(start as int, hi as int);
    assert(d =~= if s.len() > 0 && s[0] == '+' { s.drop_first() } else { s });
    let m = magnitude(v, start, hi, bound);
    match m {
        Some(m) => {
            assert(parse_unsigned(s) == Some(digits_value(d)));
            Some(m)
        },
        None => {
            proof {
                if d.len() > 0 && all_digits(d) {
                    assert(digits_value(d) > bound);
                }
            }
            None
        },
    }
}

/// `v[lo..hi].parse::<usize>()`.
pub fn parse_usize_at(v: &Vec<char>, lo: usize, hi: usize) -> (r: Option<usize>)
    requires
        lo <= hi <= v@.len(),
    ensures
        r == (match parse_unsigned(v@.subrange(lo as int, hi as int)) {
            Some(x) => if x <= usize::MAX {
                Some(x as usize)
            } else {
                None
            },
            None => None,
        }),
{
    let ghost s = v@.subrange(lo as int, hi as int);
    let start = if lo < hi && v[lo] == '+' { lo + 1 } else { lo };
    let ghost d = v@.subrange(start as int, hi as int);
    assert(d =~= if s.len() > 0 && s[0] == '+' { s.drop_first() } else { s });
    let m = magnitude(v, start, hi, usize::MAX as u64);
    match m {
        Some(m) => {
            assert(parse_unsigned(s) == Some(digits_value(d)));
            Some(m as usize)
        },
        None => {
            proof {
                if d.len() > 0 && all_digits(d) {
                    assert(digits_value(d) > usize::MAX);
                }
            }
            None
        },
    }
}

/// `v[lo..hi].parse::<u32>()`.
pub fn parse_u32(v: &Vec<char>, lo: usize, hi: usize) -> (r: Option<u32>)
    requires
        lo <= hi <= v@.len(),
    ensures
        r == u32_of(v@.subrange(lo as int, hi as int)),
{
    let ghost s = v@.subrange(lo as int, hi as int);
    let start = if lo < hi && v[lo] == '+' { lo + 1 } else { lo };
    let ghost d = v@.subrange(start as int, hi as int);
    assert(d =~= if s.len() > 0 && s[0] == '+' { s.drop_first() } else { s });
    let m = magnitude(v, start, hi, 0xffff_ffff);
    match m {
        Some(m) => {
            assert(parse_unsigned(s) == Some(digits_value(d)));
            Some(m as u32)
        },
        None => {
            proof {
                if d.len() > 0 && all_digits(d) {
                    assert(digits_value(d) > u32::MAX);
                }
            }
            None
        },
    }
}

/// `v[lo..hi].parse::<i64>()`.
pub fn parse_i64(v: &Vec<char>, lo: usize, hi: usize) -> (r: Option<i64>)
    requires
        lo <= hi <= v@.len(),
    ensures
        r == i64_of(v@.subrange(lo as int, hi as int)),
{
    let ghost s = v@.subrange(lo as int, hi as int);
    if lo < hi && v[lo] == '-' {
        let ghost d = v@.subrange(lo + 1, hi as int);
        assert(d =~= s.drop_first());
        match magnitude(v, lo + 1, hi, 0x8000_0000_0000_0000) {
            Some(m) => {
                assert(parse_signed(s) == Some(-digits_value(d)));
                if m == 0x8000_0000_0000_0000 {
                    Some(i64::MIN)
                } else {
                    assert(m < 0x8000_0000_0000_0000);
                    let p = m as i64;
                    Some(-p)
                }
            },
            None => {
                proof {
                    if d.len() > 0 && all_digits(d) {
                        assert(-digits_value(d) < i64::MIN);
                    }
                }
                None
            },
        }
    } else {
        let start = if lo < hi && v[lo] == '+' { lo + 1 } else { lo };
        let ghost d = v@.subrange(start as int, hi as int);
        assert(d =~= if s.len() > 0 && s[0] == '+' { s.drop_first() } else { s });
        match magnitude(v, start, hi, 0x7fff_ffff_ffff_ffff) {
            Some(m) => {
                assert(parse_signed(s) == Some(digits_value(d)));
                proof {
                    lemma_digits_value_nonneg(d);
                }
                Some(m as i64)
            },
            None => {
                proof {
                    if d.len() > 0 && all_digits(d) {
                        assert(digits_value(d) > i64::MAX);
                    }
                }
                None
            },
        }
    }
}

/// Whether `v[lo..]` begins with `pat`.
pub fn has_prefix_at(v: &Vec<char>, lo: usize, pat: &[char]) -> (r: bool)
    requires
        lo <= v@.len(),
    ensures
        r == (lo + pat@.len() <= v@.len() && v@.subrange(lo as int, lo + pat@.len()) == pat@),
{
    let plen = pat.len();
    if plen > v.len() - lo {
        return false;
    }
    assert(lo + plen <= v@.len());
    let mut i: usize = 0;
    while i < plen
        invariant
            plen == pat@.len(),
            lo + plen <= v.len(),
            0 <= i <= plen,
            forall|k: int| 0 <= k < i ==> v@[lo + k] == pat@[k],
        decreases plen - i,
    {
        let at = lo + i;
        if v[at] != pat[i] {
            assert(v@.subrange(lo as int, lo + pat@.len())[i as int] != pat@[i as int]);
            return false;
        }
        i += 1;
    }
    assert(v@.subrange(lo as int, lo + pat@.len()) =~= pat@);
    true
}

/// Decimal digits of `n`, most significant first, no sign and no padding.
pub open spec fn decimal(n: nat) -> Seq<char>
    decreases n,
{
    if n < 10 {
        seq![digit_char(n)]
    } else {
        decimal(n / 10).push(digit_char(n % 10))
    }
}

pub open spec fn digit_char(d: nat) -> char {
    ((d + 48) as u8) as char
}

/// A signed integer as `{}` writes it: a `-` before the magnitude where it is negative.
pub open spec fn signed_decimal(x: int) -> Seq<char> {
    if x < 0 {
        seq!['-'] + decimal((-x) as nat)
    } else {
        decimal(x as nat)
    }
}

/// `decimal` writes at least one digit, only digits, and spells its number.
pub proof fn lemma_decimal_digits(n: nat)
    ensures
        decimal(n).len() > 0,
        all_digits(decimal(n)),
        digits_value(decimal(n)) == n,
    decreases n,
{
    if n < 10 {
        assert(digit_value(digit_char(n)) == n);
        assert(decimal(n).drop_last() =~= Seq::<char>::empty());
        assert(digits_value(decimal(n).drop_last()) == 0);
        assert(decimal(n).last() == digit_char(n));
        assert(digits_value(decimal(n)) == digits_value(decimal(n).drop_last()) * 10 + digit_value(decimal(n).last()));
    } else {
        lemma_decimal_digits(n / 10);
        let d = decimal(n / 10);
        assert(digit_value(digit_char(n % 10)) == n % 10);
        assert(decimal(n).drop_last() =~= d);
        assert(decimal(n).last() == digit_char(n % 10));
        assert(digits_value(decimal(n)) == digits_value(d) * 10 + digit_value(digit_char(n % 10)));
        assert((n / 10) * 10 + n % 10 == n) by (nonlinear_arith);
        assert forall|i: int| 0 <= i < decimal(n).len() implies is_digit(#[trigger] decimal(n)[i]) by {
            if i < d.len() {
                assert(decimal(n)[i] == d[i]);
            }
        }
    }
}

/// Parsing a number's decimal text gives the number back.
pub proof fn lemma_parse_decimal(n: nat)
    ensures
        parse_unsigned(decimal(n)) == Some(n as int),
{
    lemma_decimal_digits(n);
    assert(is_digit(decimal(n)[0]));
}

/// Parsing a signed number's text gives the number back.
pub proof fn lemma_parse_signed_decimal(x: int)
    ensures
        parse_signed(signed_decimal(x)) == Some(x),
        forall|i: int| 0 <= i < signed_decimal(x).len() ==> is_digit(#[trigger] signed_decimal(x)[i]) || signed_decimal(x)[i] == '-',
{
    if x < 0 {
        let m = (-x) as nat;
        lemma_decimal_digits(m);
        let s = signed_decimal(x);
        assert(s.drop_first() =~= decimal(m));
        assert forall|i: int| 0 <= i < s.len() implies is_digit(#[trigger] s[i]) || s[i] == '-' by {
            if i > 0 {
                assert(s[i] == decimal(m)[i - 1]);
            }
        }
    } else {
        lemma_parse_decimal(x as nat);
        lemma_decimal_digits(x as nat);
    }
}

/// `c` is found where it first stands: after a run that holds none of it.
pub proof fn lemma_find_char_after(a: Seq<char>, c: char, b: Seq<char>)
    requires
        forall|i: int| 0 <= i < a.len() ==> a[i] != c,
    ensures
        find_char(a + seq![c] + b, c) == Some(a.len() as int),
    decreases a.len(),
{
    if a.len() > 0 {
        let t = a.drop_first();
        lemma_find_char_after(t, c, b);
        assert((a + seq![c] + b).drop_first() =~= t + seq![c] + b);
    }
}

/// `n` in decimal, left-padded with zeroes to at least `width` characters: `{:0width$}`.
pub open spec fn padded(n: nat, width: nat) -> Seq<char> {
    let d = decimal(n);
    if d.len() >= width {
        d
    } else {
        Seq::new((width - d.len()) as nat, |i: int| '0') + d
    }
}

/// `String::push`: the string grows by one character at its end.
#[verifier::external_body]
pub(crate) fn push_char(s: &mut String, c: char)
    ensures
        final(s)@ == old(s)@.push(c),
{
    s.push(c)
}

/// The string spelled by `v`.
pub fn string_of(v: &Vec<char>) -> (s: String)
    ensures
        s@ == v@,
{
    let mut s = String::new();
    let mut i: usize = 0;
    while i < v.len()
        invariant
            0 <= i <= v@.len(),
            s@ == v@.take(i as int),
        decreases v@.len() - i,
    {
        push_char(&mut s, v[i]);
        assert(v@.take(i + 1) =~= v@.take(i as int).push(v@[i as int]));
        i += 1;
    }
    assert(v@.take(i as int) =~= v@);
    s
}

/// Appends the decimal digits of `n` to `out`.
pub fn push_decimal(out: &mut Vec<char>, n: u64)
    ensures
        final(out)@ == old(out)@ + decimal(n as nat),
    decreases n,
{
    if n < 10 {
        out.push(((n as u8) + 48u8) as char);
    } else {
        push_decimal(out, n / 10);
        out.push((((n % 10) as u8) + 48u8) as char);
    }
}

/// Appends `n`, zero-padded to `width` digits.
pub fn push_padded(out: &mut Vec<char>, n: u64, width: usize)
    ensures
        final(out)@ == old(out)@ + padded(n as nat, width as nat),
{
    let mut d: Vec<char> = Vec::new();
    push_decimal(&mut d, n);
    assert(d@ =~= decimal(n as nat));
    let ghost start = out@;
    if d.len() < width {
        let mut k = d.len();
        while k < width
            invariant
                d@.len() <= k <= width,
                d@ == decimal(n as nat),
                out@ == start + Seq::new((k - d@.len()) as nat, |i: int| '0'),
            decreases width - k,
        {
            out.push('0');
            assert(Seq::new((k + 1 - d@.len()) as nat, |i: int| '0') =~= Seq::new((k - d@.len()) as nat, |i: int| '0').push('0'));
            k += 1;
        }
    }
    let mut i: usize = 0;
    let ghost mid = out@;
    while i < d.len()
        invariant
            0 <= i <= d@.len(),
            out@ == mid + d@.take(i as int),
        decreases d@.len() - i,
    {
        out.push(d[i]);
        assert(d@.take(i + 1) =~= d@.take(i as int).push(d@[i as int]));
        i += 1;
    }
    assert(d@.take(i as int) =~= d@);
    assert(out@ =~= start + padded(n as nat, width as nat));
}

/// Appends every character of `s` to `out`.
pub fn push_str(out: &mut Vec<char>, s: &str)
    ensures
        final(out)@ == old(out)@ + s@,
{
    let ghost start = out@;
    for c in it: s.chars()
        invariant
            out@ == start + it.seq().take(it.index() as int),
            it.seq() == s@,
    {
        out.push(c);
    }
    assert(s@.take(s@.len() as int) =~= s@);
}

/// Whether two strings hold the same characters.
pub fn same_text(a: &str, b: &str) -> (r: bool)
    ensures
        r == (a@ == b@),
{
    let x = chars_of(a);
    let y = chars_of(b);
    if x.len() != y.len() {
        return false;
    }
    let mut i: usize = 0;
    while i < x.len()
        invariant
            x@ == a@,
            y@ == b@,
            x@.len() == y@.len(),
            0 <= i <= x@.len(),
            forall|k: int| 0 <= k < i ==> x@[k] == y@[k],
        decreases x@.len() - i,
    {
        if x[i] != y[i] {
            assert(a@[i as int] != b@[i as int]);
            return false;
        }
        i += 1;
    }
    assert(x@ =~= y@);
    true
}

/// An owned copy of `s`.
pub fn owned(s: &str) -> (r: String)
    ensures
        r@ == s@,
{
    s.to_owned()
}

/// `char::to_ascii_lowercase`: `A`..`Z` down to `a`..`z`, every other character as it is.
pub open spec fn ascii_lower(c: char) -> char {
    if 'A' <= c && c <= 'Z' {
        ((c as u32 + 32) as u8) as char
    } else {
        c
    }
}

pub fn to_ascii_lower(c: char) -> (r: char)
    ensures
        r == ascii_lower(c),
{
    if 'A' <= c && c <= 'Z' {
        ((c as u8) + 32) as char
    } else {
        c
    }
}

/// Whether `x` is a Unicode scalar value: not a surrogate, and no larger than `U+10FFFF`.
pub open spec fn is_scalar(x: u32) -> bool {
    x < 0xD800 || (0xE000 <= x && x <= 0x10FFFF)
}

/// `char::from_u32`: the character `x` names, where `x` is a scalar value.
#[verifier::external_body]
pub(crate) fn char_from_u32(x: u32) -> (r: Option<char>)
    ensures
        r is Some <==> is_scalar(x),
        r matches Some(c) ==> c == x as char,
{
    char::from_u32(x)
}

/// Unicode's `White_Space` property, which `char::is_whitespace` reads: tab through carriage return,
/// space, next line, no-break space, ogham space mark, the en quad through the hair space, the line
/// and paragraph separators, the narrow no-break space, the medium mathematical space and the
/// ideographic space.
pub open spec fn whitespace(c: char) -> bool {
    let x = c as u32;
    ||| 0x09 <= x <= 0x0D
    ||| x == 0x20
    ||| x == 0x85
    ||| x == 0xA0
    ||| x == 0x1680
    ||| 0x2000 <= x <= 0x200A
    ||| x == 0x2028
    ||| x == 0x2029
    ||| x == 0x202F
    ||| x == 0x205F
    ||| x == 0x3000
}

/// Whether `c` is white space, as `char::is_whitespace` decides.
pub fn is_whitespace(c: char) -> (r: bool)
    ensures
        r == whitespace(c),
{
    match c {
        '\u{9}'..='\u{D}' | ' ' | '\u{85}' | '\u{A0}' | '\u{1680}' | '\u{2000}'..='\u{200A}' | '\u{2028}' | '\u{2029}'
        | '\u{202F}' | '\u{205F}' | '\u{3000}' => true,
        _ => false,
    }
}

pub open spec fn trim_start(s: Seq<char>) -> Seq<char>
    decreases s.len(),
{
    if s.len() > 0 && whitespace(s[0]) {
        trim_start(s.drop_first())
    } else {
        s
    }
}

pub open spec fn trim_end(s: Seq<char>) -> Seq<char>
    decreases s.len(),
{
    if s.len() > 0 && whitespace(s.last()) {
        trim_end(s.drop_last())
    } else {
        s
    }
}

/// What `str::trim` leaves: no leading and no trailing whitespace.
pub open spec fn trimmed(s: Seq<char>) -> Seq<char> {
    trim_end(trim_start(s))
}

pub fn trim(s: &str) -> (r: String)
    ensures
        r@ == trimmed(s@),
{
    let v = chars_of(s);
    let mut lo: usize = 0;
    assert(v@.skip(0) =~= v@);
    while lo < v.len() && is_whitespace(v[lo])
        invariant
            lo <= v@.len(),
            v@ == s@,
            trim_start(s@) == trim_start(v@.skip(lo as int)),
        decreases v@.len() - lo,
    {
        assert(v@.skip(lo as int).drop_first() =~= v@.skip(lo + 1));
        lo += 1;
    }
    assert(trim_start(s@) == v@.skip(lo as int)) by {
        if lo < v@.len() {
            assert(v@.skip(lo as int)[0] == v@[lo as int]);
        }
    }
    let mut hi: usize = v.len();
    assert(v@.subrange(lo as int, hi as int) =~= v@.skip(lo as int));
    while hi > lo && is_whitespace(v[hi - 1])
        invariant
            lo <= hi <= v@.len(),
            v@ == s@,
            trimmed(s@) == trim_end(v@.subrange(lo as int, hi as int)),
        decreases hi,
    {
        assert(v@.subrange(lo as int, hi as int).drop_last() =~= v@.subrange(lo as int, hi - 1));
        hi -= 1;
    }
    assert(trimmed(s@) == v@.subrange(lo as int, hi as int)) by {
        if hi > lo {
            assert(v@.subrange(lo as int, hi as int).last() == v@[hi - 1]);
        }
    }
    let mut out: Vec<char> = Vec::new();
    let mut k: usize = lo;
    while k < hi
        invariant
            lo <= k <= hi <= v@.len(),
            out@ == v@.subrange(lo as int, k as int),
        decreases hi - k,
    {
        out.push(v[k]);
        k += 1;
        assert(v@.subrange(lo as int, k as int) =~= v@.subrange(lo as int, k - 1).push(v@[k - 1]));
    }
    string_of(&out)
}

} // verus!
