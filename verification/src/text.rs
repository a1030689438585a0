use vstd::prelude::*;

verus! {

/// Appends one character to a `String` (`String::push`).
#[verifier::external_body]
pub(crate) fn push_char(s: &mut String, c: char)
    ensures
        final(s)@ == old(s)@.push(c),
{
    s.push(c);
}

/// The characters of a string, in order.
pub fn to_chars(s: &str) -> (r: Vec<char>)
    ensures
        r@ == s@,
{
    let mut r: Vec<char> = Vec::new();
    for c in it: s.chars()
        invariant
            r@ == it.seq().take(it.index() as int),
            it.seq() == s@,
    {
        r.push(c);
    }
    r
}

/// Builds a string from its characters.
pub fn from_chars(cs: &Vec<char>) -> (r: String)
    ensures
        r@ == cs@,
{
    let mut r = String::new();
    let n = cs.len();
    for i in 0..n
        invariant
            n == cs@.len(),
            r@ == cs@.take(i as int),
    {
        push_char(&mut r, cs[i]);
        assert(cs@.take(i + 1) == cs@.take(i as int).push(cs@[i as int]));
    }
    assert(cs@.take(n as int) == cs@);
    r
}

} // verus!

verus! {

/// `pre` is a prefix of `s`.
pub open spec fn has_prefix(s: Seq<char>, pre: Seq<char>) -> bool {
    pre.len() <= s.len() && s.take(pre.len() as int) == pre
}

/// `pat` occurs in `s` starting at index `i`.
pub open spec fn occurs_at(s: Seq<char>, i: int, pat: Seq<char>) -> bool {
    0 <= i && i + pat.len() <= s.len() && s.subrange(i, i + pat.len()) == pat
}

/// `str::replace`: every non-overlapping occurrence of `pat`, scanning from the left,
/// is replaced by `to`. An empty pattern matches before every character and at the end.
pub open spec fn replace_all(s: Seq<char>, pat: Seq<char>, to: Seq<char>) -> Seq<char>
    decreases s.len(),
{
    if s.len() == 0 {
        if pat.len() == 0 { to } else { s }
    } else if pat.len() == 0 {
        to + seq![s[0]] + replace_all(s.skip(1), pat, to)
    } else if has_prefix(s, pat) {
        to + replace_all(s.skip(pat.len() as int), pat, to)
    } else {
        seq![s[0]] + replace_all(s.skip(1), pat, to)
    }
}

pub fn chars_eq(a: &Vec<char>, b: &Vec<char>) -> (r: bool)
    ensures
        r == (a@ == b@),
{
    if a.len() != b.len() {
        return false;
    }
    let n = a.len();
    for i in 0..n
        invariant
            n == a@.len(),
            n == b@.len(),
            forall|j: int| 0 <= j < i ==> a@[j] == b@[j],
    {
        if a[i] != b[i] {
            return false;
        }
    }
    assert(a@ =~= b@);
    true
}

/// Whether `pat` occurs in `s` at index `i`.
pub fn matches_at(s: &Vec<char>, i: usize, pat: &Vec<char>) -> (r: bool)
    ensures
        r == occurs_at(s@, i as int, pat@),
{
    if i > s.len() || pat.len() > s.len() - i {
        return false;
    }
    let m = pat.len();
    for j in 0..m
        invariant
            m == pat@.len(),
            i + m <= s.len(),
            forall|k: int| 0 <= k < j ==> s@[i + k] == pat@[k],
    {
        if s[i + j] != pat[j] {
            assert(s@.subrange(i as int, i + m)[j as int] != pat@[j as int]);
            return false;
        }
    }
    assert(s@.subrange(i as int, i + m) =~= pat@);
    true
}

pub fn starts_with(s: &Vec<char>, pre: &Vec<char>) -> (r: bool)
    ensures
        r == has_prefix(s@, pre@),
{
    let r = matches_at(s, 0, pre);
    proof {
        if pre@.len() <= s@.len() {
            assert(s@.subrange(0, pre@.len() as int) == s@.take(pre@.len() as int));
        }
    }
    r
}

pub fn append_chars(out: &mut Vec<char>, x: &Vec<char>)
    ensures
        final(out)@ == old(out)@ + x@,
{
    let n = x.len();
    for i in 0..n
        invariant
            n == x@.len(),
            out@ == old(out)@ + x@.take(i as int),
    {
        out.push(x[i]);
        assert(x@.take(i + 1) == x@.take(i as int).push(x@[i as int]));
    }
    assert(x@.take(n as int) == x@);
}

/// `str::replace` on character vectors.
pub fn replace_chars(s: &Vec<char>, pat: &Vec<char>, to: &Vec<char>) -> (r: Vec<char>)
    ensures
        r@ == replace_all(s@, pat@, to@),
{
    let mut out: Vec<char> = Vec::new();
    let n = s.len();
    let m = pat.len();
    let mut i: usize = 0;
    assert(s@.skip(0) == s@);
    while i < n
        invariant
            n == s@.len(),
            m == pat@.len(),
            i <= n,
            out@ + replace_all(s@.skip(i as int), pat@, to@) == replace_all(s@, pat@, to@),
        decreases n - i,
    {
        let ghost rest = s@.skip(i as int);
        if m == 0 {
            append_chars(&mut out, to);
            out.push(s[i]);
            assert(rest.skip(1) == s@.skip(i + 1));
            i = i + 1;
        } else if matches_at(s, i, pat) {
            assert(rest.take(m as int) == s@.subrange(i as int, i + m));
            append_chars(&mut out, to);
            assert(rest.skip(m as int) == s@.skip(i + m));
            i = i + m;
        } else {
            assert(rest.take(m as int) == s@.subrange(i as int, i + m) || m > rest.len());
            out.push(s[i]);
            assert(rest.skip(1) == s@.skip(i + 1));
            i = i + 1;
        }
    }
    assert(s@.skip(n as int) == Seq::<char>::empty());
    if m == 0 {
        append_chars(&mut out, to);
    }
    out
}

} // verus!

verus! {

/// The decimal digit `d` as a character.
pub open spec fn digit_char(d: nat) -> char {
    seq!['0', '1', '2', '3', '4', '5', '6', '7', '8', '9'][d as int]
}

/// The decimal form of `n` (as `to_string` prints it).
pub open spec fn decimal(n: nat) -> Seq<char>
    decreases n,
{
    if n < 10 {
        seq![digit_char(n)]
    } else {
        decimal(n / 10).push(digit_char(n % 10))
    }
}

fn digit_exec(d: usize) -> (c: char)
    requires
        d < 10,
    ensures
        c == digit_char(d as nat),
{
    match d {
        0 => '0',
        1 => '1',
        2 => '2',
        3 => '3',
        4 => '4',
        5 => '5',
        6 => '6',
        7 => '7',
        8 => '8',
        _ => '9',
    }
}

/// The decimal form of `n`.
pub fn decimal_chars(n: usize) -> (r: Vec<char>)
    ensures
        r@ == decimal(n as nat),
    decreases n,
{
    if n < 10 {
        let mut v: Vec<char> = Vec::new();
        v.push(digit_exec(n));
        assert(v@ =~= seq![digit_char(n as nat)]);
        v
    } else {
        let mut v = decimal_chars(n / 10);
        v.push(digit_exec(n % 10));
        v
    }
}

} // verus!

verus! {

/// `char::is_whitespace`: the Unicode `White_Space` characters.
pub open spec fn is_ws(c: char) -> bool {
    ||| ('\u{9}' <= c && c <= '\u{d}')
    ||| c == ' '
    ||| c == '\u{85}'
    ||| c == '\u{a0}'
    ||| c == '\u{1680}'
    ||| ('\u{2000}' <= c && c <= '\u{200a}')
    ||| c == '\u{2028}'
    ||| c == '\u{2029}'
    ||| c == '\u{202f}'
    ||| c == '\u{205f}'
    ||| c == '\u{3000}'
}

pub fn is_ws_exec(c: char) -> (r: bool)
    ensures
        r == is_ws(c),
{
    ('\u{9}' <= c && c <= '\u{d}') || c == ' ' || c == '\u{85}' || c == '\u{a0}' || c == '\u{1680}' || (
    '\u{2000}' <= c && c <= '\u{200a}') || c == '\u{2028}' || c == '\u{2029}' || c == '\u{202f}' || c
        == '\u{205f}' || c == '\u{3000}'
}

pub open spec fn trim_start(s: Seq<char>) -> Seq<char>
    decreases s.len(),
{
    if s.len() > 0 && is_ws(s[0]) {
        trim_start(s.skip(1))
    } else {
        s
    }
}

pub open spec fn trim_end(s: Seq<char>) -> Seq<char>
    decreases s.len(),
{
    if s.len() > 0 && is_ws(s.last()) {
        trim_end(s.drop_last())
    } else {
        s
    }
}

/// `str::trim`: leading and trailing whitespace removed.
pub open spec fn trim(s: Seq<char>) -> Seq<char> {
    trim_end(trim_start(s))
}

/// `str::trim`.
pub fn trim_chars(s: &Vec<char>) -> (r: Vec<char>)
    ensures
        r@ == trim(s@),
{
    let n = s.len();
    let mut a: usize = 0;
    assert(s@.skip(0) == s@);
    while a < n && is_ws_exec(s[a])
        invariant
            n == s@.len(),
            a <= n,
            trim_start(s@.skip(a as int)) == trim_start(s@),
        decreases n - a,
    {
        assert(s@.skip(a as int).skip(1) == s@.skip(a + 1));
        a = a + 1;
    }
    assert(trim_start(s@.skip(a as int)) == s@.skip(a as int)) by {
        if a < n {
            assert(s@.skip(a as int)[0] == s@[a as int]);
        }
    }
    let mut b: usize = n;
    assert(s@.subrange(a as int, n as int) == s@.skip(a as int));
    while b > a && is_ws_exec(s[b - 1])
        invariant
            n == s@.len(),
            a <= b <= n,
            trim_end(s@.subrange(a as int, b as int)) == trim(s@),
        decreases b,
    {
        assert(s@.subrange(a as int, b as int).drop_last() == s@.subrange(a as int, b - 1));
        b = b - 1;
    }
    let mut out: Vec<char> = Vec::new();
    let mut i = a;
    while i < b
        invariant
            a <= i <= b <= n,
            n == s@.len(),
            out@ == s@.subrange(a as int, i as int),
        decreases b - i,
    {
        out.push(s[i]);
        assert(s@.subrange(a as int, i + 1) == s@.subrange(a as int, i as int).push(s@[i as int]));
        i = i + 1;
    }
    assert(trim_end(s@.subrange(a as int, b as int)) == s@.subrange(a as int, b as int)) by {
        if b > a {
            assert(s@.subrange(a as int, b as int).last() == s@[b - 1]);
        }
    }
    out
}

} // verus!

verus! {

/// `pat` occurs somewhere in `s` (`str::contains`).
pub open spec fn contains_seq(s: Seq<char>, pat: Seq<char>) -> bool {
    exists|i: int| occurs_at(s, i, pat)
}

pub fn contains_chars(s: &Vec<char>, pat: &Vec<char>) -> (r: bool)
    ensures
        r == contains_seq(s@, pat@),
{
    let n = s.len();
    let mut i: usize = 0;
    while i <= n
        invariant
            n == s@.len(),
            forall|k: int| 0 <= k < i ==> !occurs_at(s@, k, pat@),
        decreases n + 1 - i,
    {
        if matches_at(s, i, pat) {
            return true;
        }
        if i == n {
            assert forall|k: int| !occurs_at(s@, k, pat@) by {
                if 0 <= k < i {
                } else if k >= i + 1 {
                    assert(!(k + pat@.len() <= s@.len()) || pat@.len() > 0 || k > n);
                }
            }
            return false;
        }
        i = i + 1;
    }
    false
}

/// `char::to_ascii_lowercase`.
pub open spec fn lower_of(c: char) -> char {
    match c {
        'A' => 'a',
        'B' => 'b',
        'C' => 'c',
        'D' => 'd',
        'E' => 'e',
        'F' => 'f',
        'G' => 'g',
        'H' => 'h',
        'I' => 'i',
        'J' => 'j',
        'K' => 'k',
        'L' => 'l',
        'M' => 'm',
        'N' => 'n',
        'O' => 'o',
        'P' => 'p',
        'Q' => 'q',
        'R' => 'r',
        'S' => 's',
        'T' => 't',
        'U' => 'u',
        'V' => 'v',
        'W' => 'w',
        'X' => 'x',
        'Y' => 'y',
        'Z' => 'z',
        _ => c,
    }
}

pub fn lower_of_exec(c: char) -> (r: char)
    ensures
        r == lower_of(c),
{
    match c {
        'A' => 'a',
        'B' => 'b',
        'C' => 'c',
        'D' => 'd',
        'E' => 'e',
        'F' => 'f',
        'G' => 'g',
        'H' => 'h',
        'I' => 'i',
        'J' => 'j',
        'K' => 'k',
        'L' => 'l',
        'M' => 'm',
        'N' => 'n',
        'O' => 'o',
        'P' => 'p',
        'Q' => 'q',
        'R' => 'r',
        'S' => 's',
        'T' => 't',
        'U' => 'u',
        'V' => 'v',
        'W' => 'w',
        'X' => 'x',
        'Y' => 'y',
        'Z' => 'z',
        _ => c,
    }
}

/// `c` lowercases (`char::to_lowercase`) to the ASCII character `t`: ASCII letters
/// to their small form, the Kelvin sign to `k`, other ASCII characters to
/// themselves.
pub open spec fn lowers_to(c: char, t: char) -> bool {
    lower_of(c) == t || (c == '\u{212a}' && t == 'k')
}

/// `s.to_lowercase() == t`, for an ASCII lowercase `t`.
pub open spec fn lowercase_equals(s: Seq<char>, t: Seq<char>) -> bool {
    s.len() == t.len() && forall|i: int| 0 <= i < s.len() ==> lowers_to(s[i], t[i])
}

pub fn lowercase_equals_exec(s: &Vec<char>, t: &Vec<char>) -> (r: bool)
    ensures
        r == lowercase_equals(s@, t@),
{
    if s.len() != t.len() {
        return false;
    }
    let n = s.len();
    for i in 0..n
        invariant
            n == s@.len(),
            n == t@.len(),
            forall|k: int| 0 <= k < i ==> lowers_to(s@[k], t@[k]),
    {
        if !(lower_of_exec(s[i]) == t[i] || (s[i] == '\u{212a}' && t[i] == 'k')) {
            return false;
        }
    }
    true
}

/// `str::eq_ignore_ascii_case`.
pub open spec fn eq_ignore_ascii_case(s: Seq<char>, t: Seq<char>) -> bool {
    s.len() == t.len() && forall|i: int| 0 <= i < s.len() ==> lower_of(s[i]) == lower_of(t[i])
}

pub fn eq_ignore_ascii_case_exec(s: &Vec<char>, t: &Vec<char>) -> (r: bool)
    ensures
        r == eq_ignore_ascii_case(s@, t@),
{
    if s.len() != t.len() {
        return false;
    }
    let n = s.len();
    for i in 0..n
        invariant
            n == s@.len(),
            n == t@.len(),
            forall|k: int| 0 <= k < i ==> lower_of(s@[k]) == lower_of(t@[k]),
    {
        if lower_of_exec(s[i]) != lower_of_exec(t[i]) {
            return false;
        }
    }
    true
}

pub open spec fn is_digit(c: char) -> bool {
    '0' <= c && c <= '9'
}

pub open spec fn all_digits(d: Seq<char>) -> bool {
    forall|i: int| 0 <= i < d.len() ==> is_digit(d[i])
}

/// The value of a string of decimal digits.
pub open spec fn digits_value(s: Seq<char>) -> nat
    decreases s.len(),
{
    if s.len() == 0 {
        0
    } else {
        digits_value(s.drop_last()) * 10 + ((s.last() as int) - ('0' as int)) as nat
    }
}

/// `str::parse::<usize>`: an optional `+`, then one or more decimal digits whose
/// value fits in `usize`.
pub open spec fn parse_usize(s: Seq<char>) -> Option<nat> {
    let d = if s.len() > 0 && s[0] == '+' { s.skip(1) } else { s };
    if d.len() > 0 && all_digits(d) && digits_value(d) <= usize::MAX {
        Some(digits_value(d))
    } else {
        None
    }
}

fn digit_value(c: char) -> (r: Option<usize>)
    ensures
        match r {
            Some(v) => is_digit(c) && v == (c as int) - ('0' as int),
            None => !is_digit(c),
        },
{
    match c {
        '0' => Some(0),
        '1' => Some(1),
        '2' => Some(2),
        '3' => Some(3),
        '4' => Some(4),
        '5' => Some(5),
        '6' => Some(6),
        '7' => Some(7),
        '8' => Some(8),
        '9' => Some(9),
        _ => None,
    }
}

proof fn lemma_digits_value_grows(d: Seq<char>, k: int)
    requires
        0 <= k <= d.len(),
        all_digits(d),
    ensures
        digits_value(d.take(k)) <= digits_value(d),
    decreases d.len() - k,
{
    if k < d.len() {
        lemma_digits_value_grows(d, k + 1);
        assert(d.take(k + 1).drop_last() == d.take(k));
        assert(is_digit(d.take(k + 1).last()));
    } else {
        assert(d.take(k) == d);
    }
}

/// `str::parse::<usize>`.
pub fn parse_usize_exec(s: &Vec<char>) -> (r: Option<usize>)
    ensures
        match r {
            Some(v) => parse_usize(s@) == Some(v as nat),
            None => parse_usize(s@) is None,
        },
{
    let n = s.len();
    let start: usize = if n > 0 && s[0] == '+' { 1 } else { 0 };
    let ghost d = if s@.len() > 0 && s@[0] == '+' { s@.skip(1) } else { s@ };
    assert(d == s@.subrange(start as int, n as int));
    if start >= n {
        return None;
    }
    let mut v: usize = 0;
    let mut i = start;
    assert(d.take(0) =~= Seq::<char>::empty());
    while i < n
        invariant
            start <= i <= n,
            n == s@.len(),
            d == s@.subrange(start as int, n as int),
            d == (if s@.len() > 0 && s@[0] == '+' { s@.skip(1) } else { s@ }),
            forall|k: int| 0 <= k < i - start ==> is_digit(d[k]),
            v as nat == digits_value(d.take(i - start)),
        decreases n - i,
    {
        let c = s[i];
        assert(d[i - start] == c);
        let dv: usize = match digit_value(c) {
            None => {
                assert(!all_digits(d)) by {
                    assert(!is_digit(d[i - start]));
                }
                assert(parse_usize(s@) is None);
                return None;
            },
            Some(x) => x,
        };
        assert(d.take(i - start + 1).drop_last() == d.take(i - start));
        assert(d.take(i - start + 1).last() == c);
        if v > (usize::MAX - dv) / 10 {
            proof {
                if all_digits(d) {
                    lemma_digits_value_grows(d, i - start + 1);
                    assert(digits_value(d.take(i - start + 1)) == digits_value(d.take(i - start)) * 10 + dv);
                    let m = usize::MAX - dv;
                    assert(v * 10 + dv > usize::MAX) by (nonlinear_arith)
                        requires
                            v > m / 10,
                            m == usize::MAX - dv,
                            dv < 10,
                    ;
                }
            }
            return None;
        }
        v = v * 10 + dv;
        i = i + 1;
    }
    assert(d.take(n - start) == d);
    Some(v)
}

} // verus!

verus! {

/// Appends the characters of `s`.
pub fn put(out: &mut Vec<char>, s: &str)
    ensures
        final(out)@ == old(out)@ + s@,
{
    let v = to_chars(s);
    append_chars(out, &v);
}

} // verus!
