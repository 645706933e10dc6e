//! Text helpers for the persisted formats: hexadecimal identifiers, decimal
//! fingerprints, and the path tests used to scope tracking.

use vstd::prelude::*;
use vstd::string::*;

verus! {

/// The sixteen digits of the upper-case hexadecimal alphabet.
pub open spec fn upper_hex_digit(d: int) -> char {
    if d == 0 {
        '0'
    } else if d == 1 {
        '1'
    } else if d == 2 {
        '2'
    } else if d == 3 {
        '3'
    } else if d == 4 {
        '4'
    } else if d == 5 {
        '5'
    } else if d == 6 {
        '6'
    } else if d == 7 {
        '7'
    } else if d == 8 {
        '8'
    } else if d == 9 {
        '9'
    } else if d == 10 {
        'A'
    } else if d == 11 {
        'B'
    } else if d == 12 {
        'C'
    } else if d == 13 {
        'D'
    } else if d == 14 {
        'E'
    } else {
        'F'
    }
}

/// The same digits in the lower-case alphabet.
pub open spec fn lower_hex_digit(d: int) -> char {
    if d < 10 {
        upper_hex_digit(d)
    } else if d == 10 {
        'a'
    } else if d == 11 {
        'b'
    } else if d == 12 {
        'c'
    } else if d == 13 {
        'd'
    } else if d == 14 {
        'e'
    } else {
        'f'
    }
}

/// The upper-case hexadecimal rendering of a byte string: two digits per
/// byte, high nibble first.
pub open spec fn upper_hex_of(data: Seq<u8>) -> Seq<char> {
    Seq::new(
        2 * data.len(),
        |i: int|
            if i % 2 == 0 {
                upper_hex_digit(data[i / 2] as int / 16)
            } else {
                upper_hex_digit(data[i / 2] as int % 16)
            },
    )
}

/// The lower-case hexadecimal rendering of a byte string.
pub open spec fn lower_hex_of(data: Seq<u8>) -> Seq<char> {
    Seq::new(
        2 * data.len(),
        |i: int|
            if i % 2 == 0 {
                lower_hex_digit(data[i / 2] as int / 16)
            } else {
                lower_hex_digit(data[i / 2] as int % 16)
            },
    )
}

/// Relies on `String::push`: it appends exactly the one character.
#[verifier::external_body]
pub fn push_char(s: &mut String, c: char)
    ensures
        final(s)@ == old(s)@.push(c),
{
    s.push(c);
}

/// One upper-case hexadecimal digit as an executable character.
pub fn upper_hex_digit_char(d: u8) -> (c: char)
    requires
        d < 16,
    ensures
        c == upper_hex_digit(d as int),
{
    match d {
        0 => '0',
        1 => '1',
        2 => '2',
        3 => '3',
        4 => '4',
        5 => '5',
        6 => '6',
        7 => '7',
        8 => '8',
        9 => '9',
        10 => 'A',
        11 => 'B',
        12 => 'C',
        13 => 'D',
        14 => 'E',
        _ => 'F',
    }
}

/// Renders a byte string as upper-case hexadecimal, the form in which patch
/// identifiers are written.
pub fn to_upper_hex(data: &Vec<u8>) -> (r: String)
    ensures
        r@ == upper_hex_of(data@),
{
    let mut r = String::new();
    let mut i: usize = 0;
    while i < data.len()
        invariant
            i <= data.len(),
            r@ == upper_hex_of(data@.take(i as int)),
        decreases data.len() - i,
    {
        let b = data[i];
        let hi = b / 16;
        let lo = b % 16;
        push_char(&mut r, upper_hex_digit_char(hi));
        push_char(&mut r, upper_hex_digit_char(lo));
        i = i + 1;
        proof {
            assert(r@ =~= upper_hex_of(data@.take(i as int)));
        }
    }
    proof {
        assert(data@.take(data@.len() as int) =~= data@);
    }
    r
}

/// Relies on `hex::encode`: it renders each byte as two lower-case
/// hexadecimal digits, high nibble first.
#[verifier::external_body]
pub fn to_lower_hex(data: &Vec<u8>) -> (r: String)
    ensures
        r@ == lower_hex_of(data@),
{
    hex::encode(data)
}

/// Whether a character is a decimal digit.
pub open spec fn is_dec_digit(c: char) -> bool {
    48 <= c as int <= 57
}

/// The numeric value of a decimal digit character.
pub open spec fn dec_digit_val(c: char) -> nat {
    (c as int - 48) as nat
}

/// The canonical decimal rendering of a natural number, most significant
/// digit first and without leading zeros.
pub open spec fn dec_of(n: nat) -> Seq<char>
    decreases n,
{
    if n < 10 {
        seq![upper_hex_digit(n as int)]
    } else {
        dec_of(n / 10).push(upper_hex_digit((n % 10) as int))
    }
}

/// The number a digit string denotes.
pub open spec fn dec_val(s: Seq<char>) -> nat
    decreases s.len(),
{
    if s.len() == 0 {
        0
    } else {
        10 * dec_val(s.drop_last()) + dec_digit_val(s.last())
    }
}

/// Whether every character of the string is a decimal digit.
pub open spec fn all_dec_digits(s: Seq<char>) -> bool {
    forall|i: int| 0 <= i < s.len() ==> is_dec_digit(s[i])
}

/// Whether the string is a canonical decimal numeral: at least one digit,
/// digits only, and no leading zero.
pub open spec fn is_dec_string(s: Seq<char>) -> bool {
    &&& s.len() >= 1
    &&& all_dec_digits(s)
    &&& s.len() > 1 ==> s[0] != '0'
}

/// Powers of ten.
pub open spec fn pow10(k: nat) -> nat
    decreases k,
{
    if k == 0 {
        1
    } else {
        10 * pow10((k - 1) as nat)
    }
}

/// The first ten entries of the hexadecimal alphabet are the decimal digits.
proof fn lemma_digit_char(d: int)
    requires
        0 <= d < 10,
    ensures
        is_dec_digit(upper_hex_digit(d)),
        dec_digit_val(upper_hex_digit(d)) == d,
{
}

/// The helper induction behind `lemma_dec_of_canonical`: the rendering has
/// a nonzero leading digit for positive numbers.
proof fn lemma_dec_of_canonical_aux(n: nat)
    ensures
        dec_of(n).len() >= 1,
        all_dec_digits(dec_of(n)),
        n > 0 ==> dec_of(n)[0] != '0',
        n < 10 ==> dec_of(n).len() == 1,
        dec_val(dec_of(n)) == n,
    decreases n,
{
    if n < 10 {
        lemma_digit_char(n as int);
        let s = dec_of(n);
        assert(s == seq![upper_hex_digit(n as int)]);
        assert(s.drop_last() =~= Seq::<char>::empty());
        assert(dec_val(Seq::<char>::empty()) == 0);
        assert(s.last() == upper_hex_digit(n as int));
        assert(dec_val(s) == 10 * dec_val(s.drop_last()) + dec_digit_val(s.last()));
        if n > 0 {
            assert(dec_digit_val(s[0]) == n && dec_digit_val('0') == 0);
        }
    } else {
        lemma_dec_of_canonical_aux(n / 10);
        lemma_digit_char((n % 10) as int);
        let prev = dec_of(n / 10);
        let d = upper_hex_digit((n % 10) as int);
        assert(dec_of(n) == prev.push(d));
        assert(prev.push(d).drop_last() =~= prev);
        assert(prev.push(d).last() == d);
        assert(prev.push(d)[0] == prev[0]);
        assert(dec_val(prev.push(d)) == 10 * dec_val(prev) + dec_digit_val(d));
        assert(dec_val(dec_of(n)) == 10 * (n / 10) + n % 10);
        assert(forall|i: int|
            0 <= i < prev.push(d).len() ==> is_dec_digit(#[trigger] prev.push(d)[i]));
    }
}

/// The decimal rendering of a number is a canonical numeral and denotes the
/// number itself.
pub proof fn lemma_dec_of_canonical(n: nat)
    ensures
        is_dec_string(dec_of(n)),
        dec_val(dec_of(n)) == n,
{
    lemma_dec_of_canonical_aux(n);
}

/// A numeral bounded by `pow10(k)` has at most `k` digits.
pub proof fn lemma_dec_of_len(n: nat, k: nat)
    requires
        k >= 1,
        n < pow10(k),
    ensures
        dec_of(n).len() <= k,
    decreases k,
{
    if n < 10 {
    } else {
        assert(pow10(k) == 10 * pow10((k - 1) as nat));
        lemma_dec_of_len(n / 10, (k - 1) as nat)
    }
}

/// A decimal numeral of a `u64` has at most twenty digits.
pub proof fn lemma_dec_of_u64_len(n: u64)
    ensures
        dec_of(n as nat).len() <= 20,
{
    reveal_with_fuel(pow10, 21);
    assert(pow10(20) == 100000000000000000000);
    lemma_dec_of_len(n as nat, 20);
}

/// A canonical numeral whose leading digit is not zero denotes a positive
/// number.
proof fn lemma_dec_val_positive(s: Seq<char>)
    requires
        s.len() >= 1,
        all_dec_digits(s),
        s[0] != '0',
    ensures
        dec_val(s) >= 1,
    decreases s.len(),
{
    if s.len() == 1 {
        assert(dec_digit_val(s.last()) >= 1);
    } else {
        assert(s.drop_last()[0] == s[0]);
        lemma_dec_val_positive(s.drop_last());
    }
}

/// A canonical numeral is the decimal rendering of the number it denotes.
pub proof fn lemma_dec_string_canonical(s: Seq<char>)
    requires
        is_dec_string(s),
    ensures
        dec_of(dec_val(s)) == s,
    decreases s.len(),
{
    if s.len() == 1 {
        assert(s.drop_last() =~= Seq::<char>::empty());
        assert(dec_val(Seq::<char>::empty()) == 0);
        assert(s.last() == s[0]);
        assert(dec_val(s) == 10 * dec_val(s.drop_last()) + dec_digit_val(s.last()));
        assert(dec_val(s) == dec_digit_val(s[0]));
        assert(is_dec_digit(s[0]));
        assert(upper_hex_digit(dec_digit_val(s[0]) as int) == s[0]);
        assert(dec_of(dec_val(s)) =~= s);
    } else {
        let prefix = s.drop_last();
        assert(prefix[0] == s[0]);
        lemma_dec_string_canonical(prefix);
        lemma_dec_val_positive(prefix);
        let v = dec_val(s);
        assert(v == 10 * dec_val(prefix) + dec_digit_val(s.last()));
        assert(v >= 10);
        assert(v / 10 == dec_val(prefix));
        assert(v % 10 == dec_digit_val(s.last()));
        assert(upper_hex_digit(dec_digit_val(s.last()) as int) == s.last());
        assert(dec_of(v) =~= s);
    }
}

/// Appends the decimal rendering of `n` to a string.
pub fn push_decimal(s: &mut String, n: u64)
    ensures
        final(s)@ == old(s)@ + dec_of(n as nat),
    decreases n,
{
    if n < 10 {
        push_char(s, upper_hex_digit_char(n as u8));
        proof {
            assert(final(s)@ =~= old(s)@ + dec_of(n as nat));
        }
    } else {
        let ghost mid = s@ + dec_of((n / 10) as nat);
        push_decimal(s, n / 10);
        push_char(s, upper_hex_digit_char((n % 10) as u8));
        proof {
            assert(final(s)@ =~= old(s)@ + dec_of(n as nat));
        }
    }
}

/// The decimal rendering of a `u64`, the form in which unmodified-file
/// fingerprints are written into a snapshot slot.
pub fn to_decimal(n: u64) -> (r: String)
    ensures
        r@ == dec_of(n as nat),
{
    let mut r = String::new();
    push_decimal(&mut r, n);
    proof {
        assert(Seq::<char>::empty() + dec_of(n as nat) =~= dec_of(n as nat));
    }
    r
}

/// The value of a longer digit prefix is no smaller.
proof fn lemma_dec_val_prefix_grows(s: Seq<char>, i: int)
    requires
        0 <= i <= s.len(),
        dec_val(s.take(i)) > u64::MAX,
    ensures
        dec_val(s) > u64::MAX,
    decreases s.len() - i,
{
    if i == s.len() {
        assert(s.take(i) =~= s);
    } else {
        assert(s.take(i + 1).drop_last() =~= s.take(i));
        assert(s.take(i + 1).last() == s[i]);
        assert(dec_val(s.take(i + 1)) == 10 * dec_val(s.take(i)) + dec_digit_val(s[i]));
        lemma_dec_val_prefix_grows(s, i + 1);
    }
}

/// Parses a canonical decimal numeral.  Returns the denoted value exactly
/// when the string is such a numeral and the value fits in a `u64`.
pub fn parse_decimal(s: &String) -> (r: Option<u64>)
    ensures
        r is Some <==> is_dec_string(s@) && dec_val(s@) <= u64::MAX,
        r matches Some(v) ==> v as nat == dec_val(s@) && s@ == dec_of(v as nat),
{
    let n = s.as_str().unicode_len();
    if n == 0 {
        return None;
    }
    if n > 1 && s.as_str().get_char(0) == '0' {
        return None;
    }
    let mut v: u64 = 0;
    let mut i: usize = 0;
    while i < n
        invariant
            n == s@.len(),
            0 <= i <= n,
            all_dec_digits(s@.take(i as int)),
            v as nat == dec_val(s@.take(i as int)),
        decreases n - i,
    {
        let c = s.as_str().get_char(i);
        if !('0' <= c && c <= '9') {
            assert(!is_dec_digit(s@[i as int]));
            return None;
        }
        let d: u64 = (c as u32 as u64) - 48;
        proof {
            assert(s@.take(i + 1).drop_last() =~= s@.take(i as int));
            assert(s@.take(i + 1).last() == s@[i as int]);
        }
        if v > (u64::MAX - d) / 10 {
            proof {
                assert(dec_val(s@.take(i + 1)) == 10 * (v as nat) + d);
                assert(dec_val(s@.take(i + 1)) > u64::MAX);
                lemma_dec_val_prefix_grows(s@, i + 1);
            }
            return None;
        }
        v = v * 10 + d;
        i = i + 1;
        proof {
            assert(all_dec_digits(s@.take(i as int)));
        }
    }
    proof {
        assert(s@.take(n as int) =~= s@);
        lemma_dec_string_canonical(s@);
    }
    Some(v)
}

/// Whether `p` occurs as a contiguous run of characters inside `s`.
pub open spec fn has_substring(s: Seq<char>, p: Seq<char>) -> bool {
    exists|i: int| 0 <= i <= s.len() - p.len() && #[trigger] s.subrange(i, i + p.len()) == p
}

/// Whether the characters of `s` starting at `at` spell out `p`.
spec fn matches_at(s: Seq<char>, p: Seq<char>, at: int) -> bool {
    s.subrange(at, at + p.len()) == p
}

/// Substring search, used to keep the sidecar and VCS metadata out of the
/// tracked set.
pub fn contains_text(s: &String, p: &String) -> (r: bool)
    ensures
        r == has_substring(s@, p@),
{
    let n = s.as_str().unicode_len();
    let m = p.as_str().unicode_len();
    if m > n {
        return false;
    }
    if m == 0 {
        proof {
            let z: int = 0;
            assert(s@.subrange(z, z + p@.len()) =~= p@);
        }
        return true;
    }
    let mut i: usize = 0;
    while i <= n - m
        invariant
            n == s@.len(),
            m == p@.len(),
            m <= n,
            0 <= i <= n - m + 1,
            m >= 1,
            forall|k: int| 0 <= k < i ==> !matches_at(s@, p@, k),
        decreases n + 1 - i,
    {
        let mut j: usize = 0;
        let mut all_eq = true;
        proof {
            assert(s@.subrange(i as int, i as int) =~= p@.take(0));
        }
        while j < m && all_eq
            invariant
                n == s@.len(),
                m == p@.len(),
                0 <= i <= n - m,
                0 <= j <= m,
                all_eq ==> s@.subrange(i as int, i + j) == p@.take(j as int),
                !all_eq ==> !matches_at(s@, p@, i as int),
            decreases m - j,
        {
            let a = s.as_str().get_char(i + j);
            let b = p.as_str().get_char(j);
            if a != b {
                proof {
                    if matches_at(s@, p@, i as int) {
                        assert(s@.subrange(i as int, i + p@.len())[j as int] == p@[j as int]);
                    }
                }
                all_eq = false;
            } else {
                proof {
                    assert(s@.subrange(i as int, i + j + 1) =~= s@.subrange(i as int, i + j).push(
                        s@[i + j],
                    ));
                    assert(p@.take(j + 1) =~= p@.take(j as int).push(p@[j as int]));
                }
            }
            j = j + 1;
        }
        if all_eq {
            proof {
                assert(p@.take(m as int) =~= p@);
                assert(s@.subrange(i as int, i as int + p@.len()) == p@);
            }
            return true;
        }
        i = i + 1;
    }
    proof {
        assert forall|k: int| 0 <= k <= s@.len() - p@.len() implies #[trigger] s@.subrange(
            k,
            k + p@.len(),
        ) != p@ by {
            assert(k < i);
            assert(!matches_at(s@, p@, k));
        }
    }
    false
}

/// An owned copy of a string slice, for building persisted labels.
pub fn literal_string(s: &str) -> (r: String)
    ensures
        r@ == s@,
{
    s.to_owned()
}

/// Character-wise string equality.
pub fn str_eq(a: &str, b: &str) -> (r: bool)
    ensures
        r == (a@ == b@),
{
    let n = a.unicode_len();
    let m = b.unicode_len();
    if n != m {
        return false;
    }
    let mut i: usize = 0;
    while i < n
        invariant
            n == a@.len(),
            n == b@.len(),
            0 <= i <= n,
            a@.take(i as int) == b@.take(i as int),
        decreases n - i,
    {
        let x = a.get_char(i);
        let y = b.get_char(i);
        if x != y {
            proof {
                if a@ == b@ {
                    assert(a@[i as int] == b@[i as int]);
                }
            }
            return false;
        }
        proof {
            assert(a@.take(i + 1) =~= a@.take(i as int).push(a@[i as int]));
            assert(b@.take(i + 1) =~= b@.take(i as int).push(b@[i as int]));
        }
        i = i + 1;
    }
    proof {
        assert(a@.take(n as int) =~= a@);
        assert(b@.take(n as int) =~= b@);
    }
    true
}

/// Lexicographic order on character strings, by code point, with a proper
/// prefix ordered first.
pub open spec fn lex_less(a: Seq<char>, b: Seq<char>) -> bool
    decreases a.len(),
{
    if b.len() == 0 {
        false
    } else if a.len() == 0 {
        true
    } else if a[0] != b[0] {
        (a[0] as int) < (b[0] as int)
    } else {
        lex_less(a.drop_first(), b.drop_first())
    }
}

/// Helper: `lex_less` looks only at the suffixes from the first difference on.
proof fn lemma_lex_less_skip(a: Seq<char>, b: Seq<char>, i: int)
    requires
        0 <= i <= a.len(),
        0 <= i <= b.len(),
        a.take(i) == b.take(i),
    ensures
        lex_less(a, b) == lex_less(a.skip(i), b.skip(i)),
    decreases i,
{
    if i == 0 {
        assert(a.skip(0) =~= a);
        assert(b.skip(0) =~= b);
    } else {
        assert(a.take(i)[0] == a[0]);
        assert(b.take(i)[0] == b[0]);
        assert(a.len() > 0 && b.len() > 0 && a[0] == b[0]);
        assert(a.drop_first().take(i - 1) =~= a.take(i).drop_first());
        assert(b.drop_first().take(i - 1) =~= b.take(i).drop_first());
        lemma_lex_less_skip(a.drop_first(), b.drop_first(), i - 1);
        assert(a.drop_first().skip(i - 1) =~= a.skip(i));
        assert(b.drop_first().skip(i - 1) =~= b.skip(i));
    }
}

/// Nothing is lexicographically below itself.
pub proof fn lemma_lex_less_irrefl(a: Seq<char>)
    ensures
        !lex_less(a, a),
    decreases a.len(),
{
    if a.len() > 0 {
        lemma_lex_less_irrefl(a.drop_first());
    }
}

/// The lexicographic order is transitive.
pub proof fn lemma_lex_less_trans(a: Seq<char>, b: Seq<char>, c: Seq<char>)
    requires
        lex_less(a, b),
        lex_less(b, c),
    ensures
        lex_less(a, c),
    decreases a.len() + b.len() + c.len(),
{
    if a.len() == 0 {
    } else {
        if a[0] != b[0] {
            if b[0] != c[0] {
            } else {
            }
        } else {
            if b[0] != c[0] {
            } else {
                lemma_lex_less_trans(a.drop_first(), b.drop_first(), c.drop_first());
            }
        }
    }
}

/// Decides the lexicographic order of two strings.
pub fn str_lex_less(a: &str, b: &str) -> (r: bool)
    ensures
        r == lex_less(a@, b@),
{
    let n = a.unicode_len();
    let m = b.unicode_len();
    let mut i: usize = 0;
    loop
        invariant
            n == a@.len(),
            m == b@.len(),
            0 <= i <= n,
            0 <= i <= m,
            a@.take(i as int) == b@.take(i as int),
        decreases n - i,
    {
        proof {
            lemma_lex_less_skip(a@, b@, i as int);
        }
        if i >= m {
            proof {
                assert(b@.skip(i as int).len() == 0);
            }
            return false;
        }
        if i >= n {
            proof {
                assert(a@.skip(i as int).len() == 0 && b@.skip(i as int).len() > 0);
            }
            return true;
        }
        let x = a.get_char(i);
        let y = b.get_char(i);
        proof {
            assert(a@.skip(i as int)[0] == a@[i as int]);
            assert(b@.skip(i as int)[0] == b@[i as int]);
        }
        if x != y {
            return (x as u32) < (y as u32);
        }
        proof {
            assert(a@.take(i + 1) =~= a@.take(i as int).push(a@[i as int]));
            assert(b@.take(i + 1) =~= b@.take(i as int).push(b@[i as int]));
        }
        i = i + 1;
    }
}

/// Whether `path` lies strictly under the directory `dir`: `dir` followed by
/// a separator and at least one more character.
pub open spec fn is_under_dir(dir: Seq<char>, path: Seq<char>) -> bool {
    &&& path.len() > dir.len() + 1
    &&& path.subrange(0, dir.len() as int) == dir
    &&& path[dir.len() as int] == '/'
}

/// Tests whether `path` lies strictly under the directory `dir`.
pub fn path_under_dir(dir: &String, path: &String) -> (r: bool)
    ensures
        r == is_under_dir(dir@, path@),
{
    let n = dir.as_str().unicode_len();
    let m = path.as_str().unicode_len();
    if m <= n {
        return false;
    }
    if m - n <= 1 {
        return false;
    }
    if path.as_str().get_char(n) != '/' {
        return false;
    }
    let mut i: usize = 0;
    while i < n
        invariant
            n == dir@.len(),
            m == path@.len(),
            m > n + 1,
            0 <= i <= n,
            path@.take(i as int) == dir@.take(i as int),
        decreases n - i,
    {
        let a = path.as_str().get_char(i);
        let b = dir.as_str().get_char(i);
        proof {
            assert(path@.take(i + 1).drop_last() =~= path@.take(i as int));
            assert(dir@.take(i + 1).drop_last() =~= dir@.take(i as int));
        }
        if a != b {
            proof {
                if path@.subrange(0, n as int) == dir@ {
                    assert(path@.subrange(0, n as int)[i as int] == dir@[i as int]);
                }
            }
            return false;
        }
        proof {
            assert(path@.take(i + 1) =~= path@.take(i as int).push(path@[i as int]));
            assert(dir@.take(i + 1) =~= dir@.take(i as int).push(dir@[i as int]));
        }
        i = i + 1;
    }
    proof {
        assert(path@.subrange(0, n as int) =~= path@.take(n as int));
        assert(dir@.take(n as int) =~= dir@);
    }
    true
}

} // verus!
