use vstd::prelude::*;
use vstd::string::StrSliceExecFns;

verus! {

// ---------------------------------------------------------------------------
// Character classes
// ---------------------------------------------------------------------------

/// Whether `c` has the Unicode White_Space property: the class of characters
/// the parser skips between tokens.
pub open spec fn is_ws(c: char) -> bool {
    let u = c as u32;
    u == 0x09 || u == 0x0A || u == 0x0B || u == 0x0C || u == 0x0D || u == 0x20 || u == 0x85
        || u == 0xA0 || u == 0x1680 || (0x2000 <= u && u <= 0x200A) || u == 0x2028 || u == 0x2029
        || u == 0x202F || u == 0x205F || u == 0x3000
}

/// Executable test for [`is_ws`].
pub fn is_whitespace_char(c: char) -> (r: bool)
    ensures
        r == is_ws(c),
{
    let u = c as u32;
    u == 0x09 || u == 0x0A || u == 0x0B || u == 0x0C || u == 0x0D || u == 0x20 || u == 0x85
        || u == 0xA0 || u == 0x1680 || (0x2000 <= u && u <= 0x200A) || u == 0x2028 || u == 0x2029
        || u == 0x202F || u == 0x205F || u == 0x3000
}

/// Whether `c` is a decimal digit.
pub open spec fn is_digit(c: char) -> bool {
    '0' <= c && c <= '9'
}

/// Executable test for [`is_digit`].
pub fn is_digit_char(c: char) -> (r: bool)
    ensures
        r == is_digit(c),
{
    '0' <= c && c <= '9'
}

/// The numeric value of a decimal or hexadecimal digit; 0 on other characters.
pub open spec fn digit_val(c: char) -> u32 {
    let u = c as u32;
    if '0' <= c && c <= '9' {
        (u - 0x30) as u32
    } else if 'a' <= c && c <= 'f' {
        (u - 0x61 + 10) as u32
    } else if 'A' <= c && c <= 'F' {
        (u - 0x41 + 10) as u32
    } else {
        0
    }
}

/// Whether `c` is a hexadecimal digit in either case.
pub open spec fn is_hex_digit(c: char) -> bool {
    ('0' <= c && c <= '9') || ('a' <= c && c <= 'f') || ('A' <= c && c <= 'F')
}

/// Executable test for [`is_hex_digit`].
pub fn is_hex_digit_char(c: char) -> (r: bool)
    ensures
        r == is_hex_digit(c),
{
    ('0' <= c && c <= '9') || ('a' <= c && c <= 'f') || ('A' <= c && c <= 'F')
}

/// Executable form of [`digit_val`].
pub fn digit_val_char(c: char) -> (r: u32)
    ensures
        r == digit_val(c),
{
    let u = c as u32;
    if '0' <= c && c <= '9' {
        u - 0x30
    } else if 'a' <= c && c <= 'f' {
        u - 0x61 + 10
    } else if 'A' <= c && c <= 'F' {
        u - 0x41 + 10
    } else {
        0
    }
}

/// Whether `c` is a Unicode control character (general category Cc).
pub open spec fn is_control(c: char) -> bool {
    let u = c as u32;
    u <= 0x1F || (0x7F <= u && u <= 0x9F)
}

/// Executable test for [`is_control`].
pub fn is_control_char(c: char) -> (r: bool)
    ensures
        r == is_control(c),
{
    let u = c as u32;
    u <= 0x1F || (0x7F <= u && u <= 0x9F)
}

// ---------------------------------------------------------------------------
// Trusted character and string primitives
// ---------------------------------------------------------------------------

/// Relies on String::push: appends the given character to the end of the string.
#[verifier::external_body]
pub fn push_char(s: &mut String, c: char)
    ensures
        final(s)@ == old(s)@.push(c),
{
    s.push(c);
}

/// Whether `u` is a Unicode scalar value, that is, a valid `char`.
pub open spec fn is_scalar_value(u: u32) -> bool {
    u < 0xD800 || (0xE000 <= u && u <= 0x10FFFF)
}

/// Relies on char::from_u32: returns the character with scalar value `u`;
/// the documentation promises `Some` exactly when `u` is no surrogate and at
/// most 0x10FFFF, which `requires` guarantees here.
#[verifier::external_body]
pub fn char_from_u32(u: u32) -> (c: char)
    requires
        is_scalar_value(u),
    ensures
        c as u32 == u,
{
    char::from_u32(u).unwrap_or('\u{FFFD}')
}

/// The characters of `s`, one by one, as a vector.
pub fn chars_vec(s: &str) -> (r: Vec<char>)
    ensures
        r@ == s@,
{
    let n = s.unicode_len();
    let mut r: Vec<char> = Vec::new();
    let mut i: usize = 0;
    while i < n
        invariant
            i <= n,
            n == s@.len(),
            r@ == s@.take(i as int),
        decreases n - i,
    {
        r.push(s.get_char(i));
        i = i + 1;
        assert(r@ =~= s@.take(i as int));
    }
    assert(r@ =~= s@);
    r
}

/// The string of the characters of `cs`, in order.
#[verifier::loop_isolation(false)]
pub fn string_of_chars(cs: &Vec<char>) -> (s: String)
    ensures
        s@ == cs@,
{
    let mut s = String::new();
    let mut i: usize = 0;
    while i < cs.len()
        invariant
            i <= cs@.len(),
            s@ == cs@.take(i as int),
        decreases cs@.len() - i,
    {
        push_char(&mut s, cs[i]);
        i = i + 1;
        assert(s@ =~= cs@.take(i as int));
    }
    assert(s@ =~= cs@);
    s
}

// ---------------------------------------------------------------------------
// Decimal rendering of integers
// ---------------------------------------------------------------------------

/// The character for the decimal digit `d`.
pub open spec fn digit_char(d: int) -> char {
    if d == 0 {
        '0'
    } else if d == 1 {
        '1'
    } else if d == 2 {
        '2'
    } else if d == 3 {
        '3'
    } else if d == 4 {
        '4'
    } else if d == 5 {
        '5'
    } else if d == 6 {
        '6'
    } else if d == 7 {
        '7'
    } else if d == 8 {
        '8'
    } else {
        '9'
    }
}

/// The decimal digits of the non-negative integer `n`, most significant first.
pub open spec fn spec_udigits(n: nat) -> Seq<char>
    decreases n,
{
    if n < 10 {
        seq![digit_char(n as int)]
    } else {
        spec_udigits(n / 10) + seq![digit_char((n % 10) as int)]
    }
}

/// The decimal rendering of the integer `n`: a minus sign for negative
/// values, then the digits of its magnitude.
pub open spec fn spec_int_chars(n: int) -> Seq<char> {
    if n < 0 {
        seq!['-'] + spec_udigits((-n) as nat)
    } else {
        spec_udigits(n as nat)
    }
}

/// Executable form of [`digit_char`].
fn digit_char_of(d: u64) -> (c: char)
    requires
        d < 10,
    ensures
        c == digit_char(d as int),
{
    if d == 0 {
        '0'
    } else if d == 1 {
        '1'
    } else if d == 2 {
        '2'
    } else if d == 3 {
        '3'
    } else if d == 4 {
        '4'
    } else if d == 5 {
        '5'
    } else if d == 6 {
        '6'
    } else if d == 7 {
        '7'
    } else if d == 8 {
        '8'
    } else {
        '9'
    }
}

/// Renders `n` in decimal.
pub fn u64_to_string(n: u64) -> (s: String)
    ensures
        s@ == spec_udigits(n as nat),
    decreases n,
{
    if n < 10 {
        let mut s = String::new();
        push_char(&mut s, digit_char_of(n));
        assert(s@ =~= spec_udigits(n as nat));
        s
    } else {
        let mut s = u64_to_string(n / 10);
        push_char(&mut s, digit_char_of(n % 10));
        assert(s@ =~= spec_udigits(n as nat));
        s
    }
}

/// Renders `n` in decimal, with a minus sign when it is negative.
pub fn i64_to_string(n: i64) -> (s: String)
    ensures
        s@ == spec_int_chars(n as int),
{
    if n >= 0 {
        u64_to_string(n as u64)
    } else {
        let m: u64 = if n == i64::MIN {
            9223372036854775808u64
        } else {
            (-n) as u64
        };
        assert(m as nat == (-(n as int)) as nat);
        let mut s = String::new();
        push_char(&mut s, '-');
        let d = u64_to_string(m);
        s.append(d.as_str());
        assert(s@ =~= spec_int_chars(n as int));
        s
    }
}

// ---------------------------------------------------------------------------
// Values of digit strings
// ---------------------------------------------------------------------------

/// The value of a digit string read in base ten.
pub open spec fn digits_val(s: Seq<char>) -> int
    decreases s.len(),
{
    if s.len() == 0 {
        0
    } else {
        digits_val(s.drop_last()) * 10 + digit_val(s.last())
    }
}

/// Extending a digit string multiplies its value by ten and adds the digit.
pub proof fn lemma_digits_val_snoc(s: Seq<char>, i: int)
    requires
        0 <= i < s.len(),
    ensures
        digits_val(s.take(i + 1)) == digits_val(s.take(i)) * 10 + digit_val(s[i]),
{
    assert(s.take(i + 1).drop_last() =~= s.take(i));
    assert(s.take(i + 1).last() == s[i]);
}

/// The value of a digit string is never negative.
pub proof fn lemma_digits_val_nonneg(s: Seq<char>)
    ensures
        digits_val(s) >= 0,
    decreases s.len(),
{
    if s.len() > 0 {
        lemma_digits_val_nonneg(s.drop_last());
    }
}

/// The value of a decimal digit string of length `n` is below ten to the
/// `n`.
pub proof fn lemma_digits_val_upper(s: Seq<char>)
    requires
        forall|i: int| 0 <= i < s.len() ==> is_digit(#[trigger] s[i]),
    ensures
        digits_val(s) < vstd::arithmetic::power::pow(10, s.len() as nat),
    decreases s.len(),
{
    if s.len() == 0 {
        vstd::arithmetic::power::lemma_pow0(10);
    } else {
        assert(forall|i: int| 0 <= i < s.len() - 1 ==> s.drop_last()[i] == s[i]);
        lemma_digits_val_upper(s.drop_last());
        vstd::arithmetic::power::lemma_pow_adds(10, (s.len() - 1) as nat, 1);
        vstd::arithmetic::power::lemma_pow1(10);
        assert(is_digit(s.last()));
        assert(digit_val(s.last()) <= 9);
        assert(vstd::arithmetic::power::pow(10, s.len() as nat) == vstd::arithmetic::power::pow(
            10,
            (s.len() - 1) as nat,
        ) * 10);
    }
}

/// A digit string with a non-zero first digit is worth at least ten to the
/// length less one.
pub proof fn lemma_digits_val_lower(s: Seq<char>)
    requires
        s.len() >= 1,
        digit_val(s[0]) >= 1,
    ensures
        digits_val(s) >= vstd::arithmetic::power::pow(10, (s.len() - 1) as nat),
    decreases s.len(),
{
    if s.len() == 1 {
        assert(s.drop_last() =~= Seq::<char>::empty());
        assert(s.last() == s[0]);
        vstd::arithmetic::power::lemma_pow0(10);
    } else {
        assert(s.drop_last()[0] == s[0]);
        lemma_digits_val_lower(s.drop_last());
        vstd::arithmetic::power::lemma_pow_adds(10, (s.len() - 2) as nat, 1);
        vstd::arithmetic::power::lemma_pow1(10);
        let p2 = vstd::arithmetic::power::pow(10, (s.len() - 2) as nat);
        assert(vstd::arithmetic::power::pow(10, (s.len() - 1) as nat) == p2 * 10);
        assert(digits_val(s) == digits_val(s.drop_last()) * 10 + digit_val(s.last()));
        assert(digits_val(s.drop_last()) * 10 >= p2 * 10);
        assert(digit_val(s.last()) >= 0);
    }
}

/// Leading zeros do not change the value of a digit string.
pub proof fn lemma_digits_val_drop_zero(s: Seq<char>)
    requires
        s.len() >= 1,
        s[0] == '0',
    ensures
        digits_val(s) == digits_val(s.drop_first()),
    decreases s.len(),
{
    if s.len() == 1 {
        assert(s.drop_first() =~= Seq::<char>::empty());
        assert(s.drop_last() =~= Seq::<char>::empty());
        assert(digit_val('0') == 0);
    } else {
        lemma_digits_val_drop_zero(s.drop_last());
        assert(s.drop_last()[0] == s[0]);
        assert(s.drop_last().drop_first() =~= s.drop_first().drop_last());
        assert(s.drop_first().last() == s.last());
        assert(digits_val(s.drop_first()) == digits_val(s.drop_first().drop_last()) * 10
            + digit_val(s.last()));
    }
}

/// A prefix of zeros does not change the value of a digit string.
pub proof fn lemma_digits_val_strip_zeros(s: Seq<char>, z: int)
    requires
        0 <= z <= s.len(),
        forall|i: int| 0 <= i < z ==> s[i] == '0',
    ensures
        digits_val(s) == digits_val(s.skip(z)),
    decreases z,
{
    if z > 0 {
        lemma_digits_val_drop_zero(s);
        lemma_digits_val_strip_zeros(s.drop_first(), z - 1);
        assert(forall|i: int| 0 <= i < z - 1 ==> s.drop_first()[i] == s[i + 1]);
        assert(s.drop_first().skip(z - 1) =~= s.skip(z));
    } else {
        assert(s.skip(0) =~= s);
    }
}

/// The values of the small powers of ten.
pub proof fn lemma_pow10_values()
    ensures
        forall|e: nat|
            e <= 19 ==> #[trigger] vstd::arithmetic::power::pow(10, e) == spec_pow10_table(
                e as int,
            ),
{
    assert forall|e: nat| e <= 19 implies #[trigger] vstd::arithmetic::power::pow(10, e)
        == spec_pow10_table(e as int) by {
        reveal_with_fuel(vstd::arithmetic::power::pow, 21);
        vstd::arithmetic::power::lemma_pow0(10);
        vstd::arithmetic::power::lemma_pow1(10);
        assert(vstd::arithmetic::power::pow(10, 2) == 100);
        assert(vstd::arithmetic::power::pow(10, 3) == 1000);
        assert(vstd::arithmetic::power::pow(10, 4) == 10000);
        assert(vstd::arithmetic::power::pow(10, 5) == 100000);
        assert(vstd::arithmetic::power::pow(10, 6) == 1000000);
        assert(vstd::arithmetic::power::pow(10, 7) == 10000000);
        assert(vstd::arithmetic::power::pow(10, 8) == 100000000);
        assert(vstd::arithmetic::power::pow(10, 9) == 1000000000);
        assert(vstd::arithmetic::power::pow(10, 10) == 10000000000);
        assert(vstd::arithmetic::power::pow(10, 11) == 100000000000);
        assert(vstd::arithmetic::power::pow(10, 12) == 1000000000000);
        assert(vstd::arithmetic::power::pow(10, 13) == 10000000000000);
        assert(vstd::arithmetic::power::pow(10, 14) == 100000000000000);
        assert(vstd::arithmetic::power::pow(10, 15) == 1000000000000000);
        assert(vstd::arithmetic::power::pow(10, 16) == 10000000000000000);
        assert(vstd::arithmetic::power::pow(10, 17) == 100000000000000000);
        assert(vstd::arithmetic::power::pow(10, 18) == 1000000000000000000);
        assert(vstd::arithmetic::power::pow(10, 19) == 10000000000000000000);
    }
}

/// The small powers of ten, by value.
pub open spec fn spec_pow10_table(e: int) -> int {
    if e == 0 {
        1
    } else if e == 1 {
        10
    } else if e == 2 {
        100
    } else if e == 3 {
        1000
    } else if e == 4 {
        10000
    } else if e == 5 {
        100000
    } else if e == 6 {
        1000000
    } else if e == 7 {
        10000000
    } else if e == 8 {
        100000000
    } else if e == 9 {
        1000000000
    } else if e == 10 {
        10000000000
    } else if e == 11 {
        100000000000
    } else if e == 12 {
        1000000000000
    } else if e == 13 {
        10000000000000
    } else if e == 14 {
        100000000000000
    } else if e == 15 {
        1000000000000000
    } else if e == 16 {
        10000000000000000
    } else if e == 17 {
        100000000000000000
    } else if e == 18 {
        1000000000000000000
    } else if e == 19 {
        10000000000000000000
    } else {
        0
    }
}

/// Ten to the power `e`, for the exponents that fit a machine word.
pub fn pow10_u64(e: u64) -> (r: u64)
    requires
        e <= 19,
    ensures
        r as int == vstd::arithmetic::power::pow(10, e as nat),
{
    proof {
        lemma_pow10_values();
    }
    let mut r: u64 = 1;
    let mut i: u64 = 0;
    while i < e
        invariant
            i <= e,
            e <= 19,
            r as int == vstd::arithmetic::power::pow(10, i as nat),
            r as int == spec_pow10_table(i as int),
        decreases e - i,
    {
        proof {
            lemma_pow10_values();
            vstd::arithmetic::power::lemma_pow_adds(10, i as nat, 1);
            vstd::arithmetic::power::lemma_pow1(10);
        }
        r = r * 10;
        i = i + 1;
    }
    r
}

/// The characters `cs[a..b]`, as a vector.
#[verifier::loop_isolation(false)]
pub fn vec_range(cs: &Vec<char>, a: usize, b: usize) -> (r: Vec<char>)
    requires
        a <= b <= cs@.len(),
    ensures
        r@ == cs@.subrange(a as int, b as int),
{
    let mut r: Vec<char> = Vec::new();
    let mut i: usize = a;
    while i < b
        invariant
            a <= i <= b,
            r@ == cs@.subrange(a as int, i as int),
        decreases b - i,
    {
        r.push(cs[i]);
        i = i + 1;
        assert(r@ =~= cs@.subrange(a as int, i as int));
    }
    r
}

/// Splitting a digit string splits its value at a power of ten.
pub proof fn lemma_digits_val_split(s: Seq<char>, m: int)
    requires
        0 <= m <= s.len(),
    ensures
        digits_val(s) == digits_val(s.take(m)) * vstd::arithmetic::power::pow(
            10,
            (s.len() - m) as nat,
        ) + digits_val(s.skip(m)),
    decreases s.len() - m,
{
    if m == s.len() {
        assert(s.take(m) =~= s);
        assert(s.skip(m) =~= Seq::<char>::empty());
        vstd::arithmetic::power::lemma_pow0(10);
    } else {
        lemma_digits_val_split(s, m + 1);
        lemma_digits_val_snoc(s, m);
        let p = vstd::arithmetic::power::pow(10, (s.len() - m - 1) as nat);
        vstd::arithmetic::power::lemma_pow_adds(10, 1, (s.len() - m - 1) as nat);
        vstd::arithmetic::power::lemma_pow1(10);
        assert(s.skip(m).drop_first() =~= s.skip(m + 1));
        assert(s.skip(m)[0] == s[m]);
        // the value of skip(m) in terms of skip(m + 1)
        lemma_digits_front(s.skip(m));
        assert(digits_val(s.skip(m)) == digit_val(s[m]) * vstd::arithmetic::power::pow(
            10,
            (s.len() - m - 1) as nat,
        ) + digits_val(s.skip(m + 1)));
        assert((digits_val(s.take(m)) * 10 + digit_val(s[m])) * p == digits_val(s.take(m)) * (10
            * p) + digit_val(s[m]) * p) by (nonlinear_arith);
    }
}

/// Peeling the first digit off a digit string.
pub proof fn lemma_digits_front(s: Seq<char>)
    requires
        s.len() >= 1,
    ensures
        digits_val(s) == digit_val(s[0]) * vstd::arithmetic::power::pow(10, (s.len() - 1) as nat)
            + digits_val(s.drop_first()),
    decreases s.len(),
{
    if s.len() == 1 {
        assert(s.drop_last() =~= Seq::<char>::empty());
        assert(s.drop_first() =~= Seq::<char>::empty());
        assert(s.last() == s[0]);
        vstd::arithmetic::power::lemma_pow0(10);
    } else {
        lemma_digits_front(s.drop_last());
        assert(s.drop_last()[0] == s[0]);
        assert(s.drop_last().drop_first() =~= s.drop_first().drop_last());
        assert(s.drop_first().last() == s.last());
        assert(s.drop_first().len() == s.len() - 1);
        vstd::arithmetic::power::lemma_pow_adds(10, (s.len() - 2) as nat, 1);
        vstd::arithmetic::power::lemma_pow1(10);
        let p2 = vstd::arithmetic::power::pow(10, (s.len() - 2) as nat);
        assert(digits_val(s) == digits_val(s.drop_last()) * 10 + digit_val(s.last()));
        assert(digits_val(s.drop_last()) == digit_val(s[0]) * p2 + digits_val(
            s.drop_last().drop_first(),
        ));
        assert((digit_val(s[0]) * p2 + digits_val(s.drop_first().drop_last())) * 10 == digit_val(
            s[0],
        ) * (p2 * 10) + digits_val(s.drop_first().drop_last()) * 10) by (nonlinear_arith);
        assert(digits_val(s.drop_first()) == digits_val(s.drop_first().drop_last()) * 10
            + digit_val(s.drop_first().last()));
    }
}

// ---------------------------------------------------------------------------
// Hexadecimal rendering
// ---------------------------------------------------------------------------

/// The lower-case character for the hexadecimal digit `d`.
pub open spec fn hex_char(d: int) -> char {
    if d < 10 {
        digit_char(d)
    } else if d == 10 {
        'a'
    } else if d == 11 {
        'b'
    } else if d == 12 {
        'c'
    } else if d == 13 {
        'd'
    } else if d == 14 {
        'e'
    } else {
        'f'
    }
}

/// `u` as exactly four lower-case hexadecimal digits.
pub open spec fn spec_hex4(u: int) -> Seq<char> {
    seq![
        hex_char(u / 4096 % 16),
        hex_char(u / 256 % 16),
        hex_char(u / 16 % 16),
        hex_char(u % 16),
    ]
}

/// Executable form of [`hex_char`].
fn hex_char_of(d: u32) -> (c: char)
    requires
        d < 16,
    ensures
        c == hex_char(d as int),
{
    if d < 10 {
        digit_char_of(d as u64)
    } else if d == 10 {
        'a'
    } else if d == 11 {
        'b'
    } else if d == 12 {
        'c'
    } else if d == 13 {
        'd'
    } else if d == 14 {
        'e'
    } else {
        'f'
    }
}

/// Renders `u` as exactly four lower-case hexadecimal digits.
pub fn hex4_string(u: u32) -> (s: String)
    requires
        u < 0x10000,
    ensures
        s@ == spec_hex4(u as int),
{
    let mut s = String::new();
    push_char(&mut s, hex_char_of(u / 4096 % 16));
    push_char(&mut s, hex_char_of(u / 256 % 16));
    push_char(&mut s, hex_char_of(u / 16 % 16));
    push_char(&mut s, hex_char_of(u % 16));
    assert(s@ =~= spec_hex4(u as int));
    s
}

// ---------------------------------------------------------------------------
// Lexicographic order on character sequences
// ---------------------------------------------------------------------------

/// Strict lexicographic order on character sequences by scalar value: the
/// order in which serializers that sort object keys emit them.  It coincides
/// with the byte order of the UTF-8 encodings.
pub open spec fn lex_lt(a: Seq<char>, b: Seq<char>) -> bool
    decreases a.len(),
{
    if b.len() == 0 {
        false
    } else if a.len() == 0 {
        true
    } else if a[0] != b[0] {
        (a[0] as u32) < (b[0] as u32)
    } else {
        lex_lt(a.drop_first(), b.drop_first())
    }
}

/// Dropping an equal prefix of both sequences does not change their order.
proof fn lemma_lex_skip(a: Seq<char>, b: Seq<char>, i: int)
    requires
        0 <= i <= a.len(),
        i <= b.len(),
        forall|j: int| 0 <= j < i ==> a[j] == b[j],
    ensures
        lex_lt(a, b) == lex_lt(a.skip(i), b.skip(i)),
    decreases i,
{
    if i > 0 {
        assert(a.len() > 0 && b.len() > 0);
        assert(a[0] == b[0]);
        lemma_lex_skip(a.drop_first(), b.drop_first(), i - 1);
        assert(a.drop_first().skip(i - 1) =~= a.skip(i));
        assert(b.drop_first().skip(i - 1) =~= b.skip(i));
    } else {
        assert(a.skip(0) =~= a);
        assert(b.skip(0) =~= b);
    }
}

/// Compares two strings in the order of [`lex_lt`].
pub fn str_lt(a: &str, b: &str) -> (r: bool)
    ensures
        r == lex_lt(a@, b@),
{
    let alen = a.unicode_len();
    let blen = b.unicode_len();
    let mut i: usize = 0;
    while i < alen && i < blen
        invariant
            i <= alen,
            i <= blen,
            alen == a@.len(),
            blen == b@.len(),
            forall|j: int| 0 <= j < i ==> a@[j] == b@[j],
        decreases alen - i,
    {
        let ca = a.get_char(i);
        let cb = b.get_char(i);
        if ca != cb {
            proof {
                lemma_lex_skip(a@, b@, i as int);
                assert(a@.skip(i as int)[0] == ca);
                assert(b@.skip(i as int)[0] == cb);
            }
            return (ca as u32) < (cb as u32);
        }
        i = i + 1;
    }
    proof {
        lemma_lex_skip(a@, b@, i as int);
    }
    alen < blen
}

/// At most one of `lex_lt(a, b)` and `lex_lt(b, a)` holds.
pub proof fn lemma_lex_asym(a: Seq<char>, b: Seq<char>)
    ensures
        lex_lt(a, b) ==> !lex_lt(b, a),
    decreases a.len(),
{
    if a.len() > 0 && b.len() > 0 && a[0] == b[0] {
        lemma_lex_asym(a.drop_first(), b.drop_first());
    }
}

/// Sequences that the order separates in neither direction are equal.
pub proof fn lemma_lex_connex(a: Seq<char>, b: Seq<char>)
    ensures
        !lex_lt(a, b) && !lex_lt(b, a) ==> a == b,
    decreases a.len(),
{
    if !lex_lt(a, b) && !lex_lt(b, a) {
        if a.len() == 0 || b.len() == 0 {
            assert(a.len() == 0 && b.len() == 0);
            assert(a =~= b);
        } else if a[0] == b[0] {
            lemma_lex_connex(a.drop_first(), b.drop_first());
            assert(a.drop_first() == b.drop_first());
            assert forall|i: int| 0 <= i < a.len() implies a[i] == b[i] by {
                if i > 0 {
                    assert(a[i] == a.drop_first()[i - 1]);
                    assert(b[i] == b.drop_first()[i - 1]);
                }
            }
            assert(a =~= b);
        } else {
            vstd::utf8::char_u32_cast(a[0], a[0] as u32);
            vstd::utf8::char_u32_cast(b[0], b[0] as u32);
            assert(false);
        }
    }
}

/// The order is transitive.
pub proof fn lemma_lex_trans(a: Seq<char>, b: Seq<char>, c: Seq<char>)
    requires
        lex_lt(a, b),
        lex_lt(b, c),
    ensures
        lex_lt(a, c),
    decreases a.len() + b.len() + c.len(),
{
    if b.len() == 0 {
        // lex_lt(b, c) puts c non-empty, and lex_lt(a, b) is impossible
    } else if a.len() == 0 {
        // c is non-empty because lex_lt(b, c)
    } else if c.len() == 0 {
        assert(false);
    } else {
        if a[0] == b[0] && b[0] == c[0] {
            lemma_lex_trans(a.drop_first(), b.drop_first(), c.drop_first());
        } else {
            vstd::utf8::char_u32_cast(a[0], a[0] as u32);
            vstd::utf8::char_u32_cast(b[0], b[0] as u32);
            vstd::utf8::char_u32_cast(c[0], c[0] as u32);
        }
    }
}

// ---------------------------------------------------------------------------
// Runs of spaces
// ---------------------------------------------------------------------------

/// `n` space characters.
pub open spec fn spec_spaces(n: nat) -> Seq<char>
    decreases n,
{
    if n == 0 {
        Seq::empty()
    } else {
        spec_spaces((n - 1) as nat).push(' ')
    }
}

/// Builds a string of `n` spaces.
pub fn spaces(n: usize) -> (s: String)
    ensures
        s@ == spec_spaces(n as nat),
{
    let mut s = String::new();
    let mut i: usize = 0;
    while i < n
        invariant
            i <= n,
            s@ == spec_spaces(i as nat),
        decreases n - i,
    {
        push_char(&mut s, ' ');
        i = i + 1;
    }
    s
}

} // verus!
