use vstd::prelude::*;

verus! {

/// `u` is a Unicode scalar value: not a surrogate, at most U+10FFFF.
pub open spec fn is_unicode_scalar(u: u32) -> bool {
    u < 0xD800 || (0xE000 <= u && u <= 0x10FFFF)
}

/// Relies on char::from_u32: returns `Some` exactly when the value is a
/// Unicode scalar value, and the returned character has that scalar value.
#[verifier::external_body]
pub(crate) fn char_from_u32(u: u32) -> (r: Option<char>)
    ensures
        is_unicode_scalar(u) <==> r is Some,
        r matches Some(c) ==> c as int == u,
{
    char::from_u32(u)
}

/// Relies on String::push: appends the given character to the end.
#[verifier::external_body]
pub(crate) fn push_char(s: &mut String, c: char)
    ensures
        final(s)@ == old(s)@.push(c),
{
    s.push(c);
}

/// The scalar value of `c`.
pub fn char_code(c: char) -> (r: u32)
    ensures
        r == c as int,
{
    c as u32
}

/// The characters of `s`, in order, as a vector.
pub fn str_chars(s: &str) -> (r: Vec<char>)
    ensures
        r@ == s@,
{
    let n = s.unicode_len();
    let mut out: Vec<char> = Vec::new();
    let mut i: usize = 0;
    while i < n
        invariant
            i <= n,
            n == s@.len(),
            out@ == s@.subrange(0, i as int),
        decreases n - i,
    {
        out.push(s.get_char(i));
        i = i + 1;
        proof {
            assert(out@ =~= s@.subrange(0, i as int));
        }
    }
    proof {
        assert(out@ =~= s@);
    }
    out
}

/// The decimal digit character for `d` (0 to 9).
pub open spec fn digit_char(d: int) -> char {
    (48 + d) as char
}

/// The decimal digits of `n`, most significant first, no sign.
pub open spec fn spec_dec_digits(n: nat) -> Seq<char>
    decreases n,
{
    if n < 10 {
        seq![digit_char(n as int)]
    } else {
        spec_dec_digits(n / 10).push(digit_char((n % 10) as int))
    }
}

/// The decimal representation of `v`: a `-` sign when negative, then digits.
pub open spec fn spec_dec_i64(v: int) -> Seq<char> {
    if v < 0 {
        seq!['-'] + spec_dec_digits((-v) as nat)
    } else {
        spec_dec_digits(v as nat)
    }
}

/// Appends the decimal digits of `n` to `out`.
pub fn push_dec_digits(out: &mut String, n: u64)
    ensures
        final(out)@ == old(out)@ + spec_dec_digits(n as nat),
    decreases n,
{
    if n < 10 {
        let c = ((48 + n as u8)) as char;
        assert(c == digit_char(n as int));
        push_char(out, c);
        proof {
            assert(out@ =~= old(out)@ + spec_dec_digits(n as nat));
        }
    } else {
        push_dec_digits(out, n / 10);
        let d = n % 10;
        let c = ((48 + d as u8)) as char;
        assert(c == digit_char(d as int));
        push_char(out, c);
        proof {
            assert(out@ =~= old(out)@ + spec_dec_digits(n as nat));
        }
    }
}

/// Appends the decimal representation of `v` to `out`.
pub fn push_dec_i64(out: &mut String, v: i64)
    ensures
        final(out)@ == old(out)@ + spec_dec_i64(v as int),
{
    if v < 0 {
        push_char(out, '-');
        let m: u64 = (-(v as i128)) as u64;
        push_dec_digits(out, m);
        proof {
            assert(out@ =~= old(out)@ + spec_dec_i64(v as int));
        }
    } else {
        push_dec_digits(out, v as u64);
    }
}

/// The decimal representation of `v` as a fresh string.
pub fn dec_string_i64(v: i64) -> (r: String)
    ensures
        r@ == spec_dec_i64(v as int),
{
    let mut s = String::new();
    push_dec_i64(&mut s, v);
    s
}

/// `c` is a decimal digit.
pub open spec fn is_dec_digit(c: char) -> bool {
    48 <= c as int && c as int <= 57
}

/// Every character of `s` is a decimal digit.
pub open spec fn all_dec_digits(s: Seq<char>) -> bool {
    forall|i: int| 0 <= i < s.len() ==> is_dec_digit(#[trigger] s[i])
}

/// The non-negative integer denoted by a sequence of decimal digits.
pub open spec fn digits_val(s: Seq<char>) -> int
    decreases s.len(),
{
    if s.len() == 0 {
        0
    } else {
        digits_val(s.drop_last()) * 10 + (s.last() as int - 48)
    }
}

/// What a token denotes as a signed 32-bit decimal integer: an optional sign,
/// then at least one digit, with the value in range; anything else is `None`.
pub open spec fn spec_parse_num(s: Seq<char>) -> Option<i32> {
    if s.len() == 0 {
        None
    } else {
        let neg = s[0] == '-';
        let body = if s[0] == '-' || s[0] == '+' {
            s.subrange(1, s.len() as int)
        } else {
            s
        };
        if body.len() == 0 || !all_dec_digits(body) {
            None
        } else {
            let v = if neg {
                -digits_val(body)
            } else {
                digits_val(body)
            };
            if i32::MIN <= v && v <= i32::MAX {
                Some(v as i32)
            } else {
                None
            }
        }
    }
}

proof fn lemma_digits_val_nonneg(s: Seq<char>)
    requires
        all_dec_digits(s),
    ensures
        digits_val(s) >= 0,
    decreases s.len(),
{
    if s.len() > 0 {
        assert(all_dec_digits(s.drop_last()));
        lemma_digits_val_nonneg(s.drop_last());
    }
}

/// Parses a token as a signed 32-bit decimal integer.
pub fn parse_num(input: &str) -> (r: Option<i32>)
    ensures
        r == spec_parse_num(input@),
{
    let cs = str_chars(input);
    parse_num_chars(&cs)
}

/// Parses a token, given as its characters, as a signed 32-bit decimal integer.
#[verifier::loop_isolation(false)]
pub fn parse_num_chars(cs: &Vec<char>) -> (r: Option<i32>)
    ensures
        r == spec_parse_num(cs@),
{
    let n = cs.len();
    if n == 0 {
        return None;
    }
    let c0 = cs[0];
    let neg = c0 == '-';
    let start: usize = if c0 == '-' || c0 == '+' {
        1
    } else {
        0
    };
    let ghost body = if c0 == '-' || c0 == '+' {
        cs@.subrange(1, cs@.len() as int)
    } else {
        cs@
    };
    if start == n {
        return None;
    }
    let mut acc: i64 = 0;
    let mut over = false;
    let mut i: usize = start;
    while i < n
        invariant
            start <= i <= n,
            n == cs@.len(),
            start == 1 ==> body == cs@.subrange(1, n as int),
            start == 0 ==> body == cs@,
            body.len() == n - start,
            forall|j: int| 0 <= j < i - start ==> is_dec_digit(#[trigger] body[j]),
            forall|j: int| start <= j < n ==> body[j - start] == cs@[j],
            !over ==> acc == digits_val(body.subrange(0, i - start)),
            !over ==> 0 <= acc <= 0x8000_0000i64,
            over ==> digits_val(body.subrange(0, i - start)) > 0x8000_0000,
            over ==> all_dec_digits(body.subrange(0, i - start)),
        decreases n - i,
    {
        let c = cs[i];
        let u = char_code(c);
        if !(48 <= u && u <= 57) {
            assert(!is_dec_digit(body[i - start]));
            assert(!all_dec_digits(body));
            return None;
        }
        assert(is_dec_digit(c));
        let d = (u - 48) as i64;
        let ghost pre = body.subrange(0, i - start);
        let ghost cur = body.subrange(0, i + 1 - start);
        proof {
            assert(cur.drop_last() =~= pre);
            assert(cur.last() == body[i - start]);
            assert(digits_val(cur) == digits_val(pre) * 10 + (c as int - 48));
            assert(d == c as int - 48);
        }
        if over {
            proof {
                lemma_digits_val_nonneg(pre);
            }
        } else {
            acc = acc * 10 + d;
            if acc > 0x8000_0000i64 {
                over = true;
            }
        }
        i = i + 1;
    }
    proof {
        assert(body.subrange(0, n - start) =~= body);
    }
    if over {
        return None;
    }
    assert(acc == digits_val(body));
    if neg {
        assert(c0 == '-');
        if acc > 0x8000_0000i64 {
            return None;
        }
        let v = (-acc) as i32;
        assert(v as int == -digits_val(body));
        Some(v)
    } else {
        if acc > 0x7FFF_FFFFi64 {
            return None;
        }
        Some(acc as i32)
    }
}

/// The ASCII-lowercased form of `c`: letters `A` to `Z` map to `a` to `z`.
pub open spec fn lower_char(c: char) -> char {
    if 65 <= c as int && c as int <= 90 {
        ((c as int) + 32) as char
    } else {
        c
    }
}

/// The ASCII-lowercased form of a sequence of characters.
pub open spec fn spec_lower(s: Seq<char>) -> Seq<char> {
    s.map_values(|c: char| lower_char(c))
}

/// The ASCII-lowercased form of `s`.
pub fn to_lowercase(s: &str) -> (r: String)
    ensures
        r@ == spec_lower(s@),
{
    let cs = str_chars(s);
    let n = cs.len();
    let mut out = String::new();
    let mut i: usize = 0;
    while i < n
        invariant
            i <= n,
            n == cs@.len(),
            cs@ == s@,
            out@ == spec_lower(s@.subrange(0, i as int)),
        decreases n - i,
    {
        let c = cs[i];
        let u = char_code(c);
        let lc: char = if 65 <= u && u <= 90 {
            ((u + 32) as u8) as char
        } else {
            c
        };
        assert(lc == lower_char(c));
        push_char(&mut out, lc);
        i = i + 1;
        proof {
            assert(out@ =~= spec_lower(s@.subrange(0, i as int)));
        }
    }
    proof {
        assert(s@.subrange(0, n as int) =~= s@);
    }
    out
}

/// Whether two string slices hold the same characters.
pub fn str_eq(a: &str, b: &str) -> (r: bool)
    ensures
        r == (a@ == b@),
{
    let na = a.unicode_len();
    let nb = b.unicode_len();
    if na != nb {
        return false;
    }
    let mut i: usize = 0;
    while i < na
        invariant
            i <= na,
            na == a@.len(),
            na == b@.len(),
            forall|j: int| 0 <= j < i ==> a@[j] == b@[j],
        decreases na - i,
    {
        if a.get_char(i) != b.get_char(i) {
            return false;
        }
        i = i + 1;
    }
    proof {
        assert(a@ =~= b@);
    }
    true
}

} // verus!
