//! Character-level string utilities: building strings one character at a
//! time, decimal rendering of integers, parsing integers out of decimal
//! text, and lexicographic comparison of strings (the order in which
//! messages are sorted by their timestamp text).

use vstd::prelude::*;

verus! {

/// Relies on std String::push: appends exactly one character.
#[verifier::external_body]
pub fn push_char(s: &mut String, c: char)
    ensures
        final(s)@ == old(s)@.push(c),
{
    s.push(c);
}

/// Collect the characters of a string slice into a vector.
pub fn str_chars(s: &str) -> (v: Vec<char>)
    ensures
        v@ == s@,
{
    let n: usize = s.unicode_len();
    let mut v: Vec<char> = Vec::new();
    let mut i: usize = 0;
    while i < n
        invariant
            n == s@.len(),
            i <= n,
            v@ == s@.take(i as int),
        decreases n - i,
    {
        let c = s.get_char(i);
        v.push(c);
        proof {
            assert(v@ =~= s@.take(i + 1 as int));
        }
        i = i + 1;
    }
    proof {
        assert(s@.take(n as int) =~= s@);
    }
    v
}

/// Lexicographic "less or equal" on character sequences, by code point.
pub open spec fn lex_le(a: Seq<char>, b: Seq<char>) -> bool
    decreases a.len(),
{
    if a.len() == 0 {
        true
    } else if b.len() == 0 {
        false
    } else if a[0] == b[0] {
        lex_le(a.drop_first(), b.drop_first())
    } else {
        (a[0] as u32) < (b[0] as u32)
    }
}

/// Lexicographic comparison of two string slices.
pub fn str_le(a: &str, b: &str) -> (r: bool)
    ensures
        r == lex_le(a@, b@),
{
    let an: usize = a.unicode_len();
    let bn: usize = b.unicode_len();
    let mut i: usize = 0;
    proof {
        assert(a@.skip(0) =~= a@);
        assert(b@.skip(0) =~= b@);
        assert(a@.take(0) =~= b@.take(0));
    }
    loop
        invariant
            i <= an,
            i <= bn,
            an == a@.len(),
            bn == b@.len(),
            a@.take(i as int) == b@.take(i as int),
            lex_le(a@, b@) == lex_le(a@.skip(i as int), b@.skip(i as int)),
        decreases an - i,
    {
        if i >= an {
            return true;
        }
        if i >= bn {
            return false;
        }
        let ca = a.get_char(i);
        let cb = b.get_char(i);
        if ca == cb {
            proof {
                assert(a@.take(i + 1 as int) =~= b@.take(i + 1 as int));
                assert(a@.skip(i as int).drop_first() =~= a@.skip(i + 1 as int));
                assert(b@.skip(i as int).drop_first() =~= b@.skip(i + 1 as int));
            }
            i = i + 1;
        } else {
            return (ca as u32) < (cb as u32);
        }
    }
}

/// Two characters with the same code point are the same character.
pub proof fn lemma_char_code_injective(a: char, b: char)
    requires
        a as u32 == b as u32,
    ensures
        a == b,
{
    vstd::utf8::char_u32_cast(a, a as u32);
    vstd::utf8::char_u32_cast(b, b as u32);
}

/// lex_le is total: one direction always holds.
pub proof fn lemma_lex_le_total(a: Seq<char>, b: Seq<char>)
    ensures
        lex_le(a, b) || lex_le(b, a),
    decreases a.len(),
{
    if a.len() > 0 && b.len() > 0 {
        if a[0] == b[0] {
            lemma_lex_le_total(a.drop_first(), b.drop_first());
        } else if a[0] as u32 == b[0] as u32 {
            lemma_char_code_injective(a[0], b[0]);
        }
    }
}

/// lex_le is transitive.
pub proof fn lemma_lex_le_trans(a: Seq<char>, b: Seq<char>, c: Seq<char>)
    requires
        lex_le(a, b),
        lex_le(b, c),
    ensures
        lex_le(a, c),
    decreases a.len(),
{
    if a.len() > 0 {
        assert(b.len() > 0);
        assert(c.len() > 0);
        if a[0] == b[0] && b[0] == c[0] {
            lemma_lex_le_trans(a.drop_first(), b.drop_first(), c.drop_first());
        } else if a[0] == b[0] {
            assert((b[0] as u32) < (c[0] as u32));
        } else if b[0] == c[0] {
            assert((a[0] as u32) < (b[0] as u32));
        } else {
            assert((a[0] as u32) < (c[0] as u32));
            if a[0] == c[0] {
                assert(false);
            }
        }
    }
}

/// The decimal digit for a value below ten.
pub open spec fn dec_digit(n: nat) -> char {
    if n == 0 {
        '0'
    } else if n == 1 {
        '1'
    } else if n == 2 {
        '2'
    } else if n == 3 {
        '3'
    } else if n == 4 {
        '4'
    } else if n == 5 {
        '5'
    } else if n == 6 {
        '6'
    } else if n == 7 {
        '7'
    } else if n == 8 {
        '8'
    } else {
        '9'
    }
}

/// Decimal text of a natural number, without leading zeros (except "0").
pub open spec fn dec_text(n: nat) -> Seq<char>
    decreases n,
{
    if n < 10 {
        seq![dec_digit(n)]
    } else {
        dec_text(n / 10) + seq![dec_digit(n % 10)]
    }
}

/// Append the decimal text of `n` to `out`.
pub fn append_u64(out: &mut String, n: u64)
    ensures
        final(out)@ == old(out)@ + dec_text(n as nat),
{
    let mut rev: Vec<char> = Vec::new();
    let mut m: u64 = n;
    while m >= 10
        invariant
            dec_text(n as nat) == dec_text(m as nat) + rev@.reverse(),
        decreases m,
    {
        let d: u64 = m % 10;
        proof {
            assert(dec_text(m as nat) == dec_text((m / 10) as nat) + seq![dec_digit((m % 10) as nat)]);
            assert((rev@.push(dec_digit(d as nat))).reverse() =~= seq![dec_digit(d as nat)]
                + rev@.reverse());
        }
        rev.push(dec_digit_exec(d));
        m = m / 10;
    }
    push_char(out, dec_digit_exec(m));
    proof {
        assert(old(out)@.push(dec_digit(m as nat)) =~= old(out)@ + seq![dec_digit(m as nat)]);
    }
    let ghost mid = out@;
    let mut j: usize = rev.len();
    while j > 0
        invariant
            j <= rev@.len(),
            out@ == mid + rev@.reverse().take(rev@.len() - j),
            mid == old(out)@ + seq![dec_digit(m as nat)],
            dec_text(n as nat) == dec_text(m as nat) + rev@.reverse(),
            m < 10,
        decreases j,
    {
        j = j - 1;
        push_char(out, rev[j]);
        proof {
            assert(rev@.reverse()[rev@.len() - j - 1] == rev@[j as int]);
            assert(out@ =~= mid + rev@.reverse().take(rev@.len() - j));
        }
    }
    proof {
        assert(rev@.reverse().take(rev@.len() as int) =~= rev@.reverse());
        assert(dec_text(m as nat) == seq![dec_digit(m as nat)]);
        assert(out@ =~= old(out)@ + dec_text(n as nat));
    }
}

/// The decimal digit character for a value below ten, as executable code.
pub fn dec_digit_exec(d: u64) -> (c: char)
    requires
        d < 10,
    ensures
        c == dec_digit(d as nat),
{
    if d == 0 {
        '0'
    } else if d == 1 {
        '1'
    } else if d == 2 {
        '2'
    } else if d == 3 {
        '3'
    } else if d == 4 {
        '4'
    } else if d == 5 {
        '5'
    } else if d == 6 {
        '6'
    } else if d == 7 {
        '7'
    } else if d == 8 {
        '8'
    } else {
        '9'
    }
}

/// The decimal text of `n` as a fresh string.
pub fn u64_to_string(n: u64) -> (s: String)
    ensures
        s@ == dec_text(n as nat),
{
    let mut s = String::new();
    append_u64(&mut s, n);
    proof {
        assert(Seq::<char>::empty() + dec_text(n as nat) =~= dec_text(n as nat));
    }
    s
}

/// The hexadecimal digit for a value below sixteen.
pub open spec fn hex_digit_ch(n: nat) -> char {
    if n == 0 {
        '0'
    } else if n == 1 {
        '1'
    } else if n == 2 {
        '2'
    } else if n == 3 {
        '3'
    } else if n == 4 {
        '4'
    } else if n == 5 {
        '5'
    } else if n == 6 {
        '6'
    } else if n == 7 {
        '7'
    } else if n == 8 {
        '8'
    } else if n == 9 {
        '9'
    } else if n == 10 {
        'a'
    } else if n == 11 {
        'b'
    } else if n == 12 {
        'c'
    } else if n == 13 {
        'd'
    } else if n == 14 {
        'e'
    } else {
        'f'
    }
}

/// The hexadecimal digit character, as executable code.
pub fn hex_digit_exec(n: u32) -> (c: char)
    requires
        n < 16,
    ensures
        c == hex_digit_ch(n as nat),
{
    if n == 0 {
        '0'
    } else if n == 1 {
        '1'
    } else if n == 2 {
        '2'
    } else if n == 3 {
        '3'
    } else if n == 4 {
        '4'
    } else if n == 5 {
        '5'
    } else if n == 6 {
        '6'
    } else if n == 7 {
        '7'
    } else if n == 8 {
        '8'
    } else if n == 9 {
        '9'
    } else if n == 10 {
        'a'
    } else if n == 11 {
        'b'
    } else if n == 12 {
        'c'
    } else if n == 13 {
        'd'
    } else if n == 14 {
        'e'
    } else {
        'f'
    }
}

/// How one character reads inside a JSON string literal: quote and
/// backslash are escaped, control characters take their short or numeric
/// escapes, everything else stands as itself.
pub open spec fn esc_char(c: char) -> Seq<char> {
    if c == '"' {
        seq!['\\', '"']
    } else if c == '\\' {
        seq!['\\', '\\']
    } else if c == '\u{08}' {
        seq!['\\', 'b']
    } else if c == '\u{09}' {
        seq!['\\', 't']
    } else if c == '\u{0A}' {
        seq!['\\', 'n']
    } else if c == '\u{0C}' {
        seq!['\\', 'f']
    } else if c == '\u{0D}' {
        seq!['\\', 'r']
    } else if (c as u32) < 0x20 {
        seq!['\\', 'u', '0', '0', hex_digit_ch(((c as u32) / 16) as nat), hex_digit_ch(
            ((c as u32) % 16) as nat,
        )]
    } else {
        seq![c]
    }
}

/// The escaped body of a JSON string literal.
pub open spec fn esc_text(s: Seq<char>) -> Seq<char>
    decreases s.len(),
{
    if s.len() == 0 {
        Seq::empty()
    } else {
        esc_text(s.drop_last()) + esc_char(s.last())
    }
}

/// Is `c` a decimal digit?
pub open spec fn is_digit(c: char) -> bool {
    '0' <= c <= '9'
}

/// Numeric value of a digit character.
pub open spec fn digit_val(c: char) -> nat {
    ((c as u32) - ('0' as u32)) as nat
}

/// Value of a sequence of digit characters read left to right.
pub open spec fn digits_val(s: Seq<char>) -> nat
    decreases s.len(),
{
    if s.len() == 0 {
        0
    } else {
        digits_val(s.drop_last()) * 10 + digit_val(s.last())
    }
}

/// Length of the leading run of digits of `s`.
pub open spec fn digit_run(s: Seq<char>) -> nat
    decreases s.len(),
{
    if s.len() == 0 || !is_digit(s[0]) {
        0
    } else {
        1 + digit_run(s.drop_first())
    }
}

/// The integer denoted by the leading decimal run of `s`: an optional minus
/// sign, then at least one digit; everything after the digits is ignored
/// (a fractional part, for instance). None when no digit leads.
pub open spec fn leading_int(s: Seq<char>) -> Option<int> {
    let body = if s.len() > 0 && s[0] == '-' {
        s.drop_first()
    } else {
        s
    };
    let neg = s.len() > 0 && s[0] == '-';
    let k = digit_run(body);
    if k == 0 {
        None
    } else if neg {
        Some(-(digits_val(body.take(k as int)) as int))
    } else {
        Some(digits_val(body.take(k as int)) as int)
    }
}

/// The cap below which this library reads decimal integers exactly.
pub open spec fn int_read_cap() -> int {
    100_000_000_000_000_000
}

/// Reads the leading decimal integer of `s`: an optional minus sign, then
/// digits; anything after the digits (a fractional part, say) is ignored.
/// Values whose magnitude reaches the cap are rejected rather than
/// overflowed.
pub fn parse_leading_i64(s: &str) -> (r: Option<i64>)
    ensures
        ({
            let li = leading_int(s@);
            match r {
                Some(x) => li == Some(x as int) && -int_read_cap() < x < int_read_cap(),
                None => li is None || li->0 >= int_read_cap() || li->0 <= -int_read_cap(),
            }
        }),
{
    let n: usize = s.unicode_len();
    let neg: bool = n > 0 && s.get_char(0) == '-';
    let start: usize = if neg {
        1
    } else {
        0
    };
    let ghost body = if neg {
        s@.drop_first()
    } else {
        s@
    };
    proof {
        assert(body =~= s@.skip(start as int));
    }
    let mut i: usize = start;
    let mut val: u64 = 0;
    loop
        invariant
            start <= i <= n,
            n == s@.len(),
            start <= 1,
            start == 1 <==> (s@.len() > 0 && s@[0] == '-'),
            body == s@.skip(start as int),
            forall|k: int| 0 <= k < i - start ==> is_digit(body[k]),
            val == digits_val(body.take(i - start)),
            val < 100_000_000_000_000_000u64,
        ensures
            start <= i <= n,
            forall|k: int| 0 <= k < i - start ==> is_digit(body[k]),
            val == digits_val(body.take(i - start)),
            val < 100_000_000_000_000_000u64,
            i == n || !is_digit(s@[i as int]),
        decreases n - i,
    {
        if i >= n {
            break ;
        }
        let c = s.get_char(i);
        if !('0' <= c && c <= '9') {
            break ;
        }
        let d: u64 = (c as u32 as u64) - 48;
        proof {
            assert(is_digit(body[i - start]));
            assert(d == digit_val(body[i - start]));
            assert(body.take(i - start + 1).drop_last() =~= body.take(i - start));
            assert(body.take(i - start + 1).last() == body[i - start]);
        }
        val = val * 10 + d;
        i = i + 1;
        if val >= 100_000_000_000_000_000u64 {
            proof {
                lemma_digit_run_le(body);
                lemma_digit_run_at_least(body, i - start);
                lemma_digits_val_mono(body, i - start, digit_run(body) as int);
                assert(digits_val(body.take(digit_run(body) as int)) >= int_read_cap());
                assert(leading_int(s@) is Some);
                let k = digit_run(body) as int;
                if start == 1 {
                    assert(leading_int(s@) == Some(-(digits_val(body.take(k)) as int)));
                } else {
                    assert(digit_run(body) > 0);
                    assert(!(s@.len() > 0 && s@[0] == '-'));
                    assert(body == s@);
                    assert(leading_int(s@) == Some(digits_val(body.take(k)) as int));
                }
                assert(leading_int(s@)->0 >= int_read_cap() || leading_int(s@)->0
                    <= -int_read_cap());
            }
            return None;
        }
    }
    if i == start {
        proof {
            assert(digit_run(body) == 0) by {
                if body.len() > 0 && is_digit(body[0]) {
                    assert(false);
                }
            }
        }
        return None;
    }
    proof {
        lemma_digit_run_exact(body, i - start);
    }
    if neg {
        Some(-(val as i64))
    } else {
        Some(val as i64)
    }
}

/// Are two string slices the same text?
pub fn str_eq(a: &str, b: &str) -> (r: bool)
    ensures
        r == (a@ == b@),
{
    let sa: String = a.to_owned();
    let sb: String = b.to_owned();
    sa == sb
}

/// Does `s` start with `prefix`?
pub fn str_starts_with(s: &str, prefix: &str) -> (r: bool)
    ensures
        r == (s@.len() >= prefix@.len() && s@.take(prefix@.len() as int) == prefix@),
{
    let n: usize = s.unicode_len();
    let m: usize = prefix.unicode_len();
    if n < m {
        return false;
    }
    let mut i: usize = 0;
    loop
        invariant
            i <= m,
            m <= n,
            n == s@.len(),
            m == prefix@.len(),
            forall|k: int| 0 <= k < i ==> s@[k] == prefix@[k],
        ensures
            (i == m && forall|k: int| 0 <= k < m ==> s@[k] == prefix@[k]) || (i < m
                && s@[i as int] != prefix@[i as int]),
        decreases m - i,
    {
        if i >= m {
            break ;
        }
        if s.get_char(i) != prefix.get_char(i) {
            break ;
        }
        i = i + 1;
    }
    if i == m {
        proof {
            assert(s@.take(m as int) =~= prefix@);
        }
        true
    } else {
        proof {
            assert(s@.take(m as int)[i as int] != prefix@[i as int]);
        }
        false
    }
}

/// Does `s` end with `suffix`?
pub fn str_ends_with(s: &str, suffix: &str) -> (r: bool)
    ensures
        r == (s@.len() >= suffix@.len() && s@.skip(s@.len() - suffix@.len()) == suffix@),
{
    let n: usize = s.unicode_len();
    let m: usize = suffix.unicode_len();
    if n < m {
        return false;
    }
    let off: usize = n - m;
    let mut i: usize = 0;
    loop
        invariant
            i <= m,
            off == n - m,
            m <= n,
            n == s@.len(),
            m == suffix@.len(),
            forall|k: int| 0 <= k < i ==> s@[off + k] == suffix@[k],
        ensures
            (i == m && forall|k: int| 0 <= k < m ==> s@[off + k] == suffix@[k]) || (i < m
                && s@[off + i] != suffix@[i as int]),
        decreases m - i,
    {
        if i >= m {
            break ;
        }
        if s.get_char(off + i) != suffix.get_char(i) {
            break ;
        }
        i = i + 1;
    }
    if i == m {
        proof {
            assert(s@.skip(off as int) =~= suffix@);
        }
        true
    } else {
        proof {
            assert(s@.skip(off as int)[i as int] != suffix@[i as int]);
        }
        false
    }
}

/// Does `needle` occur in `s`?
pub open spec fn has_substring(s: Seq<char>, needle: Seq<char>) -> bool {
    exists|i: int|
        0 <= i <= s.len() - needle.len() && #[trigger] s.subrange(i, i + needle.len()) == needle
}

/// Substring search, by scanning every start position.
pub fn str_contains(s: &str, needle: &str) -> (r: bool)
    ensures
        r == has_substring(s@, needle@),
{
    let n: usize = s.unicode_len();
    let m: usize = needle.unicode_len();
    if m > n {
        return false;
    }
    let mut i: usize = 0;
    loop
        invariant
            i <= n - m + 1,
            m <= n,
            n == s@.len(),
            m == needle@.len(),
            forall|t: int|
                0 <= t < i ==> #[trigger] s@.subrange(t, t + needle@.len()) != needle@,
        ensures
            i == n - m + 1,
            forall|t: int|
                0 <= t < i ==> #[trigger] s@.subrange(t, t + needle@.len()) != needle@,
        decreases n - m + 1 - i,
    {
        if i > n - m {
            break ;
        }
        let mut j: usize = 0;
        loop
            invariant
                j <= m,
                i <= n - m,
                m <= n,
                n == s@.len(),
                m == needle@.len(),
                forall|k: int| 0 <= k < j ==> s@[i + k] == needle@[k],
            ensures
                (j == m && forall|k: int| 0 <= k < m ==> s@[i + k] == needle@[k]) || (j < m
                    && s@[i + j] != needle@[j as int]),
            decreases m - j,
        {
            if j >= m {
                break ;
            }
            if s.get_char(i + j) != needle.get_char(j) {
                break ;
            }
            j = j + 1;
        }
        if j == m {
            proof {
                assert(s@.subrange(i as int, i + needle@.len()) =~= needle@);
            }
            return true;
        }
        proof {
            assert(s@.subrange(i as int, i + needle@.len())[j as int] != needle@[j as int]);
        }
        i = i + 1;
    }
    proof {
        assert forall|t: int| 0 <= t <= s@.len() - needle@.len() implies #[trigger] s@.subrange(
            t,
            t + needle@.len(),
        ) != needle@ by {
            assert(0 <= t < i);
        }
    }
    false
}

/// Index of the first occurrence of `c`, or the length when `c` is absent.
pub open spec fn idx_of(s: Seq<char>, c: char) -> int
    decreases s.len(),
{
    if s.len() == 0 {
        0
    } else if s[0] == c {
        0
    } else {
        1 + idx_of(s.drop_first(), c)
    }
}

/// The pieces of `s` between occurrences of `c`; never empty, and `s`
/// itself when `c` is absent.
pub open spec fn split_ch(s: Seq<char>, c: char) -> Seq<Seq<char>>
    decreases s.len(),
{
    let i = idx_of(s, c);
    if 0 <= i < s.len() {
        seq![s.take(i)] + split_ch(s.skip(i + 1), c)
    } else {
        seq![s]
    }
}

/// The pieces joined again, with `c` between them.
pub open spec fn join_ch(parts: Seq<Seq<char>>, c: char) -> Seq<char>
    decreases parts.len(),
{
    if parts.len() == 0 {
        Seq::empty()
    } else if parts.len() == 1 {
        parts[0]
    } else {
        join_ch(parts.drop_last(), c) + seq![c] + parts.last()
    }
}

/// The texts of a list of strings.
pub open spec fn strs_view(s: Seq<String>) -> Seq<Seq<char>> {
    s.map_values(|x: String| x@)
}

/// If the first `k` characters differ from `c` and the next one is `c` (or
/// the sequence ends), the first occurrence is at `k`.
pub proof fn lemma_idx_of_exact(s: Seq<char>, c: char, k: int)
    requires
        0 <= k <= s.len(),
        forall|i: int| 0 <= i < k ==> s[i] != c,
        k == s.len() || s[k] == c,
    ensures
        idx_of(s, c) == k,
    decreases k,
{
    if k > 0 {
        assert(s[0] != c);
        assert(forall|i: int| 0 <= i < k - 1 ==> #[trigger] s.drop_first()[i] != c);
        assert(k - 1 == s.drop_first().len() || s.drop_first()[k - 1] == c);
        lemma_idx_of_exact(s.drop_first(), c, k - 1);
    }
}

/// Split `s` at every occurrence of `c`.
pub fn split_str(s: &str, c: char) -> (r: Vec<String>)
    ensures
        strs_view(r@) == split_ch(s@, c),
{
    let n: usize = s.unicode_len();
    let mut acc: Vec<String> = Vec::new();
    let mut cur: String = String::new();
    let mut st: usize = 0;
    let mut i: usize = 0;
    proof {
        assert(s@.skip(0) =~= s@);
        assert(strs_view(acc@) =~= Seq::<Seq<char>>::empty());
        assert(cur@ =~= s@.subrange(0, 0));
    }
    while i < n
        invariant
            st <= i <= n,
            n == s@.len(),
            cur@ == s@.subrange(st as int, i as int),
            forall|k: int| st <= k < i ==> s@[k] != c,
            split_ch(s@, c) == strs_view(acc@) + split_ch(s@.skip(st as int), c),
        decreases n - i,
    {
        let ch = s.get_char(i);
        if ch == c {
            let ghost tail = s@.skip(st as int);
            proof {
                assert(forall|k: int| 0 <= k < i - st ==> #[trigger] tail[k] != c);
                assert(tail[i - st] == c);
                lemma_idx_of_exact(tail, c, i - st);
                assert(tail.take(i - st) =~= s@.subrange(st as int, i as int));
                assert(tail.skip(i - st + 1) =~= s@.skip(i + 1 as int));
            }
            acc.push(cur);
            proof {
                assert(strs_view(acc@) =~= strs_view(acc@.drop_last()) + seq![cur@]);
                assert(split_ch(s@, c) == strs_view(acc@) + split_ch(s@.skip(i + 1 as int), c));
            }
            cur = String::new();
            st = i + 1;
            proof {
                assert(cur@ =~= s@.subrange(st as int, st as int));
            }
        } else {
            push_char(&mut cur, ch);
            proof {
                assert(cur@ =~= s@.subrange(st as int, i + 1 as int));
            }
        }
        i = i + 1;
    }
    let ghost tail = s@.skip(st as int);
    proof {
        assert(forall|k: int| 0 <= k < n - st ==> #[trigger] tail[k] != c);
        lemma_idx_of_exact(tail, c, n - st);
        assert(cur@ =~= tail);
    }
    acc.push(cur);
    proof {
        assert(strs_view(acc@) =~= strs_view(acc@.drop_last()) + seq![cur@]);
        assert(split_ch(s@, c) =~= strs_view(acc@));
    }
    acc
}

/// Join `parts[from..]` with `c` between the pieces.
pub fn join_from(parts: &Vec<String>, from: usize, c: char) -> (r: String)
    requires
        from <= parts@.len(),
    ensures
        r@ == join_ch(strs_view(parts@).skip(from as int), c),
{
    let ghost ps = strs_view(parts@).skip(from as int);
    let mut out = String::new();
    let mut i: usize = from;
    proof {
        assert(ps.take(0) =~= Seq::<Seq<char>>::empty());
    }
    while i < parts.len()
        invariant
            from <= i <= parts@.len(),
            ps == strs_view(parts@).skip(from as int),
            ps.len() == parts@.len() - from,
            out@ == join_ch(ps.take(i - from), c),
        decreases parts@.len() - i,
    {
        if i > from {
            push_char(&mut out, c);
        }
        out.append(parts[i].as_str());
        proof {
            assert(ps[i - from] == parts@[i as int]@);
            assert(ps.take(i - from + 1).drop_last() =~= ps.take(i - from));
            assert(ps.take(i - from + 1).last() == ps[i - from]);
            assert(out@ =~= join_ch(ps.take(i - from + 1), c));
        }
        i = i + 1;
    }
    proof {
        assert(ps.take(parts@.len() - from) =~= ps);
    }
    out
}

/// The digit run never passes the end of the sequence.
proof fn lemma_digit_run_le(s: Seq<char>)
    ensures
        digit_run(s) <= s.len(),
    decreases s.len(),
{
    if s.len() > 0 && is_digit(s[0]) {
        lemma_digit_run_le(s.drop_first());
    }
}

/// Reading more digits never shrinks the value.
proof fn lemma_digits_val_mono(s: Seq<char>, j: int, k: int)
    requires
        0 <= j <= k <= s.len(),
    ensures
        digits_val(s.take(j)) <= digits_val(s.take(k)),
    decreases k - j,
{
    if j < k {
        lemma_digits_val_mono(s, j, k - 1);
        assert(s.take(k).drop_last() =~= s.take(k - 1));
        assert(digits_val(s.take(k)) == digits_val(s.take(k - 1)) * 10 + digit_val(s.take(k).last()));
    }
}

/// If the first `k` characters are digits, the digit run is at least `k`.
proof fn lemma_digit_run_at_least(s: Seq<char>, k: int)
    requires
        0 <= k <= s.len(),
        forall|i: int| 0 <= i < k ==> is_digit(s[i]),
    ensures
        digit_run(s) >= k,
    decreases k,
{
    if k > 0 {
        assert(is_digit(s[0]));
        assert(forall|i: int| 0 <= i < k - 1 ==> is_digit(#[trigger] s.drop_first()[i]));
        lemma_digit_run_at_least(s.drop_first(), k - 1);
    }
}

/// If the first `k` characters are digits and the next one is not (or the
/// sequence ends), the digit run is exactly `k`.
proof fn lemma_digit_run_exact(s: Seq<char>, k: int)
    requires
        0 <= k <= s.len(),
        forall|i: int| 0 <= i < k ==> is_digit(s[i]),
        k == s.len() || !is_digit(s[k]),
    ensures
        digit_run(s) == k,
    decreases k,
{
    if k == 0 {
    } else {
        assert(is_digit(s[0]));
        assert(forall|i: int| 0 <= i < k - 1 ==> is_digit(#[trigger] s.drop_first()[i]));
        assert(k - 1 == s.drop_first().len() || !is_digit(s.drop_first()[k - 1]));
        lemma_digit_run_exact(s.drop_first(), k - 1);
    }
}


/// The exact integer denoted by `s`: an optional minus sign then digits and
/// nothing else, within the reading cap.
pub open spec fn exact_int(s: Seq<char>) -> Option<int> {
    let body = if s.len() > 0 && s[0] == '-' {
        s.drop_first()
    } else {
        s
    };
    if body.len() > 0 && digit_run(body) == body.len() {
        leading_int(s)
    } else {
        None
    }
}

/// Read a whole string as a decimal integer; anything but an optional minus
/// sign and digits, or a value at or past the cap, reads as nothing.
pub fn parse_exact_i64(s: &str) -> (r: Option<i64>)
    ensures
        ({
            let e = exact_int(s@);
            match r {
                Some(x) => e == Some(x as int) && -int_read_cap() < x < int_read_cap(),
                None => e is None || e->0 >= int_read_cap() || e->0 <= -int_read_cap(),
            }
        }),
{
    let n: usize = s.unicode_len();
    let start: usize = if n > 0 && s.get_char(0) == '-' {
        1
    } else {
        0
    };
    let ghost body = s@.skip(start as int);
    proof {
        if start == 0 {
            assert(body =~= s@);
        } else {
            assert(body =~= s@.drop_first());
        }
    }
    if n == start {
        proof {
            assert(body.len() == 0);
        }
        return None;
    }
    let mut i: usize = start;
    loop
        invariant
            start <= i <= n,
            n == s@.len(),
            start <= 1,
            body == s@.skip(start as int),
            forall|k: int| 0 <= k < i - start ==> is_digit(body[k]),
        ensures
            start <= i <= n,
            forall|k: int| 0 <= k < i - start ==> is_digit(body[k]),
            i == n || !is_digit(s@[i as int]),
        decreases n - i,
    {
        if i >= n {
            break ;
        }
        let c = s.get_char(i);
        if !('0' <= c && c <= '9') {
            break ;
        }
        i = i + 1;
    }
    if i < n {
        proof {
            lemma_digit_run_le(body);
            lemma_digit_run_exact(body, i - start);
        }
        return None;
    }
    proof {
        lemma_digit_run_exact(body, i - start);
        assert(digit_run(body) == body.len());
    }
    parse_leading_i64(s)
}

} // verus!
