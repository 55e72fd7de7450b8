//! Text primitives for the manifest interchange format: character escaping,
//! decimal rendering, and prefix-matching specifications shared by the
//! serializer and the parser.
use vstd::prelude::*;

verus! {

// ---------------------------------------------------------------------------
// Matching a pattern at a position of an input text.
// ---------------------------------------------------------------------------

/// The pattern `pat` occurs in `inp` starting at position `i`.
pub open spec fn matches_at(inp: Seq<char>, i: int, pat: Seq<char>) -> bool {
    &&& 0 <= i
    &&& i + pat.len() <= inp.len()
    &&& inp.subrange(i, i + pat.len()) == pat
}

/// A concatenated pattern occurs at `i` exactly when its left part occurs at
/// `i` and its right part occurs just after the left part.
pub broadcast proof fn lemma_matches_split(inp: Seq<char>, i: int, a: Seq<char>, b: Seq<char>)
    ensures
        #[trigger] matches_at(inp, i, a + b) <==> (matches_at(inp, i, a) && matches_at(
            inp,
            i + a.len(),
            b,
        )),
{
    if matches_at(inp, i, a + b) {
        assert forall|k: int| 0 <= k < a.len() implies inp[i + k] == a[k] by {
            assert(inp.subrange(i, i + (a + b).len())[k] == inp[i + k]);
            assert((a + b)[k] == a[k]);
        }
        assert forall|k: int| 0 <= k < b.len() implies inp[i + a.len() + k] == b[k] by {
            assert(inp.subrange(i, i + (a + b).len())[a.len() + k] == inp[i + a.len() + k]);
            assert((a + b)[a.len() + k] == b[k]);
        }
        assert(inp.subrange(i, i + a.len()) =~= a);
        assert(inp.subrange(i + a.len(), i + a.len() + b.len()) =~= b);
    }
    if matches_at(inp, i, a) && matches_at(inp, i + a.len(), b) {
        assert(inp.subrange(i, i + (a + b).len()) =~= a + b);
    }
}

/// Each character of a matched pattern equals the input character under it.
pub proof fn lemma_matches_index(inp: Seq<char>, i: int, pat: Seq<char>, k: int)
    requires
        0 <= k < pat.len(),
        matches_at(inp, i, pat),
    ensures
        inp[i + k] == pat[k],
{
    assert(inp.subrange(i, i + pat.len())[k] == inp[i + k]);
}

// ---------------------------------------------------------------------------
// Decimal rendering of unsigned integers.
// ---------------------------------------------------------------------------

/// The character for the decimal digit `d % 10`.
pub open spec fn digit_char(d: u64) -> char {
    ((48 + (d % 10)) as u8) as char
}

/// `c` is a decimal digit character.
pub open spec fn is_digit(c: char) -> bool {
    48 <= (c as u32) && (c as u32) <= 57
}

/// The decimal rendering of `n`, most significant digit first.
pub open spec fn dec_u64(n: u64) -> Seq<char>
    decreases n,
{
    if n < 10 {
        seq![digit_char(n)]
    } else {
        dec_u64((n / 10) as u64) + seq![digit_char(n % 10)]
    }
}

/// Powers of ten.
pub open spec fn pow10(k: int) -> int
    decreases k,
{
    if k <= 0 {
        1
    } else {
        10 * pow10(k - 1)
    }
}

/// A digit character is a digit and carries the value of its digit.
pub proof fn lemma_digit_char(d: u64)
    ensures
        is_digit(digit_char(d)),
        (digit_char(d) as u32) == 48 + (d % 10),
{
    assert((((48 + (d % 10)) as u8) as char) as u32 == 48 + (d % 10));
}

/// Every character of a decimal rendering is a digit.
pub proof fn lemma_dec_digits(n: u64)
    ensures
        forall|k: int| 0 <= k < dec_u64(n).len() ==> is_digit(#[trigger] dec_u64(n)[k]),
    decreases n,
{
    lemma_digit_char(n);
    lemma_digit_char(n % 10);
    if n >= 10 {
        lemma_dec_digits((n / 10) as u64);
    }
    assert forall|k: int| 0 <= k < dec_u64(n).len() implies is_digit(#[trigger] dec_u64(n)[k]) by {
        if n < 10 {
            assert(dec_u64(n)[k] == digit_char(n));
        } else if k < dec_u64((n / 10) as u64).len() {
            assert(dec_u64(n)[k] == dec_u64((n / 10) as u64)[k]);
        } else {
            assert(dec_u64(n)[k] == digit_char(n % 10));
        }
    }
}

/// A decimal rendering is never empty and is bounded by the magnitude of `n`.
pub proof fn lemma_dec_len(n: u64, k: int)
    requires
        1 <= k,
        n < pow10(k),
    ensures
        1 <= dec_u64(n).len() <= k,
    decreases n,
{
    if n >= 10 {
        assert(pow10(k) == 10 * pow10(k - 1));
        assert(n / 10 < pow10(k - 1)) by (nonlinear_arith)
            requires
                n < 10 * pow10(k - 1),
                n >= 10,
        ;
        if k - 1 < 1 {
            assert(pow10(k) == 10);
            assert(false);
        }
        lemma_dec_len((n / 10) as u64, k - 1);
    }
}

/// Any `u64` value renders in at most twenty digits.
pub proof fn lemma_dec_len_u64(n: u64)
    ensures
        1 <= dec_u64(n).len() <= 20,
{
    assert(pow10(20) == 100000000000000000000int) by {
        reveal_with_fuel(pow10, 21);
    }
    lemma_dec_len(n, 20);
}

/// A digit character is recovered from its value.
pub proof fn lemma_digit_roundtrip(c: char)
    requires
        is_digit(c),
    ensures
        digit_char((((c as u32) - 48)) as u64) == c,
{
    assert((((48 + ((((c as u32) - 48)) as u64 % 10)) as u8) as char) as u32 == c as u32);
}

/// A decimal rendering of more than one digit never starts with a zero.
pub proof fn lemma_dec_no_leading_zero(n: u64)
    ensures
        dec_u64(n).len() > 1 ==> dec_u64(n)[0] != '0',
    decreases n,
{
    if n >= 10 {
        lemma_dec_no_leading_zero((n / 10) as u64);
        lemma_dec_len_u64((n / 10) as u64);
        lemma_dec_len_u64(((n / 10) / 10) as u64);
        if dec_u64((n / 10) as u64).len() == 1 {
            assert(dec_u64(n)[0] == digit_char(n / 10));
            assert(n / 10 < 10 && n / 10 >= 1);
            assert((digit_char(n / 10) as u32) == 48 + (n / 10));
            assert(('0' as u32) == 48);
        } else {
            assert(dec_u64(n)[0] == dec_u64((n / 10) as u64)[0]);
        }
    }
}

// ---------------------------------------------------------------------------
// Character escaping for quoted strings.
// ---------------------------------------------------------------------------

/// `c` needs an escape sequence inside a quoted string.
pub open spec fn is_escaped_char(c: char) -> bool {
    c == '"' || c == '\\' || c == '\n'
}

/// The rendering of one character inside a quoted string.
pub open spec fn esc_char(c: char) -> Seq<char> {
    if c == '"' {
        seq!['\\', '"']
    } else if c == '\\' {
        seq!['\\', '\\']
    } else if c == '\n' {
        seq!['\\', 'n']
    } else {
        seq![c]
    }
}

/// The rendering of a whole string body, character by character.
pub open spec fn esc_str(s: Seq<char>) -> Seq<char>
    decreases s.len(),
{
    if s.len() == 0 {
        Seq::<char>::empty()
    } else {
        esc_char(s[0]) + esc_str(s.skip(1))
    }
}

/// A quoted string: the escaped body between two quote characters.
pub open spec fn quoted(s: Seq<char>) -> Seq<char> {
    seq!['"'] + (esc_str(s) + seq!['"'])
}

/// Escaping a string extended by one character appends that character's
/// escape sequence.
pub proof fn lemma_esc_snoc(t: Seq<char>, c: char)
    ensures
        esc_str(t.push(c)) == esc_str(t) + esc_char(c),
    decreases t.len(),
{
    if t.len() == 0 {
        assert(esc_str(t) == Seq::<char>::empty());
        assert(t.push(c) =~= seq![c]);
        assert(seq![c].skip(1) =~= Seq::<char>::empty());
        assert(esc_str(seq![c].skip(1)) == Seq::<char>::empty());
        assert(esc_str(seq![c]) == esc_char(c) + esc_str(seq![c].skip(1)));
        assert(esc_str(t.push(c)) =~= esc_str(t) + esc_char(c));
    } else {
        assert(t.push(c).skip(1) =~= t.skip(1).push(c));
        lemma_esc_snoc(t.skip(1), c);
        assert(t.push(c)[0] == t[0]);
        assert(esc_str(t.push(c)) == esc_char(t[0]) + esc_str(t.skip(1).push(c)));
        assert(esc_str(t.push(c)) =~= esc_str(t) + esc_char(c));
    }
}

// ---------------------------------------------------------------------------
// Emitters: verified functions that append renderings to a character buffer.
// ---------------------------------------------------------------------------

/// Appends the characters of `s` to `out`.
pub fn push_lit(out: &mut Vec<char>, s: &str)
    ensures
        final(out)@ == old(out)@ + s@,
{
    let n = s.unicode_len();
    let mut j: usize = 0;
    while j < n
        invariant
            n == s@.len(),
            j <= n,
            out@ == old(out)@ + s@.subrange(0, j as int),
        decreases n - j,
    {
        let c = s.get_char(j);
        out.push(c);
        proof {
            assert(s@.subrange(0, j + 1) =~= s@.subrange(0, j as int).push(s@[j as int]));
            assert(out@ =~= old(out)@ + s@.subrange(0, j + 1));
        }
        j += 1;
    }
    proof {
        assert(s@.subrange(0, n as int) =~= s@);
    }
}

/// Appends the decimal rendering of `n` to `out`.
pub fn push_u64(out: &mut Vec<char>, n: u64)
    ensures
        final(out)@ == old(out)@ + dec_u64(n),
    decreases n,
{
    if n < 10 {
        let c = (48u8 + (n % 10) as u8) as char;
        out.push(c);
        proof {
            assert(out@ =~= old(out)@ + dec_u64(n));
        }
    } else {
        push_u64(out, n / 10);
        let c = (48u8 + (n % 10) as u8) as char;
        out.push(c);
        proof {
            assert(out@ =~= old(out)@ + dec_u64(n));
        }
    }
}

/// Appends the quoted rendering of `s` to `out`.
pub fn push_qstr(out: &mut Vec<char>, s: &str)
    ensures
        final(out)@ == old(out)@ + quoted(s@),
{
    out.push('"');
    let n = s.unicode_len();
    let mut j: usize = 0;
    while j < n
        invariant
            n == s@.len(),
            j <= n,
            out@ == old(out)@ + seq!['"'] + esc_str(s@.subrange(0, j as int)),
        decreases n - j,
    {
        let c = s.get_char(j);
        if c == '"' {
            out.push('\\');
            out.push('"');
        } else if c == '\\' {
            out.push('\\');
            out.push('\\');
        } else if c == '\n' {
            out.push('\\');
            out.push('n');
        } else {
            out.push(c);
        }
        proof {
            lemma_esc_snoc(s@.subrange(0, j as int), s@[j as int]);
            assert(s@.subrange(0, j + 1) =~= s@.subrange(0, j as int).push(s@[j as int]));
            assert(out@ =~= old(out)@ + seq!['"'] + esc_str(s@.subrange(0, j + 1)));
        }
        j += 1;
    }
    out.push('"');
    proof {
        assert(s@.subrange(0, n as int) =~= s@);
        assert(out@ =~= old(out)@ + quoted(s@));
    }
}

// ---------------------------------------------------------------------------
// Parsers. Each parser's contract promises that wherever the input carries
// the canonical rendering of a value at the given position, the parser
// returns exactly that value and stops exactly after its rendering.
// ---------------------------------------------------------------------------

/// Expects the literal `lit` at position `i`.
pub fn parse_lit(inp: &Vec<char>, i: usize, lit: &str) -> (r: Option<usize>)
    ensures
        r is Some ==> r->0 == i + lit@.len() && i + lit@.len() <= inp@.len(),
        r is Some ==> matches_at(inp@, i as int, lit@),
        matches_at(inp@, i as int, lit@) ==> r is Some,
{
    let n = lit.unicode_len();
    if i > inp.len() || n > inp.len() - i {
        return None;
    }
    let end = i + n;
    let mut p = i;
    while p < end
        invariant
            n == lit@.len(),
            i <= p <= end,
            end == i + n <= inp@.len(),
            forall|k: int| 0 <= k < p - i ==> inp@[i + k] == lit@[k],
        decreases end - p,
    {
        if inp[p] != lit.get_char(p - i) {
            proof {
                if matches_at(inp@, i as int, lit@) {
                    lemma_matches_index(inp@, i as int, lit@, p - i);
                }
            }
            return None;
        }
        p += 1;
    }
    proof {
        assert(inp@.subrange(i as int, i + n) =~= lit@);
    }
    Some(end)
}

/// Evaluates the digit run `inp[i..e]` as a number, least significant last.
fn eval_digits(inp: &Vec<char>, i: usize, e: usize) -> (r: u128)
    requires
        i < e <= inp@.len(),
        e - i <= 20,
        forall|k: int| i <= k < e ==> is_digit(#[trigger] inp@[k]),
    ensures
        r < pow10(e - i),
        forall|n: u64|
            (matches_at(inp@, i as int, dec_u64(n)) && dec_u64(n).len() == e - i) ==> r == n,
        ((e - i == 1 || inp@[i as int] != '0') && r <= 0xffff_ffff_ffff_ffffu128) ==> dec_u64(
            (r as u64),
        ) == inp@.subrange(i as int, e as int),
    decreases e - i,
{
    proof {
        reveal_with_fuel(pow10, 21);
        assert(pow10(20) == 100000000000000000000int);
        assert(pow10(19) == 10000000000000000000int);
    }
    let c = inp[e - 1];
    let d = ((c as u32) - 48) as u128;
    if e - i == 1 {
        proof {
            assert forall|n: u64|
                matches_at(inp@, i as int, dec_u64(n)) && dec_u64(n).len() == e - i implies d
                == n by {
                lemma_dec_len_u64(n);
                if n >= 10 {
                    lemma_dec_len_u64((n / 10) as u64);
                    assert(dec_u64(n).len() >= 2);
                }
                lemma_matches_index(inp@, i as int, dec_u64(n), 0);
            }
        }
        proof {
            lemma_digit_roundtrip(inp@[i as int]);
            assert(dec_u64((d as u64)) =~= inp@.subrange(i as int, e as int));
        }
        d
    } else {
        let hi = eval_digits(inp, i, e - 1);
        proof {
            assert(pow10((e - i) as int) == 10 * pow10((e - 1 - i) as int));
            assert(hi * 10 + d < pow10((e - i) as int)) by (nonlinear_arith)
                requires
                    hi < pow10((e - 1 - i) as int),
                    d <= 9,
                    pow10((e - i) as int) == 10 * pow10((e - 1 - i) as int),
            ;
            assert forall|n: u64|
                matches_at(inp@, i as int, dec_u64(n)) && dec_u64(n).len() == e - i implies hi * 10
                + d == n by {
                if n < 10 {
                    assert(dec_u64(n).len() == 1);
                    assert(false);
                } else {
                    lemma_matches_split(inp@, i as int, dec_u64((n / 10) as u64), seq![
                        digit_char(n % 10),
                    ]);
                    lemma_matches_index(inp@, i as int + dec_u64((n / 10) as u64).len(), seq![
                        digit_char(n % 10),
                    ], 0);
                    assert(hi == n / 10);
                    assert(inp@[e - 1] == digit_char(n % 10));
                    assert(d == n % 10);
                }
            }
            if (e - i == 1 || inp@[i as int] != '0') && hi * 10 + d <= 0xffff_ffff_ffff_ffffu128 {
                assert(hi <= 0xffff_ffff_ffff_ffffu128);
                if hi == 0 {
                    assert(dec_u64(0u64)[0] == digit_char(0));
                    assert((digit_char(0) as u32) == 48);
                    assert(inp@[i as int] == '0');
                    assert(false);
                }
                let v = (hi * 10 + d) as u64;
                assert(v as u128 == hi * 10 + d);
                assert(v >= 10);
                assert(v / 10 == hi && v % 10 == d) by (nonlinear_arith)
                    requires
                        v == hi * 10 + d,
                        0 <= d <= 9,
                        hi >= 1,
                ;
                lemma_digit_roundtrip(inp@[e - 1]);
                assert(dec_u64(v) == dec_u64((v / 10) as u64) + seq![digit_char(v % 10)]);
                assert(digit_char((d as u64) % 10) == inp@[e - 1]);
                assert(dec_u64(v) =~= inp@.subrange(i as int, e as int));
            }
        }
        hi * 10 + d
    }
}

/// The decimal rendering of `n` stands at `i` and is followed by a non-digit.
pub open spec fn num_matches(inp: Seq<char>, i: int, n: u64) -> bool {
    &&& matches_at(inp, i, dec_u64(n))
    &&& i + dec_u64(n).len() < inp.len()
    &&& !is_digit(inp[i + dec_u64(n).len()])
}

/// Parses a decimal number at position `i`, rejecting leading zeros.
pub fn parse_u64(inp: &Vec<char>, i: usize) -> (r: Option<(u64, usize)>)
    ensures
        r is Some ==> i < (r->0).1 <= inp@.len(),
        r is Some ==> matches_at(inp@, i as int, dec_u64((r->0).0)) && (r->0).1 == i + dec_u64(
            (r->0).0,
        ).len() && ((r->0).1 == inp@.len() || !is_digit(inp@[(r->0).1 as int])),
        forall|n: u64|
            num_matches(inp@, i as int, n) ==> (r is Some && (r->0).0 == n && (r->0).1 == i + dec_u64(
                n,
            ).len()),
{
    if i >= inp.len() {
        proof {
            assert forall|n: u64| !num_matches(inp@, i as int, n) by {
                if num_matches(inp@, i as int, n) {
                    lemma_dec_len_u64(n);
                }
            }
        }
        return None;
    }
    let mut e = i;
    loop
        invariant
            i <= e <= inp@.len(),
            forall|k: int| i <= k < e ==> is_digit(#[trigger] inp@[k]),
        ensures
            i <= e <= inp@.len(),
            forall|k: int| i <= k < e ==> is_digit(#[trigger] inp@[k]),
            e == inp@.len() || !is_digit(inp@[e as int]),
        decreases inp@.len() - e,
    {
        if e >= inp.len() {
            break ;
        }
        let c = inp[e];
        let u = c as u32;
        if u < 48 || u > 57 {
            break ;
        }
        e += 1;
    }
    proof {
        assert forall|n: u64| num_matches(inp@, i as int, n) implies e == i + dec_u64(n).len() by {
            lemma_dec_digits(n);
            lemma_dec_len_u64(n);
            let dl = dec_u64(n).len() as int;
            if e < i + dl {
                lemma_matches_index(inp@, i as int, dec_u64(n), e - i);
                assert(is_digit(inp@[e as int]));
                assert(false);
            }
            if e > i + dl {
                assert(is_digit(inp@[i + dl]));
                assert(false);
            }
        }
    }
    if e == i {
        proof {
            assert forall|n: u64| !num_matches(inp@, i as int, n) by {
                if num_matches(inp@, i as int, n) {
                    lemma_dec_len_u64(n);
                }
            }
        }
        return None;
    }
    if e - i > 20 {
        proof {
            assert forall|n: u64| !num_matches(inp@, i as int, n) by {
                if num_matches(inp@, i as int, n) {
                    lemma_dec_len_u64(n);
                }
            }
        }
        return None;
    }
    if e - i > 1 && inp[i] == '0' {
        proof {
            assert forall|n: u64| !num_matches(inp@, i as int, n) by {
                if num_matches(inp@, i as int, n) {
                    lemma_dec_digits(n);
                    lemma_dec_len_u64(n);
                    lemma_dec_no_leading_zero(n);
                    lemma_matches_index(inp@, i as int, dec_u64(n), 0);
                }
            }
        }
        return None;
    }
    let v = eval_digits(inp, i, e);
    if v > 0xffff_ffff_ffff_ffffu128 {
        proof {
            assert forall|n: u64| !num_matches(inp@, i as int, n) by {
                if num_matches(inp@, i as int, n) {
                    lemma_dec_len_u64(n);
                }
            }
        }
        return None;
    }
    proof {
        assert(dec_u64((v as u64)) == inp@.subrange(i as int, e as int));
        assert(matches_at(inp@, i as int, dec_u64((v as u64))));
    }
    Some((v as u64, e))
}

/// The escaped body of `s`, then a closing quote, stands at `i`.
pub open spec fn estr_matches(inp: Seq<char>, i: int, s: Seq<char>) -> bool {
    matches_at(inp, i, esc_str(s) + seq!['"'])
}

/// Parses an escaped string body up to and including its closing quote.
#[verifier::rlimit(60)]
pub fn parse_estr(inp: &Vec<char>, i: usize) -> (r: Option<(Vec<char>, usize)>)
    ensures
        r is Some ==> i < (r->0).1 <= inp@.len(),
        r is Some ==> estr_matches(inp@, i as int, (r->0).0@) && (r->0).1 == i + esc_str(
            (r->0).0@,
        ).len() + 1,
        forall|s: Seq<char>|
            estr_matches(inp@, i as int, s) ==> (r is Some && (r->0).0@ == s && (r->0).1 == i + esc_str(
                s,
            ).len() + 1),
    decreases inp@.len() - i,
{
    if i >= inp.len() {
        return None;
    }
    let c = inp[i];
    if c == '"' {
        proof {
            assert forall|s: Seq<char>| estr_matches(inp@, i as int, s) implies s.len() == 0 by {
                if s.len() > 0 {
                    lemma_matches_split(inp@, i as int, esc_char(s[0]), esc_str(s.skip(1)) + seq![
                        '"',
                    ]);
                    assert(esc_str(s) + seq!['"'] =~= esc_char(s[0]) + (esc_str(s.skip(1)) + seq![
                        '"',
                    ]));
                    lemma_matches_index(inp@, i as int, esc_char(s[0]), 0);
                    assert(false);
                }
            }
        }
        let v: Vec<char> = Vec::new();
        proof {
            assert forall|s: Seq<char>| estr_matches(inp@, i as int, s) implies v@ == s by {
                assert(v@ =~= s);
            }
            assert(esc_str(v@) + seq!['"'] =~= seq!['"']);
            assert(inp@.subrange(i as int, i + 1) =~= seq!['"']);
            assert(estr_matches(inp@, i as int, v@));
        }
        return Some((v, i + 1));
    }
    proof {
        assert forall|s: Seq<char>|
            estr_matches(inp@, i as int, s) implies s.len() > 0 && matches_at(
            inp@,
            i as int,
            esc_char(s[0]),
        ) && estr_matches(inp@, i + esc_char(s[0]).len(), s.skip(1)) by {
            if s.len() == 0 {
                lemma_matches_index(inp@, i as int, esc_str(s) + seq!['"'], 0);
                assert(false);
            }
            assert(esc_str(s) + seq!['"'] =~= esc_char(s[0]) + (esc_str(s.skip(1)) + seq!['"']));
            lemma_matches_split(inp@, i as int, esc_char(s[0]), esc_str(s.skip(1)) + seq!['"']);
        }
    }
    if c == '\\' {
        if i + 1 >= inp.len() {
            proof {
                assert forall|s: Seq<char>| !estr_matches(inp@, i as int, s) by {
                    if estr_matches(inp@, i as int, s) {
                        lemma_matches_index(inp@, i as int, esc_char(s[0]), 0);
                        assert(is_escaped_char(s[0]));
                        assert(i + 2 <= inp@.len());
                    }
                }
            }
            return None;
        }
        let d = inp[i + 1];
        proof {
            assert forall|s: Seq<char>|
                estr_matches(inp@, i as int, s) implies is_escaped_char(s[0]) && inp@[i + 1]
                == esc_char(s[0])[1] by {
                lemma_matches_index(inp@, i as int, esc_char(s[0]), 0);
                assert(is_escaped_char(s[0]));
                lemma_matches_index(inp@, i as int, esc_char(s[0]), 1);
            }
        }
        let u: char = if d == '"' {
            '"'
        } else if d == '\\' {
            '\\'
        } else if d == 'n' {
            '\n'
        } else {
            return None;
        };
        match parse_estr(inp, i + 2) {
            None => {
                return None;
            },
            Some((mut v, j)) => {
                let ghost v0 = v@;
                v.insert(0, u);
                proof {
                    assert forall|s: Seq<char>|
                        estr_matches(inp@, i as int, s) implies v@ == s && j == i + esc_str(s).len()
                        + 1 by {
                        assert(v@ =~= seq![s[0]] + s.skip(1));
                        assert(seq![s[0]] + s.skip(1) =~= s);
                    }
                    assert(v@[0] == u && v@.skip(1) =~= v0);
                    assert(esc_str(v@) == esc_char(u) + esc_str(v0));
                    assert(esc_char(u)[0] == '\\' && esc_char(u)[1] == d);
                    assert(inp@.subrange(i as int, i + 2) =~= esc_char(u));
                    assert(matches_at(inp@, i as int, esc_char(u)));
                    lemma_matches_split(inp@, i as int, esc_char(u), esc_str(v0) + seq!['"']);
                    assert(esc_str(v@) + seq!['"'] =~= esc_char(u) + (esc_str(v0) + seq!['"']));
                    assert(estr_matches(inp@, i as int, v@));
                }
                return Some((v, j));
            },
        }
    } else {
        proof {
            assert forall|s: Seq<char>|
                estr_matches(inp@, i as int, s) implies !is_escaped_char(s[0]) && s[0] == inp@[i as int] by {
                lemma_matches_index(inp@, i as int, esc_char(s[0]), 0);
                if is_escaped_char(s[0]) {
                    assert(inp@[i as int] == '\\');
                    assert(false);
                }
            }
        }
        if c == '\n' {
            proof {
                assert forall|s: Seq<char>| !estr_matches(inp@, i as int, s) by {
                    if estr_matches(inp@, i as int, s) {
                        assert(!is_escaped_char(s[0]) && s[0] == '\n');
                    }
                }
            }
            return None;
        }
        match parse_estr(inp, i + 1) {
            None => {
                return None;
            },
            Some((mut v, j)) => {
                let ghost v0 = v@;
                v.insert(0, c);
                proof {
                    assert forall|s: Seq<char>|
                        estr_matches(inp@, i as int, s) implies v@ == s && j == i + esc_str(s).len()
                        + 1 by {
                        assert(v@ =~= seq![s[0]] + s.skip(1));
                        assert(seq![s[0]] + s.skip(1) =~= s);
                    }
                    assert(v@[0] == c && v@.skip(1) =~= v0);
                    assert(!is_escaped_char(c));
                    assert(esc_str(v@) == esc_char(c) + esc_str(v0));
                    assert(esc_char(c) =~= seq![c]);
                    assert(inp@.subrange(i as int, i + 1) =~= esc_char(c));
                    assert(matches_at(inp@, i as int, esc_char(c)));
                    lemma_matches_split(inp@, i as int, esc_char(c), esc_str(v0) + seq!['"']);
                    assert(esc_str(v@) + seq!['"'] =~= esc_char(c) + (esc_str(v0) + seq!['"']));
                    assert(estr_matches(inp@, i as int, v@));
                }
                return Some((v, j));
            },
        }
    }
}

/// Parses a full quoted string at `i`.
pub fn parse_qstr(inp: &Vec<char>, i: usize) -> (r: Option<(String, usize)>)
    ensures
        r is Some ==> i < (r->0).1 <= inp@.len(),
        r is Some ==> matches_at(inp@, i as int, quoted((r->0).0@)) && (r->0).1 == i + quoted(
            (r->0).0@,
        ).len(),
        forall|s: Seq<char>|
            matches_at(inp@, i as int, quoted(s)) ==> (r is Some && (r->0).0@ == s && (r->0).1 == i
                + quoted(s).len()),
{
    proof {
        assert forall|s: Seq<char>|
            matches_at(inp@, i as int, quoted(s)) implies matches_at(inp@, i as int, seq!['"'])
            && estr_matches(inp@, i + 1, s) by {
            lemma_matches_split(inp@, i as int, seq!['"'], esc_str(s) + seq!['"']);
        }
    }
    if i >= inp.len() {
        return None;
    }
    if inp[i] != '"' {
        proof {
            assert forall|s: Seq<char>| !matches_at(inp@, i as int, quoted(s)) by {
                if matches_at(inp@, i as int, quoted(s)) {
                    lemma_matches_index(inp@, i as int, seq!['"'], 0);
                }
            }
        }
        return None;
    }
    match parse_estr(inp, i + 1) {
        None => None,
        Some((v, j)) => {
            let s = chars_to_string(&v);
            proof {
                assert(inp@.subrange(i as int, i + 1) =~= seq!['"']);
                assert(matches_at(inp@, i as int, seq!['"']));
                lemma_matches_split(inp@, i as int, seq!['"'], esc_str(v@) + seq!['"']);
                assert(quoted(v@) =~= seq!['"'] + (esc_str(v@) + seq!['"']));
                assert(matches_at(inp@, i as int, quoted(v@)));
            }
            Some((s, j))
        },
    }
}

/// Relies on `String`'s `FromIterator<char>` implementation: collecting the
/// characters of `v` yields a string holding exactly those characters.
#[verifier::external_body]
fn chars_to_string(v: &Vec<char>) -> (s: String)
    ensures
        s@ == v@,
{
    v.iter().collect()
}

/// Copies the characters of `s` into a fresh buffer.
pub fn text_chars(s: &str) -> (v: Vec<char>)
    ensures
        v@ == s@,
{
    let mut v: Vec<char> = Vec::new();
    push_lit(&mut v, s);
    v
}

} // verus!
