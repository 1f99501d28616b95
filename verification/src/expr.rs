//! The expression parser: a left scan that splits at the first `+`, then at
//! the first `*`, and otherwise reads a single monomial `ax^b`. The numeric
//! parts are validated against the standard floating-point literal grammar
//! and kept as their source text; evaluating them is the caller's business.

use vstd::prelude::*;

verus! {

/// A single term `coefficient * x^exponent`, both parts kept as the
/// validated numeric text they were parsed from.
#[derive(Debug, PartialEq, Eq)]
pub struct Monomial {
    pub co: String,
    pub pow: String,
}

/// A parsed expression: a binary tree of monomials combined by addition
/// and multiplication.
#[derive(Debug, PartialEq, Eq)]
pub enum Expr {
    Literal(Monomial),
    Sum(Box<Expr>, Box<Expr>),
    Product(Box<Expr>, Box<Expr>),
}

/// A numeric substring that is not a valid floating-point literal, carried
/// out of the parse verbatim.
#[derive(Debug, PartialEq, Eq)]
pub enum ParseError {
    MalformedNumber(String),
}

// ---------------------------------------------------------------------------
// The floating-point literal grammar: an optional sign, then one of the
// special words (case-insensitive) or digits with at most one dot, with an
// optional exponent part introduced by `e` or `E`.
// ---------------------------------------------------------------------------

/// A decimal digit.
pub open spec fn is_digit(c: char) -> bool {
    48 <= c as int && c as int <= 57
}

/// A leading sign.
pub open spec fn is_sign(c: char) -> bool {
    c == '+' || c == '-'
}

/// Every character is a decimal digit.
pub open spec fn all_digits(s: Seq<char>) -> bool {
    forall|i: int| 0 <= i < s.len() ==> is_digit(s[i])
}

/// Digits with at most one dot and at least one digit.
pub open spec fn is_mantissa(s: Seq<char>) -> bool {
    &&& forall|i: int| 0 <= i < s.len() ==> is_digit(s[i]) || s[i] == '.'
    &&& exists|i: int| 0 <= i < s.len() && is_digit(s[i])
    &&& forall|i: int, j: int| 0 <= i < j < s.len() ==> !(s[i] == '.' && s[j] == '.')
}

/// What may follow the exponent marker: an optional sign, then digits.
pub open spec fn is_exp_part(s: Seq<char>) -> bool {
    let digits = if s.len() > 0 && is_sign(s[0]) {
        s.skip(1)
    } else {
        s
    };
    digits.len() > 0 && all_digits(digits)
}

/// A number: a mantissa, optionally followed by `e` or `E` and an exponent.
pub open spec fn is_number(s: Seq<char>) -> bool {
    is_mantissa(s) || exists|k: int|
        0 <= k < s.len() && (s[k] == 'e' || s[k] == 'E') && is_mantissa(s.take(k)) && is_exp_part(
            s.skip(k + 1),
        )
}

/// Case-insensitive match of one character against a lower-case letter.
pub open spec fn ci(c: char, l: char) -> bool {
    c == l || c as int + 32 == l as int
}

/// The word `inf`, case-insensitive.
pub open spec fn is_inf(s: Seq<char>) -> bool {
    s.len() == 3 && ci(s[0], 'i') && ci(s[1], 'n') && ci(s[2], 'f')
}

/// The word `infinity`, case-insensitive.
pub open spec fn is_infinity(s: Seq<char>) -> bool {
    s.len() == 8 && ci(s[0], 'i') && ci(s[1], 'n') && ci(s[2], 'f') && ci(s[3], 'i') && ci(
        s[4],
        'n',
    ) && ci(s[5], 'i') && ci(s[6], 't') && ci(s[7], 'y')
}

/// The word `nan`, case-insensitive.
pub open spec fn is_nan(s: Seq<char>) -> bool {
    s.len() == 3 && ci(s[0], 'n') && ci(s[1], 'a') && ci(s[2], 'n')
}

/// One of the special floating-point words.
pub open spec fn is_special(s: Seq<char>) -> bool {
    is_inf(s) || is_infinity(s) || is_nan(s)
}

/// The literal with its optional leading sign removed.
pub open spec fn lit_body(s: Seq<char>) -> Seq<char> {
    if s.len() > 0 && is_sign(s[0]) {
        s.skip(1)
    } else {
        s
    }
}

/// A valid floating-point literal under the standard grammar.
pub open spec fn is_float_lit(s: Seq<char>) -> bool {
    is_special(lit_body(s)) || is_number(lit_body(s))
}

// ---------------------------------------------------------------------------
// First occurrences.
// ---------------------------------------------------------------------------

/// The index of the first occurrence of `c` in `s`, or -1 when absent.
pub open spec fn find_idx(s: Seq<char>, c: char) -> int
    decreases s.len(),
{
    if s.len() == 0 {
        -1
    } else if s[0] == c {
        0
    } else if find_idx(s.skip(1), c) < 0 {
        -1
    } else {
        find_idx(s.skip(1), c) + 1
    }
}

/// `find_idx` finds the first occurrence exactly when one exists.
pub proof fn lemma_find_idx(s: Seq<char>, c: char)
    ensures
        s.contains(c) ==> 0 <= find_idx(s, c) < s.len() && s[find_idx(s, c)] == c && (forall|j: int|
            0 <= j < find_idx(s, c) ==> s[j] != c),
        !s.contains(c) ==> find_idx(s, c) == -1,
    decreases s.len(),
{
    if s.len() > 0 {
        let tail = s.skip(1);
        lemma_find_idx(tail, c);
        assert(forall|j: int| 0 <= j < tail.len() ==> tail[j] == s[j + 1]);
        if s[0] != c {
            if s.contains(c) {
                let w = choose|w: int| 0 <= w < s.len() && s[w] == c;
                assert(w >= 1);
                assert(tail[w - 1] == c);
                assert(tail.contains(c));
            }
            if tail.contains(c) {
                let w = choose|w: int| 0 <= w < tail.len() && tail[w] == c;
                assert(s[w + 1] == c);
                assert(s.contains(c));
            }
            if s.contains(c) {
                let f = find_idx(s, c);
                assert(f == find_idx(tail, c) + 1);
                assert(s[f] == tail[f - 1]);
                assert forall|j: int| 0 <= j < f implies s[j] != c by {
                    if j > 0 {
                        assert(tail[j - 1] != c);
                    }
                }
            }
        }
    }
}

/// A position that is an occurrence with none before it is the first one.
pub proof fn lemma_first_is_find_idx(s: Seq<char>, c: char, i: int)
    requires
        0 <= i < s.len(),
        s[i] == c,
        forall|j: int| 0 <= j < i ==> s[j] != c,
    ensures
        find_idx(s, c) == i,
{
    lemma_find_idx(s, c);
    assert(s.contains(c));
    let f = find_idx(s, c);
    if f < i {
        assert(s[f] != c);
    }
    if f > i {
        assert(s[i] != c);
    }
}

/// Whether some `x` is immediately followed by `^`.
pub open spec fn has_xcaret(s: Seq<char>) -> bool {
    exists|j: int| 0 <= j && j + 1 < s.len() && #[trigger] s[j] == 'x' && s[j + 1] == '^'
}

// ---------------------------------------------------------------------------
// What parsing yields.
// ---------------------------------------------------------------------------

/// How a monomial's source text determines its parts: the text before the
/// first `x` is the coefficient (1 when empty), the text after `x^` is the
/// exponent (1 when there is no `x^`); without `x` the whole text is the
/// coefficient and the exponent is 0.
pub open spec fn mono_parses_to(s: Seq<char>, m: Monomial) -> bool {
    if s.contains('x') {
        let i = find_idx(s, 'x');
        &&& (if i == 0 {
            m.co@ == seq!['1']
        } else {
            m.co@ == s.take(i)
        })
        &&& (if has_xcaret(s) {
            m.pow@ == s.skip(i + 2)
        } else {
            m.pow@ == seq!['1']
        })
    } else {
        m.co@ == s && m.pow@ == seq!['0']
    }
}

/// When a monomial's source text parses: every numeric part present must be
/// a valid literal.
pub open spec fn mono_can_parse(s: Seq<char>) -> bool {
    if s.contains('x') {
        let i = find_idx(s, 'x');
        (i == 0 || is_float_lit(s.take(i))) && (!has_xcaret(s) || is_float_lit(s.skip(i + 2)))
    } else {
        is_float_lit(s)
    }
}

/// The offending substring when a monomial's text does not parse: the
/// coefficient is tried first, then the exponent.
pub open spec fn mono_bad(s: Seq<char>) -> Seq<char> {
    if s.contains('x') {
        let i = find_idx(s, 'x');
        if i != 0 && !is_float_lit(s.take(i)) {
            s.take(i)
        } else {
            s.skip(i + 2)
        }
    } else {
        s
    }
}

/// How an expression's source text determines its tree: split at the first
/// `+` into a sum, else at the first `*` into a product, else a monomial.
pub open spec fn parses_to(s: Seq<char>, e: Expr) -> bool
    decreases e,
{
    match e {
        Expr::Literal(m) => !s.contains('+') && !s.contains('*') && mono_parses_to(s, m),
        Expr::Sum(l, r) => s.contains('+') && {
            let i = find_idx(s, '+');
            parses_to(s.take(i), *l) && parses_to(s.skip(i + 1), *r)
        },
        Expr::Product(l, r) => !s.contains('+') && s.contains('*') && {
            let i = find_idx(s, '*');
            parses_to(s.take(i), *l) && parses_to(s.skip(i + 1), *r)
        },
    }
}

/// When an expression's source text parses at all.
pub open spec fn can_parse(s: Seq<char>) -> bool
    decreases s.len(),
    via can_parse_dec
{
    if s.contains('+') {
        let i = find_idx(s, '+');
        can_parse(s.take(i)) && can_parse(s.skip(i + 1))
    } else if s.contains('*') {
        let i = find_idx(s, '*');
        can_parse(s.take(i)) && can_parse(s.skip(i + 1))
    } else {
        mono_can_parse(s)
    }
}

#[via_fn]
proof fn can_parse_dec(s: Seq<char>) {
    if s.contains('+') {
        lemma_find_idx(s, '+');
    } else if s.contains('*') {
        lemma_find_idx(s, '*');
    }
}

/// The offending substring when an expression's text does not parse: the
/// leftmost failing numeric part, left half before right half.
pub open spec fn bad_sub(s: Seq<char>) -> Seq<char>
    decreases s.len(),
    via bad_sub_dec
{
    if s.contains('+') {
        let i = find_idx(s, '+');
        if !can_parse(s.take(i)) {
            bad_sub(s.take(i))
        } else {
            bad_sub(s.skip(i + 1))
        }
    } else if s.contains('*') {
        let i = find_idx(s, '*');
        if !can_parse(s.take(i)) {
            bad_sub(s.take(i))
        } else {
            bad_sub(s.skip(i + 1))
        }
    } else {
        mono_bad(s)
    }
}

#[via_fn]
proof fn bad_sub_dec(s: Seq<char>) {
    if s.contains('+') {
        lemma_find_idx(s, '+');
    } else if s.contains('*') {
        lemma_find_idx(s, '*');
    }
}

// ---------------------------------------------------------------------------
// Executable scanning helpers.
// ---------------------------------------------------------------------------

/// Finds the first occurrence of `c` in `s`.
fn find_char(s: &str, c: char) -> (r: Option<usize>)
    ensures
        match r {
            Some(i) => i < s@.len() && s@[i as int] == c && (forall|j: int|
                0 <= j < i ==> s@[j] != c) && find_idx(s@, c) == i as int,
            None => !s@.contains(c) && find_idx(s@, c) == -1,
        },
{
    let n = s.unicode_len();
    let mut j: usize = 0;
    while j < n
        invariant
            j <= n,
            n == s@.len(),
            forall|k: int| 0 <= k < j ==> s@[k] != c,
        decreases n - j,
    {
        if s.get_char(j) == c {
            proof {
                lemma_first_is_find_idx(s@, c, j as int);
            }
            return Some(j);
        }
        j += 1;
    }
    proof {
        if s@.contains(c) {
            let w = choose|w: int| 0 <= w < s@.len() && s@[w] == c;
            assert(s@[w] != c);
        }
        lemma_find_idx(s@, c);
    }
    None
}

/// Finds the first exponent marker at or after `start`, or the length.
fn find_e(s: &str, start: usize) -> (r: usize)
    requires
        start as int <= s@.len(),
    ensures
        start <= r <= s@.len(),
        r < s@.len() ==> (s@[r as int] == 'e' || s@[r as int] == 'E'),
        forall|j: int| start <= j < r ==> !(s@[j] == 'e' || s@[j] == 'E'),
{
    let n = s.unicode_len();
    let mut j: usize = start;
    while j < n
        invariant
            start <= j <= n,
            n == s@.len(),
            forall|k: int| start <= k < j ==> !(s@[k] == 'e' || s@[k] == 'E'),
        decreases n - j,
    {
        let c = s.get_char(j);
        if c == 'e' || c == 'E' {
            return j;
        }
        j += 1;
    }
    n
}

/// Decides `is_digit` on one character.
fn is_digit_exec(c: char) -> (b: bool)
    ensures
        b == is_digit(c),
{
    let u = c as u32;
    48 <= u && u <= 57
}

/// Decides `ci` against a lower-case letter.
fn ci_eq(c: char, l: char) -> (b: bool)
    ensures
        b == ci(c, l),
{
    c == l || (c as u32) + 32 == (l as u32)
}

/// Decides `is_mantissa` on `s[from..to]`.
fn check_mantissa(s: &str, from: usize, to: usize) -> (b: bool)
    requires
        from <= to,
        to as int <= s@.len(),
    ensures
        b == is_mantissa(s@.subrange(from as int, to as int)),
{
    let ghost sub = s@.subrange(from as int, to as int);
    let mut i: usize = from;
    let mut seen_digit = false;
    let mut seen_dot = false;
    while i < to
        invariant
            from <= i <= to,
            to as int <= s@.len(),
            sub == s@.subrange(from as int, to as int),
            forall|k: int| 0 <= k < i - from ==> (is_digit(sub[k]) || sub[k] == '.'),
            seen_digit == exists|k: int| 0 <= k < i - from && is_digit(sub[k]),
            seen_dot == exists|k: int| 0 <= k < i - from && sub[k] == '.',
            forall|k1: int, k2: int|
                0 <= k1 < k2 < i - from ==> !(sub[k1] == '.' && sub[k2] == '.'),
        decreases to - i,
    {
        let c = s.get_char(i);
        assert(c == sub[i - from]);
        if is_digit_exec(c) {
            seen_digit = true;
            assert(is_digit(sub[i - from]));
        } else if c == '.' {
            if seen_dot {
                let ghost w = choose|k: int| 0 <= k < i - from && sub[k] == '.';
                assert(sub[w] == '.' && sub[i - from] == '.');
                return false;
            }
            seen_dot = true;
        } else {
            assert(!(is_digit(sub[i - from]) || sub[i - from] == '.'));
            return false;
        }
        i += 1;
    }
    seen_digit
}

/// Decides `is_exp_part` on `s[from..to]`.
fn check_exp(s: &str, from: usize, to: usize) -> (b: bool)
    requires
        from <= to,
        to as int <= s@.len(),
    ensures
        b == is_exp_part(s@.subrange(from as int, to as int)),
{
    let ghost sub = s@.subrange(from as int, to as int);
    let mut i: usize = from;
    if i < to {
        let c = s.get_char(i);
        if c == '+' || c == '-' {
            i += 1;
        }
    }
    let ghost digits = if sub.len() > 0 && is_sign(sub[0]) {
        sub.skip(1)
    } else {
        sub
    };
    assert(digits =~= s@.subrange(i as int, to as int));
    if i == to {
        assert(digits.len() == 0);
        assert(!is_exp_part(s@.subrange(from as int, to as int)));
        return false;
    }
    let mut j: usize = i;
    while j < to
        invariant
            i <= j <= to,
            i < to,
            to as int <= s@.len(),
            digits == s@.subrange(i as int, to as int),
            is_exp_part(s@.subrange(from as int, to as int)) == (digits.len() > 0 && all_digits(
                digits,
            )),
            forall|k: int| 0 <= k < j - i ==> is_digit(digits[k]),
        decreases to - j,
    {
        let c = s.get_char(j);
        assert(c == digits[j - i]);
        if !is_digit_exec(c) {
            assert(!is_digit(digits[j - i]));
            assert(!all_digits(digits));
            return false;
        }
        j += 1;
    }
    assert(all_digits(digits));
    true
}

/// Decides `is_special` on `s[start..]`.
fn check_special(s: &str, start: usize) -> (b: bool)
    requires
        start as int <= s@.len(),
    ensures
        b == is_special(s@.skip(start as int)),
{
    let ghost body = s@.skip(start as int);
    let n = s.unicode_len();
    let len = n - start;
    if len == 3 {
        let c0 = s.get_char(start);
        let c1 = s.get_char(start + 1);
        let c2 = s.get_char(start + 2);
        assert(c0 == body[0] && c1 == body[1] && c2 == body[2]);
        let inf = ci_eq(c0, 'i') && ci_eq(c1, 'n') && ci_eq(c2, 'f');
        let nan = ci_eq(c0, 'n') && ci_eq(c1, 'a') && ci_eq(c2, 'n');
        inf || nan
    } else if len == 8 {
        let c0 = s.get_char(start);
        let c1 = s.get_char(start + 1);
        let c2 = s.get_char(start + 2);
        let c3 = s.get_char(start + 3);
        let c4 = s.get_char(start + 4);
        let c5 = s.get_char(start + 5);
        let c6 = s.get_char(start + 6);
        let c7 = s.get_char(start + 7);
        assert(c0 == body[0] && c1 == body[1] && c2 == body[2] && c3 == body[3] && c4 == body[4]
            && c5 == body[5] && c6 == body[6] && c7 == body[7]);
        ci_eq(c0, 'i') && ci_eq(c1, 'n') && ci_eq(c2, 'f') && ci_eq(c3, 'i') && ci_eq(c4, 'n')
            && ci_eq(c5, 'i') && ci_eq(c6, 't') && ci_eq(c7, 'y')
    } else {
        false
    }
}

/// Decides whether `s` is a valid floating-point literal.
#[verifier::rlimit(100)]
pub fn check_float_lit(s: &str) -> (b: bool)
    ensures
        b == is_float_lit(s@),
{
    let n = s.unicode_len();
    let mut start: usize = 0;
    if n > 0 {
        let c0 = s.get_char(0);
        if c0 == '+' || c0 == '-' {
            start = 1;
        }
    }
    let ghost body = lit_body(s@);
    assert(body =~= s@.skip(start as int));
    if check_special(s, start) {
        return true;
    }
    let epos = find_e(s, start);
    if epos == n {
        let m = check_mantissa(s, start, n);
        proof {
            assert(s@.subrange(start as int, n as int) =~= body);
            if !m && is_number(body) {
                let k = choose|k: int|
                    0 <= k < body.len() && (body[k] == 'e' || body[k] == 'E') && is_mantissa(
                        body.take(k),
                    ) && is_exp_part(body.skip(k + 1));
                assert(body[k] == s@[start + k]);
                assert(false);
            }
        }
        m
    } else {
        let m = check_mantissa(s, start, epos);
        let x = check_exp(s, epos + 1, n);
        let ghost k0 = epos - start;
        proof {
            assert(body[k0] == s@[epos as int]);
            assert(body.take(k0) =~= s@.subrange(start as int, epos as int));
            assert(body.skip(k0 + 1) =~= s@.subrange(epos as int + 1, n as int));
            if m && x {
                assert(0 <= k0 < body.len() && (body[k0] == 'e' || body[k0] == 'E') && is_mantissa(
                    body.take(k0),
                ) && is_exp_part(body.skip(k0 + 1)));
                assert(is_number(body));
            } else {
                if is_mantissa(body) {
                    assert(!(is_digit(body[k0]) || body[k0] == '.'));
                    assert(false);
                }
                if is_number(body) {
                    let k = choose|k: int|
                        0 <= k < body.len() && (body[k] == 'e' || body[k] == 'E') && is_mantissa(
                            body.take(k),
                        ) && is_exp_part(body.skip(k + 1));
                    if k < k0 {
                        assert(body[k] == s@[start + k]);
                        assert(false);
                    }
                    if k > k0 {
                        assert(body.take(k)[k0] == body[k0]);
                        assert(!(is_digit(body[k0]) || body[k0] == '.'));
                        assert(false);
                    }
                    assert(k == k0);
                    assert(false);
                }
            }
        }
        m && x
    }
}

/// Decides `has_xcaret`.
fn has_xcaret_exec(s: &str) -> (b: bool)
    ensures
        b == has_xcaret(s@),
{
    let n = s.unicode_len();
    if n < 2 {
        return false;
    }
    let mut j: usize = 0;
    while j + 1 < n
        invariant
            j + 1 <= n,
            n == s@.len(),
            2 <= n,
            forall|k: int| 0 <= k < j ==> !(#[trigger] s@[k] == 'x' && s@[k + 1] == '^'),
        decreases n - j,
    {
        if s.get_char(j) == 'x' {
            if s.get_char(j + 1) == '^' {
                assert(has_xcaret(s@));
                return true;
            }
        }
        j += 1;
    }
    false
}

// ---------------------------------------------------------------------------
// The parser itself.
// ---------------------------------------------------------------------------

impl Monomial {
    /// Parses a monomial `ax^b`: the text before the first `x` is the
    /// coefficient (1 when empty), the text after `x^` is the exponent
    /// (1 when there is no `x^`); without `x`, the whole text is the
    /// coefficient with exponent 0.
    pub fn from_str(mono: &str) -> (r: Result<Monomial, ParseError>)
        ensures
            mono_can_parse(mono@) <==> r is Ok,
            r matches Ok(m) ==> mono_parses_to(mono@, m),
            r matches Err(pe) ==> pe matches ParseError::MalformedNumber(t) && t@ == mono_bad(
                mono@,
            ),
    {
        let n = mono.unicode_len();
        if let Some(i) = find_char(mono, 'x') {
            let co: String = if i == 0 {
                proof {
                    reveal_strlit("1");
                }
                let one = "1".to_owned();
                assert(one@ =~= seq!['1']);
                one
            } else {
                let t = mono.substring_char(0, i);
                if !check_float_lit(t) {
                    return Err(ParseError::MalformedNumber(t.to_owned()));
                }
                t.to_owned()
            };
            let xc = has_xcaret_exec(mono);
            proof {
                if has_xcaret(mono@) {
                    let w = choose|j: int|
                        0 <= j && j + 1 < mono@.len() && #[trigger] mono@[j] == 'x' && mono@[j
                            + 1] == '^';
                    assert(w >= i);
                    assert(i + 2 <= mono@.len());
                }
            }
            let pow: String = if xc {
                let t = mono.substring_char(i + 2, n);
                if !check_float_lit(t) {
                    return Err(ParseError::MalformedNumber(t.to_owned()));
                }
                t.to_owned()
            } else {
                proof {
                    reveal_strlit("1");
                }
                let one = "1".to_owned();
                assert(one@ =~= seq!['1']);
                one
            };
            Ok(Monomial { co, pow })
        } else {
            if !check_float_lit(mono) {
                return Err(ParseError::MalformedNumber(mono.to_owned()));
            }
            proof {
                reveal_strlit("0");
            }
            let zero = "0".to_owned();
            assert(zero@ =~= seq!['0']);
            Ok(Monomial { co: mono.to_owned(), pow: zero })
        }
    }
}

impl Expr {
    /// Parses an expression: split at the first `+` into a sum, else at the
    /// first `*` into a product, else read a single monomial.
    pub fn from_str(equation: &str) -> (r: Result<Expr, ParseError>)
        ensures
            can_parse(equation@) <==> r is Ok,
            r matches Ok(e) ==> parses_to(equation@, e),
            r matches Err(pe) ==> pe matches ParseError::MalformedNumber(t) && t@ == bad_sub(
                equation@,
            ),
        decreases equation@.len(),
    {
        let n = equation.unicode_len();
        if let Some(i) = find_char(equation, '+') {
            let left = equation.substring_char(0, i);
            let right = equation.substring_char(i + 1, n);
            assert(left@ == equation@.take(i as int));
            assert(right@ == equation@.skip(i as int + 1));
            match Expr::from_str(left) {
                Err(pe) => Err(pe),
                Ok(l) => match Expr::from_str(right) {
                    Err(pe) => Err(pe),
                    Ok(r2) => Ok(Expr::Sum(Box::new(l), Box::new(r2))),
                },
            }
        } else if let Some(i) = find_char(equation, '*') {
            let left = equation.substring_char(0, i);
            let right = equation.substring_char(i + 1, n);
            assert(left@ == equation@.take(i as int));
            assert(right@ == equation@.skip(i as int + 1));
            match Expr::from_str(left) {
                Err(pe) => Err(pe),
                Ok(l) => match Expr::from_str(right) {
                    Err(pe) => Err(pe),
                    Ok(r2) => Ok(Expr::Product(Box::new(l), Box::new(r2))),
                },
            }
        } else {
            match Monomial::from_str(equation) {
                Ok(m) => Ok(Expr::Literal(m)),
                Err(pe) => Err(pe),
            }
        }
    }
}

// ---------------------------------------------------------------------------
// Valid literals parse whole.
// ---------------------------------------------------------------------------

/// One character of a literal's body is never `x` or `*`.
proof fn lemma_body_char(body: Seq<char>, k: int)
    requires
        0 <= k < body.len(),
        is_special(body) || is_number(body),
    ensures
        body[k] != 'x' && body[k] != '*',
{
    if is_special(body) {
    } else if is_mantissa(body) {
        assert(is_digit(body[k]) || body[k] == '.');
    } else {
        let e = choose|e: int|
            0 <= e < body.len() && (body[e] == 'e' || body[e] == 'E') && is_mantissa(
                body.take(e),
            ) && is_exp_part(body.skip(e + 1));
        if k < e {
            assert(body.take(e)[k] == body[k]);
            assert(is_digit(body[k]) || body[k] == '.');
        } else if k == e {
        } else {
            let rest = body.skip(e + 1);
            assert(rest[k - e - 1] == body[k]);
            let digits = if rest.len() > 0 && is_sign(rest[0]) {
                rest.skip(1)
            } else {
                rest
            };
            if rest.len() > 0 && is_sign(rest[0]) {
                if k - e - 1 == 0 {
                } else {
                    assert(digits[k - e - 2] == rest[k - e - 1]);
                    assert(is_digit(rest[k - e - 1]));
                }
            } else {
                assert(digits[k - e - 1] == rest[k - e - 1]);
                assert(is_digit(rest[k - e - 1]));
            }
        }
    }
}

/// A valid numeric literal never holds the operator or variable characters.
pub proof fn lemma_float_lit_chars(s: Seq<char>)
    requires
        is_float_lit(s),
    ensures
        !s.contains('x'),
        !s.contains('*'),
{
    let body = lit_body(s);
    assert forall|k: int| 0 <= k < s.len() implies s[k] != 'x' && s[k] != '*' by {
        if s.len() > 0 && is_sign(s[0]) {
            if k == 0 {
            } else {
                assert(body[k - 1] == s[k]);
                lemma_body_char(body, k - 1);
            }
        } else {
            lemma_body_char(body, k);
        }
    }
    if s.contains('x') {
        let w = choose|w: int| 0 <= w < s.len() && s[w] == 'x';
        assert(s[w] != 'x');
    }
    if s.contains('*') {
        let w = choose|w: int| 0 <= w < s.len() && s[w] == '*';
        assert(s[w] != '*');
    }
}

/// A plain numeric literal without a plus sign parses as a single monomial
/// literal: the whole text is the coefficient and the exponent is zero.
pub proof fn lemma_decimal_literal(s: Seq<char>, e: Expr)
    requires
        is_float_lit(s),
        !s.contains('+'),
        parses_to(s, e),
    ensures
        e matches Expr::Literal(m) && m.co@ == s && m.pow@ == seq!['0'],
        can_parse(s),
{
    lemma_float_lit_chars(s);
}

} // verus!
