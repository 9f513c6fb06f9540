//! Character-level rules of the wire format: how integers print and parse,
//! which texts the decoder reads as numbers, and the tilde escape.

use crate::value::JVal;
use crate::value::JsonValue;
use vstd::prelude::*;
use vstd::string::StrSliceExecFns;
use vstd::string::StringExecFns;

verus! {

/// A decimal digit.
pub open spec fn is_digit(c: char) -> bool {
    '0' <= c && c <= '9'
}

pub open spec fn digit_val(c: char) -> int {
    c as int - '0' as int
}

pub open spec fn digit_char(d: int) -> char
    recommends
        0 <= d <= 9,
{
    seq!['0', '1', '2', '3', '4', '5', '6', '7', '8', '9'][if 0 <= d <= 9 {
        d
    } else {
        0
    }]
}

/// The canonical text of a non-negative integer, most significant digit first.
pub open spec fn nat_text(n: int) -> Seq<char>
    recommends
        n >= 0,
    decreases n,
{
    if n <= 9 {
        seq![digit_char(n)]
    } else {
        nat_text(n / 10) + seq![digit_char(n % 10)]
    }
}

/// The canonical decimal text of an integer.
pub open spec fn int_text(i: int) -> Seq<char> {
    if i < 0 {
        seq!['-'] + nat_text(-i)
    } else {
        nat_text(i)
    }
}

/// The value of a sequence of decimal digits, most significant first.
pub open spec fn digits_val(s: Seq<char>) -> int
    decreases s.len(),
{
    if s.len() == 0 {
        0
    } else {
        digits_val(s.drop_last()) * 10 + digit_val(s.last())
    }
}

pub open spec fn all_digits(s: Seq<char>) -> bool {
    forall|i: int| 0 <= i < s.len() ==> is_digit(#[trigger] s[i])
}

/// The digit part of an integer literal: the text after an optional leading
/// minus sign.
pub open spec fn int_lit_digits(s: Seq<char>) -> Seq<char> {
    if s.len() > 0 && s[0] == '-' {
        s.drop_first()
    } else {
        s
    }
}

/// `s` is an integer literal that the decoder accepts: an optional minus
/// sign, then one or more digits, with a value that fits in `i64`.
pub open spec fn is_int_lit(s: Seq<char>) -> bool {
    &&& int_lit_digits(s).len() > 0
    &&& all_digits(int_lit_digits(s))
    &&& i64::MIN <= int_lit_val(s) <= i64::MAX
}

/// The value of an integer literal.
pub open spec fn int_lit_val(s: Seq<char>) -> int {
    if s.len() > 0 && s[0] == '-' {
        -digits_val(s.drop_first())
    } else {
        digits_val(s)
    }
}

pub proof fn lemma_digit_char_val(d: int)
    requires
        0 <= d <= 9,
    ensures
        is_digit(digit_char(d)),
        digit_val(digit_char(d)) == d,
{
}

/// The canonical text of a non-negative integer is all digits, is non-empty,
/// and evaluates back to the integer.
pub proof fn lemma_nat_text(n: int)
    requires
        n >= 0,
    ensures
        nat_text(n).len() > 0,
        all_digits(nat_text(n)),
        digits_val(nat_text(n)) == n,
    decreases n,
{
    if n <= 9 {
        lemma_digit_char_val(n);
        let t = nat_text(n);
        assert(t =~= seq![digit_char(n)]);
        assert(t.drop_last() =~= Seq::<char>::empty());
        assert(digits_val(t.drop_last()) == 0);
        assert(t.last() == digit_char(n));
        assert(digits_val(t) == digit_val(digit_char(n)));
    } else {
        lemma_nat_text(n / 10);
        lemma_digit_char_val(n % 10);
        let t = nat_text(n);
        assert(t =~= nat_text(n / 10) + seq![digit_char(n % 10)]);
        assert(t.drop_last() =~= nat_text(n / 10));
        assert(t.last() == digit_char(n % 10));
        assert(digits_val(t) == n / 10 * 10 + n % 10);
        assert(forall|i: int|
            0 <= i < t.len() ==> is_digit(#[trigger] t[i])) by {
            assert(forall|i: int|
                0 <= i < t.len() - 1 ==> t[i] == nat_text(n / 10)[i]);
        }
    }
}

/// The canonical text of an integer is an integer literal with that value.
pub proof fn lemma_int_text(i: int)
    requires
        i64::MIN <= i <= i64::MAX,
    ensures
        int_text(i).len() > 0,
        is_int_lit(int_text(i)),
        int_lit_val(int_text(i)) == i,
        all_digits(int_lit_digits(int_text(i))),
{
    if i < 0 {
        lemma_nat_text(-i);
        let t = int_text(i);
        assert(t[0] == '-');
        assert(t.drop_first() =~= nat_text(-i));
    } else {
        lemma_nat_text(i);
        let t = int_text(i);
        assert(is_digit(t[0]));
        assert(t[0] != '-');
    }
}

/// A string that must be tilde-escaped on the wire: one that starts with a
/// digit, a decimal point, a minus sign, or a tilde, and so would otherwise
/// be read back as a number or be stripped of its own leading tilde.
pub open spec fn needs_escape(s: Seq<char>) -> bool {
    s.len() > 0 && (is_digit(s[0]) || s[0] == '.' || s[0] == '-' || s[0] == '~')
}

/// `s` without its leading tilde, if it has one.
pub open spec fn strip_tilde(s: Seq<char>) -> Seq<char> {
    if s.len() > 0 && s[0] == '~' {
        s.drop_first()
    } else {
        s
    }
}

/// How a stored literal is reparsed when a backreference lands on it: an
/// integer if it parses as one; a non-finite float word gives null, since
/// no JSON value stands behind it; any other text that parses as a float
/// stays a number held by its text; everything else is the text itself.
pub open spec fn decode_lit(lit: Seq<char>) -> JVal {
    if parses_as_int(lit) {
        JVal::Integer(parsed_int_val(lit))
    } else if is_nonfinite_lit(lit) {
        JVal::Null
    } else if parses_as_float(lit) {
        JVal::NumberText(lit)
    } else {
        JVal::Text(lit)
    }
}

/// Whether the wire form of `s` must carry a leading tilde.
pub fn needs_escape_str(s: &str) -> (r: bool)
    ensures
        r == needs_escape(s@),
{
    if s.unicode_len() == 0 {
        return false;
    }
    let c = s.get_char(0);
    ('0' <= c && c <= '9') || c == '.' || c == '-' || c == '~'
}

/// `s` with a tilde put in front.
pub fn tilde_prefixed(s: &str) -> (r: String)
    ensures
        r@ == seq!['~'] + s@,
{
    let mut r = String::from_str("~");
    proof {
        reveal_strlit("~");
    }
    r.append(s);
    proof {
        assert(r@ =~= seq!['~'] + s@);
    }
    r
}

/// `s` without its leading tilde, if it has one.
pub fn strip_tilde_str(s: &str) -> (r: String)
    ensures
        r@ == strip_tilde(s@),
{
    let len = s.unicode_len();
    if len > 0 && s.get_char(0) == '~' {
        let rest = s.substring_char(1, len);
        proof {
            assert(rest@ =~= s@.drop_first());
        }
        rest.to_owned()
    } else {
        s.to_owned()
    }
}

/// Reads a stored literal the way a backreference does.
pub fn decode_literal(lit: &str) -> (r: JsonValue)
    ensures
        r@ == decode_lit(lit@),
{
    match parse_stored_int(lit) {
        Some(v) => JsonValue::Integer(v),
        None => {
            if is_nonfinite_text(lit) {
                JsonValue::Null
            } else if parses_as_float_text(lit) {
                JsonValue::NumberText(lit.to_owned())
            } else {
                JsonValue::Text(lit.to_owned())
            }
        },
    }
}

/// The length of the run of digits at the front of `s`.
pub open spec fn digit_run_len(s: Seq<char>) -> int
    decreases s.len(),
{
    if s.len() == 0 || !is_digit(s[0]) {
        0
    } else {
        1 + digit_run_len(s.drop_first())
    }
}

pub proof fn lemma_digit_run_len(s: Seq<char>)
    ensures
        0 <= digit_run_len(s) <= s.len(),
        forall|i: int| 0 <= i < digit_run_len(s) ==> is_digit(#[trigger] s[i]),
        digit_run_len(s) < s.len() ==> !is_digit(s[digit_run_len(s)]),
    decreases s.len(),
{
    if s.len() > 0 && is_digit(s[0]) {
        lemma_digit_run_len(s.drop_first());
        assert(forall|i: int| 1 <= i < s.len() ==> #[trigger] s[i] == s.drop_first()[i - 1]);
    }
}

/// The exponent part of a float literal: an optional sign, then digits.
pub open spec fn is_exp_part(s: Seq<char>) -> bool {
    let t = if s.len() > 0 && (s[0] == '+' || s[0] == '-') {
        s.drop_first()
    } else {
        s
    };
    t.len() > 0 && all_digits(t)
}

/// The shape of a float literal after its optional minus sign: digits, a
/// decimal point, more digits — at least one digit on one side — and an
/// optional exponent.
pub open spec fn float_body(t: Seq<char>) -> bool {
    let p = digit_run_len(t);
    &&& p < t.len()
    &&& t[p] == '.'
    &&& {
        let f = digit_run_len(t.skip(p + 1));
        let q = p + 1 + f;
        &&& p + f > 0
        &&& (q == t.len() || ((t[q] == 'e' || t[q] == 'E') && is_exp_part(t.skip(q + 1))))
    }
}

/// `s` is a float literal of the wire format: what the decoder reads back as
/// a non-integer number.
pub open spec fn is_float_lit(s: Seq<char>) -> bool {
    if s.len() > 0 && s[0] == '-' {
        float_body(s.drop_first())
    } else {
        float_body(s)
    }
}

/// The sign-stripped part of a stored literal: the decoder's reparse, like
/// the language's number parsers, accepts a leading plus as well.
pub open spec fn signless(s: Seq<char>) -> Seq<char> {
    if s.len() > 0 && (s[0] == '+' || s[0] == '-') {
        s.drop_first()
    } else {
        s
    }
}

/// `s` parses as an integer under the reparse rule for stored literals: an
/// optional plus or minus sign, then digits, with a value that fits `i64`.
pub open spec fn parses_as_int(s: Seq<char>) -> bool {
    &&& signless(s).len() > 0
    &&& all_digits(signless(s))
    &&& i64::MIN <= parsed_int_val(s) <= i64::MAX
}

/// The value of a stored literal read as an integer.
pub open spec fn parsed_int_val(s: Seq<char>) -> int {
    if s.len() > 0 && s[0] == '-' {
        -digits_val(s.drop_first())
    } else {
        digits_val(signless(s))
    }
}

/// `t` matches the lower-case pattern letter for letter, each position
/// free to carry the upper-case letter instead.
pub open spec fn ci_matches(t: Seq<char>, low: Seq<char>, up: Seq<char>) -> bool {
    t.len() == low.len() && (forall|i: int|
        0 <= i < t.len() ==> #[trigger] t[i] == low[i] || t[i] == up[i])
}

/// The non-finite float words the reparse accepts, case-insensitively:
/// `inf`, `infinity`, `nan`, with an optional sign. They parse as floats
/// with no JSON value behind them, so a backreference to one decodes to
/// null.
pub open spec fn is_nonfinite_lit(s: Seq<char>) -> bool {
    ||| ci_matches(signless(s), seq!['i', 'n', 'f'], seq!['I', 'N', 'F'])
    ||| ci_matches(
        signless(s),
        seq!['i', 'n', 'f', 'i', 'n', 'i', 't', 'y'],
        seq!['I', 'N', 'F', 'I', 'N', 'I', 'T', 'Y'],
    )
    ||| ci_matches(signless(s), seq!['n', 'a', 'n'], seq!['N', 'A', 'N'])
}

/// The exponent position of a reparsed float: either the end of the text,
/// or an exponent marker followed by a signed run of digits.
pub open spec fn exp_or_end(t: Seq<char>, q: int) -> bool {
    q == t.len() || (0 <= q < t.len() && (t[q] == 'e' || t[q] == 'E') && is_exp_part(
        t.skip(q + 1),
    ))
}

/// The shape of a finite float under the reparse rule, after its optional
/// sign: digits with an optional decimal point and an optional exponent —
/// unlike the wire form, the decimal point is not required.
pub open spec fn finite_float_body(t: Seq<char>) -> bool {
    let p = digit_run_len(t);
    if p == 0 {
        t.len() > 0 && t[0] == '.' && {
            let f = digit_run_len(t.skip(1));
            f > 0 && exp_or_end(t, 1 + f)
        }
    } else if p == t.len() {
        true
    } else if t[p] == '.' {
        let f = digit_run_len(t.skip(p + 1));
        exp_or_end(t, p + 1 + f)
    } else {
        exp_or_end(t, p)
    }
}

/// `s` parses as a finite float under the reparse rule for stored
/// literals.
pub open spec fn parses_as_float(s: Seq<char>) -> bool {
    finite_float_body(signless(s))
}

/// An integer literal of the wire form also parses as an integer under the
/// reparse rule, with the same value.
pub proof fn lemma_int_lit_parses(s: Seq<char>)
    requires
        is_int_lit(s),
    ensures
        parses_as_int(s),
        parsed_int_val(s) == int_lit_val(s),
{
    if s.len() > 0 && s[0] == '+' {
        assert(int_lit_digits(s) == s);
        assert(!is_digit(s[0]));
        assert(false);
    }
    assert(signless(s) == int_lit_digits(s));
}

/// A float literal of the wire form also parses as a finite float under
/// the reparse rule, and as neither an integer nor a non-finite word.
pub proof fn lemma_float_lit_parses(s: Seq<char>)
    requires
        is_float_lit(s),
    ensures
        parses_as_float(s),
        !parses_as_int(s),
        !is_nonfinite_lit(s),
{
    let t = if s.len() > 0 && s[0] == '-' {
        s.drop_first()
    } else {
        s
    };
    assert(float_body(t));
    let p = digit_run_len(t);
    lemma_digit_run_len(t);
    if s.len() > 0 && s[0] == '+' {
        assert(t == s);
        assert(p == 0);
        assert(t[0] == '.');
        assert(false);
    }
    assert(signless(s) == t);
    let f = digit_run_len(t.skip(p + 1));
    let q = p + 1 + f;
    assert(exp_or_end(t, q)) by {
        lemma_digit_run_len(t.skip(p + 1));
        assert(f <= t.len() - p - 1);
        if q != t.len() {
            assert(0 <= q < t.len());
        }
    }
    if p == 0 {
        assert(t.skip(1) =~= t.skip(p + 1));
        assert(finite_float_body(t));
    } else {
        assert(p < t.len());
        assert(finite_float_body(t));
    }
    assert(!parses_as_int(s)) by {
        if parses_as_int(s) {
            assert(is_digit(signless(s)[p]));
            assert(t[p] == '.');
            assert(false);
        }
    }
    assert(!is_nonfinite_lit(s)) by {
        if is_nonfinite_lit(s) {
            let c = signless(s)[0];
            assert(c == 'i' || c == 'I' || c == 'n' || c == 'N');
            if p == 0 {
                assert(t[0] == '.');
            } else {
                assert(is_digit(t[0]));
            }
            assert(false);
        }
    }
}

/// A literal that parses as an integer starts with a sign or a digit.
pub proof fn lemma_parses_as_int_first_char(s: Seq<char>)
    requires
        parses_as_int(s),
    ensures
        s.len() > 0,
        s[0] == '+' || s[0] == '-' || is_digit(s[0]),
{
    if s.len() > 0 && (s[0] == '+' || s[0] == '-') {
    } else {
        assert(signless(s) == s);
        assert(is_digit(s[0]));
    }
}

/// A literal that parses as a finite float starts with a sign, a decimal
/// point or a digit.
pub proof fn lemma_parses_as_float_first_char(s: Seq<char>)
    requires
        parses_as_float(s),
    ensures
        s.len() > 0,
        s[0] == '+' || s[0] == '-' || s[0] == '.' || is_digit(s[0]),
{
    if s.len() > 0 && (s[0] == '+' || s[0] == '-') {
    } else {
        let t = signless(s);
        assert(t == s);
        let p = digit_run_len(t);
        lemma_digit_run_len(t);
        if p == 0 {
            assert(t.len() > 0 && t[0] == '.');
        } else {
            assert(t.len() > 0);
            assert(is_digit(t[0]));
        }
    }
}

/// A non-finite word starts with a sign or a letter of `inf` or `nan`.
pub proof fn lemma_nonfinite_first_char(s: Seq<char>)
    requires
        is_nonfinite_lit(s),
    ensures
        s.len() > 0,
        s[0] == '+' || s[0] == '-' || s[0] == 'i' || s[0] == 'I' || s[0] == 'n' || s[0] == 'N',
{
    if s.len() > 0 && (s[0] == '+' || s[0] == '-') {
    } else {
        assert(signless(s) == s);
        assert(signless(s).len() > 0);
        assert(s[0] == signless(s)[0]);
    }
}

/// An integer literal starts with a minus sign or a digit.
pub proof fn lemma_int_lit_first_char(s: Seq<char>)
    requires
        is_int_lit(s),
    ensures
        s.len() > 0,
        s[0] == '-' || is_digit(s[0]),
{
    if s.len() > 0 && s[0] == '-' {
    } else {
        assert(int_lit_digits(s) == s);
        assert(is_digit(s[0]));
    }
}

/// A float literal starts with a minus sign, a decimal point, or a digit.
pub proof fn lemma_float_lit_first_char(s: Seq<char>)
    requires
        is_float_lit(s),
    ensures
        s.len() > 0,
        s[0] == '-' || s[0] == '.' || is_digit(s[0]),
{
    if s.len() > 0 && s[0] == '-' {
    } else {
        let t = s;
        assert(float_body(t));
        let p = digit_run_len(t);
        lemma_digit_run_len(t);
        if p == 0 {
            assert(t[0] == '.');
        } else {
            assert(is_digit(t[0]));
        }
    }
}

/// A text of digits alone, with or without a leading minus sign, is not a
/// float literal: it has no decimal point.
pub proof fn lemma_int_text_not_float(i: int)
    requires
        i64::MIN <= i <= i64::MAX,
    ensures
        !is_float_lit(int_text(i)),
{
    lemma_int_text(i);
    let t = int_lit_digits(int_text(i));
    lemma_digit_run_len(t);
    assert(digit_run_len(t) == t.len());
    if int_text(i).len() > 0 && int_text(i)[0] == '-' {
        assert(int_text(i).drop_first() =~= t);
    } else {
        assert(int_text(i) =~= t);
    }
}

/// The number of characters at the front of `s` that are digits.
fn digit_run(s: &str, from: usize) -> (r: usize)
    requires
        from <= s@.len(),
    ensures
        from + r <= s@.len(),
        r == digit_run_len(s@.skip(from as int)),
    decreases s@.len() - from,
{
    proof {
        lemma_digit_run_len(s@.skip(from as int));
    }
    if from == s.unicode_len() {
        return 0;
    }
    let c = s.get_char(from);
    if '0' <= c && c <= '9' {
        proof {
            assert(s@.skip(from as int).drop_first() =~= s@.skip(from as int + 1));
        }
        let rest = digit_run(s, from + 1);
        rest + 1
    } else {
        0
    }
}

/// Whether `s` is a float literal of the wire format.
#[verifier::rlimit(60)]
pub fn is_float_text(s: &str) -> (r: bool)
    ensures
        r == is_float_lit(s@),
{
    let len = s.unicode_len();
    let start: usize = if len > 0 && s.get_char(0) == '-' {
        1
    } else {
        0
    };
    let ghost t = if start == 1 {
        s@.drop_first()
    } else {
        s@
    };
    proof {
        assert(t =~= s@.skip(start as int));
        assert(is_float_lit(s@) == float_body(t));
    }
    let p = digit_run(s, start);
    proof {
        assert(t.skip(p as int) =~= s@.skip(start + p as int));
        assert(digit_run_len(t) == p) by {
            if p > 0 {
                assert(t =~= s@.skip(start as int));
            }
        }
        lemma_digit_run_len(t);
    }
    if start + p == len {
        return false;
    }
    if s.get_char(start + p) != '.' {
        proof {
            assert(t[p as int] == s@[start + p as int]);
        }
        return false;
    }
    let f = digit_run(s, start + p + 1);
    proof {
        assert(t.skip(p as int + 1) =~= s@.skip(start + p as int + 1));
    }
    if p == 0 && f == 0 {
        return false;
    }
    let q = start + p + 1 + f;
    proof {
        lemma_digit_run_len(t.skip(p as int + 1));
        assert(q - start == p + 1 + digit_run_len(t.skip(p as int + 1)));
    }
    if q == len {
        proof {
            assert(float_body(t));
        }
        return true;
    }
    let e = s.get_char(q);
    proof {
        assert(t[q - start] == s@[q as int]);
    }
    if !(e == 'e' || e == 'E') {
        return false;
    }
    let ghost u = t.skip(q - start + 1);
    proof {
        assert(u =~= s@.skip(q as int + 1));
    }
    let estart: usize = if q + 1 < len && (s.get_char(q + 1) == '+' || s.get_char(q + 1) == '-') {
        q + 2
    } else {
        q + 1
    };
    let ghost w = if estart == q + 2 {
        u.drop_first()
    } else {
        u
    };
    proof {
        assert(w =~= s@.skip(estart as int));
        assert(is_exp_part(u) == (w.len() > 0 && all_digits(w)));
    }
    if estart == len {
        return false;
    }
    let g = digit_run(s, estart);
    proof {
        lemma_digit_run_len(s@.skip(estart as int));
        if estart + g == len {
            assert(all_digits(w)) by {
                assert(forall|i: int|
                    0 <= i < w.len() ==> w[i] == #[trigger] s@.skip(estart as int)[i]);
            }
        } else {
            assert(!is_digit(w[g as int]));
        }
    }
    estart + g == len
}

/// Whether the text from `from` on matches the pattern, each letter free
/// to be its upper-case twin.
fn ci_check(s: &str, from: usize, low: &str, up: &str) -> (r: bool)
    requires
        from <= s@.len(),
        low@.len() == up@.len(),
    ensures
        r == ci_matches(s@.skip(from as int), low@, up@),
{
    let len = s.unicode_len();
    let plen = low.unicode_len();
    if len - from != plen {
        return false;
    }
    let mut i: usize = 0;
    while i < plen
        invariant
            i <= plen,
            from <= len,
            len == s@.len(),
            plen == low@.len(),
            plen == up@.len(),
            len - from == plen,
            forall|j: int|
                0 <= j < i ==> #[trigger] s@.skip(from as int)[j] == low@[j] || s@.skip(
                    from as int,
                )[j] == up@[j],
        decreases plen - i,
    {
        let c = s.get_char(from + i);
        let lc = low.get_char(i);
        let uc = up.get_char(i);
        proof {
            assert(s@.skip(from as int)[i as int] == s@[from + i as int]);
        }
        if !(c == lc || c == uc) {
            return false;
        }
        i = i + 1;
    }
    true
}

/// Whether `s` is one of the non-finite float words of the reparse.
pub fn is_nonfinite_text(s: &str) -> (r: bool)
    ensures
        r == is_nonfinite_lit(s@),
{
    proof {
        reveal_strlit("inf");
        reveal_strlit("INF");
        reveal_strlit("infinity");
        reveal_strlit("INFINITY");
        reveal_strlit("nan");
        reveal_strlit("NAN");
    }
    let len = s.unicode_len();
    let start: usize = if len > 0 && (s.get_char(0) == '+' || s.get_char(0) == '-') {
        1
    } else {
        0
    };
    proof {
        assert(signless(s@) =~= s@.skip(start as int));
        assert("inf"@ =~= seq!['i', 'n', 'f']);
        assert("INF"@ =~= seq!['I', 'N', 'F']);
        assert("infinity"@ =~= seq!['i', 'n', 'f', 'i', 'n', 'i', 't', 'y']);
        assert("INFINITY"@ =~= seq!['I', 'N', 'F', 'I', 'N', 'I', 'T', 'Y']);
        assert("nan"@ =~= seq!['n', 'a', 'n']);
        assert("NAN"@ =~= seq!['N', 'A', 'N']);
    }
    let a = ci_check(s, start, "inf", "INF");
    let b = ci_check(s, start, "infinity", "INFINITY");
    let c = ci_check(s, start, "nan", "NAN");
    a || b || c
}

/// Reads `s` as the reparse reads an integer: an optional plus or minus
/// sign, then digits, within `i64`.
pub fn parse_stored_int(s: &str) -> (r: Option<i64>)
    ensures
        r is Some <==> parses_as_int(s@),
        r matches Some(v) ==> v as int == parsed_int_val(s@),
{
    let len = s.unicode_len();
    if len > 0 && s.get_char(0) == '+' {
        let rest = s.substring_char(1, len);
        proof {
            assert(rest@ =~= s@.drop_first());
            assert(signless(s@) == s@.drop_first());
        }
        if rest.unicode_len() == 0 {
            return None;
        }
        let c = rest.get_char(0);
        if !('0' <= c && c <= '9') {
            proof {
                if parses_as_int(s@) {
                    assert(is_digit(signless(s@)[0]));
                    assert(false);
                }
            }
            return None;
        }
        proof {
            assert(rest@[0] != '-');
            assert(int_lit_digits(rest@) == rest@);
        }
        match parse_int_lit(rest) {
            Some(v) => {
                proof {
                    assert(int_lit_val(rest@) == digits_val(rest@));
                    assert(parsed_int_val(s@) == digits_val(signless(s@)));
                    assert(parses_as_int(s@));
                }
                Some(v)
            },
            None => {
                proof {
                    if parses_as_int(s@) {
                        assert(is_int_lit(rest@));
                        assert(false);
                    }
                }
                None
            },
        }
    } else {
        match parse_int_lit(s) {
            Some(v) => {
                proof {
                    lemma_int_lit_parses(s@);
                }
                Some(v)
            },
            None => {
                proof {
                    if parses_as_int(s@) {
                        assert(signless(s@) == int_lit_digits(s@));
                        assert(is_int_lit(s@));
                        assert(false);
                    }
                }
                None
            },
        }
    }
}

/// The exponent-or-end check of the reparse, at position `q` of the text,
/// seen from `start` on.
fn exp_check(s: &str, start: usize, q: usize) -> (r: bool)
    requires
        start <= q <= s@.len(),
    ensures
        r == exp_or_end(s@.skip(start as int), q - start),
{
    let len = s.unicode_len();
    let ghost t = s@.skip(start as int);
    if q == len {
        return true;
    }
    let e = s.get_char(q);
    proof {
        assert(t[q - start] == s@[q as int]);
    }
    if !(e == 'e' || e == 'E') {
        return false;
    }
    let ghost u = t.skip(q - start + 1);
    proof {
        assert(u =~= s@.skip(q as int + 1));
    }
    let estart: usize = if q + 1 < len && (s.get_char(q + 1) == '+' || s.get_char(q + 1)
        == '-') {
        q + 2
    } else {
        q + 1
    };
    let ghost w = if estart == q + 2 {
        u.drop_first()
    } else {
        u
    };
    proof {
        assert(w =~= s@.skip(estart as int));
        assert(is_exp_part(u) == (w.len() > 0 && all_digits(w)));
    }
    if estart == len {
        return false;
    }
    let g = digit_run(s, estart);
    proof {
        lemma_digit_run_len(s@.skip(estart as int));
        if estart + g == len {
            assert(all_digits(w)) by {
                assert(forall|i: int|
                    0 <= i < w.len() ==> w[i] == #[trigger] s@.skip(estart as int)[i]);
            }
        } else {
            assert(!is_digit(w[g as int]));
        }
    }
    estart + g == len
}

/// Whether `s` parses as a finite float under the reparse rule.
#[verifier::rlimit(60)]
pub fn parses_as_float_text(s: &str) -> (r: bool)
    ensures
        r == parses_as_float(s@),
{
    let len = s.unicode_len();
    let start: usize = if len > 0 && (s.get_char(0) == '+' || s.get_char(0) == '-') {
        1
    } else {
        0
    };
    let ghost t = signless(s@);
    proof {
        assert(t =~= s@.skip(start as int));
    }
    let p = digit_run(s, start);
    proof {
        assert(digit_run_len(t) == p);
        lemma_digit_run_len(t);
    }
    if p == 0 {
        if start >= len {
            return false;
        }
        if s.get_char(start) != '.' {
            proof {
                assert(t[0] == s@[start as int]);
            }
            return false;
        }
        let f = digit_run(s, start + 1);
        proof {
            assert(t.skip(1) =~= s@.skip(start as int + 1));
            assert(digit_run_len(t.skip(1)) == f);
        }
        if f == 0 {
            return false;
        }
        let r = exp_check(s, start, start + 1 + f);
        proof {
            assert(exp_or_end(t, 1 + f) == r);
        }
        r
    } else {
        if start + p == len {
            return true;
        }
        let c = s.get_char(start + p);
        proof {
            assert(t[p as int] == s@[start + p as int]);
        }
        if c == '.' {
            let f = digit_run(s, start + p + 1);
            proof {
                assert(t.skip(p as int + 1) =~= s@.skip(start + p as int + 1));
                assert(digit_run_len(t.skip(p as int + 1)) == f);
            }
            let r = exp_check(s, start, start + p + 1 + f);
            proof {
                assert(exp_or_end(t, p + 1 + f) == r);
            }
            r
        } else {
            let r = exp_check(s, start, start + p);
            proof {
                assert(exp_or_end(t, p as int) == r);
            }
            r
        }
    }
}

/// The value of a run of digits is never negative.
pub proof fn lemma_digits_val_nonneg(s: Seq<char>)
    requires
        all_digits(s),
    ensures
        digits_val(s) >= 0,
    decreases s.len(),
{
    if s.len() > 0 {
        assert(all_digits(s.drop_last())) by {
            assert(forall|i: int| 0 <= i < s.len() - 1 ==> s.drop_last()[i] == s[i]);
        }
        lemma_digits_val_nonneg(s.drop_last());
    }
}

/// Reads `s` as an integer literal of the wire format; `None` when it is not
/// one, because of its shape or because its value does not fit in `i64`.
pub fn parse_int_lit(s: &str) -> (r: Option<i64>)
    ensures
        r is Some <==> is_int_lit(s@),
        r matches Some(v) ==> v as int == int_lit_val(s@),
{
    let len = s.unicode_len();
    if len == 0 {
        return None;
    }
    let neg = s.get_char(0) == '-';
    let start: usize = if neg {
        1
    } else {
        0
    };
    if start == len {
        return None;
    }
    let ghost digits = int_lit_digits(s@);
    proof {
        assert(digits =~= s@.subrange(start as int, len as int));
    }
    let mut val: u64 = 0;
    let mut big = false;
    let mut k = start;
    while k < len
        invariant
            start <= k <= len,
            len == s@.len(),
            start == 1 <==> (s@.len() > 0 && s@[0] == '-'),
            start <= 1,
            digits == int_lit_digits(s@),
            digits =~= s@.subrange(start as int, len as int),
            forall|j: int| start <= j < k ==> is_digit(#[trigger] s@[j]),
            !big ==> val == digits_val(s@.subrange(start as int, k as int)),
            big ==> digits_val(s@.subrange(start as int, k as int)) > u64::MAX,
        decreases len - k,
    {
        let c = s.get_char(k);
        if !('0' <= c && c <= '9') {
            proof {
                assert(!is_digit(digits[k - start]));
            }
            return None;
        }
        let d: u64 = (c as u32 - '0' as u32) as u64;
        proof {
            assert(d == digit_val(c));
            let pre = s@.subrange(start as int, k as int);
            let ext = s@.subrange(start as int, k as int + 1);
            assert(ext.drop_last() =~= pre);
            assert(ext.last() == s@[k as int]);
            assert(digits_val(ext) == digits_val(pre) * 10 + digit_val(s@[k as int]));
        }
        if big {
            proof {
                let pre = s@.subrange(start as int, k as int);
                assert(digits_val(pre) * 10 + d > u64::MAX) by (nonlinear_arith)
                    requires
                        digits_val(pre) > u64::MAX,
                        d >= 0,
                ;
            }
        } else if val > (u64::MAX - d) / 10 {
            proof {
                assert(val * 10 + d > u64::MAX) by (nonlinear_arith)
                    requires
                        val > (u64::MAX - d) / 10,
                        0 <= d <= 9,
                ;
            }
            big = true;
        } else {
            proof {
                assert(val * 10 + d <= u64::MAX) by (nonlinear_arith)
                    requires
                        val <= (u64::MAX - d) / 10,
                        0 <= d <= 9,
                ;
            }
            val = val * 10 + d;
        }
        k = k + 1;
    }
    proof {
        assert(s@.subrange(start as int, len as int) =~= digits);
        assert(all_digits(digits));
        lemma_digits_val_nonneg(digits);
    }
    if big {
        return None;
    }
    if neg {
        if val > 9223372036854775808u64 {
            return None;
        }
        if val == 9223372036854775808u64 {
            return Some(i64::MIN);
        }
        Some(-(val as i64))
    } else {
        if val > 9223372036854775807u64 {
            return None;
        }
        Some(val as i64)
    }
}

/// The characters of the collected digits, least significant first, read
/// back in printing order.
pub open spec fn rev_digit_chars(ds: Seq<u64>) -> Seq<char> {
    Seq::new(ds.len(), |k: int| digit_char(ds[ds.len() - 1 - k] as int))
}

proof fn lemma_rev_digit_chars_push(ds: Seq<u64>, d: u64)
    ensures
        rev_digit_chars(ds.push(d)) =~= seq![digit_char(d as int)] + rev_digit_chars(ds),
{
}

fn push_digit(out: &mut String, d: u64)
    requires
        d <= 9,
    ensures
        final(out)@ == old(out)@ + seq![digit_char(d as int)],
{
    let table = "0123456789";
    proof {
        reveal_strlit("0123456789");
    }
    let ds = table.substring_char(d as usize, d as usize + 1);
    proof {
        assert(ds@ =~= seq![digit_char(d as int)]);
    }
    out.append(ds);
}

/// The canonical decimal text of a non-negative integer.
fn print_u64(n: u64) -> (r: String)
    ensures
        r@ == nat_text(n as int),
{
    if n == 0 {
        let r = String::from_str("0");
        proof {
            reveal_strlit("0");
            assert(r@ =~= nat_text(0));
        }
        return r;
    }
    let mut ds: Vec<u64> = Vec::new();
    let mut cur: u64 = n;
    while cur > 0
        invariant
            cur > 0 ==> nat_text(n as int) == nat_text(cur as int) + rev_digit_chars(ds@),
            cur == 0 ==> nat_text(n as int) == rev_digit_chars(ds@),
            forall|k: int| 0 <= k < ds@.len() ==> #[trigger] ds@[k] <= 9,
        decreases cur,
    {
        let d: u64 = cur % 10;
        proof {
            lemma_rev_digit_chars_push(ds@, d);
            if cur <= 9 {
                assert(nat_text(cur as int) =~= seq![digit_char(d as int)]);
                assert(nat_text(cur as int) + rev_digit_chars(ds@) =~= rev_digit_chars(
                    ds@.push(d),
                ));
            } else {
                assert(nat_text(cur as int) =~= nat_text(cur as int / 10) + seq![
                    digit_char(d as int),
                ]);
                assert(nat_text(cur as int) + rev_digit_chars(ds@) =~= nat_text(
                    cur as int / 10,
                ) + rev_digit_chars(ds@.push(d)));
            }
        }
        ds.push(d);
        cur = cur / 10;
    }
    let mut out = String::new();
    let mut k: usize = ds.len();
    while k > 0
        invariant
            k <= ds@.len(),
            forall|j: int| 0 <= j < ds@.len() ==> #[trigger] ds@[j] <= 9,
            nat_text(n as int) == rev_digit_chars(ds@),
            out@ =~= rev_digit_chars(ds@).take(ds@.len() - k),
        decreases k,
    {
        let d = ds[k - 1];
        push_digit(&mut out, d);
        proof {
            assert(out@ =~= rev_digit_chars(ds@).take(ds@.len() - (k - 1)));
        }
        k = k - 1;
    }
    proof {
        assert(out@ =~= rev_digit_chars(ds@));
    }
    out
}

/// The canonical decimal text of an integer, as the packer emits it.
pub fn print_i64(i: i64) -> (r: String)
    ensures
        r@ == int_text(i as int),
{
    if i >= 0 {
        print_u64(i as u64)
    } else {
        let mag: u64 = ((-(i + 1)) as u64) + 1;
        let digits = print_u64(mag);
        let mut r = String::from_str("-");
        proof {
            reveal_strlit("-");
        }
        r.append(digits.as_str());
        proof {
            assert(r@ =~= seq!['-'] + nat_text(-(i as int)));
        }
        r
    }
}

/// The index of the first line feed in `s`, or its length.
pub open spec fn first_nl(s: Seq<char>) -> int
    decreases s.len(),
{
    if s.len() == 0 {
        0
    } else if s[0] == '\n' {
        0
    } else {
        1 + first_nl(s.drop_first())
    }
}

pub proof fn lemma_first_nl(s: Seq<char>)
    ensures
        0 <= first_nl(s) <= s.len(),
        forall|i: int| 0 <= i < first_nl(s) ==> #[trigger] s[i] != '\n',
        first_nl(s) < s.len() ==> s[first_nl(s)] == '\n',
    decreases s.len(),
{
    if s.len() > 0 && s[0] != '\n' {
        lemma_first_nl(s.drop_first());
        assert(forall|i: int| 1 <= i < s.len() ==> #[trigger] s[i] == s.drop_first()[i - 1]);
    }
}

/// A line as it is kept: without a carriage return that stood before the
/// line feed.
pub open spec fn trim_cr(line: Seq<char>) -> Seq<char> {
    if line.len() > 0 && line.last() == '\r' {
        line.drop_last()
    } else {
        line
    }
}

/// `s` split into lines: segments between line feeds, each segment stripped
/// of a carriage return that stood right before the line feed. A final line
/// feed ends the last line; text after the last line feed is kept whole.
pub open spec fn split_lines(s: Seq<char>) -> Seq<Seq<char>>
    decreases s.len() via split_lines_decreases
{
    if s.len() == 0 {
        Seq::empty()
    } else {
        let k = first_nl(s);
        if k == s.len() {
            seq![s]
        } else {
            seq![trim_cr(s.take(k))] + split_lines(s.skip(k + 1))
        }
    }
}

#[via_fn]
proof fn split_lines_decreases(s: Seq<char>) {
    lemma_first_nl(s);
}

/// The lines joined back with single line feeds.
pub open spec fn join_lines(ls: Seq<Seq<char>>) -> Seq<char>
    decreases ls.len(),
{
    if ls.len() == 0 {
        Seq::empty()
    } else if ls.len() == 1 {
        ls[0]
    } else {
        join_lines(ls.drop_last()) + seq!['\n'] + ls.last()
    }
}

/// The index of the first line feed at or after `from`.
fn find_nl(s: &str, from: usize) -> (r: usize)
    requires
        from <= s@.len(),
    ensures
        from <= r <= s@.len(),
        r - from == first_nl(s@.skip(from as int)),
    decreases s@.len() - from,
{
    proof {
        lemma_first_nl(s@.skip(from as int));
    }
    if from == s.unicode_len() {
        return from;
    }
    if s.get_char(from) == '\n' {
        return from;
    }
    proof {
        assert(s@.skip(from as int).drop_first() =~= s@.skip(from as int + 1));
    }
    find_nl(s, from + 1)
}

/// `s` split into lines, as `split_lines` describes.
#[verifier::rlimit(60)]
pub fn split_to_lines(s: &str) -> (r: Vec<String>)
    ensures
        r.deep_view() == split_lines(s@),
{
    let mut out: Vec<String> = Vec::new();
    let mut start: usize = 0;
    let len = s.unicode_len();
    proof {
        assert(s@.skip(0) =~= s@);
        assert(out.deep_view() + split_lines(s@) =~= split_lines(s@));
    }
    while start < len
        invariant
            start <= len,
            len == s@.len(),
            split_lines(s@) == out.deep_view() + split_lines(s@.skip(start as int)),
        decreases len - start,
    {
        let ghost rest = s@.skip(start as int);
        let k = find_nl(s, start);
        proof {
            lemma_first_nl(rest);
        }
        if k == len {
            let line = s.substring_char(start, len);
            proof {
                assert(line@ =~= rest);
                assert(split_lines(rest) =~= seq![rest]);
            }
            out.push(line.to_owned());
            proof {
                assert(out.deep_view() =~= split_lines(s@));
                assert(split_lines(s@.skip(len as int)) =~= Seq::<Seq<char>>::empty());
                assert(out.deep_view() + split_lines(s@.skip(len as int)) =~= split_lines(s@));
            }
            start = len;
        } else {
            let end: usize = if k > start && s.get_char(k - 1) == '\r' {
                k - 1
            } else {
                k
            };
            let line = s.substring_char(start, end);
            proof {
                let kk = k - start as int;
                assert(rest.take(kk) =~= s@.subrange(start as int, k as int));
                if k > start && s@[k - 1] == '\r' {
                    assert(trim_cr(rest.take(kk)) =~= s@.subrange(start as int, k as int - 1));
                } else {
                    assert(trim_cr(rest.take(kk)) =~= s@.subrange(start as int, k as int));
                }
                assert(line@ =~= trim_cr(rest.take(kk)));
                assert(rest.skip(kk + 1) =~= s@.skip(k as int + 1));
                assert(split_lines(rest) =~= seq![trim_cr(rest.take(kk))] + split_lines(
                    s@.skip(k as int + 1),
                ));
            }
            out.push(line.to_owned());
            proof {
                assert(out.deep_view() + split_lines(s@.skip(k as int + 1)) =~= split_lines(s@));
            }
            start = k + 1;
        }
    }
    proof {
        assert(split_lines(s@.skip(len as int)) =~= Seq::<Seq<char>>::empty());
        assert(out.deep_view() =~= split_lines(s@));
    }
    out
}

pub open spec fn hex_char(d: int) -> char
    recommends
        0 <= d <= 15,
{
    seq![
        '0',
        '1',
        '2',
        '3',
        '4',
        '5',
        '6',
        '7',
        '8',
        '9',
        'a',
        'b',
        'c',
        'd',
        'e',
        'f',
    ][if 0 <= d <= 15 {
        d
    } else {
        0
    }]
}

/// How one character is written inside a JSON string: quotes and
/// backslashes escaped, the short named escapes for the usual control
/// characters, `\u00..` for the other control characters, everything else
/// as itself.
pub open spec fn escape_char(c: char) -> Seq<char> {
    if c == '"' {
        seq!['\\', '"']
    } else if c == '\\' {
        seq!['\\', '\\']
    } else if c == '\n' {
        seq!['\\', 'n']
    } else if c == '\r' {
        seq!['\\', 'r']
    } else if c == '\t' {
        seq!['\\', 't']
    } else if c == '\u{8}' {
        seq!['\\', 'b']
    } else if c == '\u{c}' {
        seq!['\\', 'f']
    } else if (c as int) < 32 {
        seq!['\\', 'u', '0', '0', hex_char(c as int / 16), hex_char(c as int % 16)]
    } else {
        seq![c]
    }
}

pub open spec fn escape_text(s: Seq<char>) -> Seq<char>
    decreases s.len(),
{
    if s.len() == 0 {
        Seq::empty()
    } else {
        escape_text(s.drop_last()) + escape_char(s.last())
    }
}

/// A JSON string literal: the escaped text between double quotes.
pub open spec fn quote_text(s: Seq<char>) -> Seq<char> {
    seq!['"'] + escape_text(s) + seq!['"']
}

/// The compact JSON text of a value, as the decoder re-serialises one.
pub open spec fn json_text(v: JVal) -> Seq<char>
    decreases v, 1int via json_text_decreases
{
    match v {
        JVal::Null => seq!['n', 'u', 'l', 'l'],
        JVal::Boolean(b) => if b {
            seq!['t', 'r', 'u', 'e']
        } else {
            seq!['f', 'a', 'l', 's', 'e']
        },
        JVal::Integer(i) => int_text(i),
        JVal::NumberText(t) => t,
        JVal::Text(s) => quote_text(s),
        JVal::Array(es) => seq!['['] + elems_text(es) + seq![']'],
        JVal::Object(es) => seq!['{'] + entries_text(es) + seq!['}'],
    }
}

#[via_fn]
proof fn json_text_decreases(v: JVal) {
    match v {
        JVal::Array(es) => {
            assert(decreases_to!(v => es));
        },
        JVal::Object(es) => {
            assert(decreases_to!(v => es));
        },
        _ => {},
    }
}

pub open spec fn elems_text(es: Seq<JVal>) -> Seq<char>
    decreases es, 0int via elems_text_decreases
{
    if es.len() == 0 {
        Seq::empty()
    } else if es.len() == 1 {
        json_text(es.last())
    } else {
        elems_text(es.drop_last()) + seq![','] + json_text(es.last())
    }
}

#[via_fn]
proof fn elems_text_decreases(es: Seq<JVal>) {
    if es.len() > 0 {
        assert(decreases_to!(es => es.drop_last()));
        assert(decreases_to!(es => es[es.len() - 1]));
    }
}

pub open spec fn entries_text(es: Seq<(Seq<char>, JVal)>) -> Seq<char>
    decreases es, 0int via entries_text_decreases
{
    if es.len() == 0 {
        Seq::empty()
    } else if es.len() == 1 {
        quote_text(es.last().0) + seq![':'] + json_text(es.last().1)
    } else {
        entries_text(es.drop_last()) + seq![','] + quote_text(es.last().0) + seq![':']
            + json_text(es.last().1)
    }
}

#[via_fn]
proof fn entries_text_decreases(es: Seq<(Seq<char>, JVal)>) {
    if es.len() > 0 {
        assert(decreases_to!(es => es.drop_last()));
        assert(decreases_to!(es => es[es.len() - 1]));
        assert(decreases_to!(es[es.len() - 1] => es[es.len() - 1].1));
    }
}

/// Appends the escaped form of a character that cannot stand bare inside
/// a JSON string.
fn push_escaped(out: &mut String, c: char)
    requires
        c == '"' || c == '\\' || (c as u32) < 32,
    ensures
        final(out)@ == old(out)@ + escape_char(c),
{
    if c == '"' {
        proof {
            reveal_strlit("\\\"");
        }
        out.append("\\\"");
        proof {
            assert(final(out)@ =~= old(out)@ + escape_char(c));
        }
    } else if c == '\\' {
        proof {
            reveal_strlit("\\\\");
        }
        out.append("\\\\");
        proof {
            assert(final(out)@ =~= old(out)@ + escape_char(c));
        }
    } else if c == '\n' {
        proof {
            reveal_strlit("\\n");
        }
        out.append("\\n");
        proof {
            assert(final(out)@ =~= old(out)@ + escape_char(c));
        }
    } else if c == '\r' {
        proof {
            reveal_strlit("\\r");
        }
        out.append("\\r");
        proof {
            assert(final(out)@ =~= old(out)@ + escape_char(c));
        }
    } else if c == '\t' {
        proof {
            reveal_strlit("\\t");
        }
        out.append("\\t");
        proof {
            assert(final(out)@ =~= old(out)@ + escape_char(c));
        }
    } else if c == '\u{8}' {
        proof {
            reveal_strlit("\\b");
        }
        out.append("\\b");
        proof {
            assert(final(out)@ =~= old(out)@ + escape_char(c));
        }
    } else if c == '\u{c}' {
        proof {
            reveal_strlit("\\f");
        }
        out.append("\\f");
        proof {
            assert(final(out)@ =~= old(out)@ + escape_char(c));
        }
    } else if (c as u32) < 32 {
        proof {
            reveal_strlit("\\u00");
            reveal_strlit("0123456789abcdef");
        }
        out.append("\\u00");
        let table = "0123456789abcdef";
        let hi = ((c as u32) / 16) as usize;
        let lo = ((c as u32) % 16) as usize;
        let hs = table.substring_char(hi, hi + 1);
        out.append(hs);
        let lsx = table.substring_char(lo, lo + 1);
        out.append(lsx);
        proof {
            assert(hs@ =~= seq![hex_char(c as int / 16)]);
            assert(lsx@ =~= seq![hex_char(c as int % 16)]);
            assert(final(out)@ =~= old(out)@ + escape_char(c));
        }
    } else {
        proof {
            assert(false);
        }
    }
}

/// The escaped text of `s`, between double quotes.
pub fn quote_string(s: &str) -> (r: String)
    ensures
        r@ == quote_text(s@),
{
    let mut out = String::from_str("\"");
    proof {
        reveal_strlit("\"");
        assert(out@ =~= seq!['"']);
    }
    let len = s.unicode_len();
    let mut i: usize = 0;
    while i < len
        invariant
            i <= len,
            len == s@.len(),
            out@ == seq!['"'] + escape_text(s@.take(i as int)),
        decreases len - i,
    {
        let c = s.get_char(i);
        if c == '"' || c == '\\' || (c as u32) < 32 {
            push_escaped(&mut out, c);
        } else {
            let one = s.substring_char(i, i + 1);
            out.append(one);
            proof {
                assert(one@ =~= seq![s@[i as int]]);
                assert(escape_char(c) =~= seq![c]);
            }
        }
        proof {
            let t1 = s@.take(i as int + 1);
            assert(t1.drop_last() =~= s@.take(i as int));
            assert(t1.last() == s@[i as int]);
            assert(out@ =~= seq!['"'] + escape_text(t1));
        }
        i = i + 1;
    }
    proof {
        assert(s@.take(len as int) =~= s@);
    }
    out.append("\"");
    proof {
        assert(out@ =~= quote_text(s@));
    }
    out
}

/// The compact JSON text of a value, as `json_text` describes it.
#[verifier::loop_isolation(false)]
pub fn to_json_text(v: &JsonValue) -> (r: String)
    ensures
        r@ == json_text(v@),
    decreases v@,
{
    match v {
        JsonValue::Null => {
            let s = String::from_str("null");
            proof {
                reveal_strlit("null");
                assert(s@ =~= json_text(v@));
            }
            s
        },
        JsonValue::Boolean(b) => {
            if *b {
                let s = String::from_str("true");
                proof {
                    reveal_strlit("true");
                    assert(s@ =~= json_text(v@));
                }
                s
            } else {
                let s = String::from_str("false");
                proof {
                    reveal_strlit("false");
                    assert(s@ =~= json_text(v@));
                }
                s
            }
        },
        JsonValue::Integer(i) => print_i64(*i),
        JsonValue::NumberText(t) => t.clone(),
        JsonValue::Text(s) => quote_string(s.as_str()),
        JsonValue::Array(es) => {
            let ghost ms = crate::value::model_elems(es@);
            proof {
                crate::value::lemma_model_elems(es@);
            }
            let mut out = String::from_str("[");
            proof {
                reveal_strlit("[");
                assert(ms.take(0) =~= Seq::<JVal>::empty());
                assert(out@ =~= seq!['['] + elems_text(ms.take(0)));
            }
            let mut i: usize = 0;
            while i < es.len()
                invariant
                    i <= es@.len(),
                    ms == crate::value::model_elems(es@),
                    ms.len() == es@.len(),
                    forall|j: int| 0 <= j < es@.len() ==> ms[j] == es@[j]@,
                    out@ == seq!['['] + elems_text(ms.take(i as int)),
                decreases es@.len() - i,
            {
                if i > 0 {
                    out.append(",");
                    proof {
                        reveal_strlit(",");
                    }
                }
                proof {
                    match v@ {
                        JVal::Array(inner) => {
                            assert(decreases_to!(v@ => inner));
                            assert(inner == ms);
                        },
                        _ => {
                            assert(false);
                        },
                    }
                    assert(decreases_to!(ms => ms[i as int]));
                    assert(decreases_to!(ms => es@[i as int]@));
                }
                let piece = to_json_text(&es[i]);
                out.append(piece.as_str());
                proof {
                    let t1 = ms.take(i as int + 1);
                    assert(t1.drop_last() =~= ms.take(i as int));
                    assert(t1.last() == ms[i as int]);
                    if i == 0 {
                        assert(out@ =~= seq!['['] + elems_text(t1));
                    } else {
                        assert(out@ =~= seq!['['] + elems_text(t1));
                    }
                }
                i = i + 1;
            }
            proof {
                assert(ms.take(es@.len() as int) =~= ms);
            }
            out.append("]");
            proof {
                reveal_strlit("]");
                assert(out@ =~= json_text(v@));
            }
            out
        },
        JsonValue::Object(es) => {
            let ghost ms = crate::value::model_entries(es@);
            proof {
                crate::value::lemma_model_entries(es@);
            }
            let mut out = String::from_str("{");
            proof {
                reveal_strlit("{");
                assert(ms.take(0) =~= Seq::<(Seq<char>, JVal)>::empty());
                assert(out@ =~= seq!['{'] + entries_text(ms.take(0)));
            }
            let mut i: usize = 0;
            while i < es.len()
                invariant
                    i <= es@.len(),
                    ms == crate::value::model_entries(es@),
                    ms.len() == es@.len(),
                    forall|j: int|
                        0 <= j < es@.len() ==> ms[j] == ((#[trigger] es@[j]).0@, es@[j].1@),
                    out@ == seq!['{'] + entries_text(ms.take(i as int)),
                decreases es@.len() - i,
            {
                if i > 0 {
                    out.append(",");
                    proof {
                        reveal_strlit(",");
                    }
                }
                let entry = &es[i];
                let keytext = quote_string(entry.0.as_str());
                out.append(keytext.as_str());
                out.append(":");
                proof {
                    reveal_strlit(":");
                    match v@ {
                        JVal::Object(inner) => {
                            assert(decreases_to!(v@ => inner));
                            assert(inner == ms);
                        },
                        _ => {
                            assert(false);
                        },
                    }
                    assert(decreases_to!(ms => ms[i as int]));
                    assert(decreases_to!(ms[i as int] => ms[i as int].1));
                    assert(decreases_to!(ms => es@[i as int].1@));
                }
                let piece = to_json_text(&entry.1);
                out.append(piece.as_str());
                proof {
                    let t1 = ms.take(i as int + 1);
                    assert(t1.drop_last() =~= ms.take(i as int));
                    assert(t1.last() == ms[i as int]);
                    assert(out@ =~= seq!['{'] + entries_text(t1));
                }
                i = i + 1;
            }
            proof {
                assert(ms.take(es@.len() as int) =~= ms);
            }
            out.append("}");
            proof {
                reveal_strlit("}");
                assert(out@ =~= json_text(v@));
            }
            out
        },
    }
}

} // verus!
