//! Characters, digit strings and decimal notation.
//!
//! The spec-level model used throughout the crate: what a decimal digit is,
//! the numeric value of a digit string, the decimal notation of a number,
//! and the lexicographic order on character sequences. The executable
//! conversions between unsigned integers and their decimal notation are
//! proved against this model.

use vstd::prelude::*;
use vstd::string::StrSliceExecFns;
use vstd::string::StringExecFns;

verus! {

/// Is `c` a decimal digit?
pub open spec fn is_digit(c: char) -> bool {
    '0' <= c && c <= '9'
}

/// Numeric value of a decimal digit.
pub open spec fn digit_val(c: char) -> nat {
    ((c as u32) - ('0' as u32)) as nat
}

/// Is `c` an ASCII whitespace character?
pub open spec fn is_space(c: char) -> bool {
    c == ' ' || c == '\t' || c == '\n' || c == '\r' || c == '\u{b}' || c == '\u{c}'
}

/// Executable whitespace test, equal to the spec-level one.
pub fn check_space(c: char) -> (b: bool)
    ensures
        b == is_space(c),
{
    c == ' ' || c == '\t' || c == '\n' || c == '\r' || c == '\u{b}' || c == '\u{c}'
}

/// Every character of `s` is a decimal digit.
pub open spec fn all_digits(s: Seq<char>) -> bool {
    forall|i: int| 0 <= i < s.len() ==> is_digit(#[trigger] s[i])
}

/// Numeric value of the digit string `s` (most significant digit first).
pub open spec fn digits_val(s: Seq<char>) -> nat
    decreases s.len(),
{
    if s.len() == 0 {
        0
    } else {
        digits_val(s.drop_last()) * 10 + digit_val(s.last())
    }
}

/// The digit character for a value below ten.
pub open spec fn digit_char(d: nat) -> char {
    if d == 0 { '0' }
    else if d == 1 { '1' }
    else if d == 2 { '2' }
    else if d == 3 { '3' }
    else if d == 4 { '4' }
    else if d == 5 { '5' }
    else if d == 6 { '6' }
    else if d == 7 { '7' }
    else if d == 8 { '8' }
    else { '9' }
}

/// Decimal notation of `n`, without leading zeros (`0` is written `"0"`).
pub open spec fn dec_rep(n: nat) -> Seq<char>
    decreases n,
{
    if n < 10 {
        seq![digit_char(n)]
    } else {
        dec_rep(n / 10).push(digit_char(n % 10))
    }
}

/// Ten to the `k`.
pub open spec fn pow10(k: nat) -> nat
    decreases k,
{
    if k == 0 {
        1
    } else {
        10 * pow10((k - 1) as nat)
    }
}

/// A digit character carries its own value.
pub proof fn lemma_digit_char_val(d: nat)
    requires
        d < 10,
    ensures
        is_digit(digit_char(d)),
        digit_val(digit_char(d)) == d,
{
}

/// Digit characters round-trip through their value.
pub proof fn lemma_digit_roundtrip(c: char)
    requires
        is_digit(c),
    ensures
        digit_char(digit_val(c)) == c,
{
    assert(('0' as u32) <= (c as u32) <= ('9' as u32));
}

/// Decimal notation consists of digits, is non-empty, has no leading zero
/// except for zero itself, and denotes the number it was made from.
pub proof fn lemma_dec_rep_digits(n: nat)
    ensures
        all_digits(dec_rep(n)),
        dec_rep(n).len() >= 1,
        digits_val(dec_rep(n)) == n,
        (dec_rep(n)[0] == '0') <==> (n == 0),
    decreases n,
{
    if n < 10 {
        lemma_digit_char_val(n);
        let s = dec_rep(n);
        assert(s.drop_last() =~= Seq::<char>::empty());
        assert(digits_val(Seq::<char>::empty()) == 0);
        assert(digits_val(s) == digit_val(digit_char(n)));
        if n != 0 {
            assert(digit_char(n) != '0');
        }
    } else {
        lemma_dec_rep_digits(n / 10);
        lemma_digit_char_val(n % 10);
        let s = dec_rep(n);
        assert(s == dec_rep(n / 10).push(digit_char(n % 10)));
        assert(s.drop_last() =~= dec_rep(n / 10));
        assert(s.last() == digit_char(n % 10));
        assert(digits_val(s) == (n / 10) * 10 + (n % 10));
        assert((n / 10) * 10 + (n % 10) == n) by (nonlinear_arith);
        assert(s[0] == dec_rep(n / 10)[0]);
        assert(n / 10 != 0);
    }
}

/// The value of a digit string is below ten to its length.
pub proof fn lemma_digits_val_bound(s: Seq<char>)
    requires
        all_digits(s),
    ensures
        digits_val(s) < pow10(s.len()),
    decreases s.len(),
{
    if s.len() == 0 {
    } else {
        let p = s.drop_last();
        assert(all_digits(p));
        lemma_digits_val_bound(p);
        assert(digit_val(s.last()) <= 9);
        assert(digits_val(p) * 10 + 9 < pow10(p.len()) * 10) by (nonlinear_arith)
            requires
                digits_val(p) < pow10(p.len()),
        ;
        assert(pow10(s.len()) == 10 * pow10(p.len()));
    }
}

/// A digit string without leading zero denotes at least ten to its length
/// less one.
pub proof fn lemma_digits_val_min(s: Seq<char>)
    requires
        all_digits(s),
        s.len() >= 1,
        s[0] != '0',
    ensures
        digits_val(s) >= pow10((s.len() - 1) as nat),
    decreases s.len(),
{
    if s.len() == 1 {
        assert(s.drop_last() =~= Seq::<char>::empty());
        assert(digits_val(Seq::<char>::empty()) == 0);
        assert(s[0] > '0');
        assert(digit_val(s[0]) >= 1);
        assert(s.last() == s[0]);
    } else {
        let p = s.drop_last();
        assert(p[0] == s[0]);
        lemma_digits_val_min(p);
        let k = (p.len() - 1) as nat;
        assert(digits_val(p) * 10 >= pow10(k) * 10) by (nonlinear_arith)
            requires
                digits_val(p) >= pow10(k),
        ;
        assert(pow10((s.len() - 1) as nat) == 10 * pow10(k));
    }
}

/// Decimal notation is the inverse of the value of a digit string that has
/// no leading zero.
pub proof fn lemma_dec_rep_inverse(s: Seq<char>)
    requires
        all_digits(s),
        s.len() >= 1,
        s.len() == 1 || s[0] != '0',
    ensures
        dec_rep(digits_val(s)) == s,
    decreases s.len(),
{
    let v = digits_val(s);
    if s.len() == 1 {
        assert(s.drop_last() =~= Seq::<char>::empty());
        assert(digits_val(Seq::<char>::empty()) == 0);
        assert(v == digit_val(s[0]));
        lemma_digit_roundtrip(s[0]);
        assert(dec_rep(v) =~= s);
    } else {
        let p = s.drop_last();
        let d = digit_val(s.last());
        assert(p[0] == s[0]);
        lemma_dec_rep_inverse(p);
        lemma_digits_val_min(p);
        assert(pow10((p.len() - 1) as nat) >= 1) by {
            lemma_pow10_pos((p.len() - 1) as nat);
        }
        assert(digits_val(p) >= 1);
        assert(v == digits_val(p) * 10 + d);
        assert(v >= 10) by (nonlinear_arith)
            requires
                v == digits_val(p) * 10 + d,
                digits_val(p) >= 1,
        ;
        assert(v / 10 == digits_val(p) && v % 10 == d) by (nonlinear_arith)
            requires
                v == digits_val(p) * 10 + d,
                d < 10,
        ;
        lemma_digit_roundtrip(s.last());
        assert(dec_rep(v) == p.push(s.last()));
        assert(p.push(s.last()) =~= s);
    }
}

/// The small powers of ten, written out.
pub proof fn lemma_pow10_vals()
    ensures
        pow10(0) == 1,
        pow10(1) == 10,
        pow10(2) == 100,
        pow10(3) == 1000,
        pow10(4) == 10000,
{
    reveal_with_fuel(pow10, 6);
}

/// Ten to the `k` is positive.
pub proof fn lemma_pow10_pos(k: nat)
    ensures
        pow10(k) >= 1,
    decreases k,
{
    if k > 0 {
        lemma_pow10_pos((k - 1) as nat);
    }
}

/// A number below ten to the `k` has decimal notation of at most `k` digits.
pub proof fn lemma_dec_rep_len(n: nat, k: nat)
    requires
        n < pow10(k),
        k >= 1,
    ensures
        dec_rep(n).len() <= k,
    decreases k,
{
    if n < 10 {
    } else {
        if k == 1 {
            lemma_pow10_vals();
            assert(false);
        }
        assert(n / 10 < pow10((k - 1) as nat)) by (nonlinear_arith)
            requires
                n < pow10(k),
                pow10(k) == 10 * pow10((k - 1) as nat),
        ;
        lemma_dec_rep_len(n / 10, (k - 1) as nat);
    }
}

/// The value of a prefix of a digit string is at most the value of the
/// whole string.
pub proof fn lemma_digits_val_prefix(s: Seq<char>, k: int)
    requires
        all_digits(s),
        0 <= k <= s.len(),
    ensures
        digits_val(s.subrange(0, k)) <= digits_val(s),
    decreases s.len() - k,
{
    if k == s.len() {
        assert(s.subrange(0, k) =~= s);
    } else {
        lemma_digits_val_prefix(s, k + 1);
        let t = s.subrange(0, k + 1);
        assert(t.drop_last() =~= s.subrange(0, k));
        assert(digits_val(t) == digits_val(s.subrange(0, k)) * 10 + digit_val(s[k]));
        assert(digits_val(s.subrange(0, k)) <= digits_val(s.subrange(0, k)) * 10) by (nonlinear_arith);
    }
}

/// Strict lexicographic order on character sequences, by code point, with a
/// proper prefix ordered before its extensions.
pub open spec fn lex_lt(a: Seq<char>, b: Seq<char>) -> bool
    decreases a.len(),
{
    if b.len() == 0 {
        false
    } else if a.len() == 0 {
        true
    } else if a[0] < b[0] {
        true
    } else if a[0] > b[0] {
        false
    } else {
        lex_lt(a.skip(1), b.skip(1))
    }
}

/// Non-strict lexicographic order.
pub open spec fn lex_le(a: Seq<char>, b: Seq<char>) -> bool {
    lex_lt(a, b) || a == b
}

/// The lexicographic order is irreflexive.
pub proof fn lemma_lex_irrefl(a: Seq<char>)
    ensures
        !lex_lt(a, a),
    decreases a.len(),
{
    if a.len() > 0 {
        lemma_lex_irrefl(a.skip(1));
    }
}

/// The lexicographic order is transitive.
pub proof fn lemma_lex_trans(a: Seq<char>, b: Seq<char>, c: Seq<char>)
    requires
        lex_lt(a, b),
        lex_lt(b, c),
    ensures
        lex_lt(a, c),
    decreases a.len() + b.len() + c.len(),
{
    if c.len() == 0 || b.len() == 0 || a.len() == 0 {
    } else {
        if a[0] == b[0] && b[0] == c[0] {
            lemma_lex_trans(a.skip(1), b.skip(1), c.skip(1));
        }
    }
}

/// Two sequences neither of which precedes the other are equal.
pub proof fn lemma_lex_connex(a: Seq<char>, b: Seq<char>)
    requires
        !lex_lt(a, b),
        !lex_lt(b, a),
    ensures
        a == b,
    decreases a.len(),
{
    if a.len() == 0 || b.len() == 0 {
        assert(a =~= b);
    } else {
        assert(a[0] == b[0]);
        lemma_lex_connex(a.skip(1), b.skip(1));
        assert(a =~= seq![a[0]] + a.skip(1));
        assert(b =~= seq![b[0]] + b.skip(1));
    }
}

/// At most one direction of the strict order holds.
pub proof fn lemma_lex_asym(a: Seq<char>, b: Seq<char>)
    requires
        lex_lt(a, b),
    ensures
        !lex_lt(b, a),
        a != b,
    decreases a.len(),
{
    if a.len() > 0 && b.len() > 0 && a[0] == b[0] {
        lemma_lex_asym(a.skip(1), b.skip(1));
        if a == b {
            assert(a.skip(1) == b.skip(1));
        }
    } else {
        if a == b {
            lemma_lex_irrefl(a);
        }
    }
}

/// If `a` and `b` agree on their first `i` characters and differ at `i`,
/// the one with the smaller character at `i` comes first; a sequence that
/// ends at `i` comes before one that goes on.
pub proof fn lemma_lex_from_diff(a: Seq<char>, b: Seq<char>, i: int)
    requires
        0 <= i <= a.len(),
        i <= b.len(),
        a.subrange(0, i) == b.subrange(0, i),
        i < b.len(),
        a.len() == i || (i < a.len() && a[i] < b[i]),
    ensures
        lex_lt(a, b),
    decreases i,
{
    if i == 0 {
    } else {
        assert(a.subrange(0, i)[0] == a[0]);
        assert(b.subrange(0, i)[0] == b[0]);
        assert(a[0] == b[0]);
        assert(a.skip(1).subrange(0, i - 1) =~= a.subrange(0, i).skip(1));
        assert(b.skip(1).subrange(0, i - 1) =~= b.subrange(0, i).skip(1));
        assert(a.skip(1).subrange(0, i - 1) == b.skip(1).subrange(0, i - 1));
        lemma_lex_from_diff(a.skip(1), b.skip(1), i - 1);
    }
}

/// Executable digit test, equal to the spec-level one.
pub fn check_digit(c: char) -> (b: bool)
    ensures
        b == is_digit(c),
{
    '0' <= c && c <= '9'
}

/// Executable digit value.
pub fn digit_value(c: char) -> (d: u64)
    requires
        is_digit(c),
    ensures
        d == digit_val(c),
        d < 10,
{
    ((c as u32) - ('0' as u32)) as u64
}

/// The one-character string for a digit value.
pub fn digit_str(d: u64) -> (s: &'static str)
    requires
        d < 10,
    ensures
        s@ == seq![digit_char(d as nat)],
{
    proof {
        reveal_strlit("0");
        reveal_strlit("1");
        reveal_strlit("2");
        reveal_strlit("3");
        reveal_strlit("4");
        reveal_strlit("5");
        reveal_strlit("6");
        reveal_strlit("7");
        reveal_strlit("8");
        reveal_strlit("9");
    }
    let s: &'static str = if d == 0 { "0" }
    else if d == 1 { "1" }
    else if d == 2 { "2" }
    else if d == 3 { "3" }
    else if d == 4 { "4" }
    else if d == 5 { "5" }
    else if d == 6 { "6" }
    else if d == 7 { "7" }
    else if d == 8 { "8" }
    else { "9" };
    proof {
        assert(s@ =~= seq![digit_char(d as nat)]);
    }
    s
}

/// Decimal notation of `n`.
pub fn u64_to_dec(n: u64) -> (s: String)
    ensures
        s@ == dec_rep(n as nat),
    decreases n,
{
    if n < 10 {
        let s = digit_str(n).to_owned();
        s
    } else {
        let q = u64_to_dec(n / 10);
        let s = q.concat(digit_str(n % 10));
        proof {
            assert(s@ =~= dec_rep((n / 10) as nat).push(digit_char((n % 10) as nat)));
        }
        s
    }
}

/// Executable string equality on character sequences.
pub fn str_eq(a: &str, b: &str) -> (r: bool)
    ensures
        r == (a@ == b@),
{
    let na = a.unicode_len();
    let nb = b.unicode_len();
    if na != nb {
        return false;
    }
    let mut i: usize = 0;
    while i < na
        invariant
            0 <= i <= na,
            na == a@.len(),
            na == b@.len(),
            forall|j: int| 0 <= j < i ==> a@[j] == b@[j],
        decreases na - i,
    {
        if a.get_char(i) != b.get_char(i) {
            return false;
        }
        i = i + 1;
    }
    proof {
        assert(a@ =~= b@);
    }
    true
}

/// Executable three-way comparison in the lexicographic order.
pub fn str_cmp(a: &str, b: &str) -> (o: core::cmp::Ordering)
    ensures
        (o == core::cmp::Ordering::Less) == lex_lt(a@, b@),
        (o == core::cmp::Ordering::Greater) == lex_lt(b@, a@),
        (o == core::cmp::Ordering::Equal) == (a@ == b@),
{
    let na = a.unicode_len();
    let nb = b.unicode_len();
    let mut i: usize = 0;
    while i < na && i < nb
        invariant
            0 <= i <= na,
            0 <= i <= nb,
            na == a@.len(),
            nb == b@.len(),
            a@.subrange(0, i as int) == b@.subrange(0, i as int),
        decreases na - i,
    {
        let ca = a.get_char(i);
        let cb = b.get_char(i);
        if ca < cb {
            proof {
                lemma_lex_from_diff(a@, b@, i as int);
                lemma_lex_asym(a@, b@);
            }
            return core::cmp::Ordering::Less;
        }
        if cb < ca {
            proof {
                lemma_lex_from_diff(b@, a@, i as int);
                lemma_lex_asym(b@, a@);
            }
            return core::cmp::Ordering::Greater;
        }
        proof {
            assert(forall|j: int| 0 <= j < i
                ==> a@.subrange(0, i as int)[j] == b@.subrange(0, i as int)[j]);
            assert(a@.subrange(0, i + 1) =~= b@.subrange(0, i + 1));
        }
        i = i + 1;
    }
    if na < nb {
        proof {
            lemma_lex_from_diff(a@, b@, na as int);
            lemma_lex_asym(a@, b@);
        }
        core::cmp::Ordering::Less
    } else if nb < na {
        proof {
            lemma_lex_from_diff(b@, a@, nb as int);
            lemma_lex_asym(b@, a@);
        }
        core::cmp::Ordering::Greater
    } else {
        proof {
            assert(a@ =~= a@.subrange(0, i as int));
            assert(b@ =~= b@.subrange(0, i as int));
            lemma_lex_irrefl(a@);
        }
        core::cmp::Ordering::Equal
    }
}

/// Numeric value of the digit substring `s[from..to]`, or `None` if it
/// exceeds `u64::MAX`.
pub fn digits_to_u64(s: &str, from: usize, to: usize) -> (r: Option<u64>)
    requires
        from <= to <= s@.len(),
        all_digits(s@.subrange(from as int, to as int)),
    ensures
        match r {
            Some(v) => v == digits_val(s@.subrange(from as int, to as int)),
            None => digits_val(s@.subrange(from as int, to as int)) > u64::MAX,
        },
{
    let ghost whole = s@.subrange(from as int, to as int);
    let mut acc: u64 = 0;
    let mut i: usize = from;
    while i < to
        invariant
            from <= i <= to <= s@.len(),
            all_digits(whole),
            whole == s@.subrange(from as int, to as int),
            acc == digits_val(s@.subrange(from as int, i as int)),
        decreases to - i,
    {
        let c = s.get_char(i);
        proof {
            assert(whole[i - from] == s@[i as int]);
        }
        let d = digit_value(c);
        let ghost next = s@.subrange(from as int, i + 1);
        proof {
            assert(next.drop_last() =~= s@.subrange(from as int, i as int));
            assert(next.last() == s@[i as int]);
            assert(digits_val(next) == acc * 10 + d);
        }
        if acc > u64::MAX / 10 || (acc == u64::MAX / 10 && d > u64::MAX % 10) {
            proof {
                assert(digits_val(next) > u64::MAX);
                assert(forall|k: int| 0 <= k < whole.len() ==> is_digit(#[trigger] whole[k]));
                lemma_digits_val_prefix(whole, i + 1 - from);
                assert(whole.subrange(0, i + 1 - from) =~= next);
            }
            return None;
        }
        acc = acc * 10 + d;
        i = i + 1;
    }
    proof {
        assert(s@.subrange(from as int, i as int) =~= whole);
    }
    Some(acc)
}

} // verus!
