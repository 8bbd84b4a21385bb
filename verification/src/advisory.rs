//! Security advisory identifiers.
//!
//! An advisory is a CVE-style identifier `CVE-<year>-<id>` with a
//! four-digit year part and an unbounded identifier part. Equality and
//! ordering are defined on the numeric `(year, id)` pair, never on the
//! rendered string.

use vstd::prelude::*;
use vstd::string::StrSliceExecFns;
use vstd::string::StringExecFns;
use crate::text::all_digits;
use crate::text::dec_rep;
use crate::text::digits_val;
use crate::text::digits_to_u64;
use crate::text::check_digit;
use crate::text::lemma_dec_rep_digits;
use crate::text::lemma_dec_rep_inverse;
use crate::text::lemma_dec_rep_len;
use crate::text::lemma_digits_val_bound;
use crate::text::pow10;
use crate::text::u64_to_dec;
use core::cmp::Ordering;

verus! {

/// Security advisory identifier. Currently only CVEs are supported.
#[derive(Debug, Clone, Copy, PartialEq, Eq, Hash, PartialOrd, Ord, Structural)]
pub struct Advisory(pub u16, pub u64);

/// Error of advisory parsing.
#[derive(Debug)]
pub enum AdvErr {
    ParseCVE(String),
}

/// The string `s` matches the advisory grammar `CVE-<4 digits>-<digits>`.
pub open spec fn adv_grammar(s: Seq<char>) -> bool {
    &&& s.len() >= 10
    &&& s.subrange(0, 4) == seq!['C', 'V', 'E', '-']
    &&& all_digits(s.subrange(4, 8))
    &&& s[8] == '-'
    &&& all_digits(s.skip(9))
}

/// Numeric value of the year part of a string in the advisory grammar.
pub open spec fn year_of(s: Seq<char>) -> nat {
    digits_val(s.subrange(4, 8))
}

/// Numeric value of the identifier part of a string in the advisory grammar.
pub open spec fn id_of(s: Seq<char>) -> nat {
    digits_val(s.skip(9))
}

/// `s` zero-padded on the left to at least four characters.
pub open spec fn pad4(s: Seq<char>) -> Seq<char> {
    if s.len() >= 4 {
        s
    } else {
        Seq::new((4 - s.len()) as nat, |i: int| '0') + s
    }
}

/// Rendered form of an advisory: the year in plain decimal, the identifier
/// zero-padded to at least four digits.
pub open spec fn adv_rep(year: nat, id: nat) -> Seq<char> {
    seq!['C', 'V', 'E', '-'] + dec_rep(year) + seq!['-'] + pad4(dec_rep(id))
}

/// Canonical form of a string in the advisory grammar: the identifier part
/// zero-padded to at least four digits, the rest unchanged.
pub open spec fn canon_adv(s: Seq<char>) -> Seq<char> {
    s.subrange(0, 9) + pad4(s.skip(9))
}

/// Numeric order on advisories: by year, then by identifier.
pub open spec fn adv_lt(a: Advisory, b: Advisory) -> bool {
    a.0 < b.0 || (a.0 == b.0 && a.1 < b.1)
}

impl Advisory {
    /// Builds the advisory `CVE-<year>-<id>`.
    pub fn new(year: u16, id: u64) -> (r: Self)
        ensures
            r == (Advisory(year, id)),
    {
        Advisory(year, id)
    }

    /// The numeric `(year, id)` pair; the basis for sorting advisories.
    pub fn as_tuple(&self) -> (r: (u16, u64))
        ensures
            r == (self.0, self.1),
    {
        (self.0, self.1)
    }

    /// Numeric comparison on the `(year, id)` pair. The rendered strings
    /// are never compared.
    pub fn cmp_num(&self, other: &Self) -> (o: Ordering)
        ensures
            o == Ordering::Less <==> adv_lt(*self, *other),
            o == Ordering::Greater <==> adv_lt(*other, *self),
            o == Ordering::Equal <==> *self == *other,
    {
        if self.0 < other.0 {
            Ordering::Less
        } else if self.0 > other.0 {
            Ordering::Greater
        } else if self.1 < other.1 {
            Ordering::Less
        } else if self.1 > other.1 {
            Ordering::Greater
        } else {
            Ordering::Equal
        }
    }

    /// Renders the advisory, the identifier zero-padded to width four.
    pub fn to_string(&self) -> (r: String)
        ensures
            r@ == adv_rep(self.0 as nat, self.1 as nat),
    {
        proof {
            reveal_strlit("CVE-");
            reveal_strlit("-");
            reveal_strlit("");
            reveal_strlit("0");
            reveal_strlit("00");
            reveal_strlit("000");
        }
        let mut s = String::new();
        s.append("CVE-");
        let year = u64_to_dec(self.0 as u64);
        s.append(year.as_str());
        s.append("-");
        let id = u64_to_dec(self.1);
        proof {
            lemma_dec_rep_digits(self.1 as nat);
        }
        let idlen = id.as_str().unicode_len();
        let z: &'static str = if idlen >= 4 { "" }
        else if idlen == 3 { "0" }
        else if idlen == 2 { "00" }
        else { "000" };
        s.append(z);
        s.append(id.as_str());
        proof {
            assert(z@ + id@ =~= pad4(dec_rep(self.1 as nat)));
            assert(s@ =~= adv_rep(self.0 as nat, self.1 as nat));
        }
        s
    }

    /// Parses `CVE-<4 digit year>-<id>`. Succeeds exactly on strings in
    /// the advisory grammar whose identifier value fits in 64 bits; any
    /// other input is returned inside the error.
    pub fn parse(s: &str) -> (r: Result<Advisory, AdvErr>)
        ensures
            r is Ok <==> adv_grammar(s@) && id_of(s@) <= u64::MAX,
            r matches Ok(a) ==> a.0 == year_of(s@) && a.1 == id_of(s@),
            r matches Err(e) ==> (e matches AdvErr::ParseCVE(orig) && orig@ == s@),
    {
        let n = s.unicode_len();
        if n < 10 {
            return Err(AdvErr::ParseCVE(s.to_owned()));
        }
        proof {
            reveal_strlit("CVE-");
        }
        let head_ok = s.get_char(0) == 'C' && s.get_char(1) == 'V' && s.get_char(2) == 'E'
            && s.get_char(3) == '-' && s.get_char(8) == '-';
        if !head_ok {
            proof {
                if adv_grammar(s@) {
                    assert(s@.subrange(0, 4)[0] == s@[0]);
                    assert(s@.subrange(0, 4)[1] == s@[1]);
                    assert(s@.subrange(0, 4)[2] == s@[2]);
                    assert(s@.subrange(0, 4)[3] == s@[3]);
                }
            }
            return Err(AdvErr::ParseCVE(s.to_owned()));
        }
        let mut i: usize = 4;
        while i < 8
            invariant
                4 <= i <= 8,
                8 < s@.len(),
                forall|j: int| 4 <= j < i ==> crate::text::is_digit(#[trigger] s@[j]),
            decreases 8 - i,
        {
            if !check_digit(s.get_char(i)) {
                proof {
                    if adv_grammar(s@) {
                        assert(s@.subrange(4, 8)[i - 4] == s@[i as int]);
                    }
                }
                return Err(AdvErr::ParseCVE(s.to_owned()));
            }
            i = i + 1;
        }
        let mut j: usize = 9;
        while j < n
            invariant
                9 <= j <= n,
                n == s@.len(),
                forall|k: int| 9 <= k < j ==> crate::text::is_digit(#[trigger] s@[k]),
            decreases n - j,
        {
            if !check_digit(s.get_char(j)) {
                proof {
                    if adv_grammar(s@) {
                        assert(s@.skip(9)[j - 9] == s@[j as int]);
                    }
                }
                return Err(AdvErr::ParseCVE(s.to_owned()));
            }
            j = j + 1;
        }
        proof {
            assert(s@.subrange(0, 4) =~= seq!['C', 'V', 'E', '-']);
            assert(forall|k: int| 0 <= k < s@.subrange(4, 8).len()
                ==> crate::text::is_digit(#[trigger] s@.subrange(4, 8)[k]));
            assert(forall|k: int| 0 <= k < s@.skip(9).len()
                ==> crate::text::is_digit(#[trigger] s@.skip(9)[k]));
            assert(adv_grammar(s@));
        }
        let year = match digits_to_u64(s, 4, 8) {
            Some(v) => v,
            None => {
                proof {
                    lemma_digits_val_bound(s@.subrange(4, 8));
                    crate::text::lemma_pow10_vals();
                }
                return Err(AdvErr::ParseCVE(s.to_owned()));
            }
        };
        proof {
            lemma_digits_val_bound(s@.subrange(4, 8));
            crate::text::lemma_pow10_vals();
        }
        let id = match digits_to_u64(s, 9, n) {
            Some(v) => v,
            None => {
                return Err(AdvErr::ParseCVE(s.to_owned()));
            }
        };
        proof {
            assert(s@.subrange(9, n as int) =~= s@.skip(9));
        }
        Ok(Advisory(year as u16, id))
    }
}

impl AdvErr {
    /// Human-readable description of the error.
    pub fn message(&self) -> (r: String)
        ensures
            self matches AdvErr::ParseCVE(orig)
                ==> r@ == "Failed to parse CVE identifier `"@ + orig@ + "'"@,
    {
        match self {
            AdvErr::ParseCVE(orig) => {
                let mut s = String::new();
                s.append("Failed to parse CVE identifier `");
                s.append(orig.as_str());
                s.append("'");
                proof {
                    assert(s@ =~= "Failed to parse CVE identifier `"@ + orig@ + "'"@);
                }
                s
            }
        }
    }
}

/// Law: a string in the advisory grammar parses to the advisory whose
/// rendered form is the canonical form of the string — the identifier part
/// zero-padded to width four. Excluded are strings whose year part starts
/// with `0` and identifier parts longer than four digits that start with
/// `0`: those lose their leading zeros in the round trip.
pub proof fn lemma_parse_render_canonical(s: Seq<char>)
    requires
        adv_grammar(s),
        id_of(s) <= u64::MAX,
        s[4] != '0',
        s.len() - 9 <= 4 || s[9] != '0',
    ensures
        adv_rep(year_of(s), id_of(s)) == canon_adv(s),
{
    let yp = s.subrange(4, 8);
    let ip = s.skip(9);
    assert(yp[0] == s[4]);
    lemma_dec_rep_inverse(yp);
    if ip.len() > 4 {
        assert(ip[0] == s[9]);
        lemma_dec_rep_inverse(ip);
        assert(pad4(dec_rep(id_of(s))) == ip);
    } else {
        lemma_pad4_dec(ip);
    }
    assert(seq!['C', 'V', 'E', '-'] + dec_rep(year_of(s)) + seq!['-'] =~= s.subrange(0, 9)) by {
        assert(s.subrange(0, 4)[0] == s[0]);
        assert(s.subrange(0, 4)[1] == s[1]);
        assert(s.subrange(0, 4)[2] == s[2]);
        assert(s.subrange(0, 4)[3] == s[3]);
    }
    assert(adv_rep(year_of(s), id_of(s)) =~= canon_adv(s));
}

/// Padding the decimal notation of the value of a short digit string gives
/// the same result as padding the string itself.
proof fn lemma_pad4_dec(t: Seq<char>)
    requires
        all_digits(t),
        1 <= t.len() <= 4,
    ensures
        pad4(dec_rep(digits_val(t))) == pad4(t),
    decreases t.len(),
{
    if t[0] != '0' || t.len() == 1 {
        lemma_dec_rep_inverse(t);
        assert(pad4(dec_rep(digits_val(t))) =~= pad4(t));
    } else {
        let u = t.skip(1);
        assert(digits_val(t) == digits_val(u)) by {
            lemma_leading_zero(t);
        }
        lemma_pad4_dec(u);
        assert(pad4(t) =~= pad4(u));
    }
}

/// A leading zero does not change the value of a digit string.
proof fn lemma_leading_zero(t: Seq<char>)
    requires
        all_digits(t),
        t.len() >= 1,
        t[0] == '0',
    ensures
        digits_val(t) == digits_val(t.skip(1)),
    decreases t.len(),
{
    if t.len() == 1 {
        assert(t.drop_last() =~= Seq::<char>::empty());
        assert(t.skip(1) =~= Seq::<char>::empty());
    } else {
        let p = t.drop_last();
        lemma_leading_zero(p);
        assert(p.skip(1) =~= t.skip(1).drop_last());
        assert(t.skip(1).last() == t.last());
    }
}

/// Law: rendering an advisory whose year has four digits and parsing the
/// result gives back the same `(year, id)` pair, and the rendered string is
/// in the advisory grammar.
pub proof fn lemma_render_parse_roundtrip(a: Advisory)
    requires
        1000 <= a.0 <= 9999,
    ensures
        adv_grammar(adv_rep(a.0 as nat, a.1 as nat)),
        year_of(adv_rep(a.0 as nat, a.1 as nat)) == a.0,
        id_of(adv_rep(a.0 as nat, a.1 as nat)) == a.1,
{
    let s = adv_rep(a.0 as nat, a.1 as nat);
    let yr = dec_rep(a.0 as nat);
    let ir = pad4(dec_rep(a.1 as nat));
    lemma_dec_rep_digits(a.0 as nat);
    lemma_dec_rep_digits(a.1 as nat);
    assert(yr.len() == 4) by {
        crate::text::lemma_pow10_vals();
        lemma_dec_rep_len(a.0 as nat, 4);
        lemma_digits_val_bound(yr);
        if yr.len() <= 3 {
            assert(pow10(yr.len()) <= 1000) by {
                lemma_pow10_mono(yr.len(), 3);
            }
        }
    }
    assert(all_digits(ir)) by {
        lemma_pad4_digits(dec_rep(a.1 as nat));
    }
    assert(s.subrange(0, 4) =~= seq!['C', 'V', 'E', '-']);
    assert(s.subrange(4, 8) =~= yr);
    assert(s[8] == '-');
    assert(s.skip(9) =~= ir);
    assert(s.len() >= 10);
    assert(adv_grammar(s));
    assert(year_of(s) == a.0);
    assert(digits_val(ir) == a.1) by {
        lemma_pad_keeps_val(dec_rep(a.1 as nat));
    }
}

/// Padding with zeros keeps every character a digit.
proof fn lemma_pad4_digits(t: Seq<char>)
    requires
        all_digits(t),
    ensures
        all_digits(pad4(t)),
{
    if t.len() < 4 {
        let p = pad4(t);
        assert(forall|i: int| 0 <= i < p.len() ==> crate::text::is_digit(#[trigger] p[i])) by {
            assert(forall|i: int| 0 <= i < 4 - t.len() ==> p[i] == '0');
            assert(forall|i: int| 4 - t.len() <= i < p.len() ==> p[i] == t[i - (4 - t.len())]);
        }
    }
}

/// Padding with zeros keeps the value of a digit string.
proof fn lemma_pad_keeps_val(t: Seq<char>)
    requires
        all_digits(t),
        t.len() >= 1,
    ensures
        digits_val(pad4(t)) == digits_val(t),
{
    let p = pad4(t);
    if t.len() < 4 {
        lemma_pad4_digits(t);
        lemma_zeros_prefix_val(p, (4 - t.len()) as int);
        assert(p.skip((4 - t.len()) as int) =~= t);
    }
}

/// Dropping a run of leading zeros keeps the value of a digit string.
proof fn lemma_zeros_prefix_val(t: Seq<char>, k: int)
    requires
        all_digits(t),
        0 <= k <= t.len(),
        forall|i: int| 0 <= i < k ==> t[i] == '0',
    ensures
        digits_val(t) == digits_val(t.skip(k)),
    decreases k,
{
    if k > 0 {
        lemma_leading_zero(t);
        assert(t.skip(1).skip(k - 1) =~= t.skip(k));
        assert(all_digits(t.skip(1)));
        assert(forall|i: int| 0 <= i < k - 1 ==> t.skip(1)[i] == '0');
        lemma_zeros_prefix_val(t.skip(1), k - 1);
    } else {
        assert(t.skip(0) =~= t);
    }
}

/// Ten to the power is monotone in the exponent.
proof fn lemma_pow10_mono(a: nat, b: nat)
    requires
        a <= b,
    ensures
        pow10(a) <= pow10(b),
    decreases b,
{
    if a < b {
        lemma_pow10_mono(a, (b - 1) as nat);
        crate::text::lemma_pow10_pos((b - 1) as nat);
    }
}

} // verus!
