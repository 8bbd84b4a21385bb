//! Store content matcher.
//!
//! Parses raw store-listing dumps into canonical package names and answers
//! membership queries, so that scans can be restricted to packages that are
//! actually deployed. Each line of a listing is trimmed and yields one
//! name: a full absolute store path loses its fixed-width hash-prefix
//! directory, a bare `hash-name` pair loses the shorter hash prefix, and
//! anything else is taken as the name itself. A package counts as
//! installed when its bare name is known or when `name-output` is known
//! for one of its declared build outputs.

use vstd::prelude::*;
use vstd::string::StrSliceExecFns;
use vstd::string::StringExecFns;
use crate::source::NixEnvPkg;
use crate::source::str_views;
use crate::text::is_space;
use crate::text::check_space;
use crate::text::str_eq;

verus! {

/// Index of the first newline of `s`, or its length if there is none.
pub open spec fn first_nl(s: Seq<char>) -> int
    decreases s.len(),
{
    if s.len() == 0 {
        0
    } else if s[0] == '\n' {
        0
    } else {
        1 + first_nl(s.skip(1))
    }
}

/// The first newline is where the scan finds it.
pub proof fn lemma_first_nl(s: Seq<char>, k: int)
    requires
        0 <= k <= s.len(),
        forall|j: int| 0 <= j < k ==> s[j] != '\n',
        k == s.len() || s[k] == '\n',
    ensures
        first_nl(s) == k,
    decreases k,
{
    if k > 0 {
        lemma_first_nl(s.skip(1), k - 1);
    }
}

/// The first newline lies in range and nothing before it is a newline.
pub proof fn lemma_first_nl_bounds(s: Seq<char>)
    ensures
        0 <= first_nl(s) <= s.len(),
        forall|j: int| 0 <= j < first_nl(s) ==> s[j] != '\n',
        first_nl(s) == s.len() || s[first_nl(s)] == '\n',
    decreases s.len(),
{
    if s.len() > 0 && s[0] != '\n' {
        lemma_first_nl_bounds(s.skip(1));
        assert forall|j: int| 0 <= j < first_nl(s) implies s[j] != '\n' by {
            if j > 0 {
                assert(s.skip(1)[j - 1] == s[j]);
            }
        }
    }
}

/// A line without its trailing carriage return, if it has one.
pub open spec fn strip_cr(l: Seq<char>) -> Seq<char> {
    if l.len() > 0 && l.last() == '\r' {
        l.drop_last()
    } else {
        l
    }
}

/// The lines of `s`: split at newlines, one trailing carriage return
/// removed per line, no line after a terminal newline.
pub open spec fn lines_of(s: Seq<char>) -> Seq<Seq<char>>
    decreases s.len(),
    via lines_of_dec
{
    if s.len() == 0 {
        Seq::empty()
    } else {
        let k = first_nl(s);
        let line = strip_cr(s.subrange(0, k));
        if k == s.len() {
            seq![line]
        } else {
            seq![line] + lines_of(s.skip(k + 1))
        }
    }
}

#[via_fn]
proof fn lines_of_dec(s: Seq<char>) {
    lemma_first_nl_bounds(s);
}

/// `s` without leading whitespace.
pub open spec fn trim_left(s: Seq<char>) -> Seq<char>
    decreases s.len(),
{
    if s.len() > 0 && is_space(s[0]) {
        trim_left(s.skip(1))
    } else {
        s
    }
}

/// `s` without trailing whitespace.
pub open spec fn trim_right(s: Seq<char>) -> Seq<char>
    decreases s.len(),
{
    if s.len() > 0 && is_space(s.last()) {
        trim_right(s.drop_last())
    } else {
        s
    }
}

/// `s` without leading and trailing whitespace.
pub open spec fn trim_of(s: Seq<char>) -> Seq<char> {
    trim_right(trim_left(s))
}

/// The canonical name on a trimmed, non-empty line: a full absolute store
/// path loses its 44-character hash-prefix directory, a bare `hash-name`
/// pair loses its 33-character hash prefix, anything else stands as it is.
/// The prefix is recognized only when the dash sits at the exact offset.
pub open spec fn line_extract(l: Seq<char>) -> Seq<char> {
    if l.len() > 44 && l[43] == '-' {
        l.skip(44)
    } else if l.len() > 33 && l[32] == '-' {
        l.skip(33)
    } else {
        l
    }
}

/// The output-name suffixes removed in suffix-stripping mode.
pub open spec fn strippable(t: Seq<char>) -> bool {
    t == "-dev"@ || t == "-bin"@ || t == "-out"@ || t == "-lib"@
}

/// `nm` without one known output-name suffix, if it ends in one.
pub open spec fn strip_suffix_of(nm: Seq<char>) -> Seq<char> {
    if nm.len() > 4 && strippable(nm.skip(nm.len() - 4)) {
        nm.subrange(0, nm.len() - 4)
    } else {
        nm
    }
}

/// The names extracted from a sequence of lines: blank lines (after
/// trimming) yield nothing, every other line yields one name.
pub open spec fn extract_lines(ls: Seq<Seq<char>>, strip: bool) -> Seq<Seq<char>>
    decreases ls.len(),
{
    if ls.len() == 0 {
        Seq::empty()
    } else {
        let t = trim_of(ls[0]);
        let head: Seq<Seq<char>> = if t.len() == 0 {
            Seq::empty()
        } else if strip {
            seq![strip_suffix_of(line_extract(t))]
        } else {
            seq![line_extract(t)]
        };
        head + extract_lines(ls.skip(1), strip)
    }
}

/// The names extracted from a raw listing.
pub open spec fn derivations_of(s: Seq<char>, strip: bool) -> Seq<Seq<char>> {
    extract_lines(lines_of(s), strip)
}

/// Extracts the canonical package names from a raw store listing, one per
/// non-blank line.
pub fn extract_derivations(storelisting: &str) -> (r: Vec<String>)
    ensures
        str_views(r@) == derivations_of(storelisting@, false),
{
    let mut out: Vec<String> = Vec::new();
    extract_derivations_into(storelisting, false, &mut out);
    proof {
        assert(str_views(Seq::<String>::empty()) =~= Seq::<Seq<char>>::empty());
        assert(str_views(out@) =~= derivations_of(storelisting@, false));
    }
    out
}

/// Appends the canonical package names of a raw listing to `out`.
#[verifier::loop_isolation(false)]
fn extract_derivations_into(s: &str, strip: bool, out: &mut Vec<String>)
    ensures
        str_views(final(out)@) == str_views(old(out)@) + derivations_of(s@, strip),
{
    let n = s.unicode_len();
    let mut pos: usize = 0;
    proof {
        assert(s@.skip(0) =~= s@);
    }
    while pos < n
        invariant
            0 <= pos <= n,
            str_views(out@) + derivations_of(s@.skip(pos as int), strip)
                == str_views(old(out)@) + derivations_of(s@, strip),
        decreases n - pos,
    {
        let ghost before = str_views(out@);
        let (name, next) = next_derivation(s, pos, strip);
        match name {
            Some(nm) => {
                out.push(nm);
                proof {
                    assert(str_views(out@) =~= before + opt_name_seq(name));
                }
            }
            None => {
                proof {
                    assert(str_views(out@) =~= before + opt_name_seq(name));
                }
            }
        }
        pos = next;
    }
    proof {
        assert(s@.skip(pos as int).len() == 0);
        assert(str_views(out@) + derivations_of(s@.skip(pos as int), strip)
            =~= str_views(out@));
    }
}

/// The names contributed by one line.
spec fn opt_name_seq(o: Option<String>) -> Seq<Seq<char>> {
    match o {
        Some(x) => seq![x@],
        None => Seq::empty(),
    }
}

/// Takes the line of `s` that starts at `pos`, and returns the name it
/// yields, if any, together with the start of the next line.
#[verifier::loop_isolation(false)]
#[verifier::rlimit(60)]
fn next_derivation(s: &str, pos: usize, strip: bool) -> (r: (Option<String>, usize))
    requires
        pos < s@.len(),
    ensures
        pos < r.1 <= s@.len(),
        derivations_of(s@.skip(pos as int), strip)
            == opt_name_seq(r.0) + derivations_of(s@.skip(r.1 as int), strip),
{
    let ghost rest = s@.skip(pos as int);
    let n = s.unicode_len();
    // find the end of the current line
    let mut k: usize = pos;
    while k < n
        invariant
            pos <= k <= n,
            forall|j: int| pos <= j < k ==> s@[j] != '\n',
        decreases n - k,
    {
        if s.get_char(k) == '\n' {
            break;
        }
        k = k + 1;
    }
    proof {
        assert(forall|j: int| 0 <= j < k - pos ==> rest[j] != '\n');
        lemma_first_nl(rest, k - pos);
    }
    let line_end = if k > pos && s.get_char(k - 1) == '\r' { k - 1 } else { k };
    proof {
        assert(rest.subrange(0, k - pos) =~= s@.subrange(pos as int, k as int));
        assert(strip_cr(rest.subrange(0, k - pos))
            =~= s@.subrange(pos as int, line_end as int)) by {
            if line_end < k {
                assert(rest.subrange(0, k - pos).last() == s@[k - 1]);
                assert(rest.subrange(0, k - pos).drop_last()
                    =~= s@.subrange(pos as int, line_end as int));
            } else if k > pos {
                assert(rest.subrange(0, k - pos).last() == s@[k - 1]);
            }
        }
    }
    // trim the line
    let mut a: usize = pos;
    while a < line_end
        invariant
            pos <= a <= line_end,
            forall|j: int| pos <= j < a ==> is_space(#[trigger] s@[j]),
        decreases line_end - a,
    {
        if !check_space(s.get_char(a)) {
            break;
        }
        a = a + 1;
    }
    let mut b: usize = line_end;
    while b > a
        invariant
            a <= b <= line_end,
            forall|j: int| b <= j < line_end ==> is_space(#[trigger] s@[j]),
        decreases b,
    {
        if !check_space(s.get_char(b - 1)) {
            break;
        }
        b = b - 1;
    }
    proof {
        lemma_trim_scan(s@.subrange(pos as int, line_end as int), a - pos, b - pos);
        assert(s@.subrange(pos as int, line_end as int).subrange(a - pos, b - pos)
            =~= s@.subrange(a as int, b as int));
    }
    let ghost tl = trim_of(strip_cr(rest.subrange(0, k - pos)));
    let next = if k < n { k + 1 } else { n };
    proof {
        let lf = lines_of(rest);
        assert(lf.len() >= 1 && lf[0] == strip_cr(rest.subrange(0, k - pos)));
        if k < n {
            assert(rest.skip(k - pos + 1) =~= s@.skip(k + 1));
            assert(lf.skip(1) =~= lines_of(s@.skip(next as int)));
        } else {
            assert(s@.skip(next as int).len() == 0);
            assert(lf.skip(1) =~= lines_of(s@.skip(next as int)));
        }
        lemma_extract_lines_cons(lf, lines_of(s@.skip(next as int)), strip);
    }
    // extract the name
    if b > a {
        let name = if b - a > 44 && s.get_char(a + 43) == '-' {
            s.substring_char(a + 44, b)
        } else if b - a > 33 && s.get_char(a + 32) == '-' {
            s.substring_char(a + 33, b)
        } else {
            s.substring_char(a, b)
        };
        proof {
            assert(tl =~= s@.subrange(a as int, b as int));
            assert(name@ =~= line_extract(tl)) by {
                if tl.len() > 44 && tl[43] == '-' {
                    assert(tl.skip(44) =~= s@.subrange(a + 44, b as int));
                } else if tl.len() > 33 && tl[32] == '-' {
                    assert(tl.skip(33) =~= s@.subrange(a + 33, b as int));
                }
            }
        }
        if strip {
            let nl = name.unicode_len();
            let stripped = if nl > 4 && (
                str_eq(name.substring_char(nl - 4, nl), "-dev")
                || str_eq(name.substring_char(nl - 4, nl), "-bin")
                || str_eq(name.substring_char(nl - 4, nl), "-out")
                || str_eq(name.substring_char(nl - 4, nl), "-lib")
            ) {
                name.substring_char(0, nl - 4)
            } else {
                name
            };
            proof {
                if name@.len() > 4 {
                    assert(name@.subrange(nl - 4, nl as int) =~= name@.skip(nl - 4));
                }
                assert(stripped@ =~= strip_suffix_of(line_extract(tl)));
            }
            (Some(stripped.to_owned()), next)
        } else {
            (Some(name.to_owned()), next)
        }
    } else {
        proof {
            assert(tl =~= s@.subrange(a as int, b as int));
            assert(tl.len() == 0);
        }
        (None, next)
    }
}

/// A one-line split: the extraction of a line list starting with `head`
/// is the extraction of the head line followed by that of the rest.
proof fn lemma_extract_lines_cons(lf: Seq<Seq<char>>, rest: Seq<Seq<char>>, strip: bool)
    requires
        lf.len() >= 1,
        lf.skip(1) == rest,
    ensures
        extract_lines(lf, strip) == (if trim_of(lf[0]).len() == 0 {
            extract_lines(rest, strip)
        } else if strip {
            seq![strip_suffix_of(line_extract(trim_of(lf[0])))] + extract_lines(rest, strip)
        } else {
            seq![line_extract(trim_of(lf[0]))] + extract_lines(rest, strip)
        }),
{
    if trim_of(lf[0]).len() == 0 {
        assert(extract_lines(lf, strip) =~= extract_lines(rest, strip));
    }
}

/// What the two-ended scan finds is the trimmed line.
proof fn lemma_trim_scan(l: Seq<char>, a: int, b: int)
    requires
        0 <= a <= l.len(),
        a <= b <= l.len(),
        forall|j: int| 0 <= j < a ==> is_space(#[trigger] l[j]),
        a == l.len() || a == b || !is_space(l[a]),
        forall|j: int| b <= j < l.len() ==> is_space(#[trigger] l[j]),
        b == 0 || a == b || !is_space(l[b - 1]),
    ensures
        trim_of(l) == l.subrange(a, b),
    decreases l.len(),
{
    if a > 0 {
        assert(is_space(l[0]));
        lemma_trim_scan(l.skip(1), a - 1, b - 1);
        assert(l.skip(1).subrange(a - 1, b - 1) =~= l.subrange(a, b));
    } else if b == 0 {
        lemma_trim_left_all(l);
        assert(trim_right(trim_left(l)) =~= l.subrange(0, 0));
    } else {
        assert(!is_space(l[0]));
        assert(trim_left(l) == l);
        lemma_trim_right_scan(l, b);
    }
}

/// Trimming a line of nothing but whitespace leaves nothing.
proof fn lemma_trim_left_all(l: Seq<char>)
    requires
        forall|j: int| 0 <= j < l.len() ==> is_space(#[trigger] l[j]),
    ensures
        trim_left(l).len() == 0,
    decreases l.len(),
{
    if l.len() > 0 {
        lemma_trim_left_all(l.skip(1));
    }
}

/// What the right-end scan finds is the right-trimmed line.
proof fn lemma_trim_right_scan(l: Seq<char>, b: int)
    requires
        0 <= b <= l.len(),
        forall|j: int| b <= j < l.len() ==> is_space(#[trigger] l[j]),
        b == 0 || !is_space(l[b - 1]),
    ensures
        trim_right(l) == l.subrange(0, b),
    decreases l.len(),
{
    if b < l.len() {
        assert(is_space(l.last()));
        lemma_trim_right_scan(l.drop_last(), b);
        assert(l.drop_last().subrange(0, b) =~= l.subrange(0, b));
    } else if l.len() > 0 {
        assert(!is_space(l.last()));
        assert(l.subrange(0, b) =~= l);
    } else {
        assert(l.subrange(0, 0) =~= l);
    }
}

/// A package is installed under a set of known names when its bare name is
/// known or `name-output` is known for one of its declared build outputs.
pub open spec fn installed_in(known: Seq<Seq<char>>, pi: NixEnvPkg) -> bool {
    known.contains(pi.pkg@) || exists|i: int|
        0 <= i < pi.meta.outputs@.len()
            && known.contains(pi.pkg@ + seq!['-'] + #[trigger] pi.meta.outputs@[i]@)
}

/// Set of canonical package names extracted from store listings.
#[derive(Debug)]
pub struct StoreContents {
    known: Vec<String>,
}

impl View for StoreContents {
    type V = Seq<Seq<char>>;

    /// The view is the list of known names.
    closed spec fn view(&self) -> Seq<Seq<char>> {
        str_views(self.known@)
    }
}

impl StoreContents {
    /// An index that knows no names.
    pub fn new() -> (r: Self)
        ensures
            r@ == Seq::<Seq<char>>::empty(),
    {
        let r = StoreContents { known: Vec::new() };
        proof {
            assert(r@ =~= Seq::<Seq<char>>::empty());
        }
        r
    }

    /// Adds every name of the given raw listing. With `strip` set, known
    /// output-name suffixes are removed before indexing.
    pub fn add_listing(&mut self, listing: &str, strip: bool)
        ensures
            final(self)@ == old(self)@ + derivations_of(listing@, strip),
    {
        extract_derivations_into(listing, strip, &mut self.known);
    }

    /// Is the given name known?
    pub fn contains_name(&self, name: &str) -> (r: bool)
        ensures
            r == self@.contains(name@),
    {
        let mut i: usize = 0;
        while i < self.known.len()
            invariant
                0 <= i <= self.known@.len(),
                forall|j: int| 0 <= j < i ==> str_views(self.known@)[j] != name@,
            decreases self.known@.len() - i,
        {
            if str_eq(self.known[i].as_str(), name) {
                proof {
                    assert(self@[i as int] == name@);
                }
                return true;
            }
            i = i + 1;
        }
        proof {
            if self@.contains(name@) {
                let w = choose|j: int| 0 <= j < self@.len() && self@[j] == name@;
                assert(str_views(self.known@)[w] != name@);
            }
        }
        false
    }

    /// Is the package installed? It is when its bare name is known, or
    /// when `name-output` is known for one of its declared build outputs.
    #[verifier::loop_isolation(false)]
    pub fn is_installed(&self, pi: &NixEnvPkg) -> (r: bool)
        ensures
            r == installed_in(self@, *pi),
    {
        if self.contains_name(pi.pkg.as_str()) {
            return true;
        }
        proof {
            reveal_strlit("-");
        }
        let mut i: usize = 0;
        while i < pi.meta.outputs.len()
            invariant
                0 <= i <= pi.meta.outputs@.len(),
                forall|j: int| 0 <= j < i
                    ==> !self@.contains(pi.pkg@ + seq!['-'] + #[trigger] pi.meta.outputs@[j]@),
            decreases pi.meta.outputs@.len() - i,
        {
            let mut qualified = pi.pkg.clone();
            qualified.append("-");
            qualified.append(pi.meta.outputs[i].as_str());
            proof {
                assert(qualified@ =~= pi.pkg@ + seq!['-'] + pi.meta.outputs@[i as int]@);
            }
            if self.contains_name(qualified.as_str()) {
                return true;
            }
            i = i + 1;
        }
        false
    }
}

} // verus!
