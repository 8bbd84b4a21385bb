//! Issue statistics.
//!
//! Counts, over a list of tracker issues, how many belong to each
//! vulnerability roundup and how many unresolved advisories their bodies
//! still list. An unresolved advisory is an unchecked task-list entry
//! linking a CVE; a roundup issue is recognized by its headline.

use vstd::prelude::*;
use vstd::string::StrSliceExecFns;
use crate::text::is_digit;
use crate::text::check_digit;
use crate::text::digits_val;
use crate::text::digits_to_u64;

verus! {

/// Individual issue as returned by the tracker's issue search.
#[derive(Debug, Clone)]
pub struct Issue {
    pub id: u64,
    pub url: String,
    pub html_url: String,
    pub number: u64,
    pub title: String,
    pub body: String,
}

/// Issue and open-advisory counts, for one roundup or in total.
#[derive(Debug, PartialEq, Eq)]
pub struct IssueCount {
    pub issues: u64,
    pub open_cves: u64,
}

/// Counts of open issues and advisories, grouped by roundup iteration.
#[derive(Debug)]
pub struct Counts {
    /// One entry per roundup iteration found, in first-encounter order.
    pub by_roundup: Vec<(u64, IssueCount)>,
    pub total: IssueCount,
}

/// The end of the digit run starting at `i`.
pub open spec fn digits_end(s: Seq<char>, i: int) -> int
    decreases s.len() - i,
{
    if !(0 <= i < s.len()) {
        i
    } else if is_digit(s[i]) {
        digits_end(s, i + 1)
    } else {
        i
    }
}

/// The digit run ends at or after its start, within the string, and
/// consists of digits.
pub proof fn lemma_digits_end(s: Seq<char>, i: int)
    requires
        0 <= i <= s.len(),
    ensures
        i <= digits_end(s, i) <= s.len(),
        forall|j: int| i <= j < digits_end(s, i) ==> is_digit(#[trigger] s[j]),
        digits_end(s, i) == s.len() || !is_digit(s[digits_end(s, i)]),
    decreases s.len() - i,
{
    if i < s.len() && is_digit(s[i]) {
        lemma_digits_end(s, i + 1);
    }
}

/// The opening of an unresolved advisory entry.
pub open spec fn cve_mark() -> Seq<char> {
    "[ ] [CVE-"@
}

/// The end of an unresolved advisory entry starting at `i`, if one starts
/// there: the mark, digits, a dash, digits, and a closing bracket.
pub open spec fn cve_ext(s: Seq<char>, i: int) -> Option<int> {
    if 0 <= i && i + 9 <= s.len() && s.subrange(i, i + 9) == cve_mark() {
        let d1 = digits_end(s, i + 9);
        if d1 > i + 9 && d1 < s.len() && s[d1] == '-' {
            let d2 = digits_end(s, d1 + 1);
            if d2 > d1 + 1 && d2 < s.len() && s[d2] == ']' {
                Some(d2 + 1)
            } else {
                None
            }
        } else {
            None
        }
    } else {
        None
    }
}

/// Number of unresolved advisory entries at or after `i`, counted left to
/// right without overlap.
pub open spec fn cve_count_from(s: Seq<char>, i: int) -> nat
    decreases s.len() - i,
    via cve_count_from_dec
{
    if !(0 <= i < s.len()) {
        0
    } else {
        match cve_ext(s, i) {
            Some(e) => 1 + cve_count_from(s, e),
            None => cve_count_from(s, i + 1),
        }
    }
}

#[via_fn]
proof fn cve_count_from_dec(s: Seq<char>, i: int) {
    if 0 <= i < s.len() {
        match cve_ext(s, i) {
            Some(e) => {
                lemma_digits_end(s, i + 9);
                lemma_digits_end(s, digits_end(s, i + 9) + 1);
            }
            None => {}
        }
    }
}

/// The count is bounded by the remaining length.
proof fn lemma_cve_count_bound(s: Seq<char>, i: int)
    ensures
        cve_count_from(s, i) <= s.len() - i || cve_count_from(s, i) == 0,
    decreases s.len() - i,
{
    if 0 <= i < s.len() {
        match cve_ext(s, i) {
            Some(e) => {
                lemma_digits_end(s, i + 9);
                lemma_digits_end(s, digits_end(s, i + 9) + 1);
                lemma_cve_count_bound(s, e);
            }
            None => {
                lemma_cve_count_bound(s, i + 1);
            }
        }
    }
}

/// Checks for an unresolved advisory entry starting at `pos`, and returns
/// the position just past it.
#[verifier::loop_isolation(false)]
fn cve_ext_at(s: &str, pos: usize, n: usize) -> (r: Option<usize>)
    requires
        n == s@.len(),
        pos < n,
    ensures
        match r {
            Some(e) => cve_ext(s@, pos as int) == Some(e as int) && pos < e <= n,
            None => cve_ext(s@, pos as int) is None,
        },
{
    if n < 9 || pos > n - 9 {
        return None;
    }
    proof {
        reveal_strlit("[ ] [CVE-");
    }
    let m = s.get_char(pos) == '[' && s.get_char(pos + 1) == ' ' && s.get_char(pos + 2) == ']'
        && s.get_char(pos + 3) == ' ' && s.get_char(pos + 4) == '[' && s.get_char(pos + 5) == 'C'
        && s.get_char(pos + 6) == 'V' && s.get_char(pos + 7) == 'E' && s.get_char(pos + 8) == '-';
    proof {
        reveal_strlit("[ ] [CVE-");
        if m {
            assert(s@.subrange(pos as int, pos + 9) =~= cve_mark());
        } else {
            if s@.subrange(pos as int, pos + 9) == cve_mark() {
                let sub = s@.subrange(pos as int, pos + 9);
                assert(sub[0] == s@[pos as int] && sub[0] == cve_mark()[0]);
                assert(sub[1] == s@[pos + 1] && sub[1] == cve_mark()[1]);
                assert(sub[2] == s@[pos + 2] && sub[2] == cve_mark()[2]);
                assert(sub[3] == s@[pos + 3] && sub[3] == cve_mark()[3]);
                assert(sub[4] == s@[pos + 4] && sub[4] == cve_mark()[4]);
                assert(sub[5] == s@[pos + 5] && sub[5] == cve_mark()[5]);
                assert(sub[6] == s@[pos + 6] && sub[6] == cve_mark()[6]);
                assert(sub[7] == s@[pos + 7] && sub[7] == cve_mark()[7]);
                assert(sub[8] == s@[pos + 8] && sub[8] == cve_mark()[8]);
                assert(false);
            }
        }
    }
    if !m {
        return None;
    }
    let mut d1: usize = pos + 9;
    while d1 < n
        invariant
            pos + 9 <= d1 <= n,
            forall|j: int| pos + 9 <= j < d1 ==> is_digit(#[trigger] s@[j]),
        decreases n - d1,
    {
        if !check_digit(s.get_char(d1)) {
            break;
        }
        d1 = d1 + 1;
    }
    proof {
        lemma_scan_is_digits_end(s@, pos + 9, d1 as int);
    }
    if !(d1 > pos + 9 && d1 < n) {
        return None;
    }
    if s.get_char(d1) != '-' {
        return None;
    }
    let mut d2: usize = d1 + 1;
    while d2 < n
        invariant
            d1 + 1 <= d2 <= n,
            forall|j: int| d1 + 1 <= j < d2 ==> is_digit(#[trigger] s@[j]),
        decreases n - d2,
    {
        if !check_digit(s.get_char(d2)) {
            break;
        }
        d2 = d2 + 1;
    }
    proof {
        lemma_scan_is_digits_end(s@, d1 + 1, d2 as int);
    }
    if !(d2 > d1 + 1 && d2 < n) {
        return None;
    }
    if s.get_char(d2) != ']' {
        return None;
    }
    Some(d2 + 1)
}

/// A scan that stops at the first non-digit finds the end of the digit
/// run.
proof fn lemma_scan_is_digits_end(s: Seq<char>, i: int, k: int)
    requires
        0 <= i <= k <= s.len(),
        forall|j: int| i <= j < k ==> is_digit(#[trigger] s[j]),
        k == s.len() || !is_digit(s[k]),
    ensures
        digits_end(s, i) == k,
    decreases k - i,
{
    if i < k {
        lemma_scan_is_digits_end(s, i + 1, k);
    }
}

/// Counts the unresolved advisory entries of an issue body.
#[verifier::loop_isolation(false)]
pub fn count_cves(body: &str) -> (r: usize)
    ensures
        r == cve_count_from(body@, 0),
{
    let n = body.unicode_len();
    let mut acc: usize = 0;
    let mut i: usize = 0;
    proof {
        lemma_cve_count_bound(body@, 0);
    }
    while i < n
        invariant
            0 <= i,
            n == body@.len(),
            acc + cve_count_from(body@, i as int) == cve_count_from(body@, 0),
            acc <= n,
        decreases n - i,
    {
        match cve_ext_at(body, i, n) {
            Some(e) => {
                proof {
                    lemma_cve_count_bound(body@, e as int);
                }
                acc = acc + 1;
                i = e;
            }
            None => {
                i = i + 1;
            }
        }
    }
    proof {
        assert(cve_count_from(body@, i as int) == 0);
    }
    acc
}

/// The roundup headline mark.
pub open spec fn roundup_mark() -> Seq<char> {
    "Vulnerability roundup "@
}

/// Does a roundup headline start at `i`: the mark, digits, and a colon?
pub open spec fn roundup_at(s: Seq<char>, i: int) -> bool {
    &&& 0 <= i
    &&& i + 22 <= s.len()
    &&& s.subrange(i, i + 22) == roundup_mark()
    &&& {
        let d = digits_end(s, i + 22);
        d > i + 22 && d < s.len() && s[d] == ':'
    }
}

/// The iteration number of the first roundup headline of the title, if
/// the title has one and the number fits the machine.
pub open spec fn title_key(s: Seq<char>) -> Option<nat>
    decreases s.len(),
{
    title_key_from(s, 0)
}

/// The iteration number of the first roundup headline at or after `i`.
pub open spec fn title_key_from(s: Seq<char>, i: int) -> Option<nat>
    decreases s.len() - i,
{
    if !(0 <= i < s.len()) {
        None
    } else if roundup_at(s, i) {
        let v = digits_val(s.subrange(i + 22, digits_end(s, i + 22)));
        if v <= usize::MAX {
            Some(v)
        } else {
            None
        }
    } else {
        title_key_from(s, i + 1)
    }
}

/// Extracts the iteration number from an issue title.
#[verifier::loop_isolation(false)]
pub fn parse_title_key(title: &str) -> (r: Option<usize>)
    ensures
        match r {
            Some(v) => title_key(title@) == Some(v as nat),
            None => title_key(title@) is None,
        },
{
    let n = title.unicode_len();
    let mut i: usize = 0;
    proof {
        assert(title_key(title@) == title_key_from(title@, 0));
    }
    while i < n
        invariant
            0 <= i,
            n == title@.len(),
            title_key(title@) == title_key_from(title@, i as int),
        decreases n - i,
    {
        let hit = if n >= 22 && i <= n - 22 {
            proof {
                reveal_strlit("Vulnerability roundup ");
            }
            let mut q: usize = 0;
            let mut ok = true;
            while q < 22
                invariant
                    0 <= q <= 22,
                    i + 22 <= n,
                    n == title@.len(),
                    ok == (forall|j: int| 0 <= j < q
                        ==> #[trigger] title@[i + j] == roundup_mark()[j]),
                decreases 22 - q,
            {
                proof {
                    reveal_strlit("Vulnerability roundup ");
                }
                let c = title.get_char(i + q);
                let mc = "Vulnerability roundup ".get_char(q);
                if c != mc {
                    ok = false;
                }
                q = q + 1;
            }
            proof {
                reveal_strlit("Vulnerability roundup ");
                if ok {
                    assert forall|j: int| 0 <= j < 22
                        implies #[trigger] title@.subrange(i as int, i + 22)[j]
                            == roundup_mark()[j] by {
                        assert(title@.subrange(i as int, i + 22)[j] == title@[i + j]);
                        assert(title@[i + j] == roundup_mark()[j]);
                    }
                    assert(title@.subrange(i as int, i + 22) =~= roundup_mark());
                } else {
                    if title@.subrange(i as int, i + 22) == roundup_mark() {
                        assert(forall|j: int| 0 <= j < 22
                            ==> #[trigger] title@.subrange(i as int, i + 22)[j]
                                == title@[i + j]);
                        assert(forall|j: int| 0 <= j < 22
                            ==> #[trigger] title@[i + j] == roundup_mark()[j]);
                        assert(false);
                    }
                }
            }
            ok
        } else {
            false
        };
        if hit {
            let mut d: usize = i + 22;
            while d < n
                invariant
                    i + 22 <= d <= n,
                    n == title@.len(),
                    forall|j: int| i + 22 <= j < d ==> is_digit(#[trigger] title@[j]),
                decreases n - d,
            {
                if !check_digit(title.get_char(d)) {
                    break;
                }
                d = d + 1;
            }
            proof {
                lemma_scan_is_digits_end(title@, i + 22, d as int);
            }
            if d > i + 22 && d < n && title.get_char(d) == ':' {
                proof {
                    assert(roundup_at(title@, i as int));
                }
                let v = digits_to_u64(title, i + 22, d);
                match v {
                    Some(value) => {
                        if value <= usize::MAX as u64 {
                            return Some(value as usize);
                        } else {
                            return None;
                        }
                    }
                    None => {
                        return None;
                    }
                }
            }
            proof {
                assert(!roundup_at(title@, i as int));
            }
        } else {
            proof {
                if roundup_at(title@, i as int) {
                    assert(i + 22 <= n);
                }
            }
        }
        i = i + 1;
    }
    proof {
        assert(title_key_from(title@, i as int) is None);
    }
    None
}

/// Number of issues among `s` whose first roundup headline carries the
/// iteration `k`.
pub open spec fn num_issues(s: Seq<Issue>, k: nat) -> nat
    decreases s.len(),
{
    if s.len() == 0 {
        0
    } else {
        num_issues(s.drop_last(), k) + (if title_key(s.last().title@) == Some(k) {
            1nat
        } else {
            0nat
        })
    }
}

/// Number of unresolved advisories in the bodies of the issues of
/// iteration `k`.
pub open spec fn num_cves(s: Seq<Issue>, k: nat) -> nat
    decreases s.len(),
{
    if s.len() == 0 {
        0
    } else {
        num_cves(s.drop_last(), k) + (if title_key(s.last().title@) == Some(k) {
            cve_count_from(s.last().body@, 0)
        } else {
            0nat
        })
    }
}

/// A count capped at what a 64-bit counter can hold.
pub open spec fn cap64(n: nat) -> u64 {
    if n <= u64::MAX {
        n as u64
    } else {
        u64::MAX
    }
}

/// Adds a count to a capped counter, keeping it capped.
fn cap_add(a: u64, b: u64, Ghost(an): Ghost<nat>, Ghost(bn): Ghost<nat>) -> (r: u64)
    requires
        a == cap64(an),
        b == cap64(bn),
    ensures
        r == cap64(an + bn),
{
    if a > u64::MAX - b {
        u64::MAX
    } else {
        a + b
    }
}

/// Counts the open roundup issues and their unresolved advisories: one
/// entry per iteration found in the titles, in first-encounter order, and
/// the totals over all entries.
#[verifier::loop_isolation(false)]
#[verifier::rlimit(60)]
pub fn count(issues: &Vec<Issue>) -> (r: Counts)
    ensures
        forall|e: int| 0 <= e < r.by_roundup@.len() ==> {
            let (k, c) = #[trigger] r.by_roundup@[e];
            c.issues == cap64(num_issues(issues@, k as nat))
                && c.open_cves == cap64(num_cves(issues@, k as nat))
                && num_issues(issues@, k as nat) > 0
        },
        forall|e: int, f: int| 0 <= e < f < r.by_roundup@.len()
            ==> (#[trigger] r.by_roundup@[e]).0 != (#[trigger] r.by_roundup@[f]).0,
        forall|i: int| 0 <= i < issues@.len()
            ==> (match title_key((#[trigger] issues@[i]).title@) {
                Some(k) => k <= usize::MAX && exists|e: int|
                    0 <= e < r.by_roundup@.len() && (#[trigger] r.by_roundup@[e]).0 == k,
                None => true,
            }),
        r.total.issues == cap64(total_issues(issues@)),
        r.total.open_cves == cap64(total_cves(issues@)),
{
    let n = issues.len();
    let mut by: Vec<(u64, IssueCount)> = Vec::new();
    let mut i: usize = 0;
    while i < n
        invariant
            0 <= i <= n,
            n == issues@.len(),
            forall|e: int| 0 <= e < by@.len() ==> {
                let (k, c) = #[trigger] by@[e];
                c.issues == cap64(num_issues(issues@.subrange(0, i as int), k as nat))
                    && c.open_cves == cap64(num_cves(issues@.subrange(0, i as int), k as nat))
                    && num_issues(issues@.subrange(0, i as int), k as nat) > 0
                    && k <= usize::MAX
            },
            forall|e: int, f: int| 0 <= e < f < by@.len()
                ==> (#[trigger] by@[e]).0 != (#[trigger] by@[f]).0,
            forall|m: int| 0 <= m < i
                ==> (match title_key((#[trigger] issues@[m]).title@) {
                    Some(k) => k <= usize::MAX && exists|e: int|
                        0 <= e < by@.len() && (#[trigger] by@[e]).0 == k,
                    None => true,
                }),
        decreases n - i,
    {
        proof {
            assert(issues@.subrange(0, i + 1).drop_last() =~= issues@.subrange(0, i as int));
            assert(issues@.subrange(0, i + 1).last() == issues@[i as int]);
        }
        let key = parse_title_key(issues[i].title.as_str());
        match key {
            Some(k) => {
                let cves = count_cves(issues[i].body.as_str());
                let ghost cvn = cve_count_from(issues@[i as int].body@, 0);
                let mut e: usize = 0;
                let en = by.len();
                while e < en
                    invariant
                        0 <= e <= en,
                        en == by@.len(),
                        forall|f: int| 0 <= f < e ==> (#[trigger] by@[f]).0 != k as u64,
                    decreases en - e,
                {
                    if by[e].0 == k as u64 {
                        break;
                    }
                    e = e + 1;
                }
                if e < en {
                    let ghost oldby = by@;
                    let (bk, c) = by.remove(e);
                    let ghost ghost_k = k as nat;
                    let issues2 = cap_add(c.issues, 1, Ghost(num_issues(issues@.subrange(0, i as int), ghost_k)), Ghost(1nat));
                    let cves2 = cap_add(c.open_cves, cves as u64, Ghost(num_cves(issues@.subrange(0, i as int), ghost_k)), Ghost(cvn));
                    proof {
                        lemma_cve_count_bound(issues@[i as int].body@, 0);
                        assert(cves as u64 == cap64(cvn));
                    }
                    by.insert(e, (bk, IssueCount { issues: issues2, open_cves: cves2 }));
                    proof {
                        assert(forall|f: int| 0 <= f < e ==> #[trigger] by@[f] == oldby[f]);
                        assert(forall|f: int| e < f < by@.len() ==> #[trigger] by@[f] == oldby[f]);
                        assert(by@[e as int].0 == oldby[e as int].0);
                        assert(by@.len() == oldby.len());
                        assert forall|f: int| 0 <= f < by@.len() implies {
                            let (k2, c2) = #[trigger] by@[f];
                            c2.issues == cap64(num_issues(issues@.subrange(0, i + 1), k2 as nat))
                                && c2.open_cves == cap64(num_cves(issues@.subrange(0, i + 1), k2 as nat))
                                && num_issues(issues@.subrange(0, i + 1), k2 as nat) > 0
                                && k2 <= usize::MAX
                        } by {
                            if f != e {
                                assert(by@[f] == oldby[f]);
                                assert(by@[f].0 != k as u64);
                            }
                        }
                        assert forall|m: int| 0 <= m < i + 1 implies (match title_key(
                            (#[trigger] issues@[m]).title@,
                        ) {
                            Some(k2) => k2 <= usize::MAX && exists|f: int|
                                0 <= f < by@.len() && (#[trigger] by@[f]).0 == k2,
                            None => true,
                        }) by {
                            if m == i {
                                assert(by@[e as int].0 == k as u64);
                            } else {
                                match title_key(issues@[m].title@) {
                                    Some(k2) => {
                                        let w = choose|f: int| 0 <= f < oldby.len()
                                            && (#[trigger] oldby[f]).0 == k2;
                                        assert(by@[w].0 == k2);
                                    }
                                    None => {}
                                }
                            }
                        }
                    }
                } else {
                    let ghost oldby = by@;
                    proof {
                        if num_issues(issues@.subrange(0, i as int), k as nat) > 0 {
                            lemma_num_pos(issues@.subrange(0, i as int), k as nat);
                            let m = choose|m: int| 0 <= m < i && title_key(
                                (#[trigger] issues@.subrange(0, i as int)[m]).title@,
                            ) == Some(k as nat);
                            assert(issues@.subrange(0, i as int)[m] == issues@[m]);
                            let w = choose|f: int| 0 <= f < oldby.len()
                                && (#[trigger] oldby[f]).0 == k as nat;
                            assert(false);
                        }
                        if num_cves(issues@.subrange(0, i as int), k as nat) > 0 {
                            lemma_cves_pos(issues@.subrange(0, i as int), k as nat);
                        }
                        lemma_cve_count_bound(issues@[i as int].body@, 0);
                    }
                    by.push((k as u64, IssueCount { issues: 1, open_cves: cves as u64 }));
                    proof {
                        assert(forall|f: int| 0 <= f < oldby.len()
                            ==> #[trigger] by@[f] == oldby[f]);
                        assert(by@.last().0 == k as u64);
                        assert forall|m: int| 0 <= m < i + 1 implies (match title_key(
                            (#[trigger] issues@[m]).title@,
                        ) {
                            Some(k2) => k2 <= usize::MAX && exists|f: int|
                                0 <= f < by@.len() && (#[trigger] by@[f]).0 == k2,
                            None => true,
                        }) by {
                            if m == i {
                                assert(by@[by@.len() - 1].0 == k as u64);
                            } else {
                                match title_key(issues@[m].title@) {
                                    Some(k2) => {
                                        let w = choose|f: int| 0 <= f < oldby.len()
                                            && (#[trigger] oldby[f]).0 == k2;
                                        assert(by@[w].0 == k2);
                                    }
                                    None => {}
                                }
                            }
                        }
                    }
                }
            }
            None => {
                proof {
                    assert forall|e: int| 0 <= e < by@.len() implies {
                        let (k2, c2) = #[trigger] by@[e];
                        c2.issues == cap64(num_issues(issues@.subrange(0, i + 1), k2 as nat))
                            && c2.open_cves == cap64(num_cves(issues@.subrange(0, i + 1), k2 as nat))
                            && num_issues(issues@.subrange(0, i + 1), k2 as nat) > 0
                            && k2 <= usize::MAX
                    } by {
                    }
                }
            }
        }
        i = i + 1;
    }
    proof {
        assert(issues@.subrange(0, i as int) =~= issues@);
    }
    // totals over all issues that name a roundup
    let mut ti: u64 = 0;
    let mut tc: u64 = 0;
    let mut m: usize = 0;
    proof {
        assert(issues@.subrange(0, 0) =~= Seq::<Issue>::empty());
    }
    while m < n
        invariant
            0 <= m <= n,
            n == issues@.len(),
            ti == cap64(total_issues(issues@.subrange(0, m as int))),
            tc == cap64(total_cves(issues@.subrange(0, m as int))),
        decreases n - m,
    {
        proof {
            assert(issues@.subrange(0, m + 1).drop_last() =~= issues@.subrange(0, m as int));
            assert(issues@.subrange(0, m + 1).last() == issues@[m as int]);
        }
        match parse_title_key(issues[m].title.as_str()) {
            Some(_) => {
                let cves = count_cves(issues[m].body.as_str());
                proof {
                    lemma_cve_count_bound(issues@[m as int].body@, 0);
                }
                ti = cap_add(ti, 1, Ghost(total_issues(issues@.subrange(0, m as int))), Ghost(1nat));
                tc = cap_add(
                    tc,
                    cves as u64,
                    Ghost(total_cves(issues@.subrange(0, m as int))),
                    Ghost(cve_count_from(issues@[m as int].body@, 0)),
                );
            }
            None => {}
        }
        m = m + 1;
    }
    proof {
        assert(issues@.subrange(0, m as int) =~= issues@);
    }
    Counts { by_roundup: by, total: IssueCount { issues: ti, open_cves: tc } }
}

/// An iteration with issues/// An iteration with issues in the list has a witness among them.
proof fn lemma_num_pos(s: Seq<Issue>, k: nat)
    requires
        num_issues(s, k) > 0,
    ensures
        exists|m: int| 0 <= m < s.len() && title_key((#[trigger] s[m]).title@) == Some(k),
    decreases s.len(),
{
    if s.len() > 0 {
        if title_key(s.last().title@) == Some(k) {
            assert(title_key(s[s.len() - 1].title@) == Some(k));
        } else {
            lemma_num_pos(s.drop_last(), k);
            let m = choose|m: int| 0 <= m < s.len() - 1
                && title_key((#[trigger] s.drop_last()[m]).title@) == Some(k);
            assert(s.drop_last()[m] == s[m]);
        }
    }
}

/// An iteration with advisories in the list has issues there too.
proof fn lemma_cves_pos(s: Seq<Issue>, k: nat)
    requires
        num_cves(s, k) > 0,
    ensures
        num_issues(s, k) > 0,
    decreases s.len(),
{
    if s.len() > 0 {
        if title_key(s.last().title@) == Some(k) {
        } else {
            lemma_cves_pos(s.drop_last(), k);
        }
    }
}

/// Number of issues whose title names some roundup.
pub open spec fn total_issues(s: Seq<Issue>) -> nat
    decreases s.len(),
{
    if s.len() == 0 {
        0
    } else {
        total_issues(s.drop_last()) + (if title_key(s.last().title@) is Some {
            1nat
        } else {
            0nat
        })
    }
}

/// Number of unresolved advisories over all roundup issues.
pub open spec fn total_cves(s: Seq<Issue>) -> nat
    decreases s.len(),
{
    if s.len() == 0 {
        0
    } else {
        total_cves(s.drop_last()) + (if title_key(s.last().title@) is Some {
            cve_count_from(s.last().body@, 0)
        } else {
            0nat
        })
    }
}

} // verus!
