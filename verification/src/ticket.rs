//! Tickets.
//!
//! A ticket is the consolidated report for one package across all scanned
//! branches of one run: every advisory that affects the package, each with
//! the branches on which it was found, its severity score and description,
//! and the package's maintainers. Consolidation merges the per-branch scan
//! results deterministically: advisories are listed once with the union of
//! their branches, scores and descriptions are taken from the merged maps,
//! and the resulting tickets are sorted by package.

use vstd::prelude::*;
use vstd::string::StrSliceExecFns;
use vstd::string::StringExecFns;
use crate::advisory::Advisory;
use crate::advisory::adv_lt;
use crate::advisory::adv_rep;
use crate::branches::Branch;
use crate::branches::br_key;
use crate::branches::branch_cmp;
use crate::package::Package;
use crate::package::pname_of;
use crate::scan::VulnixRes;
use crate::scan::ScoreMap;
use crate::scan::DescMap;
use crate::source::Maintainer;
use crate::source::MaintView;
use crate::source::contacts_of_seq;
use crate::source::m_view;
use crate::source::m_views;
use crate::source::str_views;
use crate::source::lemma_str_views;
use crate::source::mv_sort;
use crate::source::mv_dedup;
use crate::text::dec_rep;
use crate::text::lex_lt;
use crate::text::u64_to_dec;
use core::cmp::Ordering;

verus! {

/// Scan results arranged by branch, ready for consolidation.
pub type ScanByBranch = Vec<(Branch, Vec<VulnixRes>)>;

/// Per-advisory aggregate inside a ticket: the branches on which the
/// advisory was reported, its severity score in tenths, and its
/// description.
#[derive(Debug, PartialEq)]
pub struct Detail {
    pub branches: Vec<Branch>,
    pub score: Option<u32>,
    pub description: Option<String>,
}

/// Consolidated report for one package.
#[derive(Debug, PartialEq)]
pub struct Ticket {
    pub iteration: u32,
    pub pkg: Package,
    pub affected: Vec<(Advisory, Detail)>,
    pub maintainers: Vec<Maintainer>,
}

impl Detail {
    /// An aggregate with the given score and description and no branches.
    pub fn new(score: Option<u32>, description: Option<String>) -> (r: Self)
        ensures
            r.branches@.len() == 0,
            r.score == score,
            r.description == description,
    {
        Detail { branches: Vec::new(), score, description }
    }
}

impl Ticket {
    /// A ticket for the given package with nothing reported yet.
    pub fn new(iteration: u32, pkg: Package) -> (r: Self)
        ensures
            r.iteration == iteration,
            r.pkg == pkg,
            r.affected@.len() == 0,
            r.maintainers@.len() == 0,
    {
        Ticket { iteration, pkg, affected: Vec::new(), maintainers: Vec::new() }
    }

    /// The package's full `name-version` string.
    pub fn name(&self) -> (r: &str)
        ensures
            r@ == self.pkg@,
    {
        self.pkg.as_str()
    }

    /// The package's name without its version.
    pub fn pname(&self) -> (r: &str)
        ensures
            r@ == pname_of(self.pkg@),
    {
        self.pkg.pname()
    }

    /// The highest severity score of any advisory in the ticket.
    pub fn max_score(&self) -> (r: Option<u32>)
        ensures
            r == max_score_of(self.affected@),
    {
        let mut best: Option<u32> = None;
        let mut i: usize = 0;
        proof {
            assert(self.affected@.subrange(0, 0) =~= Seq::<(Advisory, Detail)>::empty());
        }
        while i < self.affected.len()
            invariant
                0 <= i <= self.affected@.len(),
                best == max_score_of(self.affected@.subrange(0, i as int)),
            decreases self.affected@.len() - i,
        {
            proof {
                assert(self.affected@.subrange(0, i + 1).drop_last()
                    =~= self.affected@.subrange(0, i as int));
                assert(self.affected@.subrange(0, i + 1).last() == self.affected@[i as int]);
            }
            match self.affected[i].1.score {
                Some(t) => {
                    best = match best {
                        Some(m) => if t >= m {
                            Some(t)
                        } else {
                            Some(m)
                        },
                        None => Some(t),
                    };
                }
                None => {}
            }
            i = i + 1;
        }
        proof {
            assert(self.affected@.subrange(0, i as int) =~= self.affected@);
        }
        best
    }

    /// The ticket headline: the iteration, the package, the number of
    /// advisories and, if any advisory is scored, the highest score.
    pub fn summary(&self) -> (r: String)
        ensures
            r@ == summary_rep(*self),
    {
        proof {
            reveal_strlit("Vulnerability roundup ");
            reveal_strlit(": ");
            reveal_strlit(" ");
            reveal_strlit("advisory");
            reveal_strlit("advisories");
            reveal_strlit(" [");
            reveal_strlit("]");
        }
        let mut s = String::new();
        s.append("Vulnerability roundup ");
        let iter_str = u64_to_dec(self.iteration as u64);
        s.append(iter_str.as_str());
        s.append(": ");
        s.append(self.pkg.as_str());
        s.append(": ");
        let num = self.affected.len();
        let num_str = u64_to_dec(num as u64);
        s.append(num_str.as_str());
        s.append(" ");
        if num == 1 {
            s.append("advisory");
        } else {
            s.append("advisories");
        }
        match self.max_score() {
            Some(m) => {
                s.append(" [");
                let sc = score_str(m);
                s.append(sc.as_str());
                s.append("]");
            }
            None => {}
        }
        proof {
            assert(s@ =~= summary_rep(*self));
        }
        s
    }
}

/// The highest score among the given entries, if any is scored.
pub open spec fn max_score_of(es: Seq<(Advisory, Detail)>) -> Option<u32>
    decreases es.len(),
{
    if es.len() == 0 {
        None
    } else {
        let rest = max_score_of(es.drop_last());
        match (es.last().1.score, rest) {
            (None, r) => r,
            (Some(t), None) => Some(t),
            (Some(t), Some(m)) => if t >= m {
                Some(t)
            } else {
                Some(m)
            },
        }
    }
}

/// Rendered form of a score in tenths: one decimal digit after the point.
pub open spec fn score_rep(t: u32) -> Seq<char> {
    dec_rep((t / 10) as nat) + seq!['.'] + dec_rep((t % 10) as nat)
}

/// Renders a score in tenths.
pub fn score_str(t: u32) -> (r: String)
    ensures
        r@ == score_rep(t),
{
    proof {
        reveal_strlit(".");
    }
    let mut s = u64_to_dec((t / 10) as u64);
    s.append(".");
    let frac = u64_to_dec((t % 10) as u64);
    s.append(frac.as_str());
    proof {
        assert(s@ =~= score_rep(t));
    }
    s
}

/// Rendered form of the ticket headline.
pub open spec fn summary_rep(t: Ticket) -> Seq<char> {
    "Vulnerability roundup "@ + dec_rep(t.iteration as nat) + ": "@ + t.pkg@ + ": "@
        + dec_rep(t.affected@.len() as nat) + " "@
        + (if t.affected@.len() == 1 { "advisory"@ } else { "advisories"@ })
        + (match max_score_of(t.affected@) {
            Some(m) => " ["@ + score_rep(m) + "]"@,
            None => Seq::<char>::empty(),
        })
}

/// Severity rank of an optional score: unscored ranks below every score.
pub open spec fn score_rank(s: Option<u32>) -> int {
    match s {
        Some(t) => t as int,
        None => -1,
    }
}

/// Strict order in which advisories are listed in a rendered ticket:
/// higher scores first, unscored entries after all scored ones, ties
/// broken by ascending advisory.
pub open spec fn entry_lt(a: (Advisory, Detail), b: (Advisory, Detail)) -> bool {
    score_rank(a.1.score) > score_rank(b.1.score)
    || (score_rank(a.1.score) == score_rank(b.1.score) && adv_lt(a.0, b.0))
}

/// Non-strict form of the listing order: equal score and advisory count as
/// equivalent.
pub open spec fn entry_le(a: (Advisory, Detail), b: (Advisory, Detail)) -> bool {
    entry_lt(a, b) || (score_rank(a.1.score) == score_rank(b.1.score) && a.0 == b.0)
}

/// Compares two advisory entries in the listing order.
pub fn cmp_score(a: &(Advisory, Detail), b: &(Advisory, Detail)) -> (o: Ordering)
    ensures
        (o == Ordering::Less) == entry_lt(*a, *b),
        (o == Ordering::Greater) == entry_lt(*b, *a),
        (o == Ordering::Equal) == (score_rank(a.1.score) == score_rank(b.1.score)
            && a.0 == b.0),
{
    let ra: i64 = match a.1.score {
        Some(t) => t as i64,
        None => -1,
    };
    let rb: i64 = match b.1.score {
        Some(t) => t as i64,
        None => -1,
    };
    if ra > rb {
        Ordering::Less
    } else if ra < rb {
        Ordering::Greater
    } else {
        a.0.cmp_num(&b.0)
    }
}

/// The given results, each paired with the given branch.
pub open spec fn partial_branch(b: Branch, rs: Seq<VulnixRes>) -> Seq<(Branch, VulnixRes)> {
    rs.map_values(|r: VulnixRes| (b, r))
}

/// The paired results are the results, each with the branch.
pub proof fn lemma_partial_branch(b: Branch, rs: Seq<VulnixRes>)
    ensures
        partial_branch(b, rs).len() == rs.len(),
        forall|i: int| 0 <= i < rs.len() ==> #[trigger] partial_branch(b, rs)[i] == (b, rs[i]),
{
}

/// The results of one branch, each paired with that branch.
pub open spec fn with_branch(p: (Branch, Vec<VulnixRes>)) -> Seq<(Branch, VulnixRes)> {
    partial_branch(p.0, p.1@)
}

/// All `(branch, result)` pairs of a run, in input order.
pub open spec fn flat(sbb: Seq<(Branch, Vec<VulnixRes>)>) -> Seq<(Branch, VulnixRes)>
    decreases sbb.len(),
{
    if sbb.len() == 0 {
        Seq::empty()
    } else {
        with_branch(sbb[0]) + flat(sbb.skip(1))
    }
}

/// The severity scores of all results merged in order; on a shared
/// advisory the later result wins.
pub open spec fn merged_scores(rs: Seq<(Branch, VulnixRes)>) -> Map<Advisory, u32>
    decreases rs.len(),
{
    if rs.len() == 0 {
        Map::empty()
    } else {
        merged_scores(rs.drop_last()).union_prefer_right(rs.last().1.cvssv3_basescore@)
    }
}

/// The descriptions of all results merged in order; on a shared advisory
/// the later result wins.
pub open spec fn merged_descs(rs: Seq<(Branch, VulnixRes)>) -> Map<Advisory, Seq<char>>
    decreases rs.len(),
{
    if rs.len() == 0 {
        Map::empty()
    } else {
        merged_descs(rs.drop_last()).union_prefer_right(rs.last().1.description@)
    }
}

/// The `(advisory, branch)` pairs contributed by one result.
pub open spec fn res_pairs(b: Branch, r: VulnixRes) -> Seq<(Advisory, (Seq<char>, Seq<char>))> {
    r.affected_by@.map_values(|a: Advisory| (a, br_key(b)))
}

/// The `(advisory, branch)` pairs reported for the package named `p`, in
/// result order.
pub open spec fn pkg_pairs(rs: Seq<(Branch, VulnixRes)>, p: Seq<char>) -> Seq<(Advisory, (Seq<char>, Seq<char>))>
    decreases rs.len(),
{
    if rs.len() == 0 {
        Seq::empty()
    } else {
        pkg_pairs(rs.drop_last(), p) + (if rs.last().1.pkg@ == p {
            res_pairs(rs.last().0, rs.last().1)
        } else {
            Seq::empty()
        })
    }
}

/// The maintainers reported for the package named `p`, in result order.
pub open spec fn maints_for(rs: Seq<(Branch, VulnixRes)>, p: Seq<char>) -> Seq<MaintView>
    decreases rs.len(),
{
    if rs.len() == 0 {
        Seq::empty()
    } else {
        maints_for(rs.drop_last(), p) + (if rs.last().1.pkg@ == p {
            m_views(rs.last().1.maintainers@)
        } else {
            Seq::empty()
        })
    }
}

/// Some branch reported at least one advisory for the package named `p`.
pub open spec fn pkg_reported(rs: Seq<(Branch, VulnixRes)>, p: Seq<char>) -> bool {
    pkg_pairs(rs, p).len() > 0
}

/// Order on branch keys: by name, then by revision.
pub open spec fn key_lt(x: (Seq<char>, Seq<char>), y: (Seq<char>, Seq<char>)) -> bool {
    lex_lt(x.0, y.0) || (x.0 == y.0 && lex_lt(x.1, y.1))
}

/// Strict order on `(advisory, branch key)` pairs.
pub open spec fn pv_lt(a: (Advisory, (Seq<char>, Seq<char>)), b: (Advisory, (Seq<char>, Seq<char>))) -> bool {
    adv_lt(a.0, b.0) || (a.0 == b.0 && key_lt(a.1, b.1))
}

/// Non-strict order on `(advisory, branch key)` pairs.
pub open spec fn pv_le(a: (Advisory, (Seq<char>, Seq<char>)), b: (Advisory, (Seq<char>, Seq<char>))) -> bool {
    pv_lt(a, b) || a == b
}

/// The view of an `(advisory, branch)` pair.
pub open spec fn pair_view(p: (Advisory, Branch)) -> (Advisory, (Seq<char>, Seq<char>)) {
    (p.0, br_key(p.1))
}

/// The views of a pair list.
pub open spec fn pair_views(v: Seq<(Advisory, Branch)>) -> Seq<(Advisory, (Seq<char>, Seq<char>))> {
    v.map_values(|p: (Advisory, Branch)| pair_view(p))
}

/// The views of a pair list are the views of its elements.
pub proof fn lemma_pair_views(v: Seq<(Advisory, Branch)>)
    ensures
        pair_views(v).len() == v.len(),
        forall|i: int| 0 <= i < v.len() ==> #[trigger] pair_views(v)[i] == pair_view(v[i]),
{
}

/// Two branch keys are ordered one way or the other, or equal.
pub proof fn lemma_key_total(x: (Seq<char>, Seq<char>), y: (Seq<char>, Seq<char>))
    requires
        !key_lt(x, y),
        !key_lt(y, x),
    ensures
        x == y,
{
    crate::text::lemma_lex_connex(x.0, y.0);
    crate::text::lemma_lex_connex(x.1, y.1);
}

/// The branch key order is transitive.
pub proof fn lemma_key_lt_trans(x: (Seq<char>, Seq<char>), y: (Seq<char>, Seq<char>), z: (Seq<char>, Seq<char>))
    requires
        key_lt(x, y),
        key_lt(y, z),
    ensures
        key_lt(x, z),
{
    if lex_lt(x.0, y.0) && lex_lt(y.0, z.0) {
        crate::text::lemma_lex_trans(x.0, y.0, z.0);
    } else if x.0 == y.0 && y.0 == z.0 {
        crate::text::lemma_lex_trans(x.1, y.1, z.1);
    }
}

/// Two pairs are ordered one way or the other, or equal.
pub proof fn lemma_pv_total(a: (Advisory, (Seq<char>, Seq<char>)), b: (Advisory, (Seq<char>, Seq<char>)))
    requires
        !pv_le(a, b),
    ensures
        pv_lt(b, a),
{
    if a.0 == b.0 {
        if !key_lt(b.1, a.1) {
            lemma_key_total(a.1, b.1);
        }
    }
}

/// The pair order is transitive.
pub proof fn lemma_pv_lt_trans(a: (Advisory, (Seq<char>, Seq<char>)), b: (Advisory, (Seq<char>, Seq<char>)), c: (Advisory, (Seq<char>, Seq<char>)))
    requires
        pv_lt(a, b),
        pv_lt(b, c),
    ensures
        pv_lt(a, c),
{
    if a.0 == b.0 && b.0 == c.0 {
        lemma_key_lt_trans(a.1, b.1, c.1);
    }
}

/// `e` inserted into `s` before the first pair it precedes or equals.
pub open spec fn pv_insert(e: (Advisory, (Seq<char>, Seq<char>)), s: Seq<(Advisory, (Seq<char>, Seq<char>))>) -> Seq<(Advisory, (Seq<char>, Seq<char>))>
    decreases s.len(),
{
    if s.len() == 0 {
        seq![e]
    } else if pv_le(e, s[0]) {
        seq![e] + s
    } else {
        seq![s[0]] + pv_insert(e, s.skip(1))
    }
}

/// `s` sorted by the pair order: each element inserted in turn.
pub open spec fn pv_sort(s: Seq<(Advisory, (Seq<char>, Seq<char>))>) -> Seq<(Advisory, (Seq<char>, Seq<char>))>
    decreases s.len(),
{
    if s.len() == 0 {
        Seq::empty()
    } else {
        pv_insert(s.last(), pv_sort(s.drop_last()))
    }
}

/// Inserting at the scanned position is the spec-level insertion.
pub proof fn lemma_pv_insert_at(e: (Advisory, (Seq<char>, Seq<char>)), s: Seq<(Advisory, (Seq<char>, Seq<char>))>, pos: int)
    requires
        0 <= pos <= s.len(),
        forall|j: int| 0 <= j < pos ==> !pv_le(e, #[trigger] s[j]),
        pos == s.len() || pv_le(e, s[pos]),
    ensures
        pv_insert(e, s) == s.subrange(0, pos) + seq![e] + s.skip(pos),
    decreases pos,
{
    if pos == 0 {
        assert(pv_insert(e, s) =~= s.subrange(0, 0) + seq![e] + s.skip(0));
    } else {
        lemma_pv_insert_at(e, s.skip(1), pos - 1);
        assert(s.skip(1).subrange(0, pos - 1) =~= s.subrange(1, pos));
        assert(s.skip(1).skip(pos - 1) =~= s.skip(pos));
        assert(seq![s[0]] + (s.subrange(1, pos) + seq![e] + s.skip(pos))
            =~= s.subrange(0, pos) + seq![e] + s.skip(pos));
    }
}

/// Adjacent pairs of the sequence are ordered.
pub open spec fn pv_adj_sorted(s: Seq<(Advisory, (Seq<char>, Seq<char>))>) -> bool {
    forall|i: int| 0 <= i < s.len() - 1 ==> pv_le(#[trigger] s[i], s[i + 1])
}

/// Insertion keeps adjacent sortedness.
pub proof fn lemma_pv_insert_adj(e: (Advisory, (Seq<char>, Seq<char>)), s: Seq<(Advisory, (Seq<char>, Seq<char>))>)
    requires
        pv_adj_sorted(s),
    ensures
        pv_adj_sorted(pv_insert(e, s)),
    decreases s.len(),
{
    if s.len() == 0 {
    } else if pv_le(e, s[0]) {
        let t = seq![e] + s;
        assert forall|i: int| 0 <= i < t.len() - 1 implies pv_le(#[trigger] t[i], t[i + 1]) by {
            if i > 0 {
                assert(t[i] == s[i - 1] && t[i + 1] == s[i]);
            }
        }
    } else {
        assert(pv_adj_sorted(s.skip(1))) by {
            assert(forall|i: int| 0 <= i < s.skip(1).len() - 1
                ==> #[trigger] s.skip(1)[i] == s[i + 1] && s.skip(1)[i + 1] == s[i + 2]);
        }
        lemma_pv_insert_adj(e, s.skip(1));
        lemma_pv_total(e, s[0]);
        let rest = pv_insert(e, s.skip(1));
        let t = seq![s[0]] + rest;
        assert forall|i: int| 0 <= i < t.len() - 1 implies pv_le(#[trigger] t[i], t[i + 1]) by {
            if i == 0 {
                assert(t[1] == rest[0]);
                if s.skip(1).len() == 0 {
                    assert(rest[0] == e);
                } else if pv_le(e, s.skip(1)[0]) {
                    assert(rest[0] == e);
                } else {
                    assert(rest[0] == s.skip(1)[0]);
                    assert(s.skip(1)[0] == s[1]);
                }
            } else {
                assert(t[i] == rest[i - 1] && t[i + 1] == rest[i]);
            }
        }
    }
}

/// The sorted sequence is adjacently ordered.
pub proof fn lemma_pv_sort_adj(s: Seq<(Advisory, (Seq<char>, Seq<char>))>)
    ensures
        pv_adj_sorted(pv_sort(s)),
    decreases s.len(),
{
    if s.len() > 0 {
        lemma_pv_sort_adj(s.drop_last());
        lemma_pv_insert_adj(s.last(), pv_sort(s.drop_last()));
    }
}

/// Insertion adds exactly the inserted element.
pub proof fn lemma_pv_insert_contains(e: (Advisory, (Seq<char>, Seq<char>)), s: Seq<(Advisory, (Seq<char>, Seq<char>))>, x: (Advisory, (Seq<char>, Seq<char>)))
    ensures
        pv_insert(e, s).contains(x) <==> (x == e || s.contains(x)),
    decreases s.len(),
{
    if s.len() == 0 {
        assert(pv_insert(e, s)[0] == e);
    } else if pv_le(e, s[0]) {
        let t = seq![e] + s;
        if x == e || s.contains(x) {
            if x == e {
                assert(t[0] == x);
            } else {
                let w = choose|j: int| 0 <= j < s.len() && s[j] == x;
                assert(t[w + 1] == x);
            }
        }
        if t.contains(x) {
            let w = choose|j: int| 0 <= j < t.len() && t[j] == x;
            if w > 0 {
                assert(s[w - 1] == x);
            }
        }
    } else {
        lemma_pv_insert_contains(e, s.skip(1), x);
        let rest = pv_insert(e, s.skip(1));
        let t = seq![s[0]] + rest;
        if x == e || s.contains(x) {
            if x == s[0] {
                assert(t[0] == x);
            } else {
                if s.contains(x) && x != s[0] {
                    let w = choose|j: int| 0 <= j < s.len() && s[j] == x;
                    assert(s.skip(1)[w - 1] == x);
                }
                assert(rest.contains(x));
                let w = choose|j: int| 0 <= j < rest.len() && rest[j] == x;
                assert(t[w + 1] == x);
            }
        }
        if t.contains(x) {
            let w = choose|j: int| 0 <= j < t.len() && t[j] == x;
            if w == 0 {
                assert(s[0] == x);
            } else {
                assert(rest[w - 1] == x);
                if x != e {
                    assert(s.skip(1).contains(x));
                    let u = choose|j: int| 0 <= j < s.skip(1).len() && s.skip(1)[j] == x;
                    assert(s[u + 1] == x);
                }
            }
        }
    }
}

/// Sorting keeps exactly the same elements.
pub proof fn lemma_pv_sort_contains(s: Seq<(Advisory, (Seq<char>, Seq<char>))>, x: (Advisory, (Seq<char>, Seq<char>)))
    ensures
        pv_sort(s).contains(x) <==> s.contains(x),
    decreases s.len(),
{
    if s.len() > 0 {
        lemma_pv_sort_contains(s.drop_last(), x);
        lemma_pv_insert_contains(s.last(), pv_sort(s.drop_last()), x);
        if x == s.last() {
            assert(s[s.len() - 1] == x);
        }
        if s.drop_last().contains(x) {
            let w = choose|j: int| 0 <= j < s.len() - 1 && s.drop_last()[j] == x;
            assert(s[w] == x);
        }
        if s.contains(x) && x != s.last() {
            let w = choose|j: int| 0 <= j < s.len() && s[j] == x;
            assert(s.drop_last()[w] == x);
        }
    }
}

/// Insertion grows the sequence by one.
pub proof fn lemma_pv_insert_len(e: (Advisory, (Seq<char>, Seq<char>)), s: Seq<(Advisory, (Seq<char>, Seq<char>))>)
    ensures
        pv_insert(e, s).len() == s.len() + 1,
    decreases s.len(),
{
    if s.len() > 0 && !pv_le(e, s[0]) {
        lemma_pv_insert_len(e, s.skip(1));
    }
}

/// Sorting keeps the length.
pub proof fn lemma_pv_sort_len(s: Seq<(Advisory, (Seq<char>, Seq<char>))>)
    ensures
        pv_sort(s).len() == s.len(),
    decreases s.len(),
{
    if s.len() > 0 {
        lemma_pv_sort_len(s.drop_last());
        lemma_pv_insert_len(s.last(), pv_sort(s.drop_last()));
    }
}

/// Compares two `(advisory, branch)` pairs: is the first at most the
/// second in the pair order?
pub fn pair_le_exec(a: &(Advisory, Branch), b: &(Advisory, Branch)) -> (r: bool)
    ensures
        r == pv_le(pair_view(*a), pair_view(*b)),
{
    match a.0.cmp_num(&b.0) {
        Ordering::Less => true,
        Ordering::Greater => false,
        Ordering::Equal => match branch_cmp(&a.1, &b.1) {
            Ordering::Less => true,
            Ordering::Equal => true,
            Ordering::Greater => false,
        },
    }
}

/// The score recorded for `a` in the merged map, if any.
pub open spec fn score_opt(m: Map<Advisory, u32>, a: Advisory) -> Option<u32> {
    if m.dom().contains(a) {
        Some(m[a])
    } else {
        None
    }
}

/// The optional description equals the merged map's entry for `a`.
pub open spec fn desc_matches(d: Option<String>, m: Map<Advisory, Seq<char>>, a: Advisory) -> bool {
    match d {
        Some(s) => m.dom().contains(a) && s@ == m[a],
        None => !m.dom().contains(a),
    }
}

/// The per-advisory aggregate `d` correctly consolidates what the run
/// reported about advisory `a` of the package named `p`: its score and
/// description come from the merged maps, and its branch list holds
/// exactly the branches that reported the pair, each once, sorted.
pub open spec fn detail_ok(rs: Seq<(Branch, VulnixRes)>, p: Seq<char>, a: Advisory, d: Detail) -> bool {
    &&& d.score == score_opt(merged_scores(rs), a)
    &&& desc_matches(d.description, merged_descs(rs), a)
    &&& d.branches@.len() >= 1
    &&& (forall|i: int, j: int| 0 <= i < j < d.branches@.len()
        ==> key_lt(br_key(#[trigger] d.branches@[i]), br_key(#[trigger] d.branches@[j])))
    &&& (forall|i: int| 0 <= i < d.branches@.len()
        ==> pkg_pairs(rs, p).contains((a, br_key(#[trigger] d.branches@[i]))))
    &&& (forall|bk: (Seq<char>, Seq<char>)| #[trigger] pkg_pairs(rs, p).contains((a, bk))
        ==> exists|i: int| 0 <= i < d.branches@.len() && br_key(#[trigger] d.branches@[i]) == bk)
}

/// The ticket `t` correctly consolidates what the run reported about its
/// package: one entry per reported advisory, in ascending advisory order,
/// each entry a correct aggregate, and the maintainers collected over all
/// branches, sorted and deduplicated.
pub open spec fn ticket_ok(iteration: u32, rs: Seq<(Branch, VulnixRes)>, t: Ticket) -> bool {
    &&& t.iteration == iteration
    &&& t.affected@.len() >= 1
    &&& (forall|i: int, j: int| 0 <= i < j < t.affected@.len()
        ==> adv_lt((#[trigger] t.affected@[i]).0, (#[trigger] t.affected@[j]).0))
    &&& (forall|i: int| 0 <= i < t.affected@.len()
        ==> detail_ok(rs, t.pkg@, (#[trigger] t.affected@[i]).0, t.affected@[i].1))
    &&& (forall|a: Advisory, bk: (Seq<char>, Seq<char>)|
        #[trigger] pkg_pairs(rs, t.pkg@).contains((a, bk))
            ==> exists|i: int| 0 <= i < t.affected@.len() && (#[trigger] t.affected@[i]).0 == a)
    &&& m_views(t.maintainers@) == mv_dedup(mv_sort(maints_for(rs, t.pkg@)))
}

/// Sorts `(advisory, branch)` pairs by advisory, then branch.
#[verifier::loop_isolation(false)]
fn sort_pairs(v: Vec<(Advisory, Branch)>) -> (r: Vec<(Advisory, Branch)>)
    ensures
        pair_views(r@) == pv_sort(pair_views(v@)),
{
    let mut drained = v;
    let ghost orig = pair_views(drained@);
    let total: usize = drained.len();
    let mut sorted: Vec<(Advisory, Branch)> = Vec::new();
    let mut i: usize = 0;
    proof {
        lemma_pair_views(drained@);
        assert(pair_views(sorted@) =~= pv_sort(orig.subrange(0, 0)));
    }
    while drained.len() > 0
        invariant
            0 <= i <= total,
            total == orig.len(),
            i + drained@.len() == total,
            pair_views(drained@) == orig.skip(i as int),
            pair_views(sorted@) == pv_sort(orig.subrange(0, i as int)),
        decreases drained@.len(),
    {
        let ghost oldd = drained@;
        proof {
            lemma_pair_views(oldd);
        }
        let e = drained.remove(0);
        proof {
            lemma_pair_views(drained@);
            assert forall|j: int| 0 <= j < drained@.len()
                implies #[trigger] pair_views(drained@)[j] == orig.skip(i as int)[j + 1] by {
                assert(pair_views(drained@)[j] == pair_view(drained@[j]));
                assert(drained@[j] == oldd[j + 1]);
                assert(pair_views(oldd)[j + 1] == pair_view(oldd[j + 1]));
            }
            assert(pair_views(drained@) =~= orig.skip(i + 1));
            assert(pair_view(e) == orig[i as int]) by {
                assert(orig.skip(i as int)[0] == orig[i as int]);
            }
        }
        let mut pos: usize = 0;
        while pos < sorted.len()
            invariant
                0 <= pos <= sorted@.len(),
                forall|j: int| 0 <= j < pos
                    ==> !pv_le(pair_view(e), #[trigger] pair_views(sorted@)[j]),
            decreases sorted@.len() - pos,
        {
            proof {
                lemma_pair_views(sorted@);
            }
            if pair_le_exec(&e, &sorted[pos]) {
                break;
            }
            pos = pos + 1;
        }
        let ghost before = sorted@;
        proof {
            lemma_pair_views(before);
        }
        sorted.insert(pos, e);
        proof {
            lemma_pair_views(sorted@);
            lemma_pv_insert_at(orig[i as int], pair_views(before), pos as int);
            assert(pair_views(sorted@) =~= pair_views(before).subrange(0, pos as int)
                + seq![orig[i as int]] + pair_views(before).skip(pos as int)) by {
                assert(forall|j: int| 0 <= j < pos ==> #[trigger] sorted@[j] == before[j]);
                assert(forall|j: int| pos < j < sorted@.len()
                    ==> #[trigger] sorted@[j] == before[j - 1]);
                assert(sorted@[pos as int] == e);
            }
            assert(orig.subrange(0, i + 1).drop_last() =~= orig.subrange(0, i as int));
            assert(orig.subrange(0, i + 1).last() == orig[i as int]);
        }
        i = i + 1;
    }
    proof {
        assert(orig.subrange(0, i as int) =~= orig);
    }
    sorted
}

/// Builds the ticket for one package from everything the run reported
/// about it: the pairs are sorted, folded into one aggregate per advisory
/// with duplicate branches dropped, scores and descriptions are taken from
/// the merged maps, and the maintainers are sorted and deduplicated.
#[verifier::loop_isolation(false)]
#[verifier::rlimit(100)]
fn build_ticket(
    iteration: u32,
    pkg: Package,
    pairs: Vec<(Advisory, Branch)>,
    scores: &ScoreMap,
    descs: &DescMap,
    maints: Vec<Maintainer>,
    Ghost(rs): Ghost<Seq<(Branch, VulnixRes)>>,
) -> (t: Ticket)
    requires
        pair_views(pairs@) == pkg_pairs(rs, pkg@),
        pairs@.len() >= 1,
        scores@ == merged_scores(rs),
        descs@ == merged_descs(rs),
        m_views(maints@) == maints_for(rs, pkg@),
    ensures
        ticket_ok(iteration, rs, t),
        t.pkg == pkg,
{
    let sp = sort_pairs(pairs);
    let ghost sv = pair_views(sp@);
    let ghost pp = pkg_pairs(rs, pkg@);
    proof {
        lemma_pair_views(pairs@);
        lemma_pair_views(sp@);
        lemma_pv_sort_adj(pp);
        assert forall|x: (Advisory, (Seq<char>, Seq<char>))|
            #[trigger] sv.contains(x) == pp.contains(x) by {
            lemma_pv_sort_contains(pp, x);
        }
        lemma_pv_sort_len(pp);
    }
    let n = sp.len();
    proof {
        assert(sv.len() == pp.len());
        assert(pp.len() == pair_views(pairs@).len());
        assert(n >= 1);
    }
    let mut affected: Vec<(Advisory, Detail)> = Vec::new();
    let mut k: usize = 0;
    while k < n
        invariant
            0 <= k <= n,
            n == sv.len(),
            forall|i: int, j: int| 0 <= i < j < affected@.len()
                ==> adv_lt((#[trigger] affected@[i]).0, (#[trigger] affected@[j]).0),
            forall|i: int| 0 <= i < affected@.len() ==> {
                let e = #[trigger] affected@[i];
                &&& e.1.score == score_opt(merged_scores(rs), e.0)
                &&& desc_matches(e.1.description, merged_descs(rs), e.0)
                &&& e.1.branches@.len() >= 1
                &&& (forall|p: int, q: int| 0 <= p < q < e.1.branches@.len()
                    ==> key_lt(br_key(#[trigger] e.1.branches@[p]), br_key(#[trigger] e.1.branches@[q])))
                &&& (forall|p: int| 0 <= p < e.1.branches@.len()
                    ==> sv.contains((e.0, br_key(#[trigger] e.1.branches@[p]))))
            },
            forall|m: int| 0 <= m < k ==> exists|i: int|
                0 <= i < affected@.len() && (#[trigger] affected@[i]).0 == (#[trigger] sv[m]).0
                    && exists|p: int| 0 <= p < affected@[i].1.branches@.len()
                        && br_key(affected@[i].1.branches@[p]) == sv[m].1,
            k > 0 ==> affected@.len() > 0,
            k == 0 ==> affected@.len() == 0,
            k > 0 ==> (#[trigger] affected@.last()).0 == sv[k - 1].0
                && affected@.last().1.branches@.len() > 0
                && br_key(affected@.last().1.branches@.last()) == sv[k - 1].1,
        decreases n - k,
    {
        let a = sp[k].0;
        let b = sp[k].1.clone();
        proof {
            assert(sv[k as int] == pair_view(sp@[k as int]));
            assert(br_key(b) == sv[k as int].1);
            assert(sv[k as int].0 == a);
            if k > 0 {
                assert(pv_le(sv[k - 1], sv[k as int]));
            }
        }
        let is_same = if k == 0 {
            false
        } else {
            let li = affected.len() - 1;
            affected[li].0 == a
        };
        if !is_same {
            let mut d = Detail::new(scores.get(&a), descs.get(&a));
            d.branches.push(b);
            let ghost dg = d;
            let ghost prev = affected@;
            proof {
                if k > 0 {
                    assert(adv_lt(affected@.last().0, a));
                }
            }
            affected.push((a, d));
            proof {
                assert(affected@ == prev.push((a, dg)));
                let e = affected@.last();
                assert(e.0 == a && e.1 == dg);
                assert(dg.branches@.len() == 1 && dg.branches@[0] == b);
                assert(forall|i: int| 0 <= i < prev.len()
                    ==> #[trigger] affected@[i] == prev[i]);
                assert(sv.contains((a, br_key(b)))) by {
                    assert(sv[k as int] == (a, br_key(b)));
                }
                assert forall|m: int| 0 <= m < k + 1 implies exists|i: int|
                    0 <= i < affected@.len() && (#[trigger] affected@[i]).0 == (#[trigger] sv[m]).0
                        && exists|p: int| 0 <= p < affected@[i].1.branches@.len()
                            && br_key(affected@[i].1.branches@[p]) == sv[m].1 by {
                    if m == k {
                        let i = affected@.len() - 1;
                        assert(affected@[i].0 == sv[m].0);
                        assert(br_key(affected@[i].1.branches@[0]) == sv[m].1);
                    } else {
                        let w = choose|i: int| 0 <= i < prev.len()
                            && (#[trigger] prev[i]).0 == sv[m].0
                            && exists|p: int| 0 <= p < prev[i].1.branches@.len()
                                && br_key(prev[i].1.branches@[p]) == sv[m].1;
                        assert(affected@[w] == prev[w]);
                    }
                }
            }
        } else {
            let li = affected.len() - 1;
            let ghost full = affected@;
            let mut ent = affected.remove(li);
            proof {
                assert(affected@ =~= full.drop_last());
                assert(ent == full.last());
            }
            let ghost entg = ent;
            let ghost shortened = affected@;
            let bl = ent.1.branches.len() - 1;
            let same_branch = matches!(branch_cmp(&ent.1.branches[bl], &b), Ordering::Equal);
            if same_branch {
                proof {
                    assert(br_key(entg.1.branches@.last()) == br_key(b));
                }
                affected.push(ent);
                proof {
                    assert(affected@ =~= full);
                    assert(affected@.last() == entg);
                    assert forall|m: int| 0 <= m < k + 1 implies exists|i: int|
                        0 <= i < affected@.len() && (#[trigger] affected@[i]).0 == (#[trigger] sv[m]).0
                            && exists|p: int| 0 <= p < affected@[i].1.branches@.len()
                                && br_key(affected@[i].1.branches@[p]) == sv[m].1 by {
                        if m == k {
                            let i = affected@.len() - 1;
                            let p = affected@[i].1.branches@.len() - 1;
                            assert(affected@[i].0 == sv[m].0);
                            assert(br_key(affected@[i].1.branches@[p]) == sv[m].1);
                        } else {
                            let w = choose|i: int| 0 <= i < full.len()
                                && (#[trigger] full[i]).0 == sv[m].0
                                && exists|p: int| 0 <= p < full[i].1.branches@.len()
                                    && br_key(full[i].1.branches@[p]) == sv[m].1;
                            assert(affected@[w] == full[w]);
                        }
                    }
                }
            } else {
                proof {
                    // the previous pair had the same advisory, so the keys
                    // are ordered; the new branch comes strictly after
                    assert(br_key(entg.1.branches@.last()) == sv[k - 1].1);
                    if key_lt(br_key(b), br_key(entg.1.branches@.last())) {
                        if key_lt(br_key(entg.1.branches@.last()), br_key(b)) {
                            lemma_key_lt_trans(br_key(b), br_key(entg.1.branches@.last()), br_key(b));
                            crate::text::lemma_lex_irrefl(br_key(b).0);
                            crate::text::lemma_lex_irrefl(br_key(b).1);
                        }
                        assert(false);
                    }
                    assert(key_lt(br_key(entg.1.branches@.last()), br_key(b)));
                }
                let ghost oldbranches = ent.1.branches@;
                ent.1.branches.push(b);
                proof {
                    assert(forall|p: int| 0 <= p < oldbranches.len()
                        ==> #[trigger] ent.1.branches@[p] == oldbranches[p]);
                    assert forall|p: int, q: int| 0 <= p < q < ent.1.branches@.len()
                        implies key_lt(br_key(#[trigger] ent.1.branches@[p]), br_key(#[trigger] ent.1.branches@[q])) by {
                        if q == ent.1.branches@.len() - 1 {
                            if p < oldbranches.len() - 1 {
                                lemma_key_lt_trans(
                                    br_key(oldbranches[p]),
                                    br_key(oldbranches[oldbranches.len() - 1]),
                                    br_key(b),
                                );
                            }
                        }
                    }
                    assert(sv.contains((entg.0, br_key(b)))) by {
                        assert(sv[k as int] == (a, br_key(b)));
                    }
                }
                let ghost entg2 = ent;
                affected.push(ent);
                proof {
                    assert(affected@ =~= shortened.push(entg2));
                    assert(affected@.last() == entg2);
                    assert(full =~= shortened.push(entg));
                    assert forall|m: int| 0 <= m < k + 1 implies exists|i: int|
                        0 <= i < affected@.len() && (#[trigger] affected@[i]).0 == (#[trigger] sv[m]).0
                            && exists|p: int| 0 <= p < affected@[i].1.branches@.len()
                                && br_key(affected@[i].1.branches@[p]) == sv[m].1 by {
                        if m == k {
                            let i = affected@.len() - 1;
                            let p = affected@[i].1.branches@.len() - 1;
                            assert(affected@[i].0 == sv[m].0);
                            assert(br_key(affected@[i].1.branches@[p]) == sv[m].1);
                        } else {
                            let w = choose|i: int| 0 <= i < full.len()
                                && (#[trigger] full[i]).0 == sv[m].0
                                && exists|p: int| 0 <= p < full[i].1.branches@.len()
                                    && br_key(full[i].1.branches@[p]) == sv[m].1;
                            if w < shortened.len() {
                                assert(affected@[w] == full[w]);
                            } else {
                                let p = choose|p: int| 0 <= p < entg.1.branches@.len()
                                    && br_key(entg.1.branches@[p]) == sv[m].1;
                                assert(full[w] == entg);
                                assert(entg2.1.branches@[p] == entg.1.branches@[p]);
                                assert(affected@[affected@.len() - 1] == entg2);
                                assert(br_key(affected@[affected@.len() - 1].1.branches@[p]) == sv[m].1);
                            }
                        }
                    }
                }
            }
        }
        k = k + 1;
    }
    let maintainers = crate::source::sort_dedup_maintainers(maints);
    let t = Ticket { iteration, pkg, affected, maintainers };
    proof {
        assert(t.affected@.len() >= 1);
        assert forall|i: int| 0 <= i < t.affected@.len()
            implies detail_ok(rs, t.pkg@, (#[trigger] t.affected@[i]).0, t.affected@[i].1) by {
            let e = t.affected@[i];
            assert forall|bk: (Seq<char>, Seq<char>)| #[trigger] pp.contains((e.0, bk))
                implies exists|p: int| 0 <= p < e.1.branches@.len()
                    && br_key(#[trigger] e.1.branches@[p]) == bk by {
                assert(sv.contains((e.0, bk)));
                let m = choose|m: int| 0 <= m < sv.len() && sv[m] == (e.0, bk);
                let w = choose|w: int| 0 <= w < t.affected@.len()
                    && (#[trigger] t.affected@[w]).0 == sv[m].0
                    && exists|p: int| 0 <= p < t.affected@[w].1.branches@.len()
                        && br_key(t.affected@[w].1.branches@[p]) == sv[m].1;
                assert(w == i) by {
                    if w < i {
                        assert(adv_lt(t.affected@[w].0, t.affected@[i].0));
                    }
                    if i < w {
                        assert(adv_lt(t.affected@[i].0, t.affected@[w].0));
                    }
                }
            }
            assert(forall|p: int| 0 <= p < e.1.branches@.len()
                ==> pp.contains((e.0, br_key(#[trigger] e.1.branches@[p]))));
        }
        assert forall|a: Advisory, bk: (Seq<char>, Seq<char>)|
            #[trigger] pkg_pairs(rs, t.pkg@).contains((a, bk))
                implies exists|i: int| 0 <= i < t.affected@.len()
                    && (#[trigger] t.affected@[i]).0 == a by {
            assert(sv.contains((a, bk)));
            let m = choose|m: int| 0 <= m < sv.len() && sv[m] == (a, bk);
            let w = choose|w: int| 0 <= w < t.affected@.len()
                && (#[trigger] t.affected@[w]).0 == sv[m].0
                && exists|p: int| 0 <= p < t.affected@[w].1.branches@.len()
                    && br_key(t.affected@[w].1.branches@[p]) == sv[m].1;
            assert(t.affected@[w].0 == a);
        }
    }
    t
}

/// The accumulation state after absorbing the results `done`: the merged
/// score and description maps, the per-package pair lists, and the
/// per-package maintainer lists, each keyed once per package.
pub open spec fn acc_ok(
    done: Seq<(Branch, VulnixRes)>,
    scores: Map<Advisory, u32>,
    descs: Map<Advisory, Seq<char>>,
    pkgmap: Seq<(Package, Vec<(Advisory, Branch)>)>,
    maintmap: Seq<(Package, Vec<Maintainer>)>,
) -> bool {
    &&& scores == merged_scores(done)
    &&& descs == merged_descs(done)
    &&& (forall|i: int, j: int| 0 <= i < j < pkgmap.len()
        ==> (#[trigger] pkgmap[i]).0@ != (#[trigger] pkgmap[j]).0@)
    &&& (forall|i: int| 0 <= i < pkgmap.len()
        ==> pair_views((#[trigger] pkgmap[i]).1@) == pkg_pairs(done, pkgmap[i].0@))
    &&& (forall|p: Seq<char>| #[trigger] pkg_pairs(done, p).len() > 0
        ==> exists|i: int| 0 <= i < pkgmap.len() && (#[trigger] pkgmap[i]).0@ == p)
    &&& (forall|i: int, j: int| 0 <= i < j < maintmap.len()
        ==> (#[trigger] maintmap[i]).0@ != (#[trigger] maintmap[j]).0@)
    &&& (forall|i: int| 0 <= i < maintmap.len()
        ==> m_views((#[trigger] maintmap[i]).1@) == maints_for(done, maintmap[i].0@))
    &&& (forall|p: Seq<char>| #[trigger] maints_for(done, p).len() > 0
        ==> exists|i: int| 0 <= i < maintmap.len() && (#[trigger] maintmap[i]).0@ == p)
}

/// Absorbs one scan result into the accumulation state.
#[verifier::loop_isolation(false)]
#[verifier::rlimit(100)]
fn absorb_result(
    branch: &Branch,
    res: VulnixRes,
    scores: &mut ScoreMap,
    descs: &mut DescMap,
    pkgmap: &mut Vec<(Package, Vec<(Advisory, Branch)>)>,
    maintmap: &mut Vec<(Package, Vec<Maintainer>)>,
    Ghost(done): Ghost<Seq<(Branch, VulnixRes)>>,
)
    requires
        acc_ok(done, old(scores)@, old(descs)@, old(pkgmap)@, old(maintmap)@),
    ensures
        acc_ok(
            done.push((*branch, res)),
            final(scores)@,
            final(descs)@,
            final(pkgmap)@,
            final(maintmap)@,
        ),
{
    let ghost done2 = done.push((*branch, res));
    proof {
        assert(done2.drop_last() =~= done);
        assert(done2.last() == (*branch, res));
    }
    scores.extend(&res.cvssv3_basescore);
    descs.extend(&res.description);
    let VulnixRes { pkg, affected_by, maintainers, .. } = res;
    let ghost pv = res.pkg@;
    proof {
        assert(pkg@ == pv);
        // packages other than this result's keep their pairs and
        // maintainers
        assert forall|p: Seq<char>| p != pv implies #[trigger] pkg_pairs(done2, p)
            == pkg_pairs(done, p) by {
            assert(pkg_pairs(done, p) + Seq::<(Advisory, (Seq<char>, Seq<char>))>::empty()
                =~= pkg_pairs(done, p));
        }
        assert forall|p: Seq<char>| p != pv implies #[trigger] maints_for(done2, p)
            == maints_for(done, p) by {
            assert(maints_for(done, p) + Seq::<MaintView>::empty() =~= maints_for(done, p));
        }
        assert(pkg_pairs(done2, pv) == pkg_pairs(done, pv) + res_pairs(*branch, res));
        assert(maints_for(done2, pv) == maints_for(done, pv) + m_views(res.maintainers@));
        assert(m_views(res.maintainers@) == m_views(maintainers@));
        assert(res_pairs(*branch, res) == res.affected_by@.map_values(
            |a: Advisory| (a, br_key(*branch)),
        ));
    }
    // fold the maintainers into the per-package maintainer list
    let mut mi: usize = 0;
    let mn = maintmap.len();
    while mi < mn
        invariant
            0 <= mi <= mn,
            mn == maintmap@.len(),
            maintmap@ == old(maintmap)@,
            forall|i: int| 0 <= i < mi ==> (#[trigger] maintmap@[i]).0@ != pv,
        decreases mn - mi,
    {
        if pkg.eq_str(maintmap[mi].0.as_str()) {
            break;
        }
        mi = mi + 1;
    }
    if mi < mn {
        let (mkey, mut mv) = maintmap.remove(mi);
        let ghost shortened = maintmap@;
        let ghost mv0 = mv@;
        let mut mm = maintainers;
        let ghost mms = mm@;
        let mtotal: usize = mm.len();
        let mut mj: usize = 0;
        proof {
            assert(m_views(mv@) =~= m_views(mv0) + m_views(mms.subrange(0, 0)));
        }
        while mm.len() > 0
            invariant
                0 <= mj <= mtotal,
                mtotal == mms.len(),
                mj + mm@.len() == mms.len(),
                mm@ == mms.skip(mj as int),
                m_views(mv@) == m_views(mv0) + m_views(mms.subrange(0, mj as int)),
            decreases mm@.len(),
        {
            let ghost oldmm = mm@;
            let m = mm.remove(0);
            proof {
                assert(mm@ =~= mms.skip(mj + 1));
                assert(m == mms[mj as int]) by {
                    assert(mms.skip(mj as int)[0] == mms[mj as int]);
                }
            }
            let ghost pre = mv@;
            mv.push(m);
            proof {
                assert(mv@.drop_last() =~= pre);
                crate::source::lemma_m_views_push(mv@, m_views(pre), m_view(m));
                crate::source::lemma_m_views(mms.subrange(0, mj as int));
                crate::source::lemma_m_views(mms.subrange(0, mj + 1));
                assert(m_views(mms.subrange(0, mj + 1)) =~= m_views(mms.subrange(0, mj as int))
                    + seq![m_view(mms[mj as int])]);
                assert(m_views(mv@) =~= m_views(mv0) + m_views(mms.subrange(0, mj + 1)));
            }
            mj = mj + 1;
        }
        proof {
            assert(mms.subrange(0, mj as int) =~= mms);
            assert(m_views(mv@) == m_views(mv0) + m_views(mms));
        }
        let ghost mvg = mv@;
        maintmap.insert(mi, (mkey, mv));
        proof {
            assert(forall|i: int| 0 <= i < mi ==> #[trigger] maintmap@[i] == old(maintmap)@[i]);
            assert(forall|i: int| mi < i < maintmap@.len()
                ==> #[trigger] maintmap@[i] == old(maintmap)@[i]);
            assert(maintmap@[mi as int].0 == old(maintmap)@[mi as int].0);
            assert(maintmap@[mi as int].1@ == mvg);
            assert(maintmap@.len() == old(maintmap)@.len());
            assert(m_views(mv0) == maints_for(done, pv));
            assert forall|i: int| 0 <= i < maintmap@.len()
                implies m_views((#[trigger] maintmap@[i]).1@)
                    == maints_for(done2, maintmap@[i].0@) by {
                if i == mi {
                    assert(maintmap@[i].0@ == pv);
                    assert(m_views(mvg) == maints_for(done, pv) + m_views(res.maintainers@));
                } else {
                    assert(maintmap@[i].0@ != pv);
                }
            }
            assert(forall|i: int, j: int| 0 <= i < j < maintmap@.len()
                ==> (#[trigger] maintmap@[i]).0@ != (#[trigger] maintmap@[j]).0@);
            assert forall|p: Seq<char>| #[trigger] maints_for(done2, p).len() > 0
                implies exists|i: int| 0 <= i < maintmap@.len()
                    && (#[trigger] maintmap@[i]).0@ == p by {
                if p == pv {
                    assert(maintmap@[mi as int].0@ == p);
                } else {
                    assert(maints_for(done, p).len() > 0);
                    let w = choose|i: int| 0 <= i < old(maintmap)@.len()
                        && (#[trigger] old(maintmap)@[i]).0@ == p;
                    assert(maintmap@[w].0@ == p);
                }
            }
        }
    } else {
        let nk = pkg.clone();
        maintmap.push((nk, maintainers));
        proof {
            assert(forall|i: int| 0 <= i < old(maintmap)@.len()
                ==> #[trigger] maintmap@[i] == old(maintmap)@[i]);
            assert(maints_for(done, pv).len() == 0) by {
                if maints_for(done, pv).len() > 0 {
                    let w = choose|i: int| 0 <= i < old(maintmap)@.len()
                        && (#[trigger] old(maintmap)@[i]).0@ == pv;
                    assert(false);
                }
            }
            assert(maints_for(done, pv) =~= Seq::<MaintView>::empty());
            assert(maints_for(done2, pv) =~= m_views(res.maintainers@));
            assert(maintmap@.last().0@ == pv);
            assert(maintmap@.last().1@ == res.maintainers@);
            assert forall|i: int| 0 <= i < maintmap@.len()
                implies m_views((#[trigger] maintmap@[i]).1@)
                    == maints_for(done2, maintmap@[i].0@) by {
                if i == maintmap@.len() - 1 {
                    assert(maintmap@[i].0@ == pv);
                } else {
                    assert(maintmap@[i].0@ != pv);
                }
            }
            assert(forall|i: int, j: int| 0 <= i < j < maintmap@.len()
                ==> (#[trigger] maintmap@[i]).0@ != (#[trigger] maintmap@[j]).0@);
            assert forall|p: Seq<char>| #[trigger] maints_for(done2, p).len() > 0
                implies exists|i: int| 0 <= i < maintmap@.len()
                    && (#[trigger] maintmap@[i]).0@ == p by {
                if p == pv {
                    assert(maintmap@[maintmap@.len() - 1].0@ == p);
                } else {
                    assert(maints_for(done, p).len() > 0);
                    let w = choose|i: int| 0 <= i < old(maintmap)@.len()
                        && (#[trigger] old(maintmap)@[i]).0@ == p;
                    assert(maintmap@[w].0@ == p);
                }
            }
        }
    }
    // fold the pairs into the per-package pair list
    let mut pi: usize = 0;
    let pn = pkgmap.len();
    while pi < pn
        invariant
            0 <= pi <= pn,
            pn == pkgmap@.len(),
            pkgmap@ == old(pkgmap)@,
            forall|i: int| 0 <= i < pi ==> (#[trigger] pkgmap@[i]).0@ != pv,
        decreases pn - pi,
    {
        if pkg.eq_str(pkgmap[pi].0.as_str()) {
            break;
        }
        pi = pi + 1;
    }
    let (target, mut tv, ghost_tv0) = if pi < pn {
        let (tkey, tv) = pkgmap.remove(pi);
        let ghost tv0 = pair_views(tv@);
        (Some(tkey), tv, Ghost(tv0))
    } else {
        let tv: Vec<(Advisory, Branch)> = Vec::new();
        (None, tv, Ghost(Seq::empty()))
    };
    let ghost tv0 = ghost_tv0@;
    proof {
        lemma_pair_views(tv@);
        if pi < pn {
            assert(tv0 == pkg_pairs(done, pv));
        } else {
            assert(pkg_pairs(done, pv).len() == 0) by {
                if pkg_pairs(done, pv).len() > 0 {
                    let w = choose|i: int| 0 <= i < old(pkgmap)@.len()
                        && (#[trigger] old(pkgmap)@[i]).0@ == pv;
                    assert(false);
                }
            }
            assert(tv0 =~= pkg_pairs(done, pv));
        }
    }
    let mut aj: usize = 0;
    let an = affected_by.len();
    let ghost rp = res_pairs(*branch, res);
    proof {
        assert(rp.len() == an);
        assert(forall|j: int| 0 <= j < an
            ==> #[trigger] rp[j] == (res.affected_by@[j], br_key(*branch)));
        assert(pair_views(tv@) =~= tv0 + rp.subrange(0, 0));
    }
    while aj < an
        invariant
            0 <= aj <= an,
            an == affected_by@.len(),
            pair_views(tv@) == tv0 + rp.subrange(0, aj as int),
        decreases an - aj,
    {
        let a = affected_by[aj];
        let bb = branch.clone();
        let ghost pre = tv@;
        tv.push((a, bb));
        proof {
            lemma_pair_views(pre);
            lemma_pair_views(tv@);
            assert forall|j: int| 0 <= j < pre.len()
                implies #[trigger] pair_views(tv@)[j] == (tv0 + rp.subrange(0, aj as int))[j] by {
                assert(pair_views(tv@)[j] == pair_view(tv@[j]));
                assert(tv@[j] == pre[j]);
                assert(pair_views(pre)[j] == pair_view(pre[j]));
            }
            assert(pair_view(tv@.last()) == rp[aj as int]);
            assert(pair_views(tv@) =~= tv0 + rp.subrange(0, aj + 1));
        }
        aj = aj + 1;
    }
    proof {
        assert(rp.subrange(0, aj as int) =~= rp);
        assert(pair_views(tv@) == tv0 + rp);
    }
    let ghost tvg = tv@;
    match target {
        Some(tkey) => {
            pkgmap.insert(pi, (tkey, tv));
            proof {
                assert(forall|i: int| 0 <= i < pi ==> #[trigger] pkgmap@[i] == old(pkgmap)@[i]);
                assert(forall|i: int| pi < i < pkgmap@.len()
                    ==> #[trigger] pkgmap@[i] == old(pkgmap)@[i]);
                assert(pkgmap@[pi as int].0 == old(pkgmap)@[pi as int].0);
                assert(pkgmap@[pi as int].1@ == tvg);
                assert(pkgmap@.len() == old(pkgmap)@.len());
                assert forall|i: int| 0 <= i < pkgmap@.len()
                    implies pair_views((#[trigger] pkgmap@[i]).1@)
                        == pkg_pairs(done2, pkgmap@[i].0@) by {
                    if i == pi {
                        assert(pkgmap@[i].0@ == pv);
                        assert(pair_views(tvg) == pkg_pairs(done, pv) + res_pairs(*branch, res));
                    } else {
                        assert(pkgmap@[i].0@ != pv);
                    }
                }
                assert(forall|i: int, j: int| 0 <= i < j < pkgmap@.len()
                    ==> (#[trigger] pkgmap@[i]).0@ != (#[trigger] pkgmap@[j]).0@);
                assert forall|p: Seq<char>| #[trigger] pkg_pairs(done2, p).len() > 0
                    implies exists|i: int| 0 <= i < pkgmap@.len()
                        && (#[trigger] pkgmap@[i]).0@ == p by {
                    if p == pv {
                        assert(pkgmap@[pi as int].0@ == p);
                    } else {
                        assert(pkg_pairs(done, p).len() > 0);
                        let w = choose|i: int| 0 <= i < old(pkgmap)@.len()
                            && (#[trigger] old(pkgmap)@[i]).0@ == p;
                        assert(pkgmap@[w].0@ == p);
                    }
                }
            }
        }
        None => {
            let nk = pkg.clone();
            pkgmap.push((nk, tv));
            proof {
                assert(forall|i: int| 0 <= i < old(pkgmap)@.len()
                    ==> #[trigger] pkgmap@[i] == old(pkgmap)@[i]);
                assert(pkgmap@.last().0@ == pv);
                assert(pkgmap@.last().1@ == tvg);
                assert forall|i: int| 0 <= i < pkgmap@.len()
                    implies pair_views((#[trigger] pkgmap@[i]).1@)
                        == pkg_pairs(done2, pkgmap@[i].0@) by {
                    if i == pkgmap@.len() - 1 {
                        assert(pkgmap@[i].0@ == pv);
                        assert(pair_views(tvg) == pkg_pairs(done, pv) + res_pairs(*branch, res));
                    } else {
                        assert(pkgmap@[i].0@ != pv);
                    }
                }
                assert(forall|i: int, j: int| 0 <= i < j < pkgmap@.len()
                    ==> (#[trigger] pkgmap@[i]).0@ != (#[trigger] pkgmap@[j]).0@);
                assert forall|p: Seq<char>| #[trigger] pkg_pairs(done2, p).len() > 0
                    implies exists|i: int| 0 <= i < pkgmap@.len()
                        && (#[trigger] pkgmap@[i]).0@ == p by {
                    if p == pv {
                        assert(pkgmap@[pkgmap@.len() - 1].0@ == p);
                    } else {
                        assert(pkg_pairs(done, p).len() > 0);
                        let w = choose|i: int| 0 <= i < old(pkgmap)@.len()
                            && (#[trigger] old(pkgmap)@[i]).0@ == p;
                        assert(pkgmap@[w].0@ == p);
                    }
                }
            }
        }
    }
}

/// Sorts tickets by package name. The names must be pairwise distinct.
#[verifier::loop_isolation(false)]
#[verifier::rlimit(60)]
fn sort_tickets(v: Vec<Ticket>) -> (r: Vec<Ticket>)
    requires
        forall|i: int, j: int| 0 <= i < j < v@.len()
            ==> (#[trigger] v@[i]).pkg@ != (#[trigger] v@[j]).pkg@,
    ensures
        r@.len() == v@.len(),
        forall|i: int, j: int| 0 <= i < j < r@.len()
            ==> lex_lt((#[trigger] r@[i]).pkg@, (#[trigger] r@[j]).pkg@),
        forall|i: int| 0 <= i < r@.len() ==> v@.contains(#[trigger] r@[i]),
        forall|i: int| 0 <= i < v@.len() ==> r@.contains(#[trigger] v@[i]),
{
    let mut drained = v;
    let ghost orig = drained@;
    let total: usize = drained.len();
    let mut out: Vec<Ticket> = Vec::new();
    let mut i: usize = 0;
    while drained.len() > 0
        invariant
            0 <= i <= total,
            total == orig.len(),
            i + drained@.len() == total,
            drained@ == orig.skip(i as int),
            out@.len() == i,
            forall|p: int, q: int| 0 <= p < q < out@.len()
                ==> lex_lt((#[trigger] out@[p]).pkg@, (#[trigger] out@[q]).pkg@),
            forall|m: int| 0 <= m < i ==> out@.contains(#[trigger] orig[m]),
            forall|m: int| 0 <= m < out@.len()
                ==> orig.subrange(0, i as int).contains(#[trigger] out@[m]),
        decreases drained@.len(),
    {
        proof {
            assert(orig.skip(i as int)[0] == orig[i as int]);
        }
        let e = drained.remove(0);
        proof {
            assert(drained@ =~= orig.skip(i + 1));
        }
        let mut pos: usize = 0;
        while pos < out.len()
            invariant
                0 <= pos <= out@.len(),
                forall|j: int| 0 <= j < pos ==> lex_lt((#[trigger] out@[j]).pkg@, e.pkg@),
            decreases out@.len() - pos,
        {
            let c = crate::text::str_cmp(e.name(), out[pos].name());
            if matches!(c, Ordering::Less) {
                break;
            }
            proof {
                assert(orig.subrange(0, i as int).contains(out@[pos as int]));
                let w = choose|w: int| 0 <= w < i && orig.subrange(0, i as int)[w] == out@[pos as int];
                assert(orig[w] == out@[pos as int]);
                assert(orig[w].pkg@ != e.pkg@);
                if !lex_lt(out@[pos as int].pkg@, e.pkg@) {
                    crate::text::lemma_lex_connex(e.pkg@, out@[pos as int].pkg@);
                }
            }
            pos = pos + 1;
        }
        let ghost before = out@;
        let ghost eg = e;
        out.insert(pos, e);
        proof {
            assert(forall|j: int| 0 <= j < pos ==> #[trigger] out@[j] == before[j]);
            assert(forall|j: int| pos < j < out@.len() ==> #[trigger] out@[j] == before[j - 1]);
            assert(out@[pos as int] == eg);
            assert forall|p: int, q: int| 0 <= p < q < out@.len()
                implies lex_lt((#[trigger] out@[p]).pkg@, (#[trigger] out@[q]).pkg@) by {
                if p == pos && q > pos + 1 {
                    crate::text::lemma_lex_trans(eg.pkg@, before[pos as int].pkg@, before[q - 1].pkg@);
                }
            }
            assert forall|m: int| 0 <= m < i + 1 implies out@.contains(#[trigger] orig[m]) by {
                if m == i {
                    assert(out@[pos as int] == orig[m]);
                } else {
                    let w = choose|w: int| 0 <= w < before.len() && before[w] == orig[m];
                    if w < pos {
                        assert(out@[w] == orig[m]);
                    } else {
                        assert(out@[w + 1] == orig[m]);
                    }
                }
            }
            assert forall|m: int| 0 <= m < out@.len()
                implies orig.subrange(0, i + 1).contains(#[trigger] out@[m]) by {
                if m == pos {
                    assert(orig.subrange(0, i + 1)[i as int] == out@[m]);
                } else {
                    let b = if m < pos { before[m] } else { before[m - 1] };
                    assert(orig.subrange(0, i as int).contains(b));
                    let w = choose|w: int| 0 <= w < i && orig.subrange(0, i as int)[w] == b;
                    assert(orig.subrange(0, i + 1)[w] == b);
                }
            }
        }
        i = i + 1;
    }
    proof {
        assert(orig.subrange(0, i as int) =~= orig);
        assert forall|m: int| 0 <= m < orig.len() implies out@.contains(#[trigger] orig[m]) by {
        }
        assert forall|m: int| 0 <= m < out@.len() implies orig.contains(#[trigger] out@[m]) by {
            let w = choose|w: int| 0 <= w < i && orig.subrange(0, i as int)[w] == out@[m];
            assert(orig[w] == out@[m]);
        }
    }
    out
}

/// Consolidates the per-branch scan results into one ticket per package.
///
/// Every package for which any branch reported at least one advisory gets
/// exactly one ticket; the tickets are sorted by package name, and each is
/// a correct consolidation of everything the run reported about its
/// package.
#[verifier::loop_isolation(false)]
#[verifier::rlimit(60)]
pub fn ticket_list(iteration: u32, scan_res: ScanByBranch) -> (r: Vec<Ticket>)
    ensures
        forall|i: int, j: int| 0 <= i < j < r@.len()
            ==> lex_lt((#[trigger] r@[i]).pkg@, (#[trigger] r@[j]).pkg@),
        forall|i: int| 0 <= i < r@.len()
            ==> ticket_ok(iteration, flat(scan_res@), #[trigger] r@[i]),
        forall|i: int| 0 <= i < r@.len()
            ==> pkg_reported(flat(scan_res@), (#[trigger] r@[i]).pkg@),
        forall|p: Seq<char>| #[trigger] pkg_reported(flat(scan_res@), p)
            ==> exists|i: int| 0 <= i < r@.len() && (#[trigger] r@[i]).pkg@ == p,
{
    let mut sb = scan_res;
    let ghost orig = sb@;
    let btotal: usize = sb.len();
    let mut scores = ScoreMap::new();
    let mut descs = DescMap::new();
    let mut pkgmap: Vec<(Package, Vec<(Advisory, Branch)>)> = Vec::new();
    let mut maintmap: Vec<(Package, Vec<Maintainer>)> = Vec::new();
    let ghost mut done: Seq<(Branch, VulnixRes)> = Seq::empty();
    let mut bi: usize = 0;
    proof {
        assert(done =~= flat(orig.subrange(0, 0)));
        assert(sb@ =~= orig.skip(0));
    }
    while sb.len() > 0
        invariant
            0 <= bi <= btotal,
            btotal == orig.len(),
            bi + sb@.len() == btotal,
            sb@ == orig.skip(bi as int),
            done == flat(orig.subrange(0, bi as int)),
            acc_ok(done, scores@, descs@, pkgmap@, maintmap@),
        decreases sb@.len(),
    {
        proof {
            assert(orig.skip(bi as int)[0] == orig[bi as int]);
        }
        let (branch, mut results) = sb.remove(0);
        proof {
            assert(sb@ =~= orig.skip(bi + 1));
            assert(branch == orig[bi as int].0);
            assert(results@ == orig[bi as int].1@);
        }
        let ghost brs = results@;
        let rtotal: usize = results.len();
        let mut ri: usize = 0;
        proof {
            lemma_partial_branch(branch, brs);
            assert(partial_branch(branch, brs.subrange(0, 0))
                =~= Seq::<(Branch, VulnixRes)>::empty());
            assert(done + partial_branch(branch, brs.subrange(0, 0)) =~= done);
        }
        let ghost base = done;
        while results.len() > 0
            invariant
                0 <= ri <= rtotal,
                rtotal == brs.len(),
                ri + results@.len() == rtotal,
                results@ == brs.skip(ri as int),
                done == base + partial_branch(branch, brs.subrange(0, ri as int)),
                acc_ok(done, scores@, descs@, pkgmap@, maintmap@),
            decreases results@.len(),
        {
            proof {
                assert(brs.skip(ri as int)[0] == brs[ri as int]);
            }
            let res = results.remove(0);
            proof {
                assert(results@ =~= brs.skip(ri + 1));
                assert(res == brs[ri as int]);
            }
            let ghost resg = res;
            absorb_result(&branch, res, &mut scores, &mut descs, &mut pkgmap, &mut maintmap, Ghost(done));
            proof {
                done = done.push((branch, resg));
                lemma_partial_branch(branch, brs.subrange(0, ri as int));
                lemma_partial_branch(branch, brs.subrange(0, ri + 1));
                assert(done =~= base + partial_branch(branch, brs.subrange(0, ri + 1)));
            }
            ri = ri + 1;
        }
        proof {
            assert(brs.subrange(0, ri as int) =~= brs);
            lemma_flat_prefix_step(orig, bi as int);
            assert(done =~= flat(orig.subrange(0, bi + 1)));
        }
        bi = bi + 1;
    }
    proof {
        assert(orig.subrange(0, bi as int) =~= orig);
    }
    let ghost rs = flat(orig);
    let tickets = build_all(iteration, pkgmap, maintmap, &scores, &descs, Ghost(rs));
    let ghost pkgorig_keys = Seq::<Seq<char>>::empty();
    // deterministic emission order
    let r = sort_tickets(tickets);
    proof {
        assert forall|i: int| 0 <= i < r@.len()
            implies ticket_ok(iteration, rs, #[trigger] r@[i])
                && pkg_reported(rs, r@[i].pkg@) by {
            let w = choose|w: int| 0 <= w < tickets@.len() && tickets@[w] == r@[i];
        }
        assert forall|p: Seq<char>| #[trigger] pkg_reported(rs, p)
            implies exists|i: int| 0 <= i < r@.len() && (#[trigger] r@[i]).pkg@ == p by {
            let t = choose|t: int| 0 <= t < tickets@.len() && (#[trigger] tickets@[t]).pkg@ == p;
            assert(r@.contains(tickets@[t]));
            let u = choose|u: int| 0 <= u < r@.len() && r@[u] == tickets@[t];
            assert(r@[u].pkg@ == p);
        }
    }
    r
}

/// Builds one ticket per package with at least one reported advisory,
/// from the accumulated per-package pair and maintainer lists.
#[verifier::loop_isolation(false)]
#[verifier::rlimit(100)]
fn build_all(
    iteration: u32,
    pkgmap: Vec<(Package, Vec<(Advisory, Branch)>)>,
    maintmap: Vec<(Package, Vec<Maintainer>)>,
    scores: &ScoreMap,
    descs: &DescMap,
    Ghost(rs): Ghost<Seq<(Branch, VulnixRes)>>,
) -> (r: Vec<Ticket>)
    requires
        scores@ == merged_scores(rs),
        descs@ == merged_descs(rs),
        forall|i: int, j: int| 0 <= i < j < pkgmap@.len()
            ==> (#[trigger] pkgmap@[i]).0@ != (#[trigger] pkgmap@[j]).0@,
        forall|i: int| 0 <= i < pkgmap@.len()
            ==> pair_views((#[trigger] pkgmap@[i]).1@) == pkg_pairs(rs, pkgmap@[i].0@),
        forall|p: Seq<char>| #[trigger] pkg_pairs(rs, p).len() > 0
            ==> exists|i: int| 0 <= i < pkgmap@.len() && (#[trigger] pkgmap@[i]).0@ == p,
        forall|i: int, j: int| 0 <= i < j < maintmap@.len()
            ==> (#[trigger] maintmap@[i]).0@ != (#[trigger] maintmap@[j]).0@,
        forall|i: int| 0 <= i < maintmap@.len()
            ==> m_views((#[trigger] maintmap@[i]).1@) == maints_for(rs, maintmap@[i].0@),
        forall|p: Seq<char>| #[trigger] maints_for(rs, p).len() > 0
            ==> exists|i: int| 0 <= i < maintmap@.len() && (#[trigger] maintmap@[i]).0@ == p,
    ensures
        forall|t: int| 0 <= t < r@.len()
            ==> ticket_ok(iteration, rs, #[trigger] r@[t]) && pkg_reported(rs, r@[t].pkg@),
        forall|t: int, u: int| 0 <= t < u < r@.len()
            ==> (#[trigger] r@[t]).pkg@ != (#[trigger] r@[u]).pkg@,
        forall|p: Seq<char>| #[trigger] pkg_pairs(rs, p).len() > 0
            ==> exists|t: int| 0 <= t < r@.len() && (#[trigger] r@[t]).pkg@ == p,
{
    let mut pm = pkgmap;
    let mut mm = maintmap;
    let ghost pkgorig = pm@;
    let ptotal: usize = pm.len();
    let mut tickets: Vec<Ticket> = Vec::new();
    let mut pi: usize = 0;
    while pm.len() > 0
        invariant
            0 <= pi <= ptotal,
            ptotal == pkgorig.len(),
            pi + pm@.len() == ptotal,
            pm@ == pkgorig.skip(pi as int),
            forall|i: int, j: int| 0 <= i < j < mm@.len()
                ==> (#[trigger] mm@[i]).0@ != (#[trigger] mm@[j]).0@,
            forall|i: int| 0 <= i < mm@.len()
                ==> m_views((#[trigger] mm@[i]).1@) == maints_for(rs, mm@[i].0@),
            forall|i: int| pi <= i < pkgorig.len() ==> (
                #[trigger] maints_for(rs, pkgorig[i].0@).len() > 0
                    ==> exists|m: int| 0 <= m < mm@.len()
                        && (#[trigger] mm@[m]).0@ == pkgorig[i].0@),
            forall|t: int| 0 <= t < tickets@.len()
                ==> ticket_ok(iteration, rs, #[trigger] tickets@[t])
                    && pkg_reported(rs, tickets@[t].pkg@),
            forall|t: int| 0 <= t < tickets@.len() ==> exists|m: int|
                0 <= m < pi && (#[trigger] tickets@[t]).pkg@ == pkgorig[m].0@,
            forall|t: int, u: int| 0 <= t < u < tickets@.len()
                ==> (#[trigger] tickets@[t]).pkg@ != (#[trigger] tickets@[u]).pkg@,
            forall|m: int| 0 <= m < pi ==> (#[trigger] pkg_pairs(rs, pkgorig[m].0@).len() > 0
                ==> exists|t: int| 0 <= t < tickets@.len()
                    && (#[trigger] tickets@[t]).pkg@ == pkgorig[m].0@),
        decreases pm@.len(),
    {
        proof {
            assert(pkgorig.skip(pi as int)[0] == pkgorig[pi as int]);
        }
        let (key, pairs) = pm.remove(0);
        proof {
            assert(pm@ =~= pkgorig.skip(pi + 1));
            assert(key == pkgorig[pi as int].0);
            assert(pairs@ == pkgorig[pi as int].1@);
            lemma_pair_views(pairs@);
        }
        let ghost prevt = tickets@;
        if pairs.len() > 0 {
            // collect this package's maintainers, if any were tracked
            let mut mi: usize = 0;
            let mn = mm.len();
            while mi < mn
                invariant
                    0 <= mi <= mn,
                    mn == mm@.len(),
                    forall|m: int| 0 <= m < mi ==> (#[trigger] mm@[m]).0@ != key@,
                decreases mn - mi,
            {
                if key.eq_str(mm[mi].0.as_str()) {
                    break;
                }
                mi = mi + 1;
            }
            let maints: Vec<Maintainer> = if mi < mn {
                let ghost oldmm = mm@;
                let (_, mv) = mm.remove(mi);
                proof {
                    assert(forall|m: int| 0 <= m < mi ==> #[trigger] mm@[m] == oldmm[m]);
                    assert(forall|m: int| mi <= m < mm@.len()
                        ==> #[trigger] mm@[m] == oldmm[m + 1]);
                    assert(m_views(mv@) == maints_for(rs, key@));
                    assert forall|i: int| pi + 1 <= i < pkgorig.len() && #[trigger] maints_for(
                        rs,
                        pkgorig[i].0@,
                    ).len() > 0 implies exists|m: int| 0 <= m < mm@.len()
                        && (#[trigger] mm@[m]).0@ == pkgorig[i].0@ by {
                        let w = choose|w: int| 0 <= w < oldmm.len()
                            && (#[trigger] oldmm[w]).0@ == pkgorig[i].0@;
                        assert(oldmm[mi as int].0@ == key@);
                        assert(pkgorig[pi as int].0@ != pkgorig[i].0@);
                        assert(w != mi);
                        if w < mi {
                            assert(mm@[w].0@ == pkgorig[i].0@);
                        } else {
                            assert(mm@[w - 1].0@ == pkgorig[i].0@);
                        }
                    }
                }
                mv
            } else {
                proof {
                    if maints_for(rs, key@).len() > 0 {
                        let w = choose|m: int| 0 <= m < mm@.len()
                            && (#[trigger] mm@[m]).0@ == key@;
                        assert(false);
                    }
                    assert(maints_for(rs, key@) =~= Seq::<MaintView>::empty());
                }
                Vec::new()
            };
            proof {
                assert(m_views(maints@) == maints_for(rs, key@)) by {
                    if maints@.len() == 0 && maints_for(rs, key@).len() == 0 {
                        assert(m_views(maints@) =~= maints_for(rs, key@));
                    }
                }
            }
            let t = build_ticket(iteration, key, pairs, scores, descs, maints, Ghost(rs));
            tickets.push(t);
            proof {
                assert(forall|u: int| 0 <= u < prevt.len()
                    ==> #[trigger] tickets@[u] == prevt[u]);
                assert(tickets@.last() == t);
                assert(t.pkg@ == pkgorig[pi as int].0@);
                assert(pkg_reported(rs, t.pkg@)) by {
                    assert(pair_views(pkgorig[pi as int].1@).len() > 0);
                }
                assert forall|m: int| 0 <= m < pi + 1 implies (
                    #[trigger] pkg_pairs(rs, pkgorig[m].0@).len() > 0
                        ==> exists|t2: int| 0 <= t2 < tickets@.len()
                            && (#[trigger] tickets@[t2]).pkg@ == pkgorig[m].0@) by {
                    if m == pi {
                        assert(tickets@[tickets@.len() - 1].pkg@ == pkgorig[m].0@);
                    } else if pkg_pairs(rs, pkgorig[m].0@).len() > 0 {
                        let w = choose|t2: int| 0 <= t2 < prevt.len()
                            && (#[trigger] prevt[t2]).pkg@ == pkgorig[m].0@;
                        assert(tickets@[w].pkg@ == pkgorig[m].0@);
                    }
                }
            }
        } else {
            proof {
                assert(pkg_pairs(rs, pkgorig[pi as int].0@).len() == 0) by {
                    assert(pair_views(pkgorig[pi as int].1@).len() == 0);
                }
                assert forall|m: int| 0 <= m < pi + 1 implies (
                    #[trigger] pkg_pairs(rs, pkgorig[m].0@).len() > 0
                        ==> exists|t2: int| 0 <= t2 < tickets@.len()
                            && (#[trigger] tickets@[t2]).pkg@ == pkgorig[m].0@) by {
                }
            }
        }
        pi = pi + 1;
    }
    proof {
        assert forall|p: Seq<char>| #[trigger] pkg_pairs(rs, p).len() > 0
            implies exists|t: int| 0 <= t < tickets@.len()
                && (#[trigger] tickets@[t]).pkg@ == p by {
            let w = choose|i: int| 0 <= i < pkgorig.len() && (#[trigger] pkgorig[i]).0@ == p;
        }
    }
    tickets
}

/// Extending the flattened prefix by one branch appends that branch's
/// results.
proof fn lemma_flat_prefix_step(sbb: Seq<(Branch, Vec<VulnixRes>)>, k: int)
    requires
        0 <= k < sbb.len(),
    ensures
        flat(sbb.subrange(0, k + 1)) == flat(sbb.subrange(0, k)) + with_branch(sbb[k]),
    decreases k,
{
    if k == 0 {
        assert(sbb.subrange(0, 1) =~= seq![sbb[0]]);
        assert(sbb.subrange(0, 0) =~= Seq::<(Branch, Vec<VulnixRes>)>::empty());
        assert(seq![sbb[0]].skip(1) =~= Seq::<(Branch, Vec<VulnixRes>)>::empty());
        assert(flat(sbb.subrange(0, 1)) =~= with_branch(sbb[0]));
        assert(flat(sbb.subrange(0, 0)) + with_branch(sbb[0]) =~= with_branch(sbb[0]));
    } else {
        lemma_flat_prefix_step(sbb.skip(1), k - 1);
        let a = sbb.subrange(0, k + 1);
        let b = sbb.subrange(0, k);
        assert(a.skip(1) =~= sbb.skip(1).subrange(0, k));
        assert(b.skip(1) =~= sbb.skip(1).subrange(0, k - 1));
        assert(a[0] == sbb[0] && b[0] == sbb[0]);
        assert(flat(a) == with_branch(sbb[0]) + flat(sbb.skip(1).subrange(0, k)));
        assert(flat(b) == with_branch(sbb[0]) + flat(sbb.skip(1).subrange(0, k - 1)));
        assert(sbb.skip(1)[k - 1] == sbb[k]);
        assert(flat(sbb.subrange(0, k + 1)) =~= flat(sbb.subrange(0, k)) + with_branch(sbb[k]));
    }
}

/// `e` inserted into `s` before the first entry it precedes or equals in
/// the listing order.
pub open spec fn ent_insert(e: (Advisory, Detail), s: Seq<(Advisory, Detail)>) -> Seq<(Advisory, Detail)>
    decreases s.len(),
{
    if s.len() == 0 {
        seq![e]
    } else if entry_le(e, s[0]) {
        seq![e] + s
    } else {
        seq![s[0]] + ent_insert(e, s.skip(1))
    }
}

/// The entries sorted in the listing order: each inserted in turn.
pub open spec fn ent_sort(s: Seq<(Advisory, Detail)>) -> Seq<(Advisory, Detail)>
    decreases s.len(),
{
    if s.len() == 0 {
        Seq::empty()
    } else {
        ent_insert(s.last(), ent_sort(s.drop_last()))
    }
}

/// Inserting at the scanned position is the spec-level insertion.
proof fn lemma_ent_insert_at(e: (Advisory, Detail), s: Seq<(Advisory, Detail)>, pos: int)
    requires
        0 <= pos <= s.len(),
        forall|j: int| 0 <= j < pos ==> !entry_le(e, #[trigger] s[j]),
        pos == s.len() || entry_le(e, s[pos]),
    ensures
        ent_insert(e, s) == s.subrange(0, pos) + seq![e] + s.skip(pos),
    decreases pos,
{
    if pos == 0 {
        assert(ent_insert(e, s) =~= s.subrange(0, 0) + seq![e] + s.skip(0));
    } else {
        lemma_ent_insert_at(e, s.skip(1), pos - 1);
        assert(s.skip(1).subrange(0, pos - 1) =~= s.subrange(1, pos));
        assert(s.skip(1).skip(pos - 1) =~= s.skip(pos));
        assert(seq![s[0]] + (s.subrange(1, pos) + seq![e] + s.skip(pos))
            =~= s.subrange(0, pos) + seq![e] + s.skip(pos));
    }
}

/// The dereferenced values of a list of borrowed entries.
pub open spec fn derefs(s: Seq<&(Advisory, Detail)>) -> Seq<(Advisory, Detail)> {
    s.map_values(|x: &(Advisory, Detail)| *x)
}

/// The dereferenced values are the values of the elements.
proof fn lemma_derefs(s: Seq<&(Advisory, Detail)>)
    ensures
        derefs(s).len() == s.len(),
        forall|i: int| 0 <= i < s.len() ==> #[trigger] derefs(s)[i] == *s[i],
{
}

/// Sorts borrowed entries in the listing order.
#[verifier::loop_isolation(false)]
#[verifier::rlimit(60)]
fn sort_entries<'a>(v: &'a Vec<(Advisory, Detail)>) -> (r: Vec<&'a (Advisory, Detail)>)
    ensures
        derefs(r@) == ent_sort(v@),
{
    let n = v.len();
    let mut out: Vec<&(Advisory, Detail)> = Vec::new();
    let mut i: usize = 0;
    proof {
        lemma_derefs(out@);
        assert(derefs(out@) =~= ent_sort(v@.subrange(0, 0)));
    }
    while i < n
        invariant
            0 <= i <= n,
            n == v@.len(),
            derefs(out@) == ent_sort(v@.subrange(0, i as int)),
        decreases n - i,
    {
        let e = &v[i];
        let mut pos: usize = 0;
        while pos < out.len()
            invariant
                0 <= pos <= out@.len(),
                forall|j: int| 0 <= j < pos ==> !entry_le(v@[i as int], #[trigger] derefs(out@)[j]),
            decreases out@.len() - pos,
        {
            proof {
                lemma_derefs(out@);
            }
            if matches!(cmp_score(e, out[pos]), Ordering::Less | Ordering::Equal) {
                break;
            }
            pos = pos + 1;
        }
        let ghost before = out@;
        proof {
            lemma_derefs(before);
        }
        out.insert(pos, e);
        proof {
            lemma_derefs(out@);
            lemma_ent_insert_at(v@[i as int], derefs(before), pos as int);
            assert(derefs(out@) =~= derefs(before).subrange(0, pos as int)
                + seq![v@[i as int]] + derefs(before).skip(pos as int)) by {
                assert(forall|j: int| 0 <= j < pos ==> #[trigger] out@[j] == before[j]);
                assert(forall|j: int| pos < j < out@.len() ==> #[trigger] out@[j] == before[j - 1]);
                assert(*out@[pos as int] == v@[i as int]);
            }
            assert(v@.subrange(0, i + 1).drop_last() =~= v@.subrange(0, i as int));
            assert(v@.subrange(0, i + 1).last() == v@[i as int]);
        }
        i = i + 1;
    }
    proof {
        assert(v@.subrange(0, i as int) =~= v@);
    }
    out
}

/// The branch names of `bs`, each name kept once per run of equal names.
pub open spec fn names_dedup(bs: Seq<Branch>) -> Seq<Seq<char>>
    decreases bs.len(),
{
    if bs.len() == 0 {
        Seq::empty()
    } else if bs.len() >= 2 && bs[0].name@ == bs[1].name@ {
        names_dedup(bs.skip(1))
    } else {
        seq![bs[0].name@] + names_dedup(bs.skip(1))
    }
}

/// The rest of a joined list: a separator before each element.
pub open spec fn join_rest(ss: Seq<Seq<char>>, sep: Seq<char>) -> Seq<char>
    decreases ss.len(),
{
    if ss.len() == 0 {
        Seq::empty()
    } else {
        sep + ss[0] + join_rest(ss.skip(1), sep)
    }
}

/// The elements of `ss` joined by the separator.
pub open spec fn join_with(ss: Seq<Seq<char>>, sep: Seq<char>) -> Seq<char> {
    if ss.len() == 0 {
        Seq::empty()
    } else {
        ss[0] + join_rest(ss.skip(1), sep)
    }
}

/// Rendered form of an advisory identifier.
pub open spec fn adv_str(a: Advisory) -> Seq<char> {
    adv_rep(a.0 as nat, a.1 as nat)
}

/// Rendered form of one aggregate: the score, if any, then the sorted,
/// deduplicated branch names in parentheses.
pub open spec fn detail_rep(d: Detail) -> Seq<char> {
    (match d.score {
        Some(t) => "CVSSv3="@ + score_rep(t) + " "@,
        None => Seq::<char>::empty(),
    }) + "("@ + join_with(names_dedup(d.branches@), ", "@) + ")"@
}

/// One advisory line of the ticket body.
pub open spec fn adv_line(e: (Advisory, Detail)) -> Seq<char> {
    "* [ ] ["@ + adv_str(e.0) + "](https://nvd.nist.gov/vuln/detail/"@ + adv_str(e.0) + ") "@
        + detail_rep(e.1) + "\n"@
}

/// The advisory lines of the listed entries.
pub open spec fn adv_lines(es: Seq<(Advisory, Detail)>) -> Seq<char>
    decreases es.len(),
{
    if es.len() == 0 {
        Seq::empty()
    } else {
        adv_line(es[0]) + adv_lines(es.skip(1))
    }
}

/// The description subsections of the listed entries.
pub open spec fn desc_sections(es: Seq<(Advisory, Detail)>) -> Seq<char>
    decreases es.len(),
{
    if es.len() == 0 {
        Seq::empty()
    } else {
        (match es[0].1.description {
            Some(d) => "\n### "@ + adv_str(es[0].0) + "\n\n"@ + d@ + "\n"@,
            None => Seq::<char>::empty(),
        }) + desc_sections(es.skip(1))
    }
}

/// Does any listed entry carry a description?
pub open spec fn any_description(es: Seq<(Advisory, Detail)>) -> bool {
    exists|i: int| 0 <= i < es.len() && (#[trigger] es[i]).1.description is Some
}

/// The details section: present only when some entry has a description.
pub open spec fn details_rep(es: Seq<(Advisory, Detail)>) -> Seq<char> {
    if any_description(es) {
        "\n## CVE details\n"@ + desc_sections(es)
    } else {
        Seq::<char>::empty()
    }
}

/// The `name: shortened-revision` line of one branch.
pub open spec fn version_str(b: Branch) -> Seq<char> {
    b.name@ + ": "@ + b.rev@.subrange(0, 11)
}

/// The version strings of all branches of one aggregate.
pub open spec fn detail_versions(bs: Seq<Branch>) -> Seq<Seq<char>>
    decreases bs.len(),
{
    if bs.len() == 0 {
        Seq::empty()
    } else {
        seq![version_str(bs[0])] + detail_versions(bs.skip(1))
    }
}

/// The version strings of all branches of all entries, in entry order.
pub open spec fn all_versions(es: Seq<(Advisory, Detail)>) -> Seq<Seq<char>>
    decreases es.len(),
{
    if es.len() == 0 {
        Seq::empty()
    } else {
        detail_versions(es[0].1.branches@) + all_versions(es.skip(1))
    }
}

/// The footer: the sorted, deduplicated scanned versions.
pub open spec fn footer_rep(es: Seq<(Advisory, Detail)>) -> Seq<char> {
    "\n-----\nScanned versions: "@
        + join_with(crate::source::sseq_dedup(crate::source::sseq_sort(all_versions(es))), "; "@)
        + ".\n\n"@
}

/// The notification lines: one per maintainer contact handle.
pub open spec fn cc_rep(handles: Seq<Seq<char>>) -> Seq<char>
    decreases handles.len(),
{
    if handles.len() == 0 {
        Seq::empty()
    } else {
        "Cc @"@ + handles[0] + "\n"@ + cc_rep(handles.skip(1))
    }
}

/// The opening line of the ticket body, linking to searches for the
/// package name.
pub open spec fn head_rep(p: Seq<char>) -> Seq<char> {
    "[search](https://search.nix.gsc.io/?q="@ + p
        + "&i=fosho&repos=NixOS-nixpkgs), [files](https://github.com/NixOS/nixpkgs/search?utf8=%E2%9C%93&q="@
        + p + "+in%3Apath&type=Code)\n\n"@
}

/// The full rendered ticket body: the search links, the advisory lines in
/// the listing order, the description subsections in the same order, the
/// scanned versions, and, when notifying, one line per maintainer contact.
pub open spec fn render_rep(t: Ticket, notify: bool) -> Seq<char> {
    head_rep(pname_of(t.pkg@)) + adv_lines(ent_sort(t.affected@))
        + details_rep(ent_sort(t.affected@)) + footer_rep(t.affected@)
        + (if notify {
            cc_rep(contacts_of_seq(m_views(t.maintainers@)))
        } else {
            Seq::<char>::empty()
        })
}

/// One step of a left-recursive concatenation over entries.
proof fn lemma_adv_lines_step(es: Seq<(Advisory, Detail)>, k: int)
    requires
        0 <= k < es.len(),
    ensures
        adv_lines(es.subrange(0, k + 1)) == adv_lines(es.subrange(0, k)) + adv_line(es[k]),
    decreases k,
{
    if k == 0 {
        assert(es.subrange(0, 1) =~= seq![es[0]]);
        assert(es.subrange(0, 1).skip(1) =~= Seq::<(Advisory, Detail)>::empty());
        assert(es.subrange(0, 1)[0] == es[0]);
        assert(adv_lines(Seq::<(Advisory, Detail)>::empty()) =~= Seq::<char>::empty());
        assert(adv_lines(es.subrange(0, 1)) =~= adv_line(es[0]));
        assert(adv_lines(es.subrange(0, 0)) + adv_line(es[0]) =~= adv_line(es[0]));
    } else {
        lemma_adv_lines_step(es.skip(1), k - 1);
        let a = es.subrange(0, k + 1);
        let b = es.subrange(0, k);
        assert(a.skip(1) =~= es.skip(1).subrange(0, k));
        assert(b.skip(1) =~= es.skip(1).subrange(0, k - 1));
        assert(a[0] == es[0] && b[0] == es[0]);
        assert(es.skip(1)[k - 1] == es[k]);
        assert(adv_lines(es.subrange(0, k + 1))
            =~= adv_lines(es.subrange(0, k)) + adv_line(es[k]));
    }
}

/// One step of the description subsections.
proof fn lemma_desc_sections_step(es: Seq<(Advisory, Detail)>, k: int)
    requires
        0 <= k < es.len(),
    ensures
        desc_sections(es.subrange(0, k + 1)) == desc_sections(es.subrange(0, k))
            + (match es[k].1.description {
                Some(d) => "\n### "@ + adv_str(es[k].0) + "\n\n"@ + d@ + "\n"@,
                None => Seq::<char>::empty(),
            }),
    decreases k,
{
    if k == 0 {
        assert(es.subrange(0, 1) =~= seq![es[0]]);
        assert(es.subrange(0, 1).skip(1) =~= Seq::<(Advisory, Detail)>::empty());
        assert(es.subrange(0, 1)[0] == es[0]);
        assert(desc_sections(Seq::<(Advisory, Detail)>::empty()) =~= Seq::<char>::empty());
        assert(desc_sections(es.subrange(0, 0)) =~= Seq::<char>::empty());
        assert(desc_sections(es.subrange(0, 1)) =~= desc_sections(es.subrange(0, 0))
            + (match es[0].1.description {
                Some(d) => "\n### "@ + adv_str(es[0].0) + "\n\n"@ + d@ + "\n"@,
                None => Seq::<char>::empty(),
            }));
    } else {
        lemma_desc_sections_step(es.skip(1), k - 1);
        let a = es.subrange(0, k + 1);
        let b = es.subrange(0, k);
        assert(a.skip(1) =~= es.skip(1).subrange(0, k));
        assert(b.skip(1) =~= es.skip(1).subrange(0, k - 1));
        assert(a[0] == es[0] && b[0] == es[0]);
        assert(es.skip(1)[k - 1] == es[k]);
        assert(desc_sections(es.subrange(0, k + 1)) =~= desc_sections(es.subrange(0, k))
            + (match es[k].1.description {
                Some(d) => "\n### "@ + adv_str(es[k].0) + "\n\n"@ + d@ + "\n"@,
                None => Seq::<char>::empty(),
            }));
    }
}

/// One step of the collected version strings.
proof fn lemma_all_versions_step(es: Seq<(Advisory, Detail)>, k: int)
    requires
        0 <= k < es.len(),
    ensures
        all_versions(es.subrange(0, k + 1)) == all_versions(es.subrange(0, k))
            + detail_versions(es[k].1.branches@),
    decreases k,
{
    if k == 0 {
        assert(es.subrange(0, 1) =~= seq![es[0]]);
        assert(es.subrange(0, 1).skip(1) =~= Seq::<(Advisory, Detail)>::empty());
        assert(es.subrange(0, 1)[0] == es[0]);
        assert(all_versions(Seq::<(Advisory, Detail)>::empty()) =~= Seq::<Seq<char>>::empty());
        assert(all_versions(es.subrange(0, 1))
            =~= detail_versions(es[0].1.branches@));
        assert(all_versions(es.subrange(0, 0)) + detail_versions(es[0].1.branches@)
            =~= detail_versions(es[0].1.branches@));
    } else {
        lemma_all_versions_step(es.skip(1), k - 1);
        let a = es.subrange(0, k + 1);
        let b = es.subrange(0, k);
        assert(a.skip(1) =~= es.skip(1).subrange(0, k));
        assert(b.skip(1) =~= es.skip(1).subrange(0, k - 1));
        assert(a[0] == es[0] && b[0] == es[0]);
        assert(es.skip(1)[k - 1] == es[k]);
        assert(all_versions(es.subrange(0, k + 1)) =~= all_versions(es.subrange(0, k))
            + detail_versions(es[k].1.branches@));
    }
}

/// One step of the per-branch version strings.
proof fn lemma_detail_versions_step(bs: Seq<Branch>, k: int)
    requires
        0 <= k < bs.len(),
    ensures
        detail_versions(bs.subrange(0, k + 1)) == detail_versions(bs.subrange(0, k))
            + seq![version_str(bs[k])],
    decreases k,
{
    if k == 0 {
        assert(bs.subrange(0, 1) =~= seq![bs[0]]);
        assert(bs.subrange(0, 1).skip(1) =~= Seq::<Branch>::empty());
        assert(bs.subrange(0, 1)[0] == bs[0]);
        assert(detail_versions(Seq::<Branch>::empty()) =~= Seq::<Seq<char>>::empty());
        assert(detail_versions(bs.subrange(0, 1)) =~= seq![version_str(bs[0])]);
        assert(detail_versions(bs.subrange(0, 0)) + seq![version_str(bs[0])]
            =~= seq![version_str(bs[0])]);
    } else {
        lemma_detail_versions_step(bs.skip(1), k - 1);
        let a = bs.subrange(0, k + 1);
        let b = bs.subrange(0, k);
        assert(a.skip(1) =~= bs.skip(1).subrange(0, k));
        assert(b.skip(1) =~= bs.skip(1).subrange(0, k - 1));
        assert(a[0] == bs[0] && b[0] == bs[0]);
        assert(bs.skip(1)[k - 1] == bs[k]);
        assert(detail_versions(bs.subrange(0, k + 1)) =~= detail_versions(bs.subrange(0, k))
            + seq![version_str(bs[k])]);
    }
}

/// One step of the notification lines.
proof fn lemma_cc_rep_step(hs: Seq<Seq<char>>, k: int)
    requires
        0 <= k < hs.len(),
    ensures
        cc_rep(hs.subrange(0, k + 1)) == cc_rep(hs.subrange(0, k)) + "Cc @"@ + hs[k] + "\n"@,
    decreases k,
{
    if k == 0 {
        assert(hs.subrange(0, 1) =~= seq![hs[0]]);
        assert(hs.subrange(0, 1).skip(1) =~= Seq::<Seq<char>>::empty());
        assert(hs.subrange(0, 1)[0] == hs[0]);
        assert(cc_rep(Seq::<Seq<char>>::empty()) =~= Seq::<char>::empty());
        assert(cc_rep(hs.subrange(0, 1)) =~= "Cc @"@ + hs[0] + "\n"@);
        assert(cc_rep(hs.subrange(0, 0)) + "Cc @"@ + hs[0] + "\n"@
            =~= "Cc @"@ + hs[0] + "\n"@);
    } else {
        lemma_cc_rep_step(hs.skip(1), k - 1);
        let a = hs.subrange(0, k + 1);
        let b = hs.subrange(0, k);
        assert(a.skip(1) =~= hs.skip(1).subrange(0, k));
        assert(b.skip(1) =~= hs.skip(1).subrange(0, k - 1));
        assert(a[0] == hs[0] && b[0] == hs[0]);
        assert(hs.skip(1)[k - 1] == hs[k]);
        assert(cc_rep(hs.subrange(0, k + 1)) =~= cc_rep(hs.subrange(0, k))
            + "Cc @"@ + hs[k] + "\n"@);
    }
}

/// One step of the joined rest.
proof fn lemma_join_rest_step(ss: Seq<Seq<char>>, sep: Seq<char>, k: int)
    requires
        0 <= k < ss.len(),
    ensures
        join_rest(ss.subrange(0, k + 1), sep) == join_rest(ss.subrange(0, k), sep)
            + sep + ss[k],
    decreases k,
{
    if k == 0 {
        assert(ss.subrange(0, 1) =~= seq![ss[0]]);
        assert(ss.subrange(0, 1).skip(1) =~= Seq::<Seq<char>>::empty());
        assert(ss.subrange(0, 1)[0] == ss[0]);
        assert(join_rest(Seq::<Seq<char>>::empty(), sep) =~= Seq::<char>::empty());
        assert(join_rest(ss.subrange(0, 1), sep) =~= sep + ss[0]);
        assert(join_rest(ss.subrange(0, 0), sep) + sep + ss[0] =~= sep + ss[0]);
    } else {
        lemma_join_rest_step(ss.skip(1), sep, k - 1);
        let a = ss.subrange(0, k + 1);
        let b = ss.subrange(0, k);
        assert(a.skip(1) =~= ss.skip(1).subrange(0, k));
        assert(b.skip(1) =~= ss.skip(1).subrange(0, k - 1));
        assert(a[0] == ss[0] && b[0] == ss[0]);
        assert(ss.skip(1)[k - 1] == ss[k]);
        assert(join_rest(ss.subrange(0, k + 1), sep) =~= join_rest(ss.subrange(0, k), sep)
            + sep + ss[k]);
    }
}

/// Appends the items joined by the separator.
#[verifier::loop_isolation(false)]
fn append_joined(s: &mut String, items: &Vec<String>, sep: &str)
    ensures
        final(s)@ == old(s)@ + join_with(str_views(items@), sep@),
{
    let n = items.len();
    if n == 0 {
        proof {
            assert(old(s)@ + join_with(str_views(items@), sep@) =~= old(s)@) by {
                lemma_str_views(items@);
            }
        }
        return;
    }
    proof {
        lemma_str_views(items@);
    }
    s.append(items[0].as_str());
    let mut m: usize = 1;
    proof {
        assert(str_views(items@).subrange(1, 1) =~= Seq::<Seq<char>>::empty());
        assert(s@ =~= old(s)@ + items@[0]@
            + join_rest(str_views(items@).skip(1).subrange(0, 0), sep@));
    }
    while m < n
        invariant
            1 <= m <= n,
            n == items@.len(),
            s@ == old(s)@ + items@[0]@
                + join_rest(str_views(items@).skip(1).subrange(0, m - 1), sep@),
        decreases n - m,
    {
        s.append(sep);
        s.append(items[m].as_str());
        proof {
            lemma_str_views(items@);
            lemma_join_rest_step(str_views(items@).skip(1), sep@, m - 1);
            assert(str_views(items@).skip(1)[m - 1] == items@[m as int]@);
            assert(s@ =~= old(s)@ + items@[0]@
                + join_rest(str_views(items@).skip(1).subrange(0, m as int), sep@));
        }
        m = m + 1;
    }
    proof {
        lemma_str_views(items@);
        assert(str_views(items@).skip(1).subrange(0, m - 1) =~= str_views(items@).skip(1));
        assert(str_views(items@)[0] == items@[0]@);
        assert(s@ =~= old(s)@ + join_with(str_views(items@), sep@));
    }
}

/// The sorted, deduplicated branch names of one aggregate.
#[verifier::loop_isolation(false)]
fn dedup_names(bs: &Vec<Branch>) -> (r: Vec<String>)
    ensures
        str_views(r@) == names_dedup(bs@),
{
    let ghost whole = bs@;
    let mut out: Vec<String> = Vec::new();
    let mut k: usize = 0;
    proof {
        lemma_str_views(out@);
        assert(whole.skip(0) =~= whole);
        assert(str_views(out@) + names_dedup(whole.skip(0)) =~= names_dedup(whole));
    }
    while k < bs.len()
        invariant
            0 <= k <= whole.len(),
            whole == bs@,
            str_views(out@) + names_dedup(whole.skip(k as int)) == names_dedup(whole),
        decreases whole.len() - k,
    {
        proof {
            assert(whole.skip(k as int)[0] == whole[k as int]);
        }
        if k + 1 < bs.len() && crate::text::str_eq(bs[k].name.as_str(), bs[k + 1].name.as_str()) {
            proof {
                assert(whole.skip(k as int)[1] == whole[k + 1]);
                assert(whole.skip(k as int).skip(1) =~= whole.skip(k + 1));
            }
        } else {
            let ghost pre = out@;
            let c = bs[k].name.clone();
            out.push(c);
            proof {
                lemma_str_views(pre);
                lemma_str_views(out@);
                if k + 1 < whole.len() {
                    assert(whole.skip(k as int)[1] == whole[k + 1]);
                }
                assert(forall|j: int| 0 <= j < pre.len() ==> #[trigger] out@[j] == pre[j]);
                assert(str_views(out@) =~= str_views(pre) + seq![whole[k as int].name@]);
                assert(whole.skip(k as int).skip(1) =~= whole.skip(k + 1));
                assert(str_views(out@) + names_dedup(whole.skip(k + 1)) =~= names_dedup(whole));
            }
        }
        k = k + 1;
    }
    proof {
        assert(whole.skip(k as int).len() == 0);
        assert(str_views(out@) + names_dedup(whole.skip(k as int)) =~= str_views(out@));
    }
    out
}

impl Ticket {
    /// Renders the ticket body: the search links, one line per advisory in
    /// the listing order, the description subsections, the scanned
    /// versions, and, when notifying, one line per maintainer contact.
    /// Every branch revision must carry at least the eleven characters
    /// that the footer shows.
    #[verifier::loop_isolation(false)]
    #[verifier::rlimit(100)]
    pub fn render(&self, notify: bool) -> (r: String)
        requires
            forall|i: int, j: int|
                #![trigger self.affected@[i].1.branches@[j]]
                0 <= i < self.affected@.len()
                    && 0 <= j < self.affected@[i].1.branches@.len()
                    ==> self.affected@[i].1.branches@[j].rev@.len() >= 11,
        ensures
            r@ == render_rep(*self, notify),
    {
        proof {
            reveal_strlit("[search](https://search.nix.gsc.io/?q=");
            reveal_strlit("&i=fosho&repos=NixOS-nixpkgs), [files](https://github.com/NixOS/nixpkgs/search?utf8=%E2%9C%93&q=");
            reveal_strlit("+in%3Apath&type=Code)\n\n");
            reveal_strlit("* [ ] [");
            reveal_strlit("](https://nvd.nist.gov/vuln/detail/");
            reveal_strlit(") ");
            reveal_strlit("CVSSv3=");
            reveal_strlit(" ");
            reveal_strlit("(");
            reveal_strlit(")");
            reveal_strlit(", ");
            reveal_strlit("\n");
            reveal_strlit("\n## CVE details\n");
            reveal_strlit("\n### ");
            reveal_strlit("\n\n");
            reveal_strlit("\n-----\nScanned versions: ");
            reveal_strlit("; ");
            reveal_strlit(".\n\n");
            reveal_strlit("Cc @");
            reveal_strlit(": ");
        }
        let mut s = String::new();
        s.append("[search](https://search.nix.gsc.io/?q=");
        s.append(self.pkg.pname());
        s.append("&i=fosho&repos=NixOS-nixpkgs), [files](https://github.com/NixOS/nixpkgs/search?utf8=%E2%9C%93&q=");
        s.append(self.pkg.pname());
        s.append("+in%3Apath&type=Code)\n\n");
        proof {
            assert(s@ =~= head_rep(pname_of(self.pkg@)));
        }
        let ghost head_done = s@;
        // advisory lines, most severe first
        let sorted = sort_entries(&self.affected);
        let ghost es = ent_sort(self.affected@);
        let sn = sorted.len();
        proof {
            lemma_derefs(sorted@);
            assert(es.subrange(0, 0) =~= Seq::<(Advisory, Detail)>::empty());
            assert(s@ =~= head_done + adv_lines(es.subrange(0, 0)));
        }
        let mut k: usize = 0;
        while k < sn
            invariant
                0 <= k <= sn,
                sn == es.len(),
                derefs(sorted@) == es,
                sn == sorted@.len(),
                s@ == head_done + adv_lines(es.subrange(0, k as int)),
            decreases sn - k,
        {
            proof {
                lemma_derefs(sorted@);
            }
            let e = sorted[k];
            s.append("* [ ] [");
            let astr = e.0.to_string();
            s.append(astr.as_str());
            s.append("](https://nvd.nist.gov/vuln/detail/");
            s.append(astr.as_str());
            s.append(") ");
            match e.1.score {
                Some(t) => {
                    s.append("CVSSv3=");
                    let sc = score_str(t);
                    s.append(sc.as_str());
                    s.append(" ");
                }
                None => {}
            }
            s.append("(");
            let names = dedup_names(&e.1.branches);
            append_joined(&mut s, &names, ", ");
            s.append(")");
            s.append("\n");
            proof {
                lemma_adv_lines_step(es, k as int);
                assert(s@ =~= head_done + adv_lines(es.subrange(0, k + 1)));
            }
            k = k + 1;
        }
        proof {
            assert(es.subrange(0, k as int) =~= es);
        }
        let ghost lines_done = s@;
        // description subsections
        let mut any: bool = false;
        let mut k2: usize = 0;
        while k2 < sn
            invariant
                0 <= k2 <= sn,
                derefs(sorted@) == es,
                sn == sorted@.len(),
                sn == es.len(),
                any == exists|i: int| 0 <= i < k2 && (#[trigger] es[i]).1.description is Some,
            decreases sn - k2,
        {
            proof {
                lemma_derefs(sorted@);
            }
            let found = match &sorted[k2].1.description {
                Some(_) => true,
                None => false,
            };
            proof {
                assert(found == (es[k2 as int].1.description is Some));
            }
            if found {
                any = true;
            }
            k2 = k2 + 1;
        }
        proof {
            assert(any == any_description(es));
        }
        if any {
            s.append("\n## CVE details\n");
            let ghost details_base = s@;
            proof {
                assert(desc_sections(es.subrange(0, 0)) =~= Seq::<char>::empty());
                assert(s@ =~= details_base + desc_sections(es.subrange(0, 0)));
            }
            let mut k3: usize = 0;
            while k3 < sn
                invariant
                    0 <= k3 <= sn,
                    derefs(sorted@) == es,
                    sn == sorted@.len(),
                    sn == es.len(),
                    s@ == details_base + desc_sections(es.subrange(0, k3 as int)),
                decreases sn - k3,
            {
                proof {
                    lemma_derefs(sorted@);
                }
                match &sorted[k3].1.description {
                    Some(d) => {
                        s.append("\n### ");
                        let astr = sorted[k3].0.to_string();
                        s.append(astr.as_str());
                        s.append("\n\n");
                        s.append(d.as_str());
                        s.append("\n");
                    }
                    None => {}
                }
                proof {
                    lemma_desc_sections_step(es, k3 as int);
                    assert(s@ =~= details_base + desc_sections(es.subrange(0, k3 + 1)));
                }
                k3 = k3 + 1;
            }
            proof {
                assert(es.subrange(0, k3 as int) =~= es);
                assert(s@ =~= lines_done + details_rep(es));
            }
        } else {
            proof {
                assert(s@ =~= lines_done + details_rep(es));
            }
        }
        let ghost details_done = s@;
        // footer with the scanned versions
        let mut versions: Vec<String> = Vec::new();
        let an = self.affected.len();
        let mut v1: usize = 0;
        proof {
            lemma_str_views(versions@);
            assert(all_versions(self.affected@.subrange(0, 0)) =~= Seq::<Seq<char>>::empty());
            assert(str_views(versions@) =~= all_versions(self.affected@.subrange(0, 0)));
        }
        while v1 < an
            invariant
                0 <= v1 <= an,
                an == self.affected@.len(),
                str_views(versions@) == all_versions(self.affected@.subrange(0, v1 as int)),
            decreases an - v1,
        {
            let bs = &self.affected[v1].1.branches;
            let bn = bs.len();
            let mut v2: usize = 0;
            let ghost vbase = str_views(versions@);
            proof {
                assert(detail_versions(bs@.subrange(0, 0)) =~= Seq::<Seq<char>>::empty());
                assert(str_views(versions@) =~= vbase + detail_versions(bs@.subrange(0, 0)));
            }
            while v2 < bn
                invariant
                    0 <= v2 <= bn,
                    bn == bs@.len(),
                    0 <= v1 < an,
                    an == self.affected@.len(),
                    bs == &self.affected[v1 as int].1.branches,
                    str_views(versions@) == vbase + detail_versions(bs@.subrange(0, v2 as int)),
                decreases bn - v2,
            {
                let b = &bs[v2];
                let mut line = b.name.clone();
                line.append(": ");
                let shortrev = b.rev.as_str().substring_char(0, 11);
                line.append(shortrev);
                proof {
                    assert(line@ =~= version_str(bs@[v2 as int]));
                }
                let ghost pre = versions@;
                versions.push(line);
                proof {
                    lemma_str_views(pre);
                    lemma_str_views(versions@);
                    assert(forall|j: int| 0 <= j < pre.len()
                        ==> #[trigger] versions@[j] == pre[j]);
                    assert(forall|j: int| 0 <= j < pre.len()
                        ==> #[trigger] str_views(versions@)[j] == str_views(pre)[j]);
                    lemma_detail_versions_step(bs@, v2 as int);
                    assert(str_views(versions@)
                        =~= vbase + detail_versions(bs@.subrange(0, v2 + 1)));
                }
                v2 = v2 + 1;
            }
            proof {
                assert(bs@.subrange(0, v2 as int) =~= bs@);
                lemma_all_versions_step(self.affected@, v1 as int);
                assert(str_views(versions@)
                    =~= all_versions(self.affected@.subrange(0, v1 + 1)));
            }
            v1 = v1 + 1;
        }
        proof {
            assert(self.affected@.subrange(0, v1 as int) =~= self.affected@);
        }
        let sorted_versions = crate::source::sort_dedup_strings(versions);
        s.append("\n-----\nScanned versions: ");
        append_joined(&mut s, &sorted_versions, "; ");
        s.append(".\n\n");
        proof {
            assert(s@ =~= details_done + footer_rep(self.affected@));
        }
        let ghost footer_done = s@;
        // notification lines
        if notify {
            let contacts = crate::source::maintainer_contacts(&self.maintainers);
            let ghost hs = contacts_of_seq(m_views(self.maintainers@));
            let cn = contacts.len();
            let mut c: usize = 0;
            proof {
                lemma_str_views(contacts@);
                assert(cc_rep(hs.subrange(0, 0)) =~= Seq::<char>::empty());
                assert(s@ =~= footer_done + cc_rep(hs.subrange(0, 0)));
            }
            while c < cn
                invariant
                    0 <= c <= cn,
                    cn == contacts@.len(),
                    str_views(contacts@) == hs,
                    s@ == footer_done + cc_rep(hs.subrange(0, c as int)),
                decreases cn - c,
            {
                s.append("Cc @");
                s.append(contacts[c].as_str());
                s.append("\n");
                proof {
                    lemma_str_views(contacts@);
                    lemma_cc_rep_step(hs, c as int);
                    assert(s@ =~= footer_done + cc_rep(hs.subrange(0, c + 1)));
                }
                c = c + 1;
            }
            proof {
                assert(hs.subrange(0, c as int) =~= hs);
            }
        }
        proof {
            assert(s@ =~= render_rep(*self, notify));
        }
        s
    }

    /// Renders the headline followed by the body, with maintainer
    /// notification lines.
    pub fn render_full(&self) -> (r: String)
        requires
            forall|i: int, j: int|
                #![trigger self.affected@[i].1.branches@[j]]
                0 <= i < self.affected@.len()
                    && 0 <= j < self.affected@[i].1.branches@.len()
                    ==> self.affected@[i].1.branches@[j].rev@.len() >= 11,
        ensures
            r@ == "# "@ + summary_rep(*self) + "\n\n"@ + render_rep(*self, true),
    {
        proof {
            reveal_strlit("# ");
            reveal_strlit("\n\n");
        }
        let mut s = String::new();
        s.append("# ");
        let sum = self.summary();
        s.append(sum.as_str());
        s.append("\n\n");
        let body = self.render(true);
        s.append(body.as_str());
        proof {
            assert(s@ =~= "# "@ + summary_rep(*self) + "\n\n"@ + render_rep(*self, true));
        }
        s
    }
}

/// Law: an unscored advisory always sorts after every scored one in the
/// listing order, whatever the advisory identifiers are.
pub proof fn lemma_unscored_last(a: (Advisory, Detail), b: (Advisory, Detail))
    requires
        a.1.score is Some,
        b.1.score is None,
    ensures
        entry_lt(a, b),
        !entry_le(b, a),
{
}

} // verus!
