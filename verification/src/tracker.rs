//! Tracker-facing rules.
//!
//! The pure parts of issue tracking: the `OWNER/REPO` repository
//! specifier, the names of the per-ticket output files, and the planning
//! of an emission run — skipping tickets whose output file already exists
//! and limiting a batch to what the tracker accepts per invocation.

use vstd::prelude::*;
use vstd::string::StrSliceExecFns;
use vstd::string::StringExecFns;
use crate::source::str_views;
use crate::text::str_eq;
use crate::ticket::Ticket;

verus! {

/// GitHub does not accept more than this many new issues in one batch.
pub const MAX_ISSUES: usize = 30;

/// Repository specifier: owner and repository name.
#[derive(Debug, PartialEq, Eq)]
pub struct RepoSpec {
    pub owner: String,
    pub repo: String,
}

/// Error of repository specifier parsing.
#[derive(Debug)]
pub enum RepoErr {
    RepoFormat,
}

/// The single `/` of a well-formed repository specifier stands at `k`,
/// with a non-empty owner before it and a non-empty, slash-free
/// repository name after it.
pub open spec fn repo_split_at(s: Seq<char>, k: int) -> bool {
    &&& 1 <= k < s.len() - 1
    &&& s[k] == '/'
    &&& (forall|j: int| 0 <= j < k ==> s[j] != '/')
    &&& (forall|j: int| k < j < s.len() ==> s[j] != '/')
}

/// The string is a well-formed `OWNER/REPO` specifier.
pub open spec fn repo_spec_ok(s: Seq<char>) -> bool {
    exists|k: int| repo_split_at(s, k)
}

impl RepoSpec {
    /// Builds a specifier from its two parts.
    pub fn new(owner: &str, repo: &str) -> (r: Self)
        ensures
            r.owner@ == owner@,
            r.repo@ == repo@,
    {
        RepoSpec { owner: owner.to_owned(), repo: repo.to_owned() }
    }

    /// Parses `OWNER/REPO`: exactly one slash, both parts non-empty.
    #[verifier::loop_isolation(false)]
    pub fn parse(s: &str) -> (r: Result<RepoSpec, RepoErr>)
        ensures
            r is Ok <==> repo_spec_ok(s@),
            r matches Ok(rs) ==> (forall|k: int| repo_split_at(s@, k)
                ==> rs.owner@ == s@.subrange(0, k) && rs.repo@ == s@.skip(k + 1)),
            r matches Err(e) ==> e matches RepoErr::RepoFormat,
    {
        let n = s.unicode_len();
        let mut i: usize = 0;
        while i < n
            invariant
                0 <= i <= n,
                n == s@.len(),
                forall|j: int| 0 <= j < i ==> s@[j] != '/',
            decreases n - i,
        {
            if s.get_char(i) == '/' {
                break;
            }
            i = i + 1;
        }
        if i == 0 || i >= n || i + 1 == n {
            proof {
                if repo_spec_ok(s@) {
                    let k = choose|k: int| repo_split_at(s@, k);
                    if i < n {
                        assert(s@[i as int] == '/');
                        if k < i {
                            assert(s@[k] != '/');
                        }
                        if k > i {
                            assert(s@[i as int] != '/');
                        }
                    } else {
                        assert(s@[k] != '/');
                    }
                }
            }
            return Err(RepoErr::RepoFormat);
        }
        let mut j: usize = i + 1;
        while j < n
            invariant
                i + 1 <= j <= n,
                forall|m: int| i < m < j ==> s@[m] != '/',
            decreases n - j,
        {
            if s.get_char(j) == '/' {
                proof {
                    lemma_repo_split_unique(s@, i as int);
                    if repo_spec_ok(s@) {
                        let k = choose|k: int| repo_split_at(s@, k);
                        assert(k == i);
                        assert(s@[j as int] != '/');
                    }
                }
                return Err(RepoErr::RepoFormat);
            }
            j = j + 1;
        }
        let owner = s.substring_char(0, i);
        let repo = s.substring_char(i + 1, n);
        proof {
            assert(repo_split_at(s@, i as int));
            lemma_repo_split_unique(s@, i as int);
            assert(repo@ =~= s@.skip(i + 1));
        }
        Ok(RepoSpec { owner: owner.to_owned(), repo: repo.to_owned() })
    }

    /// The `OWNER/REPO` form of the specifier.
    pub fn to_string(&self) -> (r: String)
        ensures
            r@ == self.owner@ + "/"@ + self.repo@,
    {
        proof {
            reveal_strlit("/");
        }
        let mut s = self.owner.clone();
        s.append("/");
        s.append(self.repo.as_str());
        s
    }
}

/// A specifier has at most one candidate split.
proof fn lemma_repo_split_unique(s: Seq<char>, i: int)
    requires
        0 <= i < s.len(),
        s[i] == '/',
        forall|j: int| 0 <= j < i ==> s[j] != '/',
    ensures
        forall|k: int| repo_split_at(s, k) ==> k == i,
{
    assert forall|k: int| repo_split_at(s, k) implies k == i by {
        if k < i {
            assert(s[k] != '/');
        }
        if k > i {
            assert(s[i] != '/');
        }
    }
}

/// The name of a ticket's report file: `ticket.<package>.md`.
pub open spec fn md_name_of(p: Seq<char>) -> Seq<char> {
    "ticket."@ + p + ".md"@
}

/// The name of a ticket's saved-issue file: `github.<package>.json`.
pub open spec fn json_name_of(p: Seq<char>) -> Seq<char> {
    "github."@ + p + ".json"@
}

/// The name of the file that holds a ticket's rendered report.
pub fn ticket_file_name(t: &Ticket) -> (r: String)
    ensures
        r@ == md_name_of(t.pkg@),
{
    proof {
        reveal_strlit("ticket.");
        reveal_strlit(".md");
    }
    let mut s = String::new();
    s.append("ticket.");
    s.append(t.name());
    s.append(".md");
    proof {
        assert(s@ =~= md_name_of(t.pkg@));
    }
    s
}

/// The name of the file that records a ticket's created issue.
pub fn json_file_name(t: &Ticket) -> (r: String)
    ensures
        r@ == json_name_of(t.pkg@),
{
    proof {
        reveal_strlit("github.");
        reveal_strlit(".json");
    }
    let mut s = String::new();
    s.append("github.");
    s.append(t.name());
    s.append(".json");
    proof {
        assert(s@ =~= json_name_of(t.pkg@));
    }
    s
}

/// The filter keeping tickets whose report file is not among the existing
/// file names.
pub open spec fn md_fresh(existing: Seq<Seq<char>>) -> spec_fn(Ticket) -> bool {
    |t: Ticket| !existing.contains(md_name_of(t.pkg@))
}

/// The filter keeping tickets whose saved-issue file is not among the
/// existing file names.
pub open spec fn json_fresh(existing: Seq<Seq<char>>) -> spec_fn(Ticket) -> bool {
    |t: Ticket| !existing.contains(json_name_of(t.pkg@))
}

/// Is the given name among the existing file names?
fn name_exists(existing: &Vec<String>, name: &str) -> (r: bool)
    ensures
        r == str_views(existing@).contains(name@),
{
    let mut i: usize = 0;
    proof {
        crate::source::lemma_str_views(existing@);
    }
    while i < existing.len()
        invariant
            0 <= i <= existing@.len(),
            forall|j: int| 0 <= j < i ==> str_views(existing@)[j] != name@,
        decreases existing@.len() - i,
    {
        proof {
            crate::source::lemma_str_views(existing@);
        }
        if str_eq(existing[i].as_str(), name) {
            proof {
                assert(str_views(existing@)[i as int] == name@);
            }
            return true;
        }
        i = i + 1;
    }
    proof {
        if str_views(existing@).contains(name@) {
            let w = choose|j: int| 0 <= j < str_views(existing@).len()
                && str_views(existing@)[j] == name@;
        }
    }
    false
}

/// The tickets whose report file does not already exist: re-running the
/// emission against a directory that already holds `ticket.<package>.md`
/// skips that package.
#[verifier::loop_isolation(false)]
pub fn plan_file_emission(tickets: Vec<Ticket>, existing: &Vec<String>) -> (r: Vec<Ticket>)
    ensures
        r@ == tickets@.filter(md_fresh(str_views(existing@))),
{
    let ghost pred = md_fresh(str_views(existing@));
    let mut drained = tickets;
    let ghost orig = drained@;
    let total: usize = drained.len();
    let mut out: Vec<Ticket> = Vec::new();
    let mut i: usize = 0;
    proof {
        reveal(Seq::filter);
        assert(orig.subrange(0, 0).filter(pred) =~= Seq::<Ticket>::empty());
        assert(drained@ =~= orig.skip(0));
    }
    while drained.len() > 0
        invariant
            0 <= i <= total,
            total == orig.len(),
            i + drained@.len() == total,
            drained@ == orig.skip(i as int),
            out@ == orig.subrange(0, i as int).filter(pred),
        decreases drained@.len(),
    {
        proof {
            assert(orig.skip(i as int)[0] == orig[i as int]);
        }
        let t = drained.remove(0);
        proof {
            assert(drained@ =~= orig.skip(i + 1));
        }
        let name = ticket_file_name(&t);
        let keep = !name_exists(existing, name.as_str());
        proof {
            reveal(Seq::filter);
            assert(orig.subrange(0, i + 1).drop_last() =~= orig.subrange(0, i as int));
            assert(orig.subrange(0, i + 1).last() == orig[i as int]);
            assert(pred(orig[i as int]) == keep);
        }
        if keep {
            out.push(t);
        }
        i = i + 1;
    }
    proof {
        assert(orig.subrange(0, i as int) =~= orig);
    }
    out
}

/// The batch of issues to create now: the tickets whose saved-issue file
/// does not already exist, up to the batch limit, together with the number
/// of fresh tickets that must wait for a later run.
#[verifier::loop_isolation(false)]
pub fn plan_issue_batch(tickets: Vec<Ticket>, existing: &Vec<String>) -> (r: (Vec<Ticket>, usize))
    ensures
        ({
            let fresh = tickets@.filter(json_fresh(str_views(existing@)));
            &&& r.0@ == fresh.subrange(0, if fresh.len() <= MAX_ISSUES as int {
                fresh.len() as int
            } else {
                MAX_ISSUES as int
            })
            &&& r.1 == fresh.len() - r.0@.len()
        }),
{
    let ghost pred = json_fresh(str_views(existing@));
    let mut drained = tickets;
    let ghost orig = drained@;
    let total: usize = drained.len();
    let mut fresh: Vec<Ticket> = Vec::new();
    let mut i: usize = 0;
    proof {
        reveal(Seq::filter);
        assert(orig.subrange(0, 0).filter(pred) =~= Seq::<Ticket>::empty());
        assert(drained@ =~= orig.skip(0));
    }
    while drained.len() > 0
        invariant
            0 <= i <= total,
            total == orig.len(),
            i + drained@.len() == total,
            drained@ == orig.skip(i as int),
            fresh@ == orig.subrange(0, i as int).filter(pred),
        decreases drained@.len(),
    {
        proof {
            assert(orig.skip(i as int)[0] == orig[i as int]);
        }
        let t = drained.remove(0);
        proof {
            assert(drained@ =~= orig.skip(i + 1));
        }
        let name = json_file_name(&t);
        let keep = !name_exists(existing, name.as_str());
        proof {
            reveal(Seq::filter);
            assert(orig.subrange(0, i + 1).drop_last() =~= orig.subrange(0, i as int));
            assert(orig.subrange(0, i + 1).last() == orig[i as int]);
            assert(pred(orig[i as int]) == keep);
        }
        if keep {
            fresh.push(t);
        }
        i = i + 1;
    }
    proof {
        assert(orig.subrange(0, i as int) =~= orig);
    }
    let ghost freshv = fresh@;
    let fn_len = fresh.len();
    if fn_len <= MAX_ISSUES {
        proof {
            assert(freshv.subrange(0, freshv.len() as int) =~= freshv);
        }
        (fresh, 0)
    } else {
        let mut batch = fresh;
        let mut extra: usize = 0;
        while batch.len() > MAX_ISSUES
            invariant
                MAX_ISSUES <= batch@.len() <= freshv.len(),
                batch@ == freshv.subrange(0, batch@.len() as int),
                extra == freshv.len() - batch@.len(),
            decreases batch@.len(),
        {
            let ghost pre = batch@;
            let popped = batch.pop();
            proof {
                assert(batch@ =~= freshv.subrange(0, batch@.len() as int));
            }
            extra = extra + 1;
        }
        (batch, extra)
    }
}

} // verus!
