//! Branch descriptors.
//!
//! A branch names a release line to scan: a published name together with a
//! revision specifier. It is written `NAME` or `NAME=REV`; without a
//! revision the name doubles as the revision. A list of branches must not
//! repeat a name.

use vstd::prelude::*;
use vstd::string::StrSliceExecFns;
use vstd::string::StringExecFns;
use crate::text::is_space;
use crate::text::check_space;
use crate::text::lex_lt;
use core::cmp::Ordering;

verus! {

/// Release line to scan: the published name and a revision specifier.
#[derive(Debug, PartialEq, Eq, Hash)]
pub struct Branch {
    /// Release name to publish in tickets.
    pub name: String,
    /// Revision specifier, usually a branch name, later resolved to a
    /// commit id.
    pub rev: String,
}

/// Error of branch parsing and branch list construction.
#[derive(Debug)]
pub enum BranchErr {
    Invalid { input: String },
    Duplicate { name: String },
}

/// May `c` stand in a branch name? A name has no whitespace, no slash and
/// no equals sign.
pub open spec fn name_char(c: char) -> bool {
    !is_space(c) && c != '/' && c != '='
}

/// May `c` stand in a revision specifier? Only whitespace is excluded.
pub open spec fn rev_char(c: char) -> bool {
    !is_space(c)
}

/// The first `=` of `s` stands at `k`.
pub open spec fn eq_at(s: Seq<char>, k: int) -> bool {
    0 <= k < s.len() && s[k] == '=' && forall|j: int| 0 <= j < k ==> s[j] != '='
}

/// A specifier without `=`: a non-empty name.
pub open spec fn plain_spec(s: Seq<char>) -> bool {
    s.len() >= 1 && (forall|i: int| 0 <= i < s.len() ==> name_char(#[trigger] s[i]))
}

/// A specifier `NAME=REV` split at `k`: a non-empty name before the first
/// `=`, a non-empty whitespace-free revision after it.
pub open spec fn split_spec(s: Seq<char>, k: int) -> bool {
    &&& eq_at(s, k)
    &&& k >= 1
    &&& k < s.len() - 1
    &&& forall|j: int| 0 <= j < k ==> name_char(#[trigger] s[j])
    &&& forall|j: int| k < j < s.len() ==> rev_char(#[trigger] s[j])
}

/// The string is a well-formed branch specifier.
pub open spec fn branch_spec_ok(s: Seq<char>) -> bool {
    plain_spec(s) || exists|k: int| split_spec(s, k)
}

impl Branch {
    /// A branch whose revision specifier is its name.
    pub fn new(name: &str) -> (r: Self)
        ensures
            r.name@ == name@,
            r.rev@ == name@,
    {
        Branch { name: name.to_owned(), rev: name.to_owned() }
    }

    /// Parses `NAME` or `NAME=REV`. The name must be non-empty and free of
    /// whitespace, `/` and `=`; the revision, if given, non-empty and free
    /// of whitespace. Any other input is returned inside the error.
    #[verifier::loop_isolation(false)]
    pub fn parse(s: &str) -> (r: Result<Branch, BranchErr>)
        ensures
            r is Ok <==> branch_spec_ok(s@),
            r matches Ok(b) ==> {
                &&& plain_spec(s@) ==> b.name@ == s@ && b.rev@ == s@
                &&& forall|k: int| split_spec(s@, k)
                    ==> b.name@ == s@.subrange(0, k) && b.rev@ == s@.skip(k + 1)
            },
            r matches Err(e) ==> (e matches BranchErr::Invalid { input } && input@ == s@),
    {
        let n = s.unicode_len();
        if n == 0 {
            return Err(BranchErr::Invalid { input: s.to_owned() });
        }
        // scan the name part up to the first `=`
        let mut i: usize = 0;
        while i < n
            invariant
                0 <= i <= n,
                forall|j: int| 0 <= j < i ==> name_char(#[trigger] s@[j]),
            decreases n - i,
        {
            let c = s.get_char(i);
            if c == '=' {
                break;
            }
            if check_space(c) || c == '/' {
                proof {
                    if plain_spec(s@) {
                        assert(name_char(s@[i as int]));
                    }
                    if exists|k: int| split_spec(s@, k) {
                        let k = choose|k: int| split_spec(s@, k);
                        if i < k {
                            assert(name_char(s@[i as int]));
                        } else if i == k {
                            assert(s@[k] == '=');
                        } else {
                            assert(rev_char(s@[i as int]));
                        }
                    }
                }
                return Err(BranchErr::Invalid { input: s.to_owned() });
            }
            i = i + 1;
        }
        if i == n {
            // no `=`: the name is the whole specifier
            proof {
                assert(plain_spec(s@));
            }
            return Ok(Branch { name: s.to_owned(), rev: s.to_owned() });
        }
        // `s[i]` is the first `=`
        if i == 0 || i + 1 == n {
            proof {
                lemma_split_unique_eq(s@, i as int);
            }
            return Err(BranchErr::Invalid { input: s.to_owned() });
        }
        let mut j: usize = i + 1;
        while j < n
            invariant
                i + 1 <= j <= n,
                forall|m: int| i < m < j ==> rev_char(#[trigger] s@[m]),
            decreases n - j,
        {
            if check_space(s.get_char(j)) {
                proof {
                    lemma_split_unique_eq(s@, i as int);
                }
                return Err(BranchErr::Invalid { input: s.to_owned() });
            }
            j = j + 1;
        }
        let name = s.substring_char(0, i);
        let rev = s.substring_char(i + 1, n);
        proof {
            assert(split_spec(s@, i as int));
            assert(!plain_spec(s@));
            lemma_split_unique_eq(s@, i as int);
            assert(rev@ =~= s@.skip(i + 1));
        }
        Ok(Branch { name: name.to_owned(), rev: rev.to_owned() })
    }

    /// The name of the file that holds this branch's raw scan results:
    /// `vulnix.<name>.json`.
    pub fn vulnix_json_name(&self) -> (r: String)
        ensures
            r@ == "vulnix."@ + self.name@ + ".json"@,
    {
        let mut s = String::new();
        s.append("vulnix.");
        s.append(self.name.as_str());
        s.append(".json");
        proof {
            assert(s@ =~= "vulnix."@ + self.name@ + ".json"@);
        }
        s
    }
}

/// Only one position can carry the first `=`, so at most one split parse
/// exists.
proof fn lemma_split_unique_eq(s: Seq<char>, i: int)
    requires
        0 <= i < s.len(),
        s[i] == '=',
        forall|j: int| 0 <= j < i ==> s[j] != '=',
    ensures
        forall|k: int| split_spec(s, k) ==> k == i,
{
    assert forall|k: int| split_spec(s, k) implies k == i by {
        if k < i {
            assert(s[k] == '=');
        }
        if k > i {
            assert(name_char(s[i]));
        }
    }
}

impl Clone for Branch {
    /// A copy is equal to the original.
    fn clone(&self) -> (r: Self)
        ensures
            r == *self,
    {
        Branch { name: self.name.clone(), rev: self.rev.clone() }
    }
}

/// Order on branches: by name, then by revision, lexicographically.
pub open spec fn br_lt(a: Branch, b: Branch) -> bool {
    lex_lt(a.name@, b.name@) || (a.name@ == b.name@ && lex_lt(a.rev@, b.rev@))
}

/// The view of a branch: its name and revision.
pub open spec fn br_key(b: Branch) -> (Seq<char>, Seq<char>) {
    (b.name@, b.rev@)
}

/// Executable three-way comparison of branches in the `(name, rev)` order.
pub fn branch_cmp(a: &Branch, b: &Branch) -> (o: Ordering)
    ensures
        (o == Ordering::Less) == br_lt(*a, *b),
        (o == Ordering::Greater) == br_lt(*b, *a),
        (o == Ordering::Equal) == (br_key(*a) == br_key(*b)),
{
    let c = crate::text::str_cmp(a.name.as_str(), b.name.as_str());
    proof {
        if a.name@ == b.name@ {
            crate::text::lemma_lex_irrefl(a.name@);
        }
        if a.rev@ == b.rev@ {
            crate::text::lemma_lex_irrefl(a.rev@);
        }
    }
    match c {
        Ordering::Equal => crate::text::str_cmp(a.rev.as_str(), b.rev.as_str()),
        other => other,
    }
}

/// The branch order is transitive.
pub proof fn lemma_br_lt_trans(a: Branch, b: Branch, c: Branch)
    requires
        br_lt(a, b),
        br_lt(b, c),
    ensures
        br_lt(a, c),
{
    if lex_lt(a.name@, b.name@) && lex_lt(b.name@, c.name@) {
        crate::text::lemma_lex_trans(a.name@, b.name@, c.name@);
    } else if a.name@ == b.name@ && b.name@ == c.name@ {
        crate::text::lemma_lex_trans(a.rev@, b.rev@, c.rev@);
    }
}

/// Validated list of branches: the names are pairwise distinct.
#[derive(Debug)]
pub struct Branches {
    specs: Vec<Branch>,
}

impl Branches {
    #[verifier::type_invariant]
    pub closed spec fn wf(self) -> bool {
        forall|i: int, j: int| 0 <= i < j < self.specs@.len()
            ==> (#[trigger] self.specs@[i]).name@ != (#[trigger] self.specs@[j]).name@
    }

    /// The branches, in the order they were given.
    pub closed spec fn view(&self) -> Seq<Branch> {
        self.specs@
    }

    /// Validates a list of branch specifiers: no name may recur. The first
    /// name that recurs is returned inside the error.
    #[verifier::loop_isolation(false)]
    pub fn init(specs: &Vec<Branch>) -> (r: Result<Branches, BranchErr>)
        ensures
            r is Ok <==> (forall|i: int, j: int| 0 <= i < j < specs@.len()
                ==> (#[trigger] specs@[i]).name@ != (#[trigger] specs@[j]).name@),
            r matches Ok(b) ==> b@.len() == specs@.len()
                && (forall|i: int| 0 <= i < specs@.len()
                    ==> (#[trigger] b@[i]).name@ == specs@[i].name@
                        && b@[i].rev@ == specs@[i].rev@),
            r matches Err(e) ==> (e matches BranchErr::Duplicate { name } && exists|i: int, j: int|
                0 <= i < j < specs@.len() && (#[trigger] specs@[i]).name@ == (#[trigger] specs@[j]).name@
                    && name@ == specs@[i].name@),
    {
        let n = specs.len();
        let mut out: Vec<Branch> = Vec::new();
        let mut i: usize = 0;
        while i < n
            invariant
                0 <= i <= n,
                out@.len() == i,
                forall|p: int| 0 <= p < i ==> (#[trigger] out@[p]).name@ == specs@[p].name@
                    && out@[p].rev@ == specs@[p].rev@,
                forall|p: int, q: int| 0 <= p < i && p < q < n
                    ==> (#[trigger] specs@[p]).name@ != (#[trigger] specs@[q]).name@,
            decreases n - i,
        {
            let mut j: usize = i + 1;
            while j < n
                invariant
                    i < j <= n,
                    forall|q: int| i < q < j ==> (#[trigger] specs@[q]).name@ != specs@[i as int].name@,
                decreases n - j,
            {
                if crate::text::str_eq(specs[j].name.as_str(), specs[i].name.as_str()) {
                    return Err(BranchErr::Duplicate { name: specs[i].name.clone() });
                }
                j = j + 1;
            }
            out.push(specs[i].clone());
            i = i + 1;
        }
        Ok(Branches { specs: out })
    }

    /// Number of branches.
    pub fn len(&self) -> (r: usize)
        ensures
            r == self@.len(),
    {
        self.specs.len()
    }

    /// The branch at the given position.
    pub fn get(&self, i: usize) -> (r: &Branch)
        requires
            i < self@.len(),
        ensures
            *r == self@[i as int],
    {
        &self.specs[i]
    }

}

impl BranchErr {
    /// Human-readable description of the error.
    pub fn message(&self) -> (r: String)
        ensures
            self matches BranchErr::Invalid { input }
                ==> r@ == "Invalid branch specification "@ + input@,
            self matches BranchErr::Duplicate { name }
                ==> r@ == "Duplicate branch "@ + name@,
    {
        match self {
            BranchErr::Invalid { input } => {
                let mut s = String::new();
                s.append("Invalid branch specification ");
                s.append(input.as_str());
                proof {
                    assert(s@ =~= "Invalid branch specification "@ + input@);
                }
                s
            }
            BranchErr::Duplicate { name } => {
                let mut s = String::new();
                s.append("Duplicate branch ");
                s.append(name.as_str());
                proof {
                    assert(s@ =~= "Duplicate branch "@ + name@);
                }
                s
            }
        }
    }
}

} // verus!
