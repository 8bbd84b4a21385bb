//! Package identifiers.
//!
//! A package identifier is a derivation name of the form `name-version`,
//! where the version begins at the first `-` that is immediately followed
//! by a digit. The name part and the version part can be recovered by pure
//! slicing.

use vstd::prelude::*;
use vstd::string::StrSliceExecFns;
use vstd::string::StringExecFns;
use crate::text::is_digit;
use crate::text::check_digit;

verus! {

/// A dash followed by a digit stands at position `i - 1` of `s`.
pub open spec fn split_candidate(s: Seq<char>, i: int) -> bool {
    1 <= i < s.len() && s[i - 1] == '-' && is_digit(s[i])
}

/// Position `i` is the first version split of `s`: the version starts at
/// `s[i]`, the dash before it ends the name, and no earlier dash-digit
/// pair occurs.
pub open spec fn is_split_at(s: Seq<char>, i: int) -> bool {
    split_candidate(s, i) && forall|j: int| 1 <= j < i ==> !split_candidate(s, j)
}

/// `s` contains a version part.
pub open spec fn has_version(s: Seq<char>) -> bool {
    exists|i: int| split_candidate(s, i)
}

/// The first version split of `s`.
pub open spec fn split_of(s: Seq<char>) -> int {
    choose|i: int| is_split_at(s, i)
}

/// The name part of `s`, without the trailing dash.
pub open spec fn pname_of(s: Seq<char>) -> Seq<char> {
    s.subrange(0, split_of(s) - 1)
}

/// The version part of `s`.
pub open spec fn version_of(s: Seq<char>) -> Seq<char> {
    s.skip(split_of(s))
}

/// The first version split is unique.
pub proof fn lemma_split_unique(s: Seq<char>, i: int, j: int)
    requires
        is_split_at(s, i),
        is_split_at(s, j),
    ensures
        i == j,
{
}

/// Nix package name: a string containing a dash followed by a version.
#[derive(Debug, PartialEq, Eq, Hash)]
pub struct Package {
    name: String,
    v_idx: usize,
}

/// Error of package parsing.
#[derive(Debug)]
pub enum PackageErr {
    Version { name: String },
}

impl Package {
    #[verifier::type_invariant]
    pub closed spec fn wf(self) -> bool {
        is_split_at(self.name@, self.v_idx as int)
    }

    /// Builds a package from a name part and a version part.
    ///
    /// The name part must not itself contain a dash followed by a digit,
    /// and the version part must start with a digit, so that the version
    /// split of the combined string falls on the inserted dash.
    pub fn new(pname: &str, version: &str) -> (r: Self)
        requires
            pname@.len() < usize::MAX,
            version@.len() > 0,
            is_digit(version@[0]),
            forall|i: int| 1 <= i < pname@.len()
                ==> !(pname@[i - 1] == '-' && is_digit(#[trigger] pname@[i])),
        ensures
            r@ == pname@ + seq!['-'] + version@,
    {
        proof {
            reveal_strlit("-");
        }
        let mut name = pname.to_owned();
        name.append("-");
        name.append(version);
        let v_idx = pname.unicode_len() + 1;
        proof {
            let s = pname@ + seq!['-'] + version@;
            assert(name@ =~= s);
            assert(s[v_idx - 1] == '-');
            assert(s[v_idx as int] == version@[0]);
            assert forall|j: int| 1 <= j < v_idx implies !split_candidate(s, j) by {
                if j < pname@.len() {
                    assert(s[j - 1] == pname@[j - 1]);
                    assert(s[j] == pname@[j]);
                } else {
                    assert(s[j] == '-');
                }
            }
            assert(is_split_at(s, v_idx as int));
        }
        Package { name, v_idx }
    }

    /// Parses a `name-version` string. Succeeds exactly on strings that
    /// contain a dash followed by a digit; any other input is returned
    /// inside the error.
    pub fn parse(s: &str) -> (r: Result<Package, PackageErr>)
        ensures
            r is Ok <==> has_version(s@),
            r matches Ok(p) ==> p@ == s@,
            r matches Err(e) ==> (e matches PackageErr::Version { name } && name@ == s@),
    {
        let n = s.unicode_len();
        let mut i: usize = 1;
        while i < n
            invariant
                1 <= i,
                i <= n || n == 0,
                n == s@.len(),
                forall|j: int| 1 <= j < i ==> !split_candidate(s@, j),
            decreases n - i,
        {
            if s.get_char(i - 1) == '-' && check_digit(s.get_char(i)) {
                proof {
                    assert(is_split_at(s@, i as int));
                }
                let p = Package { name: s.to_owned(), v_idx: i };
                return Ok(p);
            }
            i = i + 1;
        }
        proof {
            if has_version(s@) {
                let w = choose|k: int| split_candidate(s@, k);
                assert(!split_candidate(s@, w));
            }
        }
        Err(PackageErr::Version { name: s.to_owned() })
    }

    /// The package name without its version.
    pub fn pname(&self) -> (r: &str)
        ensures
            r@ == pname_of(self@),
    {
        proof {
            use_type_invariant(self);
            lemma_split_unique(self.name@, self.v_idx as int, split_of(self.name@));
        }
        self.name.as_str().substring_char(0, self.v_idx - 1)
    }

    /// The version part of the package name.
    pub fn version(&self) -> (r: &str)
        ensures
            r@ == version_of(self@),
    {
        proof {
            use_type_invariant(self);
            lemma_split_unique(self.name@, self.v_idx as int, split_of(self.name@));
        }
        let n = self.name.as_str().unicode_len();
        let r = self.name.as_str().substring_char(self.v_idx, n);
        proof {
            assert(r@ =~= self.name@.skip(self.v_idx as int));
        }
        r
    }

    /// The full `name-version` string.
    pub fn as_str(&self) -> (r: &str)
        ensures
            r@ == self@,
    {
        self.name.as_str()
    }

    /// The full `name-version` string, as an owned value.
    pub fn to_string(&self) -> (r: String)
        ensures
            r@ == self@,
    {
        self.name.as_str().to_owned()
    }

    /// Does this package's full name equal the given string?
    pub fn eq_str(&self, other: &str) -> (r: bool)
        ensures
            r == (self@ == other@),
    {
        crate::text::str_eq(self.name.as_str(), other)
    }

}

impl Clone for Package {
    /// A copy is equal to the original.
    fn clone(&self) -> (r: Self)
        ensures
            r == *self,
    {
        proof {
            use_type_invariant(self);
        }
        Package { name: self.name.clone(), v_idx: self.v_idx }
    }
}

impl View for Package {
    type V = Seq<char>;

    /// The view of a package is its full `name-version` string.
    closed spec fn view(&self) -> Seq<char> {
        self.name@
    }
}

impl PackageErr {
    /// Human-readable description of the error.
    pub fn message(&self) -> (r: String)
        ensures
            self matches PackageErr::Version { name }
                ==> r@ == "Failed to find version in derivation name '"@ + name@ + "'"@,
    {
        match self {
            PackageErr::Version { name } => {
                let mut s = String::new();
                s.append("Failed to find version in derivation name '");
                s.append(name.as_str());
                s.append("'");
                proof {
                    assert(s@ =~= "Failed to find version in derivation name '"@ + name@
                        + "'"@);
                }
                s
            }
        }
    }
}

} // verus!
