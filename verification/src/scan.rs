//! Scan results.
//!
//! One scan result describes one scanner finding for one package on one
//! branch: the advisories that affect the package, their severity scores
//! and descriptions, and the package's maintainers. Severity scores are
//! held in tenths, so that `8.8` is the value `88`; the external scanner's
//! floating-point scores are converted at the boundary.

use vstd::prelude::*;
use vstd::string::StrSliceExecFns;
use crate::advisory::Advisory;
use crate::package::Package;
use crate::package::pname_of;
use crate::package::version_of;
use crate::source::Maintainer;
use crate::source::NixEnvPkg;
use crate::source::m_view;
use crate::source::m_views;
use crate::source::lemma_m_views;
use crate::source::str_views;
use crate::text::str_eq;

verus! {

/// Association list from advisories to severity scores in tenths. A later
/// entry for the same advisory wins.
#[derive(Debug)]
pub struct ScoreMap {
    entries: Vec<(Advisory, u32)>,
}

/// The map denoted by an entry list: inserted in order, a later entry for
/// the same key wins.
pub open spec fn map_of_scores(s: Seq<(Advisory, u32)>) -> Map<Advisory, u32>
    decreases s.len(),
{
    if s.len() == 0 {
        Map::empty()
    } else {
        map_of_scores(s.drop_last()).insert(s.last().0, s.last().1)
    }
}

impl View for ScoreMap {
    type V = Map<Advisory, u32>;

    /// The view is the denoted map.
    closed spec fn view(&self) -> Map<Advisory, u32> {
        map_of_scores(self.entries@)
    }
}

/// A looked-up value is the last one entered for its key.
proof fn lemma_scores_lookup(s: Seq<(Advisory, u32)>, i: int)
    requires
        0 <= i < s.len(),
        forall|j: int| i < j < s.len() ==> (#[trigger] s[j]).0 != s[i].0,
    ensures
        map_of_scores(s).dom().contains(s[i].0),
        map_of_scores(s)[s[i].0] == s[i].1,
    decreases s.len(),
{
    if i + 1 < s.len() {
        assert(s.drop_last()[i] == s[i]);
        lemma_scores_lookup(s.drop_last(), i);
    } else {
        assert(s.last() == s[i]);
    }
}

/// A key that no entry carries is not in the map.
proof fn lemma_scores_absent(s: Seq<(Advisory, u32)>, k: Advisory)
    requires
        forall|j: int| 0 <= j < s.len() ==> (#[trigger] s[j]).0 != k,
    ensures
        !map_of_scores(s).dom().contains(k),
    decreases s.len(),
{
    if s.len() > 0 {
        lemma_scores_absent(s.drop_last(), k);
    }
}

/// Concatenating entry lists unions the maps, the right side winning.
proof fn lemma_scores_concat(s: Seq<(Advisory, u32)>, t: Seq<(Advisory, u32)>)
    ensures
        map_of_scores(s + t) == map_of_scores(s).union_prefer_right(map_of_scores(t)),
    decreases t.len(),
{
    if t.len() == 0 {
        assert(s + t =~= s);
        assert(map_of_scores(s).union_prefer_right(map_of_scores(t)) =~= map_of_scores(s));
    } else {
        lemma_scores_concat(s, t.drop_last());
        assert((s + t).drop_last() =~= s + t.drop_last());
        assert((s + t).last() == t.last());
        assert(map_of_scores(s).union_prefer_right(map_of_scores(t))
            =~= map_of_scores(s).union_prefer_right(map_of_scores(t.drop_last()))
                .insert(t.last().0, t.last().1));
    }
}

impl ScoreMap {
    /// An empty score map.
    pub fn new() -> (r: Self)
        ensures
            r@ == Map::<Advisory, u32>::empty(),
    {
        ScoreMap { entries: Vec::new() }
    }

    /// Records the score of an advisory; an earlier score for the same
    /// advisory is superseded.
    pub fn insert(&mut self, k: Advisory, tenths: u32)
        ensures
            final(self)@ == old(self)@.insert(k, tenths),
    {
        self.entries.push((k, tenths));
        proof {
            assert(self.entries@.drop_last() =~= old(self).entries@);
        }
    }

    /// The recorded score of an advisory, if any.
    pub fn get(&self, k: &Advisory) -> (r: Option<u32>)
        ensures
            r == (if self@.dom().contains(*k) {
                Some(self@[*k])
            } else {
                None::<u32>
            }),
    {
        let n = self.entries.len();
        let mut i: usize = n;
        while i > 0
            invariant
                0 <= i <= n,
                n == self.entries@.len(),
                forall|j: int| i <= j < n ==> (#[trigger] self.entries@[j]).0 != *k,
            decreases i,
        {
            i = i - 1;
            let e = &self.entries[i];
            if e.0 == *k {
                proof {
                    lemma_scores_lookup(self.entries@, i as int);
                }
                return Some(e.1);
            }
        }
        proof {
            lemma_scores_absent(self.entries@, *k);
        }
        None
    }

    /// Folds another score map into this one; on a shared advisory the
    /// other map's score wins.
    pub fn extend(&mut self, other: &ScoreMap)
        ensures
            final(self)@ == old(self)@.union_prefer_right(other@),
    {
        let mut i: usize = 0;
        proof {
            assert(self.entries@ =~= old(self).entries@ + other.entries@.subrange(0, 0));
        }
        while i < other.entries.len()
            invariant
                0 <= i <= other.entries@.len(),
                self.entries@ == old(self).entries@ + other.entries@.subrange(0, i as int),
            decreases other.entries@.len() - i,
        {
            let e = (other.entries[i].0, other.entries[i].1);
            self.entries.push(e);
            proof {
                assert(self.entries@ =~= old(self).entries@
                    + other.entries@.subrange(0, i + 1));
            }
            i = i + 1;
        }
        proof {
            assert(other.entries@.subrange(0, i as int) =~= other.entries@);
            lemma_scores_concat(old(self).entries@, other.entries@);
        }
    }

}

impl Clone for ScoreMap {
    /// A copy denotes the same map.
    fn clone(&self) -> (r: Self)
        ensures
            r@ == self@,
    {
        let mut entries: Vec<(Advisory, u32)> = Vec::new();
        let mut i: usize = 0;
        while i < self.entries.len()
            invariant
                0 <= i <= self.entries@.len(),
                entries@ == self.entries@.subrange(0, i as int),
            decreases self.entries@.len() - i,
        {
            entries.push((self.entries[i].0, self.entries[i].1));
            proof {
                assert(entries@ =~= self.entries@.subrange(0, i + 1));
            }
            i = i + 1;
        }
        proof {
            assert(entries@ =~= self.entries@);
        }
        ScoreMap { entries }
    }
}

/// Association list from advisories to descriptions. A later entry for the
/// same advisory wins.
#[derive(Debug)]
pub struct DescMap {
    entries: Vec<(Advisory, String)>,
}

/// The map denoted by a description entry list.
pub open spec fn map_of_descs(s: Seq<(Advisory, String)>) -> Map<Advisory, Seq<char>>
    decreases s.len(),
{
    if s.len() == 0 {
        Map::empty()
    } else {
        map_of_descs(s.drop_last()).insert(s.last().0, s.last().1@)
    }
}

impl View for DescMap {
    type V = Map<Advisory, Seq<char>>;

    /// The view is the denoted map.
    closed spec fn view(&self) -> Map<Advisory, Seq<char>> {
        map_of_descs(self.entries@)
    }
}

/// A looked-up description is the last one entered for its key.
proof fn lemma_descs_lookup(s: Seq<(Advisory, String)>, i: int)
    requires
        0 <= i < s.len(),
        forall|j: int| i < j < s.len() ==> (#[trigger] s[j]).0 != s[i].0,
    ensures
        map_of_descs(s).dom().contains(s[i].0),
        map_of_descs(s)[s[i].0] == s[i].1@,
    decreases s.len(),
{
    if i + 1 < s.len() {
        assert(s.drop_last()[i] == s[i]);
        lemma_descs_lookup(s.drop_last(), i);
    } else {
        assert(s.last() == s[i]);
    }
}

/// A key that no entry carries is not in the map.
proof fn lemma_descs_absent(s: Seq<(Advisory, String)>, k: Advisory)
    requires
        forall|j: int| 0 <= j < s.len() ==> (#[trigger] s[j]).0 != k,
    ensures
        !map_of_descs(s).dom().contains(k),
    decreases s.len(),
{
    if s.len() > 0 {
        lemma_descs_absent(s.drop_last(), k);
    }
}

/// Concatenating entry lists unions the maps, the right side winning.
proof fn lemma_descs_concat(s: Seq<(Advisory, String)>, t: Seq<(Advisory, String)>)
    ensures
        map_of_descs(s + t) == map_of_descs(s).union_prefer_right(map_of_descs(t)),
    decreases t.len(),
{
    if t.len() == 0 {
        assert(s + t =~= s);
        assert(map_of_descs(s).union_prefer_right(map_of_descs(t)) =~= map_of_descs(s));
    } else {
        lemma_descs_concat(s, t.drop_last());
        assert((s + t).drop_last() =~= s + t.drop_last());
        assert((s + t).last() == t.last());
        assert(map_of_descs(s).union_prefer_right(map_of_descs(t))
            =~= map_of_descs(s).union_prefer_right(map_of_descs(t.drop_last()))
                .insert(t.last().0, t.last().1@));
    }
}

impl DescMap {
    /// An empty description map.
    pub fn new() -> (r: Self)
        ensures
            r@ == Map::<Advisory, Seq<char>>::empty(),
    {
        DescMap { entries: Vec::new() }
    }

    /// Records the description of an advisory; an earlier description for
    /// the same advisory is superseded.
    pub fn insert(&mut self, k: Advisory, text: String)
        ensures
            final(self)@ == old(self)@.insert(k, text@),
    {
        self.entries.push((k, text));
        proof {
            assert(self.entries@.drop_last() =~= old(self).entries@);
        }
    }

    /// The recorded description of an advisory, if any, as an owned copy.
    pub fn get(&self, k: &Advisory) -> (r: Option<String>)
        ensures
            r matches Some(d) ==> self@.dom().contains(*k) && d@ == self@[*k],
            r is None ==> !self@.dom().contains(*k),
    {
        let n = self.entries.len();
        let mut i: usize = n;
        while i > 0
            invariant
                0 <= i <= n,
                n == self.entries@.len(),
                forall|j: int| i <= j < n ==> (#[trigger] self.entries@[j]).0 != *k,
            decreases i,
        {
            i = i - 1;
            let e = &self.entries[i];
            if e.0 == *k {
                proof {
                    lemma_descs_lookup(self.entries@, i as int);
                }
                return Some(e.1.clone());
            }
        }
        proof {
            lemma_descs_absent(self.entries@, *k);
        }
        None
    }

    /// Folds another description map into this one; on a shared advisory
    /// the other map's text wins.
    pub fn extend(&mut self, other: &DescMap)
        ensures
            final(self)@ == old(self)@.union_prefer_right(other@),
    {
        let mut i: usize = 0;
        proof {
            assert(self.entries@ =~= old(self).entries@ + other.entries@.subrange(0, 0));
        }
        while i < other.entries.len()
            invariant
                0 <= i <= other.entries@.len(),
                self.entries@ == old(self).entries@ + other.entries@.subrange(0, i as int),
            decreases other.entries@.len() - i,
        {
            let e = (other.entries[i].0, other.entries[i].1.clone());
            proof {
                assert(e == other.entries@[i as int]);
            }
            self.entries.push(e);
            proof {
                assert(self.entries@ =~= old(self).entries@
                    + other.entries@.subrange(0, i + 1));
            }
            i = i + 1;
        }
        proof {
            assert(other.entries@.subrange(0, i as int) =~= other.entries@);
            lemma_descs_concat(old(self).entries@, other.entries@);
        }
    }
}

/// One scanner finding: a package together with the advisories affecting
/// it, their scores and descriptions, informational whitelist notes, and
/// the package's maintainers.
#[derive(Debug)]
pub struct VulnixRes {
    pub pkg: Package,
    pub pname: String,
    pub version: String,
    pub affected_by: Vec<Advisory>,
    pub whitelisted: Vec<String>,
    pub cvssv3_basescore: ScoreMap,
    pub description: DescMap,
    pub maintainers: Vec<Maintainer>,
}

impl VulnixRes {
    /// A finding with the given package and advisories and nothing else.
    pub fn new(pkg: Package, affected_by: Vec<Advisory>) -> (r: Self)
        ensures
            r.pkg == pkg,
            r.pname@ == pname_of(pkg@),
            r.version@ == version_of(pkg@),
            r.affected_by == affected_by,
            r.whitelisted@.len() == 0,
            r.cvssv3_basescore@ == Map::<Advisory, u32>::empty(),
            r.description@ == Map::<Advisory, Seq<char>>::empty(),
            r.maintainers@.len() == 0,
    {
        let pname = pkg.pname().to_owned();
        let version = pkg.version().to_owned();
        VulnixRes {
            pkg,
            pname,
            version,
            affected_by,
            whitelisted: Vec::new(),
            cvssv3_basescore: ScoreMap::new(),
            description: DescMap::new(),
            maintainers: Vec::new(),
        }
    }

    /// Adds the maintainers that the package map records for this finding's
    /// package, in the order of the map's entries.
    pub fn add_maintainers(self, pkgmap: &Vec<(String, NixEnvPkg)>) -> (r: Self)
        ensures
            r.pkg == self.pkg,
            r.pname == self.pname,
            r.version == self.version,
            r.affected_by == self.affected_by,
            r.whitelisted == self.whitelisted,
            r.cvssv3_basescore == self.cvssv3_basescore,
            r.description == self.description,
            m_views(r.maintainers@) == m_views(self.maintainers@)
                + matched_maintainers(pkgmap@, self.pkg@),
    {
        let VulnixRes {
            pkg,
            pname,
            version,
            affected_by,
            whitelisted,
            cvssv3_basescore,
            description,
            mut maintainers,
        } = self;
        let mut i: usize = 0;
        proof {
            assert(matched_prefix(pkgmap@, pkg@, 0) =~= Seq::<crate::source::MaintView>::empty()) by {
                assert(pkgmap@.subrange(0, 0) =~= Seq::<(String, NixEnvPkg)>::empty());
            }
            assert(m_views(maintainers@) =~= m_views(maintainers@) + matched_prefix(pkgmap@, pkg@, 0));
        }
        while i < pkgmap.len()
            invariant
                0 <= i <= pkgmap@.len(),
                m_views(maintainers@) == m_views(self.maintainers@)
                    + matched_prefix(pkgmap@, pkg@, i as int),
                pkg == self.pkg,
            decreases pkgmap@.len() - i,
        {
            let pi = &pkgmap[i].1;
            if pkg.eq_str(pi.pkg.as_str()) {
                let mut j: usize = 0;
                while j < pi.meta.maintainers.len()
                    invariant
                        0 <= j <= pi.meta.maintainers@.len(),
                        m_views(maintainers@) == m_views(self.maintainers@)
                            + matched_prefix(pkgmap@, pkg@, i as int)
                            + m_views(pi.meta.maintainers@.subrange(0, j as int)),
                        pkg == self.pkg,
                        0 <= i < pkgmap@.len(),
                        pi == &pkgmap@[i as int].1,
                    decreases pi.meta.maintainers@.len() - j,
                {
                    let m = pi.meta.maintainers[j].clone();
                    proof {
                        lemma_m_views(pi.meta.maintainers@);
                    }
                    let ghost pre = maintainers@;
                    maintainers.push(m);
                    proof {
                        assert(maintainers@.drop_last() =~= pre);
                        crate::source::lemma_m_views_push(maintainers@, m_views(pre), m_view(m));
                        lemma_views_snoc(pi.meta.maintainers@, j as int);
                        assert(m_views(maintainers@) =~= m_views(self.maintainers@)
                            + matched_prefix(pkgmap@, pkg@, i as int)
                            + m_views(pi.meta.maintainers@.subrange(0, j + 1)));
                    }
                    j = j + 1;
                }
                proof {
                    assert(pi.meta.maintainers@.subrange(0, pi.meta.maintainers@.len() as int)
                        =~= pi.meta.maintainers@);
                    lemma_matched_prefix_step(pkgmap@, pkg@, i as int);
                }
            } else {
                proof {
                    lemma_matched_prefix_step(pkgmap@, pkg@, i as int);
                    assert(m_views(maintainers@) =~= m_views(self.maintainers@)
                        + matched_prefix(pkgmap@, pkg@, i + 1));
                }
            }
            i = i + 1;
        }
        proof {
            lemma_matched_prefix_all(pkgmap@, pkg@);
        }
        VulnixRes {
            pkg,
            pname,
            version,
            affected_by,
            whitelisted,
            cvssv3_basescore,
            description,
            maintainers,
        }
    }
}

/// The maintainers that the first `k` package-map entries record for the
/// package named `pkg`, in entry order.
pub open spec fn matched_prefix(
    entries: Seq<(String, NixEnvPkg)>,
    pkg: Seq<char>,
    k: int,
) -> Seq<crate::source::MaintView> {
    matched_maintainers(entries.subrange(0, k), pkg)
}

/// The maintainers that the package map records for the package named
/// `pkg`, in entry order.
pub open spec fn matched_maintainers(
    entries: Seq<(String, NixEnvPkg)>,
    pkg: Seq<char>,
) -> Seq<crate::source::MaintView>
    decreases entries.len(),
{
    if entries.len() == 0 {
        Seq::empty()
    } else {
        matched_maintainers(entries.drop_last(), pkg) + (if entries.last().1.pkg@ == pkg {
            m_views(entries.last().1.meta.maintainers@)
        } else {
            Seq::empty()
        })
    }
}

/// Extending the prefix by one entry appends that entry's maintainers if
/// its package matches.
proof fn lemma_matched_prefix_step(entries: Seq<(String, NixEnvPkg)>, pkg: Seq<char>, k: int)
    requires
        0 <= k < entries.len(),
    ensures
        matched_prefix(entries, pkg, k + 1) == matched_prefix(entries, pkg, k)
            + (if entries[k].1.pkg@ == pkg {
                m_views(entries[k].1.meta.maintainers@)
            } else {
                Seq::<crate::source::MaintView>::empty()
            }),
{
    let a = entries.subrange(0, k + 1);
    assert(a.drop_last() =~= entries.subrange(0, k));
    assert(a.last() == entries[k]);
    if entries[k].1.pkg@ != pkg {
        assert(matched_prefix(entries, pkg, k + 1) =~= matched_prefix(entries, pkg, k));
        assert(matched_prefix(entries, pkg, k)
            + Seq::<crate::source::MaintView>::empty() =~= matched_prefix(entries, pkg, k));
    }
}

/// The full prefix covers the whole map.
proof fn lemma_matched_prefix_all(entries: Seq<(String, NixEnvPkg)>, pkg: Seq<char>)
    ensures
        matched_prefix(entries, pkg, entries.len() as int) == matched_maintainers(entries, pkg),
{
    assert(entries.subrange(0, entries.len() as int) =~= entries);
}

/// A one-longer prefix of views is the prefix plus one view.
proof fn lemma_views_snoc(v: Seq<Maintainer>, j: int)
    requires
        0 <= j < v.len(),
    ensures
        m_views(v.subrange(0, j + 1)) == m_views(v.subrange(0, j)) + seq![m_view(v[j])],
{
    lemma_m_views(v.subrange(0, j + 1));
    lemma_m_views(v.subrange(0, j));
    assert(m_views(v.subrange(0, j + 1)) =~= m_views(v.subrange(0, j)) + seq![m_view(v[j])]);
}

/// The scanner's exit status signals failure only above two; zero, one and
/// two are success with possible findings.
pub fn scan_exit_ok(code: Option<i32>) -> (r: bool)
    ensures
        r == (code matches Some(c) && c <= 2),
{
    match code {
        Some(c) => c <= 2,
        None => false,
    }
}

/// One package as handed to the external scanner.
#[derive(Debug)]
pub struct InputPkg {
    /// Full `name-version` string.
    pub name: String,
    /// Patches applied to the package in this tree.
    pub patches: Vec<String>,
    /// Advisories the tree itself already knows the package is affected by.
    pub known_vulnerabilities: Vec<String>,
}

/// The package set handed to the external scanner, indexed by attribute.
#[derive(Debug)]
pub struct InputPkgs(pub Vec<(String, InputPkg)>);

/// Map from package attributes to the lists of patches applied to them.
#[derive(Debug)]
pub struct Patches(pub Vec<(String, Vec<String>)>);

/// The patch list recorded for `attr`: that of its first entry, or empty.
pub open spec fn patches_of(p: Seq<(String, Vec<String>)>, attr: Seq<char>) -> Seq<Seq<char>>
    decreases p.len(),
{
    if p.len() == 0 {
        Seq::empty()
    } else if p[0].0@ == attr {
        str_views(p[0].1@)
    } else {
        patches_of(p.skip(1), attr)
    }
}

impl Patches {
    /// The patches recorded for the given attribute, or none.
    pub fn lookup(&self, attr: &str) -> (r: Vec<String>)
        ensures
            str_views(r@) == patches_of(self.0@, attr@),
    {
        let mut i: usize = 0;
        proof {
            assert(self.0@.skip(0) =~= self.0@);
        }
        while i < self.0.len()
            invariant
                0 <= i <= self.0@.len(),
                patches_of(self.0@, attr@) == patches_of(self.0@.skip(i as int), attr@),
                forall|j: int| 0 <= j < i ==> (#[trigger] self.0@[j]).0@ != attr@,
            decreases self.0@.len() - i,
        {
            proof {
                assert(self.0@.skip(i as int)[0] == self.0@[i as int]);
            }
            if str_eq(self.0[i].0.as_str(), attr) {
                let src = &self.0[i].1;
                let mut out: Vec<String> = Vec::new();
                let mut j: usize = 0;
                while j < src.len()
                    invariant
                        0 <= j <= src@.len(),
                        str_views(out@) == str_views(src@.subrange(0, j as int)),
                    decreases src@.len() - j,
                {
                    let ghost pre = out@;
                    out.push(src[j].clone());
                    proof {
                        crate::source::lemma_str_views(pre);
                        crate::source::lemma_str_views(out@);
                        crate::source::lemma_str_views(src@.subrange(0, j as int));
                        crate::source::lemma_str_views(src@.subrange(0, j + 1));
                        assert(forall|k: int| 0 <= k < j ==> #[trigger] out@[k] == pre[k]);
                        assert(forall|k: int| 0 <= k < j
                            ==> #[trigger] str_views(out@)[k] == str_views(pre)[k]);
                        assert(str_views(out@) =~= str_views(src@.subrange(0, j + 1)));
                    }
                    j = j + 1;
                }
                proof {
                    assert(src@.subrange(0, j as int) =~= src@);
                }
                return out;
            }
            proof {
                assert(self.0@.skip(i as int).skip(1) =~= self.0@.skip(i + 1));
            }
            i = i + 1;
        }
        proof {
            assert(patches_of(self.0@.skip(i as int), attr@)
                =~= Seq::<Seq<char>>::empty());
            assert(str_views(Seq::<String>::empty()) =~= Seq::<Seq<char>>::empty());
        }
        Vec::new()
    }
}

impl InputPkgs {
    /// Combines the evaluated package list with the discovered patches:
    /// one scanner input per package, under its attribute, carrying the
    /// package name, its patches, and its known vulnerabilities.
    pub fn new(all: &crate::source::AllPackages, patches: &Patches) -> (r: Self)
        ensures
            r.0@.len() == all.packages@.len(),
            forall|i: int| 0 <= i < all.packages@.len() ==> {
                let e = #[trigger] all.packages@[i];
                let o = r.0@[i];
                o.0@ == e.0@ && o.1.name@ == e.1.pkg@
                    && str_views(o.1.patches@) == patches_of(patches.0@, e.0@)
                    && str_views(o.1.known_vulnerabilities@)
                        == str_views(e.1.meta.known_vulnerabilities@)
            },
    {
        let mut out: Vec<(String, InputPkg)> = Vec::new();
        let mut i: usize = 0;
        while i < all.packages.len()
            invariant
                0 <= i <= all.packages@.len(),
                out@.len() == i,
                forall|j: int| 0 <= j < i ==> {
                    let e = #[trigger] all.packages@[j];
                    let o = out@[j];
                    o.0@ == e.0@ && o.1.name@ == e.1.pkg@
                        && str_views(o.1.patches@) == patches_of(patches.0@, e.0@)
                        && str_views(o.1.known_vulnerabilities@)
                            == str_views(e.1.meta.known_vulnerabilities@)
                },
            decreases all.packages@.len() - i,
        {
            let entry = &all.packages[i];
            let pk = entry.1.pkg.clone();
            let pat = patches.lookup(entry.0.as_str());
            let mut kv: Vec<String> = Vec::new();
            let src = &entry.1.meta.known_vulnerabilities;
            let mut j: usize = 0;
            while j < src.len()
                invariant
                    0 <= j <= src@.len(),
                    str_views(kv@) == str_views(src@.subrange(0, j as int)),
                decreases src@.len() - j,
            {
                let ghost pre = kv@;
                kv.push(src[j].clone());
                proof {
                    crate::source::lemma_str_views(pre);
                    crate::source::lemma_str_views(kv@);
                    crate::source::lemma_str_views(src@.subrange(0, j as int));
                    crate::source::lemma_str_views(src@.subrange(0, j + 1));
                    assert(forall|k: int| 0 <= k < j ==> #[trigger] kv@[k] == pre[k]);
                    assert(forall|k: int| 0 <= k < j
                        ==> #[trigger] str_views(kv@)[k] == str_views(pre)[k]);
                    assert(str_views(kv@) =~= str_views(src@.subrange(0, j + 1)));
                }
                j = j + 1;
            }
            proof {
                assert(src@.subrange(0, j as int) =~= src@);
            }
            let pkg = InputPkg { name: pk, patches: pat, known_vulnerabilities: kv };
            out.push((entry.0.clone(), pkg));
            i = i + 1;
        }
        InputPkgs(out)
    }
}

} // verus!
