//! Package list processing.
//!
//! Basic types for maintainers and for the per-package records that an
//! external package evaluator reports, together with the pure filtering
//! rules applied to them.

use vstd::prelude::*;
use vstd::string::StrSliceExecFns;
use crate::package::has_version;
use crate::text::lex_lt;
use crate::text::str_eq;
use crate::text::str_cmp;
use core::cmp::Ordering;

verus! {

broadcast use vstd::std_specs::vec::axiom_vec_index_decreases,
    vstd::std_specs::vec::axiom_vec_decreases_to_view,
    vstd::seq::axiom_seq_index_decreases,
    vstd::seq::axiom_seq_subrange_decreases;

/// Build architecture to consider. Packages not available for this system
/// are discarded.
pub fn system_arch() -> (r: &'static str)
    ensures
        r@ == arch_view(),
{
    "x86_64-linux"
}

/// The view of the build architecture string.
pub open spec fn arch_view() -> Seq<char> {
    "x86_64-linux"@
}

/// Maintainer of a package: a structured contact, a free-text entry, or a
/// group of co-maintainers.
#[derive(Debug, PartialEq, Eq)]
pub enum Maintainer {
    Structured { github: Option<String>, email: Option<String> },
    Unstructured(String),
    Nested(Vec<Maintainer>),
}

/// Spec-level shape of a maintainer: the same tree over character
/// sequences.
pub ghost enum MaintView {
    Structured { github: Option<Seq<char>>, email: Option<Seq<char>> },
    Unstructured(Seq<char>),
    Nested(Seq<MaintView>),
}

/// The view of a maintainer.
pub open spec fn m_view(m: Maintainer) -> MaintView
    decreases m,
{
    match m {
        Maintainer::Structured { github, email } => MaintView::Structured {
            github: match github {
                Some(g) => Some(g@),
                None => None,
            },
            email: match email {
                Some(e) => Some(e@),
                None => None,
            },
        },
        Maintainer::Unstructured(s) => MaintView::Unstructured(s@),
        Maintainer::Nested(v) => MaintView::Nested(m_views(v@)),
    }
}

/// The views of a list of maintainers.
pub open spec fn m_views(v: Seq<Maintainer>) -> Seq<MaintView>
    decreases v,
{
    if v.len() == 0 {
        Seq::empty()
    } else {
        seq![m_view(v[0])] + m_views(v.skip(1))
    }
}

/// The views of a list are the views of its elements.
pub proof fn lemma_m_views(v: Seq<Maintainer>)
    ensures
        m_views(v).len() == v.len(),
        forall|i: int| 0 <= i < v.len() ==> m_views(v)[i] == m_view(v[i]),
    decreases v.len(),
{
    if v.len() > 0 {
        lemma_m_views(v.skip(1));
    }
}

impl Clone for Maintainer {
    /// A copy has the same view as the original.
    #[verifier::loop_isolation(false)]
    fn clone(&self) -> (r: Self)
        ensures
            m_view(r) == m_view(*self),
        decreases *self,
    {
        match self {
            Maintainer::Structured { github, email } => Maintainer::Structured {
                github: match github {
                    Some(g) => Some(g.clone()),
                    None => None,
                },
                email: match email {
                    Some(e) => Some(e.clone()),
                    None => None,
                },
            },
            Maintainer::Unstructured(s) => Maintainer::Unstructured(s.clone()),
            Maintainer::Nested(v) => {
                let mut out: Vec<Maintainer> = Vec::new();
                let mut i: usize = 0;
                while i < v.len()
                    invariant
                        0 <= i <= v@.len(),
                        out@.len() == i,
                        forall|j: int| 0 <= j < i
                            ==> m_view(#[trigger] out@[j]) == m_view(v@[j]),
                    decreases v@.len() - i,
                {
                    let c = v[i].clone();
                    out.push(c);
                    i = i + 1;
                }
                let r = Maintainer::Nested(out);
                proof {
                    lemma_m_views(out@);
                    lemma_m_views(v@);
                    assert(m_views(out@) =~= m_views(v@));
                }
                r
            }
        }
    }
}

impl Maintainer {
    /// A structured contact with the given handle and no email address.
    pub fn new(github: &str) -> (r: Self)
        ensures
            m_view(r) == (MaintView::Structured { github: Some(github@), email: None }),
    {
        Maintainer::Structured { github: Some(github.to_owned()), email: None }
    }
}

/// The contact handles of one maintainer entry: the handle of a structured
/// contact that has one, the handles of a group in order, nothing else.
pub open spec fn contacts_of(m: MaintView) -> Seq<Seq<char>>
    decreases m,
{
    match m {
        MaintView::Structured { github: Some(g), .. } => seq![g],
        MaintView::Structured { github: None, .. } => Seq::empty(),
        MaintView::Unstructured(_) => Seq::empty(),
        MaintView::Nested(vs) => contacts_of_seq(vs),
    }
}

/// The contact handles of a list of maintainer entries, in encounter order.
pub open spec fn contacts_of_seq(vs: Seq<MaintView>) -> Seq<Seq<char>>
    decreases vs,
{
    if vs.len() == 0 {
        Seq::empty()
    } else {
        contacts_of(vs[0]) + contacts_of_seq(vs.skip(1))
    }
}

/// The views of a list of strings.
pub open spec fn str_views(v: Seq<String>) -> Seq<Seq<char>> {
    v.map_values(|s: String| s@)
}

/// The views of a string list are the views of its elements.
pub proof fn lemma_str_views(v: Seq<String>)
    ensures
        str_views(v).len() == v.len(),
        forall|i: int| 0 <= i < v.len() ==> #[trigger] str_views(v)[i] == v[i]@,
{
}

/// Collects the contact handles of the given maintainers: the handles of
/// structured entries that carry one, groups flattened recursively, in
/// encounter order.
pub fn maintainer_contacts(maint: &Vec<Maintainer>) -> (r: Vec<String>)
    ensures
        str_views(r@) == contacts_of_seq(m_views(maint@)),
{
    let mut out: Vec<String> = Vec::new();
    let mut i: usize = 0;
    proof {
        assert(str_views(out@) =~= Seq::<Seq<char>>::empty());
        lemma_m_views(maint@);
    }
    while i < maint.len()
        invariant
            0 <= i <= maint@.len(),
            str_views(out@) == contacts_of_prefix(m_views(maint@), i as int),
        decreases maint@.len() - i,
    {
        proof {
            lemma_m_views(maint@);
        }
        contacts_into(&maint[i], &mut out);
        proof {
            lemma_contacts_prefix_step(m_views(maint@), i as int);
        }
        i = i + 1;
    }
    proof {
        lemma_m_views(maint@);
        lemma_contacts_prefix_all(m_views(maint@));
    }
    out
}

/// The contact handles of the first `k` entries of `vs`.
pub open spec fn contacts_of_prefix(vs: Seq<MaintView>, k: int) -> Seq<Seq<char>> {
    contacts_of_seq(vs.subrange(0, k))
}

/// Extending a prefix by one entry appends that entry's handles.
proof fn lemma_contacts_prefix_step(vs: Seq<MaintView>, k: int)
    requires
        0 <= k < vs.len(),
    ensures
        contacts_of_prefix(vs, k + 1) == contacts_of_prefix(vs, k) + contacts_of(vs[k]),
    decreases k,
{
    if k == 0 {
        assert(vs.subrange(0, 1) =~= seq![vs[0]]);
        assert(vs.subrange(0, 0) =~= Seq::<MaintView>::empty());
        assert(seq![vs[0]].skip(1) =~= Seq::<MaintView>::empty());
        assert(contacts_of_seq(Seq::<MaintView>::empty()) =~= Seq::<Seq<char>>::empty());
        assert(contacts_of_seq(seq![vs[0]])
            == contacts_of(vs[0]) + contacts_of_seq(Seq::<MaintView>::empty()));
        assert(contacts_of_prefix(vs, 1) =~= contacts_of(vs[0]));
        assert(contacts_of_prefix(vs, 0) + contacts_of(vs[0]) =~= contacts_of(vs[0]));
    } else {
        lemma_contacts_prefix_step(vs.skip(1), k - 1);
        let a = vs.subrange(0, k + 1);
        let b = vs.subrange(0, k);
        assert(a.skip(1) =~= vs.skip(1).subrange(0, k));
        assert(b.skip(1) =~= vs.skip(1).subrange(0, k - 1));
        assert(a[0] == vs[0] && b[0] == vs[0]);
        assert(contacts_of_seq(a) == contacts_of(vs[0]) + contacts_of_seq(vs.skip(1).subrange(0, k)));
        assert(contacts_of_seq(b) == contacts_of(vs[0]) + contacts_of_seq(vs.skip(1).subrange(0, k - 1)));
        assert(vs.skip(1)[k - 1] == vs[k]);
        assert(contacts_of_prefix(vs, k + 1) =~= contacts_of_prefix(vs, k) + contacts_of(vs[k]));
    }
}

/// The full prefix covers the whole list.
proof fn lemma_contacts_prefix_all(vs: Seq<MaintView>)
    ensures
        contacts_of_prefix(vs, vs.len() as int) == contacts_of_seq(vs),
{
    assert(vs.subrange(0, vs.len() as int) =~= vs);
}

/// Appends the contact handles of one maintainer entry to `out`.
#[verifier::loop_isolation(false)]
fn contacts_into(m: &Maintainer, out: &mut Vec<String>)
    ensures
        str_views(final(out)@) == str_views(old(out)@) + contacts_of(m_view(*m)),
    decreases *m,
{
    match m {
        Maintainer::Structured { github: Some(g), .. } => {
            out.push(g.clone());
            proof {
                assert(str_views(out@) =~= str_views(old(out)@) + contacts_of(m_view(*m)));
            }
        }
        Maintainer::Structured { github: None, .. } => {
            proof {
                assert(str_views(out@) =~= str_views(old(out)@) + contacts_of(m_view(*m)));
            }
        }
        Maintainer::Unstructured(_) => {
            proof {
                assert(str_views(out@) =~= str_views(old(out)@) + contacts_of(m_view(*m)));
            }
        }
        Maintainer::Nested(v) => {
            let mut i: usize = 0;
            proof {
                lemma_m_views(v@);
                assert(str_views(out@) =~= str_views(old(out)@)
                    + contacts_of_prefix(m_views(v@), 0)) by {
                    assert(m_views(v@).subrange(0, 0) =~= Seq::<MaintView>::empty());
                }
            }
            while i < v.len()
                invariant
                    0 <= i <= v@.len(),
                    str_views(out@) == str_views(old(out)@)
                        + contacts_of_prefix(m_views(v@), i as int),
                decreases v@.len() - i,
            {
                contacts_into(&v[i], out);
                proof {
                    lemma_m_views(v@);
                    lemma_contacts_prefix_step(m_views(v@), i as int);
                }
                i = i + 1;
            }
            proof {
                lemma_m_views(v@);
                lemma_contacts_prefix_all(m_views(v@));
            }
        }
    }
}

/// Rank of a maintainer variant in the maintainer order.
pub open spec fn m_rank(a: MaintView) -> int {
    match a {
        MaintView::Structured { .. } => 0,
        MaintView::Unstructured(_) => 1,
        MaintView::Nested(_) => 2,
    }
}

/// Three-way comparison of optional strings: absent before present,
/// present ones in lexicographic order.
pub open spec fn opt_cmp(a: Option<Seq<char>>, b: Option<Seq<char>>) -> int {
    match (a, b) {
        (None, None) => 0,
        (None, Some(_)) => -1,
        (Some(_), None) => 1,
        (Some(x), Some(y)) => if lex_lt(x, y) { -1 } else if lex_lt(y, x) { 1 } else { 0 },
    }
}

/// Three-way comparison of maintainers: by variant rank, then by the
/// variant's fields; groups compare element by element.
pub open spec fn mv_cmp(a: MaintView, b: MaintView) -> int
    decreases a,
{
    if m_rank(a) < m_rank(b) {
        -1
    } else if m_rank(a) > m_rank(b) {
        1
    } else {
        match (a, b) {
            (
                MaintView::Structured { github: g1, email: e1 },
                MaintView::Structured { github: g2, email: e2 },
            ) => if opt_cmp(g1, g2) != 0 {
                opt_cmp(g1, g2)
            } else {
                opt_cmp(e1, e2)
            },
            (MaintView::Unstructured(x), MaintView::Unstructured(y)) => if lex_lt(x, y) {
                -1
            } else if lex_lt(y, x) {
                1
            } else {
                0
            },
            (MaintView::Nested(x), MaintView::Nested(y)) => mv_seq_cmp(x, y),
            _ => 0,
        }
    }
}

/// Three-way comparison of maintainer lists, element by element, shorter
/// prefixes first.
pub open spec fn mv_seq_cmp(x: Seq<MaintView>, y: Seq<MaintView>) -> int
    decreases x,
{
    if x.len() == 0 && y.len() == 0 {
        0
    } else if x.len() == 0 {
        -1
    } else if y.len() == 0 {
        1
    } else if mv_cmp(x[0], y[0]) != 0 {
        mv_cmp(x[0], y[0])
    } else {
        mv_seq_cmp(x.skip(1), y.skip(1))
    }
}

/// The comparison takes only the three values of a three-way order.
pub proof fn lemma_mv_cmp_range(a: MaintView, b: MaintView)
    ensures
        -1 <= mv_cmp(a, b) <= 1,
    decreases a,
{
    if m_rank(a) == m_rank(b) {
        if a is Nested && b is Nested {
            lemma_mv_seq_cmp_range(a->Nested_0, b->Nested_0);
        }
    }
}

/// The list comparison takes only the three values of a three-way order.
pub proof fn lemma_mv_seq_cmp_range(x: Seq<MaintView>, y: Seq<MaintView>)
    ensures
        -1 <= mv_seq_cmp(x, y) <= 1,
    decreases x,
{
    if x.len() > 0 && y.len() > 0 {
        lemma_mv_cmp_range(x[0], y[0]);
        lemma_mv_seq_cmp_range(x.skip(1), y.skip(1));
    }
}

/// The comparison is zero exactly on equal views.
pub proof fn lemma_mv_cmp_zero(a: MaintView, b: MaintView)
    ensures
        mv_cmp(a, b) == 0 <==> a == b,
    decreases a,
{
    if m_rank(a) == m_rank(b) {
        match (a, b) {
            (
                MaintView::Structured { github: g1, email: e1 },
                MaintView::Structured { github: g2, email: e2 },
            ) => {
                lemma_opt_cmp_zero(g1, g2);
                lemma_opt_cmp_zero(e1, e2);
            }
            (MaintView::Unstructured(x), MaintView::Unstructured(y)) => {
                if !lex_lt(x, y) && !lex_lt(y, x) {
                    crate::text::lemma_lex_connex(x, y);
                }
                if x == y {
                    crate::text::lemma_lex_irrefl(x);
                }
            }
            (MaintView::Nested(x), MaintView::Nested(y)) => {
                lemma_mv_seq_cmp_zero(x, y);
            }
            _ => {}
        }
    }
}

/// The list comparison is zero exactly on equal lists.
pub proof fn lemma_mv_seq_cmp_zero(x: Seq<MaintView>, y: Seq<MaintView>)
    ensures
        mv_seq_cmp(x, y) == 0 <==> x == y,
    decreases x,
{
    if x.len() == 0 && y.len() == 0 {
        assert(x =~= y);
    } else if x.len() > 0 && y.len() > 0 {
        lemma_mv_cmp_zero(x[0], y[0]);
        lemma_mv_seq_cmp_zero(x.skip(1), y.skip(1));
        lemma_mv_cmp_range(x[0], y[0]);
        if mv_cmp(x[0], y[0]) == 0 && mv_seq_cmp(x.skip(1), y.skip(1)) == 0 {
            assert(x =~= seq![x[0]] + x.skip(1));
            assert(y =~= seq![y[0]] + y.skip(1));
        }
        if x == y {
            assert(x[0] == y[0] && x.skip(1) == y.skip(1));
        }
    }
}

/// Optional-string comparison is zero exactly on equal values.
proof fn lemma_opt_cmp_zero(a: Option<Seq<char>>, b: Option<Seq<char>>)
    ensures
        opt_cmp(a, b) == 0 <==> a == b,
{
    match (a, b) {
        (Some(x), Some(y)) => {
            if !lex_lt(x, y) && !lex_lt(y, x) {
                crate::text::lemma_lex_connex(x, y);
            }
            if x == y {
                crate::text::lemma_lex_irrefl(x);
            }
        }
        _ => {}
    }
}

/// The comparison changes sign when its arguments swap sides.
pub proof fn lemma_mv_cmp_antisym(a: MaintView, b: MaintView)
    ensures
        mv_cmp(a, b) == -mv_cmp(b, a),
    decreases a,
{
    lemma_mv_cmp_range(a, b);
    lemma_mv_cmp_range(b, a);
    if m_rank(a) == m_rank(b) {
        match (a, b) {
            (
                MaintView::Structured { github: g1, email: e1 },
                MaintView::Structured { github: g2, email: e2 },
            ) => {
                lemma_opt_cmp_antisym(g1, g2);
                lemma_opt_cmp_antisym(e1, e2);
            }
            (MaintView::Unstructured(x), MaintView::Unstructured(y)) => {
                if lex_lt(x, y) {
                    crate::text::lemma_lex_asym(x, y);
                }
                if lex_lt(y, x) {
                    crate::text::lemma_lex_asym(y, x);
                }
            }
            (MaintView::Nested(x), MaintView::Nested(y)) => {
                lemma_mv_seq_cmp_antisym(x, y);
            }
            _ => {}
        }
    }
}

/// The list comparison changes sign when its arguments swap sides.
pub proof fn lemma_mv_seq_cmp_antisym(x: Seq<MaintView>, y: Seq<MaintView>)
    ensures
        mv_seq_cmp(x, y) == -mv_seq_cmp(y, x),
    decreases x,
{
    if x.len() > 0 && y.len() > 0 {
        lemma_mv_cmp_antisym(x[0], y[0]);
        lemma_mv_cmp_range(x[0], y[0]);
        lemma_mv_seq_cmp_antisym(x.skip(1), y.skip(1));
    }
}

/// Optional-string comparison changes sign when its arguments swap sides.
proof fn lemma_opt_cmp_antisym(a: Option<Seq<char>>, b: Option<Seq<char>>)
    ensures
        opt_cmp(a, b) == -opt_cmp(b, a),
{
    match (a, b) {
        (Some(x), Some(y)) => {
            if lex_lt(x, y) {
                crate::text::lemma_lex_asym(x, y);
            }
            if lex_lt(y, x) {
                crate::text::lemma_lex_asym(y, x);
            }
        }
        _ => {}
    }
}

/// The maintainer order is transitive.
pub proof fn lemma_mv_cmp_trans(a: MaintView, b: MaintView, c: MaintView)
    requires
        mv_cmp(a, b) < 0,
        mv_cmp(b, c) < 0,
    ensures
        mv_cmp(a, c) < 0,
    decreases a,
{
    lemma_mv_cmp_range(a, b);
    lemma_mv_cmp_range(b, c);
    lemma_mv_cmp_range(a, c);
    if m_rank(a) == m_rank(b) && m_rank(b) == m_rank(c) {
        match (a, b, c) {
            (
                MaintView::Structured { github: g1, email: e1 },
                MaintView::Structured { github: g2, email: e2 },
                MaintView::Structured { github: g3, email: e3 },
            ) => {
                let c12 = opt_cmp(g1, g2);
                let c23 = opt_cmp(g2, g3);
                if c12 < 0 && c23 < 0 {
                    lemma_opt_cmp_trans(g1, g2, g3);
                } else if c12 == 0 && c23 == 0 {
                    lemma_opt_cmp_zero(g1, g2);
                    lemma_opt_cmp_zero(g2, g3);
                    let d12 = opt_cmp(e1, e2);
                    let d23 = opt_cmp(e2, e3);
                    if d12 < 0 && d23 < 0 {
                        lemma_opt_cmp_trans(e1, e2, e3);
                    } else if d12 == 0 {
                        lemma_opt_cmp_zero(e1, e2);
                    } else {
                        lemma_opt_cmp_zero(e2, e3);
                    }
                } else if c12 == 0 {
                    lemma_opt_cmp_zero(g1, g2);
                } else {
                    lemma_opt_cmp_zero(g2, g3);
                }
            }
            (MaintView::Unstructured(x), MaintView::Unstructured(y), MaintView::Unstructured(z)) => {
                crate::text::lemma_lex_trans(x, y, z);
            }
            (MaintView::Nested(x), MaintView::Nested(y), MaintView::Nested(z)) => {
                lemma_mv_seq_cmp_trans(x, y, z);
            }
            _ => {}
        }
    }
}

/// The maintainer list order is transitive.
pub proof fn lemma_mv_seq_cmp_trans(x: Seq<MaintView>, y: Seq<MaintView>, z: Seq<MaintView>)
    requires
        mv_seq_cmp(x, y) < 0,
        mv_seq_cmp(y, z) < 0,
    ensures
        mv_seq_cmp(x, z) < 0,
    decreases x,
{
    lemma_mv_seq_cmp_range(x, y);
    lemma_mv_seq_cmp_range(y, z);
    lemma_mv_seq_cmp_range(x, z);
    if x.len() > 0 && y.len() > 0 && z.len() > 0 {
        lemma_mv_cmp_range(x[0], y[0]);
        lemma_mv_cmp_range(y[0], z[0]);
        lemma_mv_cmp_zero(x[0], y[0]);
        lemma_mv_cmp_zero(y[0], z[0]);
        if mv_cmp(x[0], y[0]) < 0 && mv_cmp(y[0], z[0]) < 0 {
            lemma_mv_cmp_trans(x[0], y[0], z[0]);
        } else if mv_cmp(x[0], y[0]) == 0 && mv_cmp(y[0], z[0]) == 0 {
            lemma_mv_seq_cmp_trans(x.skip(1), y.skip(1), z.skip(1));
            lemma_mv_cmp_zero(x[0], z[0]);
        } else if mv_cmp(x[0], y[0]) == 0 {
            assert(x[0] == y[0]);
        } else {
            assert(y[0] == z[0]);
        }
    }
}

/// Optional-string comparison is transitive.
proof fn lemma_opt_cmp_trans(a: Option<Seq<char>>, b: Option<Seq<char>>, c: Option<Seq<char>>)
    requires
        opt_cmp(a, b) < 0,
        opt_cmp(b, c) < 0,
    ensures
        opt_cmp(a, c) < 0,
{
    match (a, b, c) {
        (Some(x), Some(y), Some(z)) => {
            crate::text::lemma_lex_trans(x, y, z);
            if lex_lt(z, x) {
                crate::text::lemma_lex_asym(x, z);
            }
            crate::text::lemma_lex_irrefl(x);
        }
        _ => {}
    }
}

/// Executable three-way comparison of maintainers, equal to the spec-level
/// order on their views.
#[verifier::loop_isolation(false)]
pub fn maintainer_cmp(a: &Maintainer, b: &Maintainer) -> (o: Ordering)
    ensures
        (o == Ordering::Less) == (mv_cmp(m_view(*a), m_view(*b)) < 0),
        (o == Ordering::Greater) == (mv_cmp(m_view(*a), m_view(*b)) > 0),
        (o == Ordering::Equal) == (mv_cmp(m_view(*a), m_view(*b)) == 0),
    decreases *a,
{
    proof {
        lemma_mv_cmp_range(m_view(*a), m_view(*b));
    }
    match (a, b) {
        (
            Maintainer::Structured { github: g1, email: e1 },
            Maintainer::Structured { github: g2, email: e2 },
        ) => {
            let g = opt_str_cmp(g1, g2);
            if !matches!(g, Ordering::Equal) {
                return g;
            }
            opt_str_cmp(e1, e2)
        }
        (Maintainer::Structured { .. }, _) => Ordering::Less,
        (Maintainer::Unstructured(_), Maintainer::Structured { .. }) => Ordering::Greater,
        (Maintainer::Unstructured(x), Maintainer::Unstructured(y)) => {
            let c = str_cmp(x.as_str(), y.as_str());
            proof {
                if x@ == y@ {
                    crate::text::lemma_lex_irrefl(x@);
                }
            }
            c
        }
        (Maintainer::Unstructured(_), Maintainer::Nested(_)) => Ordering::Less,
        (Maintainer::Nested(x), Maintainer::Nested(y)) => {
            let mut i: usize = 0;
            let xn = x.len();
            let yn = y.len();
            proof {
                lemma_m_views(x@);
                lemma_m_views(y@);
                assert(m_views(x@).skip(0) =~= m_views(x@));
                assert(m_views(y@).skip(0) =~= m_views(y@));
            }
            while i < xn && i < yn
                invariant
                    0 <= i <= xn,
                    0 <= i <= yn,
                    mv_seq_cmp(m_views(x@), m_views(y@))
                        == mv_seq_cmp(m_views(x@).skip(i as int), m_views(y@).skip(i as int)),
                decreases xn - i,
            {
                proof {
                    assert(*x == (*a)->Nested_0);
                    assert(decreases_to!(*a => (*a)->Nested_0));
                    assert(decreases_to!(*x => x@[i as int]));
                }
                let c = maintainer_cmp(&x[i], &y[i]);
                proof {
                    lemma_m_views(x@);
                    lemma_m_views(y@);
                    lemma_mv_views_skip(x@, i as int);
                    lemma_mv_views_skip(y@, i as int);
                }
                if !matches!(c, Ordering::Equal) {
                    proof {
                        assert(m_views(x@).skip(i as int)[0] == m_view(x@[i as int]));
                        assert(m_views(y@).skip(i as int)[0] == m_view(y@[i as int]));
                    }
                    return c;
                }
                proof {
                    assert(m_views(x@).skip(i as int).skip(1) =~= m_views(x@).skip(i + 1));
                    assert(m_views(y@).skip(i as int).skip(1) =~= m_views(y@).skip(i + 1));
                    assert(m_views(x@).skip(i as int)[0] == m_view(x@[i as int]));
                    assert(m_views(y@).skip(i as int)[0] == m_view(y@[i as int]));
                }
                i = i + 1;
            }
            if xn < yn {
                Ordering::Less
            } else if yn < xn {
                Ordering::Greater
            } else {
                proof {
                    lemma_mv_seq_cmp_zero(m_views(x@).skip(i as int), m_views(y@).skip(i as int));
                    assert(m_views(x@).skip(i as int) =~= m_views(y@).skip(i as int));
                }
                Ordering::Equal
            }
        }
        (Maintainer::Nested(_), _) => Ordering::Greater,
    }
}

/// `e` inserted into `s` before the first element it precedes or equals.
pub open spec fn mv_insert(e: MaintView, s: Seq<MaintView>) -> Seq<MaintView>
    decreases s.len(),
{
    if s.len() == 0 {
        seq![e]
    } else if mv_cmp(e, s[0]) <= 0 {
        seq![e] + s
    } else {
        seq![s[0]] + mv_insert(e, s.skip(1))
    }
}

/// `s` sorted by the maintainer order: each element inserted in turn.
pub open spec fn mv_sort(s: Seq<MaintView>) -> Seq<MaintView>
    decreases s.len(),
{
    if s.len() == 0 {
        Seq::empty()
    } else {
        mv_insert(s.last(), mv_sort(s.drop_last()))
    }
}

/// `s` with runs of equal elements collapsed to their last occurrence.
pub open spec fn mv_dedup(s: Seq<MaintView>) -> Seq<MaintView>
    decreases s.len(),
{
    if s.len() == 0 {
        Seq::empty()
    } else if s.len() >= 2 && s[0] == s[1] {
        mv_dedup(s.skip(1))
    } else {
        seq![s[0]] + mv_dedup(s.skip(1))
    }
}

/// The non-strict maintainer order is transitive.
pub proof fn lemma_mv_le_trans(a: MaintView, b: MaintView, c: MaintView)
    requires
        mv_cmp(a, b) <= 0,
        mv_cmp(b, c) <= 0,
    ensures
        mv_cmp(a, c) <= 0,
{
    lemma_mv_cmp_zero(a, b);
    lemma_mv_cmp_zero(b, c);
    lemma_mv_cmp_range(a, b);
    lemma_mv_cmp_range(b, c);
    if mv_cmp(a, b) < 0 && mv_cmp(b, c) < 0 {
        lemma_mv_cmp_trans(a, b, c);
    }
}

/// A strict step followed by a non-strict one stays strict.
pub proof fn lemma_mv_lt_le_trans(a: MaintView, b: MaintView, c: MaintView)
    requires
        mv_cmp(a, b) < 0,
        mv_cmp(b, c) <= 0,
    ensures
        mv_cmp(a, c) < 0,
{
    lemma_mv_cmp_zero(b, c);
    lemma_mv_cmp_range(b, c);
    if mv_cmp(b, c) < 0 {
        lemma_mv_cmp_trans(a, b, c);
    }
}

/// Insertion adds exactly the inserted element.
pub proof fn lemma_mv_insert_contains(e: MaintView, s: Seq<MaintView>, x: MaintView)
    ensures
        mv_insert(e, s).contains(x) <==> (x == e || s.contains(x)),
    decreases s.len(),
{
    if s.len() == 0 {
        assert(mv_insert(e, s)[0] == e);
    } else if mv_cmp(e, s[0]) <= 0 {
        let t = seq![e] + s;
        if x == e || s.contains(x) {
            if x == e {
                assert(t[0] == x);
            } else {
                let w = choose|j: int| 0 <= j < s.len() && s[j] == x;
                assert(t[w + 1] == x);
            }
        }
        if t.contains(x) {
            let w = choose|j: int| 0 <= j < t.len() && t[j] == x;
            if w > 0 {
                assert(s[w - 1] == x);
            }
        }
    } else {
        lemma_mv_insert_contains(e, s.skip(1), x);
        let rest = mv_insert(e, s.skip(1));
        let t = seq![s[0]] + rest;
        if x == e || s.contains(x) {
            if x == s[0] {
                assert(t[0] == x);
            } else {
                if s.contains(x) && x != s[0] {
                    let w = choose|j: int| 0 <= j < s.len() && s[j] == x;
                    assert(s.skip(1)[w - 1] == x);
                }
                assert(rest.contains(x));
                let w = choose|j: int| 0 <= j < rest.len() && rest[j] == x;
                assert(t[w + 1] == x);
            }
        }
        if t.contains(x) {
            let w = choose|j: int| 0 <= j < t.len() && t[j] == x;
            if w == 0 {
                assert(s[0] == x);
            } else {
                assert(rest[w - 1] == x);
                if x != e {
                    assert(s.skip(1).contains(x));
                    let u = choose|j: int| 0 <= j < s.skip(1).len() && s.skip(1)[j] == x;
                    assert(s[u + 1] == x);
                }
            }
        }
    }
}

/// The list is sorted: every pair of positions respects the order.
pub open spec fn mv_sorted(s: Seq<MaintView>) -> bool {
    forall|i: int, j: int| 0 <= i < j < s.len() ==> mv_cmp(#[trigger] s[i], #[trigger] s[j]) <= 0
}

/// Insertion into a sorted list keeps it sorted.
pub proof fn lemma_mv_insert_sorted(e: MaintView, s: Seq<MaintView>)
    requires
        mv_sorted(s),
    ensures
        mv_sorted(mv_insert(e, s)),
    decreases s.len(),
{
    if s.len() == 0 {
    } else if mv_cmp(e, s[0]) <= 0 {
        let t = seq![e] + s;
        assert forall|i: int, j: int| 0 <= i < j < t.len()
            implies mv_cmp(#[trigger] t[i], #[trigger] t[j]) <= 0 by {
            if i == 0 {
                assert(t[j] == s[j - 1]);
                if j > 1 {
                    lemma_mv_le_trans(e, s[0], s[j - 1]);
                }
            } else {
                assert(t[i] == s[i - 1] && t[j] == s[j - 1]);
            }
        }
    } else {
        assert(mv_sorted(s.skip(1))) by {
            assert(forall|i: int, j: int| 0 <= i < j < s.skip(1).len()
                ==> #[trigger] s.skip(1)[i] == s[i + 1] && #[trigger] s.skip(1)[j] == s[j + 1]);
        }
        lemma_mv_insert_sorted(e, s.skip(1));
        let rest = mv_insert(e, s.skip(1));
        let t = seq![s[0]] + rest;
        lemma_mv_cmp_antisym(e, s[0]);
        lemma_mv_cmp_range(e, s[0]);
        assert forall|i: int, j: int| 0 <= i < j < t.len()
            implies mv_cmp(#[trigger] t[i], #[trigger] t[j]) <= 0 by {
            if i == 0 {
                let x = t[j];
                assert(rest[j - 1] == x);
                assert(rest.contains(x));
                lemma_mv_insert_contains(e, s.skip(1), x);
                if x == e {
                    assert(mv_cmp(s[0], e) < 0);
                } else {
                    let w = choose|u: int| 0 <= u < s.skip(1).len() && s.skip(1)[u] == x;
                    assert(s[w + 1] == x);
                }
            } else {
                assert(t[i] == rest[i - 1] && t[j] == rest[j - 1]);
            }
        }
    }
}

/// Law: sorting maintainers yields a sorted list with exactly the same
/// members.
pub proof fn lemma_mv_sort_sorted(s: Seq<MaintView>)
    ensures
        mv_sorted(mv_sort(s)),
        forall|x: MaintView| mv_sort(s).contains(x) <==> s.contains(x),
    decreases s.len(),
{
    if s.len() > 0 {
        lemma_mv_sort_sorted(s.drop_last());
        lemma_mv_insert_sorted(s.last(), mv_sort(s.drop_last()));
        assert forall|x: MaintView| mv_sort(s).contains(x) <==> s.contains(x) by {
            lemma_mv_insert_contains(s.last(), mv_sort(s.drop_last()), x);
            if x == s.last() {
                assert(s[s.len() - 1] == x);
            }
            if s.drop_last().contains(x) {
                let w = choose|j: int| 0 <= j < s.len() - 1 && s.drop_last()[j] == x;
                assert(s[w] == x);
            }
            if s.contains(x) && x != s.last() {
                let w = choose|j: int| 0 <= j < s.len() && s[j] == x;
                assert(s.drop_last()[w] == x);
            }
        }
    }
}

/// Law: collapsing a sorted maintainer list leaves a strictly sorted
/// list — sorted and free of duplicates — with exactly the same members.
pub proof fn lemma_mv_dedup_strict(s: Seq<MaintView>)
    requires
        mv_sorted(s),
    ensures
        forall|i: int, j: int| 0 <= i < j < mv_dedup(s).len()
            ==> mv_cmp(#[trigger] mv_dedup(s)[i], #[trigger] mv_dedup(s)[j]) < 0,
        forall|x: MaintView| mv_dedup(s).contains(x) <==> s.contains(x),
    decreases s.len(),
{
    if s.len() == 0 {
    } else {
        assert(mv_sorted(s.skip(1))) by {
            assert(forall|i: int, j: int| 0 <= i < j < s.skip(1).len()
                ==> #[trigger] s.skip(1)[i] == s[i + 1] && #[trigger] s.skip(1)[j] == s[j + 1]);
        }
        lemma_mv_dedup_strict(s.skip(1));
        let rest = mv_dedup(s.skip(1));
        if s.len() >= 2 && s[0] == s[1] {
            assert forall|x: MaintView| mv_dedup(s).contains(x) <==> s.contains(x) by {
                lemma_mv_skip_contains(s, x);
                if s.skip(1).contains(x) {
                }
                if s.contains(x) && x != s[0] {
                }
                if x == s[0] {
                    assert(s.skip(1)[0] == s[1]);
                }
            }
        } else {
            let t = seq![s[0]] + rest;
            assert forall|i: int, j: int| 0 <= i < j < t.len()
                implies mv_cmp(#[trigger] t[i], #[trigger] t[j]) < 0 by {
                if i == 0 {
                    let x = t[j];
                    assert(rest[j - 1] == x);
                    assert(rest.contains(x));
                    assert(s.skip(1).contains(x));
                    let w = choose|u: int| 0 <= u < s.skip(1).len() && s.skip(1)[u] == x;
                    assert(s[w + 1] == x);
                    if s.len() >= 2 {
                        lemma_mv_cmp_zero(s[0], s[1]);
                        assert(mv_cmp(s[0], s[1]) < 0 || mv_cmp(s[0], s[1]) > 0);
                        lemma_mv_cmp_range(s[0], s[1]);
                        assert(mv_cmp(s[0], s[1]) <= 0);
                        if w + 1 == 1 {
                            lemma_mv_cmp_zero(s[1], x);
                        }
                        assert(mv_cmp(s[1], x) <= 0);
                        lemma_mv_lt_le_trans(s[0], s[1], x);
                    }
                } else {
                    assert(t[i] == rest[i - 1] && t[j] == rest[j - 1]);
                }
            }
            assert forall|x: MaintView| mv_dedup(s).contains(x) <==> s.contains(x) by {
                lemma_mv_skip_contains(s, x);
                if x == s[0] {
                    assert(t[0] == x);
                }
                if rest.contains(x) {
                    let w = choose|u: int| 0 <= u < rest.len() && rest[u] == x;
                    assert(t[w + 1] == x);
                }
                if t.contains(x) && x != s[0] {
                    let w = choose|u: int| 0 <= u < t.len() && t[u] == x;
                    assert(rest[w - 1] == x);
                }
            }
        }
    }
}

/// Membership in a list is membership in its head or its tail.
proof fn lemma_mv_skip_contains(s: Seq<MaintView>, x: MaintView)
    requires
        s.len() >= 1,
    ensures
        s.contains(x) <==> (x == s[0] || s.skip(1).contains(x)),
{
    if s.skip(1).contains(x) {
        let w = choose|u: int| 0 <= u < s.skip(1).len() && s.skip(1)[u] == x;
        assert(s[w + 1] == x);
    }
    if s.contains(x) && x != s[0] {
        let w = choose|u: int| 0 <= u < s.len() && s[u] == x;
        assert(s.skip(1)[w - 1] == x);
    }
}

/// Inserting at the scanned position is the spec-level insertion: the
/// position is the first whose element the new one precedes or equals.
pub proof fn lemma_mv_insert_at(e: MaintView, s: Seq<MaintView>, pos: int)
    requires
        0 <= pos <= s.len(),
        forall|j: int| 0 <= j < pos ==> mv_cmp(e, #[trigger] s[j]) > 0,
        pos == s.len() || mv_cmp(e, s[pos]) <= 0,
    ensures
        mv_insert(e, s) == s.subrange(0, pos) + seq![e] + s.skip(pos),
    decreases pos,
{
    if pos == 0 {
        if s.len() == 0 {
            assert(mv_insert(e, s) =~= s.subrange(0, 0) + seq![e] + s.skip(0));
        } else {
            assert(mv_insert(e, s) =~= s.subrange(0, 0) + seq![e] + s.skip(0));
        }
    } else {
        lemma_mv_insert_at(e, s.skip(1), pos - 1);
        assert(s.skip(1).subrange(0, pos - 1) =~= s.subrange(1, pos));
        assert(s.skip(1).skip(pos - 1) =~= s.skip(pos));
        assert(mv_insert(e, s) == seq![s[0]] + mv_insert(e, s.skip(1)));
        assert(seq![s[0]] + (s.subrange(1, pos) + seq![e] + s.skip(pos))
            =~= s.subrange(0, pos) + seq![e] + s.skip(pos));
    }
}

/// Sorts maintainers by the maintainer order and removes duplicates.
#[verifier::loop_isolation(false)]
#[verifier::rlimit(100)]
pub fn sort_dedup_maintainers(v: Vec<Maintainer>) -> (r: Vec<Maintainer>)
    ensures
        m_views(r@) == mv_dedup(mv_sort(m_views(v@))),
{
    let mut drained = v;
    let ghost orig = m_views(drained@);
    let total: usize = drained.len();
    let mut sorted: Vec<Maintainer> = Vec::new();
    let mut i: usize = 0;
    proof {
        lemma_m_views(drained@);
        assert(drained@ =~= drained@.skip(0));
        assert(m_views(sorted@) =~= mv_sort(orig.subrange(0, 0)));
    }
    while drained.len() > 0
        invariant
            0 <= i <= total,
            total == orig.len(),
            i + drained@.len() == total,
            m_views(drained@) == orig.skip(i as int),
            m_views(sorted@) == mv_sort(orig.subrange(0, i as int)),
        decreases drained@.len(),
    {
        proof {
            lemma_m_views(drained@);
            lemma_mv_views_skip_seq(drained@, 1);
        }
        let e = drained.remove(0);
        proof {
            assert(m_views(drained@) =~= orig.skip(i + 1)) by {
                lemma_m_views(drained@);
            }
            assert(m_view(e) == orig[i as int]) by {
                assert(orig.skip(i as int)[0] == orig[i as int]);
            }
        }
        // find the insertion position
        let mut pos: usize = 0;
        while pos < sorted.len()
            invariant
                0 <= pos <= sorted@.len(),
                forall|j: int| 0 <= j < pos
                    ==> mv_cmp(m_view(e), #[trigger] m_views(sorted@)[j]) > 0,
            decreases sorted@.len() - pos,
        {
            proof {
                lemma_m_views(sorted@);
            }
            if !matches!(maintainer_cmp(&e, &sorted[pos]), Ordering::Greater) {
                break;
            }
            pos = pos + 1;
        }
        let ghost before = sorted@;
        proof {
            lemma_m_views(before);
            lemma_mv_cmp_range(m_view(e), orig[i as int]);
        }
        sorted.insert(pos, e);
        proof {
            lemma_m_views(sorted@);
            lemma_mv_insert_at(m_view(e), m_views(before), pos as int);
            assert(m_views(sorted@) =~= m_views(before).subrange(0, pos as int)
                + seq![m_view(e)] + m_views(before).skip(pos as int)) by {
                assert(forall|j: int| 0 <= j < pos ==> sorted@[j] == before[j]);
                assert(forall|j: int| pos < j < sorted@.len() ==> sorted@[j] == before[j - 1]);
                assert(sorted@[pos as int] == e);
            }
            assert(orig.subrange(0, i + 1).drop_last() =~= orig.subrange(0, i as int));
            assert(orig.subrange(0, i + 1).last() == orig[i as int]);
        }
        i = i + 1;
    }
    proof {
        assert(orig.subrange(0, i as int) =~= orig);
    }
    // collapse runs of equal maintainers
    let ghost sortedv = m_views(sorted@);
    let mut out: Vec<Maintainer> = Vec::new();
    let mut k: usize = 0;
    proof {
        assert(sortedv.skip(0) =~= sortedv);
        assert(m_views(out@) + mv_dedup(sortedv.skip(0)) =~= mv_dedup(sortedv));
    }
    while k < sorted.len()
        invariant
            0 <= k <= sorted@.len(),
            sortedv == m_views(sorted@),
            m_views(out@) + mv_dedup(sortedv.skip(k as int)) == mv_dedup(sortedv),
        decreases sorted@.len() - k,
    {
        proof {
            lemma_m_views(sorted@);
            assert(sortedv.skip(k as int)[0] == sortedv[k as int]);
        }
        if k + 1 < sorted.len() && matches!(
            maintainer_cmp(&sorted[k], &sorted[k + 1]),
            Ordering::Equal,
        ) {
            proof {
                lemma_mv_cmp_zero(sortedv[k as int], sortedv[k + 1]);
                assert(sortedv.skip(k as int)[1] == sortedv[k + 1]);
                assert(sortedv.skip(k as int).skip(1) =~= sortedv.skip(k + 1));
            }
        } else {
            let ghost pre = out@;
            let c = sorted[k].clone();
            out.push(c);
            proof {
                if k + 1 < sorted@.len() {
                    lemma_mv_cmp_zero(sortedv[k as int], sortedv[k + 1]);
                    assert(sortedv.skip(k as int)[1] == sortedv[k + 1]);
                }
                assert(out@.drop_last() =~= pre);
                lemma_m_views_push(out@, m_views(pre), m_view(out@.last()));
                assert(sortedv.skip(k as int).skip(1) =~= sortedv.skip(k + 1));
                assert(m_views(out@) + mv_dedup(sortedv.skip(k + 1)) =~= mv_dedup(sortedv));
            }
        }
        k = k + 1;
    }
    proof {
        lemma_m_views(sorted@);
        assert(sortedv.skip(k as int).len() == 0);
        assert(m_views(out@) + mv_dedup(sortedv.skip(k as int)) =~= m_views(out@));
    }
    out
}

/// Pushing a maintainer extends the view list by its view.
pub proof fn lemma_m_views_push(v: Seq<Maintainer>, prior: Seq<MaintView>, mv: MaintView)
    requires
        v.len() >= 1,
        m_views(v.drop_last()) == prior,
        m_view(v.last()) == mv,
    ensures
        m_views(v) == prior + seq![mv],
{
    lemma_m_views(v);
    lemma_m_views(v.drop_last());
    assert(m_views(v) =~= prior + seq![mv]) by {
        assert(forall|j: int| 0 <= j < v.len() - 1 ==> #[trigger] v.drop_last()[j] == v[j]);
    }
}

/// Skipping in a maintainer list's views is viewing after a skip.
pub proof fn lemma_mv_views_skip_seq(v: Seq<Maintainer>, i: int)
    requires
        0 <= i <= v.len(),
    ensures
        m_views(v).skip(i) == m_views(v.skip(i)),
{
    lemma_m_views(v);
    lemma_m_views(v.skip(i));
    assert(m_views(v).skip(i) =~= m_views(v.skip(i)));
}

/// Skipping in the view list is viewing after a skip.
proof fn lemma_mv_views_skip(v: Seq<Maintainer>, i: int)
    requires
        0 <= i <= v.len(),
    ensures
        m_views(v).skip(i) == m_views(v.skip(i)),
{
    lemma_m_views(v);
    lemma_m_views(v.skip(i));
    assert(m_views(v).skip(i) =~= m_views(v.skip(i)));
}

/// Executable three-way comparison of optional strings.
fn opt_str_cmp(a: &Option<String>, b: &Option<String>) -> (o: Ordering)
    ensures
        (o == Ordering::Less) == (opt_cmp(view_opt(*a), view_opt(*b)) < 0),
        (o == Ordering::Greater) == (opt_cmp(view_opt(*a), view_opt(*b)) > 0),
        (o == Ordering::Equal) == (opt_cmp(view_opt(*a), view_opt(*b)) == 0),
{
    match (a, b) {
        (None, None) => Ordering::Equal,
        (None, Some(_)) => Ordering::Less,
        (Some(_), None) => Ordering::Greater,
        (Some(x), Some(y)) => {
            let c = str_cmp(x.as_str(), y.as_str());
            proof {
                if x@ == y@ {
                    crate::text::lemma_lex_irrefl(x@);
                }
            }
            c
        }
    }
}

/// The view of an optional string.
pub open spec fn view_opt(a: Option<String>) -> Option<Seq<char>> {
    match a {
        Some(s) => Some(s@),
        None => None,
    }
}

/// `e` inserted into `s` before the first element it precedes or equals,
/// in the lexicographic order.
pub open spec fn sseq_insert(e: Seq<char>, s: Seq<Seq<char>>) -> Seq<Seq<char>>
    decreases s.len(),
{
    if s.len() == 0 {
        seq![e]
    } else if lex_lt(e, s[0]) || e == s[0] {
        seq![e] + s
    } else {
        seq![s[0]] + sseq_insert(e, s.skip(1))
    }
}

/// `s` sorted lexicographically: each element inserted in turn.
pub open spec fn sseq_sort(s: Seq<Seq<char>>) -> Seq<Seq<char>>
    decreases s.len(),
{
    if s.len() == 0 {
        Seq::empty()
    } else {
        sseq_insert(s.last(), sseq_sort(s.drop_last()))
    }
}

/// `s` with runs of equal strings collapsed to their last occurrence.
pub open spec fn sseq_dedup(s: Seq<Seq<char>>) -> Seq<Seq<char>>
    decreases s.len(),
{
    if s.len() == 0 {
        Seq::empty()
    } else if s.len() >= 2 && s[0] == s[1] {
        sseq_dedup(s.skip(1))
    } else {
        seq![s[0]] + sseq_dedup(s.skip(1))
    }
}

/// Inserting at the scanned position is the spec-level insertion.
pub proof fn lemma_sseq_insert_at(e: Seq<char>, s: Seq<Seq<char>>, pos: int)
    requires
        0 <= pos <= s.len(),
        forall|j: int| 0 <= j < pos ==> !(lex_lt(e, #[trigger] s[j]) || e == s[j]),
        pos == s.len() || lex_lt(e, s[pos]) || e == s[pos],
    ensures
        sseq_insert(e, s) == s.subrange(0, pos) + seq![e] + s.skip(pos),
    decreases pos,
{
    if pos == 0 {
        assert(sseq_insert(e, s) =~= s.subrange(0, 0) + seq![e] + s.skip(0));
    } else {
        lemma_sseq_insert_at(e, s.skip(1), pos - 1);
        assert(s.skip(1).subrange(0, pos - 1) =~= s.subrange(1, pos));
        assert(s.skip(1).skip(pos - 1) =~= s.skip(pos));
        assert(seq![s[0]] + (s.subrange(1, pos) + seq![e] + s.skip(pos))
            =~= s.subrange(0, pos) + seq![e] + s.skip(pos));
    }
}

/// Sorts strings lexicographically and removes duplicates.
#[verifier::loop_isolation(false)]
pub fn sort_dedup_strings(v: Vec<String>) -> (r: Vec<String>)
    ensures
        str_views(r@) == sseq_dedup(sseq_sort(str_views(v@))),
{
    let mut drained = v;
    let ghost orig = str_views(drained@);
    let total: usize = drained.len();
    let mut sorted: Vec<String> = Vec::new();
    let mut i: usize = 0;
    proof {
        lemma_str_views(drained@);
        assert(str_views(sorted@) =~= sseq_sort(orig.subrange(0, 0)));
    }
    while drained.len() > 0
        invariant
            0 <= i <= total,
            total == orig.len(),
            i + drained@.len() == total,
            str_views(drained@) == orig.skip(i as int),
            str_views(sorted@) == sseq_sort(orig.subrange(0, i as int)),
        decreases drained@.len(),
    {
        let ghost oldd = drained@;
        proof {
            lemma_str_views(oldd);
        }
        let e = drained.remove(0);
        proof {
            lemma_str_views(oldd);
            lemma_str_views(drained@);
            assert forall|j: int| 0 <= j < drained@.len()
                implies #[trigger] str_views(drained@)[j] == orig.skip(i as int)[j + 1] by {
                assert(str_views(drained@)[j] == drained@[j]@);
                assert(drained@[j] == oldd[j + 1]);
                assert(str_views(oldd)[j + 1] == oldd[j + 1]@);
            }
            assert(str_views(drained@) =~= orig.skip(i + 1));
            assert(e@ == orig[i as int]) by {
                assert(orig.skip(i as int)[0] == orig[i as int]);
            }
        }
        let mut pos: usize = 0;
        while pos < sorted.len()
            invariant
                0 <= pos <= sorted@.len(),
                forall|j: int| 0 <= j < pos
                    ==> !(lex_lt(e@, #[trigger] str_views(sorted@)[j]) || e@ == str_views(sorted@)[j]),
            decreases sorted@.len() - pos,
        {
            proof {
                lemma_str_views(sorted@);
            }
            if !matches!(str_cmp(e.as_str(), sorted[pos].as_str()), Ordering::Greater) {
                proof {
                    if !(lex_lt(e@, sorted@[pos as int]@) || e@ == sorted@[pos as int]@) {
                        crate::text::lemma_lex_connex(e@, sorted@[pos as int]@);
                    }
                }
                break;
            }
            proof {
                crate::text::lemma_lex_asym(sorted@[pos as int]@, e@);
            }
            pos = pos + 1;
        }
        let ghost before = sorted@;
        proof {
            lemma_str_views(before);
        }
        sorted.insert(pos, e);
        proof {
            lemma_str_views(sorted@);
            lemma_sseq_insert_at(orig[i as int], str_views(before), pos as int);
            assert(str_views(sorted@) =~= str_views(before).subrange(0, pos as int)
                + seq![orig[i as int]] + str_views(before).skip(pos as int)) by {
                assert(forall|j: int| 0 <= j < pos ==> sorted@[j] == before[j]);
                assert(forall|j: int| pos < j < sorted@.len() ==> sorted@[j] == before[j - 1]);
            }
            assert(orig.subrange(0, i + 1).drop_last() =~= orig.subrange(0, i as int));
            assert(orig.subrange(0, i + 1).last() == orig[i as int]);
        }
        i = i + 1;
    }
    proof {
        assert(orig.subrange(0, i as int) =~= orig);
    }
    let ghost sortedv = str_views(sorted@);
    let mut out: Vec<String> = Vec::new();
    let mut k: usize = 0;
    proof {
        assert(sortedv.skip(0) =~= sortedv);
        assert(str_views(out@) + sseq_dedup(sortedv.skip(0)) =~= sseq_dedup(sortedv));
    }
    while k < sorted.len()
        invariant
            0 <= k <= sorted@.len(),
            sortedv == str_views(sorted@),
            str_views(out@) + sseq_dedup(sortedv.skip(k as int)) == sseq_dedup(sortedv),
        decreases sorted@.len() - k,
    {
        proof {
            lemma_str_views(sorted@);
            assert(sortedv.skip(k as int)[0] == sortedv[k as int]);
        }
        if k + 1 < sorted.len() && str_eq(sorted[k].as_str(), sorted[k + 1].as_str()) {
            proof {
                assert(sortedv.skip(k as int)[1] == sortedv[k + 1]);
                assert(sortedv.skip(k as int).skip(1) =~= sortedv.skip(k + 1));
            }
        } else {
            let ghost pre = out@;
            let c = sorted[k].clone();
            out.push(c);
            proof {
                lemma_str_views(pre);
                lemma_str_views(out@);
                if k + 1 < sorted@.len() {
                    assert(sortedv.skip(k as int)[1] == sortedv[k + 1]);
                }
                assert(forall|j: int| 0 <= j < pre.len() ==> #[trigger] out@[j] == pre[j]);
                assert(str_views(out@) =~= str_views(pre) + seq![sortedv[k as int]]);
                assert(sortedv.skip(k as int).skip(1) =~= sortedv.skip(k + 1));
                assert(str_views(out@) + sseq_dedup(sortedv.skip(k + 1)) =~= sseq_dedup(sortedv));
            }
        }
        k = k + 1;
    }
    proof {
        lemma_str_views(sorted@);
        assert(sortedv.skip(k as int).len() == 0);
        assert(str_views(out@) + sseq_dedup(sortedv.skip(k as int)) =~= str_views(out@));
    }
    out
}

/// One package record as reported by the external package evaluator.
#[derive(Debug)]
pub struct NixEnvPkg {
    /// Full `name-version` string of the package.
    pub pkg: String,
    /// Build architecture the package was evaluated for.
    pub system: String,
    pub meta: PkgMeta,
}

/// Metadata section of a package record. Only the interesting fields are
/// kept.
#[derive(Debug)]
pub struct PkgMeta {
    pub available: bool,
    pub maintainers: Vec<Maintainer>,
    /// Output names under which the package may be installed.
    pub outputs: Vec<String>,
    pub known_vulnerabilities: Vec<String>,
}

/// The full set of packages reported by the external package evaluator,
/// indexed by attribute name.
#[derive(Debug)]
pub struct AllPackages {
    pub packages: Vec<(String, NixEnvPkg)>,
}

/// The filter keeping packages that are available, built for the
/// configured architecture, and versioned.
pub open spec fn available_filter() -> spec_fn((String, NixEnvPkg)) -> bool {
    |e: (String, NixEnvPkg)| keep_pkg(e.1)
}

/// The filter keeping packages installed under the given known names.
pub open spec fn installed_filter(known: Seq<Seq<char>>) -> spec_fn((String, NixEnvPkg)) -> bool {
    |e: (String, NixEnvPkg)| crate::store::installed_in(known, e.1)
}

impl AllPackages {
    /// Discards every package that is unavailable, built for another
    /// architecture, or whose name carries no version.
    #[verifier::loop_isolation(false)]
    pub fn retain_available(&mut self)
        ensures
            final(self).packages@ == old(self).packages@.filter(available_filter()),
    {
        let ghost pred = available_filter();
        let mut drained: Vec<(String, NixEnvPkg)> = Vec::new();
        core::mem::swap(&mut drained, &mut self.packages);
        let ghost orig = drained@;
        let total: usize = drained.len();
        let mut out: Vec<(String, NixEnvPkg)> = Vec::new();
        let mut i: usize = 0;
        proof {
            reveal(Seq::filter);
            assert(orig.subrange(0, 0).filter(pred) =~= Seq::<(String, NixEnvPkg)>::empty());
            assert(drained@ =~= orig.skip(0));
        }
        while drained.len() > 0
            invariant
                0 <= i <= orig.len(),
                i + drained@.len() == orig.len(),
                drained@ == orig.skip(i as int),
                out@ == orig.subrange(0, i as int).filter(pred),
            decreases drained@.len(),
        {
            proof {
                assert(orig.skip(i as int)[0] == orig[i as int]);
            }
            let e = drained.remove(0);
            proof {
                assert(drained@ =~= orig.skip(i + 1));
            }
            let keep = check_keep_pkg(&e.1);
            proof {
                reveal(Seq::filter);
                assert(orig.subrange(0, i + 1).drop_last() =~= orig.subrange(0, i as int));
                assert(orig.subrange(0, i + 1).last() == orig[i as int]);
                assert(pred(orig[i as int]) == keep_pkg(orig[i as int].1));
                assert(orig.subrange(0, i + 1).filter(pred) == (if pred(orig[i as int]) {
                    orig.subrange(0, i as int).filter(pred).push(orig[i as int])
                } else {
                    orig.subrange(0, i as int).filter(pred)
                }));
            }
            if keep {
                out.push(e);
            }
            i = i + 1;
        }
        proof {
            assert(orig.subrange(0, i as int) =~= orig);
        }
        self.packages = out;
    }

    /// Discards every package that the store index does not report as
    /// installed.
    #[verifier::loop_isolation(false)]
    pub fn retain_installed(&mut self, stores: &crate::store::StoreContents)
        ensures
            final(self).packages@ == old(self).packages@.filter(installed_filter(stores@)),
    {
        let ghost pred = installed_filter(stores@);
        let mut drained: Vec<(String, NixEnvPkg)> = Vec::new();
        core::mem::swap(&mut drained, &mut self.packages);
        let ghost orig = drained@;
        let total: usize = drained.len();
        let mut out: Vec<(String, NixEnvPkg)> = Vec::new();
        let mut i: usize = 0;
        proof {
            reveal(Seq::filter);
            assert(orig.subrange(0, 0).filter(pred) =~= Seq::<(String, NixEnvPkg)>::empty());
            assert(drained@ =~= orig.skip(0));
        }
        while drained.len() > 0
            invariant
                0 <= i <= orig.len(),
                i + drained@.len() == orig.len(),
                drained@ == orig.skip(i as int),
                out@ == orig.subrange(0, i as int).filter(pred),
            decreases drained@.len(),
        {
            proof {
                assert(orig.skip(i as int)[0] == orig[i as int]);
            }
            let e = drained.remove(0);
            proof {
                assert(drained@ =~= orig.skip(i + 1));
            }
            let keep = stores.is_installed(&e.1);
            proof {
                reveal(Seq::filter);
                assert(orig.subrange(0, i + 1).drop_last() =~= orig.subrange(0, i as int));
                assert(orig.subrange(0, i + 1).last() == orig[i as int]);
                assert(pred(orig[i as int])
                    == crate::store::installed_in(stores@, orig[i as int].1));
                assert(orig.subrange(0, i + 1).filter(pred) == (if pred(orig[i as int]) {
                    orig.subrange(0, i as int).filter(pred).push(orig[i as int])
                } else {
                    orig.subrange(0, i as int).filter(pred)
                }));
            }
            if keep {
                out.push(e);
            }
            i = i + 1;
        }
        proof {
            assert(orig.subrange(0, i as int) =~= orig);
        }
        self.packages = out;
    }
}

/// A record is kept for scanning when it is available, built for the
/// configured architecture, and its name carries a version.
pub open spec fn keep_pkg(p: NixEnvPkg) -> bool {
    p.meta.available && p.system@ == arch_view() && has_version(p.pkg@)
}

/// Executable form of the keep rule.
pub fn check_keep_pkg(p: &NixEnvPkg) -> (r: bool)
    ensures
        r == keep_pkg(*p),
{
    if !p.meta.available {
        return false;
    }
    if !str_eq(p.system.as_str(), system_arch()) {
        return false;
    }
    match crate::package::Package::parse(p.pkg.as_str()) {
        Ok(_) => true,
        Err(_) => false,
    }
}

} // verus!
