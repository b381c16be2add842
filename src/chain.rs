//! `Chain`: the tree of repeat-counted groups that a compound condenses to,
//! with grouping, minimizing, reversing and rendering.

use vstd::prelude::*;
use vstd::string::StringExecFns;
use crate::numeral::push_decimal;
use crate::compound::{Compound, CompoundView, compound_tree, lemma_compound_tree_wf};
use crate::tree::{
    Tree, count_of, with_count, mergeable, wf, weight, group_tree, group_all, merge_runs,
    lemma_group_all_prefix, lemma_sums_prefix, lemma_sums_monotone, lemma_child_weight,
    lemma_count_sum_group_all, lemma_merge_runs_counts, lemma_wf_all, min_tree, min_all,
    minimize_tree, lemma_min_all, lemma_min_tree, lemma_minimize_tree, lemma_weight_all_single,
    lemma_weight_unit, lemma_count_le_weight, unit_weight, canon, lemma_group_tree,
    lemma_with_own_count, rev_tree, rev_all, flip, lemma_rev_all, lemma_rev_tree, render,
    render_all, lemma_group_idempotent, lemma_min_no_small, lemma_min_id, lemma_rev_stable,
    no_small_groups, weight_all, lemma_canonical_is_stable, lemma_min_no_single,
    lemma_min_fixed, lemma_group_weight, lemma_min_weight, lemma_rev_weight,
};

verus! {

/// A condensed-formula tree: `Vec` is an ordered concatenation of sub-chains
/// repeated `count` times, `KV` a run of `count` atoms of one symbol.
#[derive(Debug)]
pub enum Chain {
    Vec(Vec<Chain>, usize),
    KV(String, usize),
}

impl View for Chain {
    type V = Tree;

    open spec fn view(&self) -> Tree
        decreases self,
    {
        match self {
            Chain::Vec(v, c) => Tree::Group(views(v@), *c as nat),
            Chain::KV(s, c) => Tree::Leaf(s@, *c as nat),
        }
    }
}

/// The models of a sequence of chains.
pub open spec fn views(s: Seq<Chain>) -> Seq<Tree>
    decreases s,
{
    if s.len() == 0 {
        Seq::empty()
    } else {
        views(s.subrange(0, s.len() - 1)).push(s[s.len() - 1]@)
    }
}

pub proof fn lemma_views(s: Seq<Chain>)
    ensures
        views(s).len() == s.len(),
        forall|i: int| 0 <= i < s.len() ==> #[trigger] views(s)[i] == s[i]@,
    decreases s.len(),
{
    if s.len() > 0 {
        let t = s.subrange(0, s.len() - 1);
        lemma_views(t);
        assert(views(s) == views(t).push(s[s.len() - 1]@));
        assert forall|i: int| 0 <= i < s.len() implies #[trigger] views(s)[i] == s[i]@ by {
            if i < s.len() - 1 {
                assert(t[i] == s[i]);
            }
        }
    }
}

impl Chain {
    /// A copy of the whole tree.
    pub fn duplicate(&self) -> (r: Chain)
        ensures
            r@ == self@,
        decreases self,
    {
        match self {
            Chain::KV(s, c) => Chain::KV(s.clone(), *c),
            Chain::Vec(v, c) => {
                let mut out: Vec<Chain> = Vec::new();
                let mut i: usize = 0;
                while i < v.len()
                    invariant
                        *self == Chain::Vec(*v, *c),
                        i <= v.len(),
                        out@.len() == i,
                        forall|j: int| 0 <= j < i ==> #[trigger] out@[j]@ == v@[j]@,
                    decreases v.len() - i,
                {
                    proof {
                        assert(decreases_to!(v => v[i as int]));
                        assert(decreases_to!(*self => (*self)->Vec_0));
                    }
                    out.push(v[i].duplicate());
                    i += 1;
                }
                proof {
                    lemma_views(out@);
                    lemma_views(v@);
                    assert(views(out@) =~= views(v@));
                }
                Chain::Vec(out, *c)
            },
        }
    }
}

impl Clone for Chain {
    fn clone(&self) -> (r: Self)
        ensures
            r@ == self@,
    {
        self.duplicate()
    }
}

/// Whether two sequences of chains are equal, element by element.
fn same_children(v: &Vec<Chain>, w: &Vec<Chain>) -> (r: bool)
    ensures
        r == (views(v@) == views(w@)),
{
    proof {
        lemma_views(v@);
        lemma_views(w@);
    }
    if v.len() != w.len() {
        return false;
    }
    let mut i: usize = 0;
    while i < v.len()
        invariant
            v.len() == w.len(),
            views(v@).len() == v.len(),
            views(w@).len() == w.len(),
            forall|j: int| 0 <= j < v.len() ==> #[trigger] views(v@)[j] == v@[j]@,
            forall|j: int| 0 <= j < w.len() ==> #[trigger] views(w@)[j] == w@[j]@,
            i <= v.len(),
            forall|j: int| 0 <= j < i ==> #[trigger] v@[j]@ == w@[j]@,
        decreases v.len() - i,
    {
        if !v[i].same_as(&w[i]) {
            assert(views(v@)[i as int] != views(w@)[i as int]);
            return false;
        }
        i += 1;
    }
    assert(views(v@) =~= views(w@));
    true
}

impl Chain {
    /// The outer repeat count.
    pub fn get_count(&self) -> (r: usize)
        ensures
            r as nat == count_of(self@),
    {
        match self {
            Chain::Vec(_, c) => *c,
            Chain::KV(_, c) => *c,
        }
    }

    /// The same chain with its outer repeat count replaced by `n`.
    pub fn with_count(self, n: usize) -> (r: Chain)
        ensures
            r@ == with_count(self@, n as nat),
    {
        match self {
            Chain::Vec(v, _) => Chain::Vec(v, n),
            Chain::KV(s, _) => Chain::KV(s, n),
        }
    }

    /// Full structural equality: same shape, symbols, counts and order.
    pub fn same_as(&self, other: &Chain) -> (r: bool)
        ensures
            r == (self@ == other@),
        decreases self,
    {
        match self {
            Chain::KV(s, c) => match other {
                Chain::KV(t, d) => *c == *d && s.eq(t),
                Chain::Vec(_, _) => false,
            },
            Chain::Vec(v, c) => match other {
                Chain::KV(_, _) => false,
                Chain::Vec(w, d) => {
                    if *c != *d || v.len() != w.len() {
                        proof {
                            lemma_views(v@);
                            lemma_views(w@);
                        }
                        return false;
                    }
                    let mut i: usize = 0;
                    while i < v.len()
                        invariant
                            *self == Chain::Vec(*v, *c),
                            *other == Chain::Vec(*w, *d),
                            v.len() == w.len(),
                            i <= v.len(),
                            forall|j: int| 0 <= j < i ==> #[trigger] v@[j]@ == w@[j]@,
                        decreases v.len() - i,
                    {
                        proof {
                            assert(decreases_to!(v => v[i as int]));
                            assert(decreases_to!(*self => (*self)->Vec_0));
                        }
                        if !v[i].same_as(&w[i]) {
                            proof {
                                lemma_views(v@);
                                lemma_views(w@);
                                assert(views(v@)[i as int] != views(w@)[i as int]);
                            }
                            return false;
                        }
                        i += 1;
                    }
                    proof {
                        lemma_views(v@);
                        lemma_views(w@);
                        assert(views(v@) =~= views(w@));
                    }
                    true
                },
            },
        }
    }

    /// Whether `other` folds into a run with this chain: leaves of one symbol,
    /// or groups with equal children.
    fn custom_eq(&self, other: &Chain) -> (r: bool)
        ensures
            r == mergeable(self@, other@),
    {
        match self {
            Chain::KV(s, _) => match other {
                Chain::KV(t, _) => s.eq(t),
                Chain::Vec(_, _) => false,
            },
            Chain::Vec(v, _) => match other {
                Chain::KV(_, _) => false,
                Chain::Vec(w, _) => same_children(v, w),
            },
        }
    }

    /// Groups every child, then folds each run of mergeable neighbours into
    /// one, adding up their counts.
    pub fn group(&self) -> (r: Chain)
        requires
            wf(self@),
            weight(self@) <= usize::MAX,
        ensures
            r@ == group_tree(self@),
        decreases self,
    {
        match self {
            Chain::KV(s, c) => Chain::KV(s.clone(), *c),
            Chain::Vec(v, c) => {
                let ghost ch = views(v@);
                proof {
                    lemma_views(v@);
                    lemma_wf_all(ch);
                }
                let mut out: Vec<Chain> = Vec::new();
                let mut i: usize = 0;
                while i < v.len()
                    invariant
                        *self == Chain::Vec(*v, *c),
                        self@ == Tree::Group(ch, *c as nat),
                        ch.len() == v.len(),
                        forall|j: int| 0 <= j < ch.len() ==> #[trigger] ch[j] == v@[j]@,
                        forall|j: int| 0 <= j < ch.len() ==> #[trigger] wf(ch[j]),
                        wf(self@),
                        weight(self@) <= usize::MAX,
                        i <= v.len(),
                        out@.len() == merge_runs(group_all(ch.subrange(0, i as int))).len(),
                        forall|j: int|
                            0 <= j < out@.len() ==> #[trigger] out@[j]@ == merge_runs(
                                group_all(ch.subrange(0, i as int)),
                            )[j],
                    decreases v.len() - i,
                {
                    let ghost prev = group_all(ch.subrange(0, i as int));
                    proof {
                        assert(decreases_to!(v => v[i as int]));
                        assert(decreases_to!(*self => (*self)->Vec_0));
                        lemma_child_weight(self@, i as int);
                        lemma_group_all_prefix(ch, i as int);
                        lemma_sums_prefix(ch, i as int);
                        lemma_sums_monotone(ch, i as int + 1);
                        lemma_count_sum_group_all(ch.subrange(0, i as int));
                        lemma_merge_runs_counts(prev);
                        assert(prev.push(group_tree(ch[i as int])).drop_last() =~= prev);
                    }
                    let curr = v[i].group();
                    let n = out.len();
                    if n > 0 && out[n - 1].custom_eq(&curr) {
                        let last = out.pop().unwrap();
                        let total = last.get_count() + curr.get_count();
                        out.push(last.with_count(total));
                    } else {
                        out.push(curr);
                    }
                    i += 1;
                }
                proof {
                    assert(ch.subrange(0, v.len() as int) =~= ch);
                    lemma_views(out@);
                    assert(views(out@) =~= merge_runs(group_all(ch)));
                }
                Chain::Vec(out, *c)
            },
        }
    }
}

impl Chain {
    /// Collapses every group of exactly one child into that child,
    /// multiplying the child's count by the group's.
    fn min_rec(&self) -> (r: Chain)
        requires
            wf(self@),
            weight(self@) <= usize::MAX,
        ensures
            r@ == min_tree(self@),
        decreases self,
    {
        match self {
            Chain::KV(s, c) => Chain::KV(s.clone(), *c),
            Chain::Vec(v, c) => {
                let ghost ch = views(v@);
                proof {
                    lemma_views(v@);
                    lemma_wf_all(ch);
                    lemma_min_all(ch);
                }
                let mut out: Vec<Chain> = Vec::new();
                let mut i: usize = 0;
                while i < v.len()
                    invariant
                        *self == Chain::Vec(*v, *c),
                        self@ == Tree::Group(ch, *c as nat),
                        ch.len() == v.len(),
                        forall|j: int| 0 <= j < ch.len() ==> #[trigger] ch[j] == v@[j]@,
                        forall|j: int| 0 <= j < ch.len() ==> #[trigger] wf(ch[j]),
                        wf(self@),
                        weight(self@) <= usize::MAX,
                        i <= v.len(),
                        out@.len() == i,
                        forall|j: int| 0 <= j < i ==> #[trigger] out@[j]@ == min_tree(ch[j]),
                    decreases v.len() - i,
                {
                    proof {
                        assert(decreases_to!(v => v[i as int]));
                        assert(decreases_to!(*self => (*self)->Vec_0));
                        lemma_child_weight(self@, i as int);
                    }
                    out.push(v[i].min_rec());
                    i += 1;
                }
                proof {
                    lemma_views(out@);
                    assert(views(out@) =~= min_all(ch));
                }
                if out.len() == 1 {
                    let x = out.pop().unwrap();
                    proof {
                        lemma_min_tree(ch[0]);
                        lemma_count_le_weight(x@);
                        lemma_weight_unit(x@);
                        lemma_weight_all_single(ch);
                        let k = count_of(x@);
                        let u = unit_weight(x@);
                        let cc = *c as nat;
                        assert(k * cc <= (k * u) * cc) by (nonlinear_arith)
                            requires
                                k <= k * u,
                        ;
                        assert(weight(self@) == cc * crate::tree::weight_all(ch));
                        assert(x@ == min_tree(ch[0]));
                        assert(weight(x@) == weight(ch[0]));
                        assert(crate::tree::weight_all(ch) == weight(ch[0]));
                        assert(k * u == weight(x@));
                        assert((k * u) * cc == cc * (k * u)) by (nonlinear_arith);
                        assert(k * cc <= weight(self@));
                    }
                    let k = x.get_count() * *c;
                    x.with_count(k)
                } else {
                    Chain::Vec(out, *c)
                }
            },
        }
    }

    /// Minimizes (see `min_rec`), then multiplies the outer count by `factor`.
    pub fn minimize(&self, factor: usize) -> (r: Chain)
        requires
            wf(self@),
            factor >= 1,
            weight(self@) * factor <= usize::MAX,
        ensures
            r@ == minimize_tree(self@, factor as nat),
    {
        proof {
            lemma_count_le_weight(self@);
            assert(weight(self@) <= weight(self@) * factor) by (nonlinear_arith)
                requires
                    factor >= 1,
            ;
            lemma_minimize_tree(self@, factor as nat);
        }
        let m = self.min_rec();
        let k = m.get_count() * factor;
        m.with_count(k)
    }
}

impl Chain {
    /// The canonical form: grouped, then minimized.
    pub fn canonical(&self) -> (r: Chain)
        requires
            wf(self@),
            weight(self@) <= usize::MAX,
        ensures
            r@ == canon(self@),
    {
        proof {
            lemma_group_tree(self@);
        }
        let g = self.group();
        proof {
            lemma_with_own_count(min_tree(g@));
        }
        g.minimize(1)
    }

    /// Children in the opposite order, each reversed, then brought back to
    /// canonical form: the formula read from the other end.
    pub fn reversed(&self) -> (r: Chain)
        requires
            wf(self@),
            weight(self@) <= usize::MAX,
        ensures
            r@ == rev_tree(self@),
        decreases self,
    {
        match self {
            Chain::KV(s, c) => Chain::KV(s.clone(), *c),
            Chain::Vec(v, c) => {
                let ghost ch = views(v@);
                proof {
                    lemma_views(v@);
                    lemma_wf_all(ch);
                    lemma_rev_all(ch);
                }
                let mut out: Vec<Chain> = Vec::new();
                let mut i: usize = v.len();
                while i > 0
                    invariant
                        *self == Chain::Vec(*v, *c),
                        self@ == Tree::Group(ch, *c as nat),
                        ch.len() == v.len(),
                        forall|j: int| 0 <= j < ch.len() ==> #[trigger] ch[j] == v@[j]@,
                        forall|j: int| 0 <= j < ch.len() ==> #[trigger] wf(ch[j]),
                        wf(self@),
                        weight(self@) <= usize::MAX,
                        i <= v.len(),
                        out@.len() == v.len() - i,
                        forall|j: int|
                            0 <= j < out@.len() ==> #[trigger] out@[j]@ == rev_tree(
                                ch[v.len() - 1 - j],
                            ),
                    decreases i,
                {
                    i -= 1;
                    proof {
                        assert(decreases_to!(v => v[i as int]));
                        assert(decreases_to!(*self => (*self)->Vec_0));
                        lemma_child_weight(self@, i as int);
                    }
                    out.push(v[i].reversed());
                }
                let g = Chain::Vec(out, *c);
                proof {
                    lemma_views(out@);
                    assert(views(out@) =~= flip(rev_all(ch)));
                    lemma_rev_tree(self@);
                }
                g.canonical()
            },
        }
    }
}

impl Chain {
    /// Appends the formula text of this chain, as it stands.
    fn write_to(&self, out: &mut String)
        ensures
            final(out)@ == old(out)@ + render(self@),
        decreases self,
    {
        match self {
            Chain::KV(s, c) => {
                out.append(s.as_str());
                if *c != 1 {
                    push_decimal(out, *c);
                }
                assert(final(out)@ =~= old(out)@ + render(self@));
            },
            Chain::Vec(v, c) => {
                let ghost ch = views(v@);
                let ghost start = out@;
                proof {
                    lemma_views(v@);
                }
                if *c != 1 {
                    out.append("(");
                }
                let ghost opened = out@;
                let mut i: usize = 0;
                while i < v.len()
                    invariant
                        *self == Chain::Vec(*v, *c),
                        ch.len() == v.len(),
                        forall|j: int| 0 <= j < ch.len() ==> #[trigger] ch[j] == v@[j]@,
                        i <= v.len(),
                        out@ == opened + render_all(ch.subrange(0, i as int)),
                    decreases v.len() - i,
                {
                    proof {
                        assert(decreases_to!(v => v[i as int]));
                        assert(decreases_to!(*self => (*self)->Vec_0));
                        let p = ch.subrange(0, i as int + 1);
                        assert(p.subrange(0, i as int) =~= ch.subrange(0, i as int));
                        assert(render_all(p) == render_all(p.subrange(0, i as int)) + render(
                            p[i as int],
                        ));
                    }
                    v[i].write_to(out);
                    proof {
                        assert(out@ =~= opened + render_all(ch.subrange(0, i as int + 1)));
                    }
                    i += 1;
                }
                proof {
                    assert(ch.subrange(0, v.len() as int) =~= ch);
                    reveal_strlit("(");
                    reveal_strlit(")");
                }
                if *c != 1 {
                    out.append(")");
                    push_decimal(out, *c);
                }
                assert(final(out)@ =~= old(out)@ + render(self@));
            },
        }
    }

    /// The condensed formula: the canonical form of this chain, written out.
    pub fn to_string(&self) -> (r: String)
        requires
            wf(self@),
            weight(self@) <= usize::MAX,
        ensures
            r@ == render(canon(self@)),
    {
        let c = self.canonical();
        let mut out = String::new();
        c.write_to(&mut out);
        assert(out@ =~= render(canon(self@)));
        out
    }
}

impl PartialEq for Chain {
    fn eq(&self, other: &Chain) -> (r: bool)
        ensures
            r == (self@ == other@),
    {
        self.same_as(other)
    }
}

impl vstd::std_specs::cmp::PartialEqSpecImpl for Chain {
    open spec fn obeys_eq_spec() -> bool {
        true
    }

    open spec fn eq_spec(&self, other: &Chain) -> bool {
        self@ == other@
    }
}

/// Grouping an already grouped chain changes nothing, for every chain.
pub proof fn law_group_idempotent(c: Chain)
    ensures
        group_tree(group_tree(c@)) == group_tree(c@),
{
    lemma_group_idempotent(c@);
}

/// Minimizing an already minimized chain changes nothing, for every chain.
pub proof fn law_minimize_idempotent(c: Chain)
    ensures
        minimize_tree(minimize_tree(c@, 1), 1) == minimize_tree(c@, 1),
{
    let m = min_tree(c@);
    lemma_with_own_count(m);
    lemma_min_no_single(c@);
    lemma_min_fixed(m);
}

/// Grouping, minimizing and reversing all keep the number of atoms that a
/// chain stands for, for every chain.
pub proof fn law_weight_conserved(c: Chain)
    ensures
        weight(group_tree(c@)) == weight(c@),
        weight(minimize_tree(c@, 1)) == weight(c@),
        weight(rev_tree(c@)) == weight(c@),
{
    lemma_group_weight(c@);
    lemma_min_weight(c@);
    lemma_with_own_count(min_tree(c@));
    lemma_rev_weight(c@);
}

/// Reversing a chain in canonical form (equal to itself grouped and then
/// minimized) twice gives it back.
pub proof fn law_reverse_involution(c: Chain)
    requires
        wf(c@),
        minimize_tree(group_tree(c@), 1) == c@,
    ensures
        rev_tree(rev_tree(c@)) == c@,
{
    lemma_with_own_count(min_tree(group_tree(c@)));
    lemma_canonical_is_stable(c@);
    lemma_rev_stable(c@);
}

/// After grouping and then minimizing, no group has fewer than two children.
pub proof fn law_canonical_no_small_groups(c: Chain)
    requires
        wf(c@),
    ensures
        no_small_groups(minimize_tree(group_tree(c@), 1)),
{
    lemma_group_tree(c@);
    let m = min_tree(group_tree(c@));
    lemma_with_own_count(m);
    lemma_min_no_small(group_tree(c@));
}

/// What a compound condenses to: its walked tree in canonical form. A tree
/// too heavy to count in a `usize` is left as walked.
pub open spec fn condensed(m: CompoundView) -> Tree {
    let t = compound_tree(m);
    if m.backbone.len() > 0 && weight(t) <= usize::MAX {
        canon(t)
    } else {
        t
    }
}

impl Chain {
    /// The number of atoms the chain stands for, if it fits in a `usize`.
    pub fn checked_weight(&self) -> (r: Option<usize>)
        requires
            wf(self@),
        ensures
            r matches Some(w) ==> w as nat == weight(self@),
            r is None ==> weight(self@) > usize::MAX,
        decreases self,
    {
        match self {
            Chain::KV(_, c) => Some(*c),
            Chain::Vec(v, c) => {
                let ghost ch = views(v@);
                proof {
                    lemma_views(v@);
                    lemma_wf_all(ch);
                    crate::tree::lemma_weight_le_mul(ch, *c as nat);
                }
                let mut sum: usize = 0;
                let mut i: usize = 0;
                while i < v.len()
                    invariant
                        *self == Chain::Vec(*v, *c),
                        ch == views(v@),
                        ch.len() == v.len(),
                        forall|j: int| 0 <= j < ch.len() ==> #[trigger] ch[j] == v@[j]@,
                        forall|j: int| 0 <= j < ch.len() ==> #[trigger] wf(ch[j]),
                        self@ == Tree::Group(ch, *c as nat),
                        wf(self@),
                        *c >= 1,
                        weight_all(ch) <= *c as nat * weight_all(ch),
                        i <= v.len(),
                        sum as nat == weight_all(ch.subrange(0, i as int)),
                    decreases v.len() - i,
                {
                    proof {
                        assert(decreases_to!(v => v[i as int]));
                        assert(decreases_to!(*self => (*self)->Vec_0));
                        lemma_sums_prefix(ch, i as int);
                        lemma_sums_monotone(ch, i as int + 1);
                    }
                    match v[i].checked_weight() {
                        Some(w) => match sum.checked_add(w) {
                            Some(t) => {
                                sum = t;
                            },
                            None => {
                                return None;
                            },
                        },
                        None => {
                            proof {
                                crate::tree::lemma_child_weight(self@, i as int);
                            }
                            return None;
                        },
                    }
                    i += 1;
                }
                proof {
                    assert(ch.subrange(0, v.len() as int) =~= ch);
                }
                c.checked_mul(sum)
            },
        }
    }

    /// The chain of a compound: each backbone atom with its side chains as a
    /// group (or alone when it has none), all in one group, then grouped and
    /// minimized.
    pub fn from_compound(cmp: &Compound) -> (r: Chain)
        ensures
            r@ == condensed(cmp@),
    {
        let raw = cmp.raw_chain();
        if cmp.backbone().len() == 0 {
            return raw;
        }
        proof {
            lemma_compound_tree_wf(cmp@);
        }
        match raw.checked_weight() {
            Some(_) => raw.canonical(),
            None => raw,
        }
    }
}

impl From<Compound> for Chain {
    fn from(val: Compound) -> (r: Chain)
        ensures
            r@ == condensed(val@),
    {
        Chain::from_compound(&val)
    }
}

impl vstd::std_specs::convert::FromSpecImpl<Compound> for Chain {
    open spec fn obeys_from_spec() -> bool {
        false
    }

    open spec fn from_spec(v: Compound) -> Chain {
        arbitrary()
    }
}

impl Compound {
    /// The condensed formula of the compound; empty for an empty backbone.
    pub fn to_string(&self) -> (r: String)
        ensures
            r@ == render(condensed(self@)),
    {
        let c = Chain::from_compound(self);
        let mut out = String::new();
        c.write_to(&mut out);
        assert(out@ =~= render(condensed(self@)));
        out
    }
}

} // verus!
