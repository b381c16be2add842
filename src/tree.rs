//! Mathematical model of a condensed-formula tree: what a `Chain` denotes,
//! and the grouping, minimizing, reversing and rendering steps on it.

use vstd::prelude::*;
use crate::numeral::decimal;

verus! {

/// A run of repeated structure: a symbol repeated `count` times, or an
/// ordered concatenation of subtrees repeated `count` times.
pub enum Tree {
    Group(Seq<Tree>, nat),
    Leaf(Seq<char>, nat),
}

pub open spec fn count_of(t: Tree) -> nat {
    match t {
        Tree::Group(_, c) => c,
        Tree::Leaf(_, c) => c,
    }
}

/// The same tree with its outer repeat count replaced.
pub open spec fn with_count(t: Tree, n: nat) -> Tree {
    match t {
        Tree::Group(ch, _) => Tree::Group(ch, n),
        Tree::Leaf(s, _) => Tree::Leaf(s, n),
    }
}

/// Two neighbours that fold into one run: leaves of one symbol, or groups
/// whose children are equal (in order, counts included). Outer counts are
/// ignored.
pub open spec fn mergeable(a: Tree, b: Tree) -> bool {
    match a {
        Tree::Leaf(s1, _) => b matches Tree::Leaf(s2, _) && s1 == s2,
        Tree::Group(c1, _) => b matches Tree::Group(c2, _) && c1 == c2,
    }
}

/// Every count is positive and no group is empty.
pub open spec fn wf(t: Tree) -> bool
    decreases t,
{
    match t {
        Tree::Leaf(_, c) => c >= 1,
        Tree::Group(ch, c) => c >= 1 && ch.len() >= 1 && wf_all(ch),
    }
}

pub open spec fn wf_all(s: Seq<Tree>) -> bool
    decreases s,
{
    s.len() > 0 ==> wf_all(s.subrange(0, s.len() - 1)) && wf(s[s.len() - 1])
}

/// Number of atoms that the tree stands for.
pub open spec fn weight(t: Tree) -> nat
    decreases t,
{
    match t {
        Tree::Leaf(_, c) => c,
        Tree::Group(ch, c) => c * weight_all(ch),
    }
}

pub open spec fn weight_all(s: Seq<Tree>) -> nat
    decreases s,
{
    if s.len() == 0 {
        0
    } else {
        weight_all(s.subrange(0, s.len() - 1)) + weight(s[s.len() - 1])
    }
}

/// Folds each maximal run of mergeable neighbours, left to right, into its
/// first member, whose count becomes the sum of the run's counts.
pub open spec fn merge_runs(s: Seq<Tree>) -> Seq<Tree>
    decreases s.len(),
{
    if s.len() == 0 {
        s
    } else {
        let r = merge_runs(s.drop_last());
        let x = s.last();
        if r.len() > 0 && mergeable(r.last(), x) {
            r.update(r.len() - 1, with_count(r.last(), count_of(r.last()) + count_of(x)))
        } else {
            r.push(x)
        }
    }
}

/// Grouping: children are grouped first, then adjacent runs are merged.
pub open spec fn group_tree(t: Tree) -> Tree
    decreases t,
{
    match t {
        Tree::Leaf(_, _) => t,
        Tree::Group(ch, c) => Tree::Group(merge_runs(group_all(ch)), c),
    }
}

pub open spec fn group_all(s: Seq<Tree>) -> Seq<Tree>
    decreases s,
{
    if s.len() == 0 {
        Seq::empty()
    } else {
        group_all(s.subrange(0, s.len() - 1)).push(group_tree(s[s.len() - 1]))
    }
}

/// Minimizing: every group of exactly one child becomes that child, its
/// count multiplied by the group's count.
pub open spec fn min_tree(t: Tree) -> Tree
    decreases t,
{
    match t {
        Tree::Leaf(_, _) => t,
        Tree::Group(ch, c) => {
            let m = min_all(ch);
            if m.len() == 1 {
                with_count(m[0], count_of(m[0]) * c)
            } else {
                Tree::Group(m, c)
            }
        },
    }
}

pub open spec fn min_all(s: Seq<Tree>) -> Seq<Tree>
    decreases s,
{
    if s.len() == 0 {
        Seq::empty()
    } else {
        min_all(s.subrange(0, s.len() - 1)).push(min_tree(s[s.len() - 1]))
    }
}

/// Minimizing, with the outer count multiplied by `factor`.
pub open spec fn minimize_tree(t: Tree, factor: nat) -> Tree {
    with_count(min_tree(t), count_of(min_tree(t)) * factor)
}

/// The canonical form: grouped, then minimized.
pub open spec fn canon(t: Tree) -> Tree {
    min_tree(group_tree(t))
}

/// The sequence in the opposite order.
pub open spec fn flip(s: Seq<Tree>) -> Seq<Tree> {
    Seq::new(s.len(), |i: int| s[s.len() - 1 - i])
}

/// Reversal: children in the opposite order, each reversed, then the whole
/// brought back to canonical form.
pub open spec fn rev_tree(t: Tree) -> Tree
    decreases t,
{
    match t {
        Tree::Leaf(_, _) => t,
        Tree::Group(ch, c) => canon(Tree::Group(flip(rev_all(ch)), c)),
    }
}

pub open spec fn rev_all(s: Seq<Tree>) -> Seq<Tree>
    decreases s,
{
    if s.len() == 0 {
        Seq::empty()
    } else {
        rev_all(s.subrange(0, s.len() - 1)).push(rev_tree(s[s.len() - 1]))
    }
}

/// A count as written after a symbol or a closing parenthesis: nothing for 1.
pub open spec fn count_suffix(c: nat) -> Seq<char> {
    if c == 1 {
        Seq::empty()
    } else {
        decimal(c)
    }
}

/// Condensed-formula text of a tree, as it stands.
pub open spec fn render(t: Tree) -> Seq<char>
    decreases t,
{
    match t {
        Tree::Leaf(s, c) => s + count_suffix(c),
        Tree::Group(ch, c) => if c == 1 {
            render_all(ch)
        } else {
            seq!['('] + render_all(ch) + seq![')'] + decimal(c)
        },
    }
}

pub open spec fn render_all(s: Seq<Tree>) -> Seq<char>
    decreases s,
{
    if s.len() == 0 {
        Seq::empty()
    } else {
        render_all(s.subrange(0, s.len() - 1)) + render(s[s.len() - 1])
    }
}

/// No group anywhere has fewer than two children.
pub open spec fn no_small_groups(t: Tree) -> bool
    decreases t,
{
    match t {
        Tree::Leaf(_, _) => true,
        Tree::Group(ch, _) => ch.len() >= 2 && no_small_groups_all(ch),
    }
}

pub open spec fn no_small_groups_all(s: Seq<Tree>) -> bool
    decreases s,
{
    s.len() > 0 ==> no_small_groups_all(s.subrange(0, s.len() - 1)) && no_small_groups(
        s[s.len() - 1],
    )
}

/// No two neighbours are mergeable.
pub open spec fn distinct_neighbours(s: Seq<Tree>) -> bool {
    forall|i: int| 0 < i < s.len() ==> !mergeable(#[trigger] s[i - 1], s[i])
}

/// No two neighbours anywhere in the tree are mergeable.
pub open spec fn runs_merged(t: Tree) -> bool
    decreases t,
{
    match t {
        Tree::Leaf(_, _) => true,
        Tree::Group(ch, _) => distinct_neighbours(ch) && runs_merged_all(ch),
    }
}

pub open spec fn runs_merged_all(s: Seq<Tree>) -> bool
    decreases s,
{
    s.len() > 0 ==> runs_merged_all(s.subrange(0, s.len() - 1)) && runs_merged(s[s.len() - 1])
}

pub proof fn lemma_wf_all(s: Seq<Tree>)
    ensures
        wf_all(s) <==> forall|i: int| 0 <= i < s.len() ==> #[trigger] wf(s[i]),
    decreases s.len(),
{
    if s.len() > 0 {
        let t = s.subrange(0, s.len() - 1);
        lemma_wf_all(t);
        assert(wf_all(s) == (wf_all(t) && wf(s[s.len() - 1])));
        assert(forall|i: int| 0 <= i < t.len() ==> t[i] == s[i]);
        if forall|i: int| 0 <= i < s.len() ==> #[trigger] wf(s[i]) {
            assert(forall|i: int| 0 <= i < t.len() ==> #[trigger] wf(t[i]) == wf(s[i]));
        }
    }
}

pub proof fn lemma_no_small_groups_all(s: Seq<Tree>)
    ensures
        no_small_groups_all(s) <==> forall|i: int|
            0 <= i < s.len() ==> #[trigger] no_small_groups(s[i]),
    decreases s.len(),
{
    if s.len() > 0 {
        let t = s.subrange(0, s.len() - 1);
        lemma_no_small_groups_all(t);
        assert(no_small_groups_all(s) == (no_small_groups_all(t) && no_small_groups(s[s.len() - 1])));
        assert(forall|i: int| 0 <= i < t.len() ==> t[i] == s[i]);
        if forall|i: int| 0 <= i < s.len() ==> #[trigger] no_small_groups(s[i]) {
            assert(forall|i: int| 0 <= i < t.len() ==> #[trigger] no_small_groups(t[i]) == no_small_groups(s[i]));
        }
    }
}

pub proof fn lemma_runs_merged_all(s: Seq<Tree>)
    ensures
        runs_merged_all(s) <==> forall|i: int| 0 <= i < s.len() ==> #[trigger] runs_merged(s[i]),
    decreases s.len(),
{
    if s.len() > 0 {
        let t = s.subrange(0, s.len() - 1);
        lemma_runs_merged_all(t);
        assert(runs_merged_all(s) == (runs_merged_all(t) && runs_merged(s[s.len() - 1])));
        assert(forall|i: int| 0 <= i < t.len() ==> t[i] == s[i]);
        if forall|i: int| 0 <= i < s.len() ==> #[trigger] runs_merged(s[i]) {
            assert(forall|i: int| 0 <= i < t.len() ==> #[trigger] runs_merged(t[i]) == runs_merged(s[i]));
        }
    }
}

/// Sum of the outer counts of a sequence of trees.
pub open spec fn count_sum(s: Seq<Tree>) -> nat
    decreases s.len(),
{
    if s.len() == 0 {
        0
    } else {
        count_sum(s.drop_last()) + count_of(s.last())
    }
}

pub proof fn lemma_group_all(s: Seq<Tree>)
    ensures
        group_all(s).len() == s.len(),
        forall|i: int| 0 <= i < s.len() ==> #[trigger] group_all(s)[i] == group_tree(s[i]),
    decreases s.len(),
{
    if s.len() > 0 {
        let t = s.subrange(0, s.len() - 1);
        lemma_group_all(t);
        assert(group_all(s) == group_all(t).push(group_tree(s[s.len() - 1])));
        assert forall|i: int| 0 <= i < s.len() implies #[trigger] group_all(s)[i] == group_tree(
            s[i],
        ) by {
            if i < s.len() - 1 {
                assert(t[i] == s[i]);
            }
        }
    }
}

pub proof fn lemma_min_all(s: Seq<Tree>)
    ensures
        min_all(s).len() == s.len(),
        forall|i: int| 0 <= i < s.len() ==> #[trigger] min_all(s)[i] == min_tree(s[i]),
    decreases s.len(),
{
    if s.len() > 0 {
        let t = s.subrange(0, s.len() - 1);
        lemma_min_all(t);
        assert(min_all(s) == min_all(t).push(min_tree(s[s.len() - 1])));
        assert forall|i: int| 0 <= i < s.len() implies #[trigger] min_all(s)[i] == min_tree(
            s[i],
        ) by {
            if i < s.len() - 1 {
                assert(t[i] == s[i]);
            }
        }
    }
}

pub proof fn lemma_rev_all(s: Seq<Tree>)
    ensures
        rev_all(s).len() == s.len(),
        forall|i: int| 0 <= i < s.len() ==> #[trigger] rev_all(s)[i] == rev_tree(s[i]),
    decreases s.len(),
{
    if s.len() > 0 {
        let t = s.subrange(0, s.len() - 1);
        lemma_rev_all(t);
        assert(rev_all(s) == rev_all(t).push(rev_tree(s[s.len() - 1])));
        assert forall|i: int| 0 <= i < s.len() implies #[trigger] rev_all(s)[i] == rev_tree(
            s[i],
        ) by {
            if i < s.len() - 1 {
                assert(t[i] == s[i]);
            }
        }
    }
}

/// `group_all` of a one-longer prefix extends the shorter one.
pub proof fn lemma_group_all_prefix(s: Seq<Tree>, i: int)
    requires
        0 <= i < s.len(),
    ensures
        group_all(s.subrange(0, i + 1)) == group_all(s.subrange(0, i)).push(group_tree(s[i])),
{
    assert(s.subrange(0, i + 1).subrange(0, i) =~= s.subrange(0, i));
}

/// A one-longer prefix sums one more weight and one more count.
pub proof fn lemma_sums_prefix(s: Seq<Tree>, i: int)
    requires
        0 <= i < s.len(),
    ensures
        weight_all(s.subrange(0, i + 1)) == weight_all(s.subrange(0, i)) + weight(s[i]),
        count_sum(s.subrange(0, i + 1)) == count_sum(s.subrange(0, i)) + count_of(s[i]),
{
    assert(s.subrange(0, i + 1).subrange(0, i) =~= s.subrange(0, i));
    assert(s.subrange(0, i + 1).drop_last() =~= s.subrange(0, i));
}

/// Sums over a prefix do not exceed those over the whole sequence.
pub proof fn lemma_sums_monotone(s: Seq<Tree>, i: int)
    requires
        0 <= i <= s.len(),
    ensures
        weight_all(s.subrange(0, i)) <= weight_all(s),
        count_sum(s.subrange(0, i)) <= count_sum(s),
    decreases s.len() - i,
{
    if i < s.len() {
        lemma_sums_prefix(s, i);
        lemma_sums_monotone(s, i + 1);
    } else {
        assert(s.subrange(0, i) =~= s);
    }
}

/// In a well-formed tree the outer count is at most the weight.
pub proof fn lemma_count_le_weight(t: Tree)
    requires
        wf(t),
    ensures
        1 <= count_of(t) <= weight(t),
    decreases t,
{
    if let Tree::Group(ch, c) = t {
        lemma_wf_all(ch);
        lemma_count_sum_le_weight_all(ch);
        assert(ch.subrange(0, 1).subrange(0, 0) =~= Seq::<Tree>::empty());
        lemma_sums_prefix(ch, 0);
        lemma_sums_monotone(ch, 1);
        lemma_count_le_weight(ch[0]);
        let w = weight_all(ch);
        assert(c <= c * w) by (nonlinear_arith)
            requires
                w >= 1,
        ;
    }
}

pub proof fn lemma_count_sum_le_weight_all(s: Seq<Tree>)
    requires
        forall|i: int| 0 <= i < s.len() ==> #[trigger] wf(s[i]),
    ensures
        count_sum(s) <= weight_all(s),
    decreases s,
{
    if s.len() > 0 {
        let t = s.subrange(0, s.len() - 1);
        assert(t =~= s.drop_last());
        assert forall|i: int| 0 <= i < t.len() implies #[trigger] wf(t[i]) by {
            assert(t[i] == s[i]);
        }
        lemma_count_sum_le_weight_all(t);
        lemma_count_le_weight(s[s.len() - 1]);
    }
}

/// Each child of a well-formed group weighs at most the group.
pub proof fn lemma_child_weight(t: Tree, i: int)
    requires
        wf(t),
        t is Group,
        0 <= i < t->Group_0.len(),
    ensures
        weight(t->Group_0[i]) <= weight(t),
        weight_all(t->Group_0) <= weight(t),
        count_sum(t->Group_0) <= weight(t),
{
    let ch = t->Group_0;
    let c = t->Group_1;
    lemma_wf_all(ch);
    lemma_sums_prefix(ch, i);
    lemma_sums_monotone(ch, i + 1);
    lemma_count_sum_le_weight_all(ch);
    let w = weight_all(ch);
    assert(w <= c * w) by (nonlinear_arith)
        requires
            c >= 1,
    ;
}

pub proof fn lemma_count_sum_group_all(s: Seq<Tree>)
    ensures
        count_sum(group_all(s)) == count_sum(s),
    decreases s.len(),
{
    if s.len() > 0 {
        let t = s.subrange(0, s.len() - 1);
        lemma_count_sum_group_all(t);
        assert(t =~= s.drop_last());
        assert(group_all(s) == group_all(t).push(group_tree(s[s.len() - 1])));
        assert(group_all(s).drop_last() =~= group_all(t));
    }
}

/// Every merged run counts at most the whole sequence.
pub proof fn lemma_merge_runs_counts(s: Seq<Tree>)
    ensures
        merge_runs(s).len() <= s.len(),
        s.len() > 0 ==> merge_runs(s).len() > 0,
        forall|j: int|
            0 <= j < merge_runs(s).len() ==> count_of(#[trigger] merge_runs(s)[j]) <= count_sum(
                s,
            ),
    decreases s.len(),
{
    if s.len() > 0 {
        lemma_merge_runs_counts(s.drop_last());
    }
}

/// Weight of one repetition: the weight divided by the outer count.
pub open spec fn unit_weight(t: Tree) -> nat {
    match t {
        Tree::Leaf(_, _) => 1,
        Tree::Group(ch, _) => weight_all(ch),
    }
}

pub proof fn lemma_weight_unit(t: Tree)
    ensures
        weight(t) == count_of(t) * unit_weight(t),
        forall|k: nat| #[trigger] weight(with_count(t, k)) == k * unit_weight(t),
        forall|k: nat| #[trigger] unit_weight(with_count(t, k)) == unit_weight(t),
{
    match t {
        Tree::Leaf(s, c) => {
            assert(weight(t) == c);
            assert forall|k: nat| #[trigger] weight(with_count(t, k)) == k * unit_weight(t) by {
                assert(weight(Tree::Leaf(s, k)) == k);
            }
        },
        Tree::Group(ch, c) => {
            assert(weight(t) == c * weight_all(ch));
            assert forall|k: nat| #[trigger] weight(with_count(t, k)) == k * unit_weight(t) by {
                assert(weight(Tree::Group(ch, k)) == k * weight_all(ch));
            }
        },
    }
}

pub proof fn lemma_weight_all_single(s: Seq<Tree>)
    requires
        s.len() == 1,
    ensures
        weight_all(s) == weight(s[0]),
{
    assert(s.subrange(0, 0) =~= Seq::<Tree>::empty());
    assert(weight_all(s) == weight_all(s.subrange(0, 0)) + weight(s[0]));
    assert(weight_all(Seq::<Tree>::empty()) == 0);
}

/// Sequences of equal length and equal weights, element by element, weigh
/// the same.
pub proof fn lemma_weight_all_pointwise(a: Seq<Tree>, b: Seq<Tree>)
    requires
        a.len() == b.len(),
        forall|i: int| 0 <= i < a.len() ==> #[trigger] weight(a[i]) == weight(b[i]),
    ensures
        weight_all(a) == weight_all(b),
    decreases a.len(),
{
    if a.len() > 0 {
        let n = a.len() - 1;
        assert(forall|i: int| 0 <= i < n ==> a.subrange(0, n)[i] == a[i]);
        assert(forall|i: int| 0 <= i < n ==> b.subrange(0, n)[i] == b[i]);
        lemma_weight_all_pointwise(a.subrange(0, n), b.subrange(0, n));
        assert(weight_all(a) == weight_all(a.subrange(0, n)) + weight(a[n]));
        assert(weight_all(b) == weight_all(b.subrange(0, n)) + weight(b[n]));
    }
}

/// Minimizing keeps a tree well formed and keeps its weight.
pub proof fn lemma_min_tree(t: Tree)
    requires
        wf(t),
    ensures
        wf(min_tree(t)),
        weight(min_tree(t)) == weight(t),
    decreases t,
{
    if let Tree::Group(ch, c) = t {
        let m = min_all(ch);
        lemma_min_all(ch);
        lemma_wf_all(ch);
        assert(min_tree(t) == if m.len() == 1 {
            with_count(m[0], count_of(m[0]) * c)
        } else {
            Tree::Group(m, c)
        });
        assert(weight(t) == c * weight_all(ch));
        assert forall|i: int| 0 <= i < ch.len() implies #[trigger] wf(m[i]) && weight(m[i])
            == weight(ch[i]) by {
            lemma_min_tree(ch[i]);
        }
        assert forall|i: int| 0 <= i < m.len() implies #[trigger] weight(m[i]) == weight(
            ch[i],
        ) by {
            lemma_min_tree(ch[i]);
        }
        lemma_wf_all(m);
        lemma_weight_all_pointwise(m, ch);
        if m.len() == 1 {
            let x = m[0];
            lemma_weight_all_single(m);
            lemma_weight_unit(x);
            lemma_count_le_weight(x);
            let k = count_of(x);
            let u = unit_weight(x);
            assert(k * c * u == c * (k * u)) by (nonlinear_arith);
            assert(k * c >= 1) by (nonlinear_arith)
                requires
                    k >= 1,
                    c >= 1,
            ;
            lemma_count_le_weight(x);
            lemma_wf_with_count(x, k * c);
        } else {
            assert(weight(Tree::Group(m, c)) == c * weight_all(m));
            assert(wf(Tree::Group(m, c)) == (c >= 1 && m.len() >= 1 && wf_all(m)));
        }
    }
}

/// Changing a positive outer count keeps a tree well formed.
pub proof fn lemma_wf_with_count(t: Tree, n: nat)
    requires
        wf(t),
        n >= 1,
    ensures
        wf(with_count(t, n)),
{
    match t {
        Tree::Leaf(s, _) => assert(wf(Tree::Leaf(s, n))),
        Tree::Group(ch, _) => {
            assert(wf(Tree::Group(ch, n)) == (n >= 1 && ch.len() >= 1 && wf_all(ch)));
        },
    }
}

/// `minimize` with a factor keeps well-formedness and scales the weight.
pub proof fn lemma_minimize_tree(t: Tree, factor: nat)
    requires
        wf(t),
        factor >= 1,
    ensures
        wf(minimize_tree(t, factor)),
        weight(minimize_tree(t, factor)) == weight(t) * factor,
        count_of(min_tree(t)) * factor <= weight(t) * factor,
{
    lemma_min_tree(t);
    let m = min_tree(t);
    lemma_weight_unit(m);
    lemma_count_le_weight(m);
    let k = count_of(m);
    let u = unit_weight(m);
    assert(k * factor * u == (k * u) * factor) by (nonlinear_arith);
    assert(k * factor >= 1) by (nonlinear_arith)
        requires
            k >= 1,
            factor >= 1,
    ;
    assert(k * factor <= (k * u) * factor) by (nonlinear_arith)
        requires
            k <= k * u,
    ;
}

pub proof fn lemma_weight_all_push(s: Seq<Tree>, x: Tree)
    ensures
        weight_all(s.push(x)) == weight_all(s) + weight(x),
{
    assert(s.push(x).subrange(0, s.len() as int) =~= s);
    assert(weight_all(s.push(x)) == weight_all(s.push(x).subrange(0, s.len() as int)) + weight(
        s.push(x)[s.len() as int],
    ));
}

/// Mergeable neighbours have the same weight per repetition.
pub proof fn lemma_mergeable_unit(a: Tree, b: Tree)
    requires
        mergeable(a, b),
    ensures
        unit_weight(a) == unit_weight(b),
        forall|k: nat| #[trigger] with_count(a, k) == with_count(b, k),
{
}

/// Merging runs keeps every element well formed and keeps the total weight.
pub proof fn lemma_merge_runs(s: Seq<Tree>)
    requires
        forall|i: int| 0 <= i < s.len() ==> #[trigger] wf(s[i]),
    ensures
        forall|j: int| 0 <= j < merge_runs(s).len() ==> #[trigger] wf(merge_runs(s)[j]),
        weight_all(merge_runs(s)) == weight_all(s),
    decreases s.len(),
{
    if s.len() > 0 {
        let p = s.drop_last();
        let x = s.last();
        assert(forall|i: int| 0 <= i < p.len() ==> p[i] == s[i]);
        lemma_merge_runs(p);
        let r = merge_runs(p);
        assert(p =~= s.subrange(0, s.len() - 1));
        assert(weight_all(s) == weight_all(p) + weight(x));
        if r.len() > 0 && mergeable(r.last(), x) {
            let n = r.len() - 1;
            let a = r.last();
            let y = with_count(a, count_of(a) + count_of(x));
            lemma_mergeable_unit(a, x);
            lemma_weight_unit(a);
            lemma_weight_unit(x);
            let u = unit_weight(a);
            assert((count_of(a) + count_of(x)) * u == count_of(a) * u + count_of(x) * u)
                by (nonlinear_arith);
            lemma_count_le_weight(x);
            lemma_wf_with_count(a, count_of(a) + count_of(x));
            assert(r.update(n, y) =~= r.drop_last().push(y));
            assert(r =~= r.drop_last().push(a));
            lemma_weight_all_push(r.drop_last(), y);
            lemma_weight_all_push(r.drop_last(), a);
        } else {
            lemma_weight_all_push(r, x);
        }
    }
}

pub proof fn lemma_group_all_wf_weight(s: Seq<Tree>)
    requires
        forall|i: int| 0 <= i < s.len() ==> #[trigger] wf(s[i]),
    ensures
        forall|i: int| 0 <= i < s.len() ==> #[trigger] wf(group_all(s)[i]),
        weight_all(group_all(s)) == weight_all(s),
    decreases s,
{
    lemma_group_all(s);
    assert forall|i: int| 0 <= i < s.len() implies #[trigger] wf(group_all(s)[i]) && weight(
        group_all(s)[i],
    ) == weight(s[i]) by {
        lemma_group_tree(s[i]);
    }
    assert forall|i: int| 0 <= i < s.len() implies #[trigger] weight(group_all(s)[i]) == weight(
        s[i],
    ) by {
        lemma_group_tree(s[i]);
    }
    lemma_weight_all_pointwise(group_all(s), s);
}

/// Grouping keeps a tree well formed and keeps its weight.
pub proof fn lemma_group_tree(t: Tree)
    requires
        wf(t),
    ensures
        wf(group_tree(t)),
        weight(group_tree(t)) == weight(t),
    decreases t,
{
    if let Tree::Group(ch, c) = t {
        lemma_wf_all(ch);
        assert(decreases_to!(t => t->Group_0));
        lemma_group_all_wf_weight(ch);
        let g = group_all(ch);
        lemma_group_all(ch);
        lemma_merge_runs(g);
        lemma_merge_runs_counts(g);
        let m = merge_runs(g);
        lemma_wf_all(m);
        assert(group_tree(t) == Tree::Group(m, c));
        assert(wf(Tree::Group(m, c)) == (c >= 1 && m.len() >= 1 && wf_all(m)));
        assert(weight(Tree::Group(m, c)) == c * weight_all(m));
        assert(weight(t) == c * weight_all(ch));
    }
}

/// Canonicalizing keeps a tree well formed and keeps its weight.
pub proof fn lemma_canon(t: Tree)
    requires
        wf(t),
    ensures
        wf(canon(t)),
        weight(canon(t)) == weight(t),
{
    lemma_group_tree(t);
    lemma_min_tree(group_tree(t));
}

/// The weight of a sequence, split after its first element.
pub proof fn lemma_weight_all_front(s: Seq<Tree>)
    requires
        s.len() > 0,
    ensures
        weight_all(s) == weight(s[0]) + weight_all(s.subrange(1, s.len() as int)),
    decreases s.len(),
{
    let n = s.len() as int;
    assert(weight_all(s) == weight_all(s.subrange(0, n - 1)) + weight(s[n - 1]));
    if n == 1 {
        assert(s.subrange(0, 0) =~= Seq::<Tree>::empty());
        assert(s.subrange(1, 1) =~= Seq::<Tree>::empty());
        assert(weight_all(Seq::<Tree>::empty()) == 0);
    } else {
        let p = s.subrange(0, n - 1);
        lemma_weight_all_front(p);
        let q = s.subrange(1, n);
        assert(q.subrange(0, q.len() - 1) =~= p.subrange(1, p.len() as int));
        assert(weight_all(q) == weight_all(q.subrange(0, q.len() - 1)) + weight(q[q.len() - 1]));
    }
}

/// Reversing the order does not change the weight.
pub proof fn lemma_weight_all_flip(s: Seq<Tree>)
    ensures
        weight_all(flip(s)) == weight_all(s),
    decreases s.len(),
{
    if s.len() > 0 {
        let n = s.len() as int;
        let f = flip(s);
        let q = s.subrange(1, n);
        lemma_weight_all_flip(q);
        assert(f.subrange(0, n - 1) =~= flip(q));
        assert(weight_all(f) == weight_all(f.subrange(0, n - 1)) + weight(f[n - 1]));
        lemma_weight_all_front(s);
    }
}

/// Reversal keeps a tree well formed and keeps its weight.
pub proof fn lemma_rev_tree(t: Tree)
    requires
        wf(t),
    ensures
        wf(rev_tree(t)),
        weight(rev_tree(t)) == weight(t),
        t matches Tree::Group(ch, c) ==> wf(Tree::Group(flip(rev_all(ch)), c)) && weight(
            Tree::Group(flip(rev_all(ch)), c),
        ) == weight(t),
    decreases t,
{
    if let Tree::Group(ch, c) = t {
        lemma_wf_all(ch);
        lemma_rev_all(ch);
        let r = rev_all(ch);
        assert forall|i: int| 0 <= i < ch.len() implies #[trigger] wf(r[i]) && weight(r[i])
            == weight(ch[i]) by {
            lemma_rev_tree(ch[i]);
        }
        assert forall|i: int| 0 <= i < ch.len() implies #[trigger] weight(r[i]) == weight(
            ch[i],
        ) by {
            lemma_rev_tree(ch[i]);
        }
        lemma_weight_all_pointwise(r, ch);
        let f = flip(r);
        lemma_weight_all_flip(r);
        assert forall|i: int| 0 <= i < f.len() implies #[trigger] wf(f[i]) by {
            assert(f[i] == r[r.len() - 1 - i]);
        }
        lemma_wf_all(f);
        let x = Tree::Group(f, c);
        assert(wf(x) == (c >= 1 && f.len() >= 1 && wf_all(f)));
        assert(weight(x) == c * weight_all(f));
        assert(weight(t) == c * weight_all(ch));
        lemma_canon(x);
    }
}

pub proof fn lemma_with_own_count(t: Tree)
    ensures
        with_count(t, count_of(t)) == t,
        with_count(t, count_of(t) * 1) == t,
{
}

pub proof fn lemma_group_with_count(t: Tree, k: nat)
    ensures
        group_tree(with_count(t, k)) == with_count(group_tree(t), k),
{
    match t {
        Tree::Leaf(_, _) => {},
        Tree::Group(ch, _) => {
            assert(group_tree(Tree::Group(ch, k)) == Tree::Group(merge_runs(group_all(ch)), k));
        },
    }
}

pub proof fn lemma_mergeable_with_count(a: Tree, b: Tree, k: nat)
    ensures
        mergeable(with_count(a, k), b) == mergeable(a, b),
        mergeable(b, with_count(a, k)) == mergeable(b, a),
{
}

/// After merging, no two neighbours are mergeable.
pub proof fn lemma_merge_runs_distinct(s: Seq<Tree>)
    ensures
        distinct_neighbours(merge_runs(s)),
    decreases s.len(),
{
    if s.len() > 0 {
        let p = s.drop_last();
        let x = s.last();
        lemma_merge_runs_distinct(p);
        let r = merge_runs(p);
        if r.len() > 0 && mergeable(r.last(), x) {
            let n = r.len() - 1;
            let y = with_count(r.last(), count_of(r.last()) + count_of(x));
            let r2 = r.update(n, y);
            assert forall|i: int| 0 < i < r2.len() implies !mergeable(#[trigger] r2[i - 1], r2[i]) by {
                if i == n {
                    lemma_mergeable_with_count(r[n], r[n - 1], count_of(r.last()) + count_of(x));
                    assert(!mergeable(r[i - 1], r[i]));
                } else {
                    assert(!mergeable(r[i - 1], r[i]));
                }
            }
        } else {
            let r2 = r.push(x);
            assert forall|i: int| 0 < i < r2.len() implies !mergeable(#[trigger] r2[i - 1], r2[i]) by {
                if i < r.len() {
                    assert(!mergeable(r[i - 1], r[i]));
                }
            }
        }
    }
}

/// A sequence with no mergeable neighbours is left as it is.
pub proof fn lemma_merge_runs_id(s: Seq<Tree>)
    requires
        distinct_neighbours(s),
    ensures
        merge_runs(s) == s,
    decreases s.len(),
{
    if s.len() > 0 {
        let p = s.drop_last();
        assert forall|i: int| 0 < i < p.len() implies !mergeable(#[trigger] p[i - 1], p[i]) by {
            assert(!mergeable(s[i - 1], s[i]));
        }
        lemma_merge_runs_id(p);
        if p.len() > 0 {
            assert(!mergeable(s[s.len() - 2], s[s.len() - 1]));
        }
        assert(p.push(s.last()) =~= s);
    }
}

/// Elements left unchanged by grouping stay so after merging.
pub proof fn lemma_merge_runs_fixed(s: Seq<Tree>)
    requires
        forall|i: int| 0 <= i < s.len() ==> #[trigger] group_tree(s[i]) == s[i],
    ensures
        forall|j: int|
            0 <= j < merge_runs(s).len() ==> #[trigger] group_tree(merge_runs(s)[j])
                == merge_runs(s)[j],
    decreases s.len(),
{
    if s.len() > 0 {
        let p = s.drop_last();
        let x = s.last();
        assert(forall|i: int| 0 <= i < p.len() ==> p[i] == s[i]);
        lemma_merge_runs_fixed(p);
        let r = merge_runs(p);
        if r.len() > 0 && mergeable(r.last(), x) {
            lemma_group_with_count(r.last(), count_of(r.last()) + count_of(x));
        }
    }
}

/// Grouping twice is grouping once.
pub proof fn lemma_group_idempotent(t: Tree)
    ensures
        group_tree(group_tree(t)) == group_tree(t),
    decreases t,
{
    if let Tree::Group(ch, c) = t {
        let g = group_all(ch);
        lemma_group_all(ch);
        assert forall|i: int| 0 <= i < g.len() implies #[trigger] group_tree(g[i]) == g[i] by {
            lemma_group_idempotent(ch[i]);
        }
        lemma_merge_runs_fixed(g);
        let m = merge_runs(g);
        lemma_merge_runs_distinct(g);
        lemma_group_all(m);
        assert(group_all(m) =~= m);
        lemma_merge_runs_id(m);
        assert(group_tree(Tree::Group(m, c)) == Tree::Group(merge_runs(group_all(m)), c));
    }
}

pub proof fn lemma_no_small_groups_with_count(t: Tree, k: nat)
    ensures
        no_small_groups(with_count(t, k)) == no_small_groups(t),
{
    match t {
        Tree::Leaf(_, _) => {},
        Tree::Group(ch, _) => {
            assert(no_small_groups(Tree::Group(ch, k)) == (ch.len() >= 2 && no_small_groups_all(
                ch,
            )));
        },
    }
}

/// A minimized well-formed tree has no group of fewer than two children.
pub proof fn lemma_min_no_small(t: Tree)
    requires
        wf(t),
    ensures
        no_small_groups(min_tree(t)),
    decreases t,
{
    if let Tree::Group(ch, c) = t {
        let m = min_all(ch);
        lemma_min_all(ch);
        lemma_wf_all(ch);
        assert forall|i: int| 0 <= i < m.len() implies #[trigger] no_small_groups(m[i]) by {
            lemma_min_no_small(ch[i]);
        }
        lemma_no_small_groups_all(m);
        if m.len() == 1 {
            lemma_no_small_groups_with_count(m[0], count_of(m[0]) * c);
        } else {
            assert(no_small_groups(Tree::Group(m, c)) == (m.len() >= 2 && no_small_groups_all(
                m,
            )));
        }
    }
}

/// Minimizing leaves a tree with no small groups as it is.
pub proof fn lemma_min_id(t: Tree)
    requires
        no_small_groups(t),
    ensures
        min_tree(t) == t,
    decreases t,
{
    if let Tree::Group(ch, c) = t {
        lemma_no_small_groups_all(ch);
        let m = min_all(ch);
        lemma_min_all(ch);
        assert forall|i: int| 0 <= i < ch.len() implies #[trigger] min_tree(ch[i]) == ch[i] by {
            lemma_min_id(ch[i]);
        }
        assert(m =~= ch);
    }
}

/// Canonical and stable: well formed, no group of fewer than two children,
/// and no mergeable neighbours anywhere.
pub open spec fn stable(t: Tree) -> bool {
    wf(t) && no_small_groups(t) && runs_merged(t)
}

/// Grouping leaves a tree without mergeable neighbours as it is.
pub proof fn lemma_group_id(t: Tree)
    requires
        runs_merged(t),
    ensures
        group_tree(t) == t,
    decreases t,
{
    if let Tree::Group(ch, c) = t {
        lemma_runs_merged_all(ch);
        lemma_group_all(ch);
        assert forall|i: int| 0 <= i < ch.len() implies #[trigger] group_tree(ch[i]) == ch[i] by {
            lemma_group_id(ch[i]);
        }
        assert(group_all(ch) =~= ch);
        lemma_merge_runs_id(ch);
    }
}

pub proof fn lemma_canon_id(t: Tree)
    requires
        stable(t),
    ensures
        canon(t) == t,
{
    lemma_group_id(t);
    lemma_min_id(t);
}

/// Apart from its outer count, the canonical form of a group does not
/// depend on the group's count.
pub proof fn lemma_canon_count_free(h: Seq<Tree>, k1: nat, k2: nat)
    ensures
        with_count(canon(Tree::Group(h, k1)), 0) == with_count(canon(Tree::Group(h, k2)), 0),
{
    let m = merge_runs(group_all(h));
    assert(group_tree(Tree::Group(h, k1)) == Tree::Group(m, k1));
    assert(group_tree(Tree::Group(h, k2)) == Tree::Group(m, k2));
    let mm = min_all(m);
    assert(min_tree(Tree::Group(m, k1)) == if mm.len() == 1 {
        with_count(mm[0], count_of(mm[0]) * k1)
    } else {
        Tree::Group(mm, k1)
    });
    assert(min_tree(Tree::Group(m, k2)) == if mm.len() == 1 {
        with_count(mm[0], count_of(mm[0]) * k2)
    } else {
        Tree::Group(mm, k2)
    });
}

/// Reversal of a stable tree: it stays stable, keeps its kind, needs no
/// re-canonicalizing, and undoes itself.
pub proof fn lemma_rev_stable(t: Tree)
    requires
        stable(t),
    ensures
        stable(rev_tree(t)),
        rev_tree(rev_tree(t)) == t,
        t is Leaf ==> rev_tree(t) == t,
        t matches Tree::Group(ch, c) ==> rev_tree(t) == Tree::Group(flip(rev_all(ch)), c),
    decreases t,
{
    if let Tree::Group(ch, c) = t {
        let n = ch.len() as int;
        assert(runs_merged(t) == (distinct_neighbours(ch) && runs_merged_all(ch)));
        lemma_wf_all(ch);
        lemma_no_small_groups_all(ch);
        lemma_runs_merged_all(ch);
        lemma_rev_all(ch);
        let r = rev_all(ch);
        assert forall|i: int| 0 <= i < n implies #[trigger] stable(r[i]) && rev_tree(r[i])
            == ch[i] by {
            lemma_rev_stable(ch[i]);
        }
        let f = flip(r);
        assert forall|i: int| 0 < i < n implies !mergeable(#[trigger] f[i - 1], f[i]) by {
            let a = ch[n - i];
            let b = ch[n - 1 - i];
            assert(f[i - 1] == rev_tree(a));
            assert(f[i] == rev_tree(b));
            lemma_rev_stable(a);
            lemma_rev_stable(b);
            if mergeable(rev_tree(a), rev_tree(b)) {
                if let Tree::Group(fa, ca) = rev_tree(a) {
                    let cb = count_of(rev_tree(b));
                    assert(rev_tree(b) == Tree::Group(fa, cb));
                    assert(rev_tree(Tree::Group(fa, ca)) == canon(Tree::Group(flip(rev_all(fa)), ca)));
                    assert(rev_tree(Tree::Group(fa, cb)) == canon(Tree::Group(flip(rev_all(fa)), cb)));
                    lemma_canon_count_free(flip(rev_all(fa)), ca, cb);
                    assert(with_count(a, 0) == with_count(b, 0));
                }
                assert(mergeable(b, a));
                let j = n - i;
                assert(!mergeable(ch[j - 1], ch[j]));
            }
        }
        assert forall|i: int| 0 <= i < n implies #[trigger] stable(f[i]) by {
            assert(f[i] == r[n - 1 - i]);
            assert(stable(r[n - 1 - i]));
        }
        assert forall|i: int| 0 <= i < n implies #[trigger] runs_merged(f[i]) by {
            assert(f[i] == r[n - 1 - i]);
            assert(stable(r[n - 1 - i]));
        }
        assert forall|i: int| 0 <= i < n implies #[trigger] no_small_groups(f[i]) by {
            assert(f[i] == r[n - 1 - i]);
            assert(stable(r[n - 1 - i]));
        }
        lemma_runs_merged_all(f);
        lemma_no_small_groups_all(f);
        let x = Tree::Group(f, c);
        lemma_rev_tree(t);
        assert(no_small_groups(x) == (f.len() >= 2 && no_small_groups_all(f)));
        assert(runs_merged(x) == (distinct_neighbours(f) && runs_merged_all(f)));
        lemma_canon_id(x);
        assert(rev_tree(t) == x);
        lemma_rev_all(f);
        assert forall|i: int| 0 <= i < n implies #[trigger] flip(rev_all(f))[i] == ch[i] by {
            assert(flip(rev_all(f))[i] == rev_all(f)[n - 1 - i]);
            assert(rev_all(f)[n - 1 - i] == rev_tree(f[n - 1 - i]));
            assert(f[n - 1 - i] == r[i]);
            assert(stable(r[i]) && rev_tree(r[i]) == ch[i]);
        }
        assert(flip(rev_all(f)) =~= ch);
        assert(rev_tree(x) == canon(Tree::Group(flip(rev_all(f)), c)));
        lemma_canon_id(t);
    }
}

/// A sequence weighs at most `c` times its weight, for positive `c`.
pub proof fn lemma_weight_le_mul(s: Seq<Tree>, c: nat)
    ensures
        c >= 1 ==> weight_all(s) <= c * weight_all(s),
{
    let w = weight_all(s);
    assert(c >= 1 ==> w <= c * w) by (nonlinear_arith);
}

/// Number of nodes of a tree.
pub open spec fn size(t: Tree) -> nat
    decreases t,
{
    match t {
        Tree::Leaf(_, _) => 1,
        Tree::Group(ch, _) => 1 + size_all(ch),
    }
}

pub open spec fn size_all(s: Seq<Tree>) -> nat
    decreases s,
{
    if s.len() == 0 {
        0
    } else {
        size_all(s.subrange(0, s.len() - 1)) + size(s[s.len() - 1])
    }
}

pub proof fn lemma_size_all_push(s: Seq<Tree>, x: Tree)
    ensures
        size_all(s.push(x)) == size_all(s) + size(x),
{
    assert(s.push(x).subrange(0, s.len() as int) =~= s);
    assert(size_all(s.push(x)) == size_all(s.push(x).subrange(0, s.len() as int)) + size(
        s.push(x)[s.len() as int],
    ));
}

pub proof fn lemma_size_with_count(t: Tree, k: nat)
    ensures
        size(with_count(t, k)) == size(t),
{
    match t {
        Tree::Leaf(s, _) => assert(size(Tree::Leaf(s, k)) == 1),
        Tree::Group(ch, _) => assert(size(Tree::Group(ch, k)) == 1 + size_all(ch)),
    }
}

pub proof fn lemma_size_pos(t: Tree)
    ensures
        size(t) >= 1,
{
    match t {
        Tree::Leaf(s, c) => assert(size(Tree::Leaf(s, c)) == 1),
        Tree::Group(ch, c) => assert(size(Tree::Group(ch, c)) == 1 + size_all(ch)),
    }
}

/// Element by element no larger means no larger in all, and equal in all
/// only when equal element by element.
pub proof fn lemma_size_all_pointwise(a: Seq<Tree>, b: Seq<Tree>)
    requires
        a.len() == b.len(),
        forall|i: int| 0 <= i < a.len() ==> #[trigger] size(a[i]) <= size(b[i]),
    ensures
        size_all(a) <= size_all(b),
        size_all(a) == size_all(b) ==> forall|i: int|
            0 <= i < a.len() ==> #[trigger] size(a[i]) == size(b[i]),
    decreases a.len(),
{
    if a.len() > 0 {
        let n = a.len() - 1;
        let pa = a.subrange(0, n);
        let pb = b.subrange(0, n);
        assert(forall|i: int| 0 <= i < n ==> pa[i] == a[i]);
        assert(forall|i: int| 0 <= i < n ==> pb[i] == b[i]);
        lemma_size_all_pointwise(pa, pb);
        assert(size_all(a) == size_all(pa) + size(a[n]));
        assert(size_all(b) == size_all(pb) + size(b[n]));
        if size_all(a) == size_all(b) {
            assert forall|i: int| 0 <= i < a.len() implies #[trigger] size(a[i]) == size(b[i]) by {
                if i < n {
                    assert(size(pa[i]) == size(pb[i]));
                }
            }
        }
    }
}

/// Merging runs never grows a sequence, and leaves it as it is when it
/// does not shrink it.
pub proof fn lemma_merge_runs_size(s: Seq<Tree>)
    ensures
        size_all(merge_runs(s)) <= size_all(s),
        size_all(merge_runs(s)) == size_all(s) ==> merge_runs(s) == s,
    decreases s.len(),
{
    if s.len() > 0 {
        let p = s.drop_last();
        let x = s.last();
        lemma_merge_runs_size(p);
        let r = merge_runs(p);
        assert(p =~= s.subrange(0, s.len() - 1));
        assert(size_all(s) == size_all(p) + size(x));
        lemma_size_pos(x);
        if r.len() > 0 && mergeable(r.last(), x) {
            let a = r.last();
            let y = with_count(a, count_of(a) + count_of(x));
            lemma_size_with_count(a, count_of(a) + count_of(x));
            assert(r.update(r.len() - 1, y) =~= r.drop_last().push(y));
            assert(r =~= r.drop_last().push(a));
            lemma_size_all_push(r.drop_last(), y);
            lemma_size_all_push(r.drop_last(), a);
        } else {
            lemma_size_all_push(r, x);
            assert(p.push(x) =~= s);
        }
    }
}

pub proof fn lemma_mergeable_group(a: Tree, b: Tree)
    requires
        mergeable(a, b),
    ensures
        mergeable(group_tree(a), group_tree(b)),
{
}

/// Grouping never grows a tree; when it keeps its size, no neighbours
/// anywhere were mergeable.
pub proof fn lemma_group_size(t: Tree)
    ensures
        size(group_tree(t)) <= size(t),
        size(group_tree(t)) == size(t) ==> runs_merged(t),
    decreases t,
{
    if let Tree::Group(ch, c) = t {
        let g = group_all(ch);
        lemma_group_all(ch);
        assert forall|i: int| 0 <= i < ch.len() implies #[trigger] size(g[i]) <= size(ch[i]) by {
            lemma_group_size(ch[i]);
        }
        lemma_size_all_pointwise(g, ch);
        lemma_merge_runs_size(g);
        assert(group_tree(t) == Tree::Group(merge_runs(g), c));
        assert(size(Tree::Group(merge_runs(g), c)) == 1 + size_all(merge_runs(g)));
        assert(size(t) == 1 + size_all(ch));
        if size(group_tree(t)) == size(t) {
            assert(merge_runs(g) == g);
            lemma_merge_runs_distinct(g);
            assert forall|i: int| 0 < i < ch.len() implies !mergeable(#[trigger] ch[i - 1], ch[i]) by {
                if mergeable(ch[i - 1], ch[i]) {
                    lemma_mergeable_group(ch[i - 1], ch[i]);
                    assert(!mergeable(g[i - 1], g[i]));
                }
            }
            assert forall|i: int| 0 <= i < ch.len() implies #[trigger] runs_merged(ch[i]) by {
                assert(size(g[i]) == size(ch[i]));
                lemma_group_size(ch[i]);
            }
            lemma_runs_merged_all(ch);
            assert(runs_merged(t) == (distinct_neighbours(ch) && runs_merged_all(ch)));
        }
    }
}

/// Minimizing never grows a tree.
pub proof fn lemma_min_size(t: Tree)
    ensures
        size(min_tree(t)) <= size(t),
    decreases t,
{
    if let Tree::Group(ch, c) = t {
        let m = min_all(ch);
        lemma_min_all(ch);
        assert forall|i: int| 0 <= i < ch.len() implies #[trigger] size(m[i]) <= size(ch[i]) by {
            lemma_min_size(ch[i]);
        }
        lemma_size_all_pointwise(m, ch);
        assert(size(t) == 1 + size_all(ch));
        if m.len() == 1 {
            lemma_size_with_count(m[0], count_of(m[0]) * c);
            assert(size_all(m) == size_all(m.subrange(0, 0)) + size(m[0]));
            assert(m.subrange(0, 0) =~= Seq::<Tree>::empty());
            assert(size_all(Seq::<Tree>::empty()) == 0);
        } else {
            assert(size(Tree::Group(m, c)) == 1 + size_all(m));
        }
    }
}

/// A well-formed tree equal to its own canonical form is stable.
pub proof fn lemma_canonical_is_stable(t: Tree)
    requires
        wf(t),
        canon(t) == t,
    ensures
        stable(t),
{
    lemma_group_tree(t);
    lemma_min_no_small(group_tree(t));
    lemma_min_size(group_tree(t));
    lemma_group_size(t);
}

/// No group anywhere has exactly one child.
pub open spec fn no_single_groups(t: Tree) -> bool
    decreases t,
{
    match t {
        Tree::Leaf(_, _) => true,
        Tree::Group(ch, _) => ch.len() != 1 && no_single_groups_all(ch),
    }
}

pub open spec fn no_single_groups_all(s: Seq<Tree>) -> bool
    decreases s,
{
    s.len() > 0 ==> no_single_groups_all(s.subrange(0, s.len() - 1)) && no_single_groups(
        s[s.len() - 1],
    )
}

pub proof fn lemma_no_single_groups_all(s: Seq<Tree>)
    ensures
        no_single_groups_all(s) <==> forall|i: int|
            0 <= i < s.len() ==> #[trigger] no_single_groups(s[i]),
    decreases s.len(),
{
    if s.len() > 0 {
        let t = s.subrange(0, s.len() - 1);
        lemma_no_single_groups_all(t);
        assert(no_single_groups_all(s) == (no_single_groups_all(t) && no_single_groups(
            s[s.len() - 1],
        )));
        assert(forall|i: int| 0 <= i < t.len() ==> t[i] == s[i]);
        if forall|i: int| 0 <= i < s.len() ==> #[trigger] no_single_groups(s[i]) {
            assert(forall|i: int|
                0 <= i < t.len() ==> #[trigger] no_single_groups(t[i]) == no_single_groups(s[i]));
        }
    }
}

pub proof fn lemma_no_single_groups_with_count(t: Tree, k: nat)
    ensures
        no_single_groups(with_count(t, k)) == no_single_groups(t),
{
    match t {
        Tree::Leaf(_, _) => {},
        Tree::Group(ch, _) => {
            assert(no_single_groups(Tree::Group(ch, k)) == (ch.len() != 1 && no_single_groups_all(
                ch,
            )));
        },
    }
}

/// A minimized tree has no group of exactly one child.
pub proof fn lemma_min_no_single(t: Tree)
    ensures
        no_single_groups(min_tree(t)),
    decreases t,
{
    if let Tree::Group(ch, c) = t {
        let m = min_all(ch);
        lemma_min_all(ch);
        assert forall|i: int| 0 <= i < m.len() implies #[trigger] no_single_groups(m[i]) by {
            lemma_min_no_single(ch[i]);
        }
        lemma_no_single_groups_all(m);
        if m.len() == 1 {
            lemma_no_single_groups_with_count(m[0], count_of(m[0]) * c);
        } else {
            assert(no_single_groups(Tree::Group(m, c)) == (m.len() != 1 && no_single_groups_all(m)));
        }
    }
}

/// Minimizing leaves a tree with no single-child group as it is.
pub proof fn lemma_min_fixed(t: Tree)
    requires
        no_single_groups(t),
    ensures
        min_tree(t) == t,
    decreases t,
{
    if let Tree::Group(ch, c) = t {
        lemma_no_single_groups_all(ch);
        let m = min_all(ch);
        lemma_min_all(ch);
        assert forall|i: int| 0 <= i < ch.len() implies #[trigger] min_tree(ch[i]) == ch[i] by {
            lemma_min_fixed(ch[i]);
        }
        assert(m =~= ch);
    }
}

/// Merging runs keeps the total weight, whatever the counts.
pub proof fn lemma_merge_runs_weight(s: Seq<Tree>)
    ensures
        weight_all(merge_runs(s)) == weight_all(s),
    decreases s.len(),
{
    if s.len() > 0 {
        let p = s.drop_last();
        let x = s.last();
        lemma_merge_runs_weight(p);
        let r = merge_runs(p);
        assert(p =~= s.subrange(0, s.len() - 1));
        assert(weight_all(s) == weight_all(p) + weight(x));
        if r.len() > 0 && mergeable(r.last(), x) {
            let a = r.last();
            let y = with_count(a, count_of(a) + count_of(x));
            lemma_mergeable_unit(a, x);
            lemma_weight_unit(a);
            lemma_weight_unit(x);
            let u = unit_weight(a);
            assert((count_of(a) + count_of(x)) * u == count_of(a) * u + count_of(x) * u)
                by (nonlinear_arith);
            assert(r.update(r.len() - 1, y) =~= r.drop_last().push(y));
            assert(r =~= r.drop_last().push(a));
            lemma_weight_all_push(r.drop_last(), y);
            lemma_weight_all_push(r.drop_last(), a);
        } else {
            lemma_weight_all_push(r, x);
        }
    }
}

/// Grouping keeps the weight of every tree.
pub proof fn lemma_group_weight(t: Tree)
    ensures
        weight(group_tree(t)) == weight(t),
    decreases t,
{
    if let Tree::Group(ch, c) = t {
        let g = group_all(ch);
        lemma_group_all(ch);
        assert forall|i: int| 0 <= i < ch.len() implies #[trigger] weight(g[i]) == weight(ch[i]) by {
            lemma_group_weight(ch[i]);
        }
        lemma_weight_all_pointwise(g, ch);
        lemma_merge_runs_weight(g);
        assert(group_tree(t) == Tree::Group(merge_runs(g), c));
        assert(weight(Tree::Group(merge_runs(g), c)) == c * weight_all(merge_runs(g)));
        assert(weight(t) == c * weight_all(ch));
    }
}

/// Minimizing keeps the weight of every tree.
pub proof fn lemma_min_weight(t: Tree)
    ensures
        weight(min_tree(t)) == weight(t),
    decreases t,
{
    if let Tree::Group(ch, c) = t {
        let m = min_all(ch);
        lemma_min_all(ch);
        assert forall|i: int| 0 <= i < m.len() implies #[trigger] weight(m[i]) == weight(ch[i]) by {
            lemma_min_weight(ch[i]);
        }
        lemma_weight_all_pointwise(m, ch);
        assert(weight(t) == c * weight_all(ch));
        if m.len() == 1 {
            let x = m[0];
            lemma_weight_all_single(m);
            lemma_weight_unit(x);
            let k = count_of(x);
            let u = unit_weight(x);
            assert(k * c * u == c * (k * u)) by (nonlinear_arith);
        } else {
            assert(weight(Tree::Group(m, c)) == c * weight_all(m));
        }
    }
}

/// Reversal keeps the weight of every tree.
pub proof fn lemma_rev_weight(t: Tree)
    ensures
        weight(rev_tree(t)) == weight(t),
    decreases t,
{
    if let Tree::Group(ch, c) = t {
        lemma_rev_all(ch);
        let r = rev_all(ch);
        assert forall|i: int| 0 <= i < ch.len() implies #[trigger] weight(r[i]) == weight(ch[i]) by {
            lemma_rev_weight(ch[i]);
        }
        lemma_weight_all_pointwise(r, ch);
        lemma_weight_all_flip(r);
        let x = Tree::Group(flip(r), c);
        assert(weight(x) == c * weight_all(flip(r)));
        assert(weight(t) == c * weight_all(ch));
        lemma_group_weight(x);
        lemma_min_weight(group_tree(x));
    }
}

} // verus!
