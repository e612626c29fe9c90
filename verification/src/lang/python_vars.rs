//! How the detailed Python frontend relates to the plain one: the detailed
//! facts are the plain facts with the variables added as leaves.

use vstd::prelude::*;
use crate::common::NodeKind;
use crate::facts::RawNodeView;
use crate::lang::common::{SyntaxNode, Frontend, traverse_spec, traverse_children_spec, classify_spec, node_fact, add_child};
use crate::lang::grammar::tree_facts;

verus! {

/// The facts before position `n` that are not variables.
pub open spec fn rank(d: Seq<RawNodeView>, n: int) -> nat
    decreases n,
{
    if n <= 0 {
        0
    } else {
        rank(d, n - 1) + if d[n - 1].kind != NodeKind::Variable {
            1nat
        } else {
            0nat
        }
    }
}

/// Child indices renumbered without the variables (which are dropped).
pub open spec fn remap(d: Seq<RawNodeView>, cs: Seq<usize>) -> Seq<usize>
    decreases cs.len(),
{
    if cs.len() == 0 {
        seq![]
    } else {
        let r = remap(d, cs.drop_last());
        let c = cs.last() as int;
        if c < d.len() && d[c].kind != NodeKind::Variable {
            r.push(rank(d, c) as usize)
        } else {
            r
        }
    }
}

/// A fact with other children.
pub open spec fn with_children(x: RawNodeView, cs: Seq<usize>) -> RawNodeView {
    RawNodeView { children: cs, ..x }
}

/// `p` is `d` without its variable facts: the other facts in order, their
/// children renumbered and without variables.
#[verifier::opaque]
pub open spec fn without_variables(d: Seq<RawNodeView>, p: Seq<RawNodeView>) -> bool {
    &&& p.len() == rank(d, d.len() as int)
    &&& forall|i: int|
        0 <= i < d.len() && (#[trigger] d[i]).kind != NodeKind::Variable ==> p[rank(d, i) as int]
            == with_children(d[i], remap(d, d[i].children))
}

/// Every child index of a fact is an earlier... a fact of the list.
#[verifier::opaque]
pub open spec fn children_below(d: Seq<RawNodeView>) -> bool {
    forall|i: int, j: int| 0 <= i < d.len() && 0 <= j < d[i].children.len() ==> (#[trigger] d[i].children[j]) < d.len()
}

/// The parent of the plain traversal is the detailed one's, renumbered;
/// a variable is never a parent.
pub open spec fn parents_match(d: Seq<RawNodeView>, pd: Option<nat>, pp: Option<nat>) -> bool {
    match pd {
        Some(p) => p < d.len() && d[p as int].kind != NodeKind::Variable && pp == Some(rank(d, p as int)),
        None => pp is None,
    }
}

/// Every `identifier` node of the tree is a leaf.
pub open spec fn ident_leaves(t: SyntaxNode) -> bool
    decreases t, t.children@.len() + 1,
{
    (t.kind@ == "identifier"@ ==> t.children@.len() == 0) && ident_leaves_from(t, 0)
}

pub open spec fn ident_leaves_from(t: SyntaxNode, k: int) -> bool
    decreases t, t.children@.len() - k,
{
    if k < 0 || k >= t.children@.len() {
        true
    } else {
        proof {
            assert(decreases_to!(t => t.children));
        }
        ident_leaves(t.children@[k]) && ident_leaves_from(t, k + 1)
    }
}

proof fn lemma_wv_get(d: Seq<RawNodeView>, p: Seq<RawNodeView>, i: int)
    requires
        without_variables(d, p),
        0 <= i < d.len(),
    ensures
        p.len() == rank(d, d.len() as int),
        d[i].kind != NodeKind::Variable ==> p[rank(d, i) as int] == with_children(d[i], remap(d, d[i].children)),
{
    reveal(without_variables);
}

proof fn lemma_wv_len(d: Seq<RawNodeView>, p: Seq<RawNodeView>)
    requires
        without_variables(d, p),
    ensures
        p.len() == rank(d, d.len() as int),
{
    reveal(without_variables);
}

proof fn lemma_cb_get(d: Seq<RawNodeView>, i: int)
    requires
        children_below(d),
        0 <= i < d.len(),
    ensures
        forall|j: int| 0 <= j < d[i].children.len() ==> (#[trigger] d[i].children[j]) < d.len(),
{
    reveal(children_below);
}

proof fn lemma_rank_prefix(d: Seq<RawNodeView>, e: Seq<RawNodeView>, n: int)
    requires
        0 <= n <= d.len(),
        n <= e.len(),
        forall|i: int| 0 <= i < n ==> (#[trigger] e[i]).kind == d[i].kind,
    ensures
        rank(e, n) == rank(d, n),
    decreases n,
{
    if n > 0 {
        lemma_rank_prefix(d, e, n - 1);
    }
}

proof fn lemma_rank_mono(d: Seq<RawNodeView>, i: int, j: int)
    requires
        0 <= i <= j,
    ensures
        rank(d, i) <= rank(d, j),
        i < j && d[i].kind != NodeKind::Variable ==> rank(d, i) < rank(d, j),
    decreases j - i,
{
    if i < j {
        lemma_rank_mono(d, i, j - 1);
    }
}

proof fn lemma_rank_le(d: Seq<RawNodeView>, n: int)
    requires
        0 <= n,
    ensures
        rank(d, n) <= n,
    decreases n,
{
    if n > 0 {
        lemma_rank_le(d, n - 1);
    }
}

proof fn lemma_remap_stable(d: Seq<RawNodeView>, e: Seq<RawNodeView>, cs: Seq<usize>)
    requires
        d.len() <= e.len(),
        forall|i: int| 0 <= i < d.len() ==> (#[trigger] e[i]).kind == d[i].kind,
        forall|j: int| 0 <= j < cs.len() ==> (#[trigger] cs[j]) < d.len(),
    ensures
        remap(e, cs) == remap(d, cs),
    decreases cs.len(),
{
    if cs.len() > 0 {
        lemma_remap_stable(d, e, cs.drop_last());
        let c = cs.last() as int;
        assert(cs[cs.len() - 1] < d.len());
        lemma_rank_prefix(d, e, c);
    }
}

proof fn lemma_push_kinds(d: Seq<RawNodeView>, pd: Option<nat>, f: RawNodeView)
    ensures
        add_child(d.push(f), pd, d.len()).len() == d.len() + 1,
        forall|i: int| 0 <= i < d.len() ==> #[trigger] add_child(d.push(f), pd, d.len())[i].kind == d[i].kind,
        add_child(d.push(f), pd, d.len())[d.len() as int].kind == f.kind,
        forall|i: int|
            0 <= i < d.len() && pd != Some(i as nat) ==> #[trigger] add_child(d.push(f), pd, d.len())[i] == d[i],
        add_child(d.push(f), pd, d.len())[d.len() as int] == f || pd == Some(d.len()),
        forall|q: nat| pd == Some(q) && q < d.len() ==> #[trigger] add_child(d.push(f), pd, d.len())[q as int] == with_children(d[q as int], d[q as int].children.push(d.len() as usize)),
{
    let d1 = add_child(d.push(f), pd, d.len());
    assert forall|i: int| 0 <= i < d.len() implies #[trigger] d1[i].kind == d[i].kind by {
        assert(d.push(f)[i] == d[i]);
    }
    assert forall|i: int| 0 <= i < d.len() && pd != Some(i as nat) implies #[trigger] d1[i] == d[i] by {
        assert(d.push(f)[i] == d[i]);
    }
}

proof fn lemma_push_children_below(d: Seq<RawNodeView>, pd: Option<nat>, f: RawNodeView)
    requires
        children_below(d),
        pd matches Some(q) ==> q < d.len(),
        f.children.len() == 0,
    ensures
        children_below(add_child(d.push(f), pd, d.len())),
{
    let d1 = add_child(d.push(f), pd, d.len());
    lemma_push_kinds(d, pd, f);
    reveal(children_below);
    assert forall|i: int, j: int| 0 <= i < d1.len() && 0 <= j < d1[i].children.len() implies (#[trigger] d1[i].children[j])
        < d1.len() by {
        if i < d.len() {
            if pd == Some(i as nat) {
                if j < d[i].children.len() {
                    assert(d1[i].children[j] == d[i].children[j]);
                }
            }
        } else {
            if pd == Some(d.len()) {
                assert(false);
            }
        }
    }
}

proof fn lemma_push_entry(d: Seq<RawNodeView>, pd: Option<nat>, f: RawNodeView, e: RawNodeView, i: int)
    requires
        0 <= i < d.len(),
        d.len() < usize::MAX,
        e == with_children(d[i], remap(d, d[i].children)),
        forall|j: int| 0 <= j < d[i].children.len() ==> (#[trigger] d[i].children[j]) < d.len(),
    ensures
        rank(add_child(d.push(f), pd, d.len()), i) == rank(d, i),
        pd == Some(i as nat) && f.kind != NodeKind::Variable ==> with_children(
            add_child(d.push(f), pd, d.len())[i],
            remap(add_child(d.push(f), pd, d.len()), add_child(d.push(f), pd, d.len())[i].children),
        ) == with_children(e, e.children.push(rank(d, d.len() as int) as usize)),
        pd == Some(i as nat) && f.kind == NodeKind::Variable ==> with_children(
            add_child(d.push(f), pd, d.len())[i],
            remap(add_child(d.push(f), pd, d.len()), add_child(d.push(f), pd, d.len())[i].children),
        ) == e,
        pd != Some(i as nat) ==> with_children(
            add_child(d.push(f), pd, d.len())[i],
            remap(add_child(d.push(f), pd, d.len()), add_child(d.push(f), pd, d.len())[i].children),
        ) == e,
{
    let d1 = add_child(d.push(f), pd, d.len());
    lemma_push_kinds(d, pd, f);
    lemma_rank_prefix(d, d1, i);
    lemma_rank_prefix(d, d1, d.len() as int);
    let di = d[i];
    lemma_remap_stable(d, d1, di.children);
    if pd == Some(i as nat) {
        let cs = di.children.push(d.len() as usize);
        assert(d1[i] == with_children(di, cs));
        assert(cs.drop_last() =~= di.children);
        assert(cs.last() == d.len() as usize);
        assert(d1[d.len() as int].kind == f.kind);
        assert(remap(d1, cs) == if f.kind != NodeKind::Variable {
            remap(d1, di.children).push(rank(d1, d.len() as int) as usize)
        } else {
            remap(d1, di.children)
        });
    } else {
        assert(d1[i] == d[i]);
    }
}

proof fn lemma_kept_at(d: Seq<RawNodeView>, p: Seq<RawNodeView>, pd: Option<nat>, pp: Option<nat>, f: RawNodeView, i: int)
    requires
        0 <= i <= d.len(),
        d.len() < usize::MAX,
        p.len() == rank(d, d.len() as int),
        i < d.len() ==> d[i].kind != NodeKind::Variable ==> p[rank(d, i) as int] == with_children(
            d[i],
            remap(d, d[i].children),
        ),
        i < d.len() ==> forall|j: int| 0 <= j < d[i].children.len() ==> (#[trigger] d[i].children[j]) < d.len(),
        parents_match(d, pd, pp),
        f.kind != NodeKind::Variable,
        f.children.len() == 0,
    ensures
        ({
            let d1 = add_child(d.push(f), pd, d.len());
            let p1 = add_child(p.push(f), pp, p.len());
            d1[i].kind != NodeKind::Variable ==> p1[rank(d1, i) as int] == with_children(d1[i], remap(d1, d1[i].children))
        }),
{
    let d1 = add_child(d.push(f), pd, d.len());
    let p1 = add_child(p.push(f), pp, p.len());
    lemma_push_kinds(d, pd, f);
    lemma_rank_prefix(d, d1, d.len() as int);
    lemma_rank_le(d, d.len() as int);
    if i == d.len() {
        lemma_rank_prefix(d, d1, i);
        match pd {
            Some(q) => {
                lemma_rank_mono(d, q as int, d.len() as int);
            },
            None => {},
        }
        assert(pd != Some(d.len()));
        assert(d1[i] == f);
        assert(f.children =~= Seq::<usize>::empty());
        assert(remap(d1, f.children) =~= Seq::<usize>::empty());
        assert(with_children(f, remap(d1, f.children)) == f);
        assert(p.push(f)[p.len() as int] == f);
        assert(pp != Some(p.len()));
        assert(p1[p.len() as int] == f);
        assert(rank(d1, i) == p.len());
    } else if d1[i].kind != NodeKind::Variable {
        lemma_rank_mono(d, i, d.len() as int);
        lemma_push_entry(d, pd, f, p[rank(d, i) as int], i);
        match pd {
            Some(q) => {
                if i != q {
                    lemma_rank_mono(d, if i < q { i } else { q as int }, if i < q { q as int } else { i });
                    assert(p1[rank(d, i) as int] == p[rank(d, i) as int]);
                } else {
                    assert(p1[rank(d, i) as int] == with_children(
                        p[rank(d, i) as int],
                        p[rank(d, i) as int].children.push(p.len() as usize),
                    ));
                }
            },
            None => {
                assert(p1[rank(d, i) as int] == p[rank(d, i) as int]);
            },
        }
    }
}

proof fn lemma_var_at(d: Seq<RawNodeView>, p: Seq<RawNodeView>, pd: Option<nat>, f: RawNodeView, i: int)
    requires
        0 <= i <= d.len(),
        d.len() < usize::MAX,
        i < d.len() ==> d[i].kind != NodeKind::Variable ==> p[rank(d, i) as int] == with_children(
            d[i],
            remap(d, d[i].children),
        ),
        i < d.len() ==> forall|j: int| 0 <= j < d[i].children.len() ==> (#[trigger] d[i].children[j]) < d.len(),
        f.kind == NodeKind::Variable,
    ensures
        ({
            let d1 = add_child(d.push(f), pd, d.len());
            d1[i].kind != NodeKind::Variable ==> p[rank(d1, i) as int] == with_children(d1[i], remap(d1, d1[i].children))
        }),
{
    let d1 = add_child(d.push(f), pd, d.len());
    lemma_push_kinds(d, pd, f);
    if i < d.len() && d1[i].kind != NodeKind::Variable {
        lemma_push_entry(d, pd, f, p[rank(d, i) as int], i);
    }
}

/// Adding a fact that is not a variable to both lists keeps them related.
#[verifier::spinoff_prover]
#[verifier::rlimit(60)]
proof fn lemma_push_kept(
    d: Seq<RawNodeView>,
    p: Seq<RawNodeView>,
    pd: Option<nat>,
    pp: Option<nat>,
    f: RawNodeView,
)
    requires
        without_variables(d, p),
        children_below(d),
        parents_match(d, pd, pp),
        f.kind != NodeKind::Variable,
        f.children.len() == 0,
        d.len() < usize::MAX,
    ensures
        without_variables(add_child(d.push(f), pd, d.len()), add_child(p.push(f), pp, p.len())),
        children_below(add_child(d.push(f), pd, d.len())),
        parents_match(add_child(d.push(f), pd, d.len()), Some(d.len()), Some(p.len())),
        forall|i: int| 0 <= i < d.len() ==> #[trigger] add_child(d.push(f), pd, d.len())[i].kind == d[i].kind,
{
    let d1 = add_child(d.push(f), pd, d.len());
    let p1 = add_child(p.push(f), pp, p.len());
    lemma_push_kinds(d, pd, f);
    lemma_push_children_below(d, pd, f);
    lemma_rank_prefix(d, d1, d.len() as int);
    assert(rank(d1, d1.len() as int) == rank(d, d.len() as int) + 1);
    lemma_wv_len(d, p);
    assert forall|i: int| 0 <= i < d1.len() && (#[trigger] d1[i]).kind != NodeKind::Variable implies p1[rank(d1, i) as int]
        == with_children(d1[i], remap(d1, d1[i].children)) by {
        if i < d.len() {
            lemma_wv_get(d, p, i);
            lemma_cb_get(d, i);
        }
        lemma_kept_at(d, p, pd, pp, f, i);
    }
    assert(without_variables(d1, p1)) by {
        reveal(without_variables);
    }
}

/// Adding a variable to the detailed list only keeps the lists related.
#[verifier::spinoff_prover]
#[verifier::rlimit(60)]
proof fn lemma_push_variable(d: Seq<RawNodeView>, p: Seq<RawNodeView>, pd: Option<nat>, pp: Option<nat>, f: RawNodeView)
    requires
        without_variables(d, p),
        children_below(d),
        parents_match(d, pd, pp),
        f.kind == NodeKind::Variable,
        f.children.len() == 0,
        d.len() < usize::MAX,
    ensures
        without_variables(add_child(d.push(f), pd, d.len()), p),
        children_below(add_child(d.push(f), pd, d.len())),
        parents_match(add_child(d.push(f), pd, d.len()), pd, pp),
        forall|i: int| 0 <= i < d.len() ==> #[trigger] add_child(d.push(f), pd, d.len())[i].kind == d[i].kind,
{
    let d1 = add_child(d.push(f), pd, d.len());
    lemma_push_kinds(d, pd, f);
    lemma_push_children_below(d, pd, f);
    lemma_rank_prefix(d, d1, d.len() as int);
    assert(rank(d1, d1.len() as int) == rank(d, d.len() as int));
    match pd {
        Some(q) => {
            lemma_rank_prefix(d, d1, q as int);
        },
        None => {},
    }
    lemma_wv_len(d, p);
    assert forall|i: int| 0 <= i < d1.len() && (#[trigger] d1[i]).kind != NodeKind::Variable implies p[rank(d1, i) as int]
        == with_children(d1[i], remap(d1, d1[i].children)) by {
        if i < d.len() {
            lemma_wv_get(d, p, i);
            lemma_cb_get(d, i);
        }
        lemma_var_at(d, p, pd, f, i);
    }
    assert(without_variables(d1, p)) by {
        reveal(without_variables);
    }
}

/// The detailed and the plain frontend.
pub open spec fn detailed() -> Frontend {
    Frontend::Python { include_variables: true }
}

pub open spec fn plain() -> Frontend {
    Frontend::Python { include_variables: false }
}

/// The common requirements of the simulation.
pub open spec fn sim_state(d: Seq<RawNodeView>, pd: Option<nat>, p: Seq<RawNodeView>, pp: Option<nat>) -> bool {
    &&& without_variables(d, p)
    &&& children_below(d)
    &&& parents_match(d, pd, pp)
}

/// The facts of `e` keep the kinds of those of `d`.
pub open spec fn keeps_kinds(d: Seq<RawNodeView>, e: Seq<RawNodeView>) -> bool {
    &&& d.len() <= e.len()
    &&& forall|i: int| 0 <= i < d.len() ==> (#[trigger] e[i]).kind == d[i].kind
}

proof fn lemma_keeps_trans(a: Seq<RawNodeView>, b: Seq<RawNodeView>, c: Seq<RawNodeView>)
    requires
        keeps_kinds(a, b),
        keeps_kinds(b, c),
    ensures
        keeps_kinds(a, c),
{
}

proof fn lemma_parents_keep(d: Seq<RawNodeView>, e: Seq<RawNodeView>, pd: Option<nat>, pp: Option<nat>)
    requires
        parents_match(d, pd, pp),
        keeps_kinds(d, e),
    ensures
        parents_match(e, pd, pp),
{
    match pd {
        Some(q) => {
            lemma_rank_prefix(d, e, q as int);
        },
        None => {},
    }
}

proof fn lemma_vars_sim(node: SyntaxNode, pk: Option<Seq<char>>, d: Seq<RawNodeView>, pd: Option<nat>, p: Seq<RawNodeView>, pp: Option<nat>)
    requires
        sim_state(d, pd, p, pp),
        ident_leaves(node),
        traverse_spec(detailed(), node, pk, d, pd).0.len() <= usize::MAX,
    ensures
        ({
            let rd = traverse_spec(detailed(), node, pk, d, pd);
            let rp = traverse_spec(plain(), node, pk, p, pp);
            &&& sim_state(rd.0, rd.1, rp.0, rp.1)
            &&& keeps_kinds(d, rd.0)
        }),
    decreases node, node.children@.len() + 2,
{
    crate::lang::common::lemma_traverse_len(detailed(), node, pk, d, pd);
    if node.kind@ == "identifier"@ {
        let f = node_fact(detailed(), NodeKind::Variable, node.text.deep_view(), node);
        reveal_strlit("identifier");
        reveal_strlit("function_definition");
        reveal_strlit("async_function_definition");
        reveal_strlit("class_definition");
        reveal_strlit("call");
        reveal_strlit("lambda");
        assert(node.kind@.len() == 10);
        assert(node.kind@ != "function_definition"@);
        assert(node.kind@ != "async_function_definition"@);
        assert(node.kind@ != "class_definition"@);
        assert(node.kind@ != "call"@);
        assert(node.kind@ != "lambda"@);
        assert(crate::lang::python::python_class(node, true) == Some((NodeKind::Variable, node.text.deep_view(), false)));
        assert(classify_spec(detailed(), node, pk) == Some((NodeKind::Variable, node.text.deep_view(), false)));
        assert(classify_spec(plain(), node, pk) is None);
        assert(node.children@.len() == 0);
        assert(traverse_children_spec(plain(), node, 0, p, pp) == (p, pp));
        assert(f.children =~= Seq::<usize>::empty());
        assert(traverse_spec(detailed(), node, pk, d, pd).0.len() == d.len() + 1);
        lemma_push_variable(d, p, pd, pp, f);
    } else {
        assert(classify_spec(detailed(), node, pk) == classify_spec(plain(), node, pk));
        match classify_spec(detailed(), node, pk) {
            Some((kind, name, container)) => {
                let f = node_fact(detailed(), kind, name, node);
                assert(node_fact(plain(), kind, name, node) == f);
                assert(kind != NodeKind::Variable);
                assert(f.children =~= Seq::<usize>::empty());
                let d1 = add_child(d.push(f), pd, d.len());
                lemma_wv_len(d, p);
                lemma_rank_le(d, d.len() as int);
                if container {
                    crate::lang::common::lemma_traverse_children_len(detailed(), node, 0, d1, Some(d.len()));
                    lemma_push_kept(d, p, pd, pp, f);
                    let p1 = add_child(p.push(f), pp, p.len());
                    lemma_vars_sim_children(node, 0, d1, Some(d.len()), p1, Some(p.len()));
                    let rd = traverse_children_spec(detailed(), node, 0, d1, Some(d.len())).0;
                    assert(keeps_kinds(d, d1));
                    lemma_keeps_trans(d, d1, rd);
                    lemma_parents_keep(d1, rd, Some(d.len()), Some(p.len()));
                } else {
                    lemma_push_kept(d, p, pd, pp, f);
                    assert(keeps_kinds(d, d1));
                    lemma_parents_keep(d, d1, pd, pp);
                }
            },
            None => {
                lemma_vars_sim_children(node, 0, d, pd, p, pp);
            },
        }
    }
}

proof fn lemma_vars_sim_children(
    node: SyntaxNode,
    k: int,
    d: Seq<RawNodeView>,
    pd: Option<nat>,
    p: Seq<RawNodeView>,
    pp: Option<nat>,
)
    requires
        sim_state(d, pd, p, pp),
        ident_leaves_from(node, k),
        traverse_children_spec(detailed(), node, k, d, pd).0.len() <= usize::MAX,
    ensures
        ({
            let rd = traverse_children_spec(detailed(), node, k, d, pd);
            let rp = traverse_children_spec(plain(), node, k, p, pp);
            &&& sim_state(rd.0, rd.1, rp.0, rp.1)
            &&& keeps_kinds(d, rd.0)
        }),
    decreases node, node.children@.len() - k + 1,
{
    if 0 <= k < node.children@.len() {
        assert(decreases_to!(node => node.children));
        let c = node.children@[k];
        let rd = traverse_spec(detailed(), c, Some(node.kind@), d, pd);
        let rp = traverse_spec(plain(), c, Some(node.kind@), p, pp);
        crate::lang::common::lemma_traverse_children_len(detailed(), node, k + 1, rd.0, rd.1);
        lemma_vars_sim(c, Some(node.kind@), d, pd, p, pp);
        lemma_vars_sim_children(node, k + 1, rd.0, rd.1, rp.0, rp.1);
        lemma_keeps_trans(d, rd.0, traverse_children_spec(detailed(), node, k + 1, rd.0, rd.1).0);
    }
}

/// The detailed Python facts of a syntax tree are its plain Python facts
/// with the variables added: deleting every variable fact from the detailed
/// facts (and its index from every children list, renumbering the rest)
/// gives exactly the plain facts.  This holds of every tree whose
/// `identifier` nodes are leaves.
pub proof fn lemma_detailed_minus_variables(tree: SyntaxNode)
    requires
        ident_leaves(tree),
        tree_facts(detailed(), tree).len() <= usize::MAX,
    ensures
        without_variables(tree_facts(detailed(), tree), tree_facts(plain(), tree)),
{
    let e = Seq::<RawNodeView>::empty();
    assert(without_variables(e, e)) by {
        reveal(without_variables);
    }
    assert(children_below(e)) by {
        reveal(children_below);
    }
    lemma_vars_sim(tree, None, e, None, e, None);
}

} // verus!
