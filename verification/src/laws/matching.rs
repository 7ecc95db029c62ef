//! Expressions of the same shape have the same hash.
use crate::ast::{AstView, OpView};
use crate::bags::{
    joined, lemma_joined_bag, lemma_joined_bags, lemma_joined_contains, lemma_map_bag,
};
use crate::canonical::{
    CanonView, argument_hashes, argument_uses, arguments, as_arguments, canon, canons,
    leaf_spelling, lemma_canons, node_canon, numbers_after, numbers_before, step_index,
    uses_through,
};
use crate::laws::naming::{apart, lemma_nameless_bag, lemma_nameless_renamed, renaming};
use crate::ops::{greater_op, law_op_classes_apart, symbol_op, unordered_op};
use crate::paths::{Use, VarKey, step_spelling, var_key};
use crate::sort::{hash_order, lemma_hash_order_total, lemma_sort_unique};
use vstd::prelude::*;
use vstd::seq_lib::lemma_multiset_commutative;

verus! {

/// An operator, a "less" comparison as the "greater" one that it means.
pub open spec fn upright_op(op: OpView) -> OpView {
    match greater_op(op.opstring()) {
        Some(name) => OpView::Apply(name),
        None => op,
    }
}

/// A node, a "less" comparison as the "greater" one that it means.
pub open spec fn upright(ast: AstView) -> AstView {
    match ast.swapped() {
        Some(node) => node,
        None => ast,
    }
}

/// Whether `ys` are the operands of `b` in an order in which they may be compared
/// with those of `a`: any order where order does not matter, and back to front where
/// just one of the two is a "less" comparison.
pub open spec fn reordered(a: AstView, b: AstView, ys: Seq<AstView>) -> bool {
    if unordered_op(a.op.opstring()) {
        ys.to_multiset() == b.children.to_multiset()
    } else if a.swapped() is Some == b.swapped() is Some {
        ys == b.children
    } else {
        ys == b.children.reverse()
    }
}

/// Whether two expressions have the same shape, ignoring the order of operands where
/// order does not matter, and whether a comparison was written `a < b` or `b > a`,
/// where `names` tells for every variable of the first which one of the second stands
/// in its place.
pub open spec fn matching(a: AstView, b: AstView, names: spec_fn(VarKey) -> VarKey) -> bool
    decreases a,
{
    if symbol_op(a.op.opstring()) {
        &&& a.op.renamed(Seq::empty()) == b.op.renamed(Seq::empty())
        &&& var_key(b) == names(var_key(a))
    } else if a.is_leaf() {
        a.op == b.op
    } else {
        &&& upright_op(a.op) == upright_op(b.op)
        &&& exists|ys: Seq<AstView>|
            {
                &&& #[trigger] reordered(a, b, ys)
                &&& ys.len() == a.children.len()
                &&& forall|i: int|
                    0 <= i < a.children.len() ==> matching(a.children[i], #[trigger] ys[i], names)
            }
    }
}

/// The same variable under the same name.
pub open spec fn same_names() -> spec_fn(VarKey) -> VarKey {
    |var: VarKey| var
}

/// A comparison hashes as it does with its operands swapped: `a < b` as `b > a`.
pub proof fn law_comparison_swapped(ast: AstView)
    ensures
        canon(upright(ast)) == canon(ast),
{
    law_op_classes_apart(ast.op.opstring());
    if let Some(node) = ast.swapped() {
        lemma_canons(ast.children);
        lemma_canons(node.children);
        let operands = canons(ast.children);
        reveal_strlit("ULT");
        reveal_strlit("ULE");
        reveal_strlit("SLT");
        reveal_strlit("SLE");
        reveal_strlit("ZeroExt");
        reveal_strlit("SignExt");
        reveal_strlit("Extract");
        reveal_strlit("fpAdd");
        reveal_strlit("fpSub");
        reveal_strlit("fpMul");
        reveal_strlit("fpDiv");
        reveal_strlit("fpSqrt");
        assert(ast.op.opstring().len() == 3);
        assert(numbers_before(ast.op) == Seq::<u64>::empty());
        assert(numbers_after(ast.op) == Seq::<u64>::empty());
        assert(arguments(ast.op, operands) =~= operands);
        assert(canons(node.children) =~= operands.reverse());
        assert(arguments(node.op, operands.reverse()) =~= operands.reverse());
    }
}

proof fn lemma_joined_renamed(parts: Seq<Seq<Use>>, names: spec_fn(VarKey) -> VarKey)
    ensures
        joined(parts).map_values(renaming(names)) == joined(
            Seq::new(parts.len(), |i: int| parts[i].map_values(renaming(names))),
        ),
    decreases parts.len(),
{
    let renamed = Seq::new(parts.len(), |i: int| parts[i].map_values(renaming(names)));
    if parts.len() == 0 {
        assert(joined(parts).map_values(renaming(names)) =~= joined(renamed));
    } else {
        let front = parts.drop_last();
        lemma_joined_renamed(front, names);
        assert(renamed.drop_last() =~= Seq::new(
            front.len(),
            |i: int| front[i].map_values(renaming(names)),
        ));
        assert(joined(parts).map_values(renaming(names)) =~= joined(renamed));
    }
}

/// Arguments that make the same uses under other names give a node that does.
proof fn lemma_node_uses(
    op: Seq<char>,
    xs: Seq<CanonView>,
    ys: Seq<CanonView>,
    names: spec_fn(VarKey) -> VarKey,
)
    requires
        xs.len() == ys.len(),
        forall|i: int|
            0 <= i < xs.len() ==> (#[trigger] ys[i]).uses.to_multiset() == xs[i].uses.map_values(
                renaming(names),
            ).to_multiset(),
    ensures
        joined(argument_uses(op, ys)).to_multiset() == joined(argument_uses(op, xs)).map_values(
            renaming(names),
        ).to_multiset(),
{
    let r = renaming(names);
    let parts = argument_uses(op, xs);
    let renamed = Seq::new(parts.len(), |i: int| parts[i].map_values(r));
    lemma_joined_renamed(parts, names);
    assert forall|i: int| 0 <= i < ys.len() implies (#[trigger] argument_uses(
        op,
        ys,
    )[i]).to_multiset() == renamed[i].to_multiset() by {
        let step = step_spelling(op, step_index(op, i));
        let f = |u: Use| Use { var: u.var, path: step + u.path };
        assert(ys[i].uses.to_multiset() == xs[i].uses.map_values(r).to_multiset());
        lemma_map_bag(ys[i].uses, xs[i].uses.map_values(r), f);
        assert(argument_uses(op, ys)[i] =~= ys[i].uses.map_values(f));
        assert(renamed[i] =~= xs[i].uses.map_values(r).map_values(f));
    }
    lemma_joined_bags(argument_uses(op, ys), renamed);
}

/// A node shows nothing of the names below it.
proof fn lemma_node_hash(
    op: Seq<char>,
    xs: Seq<CanonView>,
    ys: Seq<CanonView>,
    names: spec_fn(VarKey) -> VarKey,
)
    requires
        xs.len() == ys.len(),
        forall|i: int|
            0 <= i < xs.len() ==> (#[trigger] ys[i]).uses.to_multiset() == xs[i].uses.map_values(
                renaming(names),
            ).to_multiset(),
        forall|i: int| 0 <= i < xs.len() ==> (#[trigger] ys[i]).hash == xs[i].hash,
        apart(names, joined(argument_uses(op, xs))),
    ensures
        node_canon(op, ys).hash == node_canon(op, xs).hash,
{
    let uses = joined(argument_uses(op, xs));
    lemma_node_uses(op, xs, ys, names);
    lemma_nameless_bag(joined(argument_uses(op, ys)), uses.map_values(renaming(names)));
    lemma_nameless_renamed(uses, names);
    assert(argument_hashes(ys) =~= argument_hashes(xs));
}

/// The order of the arguments does not show where it does not matter.
proof fn lemma_node_reordered(op: Seq<char>, xs: Seq<CanonView>, ys: Seq<CanonView>)
    requires
        unordered_op(op),
        xs.to_multiset() == ys.to_multiset(),
    ensures
        joined(argument_uses(op, xs)).to_multiset() == joined(
            argument_uses(op, ys),
        ).to_multiset(),
        node_canon(op, xs).hash == node_canon(op, ys).hash,
{
    let step = step_spelling(op, None);
    let f = |arg: CanonView| uses_through(arg.uses, step);
    assert(argument_uses(op, xs) =~= xs.map_values(f));
    assert(argument_uses(op, ys) =~= ys.map_values(f));
    lemma_map_bag(xs, ys, f);
    lemma_joined_bag(argument_uses(op, xs), argument_uses(op, ys));
    lemma_nameless_bag(joined(argument_uses(op, xs)), joined(argument_uses(op, ys)));
    let g = |arg: CanonView| arg.hash;
    assert(argument_hashes(xs) =~= xs.map_values(g));
    assert(argument_hashes(ys) =~= ys.map_values(g));
    lemma_map_bag(xs, ys, g);
    lemma_hash_order_total();
    lemma_sort_unique(argument_hashes(xs), argument_hashes(ys), hash_order());
}

proof fn lemma_arguments_bag(op: OpView, xs: Seq<CanonView>, ys: Seq<CanonView>)
    requires
        xs.to_multiset() == ys.to_multiset(),
    ensures
        arguments(op, xs).to_multiset() == arguments(op, ys).to_multiset(),
{
    let (before, after) = (as_arguments(numbers_before(op)), as_arguments(numbers_after(op)));
    lemma_multiset_commutative(before, xs);
    lemma_multiset_commutative(before, ys);
    lemma_multiset_commutative(before + xs, after);
    lemma_multiset_commutative(before + ys, after);
}

/// Where the order of operands does not matter, it does not show in the hash.
pub proof fn law_operand_order(ast: AstView, children: Seq<AstView>)
    requires
        unordered_op(ast.op.opstring()),
        children.to_multiset() == ast.children.to_multiset(),
    ensures
        canon(ast.over(children)).hash == canon(ast).hash,
        canon(ast.over(children)).uses.to_multiset() == canon(ast).uses.to_multiset(),
{
    law_op_classes_apart(ast.op.opstring());
    let f = |child: AstView| canon(child);
    lemma_canons(ast.children);
    lemma_canons(children);
    assert(canons(ast.children) =~= ast.children.map_values(f));
    assert(canons(children) =~= children.map_values(f));
    lemma_map_bag(children, ast.children, f);
    lemma_arguments_bag(ast.op, canons(children), canons(ast.children));
    lemma_node_reordered(
        ast.op.opstring(),
        arguments(ast.op, canons(children)),
        arguments(ast.op, canons(ast.children)),
    );
}

/// Arguments with the numbers of a node round them still correspond.
proof fn lemma_arguments_renamed(
    op: OpView,
    xs: Seq<CanonView>,
    ys: Seq<CanonView>,
    names: spec_fn(VarKey) -> VarKey,
)
    requires
        xs.len() == ys.len(),
        forall|i: int|
            0 <= i < xs.len() ==> (#[trigger] ys[i]).uses.to_multiset() == xs[i].uses.map_values(
                renaming(names),
            ).to_multiset(),
    ensures
        arguments(op, xs).len() == arguments(op, ys).len(),
        forall|i: int|
            0 <= i < arguments(op, xs).len() ==> (#[trigger] arguments(
                op,
                ys,
            )[i]).uses.to_multiset() == arguments(op, xs)[i].uses.map_values(
                renaming(names),
            ).to_multiset(),
{
    let (before, after) = (as_arguments(numbers_before(op)), as_arguments(numbers_after(op)));
    let n = before.len();
    assert forall|i: int| 0 <= i < arguments(op, xs).len() implies (#[trigger] arguments(
        op,
        ys,
    )[i]).uses.to_multiset() == arguments(op, xs)[i].uses.map_values(
        renaming(names),
    ).to_multiset() by {
        if n <= i < n + xs.len() {
            assert(arguments(op, ys)[i] == ys[i - n]);
            assert(arguments(op, xs)[i] == xs[i - n]);
        } else {
            assert(arguments(op, ys)[i] == arguments(op, xs)[i]);
            assert(arguments(op, ys)[i].uses =~= arguments(op, xs)[i].uses.map_values(
                renaming(names),
            ));
        }
    }
}

/// Variables that are told apart in an expression are told apart in its operands.
pub proof fn lemma_apart_operand(ast: AstView, names: spec_fn(VarKey) -> VarKey, k: int)
    requires
        !ast.is_leaf(),
        greater_op(ast.op.opstring()) is None,
        apart(names, canon(ast).uses),
        0 <= k < ast.children.len(),
    ensures
        apart(names, canon(ast.children[k]).uses),
{
    lemma_canons(ast.children);
    let args = arguments(ast.op, canons(ast.children));
    let parts = argument_uses(ast.op.opstring(), args);
    let i = numbers_before(ast.op).len() + k;
    let uses = canon(ast.children[k]).uses;
    let all = joined(parts);
    assert(args[i] == canon(ast.children[k]));
    assert forall|p: int, q: int|
        0 <= p < uses.len() && 0 <= q < uses.len() && names((#[trigger] uses[p]).var) == names(
            (#[trigger] uses[q]).var,
        ) implies uses[p].var == uses[q].var by {
        lemma_joined_contains(parts, i, p);
        lemma_joined_contains(parts, i, q);
        let p1 = choose|m: int| 0 <= m < all.len() && all[m] == parts[i][p];
        let q1 = choose|m: int| 0 <= m < all.len() && all[m] == parts[i][q];
        assert(names(all[p1].var) == names(all[q1].var));
    }
}

/// Operands that go with those of a node, lined up with those of the upright node.
spec fn lined_up(a: AstView, ys: Seq<AstView>) -> Seq<AstView> {
    if a.swapped() is Some {
        ys.reverse()
    } else {
        ys
    }
}

/// Operands that correspond one by one give a node that shows the same but for the
/// names.
proof fn lemma_operands_match(x: AstView, zs: Seq<AstView>, names: spec_fn(VarKey) -> VarKey)
    requires
        !x.is_leaf(),
        greater_op(x.op.opstring()) is None,
        zs.len() == x.children.len(),
        forall|i: int|
            0 <= i < zs.len() ==> canon(#[trigger] zs[i]).uses.to_multiset() == canon(
                x.children[i],
            ).uses.map_values(renaming(names)).to_multiset(),
        forall|i: int|
            0 <= i < zs.len() && apart(names, canon(x.children[i]).uses) ==> canon(
                #[trigger] zs[i],
            ).hash == canon(x.children[i]).hash,
    ensures
        canon(x.over(zs)).uses.to_multiset() == canon(x).uses.map_values(
            renaming(names),
        ).to_multiset(),
        apart(names, canon(x).uses) ==> canon(x.over(zs)).hash == canon(x).hash,
{
    let op = x.op.opstring();
    lemma_canons(x.children);
    lemma_canons(zs);
    let (us, vs) = (canons(x.children), canons(zs));
    assert forall|i: int| 0 <= i < us.len() implies (#[trigger] vs[i]).uses.to_multiset()
        == us[i].uses.map_values(renaming(names)).to_multiset() by {
        assert(vs[i] == canon(zs[i]));
    }
    lemma_arguments_renamed(x.op, us, vs, names);
    let (args, brgs) = (arguments(x.op, us), arguments(x.op, vs));
    let n = numbers_before(x.op).len() as int;
    lemma_node_uses(op, args, brgs, names);
    if apart(names, canon(x).uses) {
        assert forall|i: int| 0 <= i < args.len() implies (#[trigger] brgs[i]).hash
            == args[i].hash by {
            if n <= i < n + us.len() {
                let k = i - n;
                assert(args[i] == us[k] && brgs[i] == vs[k]);
                lemma_apart_operand(x, names, k);
                assert(vs[k] == canon(zs[k]));
            }
        }
        lemma_node_hash(op, args, brgs, names);
    }
}

/// The operands that go with those of a node are, lined up, those of the other node, up
/// to their order where that does not matter.
proof fn lemma_lined_up(a: AstView, b: AstView, ys: Seq<AstView>)
    requires
        !a.is_leaf(),
        upright_op(a.op) == upright_op(b.op),
        reordered(a, b, ys),
    ensures
        upright(a).op == upright(b).op,
        !upright(a).is_leaf(),
        greater_op(upright(a).op.opstring()) is None,
        canon(upright(b).over(lined_up(a, ys))).hash == canon(b).hash,
        canon(upright(b).over(lined_up(a, ys))).uses.to_multiset() == canon(
            b,
        ).uses.to_multiset(),
{
    law_op_classes_apart(a.op.opstring());
    law_op_classes_apart(b.op.opstring());
    law_comparison_swapped(b);
    let (y, zs) = (upright(b), lined_up(a, ys));
    law_op_classes_apart(y.op.opstring());
    if unordered_op(a.op.opstring()) {
        law_operand_order(y, zs);
    } else {
        assert(zs =~= y.children);
        assert(y.over(zs) == y);
    }
}

proof fn lemma_leaves_match(a: AstView, b: AstView, names: spec_fn(VarKey) -> VarKey)
    requires
        a.is_leaf(),
        matching(a, b, names),
    ensures
        canon(b).uses.to_multiset() == canon(a).uses.map_values(renaming(names)).to_multiset(),
        canon(b).hash == canon(a).hash,
{
    law_op_classes_apart(a.op.opstring());
    if symbol_op(a.op.opstring()) {
        assert(a.op.opstring() == b.op.opstring());
        assert(leaf_spelling(a.op) == leaf_spelling(b.op));
    }
    assert(canon(b).uses =~= canon(a).uses.map_values(renaming(names)));
}

/// What the hash sees of matching expressions is the same but for the names.
pub proof fn lemma_matching_uses(a: AstView, b: AstView, names: spec_fn(VarKey) -> VarKey)
    requires
        matching(a, b, names),
    ensures
        canon(b).uses.to_multiset() == canon(a).uses.map_values(renaming(names)).to_multiset(),
        apart(names, canon(a).uses) ==> canon(b).hash == canon(a).hash,
    decreases a,
{
    if a.is_leaf() {
        lemma_leaves_match(a, b, names);
    } else {
        law_op_classes_apart(a.op.opstring());
        let ys = choose|ys: Seq<AstView>|
            {
                &&& #[trigger] reordered(a, b, ys)
                &&& ys.len() == a.children.len()
                &&& forall|i: int|
                    0 <= i < a.children.len() ==> matching(a.children[i], #[trigger] ys[i], names)
            };
        let (x, y, zs) = (upright(a), upright(b), lined_up(a, ys));
        assert forall|i: int| 0 <= i < zs.len() implies canon(
            #[trigger] zs[i],
        ).uses.to_multiset() == canon(x.children[i]).uses.map_values(renaming(names)).to_multiset()
            && (apart(names, canon(x.children[i]).uses) ==> canon(zs[i]).hash == canon(
            x.children[i],
        ).hash) by {
            let k = if a.swapped() is Some {
                ys.len() - 1 - i
            } else {
                i
            };
            assert(zs[i] == ys[k] && x.children[i] == a.children[k]);
            lemma_matching_uses(a.children[k], ys[k], names);
        }
        lemma_lined_up(a, b, ys);
        law_comparison_swapped(a);
        lemma_operands_match(x, zs, names);
        assert(canon(x.over(zs)) == canon(y.over(zs)));
    }
}

/// Matching expressions have the same hash, as long as different variables of the one
/// stand for different variables of the other.
pub proof fn law_matching_hash(a: AstView, b: AstView, names: spec_fn(VarKey) -> VarKey)
    requires
        matching(a, b, names),
        apart(names, canon(a).uses),
    ensures
        canon(a).hash == canon(b).hash,
{
    lemma_matching_uses(a, b, names);
}

/// An expression matches itself.
pub proof fn law_matching_itself(a: AstView)
    ensures
        matching(a, a, same_names()),
    decreases a,
{
    if !a.is_leaf() {
        assert forall|i: int| 0 <= i < a.children.len() implies matching(
            a.children[i],
            #[trigger] a.children[i],
            same_names(),
        ) by {
            law_matching_itself(a.children[i]);
        }
        assert(reordered(a, a, a.children));
    }
}

/// An expression with every variable replaced by another.
pub open spec fn relabelled(ast: AstView, names: spec_fn(VarKey) -> VarKey) -> AstView
    decreases ast,
{
    if symbol_op(ast.op.opstring()) {
        let (op, annotations) = names(var_key(ast));
        AstView { op, annotations, origin: ast.origin, children: ast.children }
    } else if ast.is_leaf() {
        ast
    } else {
        ast.over(relabelled_all(ast.children, names))
    }
}

/// Expressions with every variable replaced by another.
pub open spec fn relabelled_all(
    asts: Seq<AstView>,
    names: spec_fn(VarKey) -> VarKey,
) -> Seq<AstView>
    decreases asts,
{
    if asts.len() == 0 {
        Seq::empty()
    } else {
        relabelled_all(asts.drop_last(), names).push(relabelled(asts.last(), names))
    }
}

proof fn lemma_relabelled_all(asts: Seq<AstView>, names: spec_fn(VarKey) -> VarKey)
    ensures
        relabelled_all(asts, names).len() == asts.len(),
        forall|i: int|
            0 <= i < asts.len() ==> #[trigger] relabelled_all(asts, names)[i] == relabelled(
                asts[i],
                names,
            ),
    decreases asts.len(),
{
    if asts.len() > 0 {
        lemma_relabelled_all(asts.drop_last(), names);
    }
}

/// Replacing variables by others of the same type gives a matching expression.
pub proof fn law_relabelled_matches(ast: AstView, names: spec_fn(VarKey) -> VarKey)
    requires
        forall|var: VarKey|
            (#[trigger] names(var)).0.renamed(Seq::empty()) == var.0.renamed(Seq::empty()),
    ensures
        matching(ast, relabelled(ast, names), names),
    decreases ast,
{
    if !ast.is_leaf() {
        let ys = relabelled_all(ast.children, names);
        lemma_relabelled_all(ast.children, names);
        assert forall|i: int| 0 <= i < ast.children.len() implies matching(
            ast.children[i],
            #[trigger] ys[i],
            names,
        ) by {
            law_relabelled_matches(ast.children[i], names);
        }
        assert(reordered(ast, relabelled(ast, names), ys));
    } else if symbol_op(ast.op.opstring()) {
        assert(names(var_key(ast)).0.renamed(Seq::empty()) == ast.op.renamed(Seq::empty()));
    }
}

/// The names of variables do not show in the hash: replacing different variables by
/// different ones of the same types keeps it.
pub proof fn law_names_ignored(ast: AstView, names: spec_fn(VarKey) -> VarKey)
    requires
        forall|var: VarKey|
            (#[trigger] names(var)).0.renamed(Seq::empty()) == var.0.renamed(Seq::empty()),
        apart(names, canon(ast).uses),
    ensures
        canon(relabelled(ast, names)).hash == canon(ast).hash,
{
    law_relabelled_matches(ast, names);
    law_matching_hash(ast, relabelled(ast, names), names);
}

} // verus!
