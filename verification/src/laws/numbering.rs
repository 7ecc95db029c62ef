//! Numbering the uses of variables.
use crate::ast::{AstView, OpView};
use crate::bags::{
    joined, lemma_joined_add, lemma_joined_bag, lemma_map_bag, lemma_times_contains,
};
use crate::canonical::{
    CanonView, argument_uses, arguments, as_arguments, canon, canons, effective_arguments,
    effective_op, numbers_after, numbers_before,
};
use crate::laws::matching::{law_matching_hash, matching, reordered};
use crate::laws::rewriting::{law_rewriting_keeps_hash, law_rewriting_keeps_uses};
use crate::ops::{law_op_classes_apart, symbol_op};
use crate::paths::{Use, VarKey, used_vars, var_key};
use crate::rewrite::{canonicalized, named, named_all, rewritten};
use crate::text::{law_var_names_differ, var_name};
use crate::uses::{use_count, var_uses, var_uses_all};
use vstd::prelude::*;
use vstd::seq_lib::lemma_multiset_commutative;

verus! {

/// The variables of an expression from left to right, one for every use.
pub open spec fn variables(ast: AstView) -> Seq<VarKey>
    decreases ast,
{
    if symbol_op(ast.op.opstring()) {
        seq![var_key(ast)]
    } else if ast.is_leaf() {
        Seq::empty()
    } else {
        variables_all(ast.children)
    }
}

/// The variables of expressions from left to right, one for every use.
pub open spec fn variables_all(asts: Seq<AstView>) -> Seq<VarKey>
    decreases asts,
{
    if asts.len() == 0 {
        Seq::empty()
    } else {
        variables_all(asts.drop_last()) + variables(asts.last())
    }
}

/// A variable of the same type that is called by a number.
pub open spec fn called(var: VarKey, n: nat) -> VarKey {
    if var.0.has_name() {
        (var.0.renamed(var_name(n)), 0)
    } else {
        var
    }
}

/// Variables numbered from `n` on.
pub open spec fn numbered(vars: Seq<VarKey>, n: nat) -> Seq<VarKey> {
    Seq::new(vars.len(), |k: int| called(vars[k], (n + k) as nat))
}

/// Naming numbers each use of a variable from left to right, whichever variable it is,
/// and keeps its type.
pub proof fn law_uses_numbered(ast: AstView, n: nat)
    ensures
        variables(named(ast, n)) == numbered(variables(ast), n),
        variables(ast).len() == var_uses(ast),
    decreases ast,
{
    if ast.is_leaf() {
        assert(variables(named(ast, n)) =~= numbered(variables(ast), n));
    } else {
        lemma_all_numbered(ast.children, n);
    }
}

proof fn lemma_all_numbered(asts: Seq<AstView>, n: nat)
    ensures
        variables_all(named_all(asts, n)) == numbered(variables_all(asts), n),
        variables_all(asts).len() == var_uses_all(asts),
    decreases asts,
{
    if asts.len() > 0 {
        let front = asts.drop_last();
        lemma_all_numbered(front, n);
        law_uses_numbered(asts.last(), n + var_uses_all(front));
        assert(named_all(asts, n).drop_last() =~= named_all(front, n));
    }
    assert(variables_all(named_all(asts, n)) =~= numbered(variables_all(asts), n));
}

/// What is counted of an expression is how many uses there are of its variables, whatever
/// the variables, and a number comes back just when it fits 64 bits.
pub proof fn law_uses_counted(ast: AstView, n: u64)
    ensures
        use_count(ast) == Some(n) <==> variables(ast).len() == n,
        use_count(ast) is None <==> variables(ast).len() > u64::MAX,
{
    law_uses_numbered(ast, 0);
}

/// No two uses get the same name.
pub proof fn law_uses_named_apart(ast: AstView, n: nat, i: int, j: int)
    requires
        0 <= i < j < variables(ast).len(),
        variables(ast)[i].0.has_name(),
        variables(ast)[j].0.has_name(),
    ensures
        variables(named(ast, n))[i] != variables(named(ast, n))[j],
{
    law_uses_numbered(ast, n);
    law_var_names_differ((n + i) as nat, (n + j) as nat);
}

/// What is numbered already stays as it is.
pub proof fn law_naming_twice(ast: AstView, n: nat)
    ensures
        named(named(ast, n), n) == named(ast, n),
        var_uses(named(ast, n)) == var_uses(ast),
    decreases ast,
{
    if !ast.is_leaf() {
        lemma_naming_all_twice(ast.children, n);
    }
}

proof fn lemma_naming_all_twice(asts: Seq<AstView>, n: nat)
    ensures
        named_all(named_all(asts, n), n) == named_all(asts, n),
        var_uses_all(named_all(asts, n)) == var_uses_all(asts),
    decreases asts,
{
    if asts.len() > 0 {
        let front = asts.drop_last();
        lemma_naming_all_twice(front, n);
        law_naming_twice(asts.last(), n + var_uses_all(front));
        assert(named_all(asts, n).drop_last() =~= named_all(front, n));
    }
}

/// Where the variables of one of several expressions stand, and how it is named.
proof fn lemma_nth(asts: Seq<AstView>, n: nat, i: int)
    requires
        0 <= i < asts.len(),
    ensures
        named_all(asts, n).len() == asts.len(),
        named_all(asts, n)[i] == named(asts[i], n + var_uses_all(asts.take(i))),
        var_uses_all(asts.take(i)) + variables(asts[i]).len() <= variables_all(asts).len(),
        forall|k: int|
            0 <= k < variables(asts[i]).len() ==> #[trigger] variables(asts[i])[k]
                == variables_all(asts)[var_uses_all(asts.take(i)) + k],
    decreases asts.len(),
{
    let front = asts.drop_last();
    lemma_all_numbered(front, n);
    law_uses_numbered(asts.last(), 0);
    if i == asts.len() - 1 {
        assert(asts.take(i) =~= front);
        if front.len() > 0 {
            lemma_nth(front, n, 0);
        }
    } else {
        lemma_nth(front, n, i);
        assert(asts.take(i) =~= front.take(i));
    }
}

/// A numbered expression matches the one that it was made from, where the names go by
/// its variables.
proof fn lemma_named_matches(ast: AstView, n: nat, names: spec_fn(VarKey) -> VarKey)
    requires
        forall|k: int|
            0 <= k < variables(ast).len() ==> names(#[trigger] variables(ast)[k]) == numbered(
                variables(ast),
                n,
            )[k],
    ensures
        matching(ast, named(ast, n), names),
    decreases ast,
{
    if symbol_op(ast.op.opstring()) {
        assert(variables(ast)[0] == var_key(ast));
        assert(ast.renamed(var_name(n)).op.renamed(Seq::empty()) == ast.op.renamed(Seq::empty()));
    } else if !ast.is_leaf() {
        let ys = named_all(ast.children, n);
        assert forall|i: int| 0 <= i < ast.children.len() implies matching(
            ast.children[i],
            #[trigger] ys[i],
            names,
        ) by {
            let child = ast.children[i];
            let before = var_uses_all(ast.children.take(i));
            lemma_nth(ast.children, n, i);
            assert forall|k: int| 0 <= k < variables(child).len() implies names(
                #[trigger] variables(child)[k],
            ) == numbered(variables(child), n + before)[k] by {
                assert(variables(child)[k] == variables(ast)[before + k]);
            }
            lemma_named_matches(child, n + before, names);
        }
        if ast.children.len() > 0 {
            lemma_nth(ast.children, n, 0);
        }
        assert(reordered(ast, named(ast, n), ys)) by {
            assert(named(ast, n).children == ys);
        }
    }
}

/// The variables that arguments use, one list for each.
pub open spec fn argument_vars(args: Seq<CanonView>) -> Seq<Seq<VarKey>> {
    args.map_values(|arg: CanonView| used_vars(arg.uses))
}

pub proof fn lemma_joined_vars(op: Seq<char>, args: Seq<CanonView>)
    ensures
        used_vars(joined(argument_uses(op, args))) == joined(argument_vars(args)),
    decreases args.len(),
{
    let (parts, vars) = (argument_uses(op, args), argument_vars(args));
    if args.len() > 0 {
        lemma_joined_vars(op, args.drop_last());
        assert(parts.drop_last() =~= argument_uses(op, args.drop_last()));
        assert(vars.drop_last() =~= argument_vars(args.drop_last()));
        assert(used_vars(parts.last()) =~= vars.last());
    }
    assert(used_vars(joined(parts)) =~= joined(vars));
}

/// The variables that arguments use are those that the operands among them use.
pub proof fn lemma_argument_vars(op: OpView, operands: Seq<CanonView>)
    ensures
        joined(argument_vars(arguments(op, operands))) == joined(argument_vars(operands)),
{
    let (before, after) = (as_arguments(numbers_before(op)), as_arguments(numbers_after(op)));
    let straight = arguments(op, operands);
    lemma_numbers_use_nothing(numbers_before(op));
    lemma_numbers_use_nothing(numbers_after(op));
    assert(argument_vars(straight) =~= argument_vars(before) + argument_vars(operands)
        + argument_vars(after));
    lemma_joined_add(argument_vars(before), argument_vars(operands));
    lemma_joined_add(argument_vars(before) + argument_vars(operands), argument_vars(after));
    assert(joined(argument_vars(straight)) =~= joined(argument_vars(operands)));
}

proof fn lemma_numbers_use_nothing(numbers: Seq<u64>)
    ensures
        joined(argument_vars(as_arguments(numbers))) == Seq::<VarKey>::empty(),
    decreases numbers.len(),
{
    let vars = argument_vars(as_arguments(numbers));
    if numbers.len() > 0 {
        lemma_numbers_use_nothing(numbers.drop_last());
        assert(vars.drop_last() =~= argument_vars(as_arguments(numbers.drop_last())));
        assert(vars.last() =~= Seq::empty());
    }
    assert(joined(vars) =~= Seq::empty());
}

/// The uses that are known of an expression are those of its variables.
pub proof fn law_all_uses_known(ast: AstView)
    ensures
        used_vars(canon(ast).uses).to_multiset() == variables(ast).to_multiset(),
    decreases ast,
{
    law_op_classes_apart(ast.op.opstring());
    if ast.is_leaf() {
        assert(used_vars(canon(ast).uses) =~= variables(ast));
    } else {
        let operands = canons(ast.children);
        let straight = arguments(ast.op, operands);
        let args = effective_arguments(ast.op, operands);
        lemma_joined_vars(effective_op(ast.op.opstring()), args);
        argument_vars(straight).lemma_reverse_to_multiset();
        assert(argument_vars(straight.reverse()) =~= argument_vars(straight).reverse());
        lemma_joined_bag(argument_vars(args), argument_vars(straight));
        lemma_argument_vars(ast.op, operands);
        lemma_operands_known(ast.children);
    }
}

proof fn lemma_operands_known(asts: Seq<AstView>)
    ensures
        joined(argument_vars(canons(asts))).to_multiset() == variables_all(asts).to_multiset(),
    decreases asts,
{
    let vars = argument_vars(canons(asts));
    if asts.len() > 0 {
        let front = asts.drop_last();
        lemma_operands_known(front);
        law_all_uses_known(asts.last());
        assert(vars.drop_last() =~= argument_vars(canons(front)));
        lemma_multiset_commutative(joined(vars.drop_last()), vars.last());
        lemma_multiset_commutative(variables_all(front), variables(asts.last()));
    }
}

/// Only variables of the expression are used.
proof fn lemma_used_variables(ast: AstView)
    ensures
        forall|k: int|
            0 <= k < canon(ast).uses.len() ==> variables(ast).contains(
                (#[trigger] canon(ast).uses[k]).var,
            ),
{
    let vars = used_vars(canon(ast).uses);
    law_all_uses_known(ast);
    assert forall|k: int| 0 <= k < canon(ast).uses.len() implies variables(ast).contains(
        (#[trigger] canon(ast).uses[k]).var,
    ) by {
        assert(vars.contains(vars[k]));
        lemma_times_contains(vars, vars[k]);
        lemma_times_contains(variables(ast), vars[k]);
    }
}

/// Where no variable is used twice, numbering keeps the hash.
pub proof fn law_numbering_keeps_hash(ast: AstView, n: nat)
    requires
        variables(ast).no_duplicates(),
        forall|k: int|
            0 <= k < variables(ast).len() ==> (#[trigger] variables(ast)[k]).0.has_name(),
    ensures
        canon(named(ast, n)).hash == canon(ast).hash,
{
    let vars = variables(ast);
    let place = |var: VarKey| choose|k: int| 0 <= k < vars.len() && vars[k] == var;
    let names = |var: VarKey| called(var, (n + place(var)) as nat);
    assert forall|k: int| 0 <= k < vars.len() implies names(#[trigger] vars[k]) == numbered(
        vars,
        n,
    )[k] by {
        let m = place(vars[k]);
        assert(0 <= m < vars.len() && vars[m] == vars[k]);
        assert(m == k);
    }
    lemma_named_matches(ast, n, names);
    lemma_used_variables(ast);
    let uses = canon(ast).uses;
    assert forall|i: int, j: int|
        0 <= i < uses.len() && 0 <= j < uses.len() && names((#[trigger] uses[i]).var) == names(
            (#[trigger] uses[j]).var,
        ) implies uses[i].var == uses[j].var by {
        let p = place(uses[i].var);
        let q = place(uses[j].var);
        assert(vars.contains(uses[i].var) && vars.contains(uses[j].var));
        assert(vars[p] == uses[i].var && vars[q] == uses[j].var);
        if p != q {
            law_var_names_differ((n + p) as nat, (n + q) as nat);
        }
    }
    law_matching_hash(ast, named(ast, n), names);
}

/// Rewriting keeps the variables, each as often as it is used.
pub proof fn law_rewriting_keeps_variables(ast: AstView)
    ensures
        variables(rewritten(ast)).to_multiset() == variables(ast).to_multiset(),
{
    let (a, b) = (canon(ast).uses, canon(rewritten(ast)).uses);
    let var = |u: Use| u.var;
    law_rewriting_keeps_uses(ast);
    lemma_map_bag(a, b, var);
    assert(used_vars(a) =~= a.map_values(var));
    assert(used_vars(b) =~= b.map_values(var));
    law_all_uses_known(ast);
    law_all_uses_known(rewritten(ast));
}

/// Where no variable is used twice, rewriting and numbering together keep the hash.
pub proof fn law_canonical_form_keeps_hash(ast: AstView)
    requires
        variables(ast).no_duplicates(),
        forall|k: int|
            0 <= k < variables(ast).len() ==> (#[trigger] variables(ast)[k]).0.has_name(),
    ensures
        canon(canonicalized(ast, true)).hash == canon(ast).hash,
{
    let (a, b) = (variables(ast), variables(rewritten(ast)));
    law_rewriting_keeps_hash(ast);
    law_rewriting_keeps_variables(ast);
    a.lemma_multiset_has_no_duplicates();
    b.lemma_multiset_has_no_duplicates_conv();
    assert forall|k: int| 0 <= k < b.len() implies (#[trigger] b[k]).0.has_name() by {
        assert(b.contains(b[k]));
        lemma_times_contains(b, b[k]);
        lemma_times_contains(a, b[k]);
        let i = choose|i: int| 0 <= i < a.len() && a[i] == b[k];
        assert(a[i].0.has_name());
    }
    law_numbering_keeps_hash(rewritten(ast), 0);
}

} // verus!
