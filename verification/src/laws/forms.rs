//! What rewriting and naming make of a node, and what they leave alone.
use crate::ast::{AstView, OpView};
use crate::canonical::{canon, countable};
use crate::laws::order::{law_sorted_by_key, with_key};
use crate::laws::tables::{law_op_classes, law_renamed_node, law_swapped_node};
use crate::ops::law_op_classes_apart;
use crate::rewrite::{
    canonicalized, hashed, lemma_in_hash_order_bag, lemma_rewritten_all, named, named_all,
    rewritten_all, sortable, without_keys,
};
use crate::sort::sorted_by_key;
use crate::text::{decimal, digit, var_name};
use crate::uses::var_uses_all;
use vstd::prelude::*;

verus! {

/// The expressions that have a hash, in the order that they stand in.
pub open spec fn with_hash(asts: Seq<AstView>, hash: u64) -> Seq<AstView>
    decreases asts.len(),
{
    if asts.len() == 0 {
        Seq::empty()
    } else if canon(asts.last()).hash == hash {
        with_hash(asts.drop_last(), hash).push(asts.last())
    } else {
        with_hash(asts.drop_last(), hash)
    }
}

proof fn lemma_with_hash(items: Seq<(u64, AstView)>, hash: u64)
    requires
        forall|i: int| 0 <= i < items.len() ==> (#[trigger] items[i]).0 == canon(items[i].1).hash,
    ensures
        with_hash(without_keys(items), hash) == without_keys(with_key(items, hash)),
    decreases items.len(),
{
    if items.len() > 0 {
        let front = items.drop_last();
        assert forall|i: int| 0 <= i < front.len() implies (#[trigger] front[i]).0 == canon(
            front[i].1,
        ).hash by {
            assert(items[i].0 == canon(items[i].1).hash);
        }
        lemma_with_hash(front, hash);
        assert(without_keys(items).drop_last() =~= without_keys(front));
        assert(items[items.len() - 1].0 == canon(items[items.len() - 1].1).hash);
    }
    assert(with_hash(without_keys(items), hash) =~= without_keys(with_key(items, hash)));
}

/// The operands of `and`, `or`, `xor`, sums, products, equality and inequality are each
/// rewritten, and stand in ascending order of their hashes, those with the same hash in
/// the order that they came in. The node keeps all else that it has.
pub proof fn law_unordered_rewritten(ast: AstView)
    requires
        ast.op.opstring() == "__and__"@ || ast.op.opstring() == "__or__"@ || ast.op.opstring()
            == "__xor__"@ || ast.op.opstring() == "__add__"@ || ast.op.opstring() == "__mul__"@
            || ast.op.opstring() == "And"@ || ast.op.opstring() == "Or"@ || ast.op.opstring()
            == "Xor"@ || ast.op.opstring() == "__eq__"@ || ast.op.opstring() == "__ne__"@,
    ensures
        ({
            let new = canonicalized(ast, false);
            let operands = ast.children.map_values(|child: AstView| canonicalized(child, false));
            &&& new.op == ast.op
            &&& new.annotations == ast.annotations
            &&& new.origin == ast.origin
            &&& new.children.to_multiset() == operands.to_multiset()
            &&& forall|i: int, j: int|
                0 <= i < j < new.children.len() ==> canon(#[trigger] new.children[i]).hash
                    <= canon(#[trigger] new.children[j]).hash
            &&& forall|hash: u64| #[trigger]
                with_hash(new.children, hash) == with_hash(operands, hash)
        }),
{
    let new = canonicalized(ast, false);
    let operands = ast.children.map_values(|child: AstView| canonicalized(child, false));
    law_op_classes(ast.op.opstring());
    law_op_classes_apart(ast.op.opstring());
    lemma_rewritten_all(ast.children);
    let ks = rewritten_all(ast.children);
    assert(operands =~= ks);
    lemma_in_hash_order_bag(ks);
    let items = hashed(ks);
    let sorted = sorted_by_key(items);
    law_sorted_by_key(items);
    assert(new.children == without_keys(sorted));
    assert(without_keys(items) =~= ks);
    assert forall|i: int| 0 <= i < sorted.len() implies (#[trigger] sorted[i]).0 == canon(
        sorted[i].1,
    ).hash by {
        broadcast use vstd::seq_lib::group_to_multiset_ensures;

        assert(sorted.contains(sorted[i]));
        assert(items.to_multiset().count(sorted[i]) > 0);
        assert(items.contains(sorted[i]));
    }
    assert forall|i: int, j: int| 0 <= i < j < new.children.len() implies canon(
        #[trigger] new.children[i],
    ).hash <= canon(#[trigger] new.children[j]).hash by {
        assert(sorted[i].0 <= sorted[j].0);
    }
    assert forall|hash: u64| #[trigger] with_hash(new.children, hash) == with_hash(
        operands,
        hash,
    ) by {
        lemma_with_hash(sorted, hash);
        lemma_with_hash(items, hash);
        assert(with_key(sorted, hash) == with_key(items, hash));
    }
}

/// Every other node is left as written, with all that is below it, but for the four "less"
/// comparisons of bitvectors, whose operands are swapped and also left as written.
pub proof fn law_others_left_as_written(ast: AstView)
    requires
        !(ast.op.opstring() == "__and__"@ || ast.op.opstring() == "__or__"@ || ast.op.opstring()
            == "__xor__"@ || ast.op.opstring() == "__add__"@ || ast.op.opstring() == "__mul__"@
            || ast.op.opstring() == "And"@ || ast.op.opstring() == "Or"@ || ast.op.opstring()
            == "Xor"@ || ast.op.opstring() == "__eq__"@ || ast.op.opstring() == "__ne__"@),
    ensures
        ({
            let new = canonicalized(ast, false);
            let op = ast.op.opstring();
            if op == "ULT"@ || op == "ULE"@ || op == "SLT"@ || op == "SLE"@ {
                &&& op == "ULT"@ ==> new.op == OpView::Apply("UGT"@)
                &&& op == "ULE"@ ==> new.op == OpView::Apply("UGE"@)
                &&& op == "SLT"@ ==> new.op == OpView::Apply("SGT"@)
                &&& op == "SLE"@ ==> new.op == OpView::Apply("SGE"@)
                &&& new.children == ast.children.reverse()
                &&& new.origin == ast.origin
                &&& new.annotations == 0
            } else {
                new == ast
            }
        }),
{
    law_op_classes(ast.op.opstring());
    law_op_classes_apart(ast.op.opstring());
    law_swapped_node(ast);
    if let Some(node) = ast.swapped() {
        assert(node.children =~= ast.children.reverse());
    }
}

/// What has to be hashed to rewrite a node are the operands that are sorted, there and
/// below; nothing else does.
pub proof fn law_sortable_node(ast: AstView)
    ensures
        sortable(ast) <==> (ast.op.opstring() == "__and__"@ || ast.op.opstring() == "__or__"@
            || ast.op.opstring() == "__xor__"@ || ast.op.opstring() == "__add__"@
            || ast.op.opstring() == "__mul__"@ || ast.op.opstring() == "And"@
            || ast.op.opstring() == "Or"@ || ast.op.opstring() == "Xor"@ || ast.op.opstring()
            == "__eq__"@ || ast.op.opstring() == "__ne__"@ ==> forall|i: int|
            0 <= i < ast.children.len() ==> countable(#[trigger] ast.children[i]) && sortable(
                ast.children[i],
            )),
{
}

/// Rewriting with names is rewriting without, and then naming from 0 on.
pub proof fn law_named_after_rewriting(ast: AstView)
    ensures
        canonicalized(ast, true) == named(canonicalized(ast, false), 0),
{
}

/// An expression without the names and annotations of its variables, with all else that it
/// has.
pub open spec fn unnamed(ast: AstView) -> AstView
    decreases ast,
{
    if ast.op.has_name() {
        AstView {
            op: ast.op.renamed(Seq::empty()),
            annotations: 0,
            origin: ast.origin,
            children: Seq::empty(),
        }
    } else {
        AstView {
            op: ast.op,
            annotations: ast.annotations,
            origin: ast.origin,
            children: unnamed_all(ast.children),
        }
    }
}

/// Expressions without the names and annotations of their variables.
pub open spec fn unnamed_all(asts: Seq<AstView>) -> Seq<AstView>
    decreases asts,
{
    if asts.len() == 0 {
        Seq::empty()
    } else {
        unnamed_all(asts.drop_last()).push(unnamed(asts.last()))
    }
}

/// Naming changes the names of variables and drops their annotations, and changes nothing
/// else: no type, no operator, no operand and no annotation of a node.
pub proof fn law_naming_keeps_the_rest(ast: AstView, n: nat)
    ensures
        unnamed(named(ast, n)) == unnamed(ast),
    decreases ast,
{
    law_op_classes(ast.op.opstring());
    law_op_classes_apart(ast.op.opstring());
    law_renamed_node(ast, var_name(n));
    if !ast.is_leaf() {
        lemma_naming_all_keeps_the_rest(ast.children, n);
    }
}

proof fn lemma_naming_all_keeps_the_rest(asts: Seq<AstView>, n: nat)
    ensures
        unnamed_all(named_all(asts, n)) == unnamed_all(asts),
    decreases asts,
{
    if asts.len() > 0 {
        let front = asts.drop_last();
        lemma_naming_all_keeps_the_rest(front, n);
        law_naming_keeps_the_rest(asts.last(), n + var_uses_all(front));
        assert(named_all(asts, n).drop_last() =~= named_all(front, n));
    }
}

/// The number that a text spells in decimal.
pub open spec fn read_decimal(text: Seq<char>) -> int
    decreases text.len(),
{
    if text.len() == 0 {
        0
    } else {
        10 * read_decimal(text.drop_last()) + (text.last() as int - '0' as int)
    }
}

/// A number in decimal reads back as the number, is made of digits alone, and has no zero
/// in front.
pub proof fn law_decimal_read_back(n: nat)
    ensures
        read_decimal(decimal(n)) == n,
        decimal(n).len() > 0,
        forall|i: int| 0 <= i < decimal(n).len() ==> '0' <= #[trigger] decimal(n)[i] <= '9',
        n > 0 ==> decimal(n)[0] != '0',
    decreases n,
{
    reveal_with_fuel(read_decimal, 2);
    let text = decimal(n);
    lemma_digit(n % 10);
    if n < 10 {
        assert(text.drop_last() =~= Seq::empty());
    } else {
        law_decimal_read_back(n / 10);
        assert(text.drop_last() =~= decimal(n / 10));
        assert forall|i: int| 0 <= i < text.len() implies '0' <= #[trigger] text[i] <= '9' by {
            if i < text.len() - 1 {
                assert(text[i] == decimal(n / 10)[i]);
            }
        }
        assert(text[0] == decimal(n / 10)[0]);
    }
}

proof fn lemma_digit(d: nat)
    requires
        d < 10,
    ensures
        digit(d) as int - '0' as int == d,
        '0' <= digit(d) <= '9',
        d > 0 ==> digit(d) != '0',
{
}

/// The name that a numbered variable gets is `var_` and its number in decimal.
pub proof fn law_var_name(n: nat)
    ensures
        var_name(n).take(4) == "var_"@,
        read_decimal(var_name(n).skip(4)) == n,
        n > 0 ==> var_name(n)[4] != '0',
        n == 0 ==> var_name(n).len() == 5,
{
    reveal_strlit("var_");
    law_decimal_read_back(n);
    assert("var_"@.len() == 4);
    assert(var_name(n).take(4) =~= "var_"@);
    assert(var_name(n).skip(4) =~= decimal(n));
    assert(n > 0 ==> var_name(n)[4] == decimal(n)[0]);
}

} // verus!
