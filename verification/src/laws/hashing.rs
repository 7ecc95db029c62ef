//! What of a node does and does not reach its hash.
use crate::ast::{AstView, OpView};
use crate::bags::{lemma_times_contains, times};
use crate::canonical::{
    argument_hashes, arguments, canon, canons, countable, lemma_canon_uses, numbers_after,
    numbers_before,
};
use crate::laws::spelling::{hash_input, hashes_below, law_node_read_back};
use crate::paths::Use;
use crate::sort::{hash_order, lemma_hash_order_total, lemma_sort_unique};
use crate::uses::var_uses;
use vstd::prelude::*;
use vstd::seq_lib::lemma_multiset_commutative;

verus! {

/// The hashes of a node's operands and numbers, as they are written.
pub open spec fn written_hashes(ast: AstView) -> Seq<u64> {
    argument_hashes(arguments(ast.op, canons(ast.children)))
}

pub proof fn lemma_hashes_below(ast: AstView)
    ensures
        hashes_below(ast) == written_hashes(ast).sort_by(hash_order()),
{
    let args = arguments(ast.op, canons(ast.children));
    lemma_hash_order_total();
    assert(argument_hashes(args.reverse()) =~= written_hashes(ast).reverse());
    written_hashes(ast).lemma_reverse_to_multiset();
    lemma_sort_unique(written_hashes(ast).reverse(), written_hashes(ast), hash_order());
}

/// The operator reaches the hash only through paths down to variables: over the same
/// arguments, and without variables, any two operators hash the same. So `1 + 2` and
/// `1 * 2` do.
pub proof fn law_operator_hidden(a: AstView, b: AstView)
    requires
        !a.is_leaf(),
        !b.is_leaf(),
        var_uses(a) == 0,
        var_uses(b) == 0,
        written_hashes(a).to_multiset() == written_hashes(b).to_multiset(),
    ensures
        canon(a).hash == canon(b).hash,
{
    lemma_canon_uses(a);
    lemma_canon_uses(b);
    assert(canon(a).uses =~= canon(b).uses);
    lemma_hashes_below(a);
    lemma_hashes_below(b);
    lemma_hash_order_total();
    lemma_sort_unique(written_hashes(a), written_hashes(b), hash_order());
}

/// An expression that uses variables no more often than can be counted can be hashed.
pub proof fn law_few_uses_countable(ast: AstView)
    requires
        var_uses(ast) <= u64::MAX,
    ensures
        countable(ast),
{
    lemma_canon_uses(ast);
    assert forall|u: Use| #[trigger] times(canon(ast).uses, u) <= u64::MAX by {
        lemma_times_contains(canon(ast).uses, u);
    }
}

/// What an operator has besides its op string, its numbers and its operands does not
/// show.
pub proof fn law_other_fields_hidden(a: AstView, b: AstView)
    requires
        !a.is_leaf(),
        a.op.opstring() == b.op.opstring(),
        numbers_before(a.op) == numbers_before(b.op),
        numbers_after(a.op) == numbers_after(b.op),
        a.children == b.children,
    ensures
        canon(a) == canon(b),
{
}

/// The numbers of a node that are hashed.
pub open spec fn numbers_of(op: OpView) -> Seq<u64> {
    numbers_before(op) + numbers_after(op)
}

pub proof fn lemma_written_hashes(ast: AstView)
    ensures
        written_hashes(ast).to_multiset() =~= numbers_of(ast.op).to_multiset().add(
            argument_hashes(canons(ast.children)).to_multiset(),
        ),
{
    let operands = canons(ast.children);
    let (before, after) = (numbers_before(ast.op), numbers_after(ast.op));
    let hashes = argument_hashes(operands);
    assert(written_hashes(ast) =~= before + hashes + after);
    lemma_multiset_commutative(before, hashes);
    lemma_multiset_commutative(before + hashes, after);
    lemma_multiset_commutative(before, after);
}

/// The numbers of a node are part of what is hashed, which is what tells
/// `Extract(7, 0, x)` apart from `Extract(15, 8, x)`.
pub proof fn law_numbers_tell_apart(a: AstView, b: AstView)
    requires
        !a.is_leaf(),
        !b.is_leaf(),
        a.children == b.children,
        hash_input(a) == hash_input(b),
    ensures
        numbers_of(a.op).to_multiset() == numbers_of(b.op).to_multiset(),
{
    law_node_read_back(a, b);
    lemma_hashes_below(a);
    lemma_hashes_below(b);
    lemma_hash_order_total();
    written_hashes(a).lemma_sort_by_ensures(hash_order());
    written_hashes(b).lemma_sort_by_ensures(hash_order());
    lemma_written_hashes(a);
    lemma_written_hashes(b);
    let rest = argument_hashes(canons(a.children)).to_multiset();
    let (x, y) = (numbers_of(a.op).to_multiset(), numbers_of(b.op).to_multiset());
    assert(x.add(rest) == y.add(rest));
    assert forall|h: u64| x.count(h) == y.count(h) by {
        assert(x.add(rest).count(h) == x.count(h) + rest.count(h));
        assert(y.add(rest).count(h) == y.count(h) + rest.count(h));
    }
    assert(x =~= y);
}

} // verus!
