//! The canonical hash: the shape of an expression, ignoring variable names, the
//! order of operands where order does not matter, and whether a comparison was
//! written `a < b` or `b > a`.
//!
//! The operator of a node reaches its hash only through the paths down to
//! variables, so that `1 + 2` and `1 * 2` hash the same.
use crate::ast::{AstOp, AstRef, AstView, OpView};
use crate::bags::{
    distinct, joined, lemma_distinct_add, lemma_distinct_same, lemma_joined_times,
    lemma_times_add, lemma_times_empty, lemma_times_push, times,
};
use crate::ops::{
    greater_op, is_commutative, is_symbol_creation, is_value_creation, law_op_classes_apart,
    reversed_op, symbol_op, unordered_op,
};
use crate::paths::{
    Use, VarKey, VarPaths, add_paths, behind, count_use, leaf_path, lemma_behind, lemma_paths_fit,
    nameless, nameless_paths, paths_of, step_spelling, tallied, used_vars, uses_fit, var_key,
    var_keys,
};
use crate::sort::{sort_hashes, sorted_hashes, spellings};
use crate::uses::{var_uses, var_uses_all};
use crate::words::{
    debug_hash, hash_debug, hash_number, hash_of, items_spelling, list_spelling, numbers_spelling,
    spell_index, spell_numbers, spell_text, spell_words, text_spelling, word_hash,
};
use std::collections::HashMap;
use std::sync::Arc;
use vstd::prelude::*;

verus! {

/// What is known of an expression: its hash, and every use of a variable.
pub struct CanonView {
    pub hash: u64,
    pub uses: Seq<Use>,
}

/// A leaf: its op string, and for a variable only its type, for a constant its
/// value.
pub open spec fn leaf_spelling(op: OpView) -> Seq<u64> {
    text_spelling(op.opstring()) + match op {
        OpView::BVS(_, size) => seq![size as u64],
        OpView::FPS(_, sort) => seq![debug_hash(sort)],
        OpView::BVV(bytes, size) => byte_list_spelling(bytes).push(size as u64),
        OpView::BoolV(value) => seq![if value { 1u64 } else { 0u64 }],
        OpView::FPV(value) => seq![debug_hash(value)],
        OpView::StringV(value) => text_spelling(value),
        _ => Seq::empty(),
    }
}

/// A list of bytes.
pub open spec fn byte_list_spelling(bytes: Seq<u8>) -> Seq<u64> {
    numbers_spelling(Seq::new(bytes.len(), |i: int| bytes[i] as u64))
}

/// The numbers of a node that come before its operands, as hashes.
pub open spec fn numbers_before(op: OpView) -> Seq<u64> {
    match op {
        OpView::ZeroExt(amount) => seq![word_hash(seq![amount as u64])],
        OpView::SignExt(amount) => seq![word_hash(seq![amount as u64])],
        OpView::Extract(end, start) => seq![
            word_hash(seq![end as u64]),
            word_hash(seq![start as u64]),
        ],
        _ => Seq::empty(),
    }
}

/// The numbers of a node that come after its operands, as hashes.
pub open spec fn numbers_after(op: OpView) -> Seq<u64> {
    match op {
        OpView::FpAdd(rm) => seq![debug_hash(rm)],
        OpView::FpSub(rm) => seq![debug_hash(rm)],
        OpView::FpMul(rm) => seq![debug_hash(rm)],
        OpView::FpDiv(rm) => seq![debug_hash(rm)],
        OpView::FpSqrt(rm) => seq![debug_hash(rm)],
        _ => Seq::empty(),
    }
}

/// Numbers as arguments, which use no variable.
pub open spec fn as_arguments(numbers: Seq<u64>) -> Seq<CanonView> {
    Seq::new(numbers.len(), |i: int| CanonView { hash: numbers[i], uses: Seq::empty() })
}

/// The arguments of a node: its operands, with its numbers where they belong.
pub open spec fn arguments(op: OpView, operands: Seq<CanonView>) -> Seq<CanonView> {
    as_arguments(numbers_before(op)) + operands + as_arguments(numbers_after(op))
}

/// The op string that a node is hashed under: `a < b` counts as `b > a`.
pub open spec fn effective_op(op: Seq<char>) -> Seq<char> {
    match greater_op(op) {
        Some(name) => name,
        None => op,
    }
}

/// The arguments of a node in the order that belongs to [`effective_op`].
pub open spec fn effective_arguments(op: OpView, operands: Seq<CanonView>) -> Seq<CanonView> {
    if greater_op(op.opstring()) is Some {
        arguments(op, operands).reverse()
    } else {
        arguments(op, operands)
    }
}

/// The position that a step to an argument keeps.
pub open spec fn step_index(op: Seq<char>, index: int) -> Option<usize> {
    if unordered_op(op) {
        None
    } else {
        Some(index as usize)
    }
}

/// Uses seen from a node one step further up.
pub open spec fn uses_through(uses: Seq<Use>, step: Seq<u64>) -> Seq<Use> {
    Seq::new(uses.len(), |i: int| Use { var: uses[i].var, path: step + uses[i].path })
}

/// The uses that a node with some arguments makes through each of them.
pub open spec fn argument_uses(op: Seq<char>, args: Seq<CanonView>) -> Seq<Seq<Use>> {
    Seq::new(
        args.len(),
        |i: int| uses_through(args[i].uses, step_spelling(op, step_index(op, i))),
    )
}

/// The hashes of some arguments.
pub open spec fn argument_hashes(args: Seq<CanonView>) -> Seq<u64> {
    Seq::new(args.len(), |i: int| args[i].hash)
}

/// What is hashed of a node: the sorted hashes of its arguments, and the counted
/// paths to its variables.
pub open spec fn node_spelling(hashes: Seq<u64>, counters: Seq<Seq<u64>>) -> Seq<u64> {
    numbers_spelling(hashes) + list_spelling(counters)
}

/// What is known of a node, given what is known of its arguments in their
/// effective order.
pub open spec fn node_canon(op: Seq<char>, args: Seq<CanonView>) -> CanonView {
    let uses = joined(argument_uses(op, args));
    CanonView {
        hash: word_hash(node_spelling(sorted_hashes(argument_hashes(args)), nameless(uses))),
        uses,
    }
}

/// What is known of a node that is no leaf, given what is known of its operands.
pub open spec fn combined(op: OpView, operands: Seq<CanonView>) -> CanonView {
    node_canon(effective_op(op.opstring()), effective_arguments(op, operands))
}

/// What is known of a leaf.
pub open spec fn leaf_canon(leaf: AstView) -> CanonView {
    CanonView {
        hash: word_hash(leaf_spelling(leaf.op)),
        uses: if symbol_op(leaf.op.opstring()) {
            seq![Use { var: var_key(leaf), path: leaf_path(leaf.op.opstring()) }]
        } else {
            Seq::empty()
        },
    }
}

/// What is known of an expression.
pub open spec fn canon(ast: AstView) -> CanonView
    decreases ast,
{
    if ast.is_leaf() {
        leaf_canon(ast)
    } else {
        combined(ast.op, canons(ast.children))
    }
}

/// What is known of some expressions, one by one.
pub open spec fn canons(asts: Seq<AstView>) -> Seq<CanonView>
    decreases asts,
{
    if asts.len() == 0 {
        Seq::empty()
    } else {
        canons(asts.drop_last()).push(canon(asts.last()))
    }
}

pub proof fn lemma_canons(asts: Seq<AstView>)
    ensures
        canons(asts) == Seq::new(asts.len(), |i: int| canon(asts[i])),
    decreases asts.len(),
{
    if asts.len() > 0 {
        lemma_canons(asts.drop_last());
    }
    assert(canons(asts) =~= Seq::new(asts.len(), |i: int| canon(asts[i])));
}

/// Whether no path to any variable of an expression is taken more often than can be
/// counted.
pub open spec fn countable(ast: AstView) -> bool {
    uses_fit(canon(ast).uses)
}

/// An expression's hash, and the paths to its variables.
pub struct Canon {
    pub hash: u64,
    /// Each variable with its paths, in the order first seen.
    pub paths: Vec<VarPaths>,
}

impl Canon {
    /// Whether this is what is known of an expression.
    pub open spec fn stands_for(&self, canon: CanonView) -> bool {
        self.hash == canon.hash && paths_of(self.paths@, canon.uses)
    }
}

/// The numbers of a node as hashes: those before its operands, and those after.
///
/// The order matters: positions become part of the paths, and the numbers become
/// part of the hash, which is what tells `Extract(7, 0, x)` apart from
/// `Extract(15, 8, x)`.
pub fn canon_args(ast: &AstRef) -> (numbers: (Vec<u64>, Vec<u64>))
    ensures
        numbers.0@ == numbers_before(ast@.op),
        numbers.1@ == numbers_after(ast@.op),
{
    let mut before: Vec<u64> = Vec::new();
    let mut after: Vec<u64> = Vec::new();
    match &ast.op {
        AstOp::ZeroExt(amount) | AstOp::SignExt(amount) => {
            before.push(hash_number(*amount as u64));
        },
        AstOp::Extract(end, start) => {
            before.push(hash_number(*end as u64));
            before.push(hash_number(*start as u64));
        },
        AstOp::FpAdd(rm) | AstOp::FpSub(rm) | AstOp::FpMul(rm) | AstOp::FpDiv(rm)
        | AstOp::FpSqrt(rm) => {
            after.push(hash_debug(rm.as_str()));
        },
        _ => {},
    }
    assert(before@ =~= numbers_before(ast@.op));
    assert(after@ =~= numbers_after(ast@.op));
    (before, after)
}

/// Hash of a leaf: for a variable only its type, for a constant its value.
pub fn leaf_hash(ast: &AstRef) -> (hash: u64)
    ensures
        hash == word_hash(leaf_spelling(ast@.op)),
{
    let op = ast.to_opstring();
    let mut words: Vec<u64> = Vec::new();
    spell_text(&mut words, op.as_str());
    match &ast.op {
        AstOp::BVS(_, size) => words.push(*size as u64),
        AstOp::FPS(_, sort) => words.push(hash_debug(sort.as_str())),
        AstOp::BVV(bytes, size) => {
            let mut numbers: Vec<u64> = Vec::new();
            let mut i: usize = 0;
            while i < bytes.len()
                invariant
                    i <= bytes@.len(),
                    numbers@.len() == i,
                    forall|j: int| 0 <= j < i ==> #[trigger] numbers@[j] == bytes@[j] as u64,
                decreases bytes@.len() - i,
            {
                numbers.push(bytes[i] as u64);
                i = i + 1;
            }
            assert(numbers@ =~= Seq::new(bytes@.len(), |i: int| bytes@[i] as u64));
            spell_numbers(&mut words, &numbers);
            words.push(*size as u64);
        },
        AstOp::BoolV(value) => words.push(
            if *value {
                1
            } else {
                0
            },
        ),
        AstOp::FPV(value) => words.push(hash_debug(value.as_str())),
        AstOp::StringV(value) => spell_text(&mut words, value.as_str()),
        _ => {},
    }
    assert(words@ =~= leaf_spelling(ast@.op));
    hash_of(&words)
}

/// Whether these are what is known of some expressions, one by one.
pub open spec fn all_stand_for(canons: Seq<Arc<Canon>>, views: Seq<CanonView>) -> bool {
    &&& canons.len() == views.len()
    &&& forall|i: int| 0 <= i < canons.len() ==> (#[trigger] canons[i]).stands_for(views[i])
}

/// What is known of a number.
fn number_canon(hash: u64) -> (canon: Arc<Canon>)
    ensures
        canon.stands_for(CanonView { hash, uses: Seq::empty() }),
{
    let canon = Canon { hash, paths: Vec::new() };
    proof {
        assert forall|var: VarKey, path: Seq<u64>| #[trigger]
            tallied(canon.paths@, var, path) == times(Seq::<Use>::empty(), Use { var, path }) by {
            lemma_times_empty(Seq::<Use>::empty(), Use { var, path });
        }
        assert(var_keys(canon.paths@) =~= distinct(used_vars(Seq::<Use>::empty())));
    }
    Arc::new(canon)
}

/// Adds arguments that are numbers.
fn push_numbers(args: &mut Vec<Arc<Canon>>, numbers: &Vec<u64>, views: Ghost<Seq<CanonView>>)
    requires
        all_stand_for(old(args)@, views@),
    ensures
        all_stand_for(final(args)@, views@ + as_arguments(numbers@)),
{
    let mut i: usize = 0;
    assert(views@ + as_arguments(numbers@).take(0) =~= views@);
    while i < numbers.len()
        invariant
            i <= numbers@.len(),
            all_stand_for(args@, views@ + as_arguments(numbers@).take(i as int)),
        decreases numbers@.len() - i,
    {
        let ghost before = args@;
        let ghost seen = views@ + as_arguments(numbers@).take(i as int);
        let ghost more = views@ + as_arguments(numbers@).take(i + 1);
        args.push(number_canon(numbers[i]));
        proof {
            assert(more =~= seen.push(as_arguments(numbers@)[i as int]));
            assert forall|k: int| 0 <= k < args@.len() implies (#[trigger] args@[k]).stands_for(
                more[k],
            ) by {
                if k < before.len() {
                    assert(before[k].stands_for(seen[k]));
                }
            }
        }
        i = i + 1;
    }
    assert(as_arguments(numbers@).take(numbers@.len() as int) =~= as_arguments(numbers@));
}

/// The arguments of a node: matches each operand to what is known of it.
fn node_arguments(
    node: &AstRef,
    child_canon: Vec<Arc<Canon>>,
    operands: Ghost<Seq<CanonView>>,
) -> (args: Vec<Arc<Canon>>)
    requires
        all_stand_for(child_canon@, operands@),
    ensures
        all_stand_for(args@, arguments(node@.op, operands@)),
{
    let (before, after) = canon_args(node);
    let mut args: Vec<Arc<Canon>> = Vec::new();
    let ghost none = Seq::<CanonView>::empty();
    push_numbers(&mut args, &before, Ghost(none));
    let ghost first = none + as_arguments(before@);
    let ghost numbers = args@;
    let ghost children = child_canon@;
    let mut child_canon = child_canon;
    args.append(&mut child_canon);
    proof {
        assert(none + as_arguments(before@) =~= as_arguments(before@));
        assert(args@ =~= numbers + children);
        assert forall|k: int| 0 <= k < args@.len() implies (#[trigger] args@[k]).stands_for(
            (first + operands@)[k],
        ) by {
            if k < numbers.len() {
                assert(numbers[k].stands_for(first[k]));
            } else {
                assert(children[k - numbers.len()].stands_for(operands@[k - numbers.len()]));
            }
        }
    }
    push_numbers(&mut args, &after, Ghost(first + operands@));
    args
}

/// Turns arguments round.
fn backwards(args: Vec<Arc<Canon>>, views: Ghost<Seq<CanonView>>) -> (turned: Vec<Arc<Canon>>)
    requires
        all_stand_for(args@, views@),
    ensures
        all_stand_for(turned@, views@.reverse()),
{
    let ghost all = args@;
    let mut rest = args;
    let mut turned: Vec<Arc<Canon>> = Vec::new();
    while rest.len() > 0
        invariant
            all_stand_for(all, views@),
            rest@ == all.take(rest@.len() as int),
            rest@.len() <= all.len(),
            turned@.len() == all.len() - rest@.len(),
            forall|i: int|
                0 <= i < turned@.len() ==> (#[trigger] turned@[i]).stands_for(views@.reverse()[i]),
        decreases rest@.len(),
    {
        let ghost n = rest@.len();
        match rest.pop() {
            Some(arg) => {
                assert(arg == all[n - 1]);
                assert(all[n - 1].stands_for(views@[n - 1]));
                turned.push(arg);
            },
            None => {},
        }
        assert(rest@ =~= all.take(n - 1));
    }
    turned
}

proof fn lemma_uses_through(uses: Seq<Use>, step: Seq<u64>, var: VarKey, path: Seq<u64>)
    ensures
        times(uses_through(uses, step), Use { var, path }) == behind(
            step,
            path,
            |rest: Seq<u64>| times(uses, Use { var, path: rest }),
        ),
    decreases uses.len(),
{
    let through = uses_through(uses, step);
    let rest = path.skip(step.len() as int);
    if uses.len() == 0 {
        lemma_times_empty(through, Use { var, path });
        lemma_times_empty(uses, Use { var, path: rest });
    } else {
        let front = uses.drop_last();
        lemma_uses_through(front, step, var, path);
        assert(uses =~= front.push(uses.last()));
        assert(through =~= uses_through(front, step).push(
            Use { var: uses.last().var, path: step + uses.last().path },
        ));
        lemma_times_push(
            uses_through(front, step),
            Use { var: uses.last().var, path: step + uses.last().path },
            Use { var, path },
        );
        lemma_times_push(front, uses.last(), Use { var, path: rest });
        lemma_behind(step, uses.last().path, path);
    }
}

proof fn lemma_joined_take<A>(parts: Seq<Seq<A>>, n: int, x: A)
    requires
        0 <= n <= parts.len(),
    ensures
        times(joined(parts.take(n)), x) <= times(joined(parts), x),
    decreases parts.len(),
{
    if n < parts.len() {
        lemma_times_add(joined(parts.drop_last()), parts.last(), x);
        assert(parts.take(n) =~= parts.drop_last().take(n));
        lemma_joined_take(parts.drop_last(), n, x);
    } else {
        assert(parts.take(n) =~= parts);
    }
}

/// Adds a node's step to every argument's paths, merging them into one list, where
/// every count stays below the limit.
fn merged_paths(
    op: &str,
    args: &Vec<Arc<Canon>>,
    views: Ghost<Seq<CanonView>>,
) -> (merged: Option<Vec<VarPaths>>)
    requires
        all_stand_for(args@, views@),
    ensures
        merged is Some <==> uses_fit(joined(argument_uses(op@, views@))),
        merged matches Some(paths) ==> paths_of(paths@, joined(argument_uses(op@, views@))),
{
    let ghost parts = argument_uses(op@, views@);
    let commutative = is_commutative(op);
    let mut paths: Vec<VarPaths> = Vec::new();
    let mut index: usize = 0;
    proof {
        assert forall|var: VarKey, path: Seq<u64>| #[trigger]
            tallied(paths@, var, path) == times(joined(parts.take(0)), Use { var, path }) by {
            lemma_times_empty(joined(parts.take(0)), Use { var, path });
        }
        assert(var_keys(paths@) =~= distinct(used_vars(joined(parts.take(0)))));
    }
    while index < args.len()
        invariant
            index <= args@.len(),
            commutative == unordered_op(op@),
            parts == argument_uses(op@, views@),
            all_stand_for(args@, views@),
            paths_of(paths@, joined(parts.take(index as int))),
        decreases args@.len() - index,
    {
        let mut step: Vec<u64> = Vec::new();
        step.push(1);
        spell_text(&mut step, op);
        spell_index(
            &mut step,
            if commutative {
                None
            } else {
                Some(index)
            },
        );
        let ghost done = joined(parts.take(index as int));
        let ghost part = parts[index as int];
        let ghost uses = views@[index as int].uses;
        let ghost before = paths@;
        proof {
            assert(step@ =~= step_spelling(op@, step_index(op@, index as int)));
            assert(args@[index as int].stands_for(views@[index as int]));
            assert(parts.take(index + 1).drop_last() =~= parts.take(index as int));
            assert(joined(parts.take(index + 1)) == done + part);
        }
        if !add_paths(&mut paths, &args[index].paths, &step) {
            proof {
                let (v, rest) = choose|v: VarKey, rest: Seq<u64>| #[trigger]
                    tallied(before, v, step@ + rest) + tallied(
                        args@[index as int].paths@,
                        v,
                        rest,
                    ) > u64::MAX;
                let used = Use { var: v, path: step@ + rest };
                assert(tallied(before, v, step@ + rest) == times(done, used));
                assert(tallied(args@[index as int].paths@, v, rest) == times(
                    uses,
                    Use { var: v, path: rest },
                ));
                lemma_uses_through(uses, step@, v, step@ + rest);
                lemma_behind(step@, rest, step@ + rest);
                lemma_times_add(done, part, used);
                lemma_joined_take(parts, index + 1, used);
                assert(times(joined(parts), used) > u64::MAX);
            }
            return None;
        }
        proof {
            lemma_distinct_add(used_vars(done), used_vars(uses));
            assert(used_vars(joined(parts.take(index + 1))) =~= used_vars(done) + used_vars(uses));
            assert forall|v: VarKey, p: Seq<u64>| #[trigger]
                tallied(paths@, v, p) == times(
                    joined(parts.take(index + 1)),
                    Use { var: v, path: p },
                ) by {
                let used = Use { var: v, path: p };
                let rest = p.skip(step@.len() as int);
                assert(tallied(before, v, p) == times(done, used));
                assert(tallied(args@[index as int].paths@, v, rest) == times(
                    uses,
                    Use { var: v, path: rest },
                ));
                lemma_uses_through(uses, step@, v, p);
                lemma_times_add(done, part, used);
            }
        }
        index = index + 1;
    }
    assert(parts.take(args@.len() as int) =~= parts);
    proof {
        lemma_paths_fit(paths@, joined(parts));
    }
    Some(paths)
}

/// One node's result, given its operands', where every count stays below the limit.
fn canon_node(
    node: &AstRef,
    child_canon: Vec<Arc<Canon>>,
    operands: Ghost<Seq<CanonView>>,
) -> (result: Option<Canon>)
    requires
        !node@.is_leaf(),
        all_stand_for(child_canon@, operands@),
    ensures
        result is Some <==> uses_fit(combined(node@.op, operands@).uses),
        result matches Some(canon) ==> canon.stands_for(combined(node@.op, operands@)),
{
    let op = node.to_opstring();
    let ghost straight = arguments(node@.op, operands@);
    let ghost views = effective_arguments(node@.op, operands@);
    let mut args = node_arguments(node, child_canon, operands);

    // Hash `a < b` as though it were `b > a`, so both give the same hash.
    let mut effective = op.clone();
    if let Some(greater) = reversed_op(op.as_str()) {
        effective = greater.to_owned();
        args = backwards(args, Ghost(straight));
    }
    assert(effective@ == effective_op(op@));
    assert(all_stand_for(args@, views));
    let paths = match merged_paths(effective.as_str(), &args, Ghost(views)) {
        Some(paths) => paths,
        None => return None,
    };
    let ghost uses = joined(argument_uses(effective@, views));

    // Sort the operands by content, so an unordered op written either way round
    // hashes the same.
    let mut hashes: Vec<u64> = Vec::new();
    let mut i: usize = 0;
    while i < args.len()
        invariant
            i <= args@.len(),
            all_stand_for(args@, views),
            hashes@.len() == i,
            forall|k: int| 0 <= k < i ==> #[trigger] hashes@[k] == views[k].hash,
        decreases args@.len() - i,
    {
        assert(args@[i as int].stands_for(views[i as int]));
        hashes.push(args[i].hash);
        i = i + 1;
    }
    assert(hashes@ =~= argument_hashes(views));
    let sorted = sort_hashes(&hashes);

    // The paths without the variable they belong to. This is what makes the hash
    // ignore variable names while still counting how often and where each
    // variable is used.
    let counters = nameless_paths(&paths, Ghost(uses));
    let mut words: Vec<u64> = Vec::new();
    spell_numbers(&mut words, &sorted);
    let ghost first = words@;
    let ghost items = spellings(counters@);
    let mut k: usize = 0;
    assert(words@ =~= first + items_spelling(items.take(0)));
    while k < counters.len()
        invariant
            k <= counters@.len(),
            items == spellings(counters@),
            words@ == first + items_spelling(items.take(k as int)),
        decreases counters@.len() - k,
    {
        words.push(1);
        spell_words(&mut words, &counters[k]);
        k = k + 1;
        assert(items.take(k as int).drop_last() =~= items.take(k - 1));
        assert(words@ =~= first + items_spelling(items.take(k as int)));
    }
    assert(items.take(counters@.len() as int) =~= items);
    words.push(0);
    assert(words@ =~= node_spelling(sorted_hashes(argument_hashes(views)), nameless(uses)));
    Some(Canon { hash: hash_of(&words), paths })
}

/// What is known of a leaf.
fn canon_leaf(leaf: &AstRef) -> (canon: Canon)
    requires
        leaf@.is_leaf(),
    ensures
        canon.stands_for(leaf_canon(leaf@)),
{
    let op = leaf.to_opstring();
    let hash = leaf_hash(leaf);
    let mut paths: Vec<VarPaths> = Vec::new();
    let ghost uses = leaf_canon(leaf@).uses;
    if is_symbol_creation(op.as_str()) {
        let mut path: Vec<u64> = Vec::new();
        path.push(1);
        spell_text(&mut path, op.as_str());
        spell_index(&mut path, Some(0));
        path.push(0);
        assert(path@ =~= leaf_path(op@));
        let fits = count_use(&mut paths, leaf, path, 1);
        proof {
            assert(fits);
            let none = Seq::<Use>::empty();
            let only = Use { var: var_key(leaf@), path: path@ };
            assert(uses =~= none.push(only));
            assert forall|var: VarKey, path: Seq<u64>| #[trigger]
                tallied(paths@, var, path) == times(uses, Use { var, path }) by {
                lemma_times_empty(none, Use { var, path });
                lemma_times_push(none, only, Use { var, path });
            }
            assert(used_vars(uses).no_duplicates());
            lemma_distinct_same(used_vars(uses));
            assert(var_keys(paths@) =~= used_vars(uses));
        }
    } else {
        proof {
            assert forall|var: VarKey, path: Seq<u64>| #[trigger]
                tallied(paths@, var, path) == times(uses, Use { var, path }) by {
                lemma_times_empty(uses, Use { var, path });
            }
            assert(var_keys(paths@) =~= distinct(used_vars(uses)));
        }
    }
    Canon { hash, paths }
}

/// How many uses some arguments make together.
spec fn argument_total(args: Seq<CanonView>) -> nat
    decreases args.len(),
{
    if args.len() == 0 {
        0
    } else {
        argument_total(args.drop_last()) + args.last().uses.len()
    }
}

proof fn lemma_total_add(a: Seq<CanonView>, b: Seq<CanonView>)
    ensures
        argument_total(a + b) == argument_total(a) + argument_total(b),
    decreases b.len(),
{
    if b.len() == 0 {
        assert(a + b =~= a);
    } else {
        assert((a + b).drop_last() =~= a + b.drop_last());
        lemma_total_add(a, b.drop_last());
    }
}

proof fn lemma_total_numbers(numbers: Seq<u64>)
    ensures
        argument_total(as_arguments(numbers)) == 0,
    decreases numbers.len(),
{
    if numbers.len() > 0 {
        assert(as_arguments(numbers).drop_last() =~= as_arguments(numbers.drop_last()));
        lemma_total_numbers(numbers.drop_last());
    }
}

proof fn lemma_total_reverse(args: Seq<CanonView>)
    ensures
        argument_total(args.reverse()) == argument_total(args),
    decreases args.len(),
{
    if args.len() > 0 {
        let front = args.drop_last();
        lemma_total_reverse(front);
        assert(args.reverse() =~= seq![args.last()] + front.reverse());
        lemma_total_add(seq![args.last()], front.reverse());
        let only = seq![args.last()];
        assert(only.drop_last() =~= Seq::empty());
        assert(argument_total(only.drop_last()) == 0);
    }
}

proof fn lemma_joined_uses(op: Seq<char>, args: Seq<CanonView>)
    ensures
        joined(argument_uses(op, args)).len() == argument_total(args),
    decreases args.len(),
{
    if args.len() > 0 {
        assert(argument_uses(op, args).drop_last() =~= argument_uses(op, args.drop_last()));
        lemma_joined_uses(op, args.drop_last());
    }
}

/// Every use of a variable is known.
pub proof fn lemma_canon_uses(ast: AstView)
    ensures
        canon(ast).uses.len() == var_uses(ast),
    decreases ast,
{
    law_op_classes_apart(ast.op.opstring());
    if !ast.is_leaf() {
        let operands = canons(ast.children);
        let (before, after) = (
            as_arguments(numbers_before(ast.op)),
            as_arguments(numbers_after(ast.op)),
        );
        lemma_canons_uses(ast.children);
        lemma_total_add(before, operands);
        lemma_total_add(before + operands, after);
        lemma_total_numbers(numbers_before(ast.op));
        lemma_total_numbers(numbers_after(ast.op));
        lemma_total_reverse(arguments(ast.op, operands));
        lemma_joined_uses(
            effective_op(ast.op.opstring()),
            effective_arguments(ast.op, operands),
        );
    }
}

proof fn lemma_canons_uses(asts: Seq<AstView>)
    ensures
        argument_total(canons(asts)) == var_uses_all(asts),
    decreases asts,
{
    if asts.len() > 0 {
        lemma_canons_uses(asts.drop_last());
        lemma_canon_uses(asts.last());
        assert(canons(asts).drop_last() =~= canons(asts.drop_last()));
    }
}

/// What an operand uses too often to count, the node that has it does too.
pub proof fn lemma_countable_operand(ast: AstView, k: int)
    requires
        !ast.is_leaf(),
        countable(ast),
        0 <= k < ast.children.len(),
    ensures
        countable(ast.children[k]),
{
    lemma_canons(ast.children);
    let operands = canons(ast.children);
    let op = effective_op(ast.op.opstring());
    let args = effective_arguments(ast.op, operands);
    let straight = arguments(ast.op, operands);
    let parts = argument_uses(op, args);
    let n = numbers_before(ast.op).len() + k;
    let i = if greater_op(ast.op.opstring()) is Some {
        straight.len() - 1 - n
    } else {
        n
    };
    let child = canon(ast.children[k]);
    assert(straight[n] == child);
    assert(args[i] == child);
    let step = step_spelling(op, step_index(op, i));
    assert forall|u: Use| #[trigger] times(child.uses, u) <= u64::MAX by {
        let through = Use { var: u.var, path: step + u.path };
        lemma_uses_through(child.uses, step, u.var, step + u.path);
        lemma_behind(step, u.path, step + u.path);
        lemma_joined_times(parts, i, through);
        assert(times(canon(ast).uses, through) <= u64::MAX);
    }
}

/// Whether two expressions are one and the same in memory, by [`Arc::ptr_eq`]: if they
/// are, they are the same expression. Nothing is said of expressions that are not: the
/// same expression may be there twice.
#[verifier::external_body]
fn same_node(a: &AstRef, b: &AstRef) -> (same: bool)
    ensures
        same ==> a@ == b@,
{
    Arc::ptr_eq(a, b)
}

/// What is known of expressions that have been looked at, so that a shared one is looked
/// at only once. Keyed by the hash of the node that each was made from.
pub(crate) struct Cache {
    known: HashMap<u64, (AstRef, Arc<Canon>)>,
}

impl Cache {
    /// What is kept: for each key an expression, and what is known of it.
    pub(crate) closed spec fn kept(&self) -> Map<u64, (AstRef, Arc<Canon>)> {
        self.known@
    }

    /// What is kept of an expression is what is known of it.
    pub(crate) open spec fn wf(&self) -> bool {
        forall|key: u64| #[trigger]
            self.kept().dom().contains(key) ==> self.kept()[key].1.stands_for(
                canon(self.kept()[key].0@),
            )
    }

    /// A cache that holds nothing.
    pub(crate) fn new() -> (cache: Cache)
        ensures
            cache.kept() == Map::<u64, (AstRef, Arc<Canon>)>::empty(),
            cache.wf(),
    {
        Cache { known: HashMap::new() }
    }

    /// What is kept under a key.
    fn entry(&self, key: u64) -> (found: Option<&(AstRef, Arc<Canon>)>)
        ensures
            found is Some <==> self.kept().dom().contains(key),
            found matches Some(entry) ==> *entry == self.kept()[key],
    {
        broadcast use vstd::std_specs::hash::group_hash_axioms;

        self.known.get(&key)
    }

    /// What is known of a kept expression, where it is the one that was asked for.
    fn known_if(entry: &(AstRef, Arc<Canon>), same: bool) -> (found: Option<Arc<Canon>>)
        ensures
            found == if same {
                Some(entry.1)
            } else {
                None
            },
    {
        if same {
            Some(entry.1.clone())
        } else {
            None
        }
    }

    /// What is known of an expression, if it has been looked at and is kept. Whether the
    /// kept expression is the one asked for, [`same_node`] decides.
    fn find(&self, ast: &AstRef) -> (found: Option<Arc<Canon>>)
        requires
            self.wf(),
        ensures
            !self.kept().dom().contains(ast.origin) ==> found is None,
            found matches Some(result) ==> {
                &&& self.kept().dom().contains(ast.origin)
                &&& self.kept()[ast.origin].0@ == ast@
                &&& result == self.kept()[ast.origin].1
                &&& result.stands_for(canon(ast@))
            },
    {
        match self.entry(ast.origin) {
            Some(entry) => Self::known_if(entry, same_node(&entry.0, ast)),
            None => None,
        }
    }

    /// Keeps what is known of an expression, in place of what was kept under its key.
    fn keep(&mut self, ast: &AstRef, result: &Arc<Canon>)
        requires
            old(self).wf(),
            result.stands_for(canon(ast@)),
        ensures
            final(self).kept() == old(self).kept().insert(ast.origin, (*ast, *result)),
            final(self).wf(),
    {
        broadcast use vstd::std_specs::hash::group_hash_axioms;

        let ghost before = self.kept();
        self.known.insert(ast.origin, (ast.clone(), result.clone()));
        proof {
            let after = self.kept();
            assert(after == before.insert(ast.origin, (*ast, *result)));
            assert forall|key: u64| #[trigger]
                after.dom().contains(key) implies after[key].1.stands_for(canon(after[key].0@)) by {
                if key != ast.origin {
                    assert(before.dom().contains(key));
                }
            }
        }
    }
}

/// What is known of an expression, from the leaves up, where every count stays below the
/// limit.
pub(crate) fn canonical(ast: &AstRef, cache: &mut Cache) -> (found: Option<Arc<Canon>>)
    requires
        old(cache).wf(),
    ensures
        final(cache).wf(),
        found is Some <==> countable(ast@),
        found matches Some(result) ==> result.stands_for(canon(ast@)),
    decreases ast,
{
    if let Some(result) = cache.find(ast) {
        proof {
            lemma_paths_fit(result.paths@, canon(ast@).uses);
        }
        return Some(result);
    }
    let op = ast.to_opstring();
    if is_symbol_creation(op.as_str()) || is_value_creation(op.as_str()) {
        let result = Arc::new(canon_leaf(ast));
        proof {
            lemma_paths_fit(result.paths@, canon(ast@).uses);
        }
        cache.keep(ast, &result);
        return Some(result);
    }
    let ghost operands = canons(ast@.children);
    proof {
        lemma_canons(ast@.children);
    }
    let mut child_canon: Vec<Arc<Canon>> = Vec::new();
    let mut i: usize = 0;
    while i < ast.children.len()
        invariant
            i <= ast.children@.len(),
            !ast@.is_leaf(),
            cache.wf(),
            operands == Seq::new(ast@.children.len(), |i: int| canon(ast@.children[i])),
            child_canon@.len() == i,
            forall|k: int| 0 <= k < i ==> (#[trigger] child_canon@[k]).stands_for(operands[k]),
        decreases ast.children@.len() - i,
    {
        let child = &ast.children[i];
        match canonical(child, cache) {
            Some(result) => child_canon.push(result),
            None => {
                proof {
                    if countable(ast@) {
                        lemma_countable_operand(ast@, i as int);
                    }
                }
                return None;
            },
        }
        i = i + 1;
    }
    match canon_node(ast, child_canon, Ghost(operands)) {
        Some(canon) => {
            let result = Arc::new(canon);
            cache.keep(ast, &result);
            Some(result)
        },
        None => None,
    }
}

/// Whether the paths to the variables of an expression can be counted, as its hash needs.
pub fn is_countable(ast: &AstRef) -> (yes: bool)
    ensures
        yes == countable(ast@),
{
    let mut cache = Cache::new();
    canonical(ast, &mut cache).is_some()
}

/// The hash of an expression's shape.
pub fn canonical_hash(ast: &AstRef) -> (hash: u64)
    requires
        countable(ast@),
    ensures
        hash == canon(ast@).hash,
{
    let mut cache = Cache::new();
    canonical(ast, &mut cache).unwrap().hash
}

} // verus!
