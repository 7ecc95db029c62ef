//! What is hashed can be read back: different things are spelled differently.
use crate::ast::{AstView, OpView};
use crate::bags::{
    distinct, joined, lemma_distinct, lemma_joined_all, lemma_same_times, lemma_times_contains,
    times,
};
use crate::canonical::{
    argument_hashes, argument_uses, arguments, as_arguments, canon, canons, effective_arguments,
    effective_op, leaf_spelling, lemma_canons, node_spelling, numbers_before, step_index,
};
use crate::paths::{
    Use, VarKey, counter_of, counter_spelling, leaf_path, nameless, path_counts, paths_to,
    step_spelling, used_vars,
};
use crate::sort::{sorted_hashes, sorted_words};
use crate::words::{
    debug_hash, index_spelling, items_spelling, lemma_word_order_total, list_spelling,
    numbers_spelling, text_spelling, word_bytes, word_hash, word_order,
};
use std::collections::hash_map::DefaultHasher;
use vstd::bytes::{lemma_auto_spec_u64_to_from_le_bytes, spec_u64_to_le_bytes};
use vstd::prelude::*;
use vstd::relations::total_ordering;
use vstd::std_specs::hash::DefaultHasherAdditionalSpecFns;

verus! {

/// Whether what a spelling of a class spells can be told from the words that follow
/// it.
pub open spec fn delimited(class: spec_fn(Seq<u64>) -> bool) -> bool {
    forall|a: Seq<u64>, b: Seq<u64>, r: Seq<u64>, s: Seq<u64>|
        #![trigger a + r, b + s]
        class(a) && class(b) && a + r == b + s ==> a == b
}

proof fn lemma_cancel(a: Seq<u64>, r: Seq<u64>, s: Seq<u64>)
    requires
        a + r == a + s,
    ensures
        r == s,
{
    assert((a + r).skip(a.len() as int) =~= r);
    assert((a + s).skip(a.len() as int) =~= s);
}

proof fn lemma_char_codes(a: char, b: char)
    ensures
        (a as u64 + 1) as u64 > 0,
        (a as u64 + 1) as u64 == (b as u64 + 1) as u64 ==> a == b,
{
}

/// A text can be read back, whatever follows it.
pub proof fn law_text_read_back(a: Seq<char>, b: Seq<char>, r: Seq<u64>, s: Seq<u64>)
    requires
        text_spelling(a) + r == text_spelling(b) + s,
    ensures
        a == b,
        r == s,
{
    let (x, y) = (text_spelling(a), text_spelling(b));
    assert forall|i: int| 0 <= i < x.len() && i < y.len() implies x[i] == y[i] by {
        assert((x + r)[i] == (y + s)[i]);
    }
    if a.len() < b.len() {
        let n = a.len() as int;
        assert(x[n] == y[n]);
        lemma_char_codes(b[n], b[n]);
    } else if b.len() < a.len() {
        let n = b.len() as int;
        assert(x[n] == y[n]);
        lemma_char_codes(a[n], a[n]);
    }
    assert forall|i: int| 0 <= i < a.len() implies a[i] == b[i] by {
        assert(x[i] == y[i]);
        lemma_char_codes(a[i], b[i]);
    }
    assert(a =~= b);
    lemma_cancel(x, r, s);
}

proof fn lemma_items_front(items: Seq<Seq<u64>>)
    requires
        items.len() > 0,
    ensures
        items_spelling(items) == seq![1u64] + items[0] + items_spelling(items.drop_first()),
    decreases items.len(),
{
    let rest = items.drop_first();
    if items.len() == 1 {
        assert(items.drop_last() =~= Seq::empty());
        assert(rest =~= Seq::empty());
        assert(items_spelling(items.drop_last()) =~= Seq::empty());
        assert(items_spelling(items) =~= seq![1u64] + items[0] + items_spelling(rest));
    } else {
        lemma_items_front(items.drop_last());
        assert(items.drop_last().drop_first() =~= rest.drop_last());
        assert(items_spelling(items) =~= seq![1u64] + items[0] + items_spelling(rest));
    }
}

/// A list of things that can be read back can be read back.
pub proof fn law_list_read_back(
    class: spec_fn(Seq<u64>) -> bool,
    a: Seq<Seq<u64>>,
    b: Seq<Seq<u64>>,
    r: Seq<u64>,
    s: Seq<u64>,
)
    requires
        delimited(class),
        forall|i: int| 0 <= i < a.len() ==> class(#[trigger] a[i]),
        forall|i: int| 0 <= i < b.len() ==> class(#[trigger] b[i]),
        list_spelling(a) + r == list_spelling(b) + s,
    ensures
        a == b,
        r == s,
    decreases a.len(),
{
    let (x, y) = (list_spelling(a) + r, list_spelling(b) + s);
    if a.len() > 0 {
        lemma_items_front(a);
        assert(x[0] == 1);
    }
    if b.len() > 0 {
        lemma_items_front(b);
        assert(y[0] == 1);
    }
    if a.len() == 0 {
        assert(x[0] == 0);
        assert(a =~= b);
        lemma_cancel(list_spelling(a), r, s);
    } else {
        if b.len() == 0 {
            assert(y[0] == 0);
        }
        let (a1, b1) = (a.drop_first(), b.drop_first());
        let (ra, sb) = (list_spelling(a1) + r, list_spelling(b1) + s);
        assert(x.skip(1) =~= a[0] + ra);
        assert(y.skip(1) =~= b[0] + sb);
        assert(class(a[0]) && class(b[0]));
        assert(a[0] == b[0]);
        lemma_cancel(a[0], ra, sb);
        assert forall|i: int| 0 <= i < a1.len() implies class(#[trigger] a1[i]) by {
            assert(class(a[i + 1]));
        }
        assert forall|i: int| 0 <= i < b1.len() implies class(#[trigger] b1[i]) by {
            assert(class(b[i + 1]));
        }
        law_list_read_back(class, a1, b1, r, s);
        assert(a =~= seq![a[0]] + a1);
        assert(b =~= seq![b[0]] + b1);
    }
}

/// A list of numbers can be read back, whatever follows it.
pub proof fn law_numbers_read_back(a: Seq<u64>, b: Seq<u64>, r: Seq<u64>, s: Seq<u64>)
    requires
        numbers_spelling(a) + r == numbers_spelling(b) + s,
    ensures
        a == b,
        r == s,
{
    let class = |w: Seq<u64>| w.len() == 1;
    let x = Seq::new(a.len(), |i: int| seq![a[i]]);
    let y = Seq::new(b.len(), |i: int| seq![b[i]]);
    assert forall|p: Seq<u64>, q: Seq<u64>, u: Seq<u64>, v: Seq<u64>|
        #![trigger p + u, q + v]
        class(p) && class(q) && p + u == q + v implies p == q by {
        assert((p + u)[0] == (q + v)[0]);
        assert(p =~= q);
    }
    law_list_read_back(class, x, y, r, s);
    assert(a.len() == x.len() && b.len() == y.len());
    assert forall|i: int| 0 <= i < a.len() implies a[i] == b[i] by {
        assert(x[i][0] == y[i][0]);
    }
    assert(a =~= b);
}

/// A path: op strings and positions from the root down.
pub open spec fn path_spelling(steps: Seq<(Seq<char>, Option<usize>)>) -> Seq<u64> {
    list_spelling(
        steps.map_values(
            |step: (Seq<char>, Option<usize>)| text_spelling(step.0) + index_spelling(step.1),
        ),
    )
}

/// Whether words spell a path.
pub open spec fn is_path(words: Seq<u64>) -> bool {
    exists|steps: Seq<(Seq<char>, Option<usize>)>| words == #[trigger] path_spelling(steps)
}

proof fn lemma_step_read_back(
    a: (Seq<char>, Option<usize>),
    b: (Seq<char>, Option<usize>),
    r: Seq<u64>,
    s: Seq<u64>,
)
    requires
        text_spelling(a.0) + index_spelling(a.1) + r == text_spelling(b.0) + index_spelling(b.1)
            + s,
    ensures
        a == b,
{
    let (x, y) = (index_spelling(a.1) + r, index_spelling(b.1) + s);
    assert(text_spelling(a.0) + x =~= text_spelling(a.0) + index_spelling(a.1) + r);
    assert(text_spelling(b.0) + y =~= text_spelling(b.0) + index_spelling(b.1) + s);
    law_text_read_back(a.0, b.0, x, y);
    assert(x[0] == y[0]);
    assert(a.1 is Some == b.1 is Some);
    if a.1 is Some {
        assert(x[1] == y[1]);
    }
}

/// A path can be read back, whatever follows it.
pub proof fn law_path_read_back(
    a: Seq<(Seq<char>, Option<usize>)>,
    b: Seq<(Seq<char>, Option<usize>)>,
    r: Seq<u64>,
    s: Seq<u64>,
)
    requires
        path_spelling(a) + r == path_spelling(b) + s,
    ensures
        a == b,
        r == s,
{
    let f = |step: (Seq<char>, Option<usize>)| text_spelling(step.0) + index_spelling(step.1);
    let class = |w: Seq<u64>| exists|step: (Seq<char>, Option<usize>)| w == #[trigger] f(step);
    assert forall|p: Seq<u64>, q: Seq<u64>, u: Seq<u64>, v: Seq<u64>|
        #![trigger p + u, q + v]
        class(p) && class(q) && p + u == q + v implies p == q by {
        let x = choose|step: (Seq<char>, Option<usize>)| p == #[trigger] f(step);
        let y = choose|step: (Seq<char>, Option<usize>)| q == #[trigger] f(step);
        lemma_step_read_back(x, y, u, v);
    }
    let (x, y) = (a.map_values(f), b.map_values(f));
    assert forall|i: int| 0 <= i < x.len() implies class(#[trigger] x[i]) by {
        assert(x[i] == f(a[i]));
    }
    assert forall|i: int| 0 <= i < y.len() implies class(#[trigger] y[i]) by {
        assert(y[i] == f(b[i]));
    }
    law_list_read_back(class, x, y, r, s);
    assert(a.len() == x.len() && b.len() == y.len());
    assert forall|i: int| 0 <= i < a.len() implies a[i] == b[i] by {
        assert(f(a[i]) == x[i]);
        assert(f(b[i]) == y[i]);
        let none = Seq::<u64>::empty();
        lemma_step_read_back(a[i], b[i], none, none);
    }
    assert(a =~= b);
}

/// Whether words spell a path that ends in a step of its own for an op string, as one
/// to a variable does.
pub open spec fn leads_to(words: Seq<u64>, op: Seq<char>) -> bool {
    exists|steps: Seq<(Seq<char>, Option<usize>)>|
        words == #[trigger] path_spelling(steps) && steps.len() > 0 && steps.last() == (
            op,
            Some(0usize),
        )
}

pub proof fn lemma_path_step(
    op: Seq<char>,
    index: Option<usize>,
    steps: Seq<(Seq<char>, Option<usize>)>,
)
    ensures
        step_spelling(op, index) + path_spelling(steps) == path_spelling(
            seq![(op, index)] + steps,
        ),
{
    let f = |step: (Seq<char>, Option<usize>)| text_spelling(step.0) + index_spelling(step.1);
    let items = (seq![(op, index)] + steps).map_values(f);
    lemma_items_front(items);
    assert(items.drop_first() =~= steps.map_values(f));
    assert(items[0] == f((op, index)));
    assert(step_spelling(op, index) + path_spelling(steps) =~= list_spelling(items));
}

/// What leads to a variable is a path, and ends in the variable's own step.
pub proof fn law_uses_have_paths(ast: AstView)
    ensures
        forall|k: int|
            0 <= k < canon(ast).uses.len() ==> is_path((#[trigger] canon(ast).uses[k]).path)
                && leads_to(canon(ast).uses[k].path, canon(ast).uses[k].var.0.opstring()),
    decreases ast,
{
    if ast.is_leaf() {
        let op = ast.op.opstring();
        let none = Seq::<(Seq<char>, Option<usize>)>::empty();
        let only = seq![(op, Some(0usize))] + none;
        lemma_path_step(op, Some(0), none);
        assert(path_spelling(none) =~= seq![0u64]);
        assert(leaf_path(op) =~= step_spelling(op, Some(0)) + path_spelling(none));
        assert(leaf_path(op) == path_spelling(only));
        assert(only.last() == (op, Some(0usize)));
    } else {
        let op = effective_op(ast.op.opstring());
        let operands = canons(ast.children);
        lemma_canons(ast.children);
        let args = effective_arguments(ast.op, operands);
        let straight = arguments(ast.op, operands);
        let n = as_arguments(numbers_before(ast.op)).len() as int;
        let good = |u: Use| is_path(u.path) && leads_to(u.path, u.var.0.opstring());
        let parts = argument_uses(op, args);
        assert forall|i: int, k: int|
            0 <= i < parts.len() && 0 <= k < parts[i].len() implies good(
            #[trigger] parts[i][k],
        ) by {
            let j = if args == straight {
                i
            } else {
                args.len() - 1 - i
            };
            assert(args[i] == straight[j]);
            assert(n <= j < n + operands.len());
            let child = ast.children[j - n];
            assert(straight[j] == canon(child));
            law_uses_have_paths(child);
            let below = canon(child).uses[k];
            assert(leads_to(below.path, below.var.0.opstring()));
            let steps = choose|steps: Seq<(Seq<char>, Option<usize>)>|
                below.path == #[trigger] path_spelling(steps) && steps.len() > 0 && steps.last()
                    == (below.var.0.opstring(), Some(0usize));
            let index = step_index(op, i);
            lemma_path_step(op, index, steps);
            let more = seq![(op, index)] + steps;
            assert(parts[i][k].path == step_spelling(op, index) + below.path);
            assert(parts[i][k].path == path_spelling(more));
            assert(more.last() == steps.last());
        }
        lemma_joined_all(parts, good);
        assert(canon(ast).uses == joined(parts));
    }
}

/// Whether words spell a path and how often it occurs.
spec fn counted_path(words: Seq<u64>) -> bool {
    words.len() > 0 && is_path(words.drop_last())
}

/// Whether words spell the counted paths to a variable.
spec fn is_counter(words: Seq<u64>) -> bool {
    exists|items: Seq<Seq<u64>>|
        words == #[trigger] list_spelling(items) && (forall|i: int|
            0 <= i < items.len() ==> counted_path(#[trigger] items[i]))
}

proof fn lemma_counted_paths_delimited()
    ensures
        delimited(|w: Seq<u64>| counted_path(w)),
{
    let class = |w: Seq<u64>| counted_path(w);
    assert forall|p: Seq<u64>, q: Seq<u64>, u: Seq<u64>, v: Seq<u64>|
        #![trigger p + u, q + v]
        class(p) && class(q) && p + u == q + v implies p == q by {
        let x = choose|steps: Seq<(Seq<char>, Option<usize>)>|
            p.drop_last() == #[trigger] path_spelling(steps);
        let y = choose|steps: Seq<(Seq<char>, Option<usize>)>|
            q.drop_last() == #[trigger] path_spelling(steps);
        let (r, s) = (seq![p.last()] + u, seq![q.last()] + v);
        assert(p + u =~= path_spelling(x) + r);
        assert(q + v =~= path_spelling(y) + s);
        law_path_read_back(x, y, r, s);
        assert(r[0] == s[0]);
        assert(p =~= p.drop_last().push(p.last()));
        assert(q =~= q.drop_last().push(q.last()));
    }
}

proof fn lemma_counters_delimited()
    ensures
        delimited(|w: Seq<u64>| is_counter(w)),
{
    let class = |w: Seq<u64>| is_counter(w);
    lemma_counted_paths_delimited();
    assert forall|p: Seq<u64>, q: Seq<u64>, u: Seq<u64>, v: Seq<u64>|
        #![trigger p + u, q + v]
        class(p) && class(q) && p + u == q + v implies p == q by {
        let x = choose|items: Seq<Seq<u64>>|
            p == #[trigger] list_spelling(items) && (forall|i: int|
                0 <= i < items.len() ==> counted_path(#[trigger] items[i]));
        let y = choose|items: Seq<Seq<u64>>|
            q == #[trigger] list_spelling(items) && (forall|i: int|
                0 <= i < items.len() ==> counted_path(#[trigger] items[i]));
        law_list_read_back(|w: Seq<u64>| counted_path(w), x, y, u, v);
    }
}

proof fn lemma_paths_to_good(uses: Seq<Use>, var: VarKey)
    requires
        forall|k: int| 0 <= k < uses.len() ==> is_path((#[trigger] uses[k]).path),
    ensures
        forall|i: int|
            0 <= i < paths_to(uses, var).len() ==> is_path(#[trigger] paths_to(uses, var)[i]),
    decreases uses.len(),
{
    if uses.len() > 0 {
        let front = uses.drop_last();
        assert forall|k: int| 0 <= k < front.len() implies is_path((#[trigger] front[k]).path) by {
            assert(is_path(uses[k].path));
        }
        lemma_paths_to_good(front, var);
        assert(is_path(uses[uses.len() - 1].path));
        assert forall|i: int| 0 <= i < paths_to(uses, var).len() implies is_path(
            #[trigger] paths_to(uses, var)[i],
        ) by {
            if i < paths_to(front, var).len() {
                assert(paths_to(uses, var)[i] == paths_to(front, var)[i]);
            }
        }
    }
}

proof fn lemma_sorted_from<A>(s: Seq<A>, leq: spec_fn(A, A) -> bool, i: int)
    requires
        total_ordering(leq),
        0 <= i < s.sort_by(leq).len(),
    ensures
        s.contains(s.sort_by(leq)[i]),
{
    broadcast use vstd::seq_lib::group_to_multiset_ensures;

    s.lemma_sort_by_ensures(leq);
    assert(s.sort_by(leq).contains(s.sort_by(leq)[i]));
    assert(s.to_multiset().count(s.sort_by(leq)[i]) > 0);
}

proof fn lemma_counter_good(paths: Seq<Seq<u64>>)
    requires
        forall|i: int| 0 <= i < paths.len() ==> is_path(#[trigger] paths[i]),
    ensures
        is_counter(counter_spelling(paths)),
{
    let items = path_counts(paths);
    lemma_counted_items(paths);
    assert(counter_spelling(paths) == list_spelling(items));
}

proof fn lemma_nameless_good(uses: Seq<Use>)
    requires
        forall|k: int| 0 <= k < uses.len() ==> is_path((#[trigger] uses[k]).path),
    ensures
        forall|i: int| 0 <= i < nameless(uses).len() ==> is_counter(#[trigger] nameless(uses)[i]),
{
    let vars = distinct(used_vars(uses));
    let counters = vars.map_values(counter_of(uses));
    lemma_word_order_total();
    assert forall|i: int| 0 <= i < nameless(uses).len() implies is_counter(
        #[trigger] nameless(uses)[i],
    ) by {
        lemma_sorted_from(counters, word_order(), i);
        let k = choose|k: int| 0 <= k < counters.len() && counters[k] == nameless(uses)[i];
        lemma_paths_to_good(uses, vars[k]);
        lemma_counter_good(paths_to(uses, vars[k]));
    }
}

/// Counted paths tell which paths were counted, and how often each.
pub proof fn law_counter_read_back(a: Seq<Seq<u64>>, b: Seq<Seq<u64>>)
    requires
        forall|i: int| 0 <= i < a.len() ==> is_path(#[trigger] a[i]),
        forall|i: int| 0 <= i < b.len() ==> is_path(#[trigger] b[i]),
        forall|p: Seq<u64>| #[trigger] times(a, p) <= u64::MAX,
        forall|p: Seq<u64>| #[trigger] times(b, p) <= u64::MAX,
        counter_spelling(a) == counter_spelling(b),
    ensures
        a.to_multiset() == b.to_multiset(),
{
    let (x, y) = (path_counts(a), path_counts(b));
    let (u, v) = (sorted_words(distinct(a)), sorted_words(distinct(b)));
    let none = Seq::<u64>::empty();
    lemma_counted_items(a);
    lemma_counted_items(b);
    lemma_counted_paths_delimited();
    law_list_read_back(|w: Seq<u64>| counted_path(w), x, y, none, none);
    assert(u.len() == x.len() && v.len() == y.len());
    assert forall|i: int| 0 <= i < u.len() implies #[trigger] u[i] == v[i] && times(a, u[i])
        == times(b, v[i]) by {
        assert(x[i] == y[i]);
        assert(x[i].drop_last() =~= u[i]);
        assert(y[i].drop_last() =~= v[i]);
        assert(x[i].last() == times(a, u[i]) as u64);
        assert(y[i].last() == times(b, v[i]) as u64);
        assert(times(a, u[i]) <= u64::MAX && times(b, v[i]) <= u64::MAX);
    }
    assert forall|p: Seq<u64>| #[trigger] times(a, p) == times(b, p) by {
        lemma_sorted_distinct(a, p);
        lemma_sorted_distinct(b, p);
        lemma_times_contains(a, p);
        lemma_times_contains(b, p);
        if a.contains(p) {
            let i = choose|i: int| 0 <= i < u.len() && u[i] == p;
            assert(u[i] == v[i]);
        } else if b.contains(p) {
            let i = choose|i: int| 0 <= i < v.len() && v[i] == p;
            assert(u[i] == v[i]);
            assert(u.contains(p));
        }
    }
    lemma_same_times(a, b);
}

proof fn lemma_sorted_distinct(paths: Seq<Seq<u64>>, p: Seq<u64>)
    ensures
        sorted_words(distinct(paths)).contains(p) <==> paths.contains(p),
{
    let d = distinct(paths);
    lemma_distinct(paths);
    lemma_word_order_total();
    d.lemma_sort_by_ensures(word_order());
    lemma_times_contains(d, p);
    lemma_times_contains(sorted_words(d), p);
    assert(d.contains(p) <==> paths.contains(p));
}

proof fn lemma_counted_items(paths: Seq<Seq<u64>>)
    requires
        forall|i: int| 0 <= i < paths.len() ==> is_path(#[trigger] paths[i]),
    ensures
        forall|i: int|
            0 <= i < path_counts(paths).len() ==> counted_path(#[trigger] path_counts(paths)[i]),
{
    let items = path_counts(paths);
    let different = sorted_words(distinct(paths));
    assert forall|i: int| 0 <= i < items.len() implies counted_path(#[trigger] items[i]) by {
        lemma_sorted_distinct(paths, different[i]);
        assert(different.contains(different[i]));
        assert(items[i].drop_last() =~= different[i]);
    }
}

/// The hashes of the arguments of a node, in order.
pub open spec fn hashes_below(ast: AstView) -> Seq<u64> {
    sorted_hashes(argument_hashes(effective_arguments(ast.op, canons(ast.children))))
}

/// What is hashed of an expression.
pub open spec fn hash_input(ast: AstView) -> Seq<u64> {
    if ast.is_leaf() {
        leaf_spelling(ast.op)
    } else {
        node_spelling(hashes_below(ast), nameless(canon(ast).uses))
    }
}

/// The hash depends on what is hashed and on nothing else.
pub proof fn law_hash_of_input(ast: AstView)
    ensures
        canon(ast).hash == word_hash(hash_input(ast)),
        canon(ast).hash == DefaultHasher::spec_finish(seq![word_bytes(hash_input(ast))]),
{
}

/// The words can be read back from the bytes that the hasher gets.
pub proof fn law_bytes_read_back(a: Seq<u64>, b: Seq<u64>)
    requires
        word_bytes(a) == word_bytes(b),
    ensures
        a == b,
    decreases a.len(),
{
    lemma_auto_spec_u64_to_from_le_bytes();
    lemma_bytes_len(a);
    lemma_bytes_len(b);
    if a.len() > 0 {
        let (x, y) = (word_bytes(a), word_bytes(b));
        let (p, q) = (word_bytes(a.drop_last()), word_bytes(b.drop_last()));
        let (u, v) = (
            spec_u64_to_le_bytes(a.last()),
            spec_u64_to_le_bytes(b.last()),
        );
        lemma_bytes_len(a.drop_last());
        lemma_bytes_len(b.drop_last());
        assert(x.take(p.len() as int) =~= p);
        assert(y.take(q.len() as int) =~= q);
        assert(x.skip(p.len() as int) =~= u);
        assert(y.skip(q.len() as int) =~= v);
        law_bytes_read_back(a.drop_last(), b.drop_last());
        assert(a =~= a.drop_last().push(a.last()));
        assert(b =~= b.drop_last().push(b.last()));
    } else {
        assert(a =~= b);
    }
}

proof fn lemma_bytes_len(words: Seq<u64>)
    ensures
        word_bytes(words).len() == 8 * words.len(),
    decreases words.len(),
{
    lemma_auto_spec_u64_to_from_le_bytes();
    if words.len() > 0 {
        lemma_bytes_len(words.drop_last());
    }
}

/// What is hashed of a node tells the hashes of its arguments, and how often and along
/// which paths each variable is used.
pub proof fn law_node_read_back(a: AstView, b: AstView)
    requires
        !a.is_leaf(),
        !b.is_leaf(),
        hash_input(a) == hash_input(b),
    ensures
        hashes_below(a) == hashes_below(b),
        nameless(canon(a).uses) == nameless(canon(b).uses),
{
    let (u, v) = (nameless(canon(a).uses), nameless(canon(b).uses));
    law_numbers_read_back(
        hashes_below(a),
        hashes_below(b),
        list_spelling(u),
        list_spelling(v),
    );
    law_uses_have_paths(a);
    law_uses_have_paths(b);
    lemma_nameless_good(canon(a).uses);
    lemma_nameless_good(canon(b).uses);
    lemma_counters_delimited();
    let none = Seq::<u64>::empty();
    law_list_read_back(|w: Seq<u64>| is_counter(w), u, v, none, none);
}

/// What is hashed of a node is never what is hashed of a leaf.
pub proof fn law_leaf_is_no_node(leaf: AstView, node: AstView)
    requires
        leaf.is_leaf(),
        !node.is_leaf(),
    ensures
        hash_input(leaf) != hash_input(node),
{
    reveal_strlit("BVS");
    reveal_strlit("BoolS");
    reveal_strlit("FPS");
    reveal_strlit("StringS");
    reveal_strlit("BVV");
    reveal_strlit("BoolV");
    reveal_strlit("FPV");
    reveal_strlit("StringV");
    let op = leaf.op.opstring();
    assert(op.len() > 0 && (op[0] == 'B' || op[0] == 'F' || op[0] == 'S'));
    assert(hash_input(leaf)[0] == (op[0] as u64 + 1) as u64);
    let numbers = hashes_below(node);
    let items = Seq::new(numbers.len(), |i: int| seq![numbers[i]]);
    if numbers.len() > 0 {
        lemma_items_front(items);
        assert(hash_input(node)[0] == 1);
    } else {
        assert(hash_input(node)[0] == 0);
    }
}

/// What is hashed of a leaf tells its op string, and of a variable its type, of a
/// constant its value; what is only held as debug output, by its hash.
pub proof fn law_leaf_read_back(a: AstView, b: AstView)
    requires
        a.is_leaf(),
        b.is_leaf(),
        hash_input(a) == hash_input(b),
    ensures
        a.op.opstring() == b.op.opstring(),
        a.op matches OpView::BVS(_, m) ==> (b.op matches OpView::BVS(_, n) ==> m == n),
        a.op matches OpView::FPS(_, m) ==> (b.op matches OpView::FPS(_, n)
            ==> debug_hash(m) == debug_hash(n)),
        a.op matches OpView::BVV(x, m) ==> (b.op matches OpView::BVV(y, n) ==> x == y && m == n),
        a.op matches OpView::BoolV(x) ==> (b.op matches OpView::BoolV(y) ==> x == y),
        a.op matches OpView::FPV(x) ==> (b.op matches OpView::FPV(y)
            ==> debug_hash(x) == debug_hash(y)),
        a.op matches OpView::StringV(x) ==> (b.op matches OpView::StringV(y) ==> x == y),
{
    let (p, q) = (a.op.opstring(), b.op.opstring());
    let (x, y) = (leaf_spelling(a.op), leaf_spelling(b.op));
    let (r, s) = (x.skip(text_spelling(p).len() as int), y.skip(text_spelling(q).len() as int));
    assert(x =~= text_spelling(p) + r);
    assert(y =~= text_spelling(q) + s);
    law_text_read_back(p, q, r, s);
    match (a.op, b.op) {
        (OpView::BVS(_, m), OpView::BVS(_, n)) => {
            assert(r[0] == m as u64 && s[0] == n as u64);
        },
        (OpView::FPS(_, m), OpView::FPS(_, n)) => {
            assert(r[0] == debug_hash(m) && s[0] == debug_hash(n));
        },
        (OpView::BVV(c, m), OpView::BVV(d, n)) => {
            let u = Seq::new(c.len(), |i: int| c[i] as u64);
            let v = Seq::new(d.len(), |i: int| d[i] as u64);
            assert(r =~= numbers_spelling(u) + seq![m as u64]);
            assert(s =~= numbers_spelling(v) + seq![n as u64]);
            law_numbers_read_back(u, v, seq![m as u64], seq![n as u64]);
            assert(seq![m as u64][0] == seq![n as u64][0]);
            assert(c.len() == u.len() && d.len() == v.len());
            assert forall|i: int| 0 <= i < c.len() implies c[i] == d[i] by {
                assert(u[i] == v[i]);
            }
            assert(c =~= d);
        },
        (OpView::BoolV(c), OpView::BoolV(d)) => {
            assert(r[0] == if c { 1u64 } else { 0u64 });
            assert(s[0] == if d { 1u64 } else { 0u64 });
        },
        (OpView::FPV(c), OpView::FPV(d)) => {
            assert(r[0] == debug_hash(c) && s[0] == debug_hash(d));
        },
        (OpView::StringV(c), OpView::StringV(d)) => {
            let none = Seq::<u64>::empty();
            assert(r =~= text_spelling(c) + none);
            assert(s =~= text_spelling(d) + none);
            law_text_read_back(c, d, none, none);
        },
        _ => {},
    }
}

} // verus!
