//! Which variables an expression uses, how often, and along which paths.
//!
//! A path is spelled as words, from the root down: for every step a 1, the op
//! string and which operand was taken, and a 0 at the end. The position is left
//! out where operand order does not matter.
use crate::ast::{AstRef, AstView, OpView, same_op};
use crate::bags::{
    distinct, lemma_distinct, lemma_distinct_same, lemma_same_elements, lemma_times_contains,
    lemma_times_empty, lemma_times_push, times,
};
use crate::sort::{lemma_sorted_is_sort, sort_words, sorted_words, spellings};
use crate::words::{
    in_order, index_spelling, items_spelling, lemma_word_le_antisymmetric,
    lemma_word_le_reflexive, lemma_word_le_total, lemma_word_le_transitive,
    lemma_word_order_total, list_spelling, same_words, spell_words, text_spelling, word_le,
    word_order,
};
use vstd::prelude::*;
use vstd::relations::sorted_by;

verus! {

/// Who a variable is: its name and type, and its annotations.
pub type VarKey = (OpView, u64);

/// The variable that a leaf is.
pub open spec fn var_key(leaf: AstView) -> VarKey {
    (leaf.op, leaf.annotations)
}

/// One use of a variable, and the path that leads to it.
pub struct Use {
    pub var: VarKey,
    pub path: Seq<u64>,
}

/// A step of a path.
pub open spec fn step_spelling(op: Seq<char>, index: Option<usize>) -> Seq<u64> {
    seq![1u64] + text_spelling(op) + index_spelling(index)
}

/// The path from a variable to itself.
pub open spec fn leaf_path(op: Seq<char>) -> Seq<u64> {
    step_spelling(op, Some(0)).push(0)
}

/// The variables used, one for every use.
pub open spec fn used_vars(uses: Seq<Use>) -> Seq<VarKey> {
    Seq::new(uses.len(), |i: int| uses[i].var)
}

/// The paths that lead to a variable, one for every use of it.
pub open spec fn paths_to(uses: Seq<Use>, var: VarKey) -> Seq<Seq<u64>>
    decreases uses.len(),
{
    if uses.len() == 0 {
        Seq::empty()
    } else if uses.last().var == var {
        paths_to(uses.drop_last(), var).push(uses.last().path)
    } else {
        paths_to(uses.drop_last(), var)
    }
}

/// How many times each of some paths occurs: the different paths in order, each
/// with its count.
pub open spec fn path_counts(paths: Seq<Seq<u64>>) -> Seq<Seq<u64>> {
    let different = sorted_words(distinct(paths));
    Seq::new(different.len(), |i: int| different[i].push(times(paths, different[i]) as u64))
}

/// The spelling of [`path_counts`].
pub open spec fn counter_spelling(paths: Seq<Seq<u64>>) -> Seq<u64> {
    list_spelling(path_counts(paths))
}

/// [`counter_spelling`] of the paths to a variable, as a function of the variable.
pub open spec fn counter_of(uses: Seq<Use>) -> spec_fn(VarKey) -> Seq<u64> {
    |var: VarKey| counter_spelling(paths_to(uses, var))
}

/// The counted paths to every variable, without the variable that they belong
/// to, in order.
pub open spec fn nameless(uses: Seq<Use>) -> Seq<Seq<u64>> {
    sorted_words(distinct(used_vars(uses)).map_values(counter_of(uses)))
}

/// A path, and how many times it leads to one variable.
pub struct PathCount {
    pub path: Vec<u64>,
    pub count: u64,
}

/// A variable and the paths to it.
pub struct VarPaths {
    pub var: AstRef,
    /// The paths in order, each only once.
    pub counter: Vec<PathCount>,
}

/// How many times a counter has counted a path.
pub open spec fn counted(counter: Seq<PathCount>, path: Seq<u64>) -> nat
    decreases counter.len(),
{
    if counter.len() == 0 {
        0
    } else {
        counted(counter.drop_last(), path) + if counter.last().path@ == path {
            counter.last().count as nat
        } else {
            0
        }
    }
}

/// How many times a path to a variable has been counted.
pub open spec fn tallied(paths: Seq<VarPaths>, var: VarKey, path: Seq<u64>) -> nat
    decreases paths.len(),
{
    if paths.len() == 0 {
        0
    } else {
        tallied(paths.drop_last(), var, path) + if var_key(paths.last().var@) == var {
            counted(paths.last().counter@, path)
        } else {
            0
        }
    }
}

/// A counter holds its paths in order, each once and with a count above zero.
pub open spec fn counter_wf(counter: Seq<PathCount>) -> bool {
    &&& forall|i: int, j: int|
        0 <= i < j < counter.len() ==> word_le(
            (#[trigger] counter[i]).path@,
            (#[trigger] counter[j]).path@,
        ) && counter[i].path@ != counter[j].path@
    &&& forall|i: int| 0 <= i < counter.len() ==> (#[trigger] counter[i]).count > 0
}

/// Every variable is there once, with a path to it.
pub open spec fn paths_wf(paths: Seq<VarPaths>) -> bool {
    &&& forall|i: int|
        0 <= i < paths.len() ==> counter_wf((#[trigger] paths[i]).counter@)
            && paths[i].counter@.len() > 0
    &&& forall|i: int, j: int|
        0 <= i < j < paths.len() ==> var_key((#[trigger] paths[i]).var@) != var_key(
            (#[trigger] paths[j]).var@,
        )
}

/// The variables that have paths, in the order that they stand in.
pub open spec fn var_keys(paths: Seq<VarPaths>) -> Seq<VarKey> {
    Seq::new(paths.len(), |i: int| var_key(paths[i].var@))
}

/// Variables with one more behind them, unless it is there.
pub open spec fn noted(keys: Seq<VarKey>, key: VarKey) -> Seq<VarKey> {
    if keys.contains(key) {
        keys
    } else {
        keys.push(key)
    }
}

/// The paths to every variable that some uses make, the variables in the order first
/// seen.
pub open spec fn paths_of(paths: Seq<VarPaths>, uses: Seq<Use>) -> bool {
    &&& paths_wf(paths)
    &&& var_keys(paths) == distinct(used_vars(uses))
    &&& forall|var: VarKey, path: Seq<u64>| #[trigger]
        tallied(paths, var, path) == times(uses, Use { var, path })
}

/// Whether no path to any variable is taken more often than can be counted.
pub open spec fn uses_fit(uses: Seq<Use>) -> bool {
    forall|u: Use| #[trigger] times(uses, u) <= u64::MAX
}

proof fn lemma_counted_absent(counter: Seq<PathCount>, path: Seq<u64>)
    requires
        forall|i: int| 0 <= i < counter.len() ==> (#[trigger] counter[i]).path@ != path,
    ensures
        counted(counter, path) == 0,
    decreases counter.len(),
{
    if counter.len() > 0 {
        assert(counter[counter.len() - 1].path@ != path);
        assert forall|i: int| 0 <= i < counter.drop_last().len() implies (
        #[trigger] counter.drop_last()[i]).path@ != path by {
            assert(counter[i].path@ != path);
        }
        lemma_counted_absent(counter.drop_last(), path);
    }
}

pub proof fn lemma_counted_present(counter: Seq<PathCount>, i: int)
    requires
        counter_wf(counter),
        0 <= i < counter.len(),
    ensures
        counted(counter, counter[i].path@) == counter[i].count,
    decreases counter.len(),
{
    let path = counter[i].path@;
    let front = counter.drop_last();
    if i == counter.len() - 1 {
        assert forall|j: int| 0 <= j < front.len() implies (#[trigger] front[j]).path@ != path by {
            assert(counter[j].path@ != counter[i].path@);
        }
        lemma_counted_absent(front, path);
    } else {
        assert(counter[i].path@ != counter[counter.len() - 1].path@);
        assert(counter_wf(front)) by {
            assert forall|a: int, b: int| 0 <= a < b < front.len() implies word_le(
                (#[trigger] front[a]).path@,
                (#[trigger] front[b]).path@,
            ) && front[a].path@ != front[b].path@ by {
                assert(word_le(counter[a].path@, counter[b].path@));
            }
            assert forall|a: int| 0 <= a < front.len() implies (#[trigger] front[a]).count > 0 by {
                assert(counter[a].count > 0);
            }
        }
        lemma_counted_present(front, i);
    }
}

proof fn lemma_counted_update(counter: Seq<PathCount>, i: int, item: PathCount, path: Seq<u64>)
    requires
        0 <= i < counter.len(),
        counter[i].path@ == item.path@,
    ensures
        counted(counter.update(i, item), path) == counted(counter, path) + if path == item.path@ {
            item.count - counter[i].count
        } else {
            0
        },
    decreases counter.len(),
{
    let new = counter.update(i, item);
    if i == counter.len() - 1 {
        assert(new.drop_last() =~= counter.drop_last());
    } else {
        assert(new.drop_last() =~= counter.drop_last().update(i, item));
        lemma_counted_update(counter.drop_last(), i, item, path);
    }
}

proof fn lemma_counted_insert(counter: Seq<PathCount>, i: int, item: PathCount, path: Seq<u64>)
    requires
        0 <= i <= counter.len(),
    ensures
        counted(counter.insert(i, item), path) == counted(counter, path) + if path == item.path@ {
            item.count as int
        } else {
            0
        },
    decreases counter.len(),
{
    let new = counter.insert(i, item);
    if i == counter.len() {
        assert(new.drop_last() =~= counter);
    } else {
        assert(new.drop_last() =~= counter.drop_last().insert(i, item));
        assert(new.last() == counter.last());
        lemma_counted_insert(counter.drop_last(), i, item, path);
    }
}

proof fn lemma_tallied_absent(paths: Seq<VarPaths>, var: VarKey, path: Seq<u64>)
    requires
        forall|i: int| 0 <= i < paths.len() ==> var_key((#[trigger] paths[i]).var@) != var,
    ensures
        tallied(paths, var, path) == 0,
    decreases paths.len(),
{
    if paths.len() > 0 {
        assert(var_key(paths[paths.len() - 1].var@) != var);
        assert forall|i: int| 0 <= i < paths.drop_last().len() implies var_key(
            (#[trigger] paths.drop_last()[i]).var@,
        ) != var by {
            assert(var_key(paths[i].var@) != var);
        }
        lemma_tallied_absent(paths.drop_last(), var, path);
    }
}

proof fn lemma_tallied_present(paths: Seq<VarPaths>, i: int, path: Seq<u64>)
    requires
        forall|a: int, b: int|
            0 <= a < b < paths.len() ==> var_key((#[trigger] paths[a]).var@) != var_key(
                (#[trigger] paths[b]).var@,
            ),
        0 <= i < paths.len(),
    ensures
        tallied(paths, var_key(paths[i].var@), path) == counted(paths[i].counter@, path),
    decreases paths.len(),
{
    let var = var_key(paths[i].var@);
    let front = paths.drop_last();
    if i == paths.len() - 1 {
        assert forall|j: int| 0 <= j < front.len() implies var_key((#[trigger] front[j]).var@)
            != var by {
            assert(var_key(paths[j].var@) != var_key(paths[i].var@));
        }
        lemma_tallied_absent(front, var, path);
    } else {
        assert(var_key(paths[i].var@) != var_key(paths[paths.len() - 1].var@));
        assert forall|a: int, b: int| 0 <= a < b < front.len() implies var_key(
            (#[trigger] front[a]).var@,
        ) != var_key((#[trigger] front[b]).var@) by {
            assert(var_key(paths[a].var@) != var_key(paths[b].var@));
        }
        lemma_tallied_present(front, i, path);
    }
}

proof fn lemma_tallied_update(
    paths: Seq<VarPaths>,
    i: int,
    item: VarPaths,
    var: VarKey,
    path: Seq<u64>,
)
    requires
        0 <= i < paths.len(),
        var_key(paths[i].var@) == var_key(item.var@),
    ensures
        tallied(paths.update(i, item), var, path) == tallied(paths, var, path) + if var == var_key(
            item.var@,
        ) {
            counted(item.counter@, path) - counted(paths[i].counter@, path)
        } else {
            0
        },
    decreases paths.len(),
{
    let new = paths.update(i, item);
    if i == paths.len() - 1 {
        assert(new.drop_last() =~= paths.drop_last());
    } else {
        assert(new.drop_last() =~= paths.drop_last().update(i, item));
        lemma_tallied_update(paths.drop_last(), i, item, var, path);
    }
}

/// Counts a path so many times more, where the count stays below the limit.
fn count_path(counter: &mut Vec<PathCount>, path: Vec<u64>, count: u64) -> (fits: bool)
    requires
        counter_wf(old(counter)@),
        count > 0,
    ensures
        fits == (counted(old(counter)@, path@) + count <= u64::MAX),
        !fits ==> final(counter)@ == old(counter)@,
        fits ==> {
            &&& counter_wf(final(counter)@)
            &&& final(counter)@.len() > 0
            &&& forall|p: Seq<u64>| #[trigger]
                counted(final(counter)@, p) == counted(old(counter)@, p) + if p == path@ {
                    count as int
                } else {
                    0
                }
        },
{
    let ghost before = counter@;
    let mut at: usize = 0;
    while at < counter.len() && !in_order(&path, &counter[at].path)
        invariant
            counter@ == before,
            at <= counter@.len(),
            forall|i: int| 0 <= i < at ==> !word_le(path@, (#[trigger] before[i]).path@),
        decreases counter@.len() - at,
    {
        at = at + 1;
    }
    if at < counter.len() && same_words(&path, &counter[at].path) {
        proof {
            lemma_counted_present(before, at as int);
        }
        let total = match counter[at].count.checked_add(count) {
            Some(total) => total,
            None => return false,
        };
        let item = PathCount { path, count: total };
        proof {
            assert forall|p: Seq<u64>| #[trigger]
                counted(before.update(at as int, item), p) == counted(before, p) + if p
                    == path@ {
                    count as int
                } else {
                    0
                } by {
                lemma_counted_update(before, at as int, item, p);
            }
            let after = before.update(at as int, item);
            assert forall|i: int, j: int| 0 <= i < j < after.len() implies word_le(
                (#[trigger] after[i]).path@,
                (#[trigger] after[j]).path@,
            ) && after[i].path@ != after[j].path@ by {
                assert(word_le(before[i].path@, before[j].path@) && before[i].path@
                    != before[j].path@);
            }
            assert forall|i: int| 0 <= i < after.len() implies (#[trigger] after[i]).count > 0 by {
                assert(before[i].count > 0);
            }
        }
        counter.set(at, item);
    } else {
        let item = PathCount { path, count };
        proof {
            assert forall|i: int| 0 <= i < before.len() implies (#[trigger] before[i]).path@
                != path@ by {
                if i < at {
                    lemma_word_le_reflexive(path@);
                } else if i > at {
                    assert(word_le(before[at as int].path@, before[i].path@));
                    if before[i].path@ == path@ {
                        lemma_word_le_antisymmetric(path@, before[at as int].path@);
                    }
                }
            }
            lemma_counted_absent(before, path@);
            assert forall|p: Seq<u64>| #[trigger]
                counted(before.insert(at as int, item), p) == counted(before, p) + if p
                    == path@ {
                    count as int
                } else {
                    0
                } by {
                lemma_counted_insert(before, at as int, item, p);
            }
            let after = before.insert(at as int, item);
            assert forall|i: int| 0 <= i < at implies word_le(
                (#[trigger] before[i]).path@,
                path@,
            ) && before[i].path@ != path@ by {
                lemma_word_le_total(path@, before[i].path@);
            }
            assert forall|i: int| at <= i < before.len() implies word_le(
                path@,
                (#[trigger] before[i]).path@,
            ) && before[i].path@ != path@ by {
                if i > at {
                    assert(word_le(before[at as int].path@, before[i].path@));
                    lemma_word_le_transitive(path@, before[at as int].path@, before[i].path@);
                    if before[i].path@ == path@ {
                        lemma_word_le_antisymmetric(path@, before[at as int].path@);
                    }
                }
            }
            assert forall|i: int, j: int| 0 <= i < j < after.len() implies word_le(
                (#[trigger] after[i]).path@,
                (#[trigger] after[j]).path@,
            ) && after[i].path@ != after[j].path@ by {
                let i0 = if i < at { i } else { i - 1 };
                let j0 = if j < at { j } else { j - 1 };
                if i != at && j != at {
                    assert(word_le(before[i0].path@, before[j0].path@) && before[i0].path@
                        != before[j0].path@);
                } else if i == at {
                    assert(word_le(path@, before[j0].path@) && before[j0].path@ != path@);
                } else {
                    assert(word_le(before[i0].path@, path@) && before[i0].path@ != path@);
                }
            }
            assert forall|i: int| 0 <= i < after.len() implies (#[trigger] after[i]).count > 0 by {
                let i0 = if i < at { i } else { i - 1 };
                if i != at {
                    assert(before[i0].count > 0);
                }
            }
        }
        counter.insert(at, item);
    }
    true
}

/// Counts a path to a variable so many times more, where the count stays below the
/// limit.
pub(crate) fn count_use(
    paths: &mut Vec<VarPaths>,
    var: &AstRef,
    path: Vec<u64>,
    count: u64,
) -> (fits: bool)
    requires
        paths_wf(old(paths)@),
        count > 0,
    ensures
        fits == (tallied(old(paths)@, var_key(var@), path@) + count <= u64::MAX),
        fits ==> {
            &&& paths_wf(final(paths)@)
            &&& var_keys(final(paths)@) == noted(var_keys(old(paths)@), var_key(var@))
            &&& forall|v: VarKey, p: Seq<u64>| #[trigger]
                tallied(final(paths)@, v, p) == tallied(old(paths)@, v, p) + if v == var_key(
                    var@,
                ) && p == path@ {
                    count as int
                } else {
                    0
                }
        },
{
    let ghost before = paths@;
    let ghost key = var_key(var@);
    let mut at: usize = 0;
    while at < paths.len() && !(same_op(&paths[at].var.op, &var.op) && paths[at].var.annotations
        == var.annotations)
        invariant
            paths@ == before,
            at <= paths@.len(),
            key == var_key(var@),
            forall|i: int| 0 <= i < at ==> var_key((#[trigger] before[i]).var@) != key,
        decreases paths@.len() - at,
    {
        at = at + 1;
    }
    if at < paths.len() {
        proof {
            lemma_tallied_present(before, at as int, path@);
        }
        if !count_path(&mut paths[at].counter, path, count) {
            return false;
        }
        proof {
            let item = paths@[at as int];
            assert(paths@ =~= before.update(at as int, item));
            assert(var_keys(before)[at as int] == key);
            assert(var_keys(paths@) =~= var_keys(before));
            assert forall|v: VarKey, p: Seq<u64>| #[trigger]
                tallied(paths@, v, p) == tallied(before, v, p) + if v == key && p == path@ {
                    count as int
                } else {
                    0
                } by {
                lemma_tallied_update(before, at as int, item, v, p);
                assert(counted(item.counter@, p) == counted(before[at as int].counter@, p) + if p
                    == path@ {
                    count as int
                } else {
                    0
                });
            }
            assert forall|i: int| 0 <= i < paths@.len() implies counter_wf(
                (#[trigger] paths@[i]).counter@,
            ) && paths@[i].counter@.len() > 0 by {
                if i != at {
                    assert(counter_wf(before[i].counter@));
                }
            }
            assert forall|i: int, j: int| 0 <= i < j < paths@.len() implies var_key(
                (#[trigger] paths@[i]).var@,
            ) != var_key((#[trigger] paths@[j]).var@) by {
                assert(var_key(before[i].var@) != var_key(before[j].var@));
            }
        }
    } else {
        let mut counter: Vec<PathCount> = Vec::new();
        proof {
            lemma_tallied_absent(before, key, path@);
        }
        if !count_path(&mut counter, path, count) {
            return false;
        }
        let item = VarPaths { var: var.clone(), counter };
        paths.push(item);
        proof {
            assert(paths@.drop_last() =~= before);
            assert(!var_keys(before).contains(key)) by {
                if var_keys(before).contains(key) {
                    let i = choose|i: int| 0 <= i < before.len() && var_keys(before)[i] == key;
                    assert(var_key(before[i].var@) == key);
                }
            }
            assert(var_keys(paths@) =~= var_keys(before).push(key));
            assert forall|v: VarKey, p: Seq<u64>| #[trigger]
                tallied(paths@, v, p) == tallied(before, v, p) + if v == key && p == path@ {
                    count as int
                } else {
                    0
                } by {
                assert(counted(item.counter@, p) == counted(Seq::<PathCount>::empty(), p) + if p
                    == path@ {
                    count as int
                } else {
                    0
                });
            }
            assert forall|i: int| 0 <= i < paths@.len() implies counter_wf(
                (#[trigger] paths@[i]).counter@,
            ) && paths@[i].counter@.len() > 0 by {
                if i < before.len() {
                    assert(counter_wf(before[i].counter@));
                }
            }
            assert forall|i: int, j: int| 0 <= i < j < paths@.len() implies var_key(
                (#[trigger] paths@[i]).var@,
            ) != var_key((#[trigger] paths@[j]).var@) by {
                assert(var_key(before[i].var@) != key);
                if j < before.len() {
                    assert(var_key(before[i].var@) != var_key(before[j].var@));
                }
            }
        }
    }
    true
}

/// What has been counted could be.
pub proof fn lemma_paths_fit(paths: Seq<VarPaths>, uses: Seq<Use>)
    requires
        paths_of(paths, uses),
    ensures
        uses_fit(uses),
{
    assert forall|u: Use| #[trigger] times(uses, u) <= u64::MAX by {
        assert(tallied(paths, u.var, u.path) == times(uses, Use { var: u.var, path: u.path }));
        let keys = var_keys(paths);
        if keys.contains(u.var) {
            let k = choose|k: int| 0 <= k < keys.len() && keys[k] == u.var;
            let counter = paths[k].counter@;
            assert(counter_wf(paths[k].counter@));
            lemma_tallied_present(paths, k, u.path);
            let mine = counter_paths(counter);
            if mine.contains(u.path) {
                let i = choose|i: int| 0 <= i < mine.len() && mine[i] == u.path;
                lemma_counted_present(counter, i);
            } else {
                assert forall|i: int| 0 <= i < counter.len() implies (#[trigger] counter[i]).path@
                    != u.path by {
                    assert(mine[i] == counter[i].path@);
                }
                lemma_counted_absent(counter, u.path);
            }
        } else {
            assert forall|i: int| 0 <= i < paths.len() implies var_key((#[trigger] paths[i]).var@)
                != u.var by {
                assert(keys[i] == var_key(paths[i].var@));
            }
            lemma_tallied_absent(paths, u.var, u.path);
        }
    }
}

/// A path leads to a variable as often as the variable is used along it.
pub proof fn lemma_paths_to_times(uses: Seq<Use>, var: VarKey, path: Seq<u64>)
    ensures
        times(paths_to(uses, var), path) == times(uses, Use { var, path }),
    decreases uses.len(),
{
    if uses.len() == 0 {
        lemma_times_empty(uses, Use { var, path });
        lemma_times_empty(paths_to(uses, var), path);
    } else {
        lemma_paths_to_times(uses.drop_last(), var, path);
        assert(uses =~= uses.drop_last().push(uses.last()));
        lemma_times_push(uses.drop_last(), uses.last(), Use { var, path });
        lemma_times_push(paths_to(uses.drop_last(), var), uses.last().path, path);
    }
}

/// The paths of a counter.
spec fn counter_paths(counter: Seq<PathCount>) -> Seq<Seq<u64>> {
    Seq::new(counter.len(), |i: int| counter[i].path@)
}

/// The entries of a counter, spelled: each path and then its count.
pub open spec fn counter_items(counter: Seq<PathCount>) -> Seq<Seq<u64>> {
    Seq::new(counter.len(), |i: int| counter[i].path@.push(counter[i].count))
}

/// A counter that has counted some paths is spelled as those paths are.
proof fn lemma_counter_items(counter: Seq<PathCount>, paths: Seq<Seq<u64>>)
    requires
        counter_wf(counter),
        forall|p: Seq<u64>| #[trigger] counted(counter, p) == times(paths, p),
    ensures
        counter_items(counter) == path_counts(paths),
{
    let mine = counter_paths(counter);
    lemma_distinct(paths);
    assert(mine.no_duplicates()) by {
        assert forall|i: int, j: int| 0 <= i < mine.len() && 0 <= j < mine.len() && i != j implies
            mine[i] != mine[j] by {
            if i < j {
                assert(counter[i].path@ != counter[j].path@);
            } else {
                assert(counter[j].path@ != counter[i].path@);
            }
        }
    }
    assert forall|p: Seq<u64>| #[trigger] mine.contains(p) <==> distinct(paths).contains(p) by {
        lemma_times_contains(paths, p);
        assert(counted(counter, p) == times(paths, p));
        if mine.contains(p) {
            let i = choose|i: int| 0 <= i < mine.len() && mine[i] == p;
            lemma_counted_present(counter, i);
            assert(counter[i].count > 0);
        } else {
            assert forall|i: int| 0 <= i < counter.len() implies (#[trigger] counter[i]).path@
                != p by {
                assert(mine[i] == counter[i].path@);
            }
            lemma_counted_absent(counter, p);
        }
    }
    lemma_same_elements(mine, distinct(paths));
    let leq = word_order();
    assert(sorted_by(mine, leq)) by {
        assert forall|i: int, j: int| 0 <= i < j < mine.len() implies #[trigger] leq(
            mine[i],
            mine[j],
        ) by {
            assert(word_le(counter[i].path@, counter[j].path@));
        }
    }
    lemma_word_order_total();
    lemma_sorted_is_sort(distinct(paths), mine, leq);
    assert forall|i: int| 0 <= i < counter.len() implies counter_items(counter)[i] == path_counts(
        paths,
    )[i] by {
        lemma_counted_present(counter, i);
        assert(counted(counter, mine[i]) == times(paths, mine[i]));
    }
    assert(counter_items(counter) =~= path_counts(paths));
}

/// Spells a counter.
fn spell_counter(counter: &Vec<PathCount>) -> (words: Vec<u64>)
    ensures
        words@ == list_spelling(counter_items(counter@)),
{
    let ghost items = counter_items(counter@);
    let mut words: Vec<u64> = Vec::new();
    let mut i: usize = 0;
    while i < counter.len()
        invariant
            i <= counter@.len(),
            items == counter_items(counter@),
            words@ == items_spelling(items.take(i as int)),
        decreases counter@.len() - i,
    {
        words.push(1);
        spell_words(&mut words, &counter[i].path);
        words.push(counter[i].count);
        i = i + 1;
        assert(items.take(i as int).drop_last() =~= items.take(i - 1));
        assert(words@ =~= items_spelling(items.take(i as int)));
    }
    assert(items.take(counter@.len() as int) =~= items);
    words.push(0);
    words
}

/// What is counted of each variable are the paths to it.
pub proof fn lemma_counter_of_var(paths: Seq<VarPaths>, uses: Seq<Use>, i: int)
    requires
        paths_of(paths, uses),
        0 <= i < paths.len(),
    ensures
        forall|p: Seq<u64>| #[trigger]
            counted(paths[i].counter@, p) == times(paths_to(uses, var_key(paths[i].var@)), p),
        counter_items(paths[i].counter@) == path_counts(
            paths_to(uses, var_key(paths[i].var@)),
        ),
{
    let (counter, var) = (paths[i].counter@, var_key(paths[i].var@));
    let to = paths_to(uses, var);
    assert forall|p: Seq<u64>| #[trigger] counted(counter, p) == times(to, p) by {
        lemma_tallied_present(paths, i, p);
        assert(tallied(paths, var, p) == times(uses, Use { var, path: p }));
        lemma_paths_to_times(uses, var, p);
    }
    assert(counter_wf(paths[i].counter@));
    lemma_counter_items(counter, to);
}

/// The counted paths to every variable, without the variables, in order.
pub(crate) fn nameless_paths(
    paths: &Vec<VarPaths>,
    uses: Ghost<Seq<Use>>,
) -> (sorted: Vec<Vec<u64>>)
    requires
        paths_of(paths@, uses@),
    ensures
        spellings(sorted@) == nameless(uses@),
{
    let ghost keys = var_keys(paths@);
    let ghost spell = counter_of(uses@);
    let mut counters: Vec<Vec<u64>> = Vec::new();
    let mut i: usize = 0;
    while i < paths.len()
        invariant
            i <= paths@.len(),
            paths_of(paths@, uses@),
            keys == var_keys(paths@),
            spell == counter_of(uses@),
            counters@.len() == i,
            forall|k: int| 0 <= k < i ==> (#[trigger] counters@[k])@ == spell(keys[k]),
        decreases paths@.len() - i,
    {
        let words = spell_counter(&paths[i].counter);
        proof {
            lemma_counter_of_var(paths@, uses@, i as int);
        }
        counters.push(words);
        i = i + 1;
    }
    proof {
        assert(spellings(counters@) =~= keys.map_values(spell));
    }
    sort_words(counters)
}

/// No variable stands twice.
proof fn lemma_keys_distinct(paths: Seq<VarPaths>)
    requires
        paths_wf(paths),
    ensures
        var_keys(paths).no_duplicates(),
{
    let keys = var_keys(paths);
    assert forall|i: int, j: int| 0 <= i < keys.len() && 0 <= j < keys.len() && i != j implies
        keys[i] != keys[j] by {
        if i < j {
            assert(var_key(paths[i].var@) != var_key(paths[j].var@));
        } else {
            assert(var_key(paths[j].var@) != var_key(paths[i].var@));
        }
    }
}

/// What a function of paths says of a path with a step in front of it.
pub open spec fn behind(step: Seq<u64>, path: Seq<u64>, count: spec_fn(Seq<u64>) -> nat) -> nat {
    if step.is_prefix_of(path) {
        count(path.skip(step.len() as int))
    } else {
        0
    }
}

proof fn lemma_counted_take(counter: Seq<PathCount>, n: int, path: Seq<u64>)
    requires
        0 <= n <= counter.len(),
    ensures
        counted(counter.take(n), path) <= counted(counter, path),
    decreases counter.len(),
{
    if n < counter.len() {
        assert(counter.take(n) =~= counter.drop_last().take(n));
        lemma_counted_take(counter.drop_last(), n, path);
    } else {
        assert(counter.take(n) =~= counter);
    }
}

proof fn lemma_tallied_take(paths: Seq<VarPaths>, n: int, var: VarKey, path: Seq<u64>)
    requires
        0 <= n <= paths.len(),
    ensures
        tallied(paths.take(n), var, path) <= tallied(paths, var, path),
    decreases paths.len(),
{
    if n < paths.len() {
        assert(paths.take(n) =~= paths.drop_last().take(n));
        lemma_tallied_take(paths.drop_last(), n, var, path);
    } else {
        assert(paths.take(n) =~= paths);
    }
}

/// A path begins with the step in front of it, and the rest is what follows.
pub proof fn lemma_behind(step: Seq<u64>, rest: Seq<u64>, path: Seq<u64>)
    ensures
        step.is_prefix_of(step + rest),
        (step + rest).skip(step.len() as int) == rest,
        (step.is_prefix_of(path) && path.skip(step.len() as int) == rest) <==> path == step + rest,
{
    assert((step + rest).skip(step.len() as int) =~= rest);
    assert((step + rest).take(step.len() as int) =~= step);
    if step.is_prefix_of(path) && path.skip(step.len() as int) == rest {
        assert(path =~= path.take(step.len() as int) + path.skip(step.len() as int));
    }
}

/// Counts the paths to one variable, each with a step in front, where every count stays
/// below the limit.
fn count_through(
    paths: &mut Vec<VarPaths>,
    var: &AstRef,
    counter: &Vec<PathCount>,
    step: &Vec<u64>,
) -> (fits: bool)
    requires
        paths_wf(old(paths)@),
        counter_wf(counter@),
        counter@.len() > 0,
    ensures
        !fits ==> exists|rest: Seq<u64>| #[trigger]
            tallied(old(paths)@, var_key(var@), step@ + rest) + counted(counter@, rest)
                > u64::MAX,
        fits ==> {
            &&& paths_wf(final(paths)@)
            &&& var_keys(final(paths)@) == noted(var_keys(old(paths)@), var_key(var@))
            &&& forall|v: VarKey, p: Seq<u64>| #[trigger]
                tallied(final(paths)@, v, p) == tallied(old(paths)@, v, p) + if v == var_key(
                    var@,
                ) {
                    behind(step@, p, |rest: Seq<u64>| counted(counter@, rest))
                } else {
                    0
                }
        },
{
    let ghost before = paths@;
    let ghost key = var_key(var@);
    let mut j: usize = 0;
    while j < counter.len()
        invariant
            j <= counter@.len(),
            before == old(paths)@,
            key == var_key(var@),
            paths_wf(paths@),
            var_keys(paths@) == if j == 0 {
                var_keys(before)
            } else {
                noted(var_keys(before), key)
            },
            counter_wf(counter@),
            forall|v: VarKey, p: Seq<u64>| #[trigger]
                tallied(paths@, v, p) == tallied(before, v, p) + if v == key {
                    behind(step@, p, |rest: Seq<u64>| counted(counter@.take(j as int), rest))
                } else {
                    0
                },
        decreases counter@.len() - j,
    {
        let mut path: Vec<u64> = Vec::new();
        spell_words(&mut path, step);
        spell_words(&mut path, &counter[j].path);
        let count = counter[j].count;
        let ghost rest = counter@[j as int].path@;
        let ghost middle = paths@;
        proof {
            assert(path@ =~= step@ + rest);
            let more = counter@.take(j + 1);
            assert(more.drop_last() =~= counter@.take(j as int));
            assert(counted(more, rest) == counted(counter@.take(j as int), rest) + count);
            lemma_counted_take(counter@, j + 1, rest);
            lemma_behind(step@, rest, path@);
            assert(tallied(middle, key, path@) == tallied(before, key, path@) + counted(
                counter@.take(j as int),
                rest,
            ));
            assert(counter@[j as int].count > 0);
        }
        if !count_use(paths, var, path, count) {
            assert(tallied(before, key, step@ + rest) + counted(counter@, rest) > u64::MAX);
            return false;
        }
        proof {
            let keys = var_keys(before);
            if !keys.contains(key) {
                assert(keys.push(key)[keys.len() as int] == key);
            }
            let more = counter@.take(j + 1);
            assert(more.drop_last() =~= counter@.take(j as int));
            assert forall|v: VarKey, p: Seq<u64>| #[trigger]
                tallied(paths@, v, p) == tallied(before, v, p) + if v == key {
                    behind(step@, p, |rest: Seq<u64>| counted(counter@.take(j + 1), rest))
                } else {
                    0
                } by {
                lemma_behind(step@, rest, p);
                assert(tallied(middle, v, p) == tallied(before, v, p) + if v == key {
                    behind(step@, p, |rest: Seq<u64>| counted(counter@.take(j as int), rest))
                } else {
                    0
                });
            }
        }
        j = j + 1;
    }
    assert(counter@.take(counter@.len() as int) =~= counter@);
    true
}

/// Adds the paths of one operand, each with a step in front, where every count stays
/// below the limit.
pub(crate) fn add_paths(
    paths: &mut Vec<VarPaths>,
    more: &Vec<VarPaths>,
    step: &Vec<u64>,
) -> (fits: bool)
    requires
        paths_wf(old(paths)@),
        paths_wf(more@),
    ensures
        !fits ==> exists|v: VarKey, rest: Seq<u64>| #[trigger]
            tallied(old(paths)@, v, step@ + rest) + tallied(more@, v, rest) > u64::MAX,
        fits ==> {
            &&& paths_wf(final(paths)@)
            &&& var_keys(final(paths)@) == distinct(var_keys(old(paths)@) + var_keys(more@))
            &&& forall|v: VarKey, p: Seq<u64>| #[trigger]
                tallied(final(paths)@, v, p) == tallied(old(paths)@, v, p) + behind(
                    step@,
                    p,
                    |rest: Seq<u64>| tallied(more@, v, rest),
                )
        },
{
    let ghost before = paths@;
    let mut k: usize = 0;
    proof {
        lemma_keys_distinct(before);
        lemma_distinct_same(var_keys(before));
        assert(var_keys(before) + var_keys(more@.take(0)) =~= var_keys(before));
    }
    while k < more.len()
        invariant
            k <= more@.len(),
            before == old(paths)@,
            paths_wf(paths@),
            var_keys(paths@) == distinct(var_keys(before) + var_keys(more@.take(k as int))),
            paths_wf(more@),
            forall|v: VarKey, p: Seq<u64>| #[trigger]
                tallied(paths@, v, p) == tallied(before, v, p) + behind(
                    step@,
                    p,
                    |rest: Seq<u64>| tallied(more@.take(k as int), v, rest),
                ),
        decreases more@.len() - k,
    {
        let ghost middle = paths@;
        let ghost key = var_key(more@[k as int].var@);
        let ghost counter = more@[k as int].counter@;
        proof {
            assert(counter_wf(more@[k as int].counter@) && counter.len() > 0);
            assert(more@.take(k + 1).drop_last() =~= more@.take(k as int));
            let all = var_keys(before) + var_keys(more@.take(k + 1));
            assert(all.drop_last() =~= var_keys(before) + var_keys(more@.take(k as int)));
            assert(all.last() == key);
        }
        if !count_through(paths, &more[k].var, &more[k].counter, step) {
            proof {
                let rest = choose|rest: Seq<u64>| #[trigger]
                    tallied(middle, key, step@ + rest) + counted(counter, rest) > u64::MAX;
                lemma_behind(step@, rest, step@ + rest);
                lemma_tallied_take(more@, k + 1, key, rest);
                assert(tallied(middle, key, step@ + rest) == tallied(before, key, step@ + rest)
                    + tallied(more@.take(k as int), key, rest));
                assert(tallied(before, key, step@ + rest) + tallied(more@, key, rest)
                    > u64::MAX);
            }
            return false;
        }
        proof {
            assert forall|v: VarKey, p: Seq<u64>| #[trigger]
                tallied(paths@, v, p) == tallied(before, v, p) + behind(
                    step@,
                    p,
                    |rest: Seq<u64>| tallied(more@.take(k + 1), v, rest),
                ) by {
                assert(tallied(middle, v, p) == tallied(before, v, p) + behind(
                    step@,
                    p,
                    |rest: Seq<u64>| tallied(more@.take(k as int), v, rest),
                ));
            }
        }
        k = k + 1;
    }
    assert(more@.take(more@.len() as int) =~= more@);
    true
}

} // verus!
