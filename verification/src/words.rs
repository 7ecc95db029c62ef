//! Spelling data as words.
//!
//! What is hashed is first spelled as a sequence of 64-bit words. The spelling
//! marks where things end, so that what was spelled can be read back from the
//! words alone. Spellings are compared word by word.
use std::collections::hash_map::DefaultHasher;
use std::hash::Hasher;
use vstd::bytes::{spec_u64_to_le_bytes, u64_to_le_bytes};
use vstd::prelude::*;
use vstd::relations::total_ordering;
use vstd::std_specs::hash::DefaultHasherAdditionalSpecFns;

verus! {

/// A text: a word for every character, each one more than its code, then 0.
pub open spec fn text_spelling(text: Seq<char>) -> Seq<u64> {
    Seq::new(text.len(), |i: int| (text[i] as u64 + 1) as u64).push(0)
}

/// An optional position: 0 for none, or 1 and the position.
pub open spec fn index_spelling(index: Option<usize>) -> Seq<u64> {
    match index {
        Some(i) => seq![1, i as u64],
        None => seq![0],
    }
}

/// The items of a list, each after a 1.
pub open spec fn items_spelling(items: Seq<Seq<u64>>) -> Seq<u64>
    decreases items.len(),
{
    if items.len() == 0 {
        Seq::empty()
    } else {
        items_spelling(items.drop_last()).push(1) + items.last()
    }
}

/// A list: its items, each after a 1, then 0.
pub open spec fn list_spelling(items: Seq<Seq<u64>>) -> Seq<u64> {
    items_spelling(items).push(0)
}

/// A list of numbers.
pub open spec fn numbers_spelling(numbers: Seq<u64>) -> Seq<u64> {
    list_spelling(Seq::new(numbers.len(), |i: int| seq![numbers[i]]))
}

/// Whether one spelling is the same as another or comes before it.
pub open spec fn word_le(a: Seq<u64>, b: Seq<u64>) -> bool
    decreases a.len(),
{
    if a.len() == 0 {
        true
    } else if b.len() == 0 {
        false
    } else if a[0] == b[0] {
        word_le(a.drop_first(), b.drop_first())
    } else {
        a[0] < b[0]
    }
}

/// [`word_le`] as a relation.
pub open spec fn word_order() -> spec_fn(Seq<u64>, Seq<u64>) -> bool {
    |a: Seq<u64>, b: Seq<u64>| word_le(a, b)
}

/// The words of a spelling as bytes, each little-endian.
pub open spec fn word_bytes(words: Seq<u64>) -> Seq<u8>
    decreases words.len(),
{
    if words.len() == 0 {
        Seq::empty()
    } else {
        word_bytes(words.drop_last()) + spec_u64_to_le_bytes(words.last())
    }
}

/// What the standard library's default hasher makes of a spelling that is
/// written to it in one go.
pub open spec fn word_hash(words: Seq<u64>) -> u64 {
    DefaultHasher::spec_finish(seq![word_bytes(words)])
}

/// The hash of a value that is fully described by its debug output.
pub open spec fn debug_hash(debug: Seq<char>) -> u64 {
    word_hash(text_spelling(debug))
}

/// Adds the spelling of a text.
pub fn spell_text(words: &mut Vec<u64>, text: &str)
    ensures
        final(words)@ == old(words)@ + text_spelling(text@),
{
    let ghost before = words@;
    let ghost codes = Seq::new(text@.len(), |i: int| (text@[i] as u64 + 1) as u64);
    let n = text.unicode_len();
    let mut i: usize = 0;
    while i < n
        invariant
            i <= n,
            n == text@.len(),
            codes == Seq::new(text@.len(), |i: int| (text@[i] as u64 + 1) as u64),
            words@ == before + codes.take(i as int),
        decreases n - i,
    {
        let c = text.get_char(i);
        words.push(c as u64 + 1);
        i = i + 1;
        assert(codes.take(i as int) =~= codes.take(i - 1).push(codes[i - 1]));
        assert(words@ =~= before + codes.take(i as int));
    }
    assert(codes.take(n as int) =~= codes);
    words.push(0);
    assert(words@ =~= before + text_spelling(text@));
}

/// Adds the spelling of an optional position.
pub fn spell_index(words: &mut Vec<u64>, index: Option<usize>)
    ensures
        final(words)@ == old(words)@ + index_spelling(index),
{
    let ghost before = words@;
    match index {
        Some(i) => {
            words.push(1);
            words.push(i as u64);
        },
        None => words.push(0),
    }
    assert(words@ =~= before + index_spelling(index));
}

/// Adds the spelling of a list of numbers.
pub fn spell_numbers(words: &mut Vec<u64>, numbers: &Vec<u64>)
    ensures
        final(words)@ == old(words)@ + numbers_spelling(numbers@),
{
    let ghost before = words@;
    let ghost items = Seq::new(numbers@.len(), |i: int| seq![numbers@[i]]);
    let mut i: usize = 0;
    while i < numbers.len()
        invariant
            i <= numbers@.len(),
            items == Seq::new(numbers@.len(), |i: int| seq![numbers@[i]]),
            words@ == before + items_spelling(items.take(i as int)),
        decreases numbers@.len() - i,
    {
        words.push(1);
        words.push(numbers[i]);
        i = i + 1;
        assert(items.take(i as int).drop_last() =~= items.take(i - 1));
        assert(words@ =~= before + items_spelling(items.take(i as int)));
    }
    assert(items.take(numbers@.len() as int) =~= items);
    words.push(0);
    assert(words@ =~= before + numbers_spelling(numbers@));
}

/// Adds words as they are.
pub fn spell_words(words: &mut Vec<u64>, more: &Vec<u64>)
    ensures
        final(words)@ == old(words)@ + more@,
{
    let ghost before = words@;
    let mut i: usize = 0;
    while i < more.len()
        invariant
            i <= more@.len(),
            words@ == before + more@.take(i as int),
        decreases more@.len() - i,
    {
        words.push(more[i]);
        i = i + 1;
        assert(words@ =~= before + more@.take(i as int));
    }
    assert(more@.take(more@.len() as int) =~= more@);
}

/// Whether one spelling is the same as another or comes before it.
pub fn in_order(a: &Vec<u64>, b: &Vec<u64>) -> (yes: bool)
    ensures
        yes == word_le(a@, b@),
{
    let mut i: usize = 0;
    assert(a@.skip(0) =~= a@);
    assert(b@.skip(0) =~= b@);
    while i < a.len() && i < b.len() && a[i] == b[i]
        invariant
            i <= a@.len(),
            i <= b@.len(),
            word_le(a@, b@) == word_le(a@.skip(i as int), b@.skip(i as int)),
        decreases a@.len() - i,
    {
        assert(a@.skip(i as int).drop_first() =~= a@.skip(i + 1));
        assert(b@.skip(i as int).drop_first() =~= b@.skip(i + 1));
        i = i + 1;
    }
    if i >= a.len() {
        true
    } else if i >= b.len() {
        false
    } else {
        a[i] < b[i]
    }
}

/// Whether two spellings are the same.
pub fn same_words(a: &Vec<u64>, b: &Vec<u64>) -> (same: bool)
    ensures
        same == (a@ == b@),
{
    if a.len() != b.len() {
        return false;
    }
    let mut i: usize = 0;
    while i < a.len()
        invariant
            i <= a@.len(),
            a@.len() == b@.len(),
            forall|j: int| 0 <= j < i ==> a@[j] == b@[j],
        decreases a@.len() - i,
    {
        if a[i] != b[i] {
            return false;
        }
        i = i + 1;
    }
    assert(a@ =~= b@);
    true
}

/// The hash of what a spelling spells.
pub fn hash_of(words: &Vec<u64>) -> (hash: u64)
    ensures
        hash == word_hash(words@),
{
    let mut bytes: Vec<u8> = Vec::new();
    let mut i: usize = 0;
    while i < words.len()
        invariant
            i <= words@.len(),
            bytes@ == word_bytes(words@.take(i as int)),
        decreases words@.len() - i,
    {
        let mut word = u64_to_le_bytes(words[i]);
        bytes.append(&mut word);
        i = i + 1;
        assert(words@.take(i as int).drop_last() =~= words@.take(i - 1));
    }
    assert(words@.take(words@.len() as int) =~= words@);
    let mut hasher = DefaultHasher::new();
    hasher.write(bytes.as_slice());
    assert(hasher@ =~= seq![word_bytes(words@)]);
    hasher.finish()
}

/// The hash of a number.
pub fn hash_number(number: u64) -> (hash: u64)
    ensures
        hash == word_hash(seq![number]),
{
    let mut words: Vec<u64> = Vec::new();
    words.push(number);
    assert(words@ =~= seq![number]);
    hash_of(&words)
}

/// The hash of a value that is fully described by its debug output: float
/// types, rounding modes and float constants.
pub fn hash_debug(debug: &str) -> (hash: u64)
    ensures
        hash == debug_hash(debug@),
{
    let mut words: Vec<u64> = Vec::new();
    spell_text(&mut words, debug);
    assert(words@ =~= text_spelling(debug@));
    hash_of(&words)
}

pub proof fn lemma_word_le_reflexive(a: Seq<u64>)
    ensures
        word_le(a, a),
    decreases a.len(),
{
    if a.len() > 0 {
        lemma_word_le_reflexive(a.drop_first());
    }
}

pub proof fn lemma_word_le_total(a: Seq<u64>, b: Seq<u64>)
    ensures
        word_le(a, b) || word_le(b, a),
    decreases a.len(),
{
    if a.len() > 0 && b.len() > 0 && a[0] == b[0] {
        lemma_word_le_total(a.drop_first(), b.drop_first());
    }
}

pub proof fn lemma_word_le_antisymmetric(a: Seq<u64>, b: Seq<u64>)
    requires
        word_le(a, b),
        word_le(b, a),
    ensures
        a == b,
    decreases a.len(),
{
    if a.len() > 0 && b.len() > 0 {
        lemma_word_le_antisymmetric(a.drop_first(), b.drop_first());
        assert(a =~= seq![a[0]] + a.drop_first());
        assert(b =~= seq![b[0]] + b.drop_first());
    } else {
        assert(a =~= b);
    }
}

pub proof fn lemma_word_le_transitive(a: Seq<u64>, b: Seq<u64>, c: Seq<u64>)
    requires
        word_le(a, b),
        word_le(b, c),
    ensures
        word_le(a, c),
    decreases a.len(),
{
    if a.len() > 0 && b.len() > 0 && c.len() > 0 && a[0] == b[0] && b[0] == c[0] {
        lemma_word_le_transitive(a.drop_first(), b.drop_first(), c.drop_first());
    }
}

/// Spellings are totally ordered.
pub proof fn lemma_word_order_total()
    ensures
        total_ordering(word_order()),
{
    let leq = word_order();
    assert forall|a: Seq<u64>| #[trigger] leq(a, a) by {
        lemma_word_le_reflexive(a);
    }
    assert forall|a: Seq<u64>, b: Seq<u64>| #[trigger] leq(a, b) && #[trigger] leq(b, a) implies a
        == b by {
        lemma_word_le_antisymmetric(a, b);
    }
    assert forall|a: Seq<u64>, b: Seq<u64>, c: Seq<u64>| #[trigger]
        leq(a, b) && #[trigger] leq(b, c) implies leq(a, c) by {
        lemma_word_le_transitive(a, b, c);
    }
    assert forall|a: Seq<u64>, b: Seq<u64>| #[trigger] leq(a, b) || #[trigger] leq(b, a) by {
        lemma_word_le_total(a, b);
    }
}

} // verus!
