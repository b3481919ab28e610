//! Searching a list of tags for one text.

use crate::merge::texts;
use vstd::prelude::*;

verus! {

/// `at` is the first position of `tags` that holds `target`.
pub open spec fn first_match_at(tags: Seq<Seq<char>>, target: Seq<char>, at: int) -> bool {
    &&& 0 <= at < tags.len()
    &&& tags[at] == target
    &&& forall|j: int| 0 <= j < at ==> tags[j] != target
}

/// The first position of `tags` that holds `target`, if any does.
pub open spec fn first_match(tags: Seq<Seq<char>>, target: Seq<char>) -> Option<int> {
    if exists|at: int| first_match_at(tags, target, at) {
        Some(choose|at: int| first_match_at(tags, target, at))
    } else {
        None
    }
}

/// There is at most one first position, so a first position is the result
/// of the search.
pub proof fn lemma_first_match_at(tags: Seq<Seq<char>>, target: Seq<char>, at: int)
    requires
        first_match_at(tags, target, at),
    ensures
        first_match(tags, target) == Some(at),
{
    let chosen = choose|at: int| first_match_at(tags, target, at);
    if chosen < at {
        assert(tags[chosen] != target);
    }
    if at < chosen {
        assert(tags[at] != target);
    }
}

/// The total number of bytes of the texts, each in UTF-8.
pub open spec fn byte_total(tags: Seq<Seq<char>>) -> nat
    decreases tags.len(),
{
    if tags.len() == 0 {
        0
    } else {
        byte_total(tags.drop_last()) + vstd::utf8::encode_utf8(tags.last()).len()
    }
}

/// The total of a shorter list is no more than that of the whole list.
pub proof fn lemma_byte_total_take(tags: Seq<Seq<char>>, count: int)
    requires
        0 <= count <= tags.len(),
    ensures
        byte_total(tags.take(count)) <= byte_total(tags),
    decreases tags.len() - count,
{
    if count < tags.len() {
        lemma_byte_total_take(tags, count + 1);
        assert(tags.take(count + 1).drop_last() =~= tags.take(count));
    } else {
        assert(tags.take(count) =~= tags);
    }
}

/// Searches for `target` in the slice of tags, returning the index if found.
pub fn find_text(tags: &[String], target: &str) -> (found: Option<usize>)
    ensures
        match found {
            Some(at) => first_match(texts(tags@), target@) == Some(at as int),
            None => first_match(texts(tags@), target@) is None,
        },
        found matches Some(at) ==> first_match_at(texts(tags@), target@, at as int),
        found is None ==> forall|j: int| 0 <= j < tags@.len() ==> tags@[j]@ != target@,
{
    let wanted: String = target.to_owned();
    let mut at: usize = 0;
    while at < tags.len()
        invariant
            at <= tags@.len(),
            wanted@ == target@,
            forall|j: int| 0 <= j < at ==> texts(tags@)[j] != target@,
        decreases tags@.len() - at,
    {
        if tags[at] == wanted {
            proof {
                lemma_first_match_at(texts(tags@), target@, at as int);
            }
            return Some(at);
        }
        at = at + 1;
    }
    proof {
        assert forall|j: int| 0 <= j < tags@.len() implies tags@[j]@ != target@ by {
            assert(texts(tags@)[j] != target@);
        }
    }
    None
}

/// The number of bytes that one pass over the tags reads.
pub fn total_bytes(tags: &[String]) -> (total: usize)
    requires
        byte_total(texts(tags@)) <= usize::MAX,
    ensures
        total == byte_total(texts(tags@)),
{
    let ghost all = texts(tags@);
    let mut total: usize = 0;
    let mut at: usize = 0;
    assert(all.take(0) =~= Seq::empty());
    while at < tags.len()
        invariant
            at <= tags@.len(),
            all == texts(tags@),
            byte_total(all) <= usize::MAX,
            total == byte_total(all.take(at as int)),
        decreases tags@.len() - at,
    {
        proof {
            lemma_byte_total_take(all, at + 1);
            assert(all.take(at + 1).drop_last() =~= all.take(at as int));
            assert(all.take(at + 1).last() == tags@[at as int]@);
        }
        total = total + tags[at].as_str().len();
        at = at + 1;
    }
    assert(all.take(at as int) =~= all);
    total
}

/// What `iterations` searches for `target` add up to: the found position
/// once for each search, nothing where the target is absent.
pub open spec fn search_sum(iterations: nat, tags: Seq<Seq<char>>, target: Seq<char>) -> nat {
    match first_match(tags, target) {
        Some(at) => iterations * (at as nat),
        None => 0,
    }
}

/// Searches `iterations` times for `target` and adds up the positions found.
pub fn search_repeatedly(iterations: usize, tags: &[String], target: &str) -> (sum: u64)
    requires
        search_sum(iterations as nat, texts(tags@), target@) <= usize::MAX,
    ensures
        sum == search_sum(iterations as nat, texts(tags@), target@),
{
    let mut found_acc: usize = 0;
    let mut round: usize = 0;
    while round < iterations
        invariant
            round <= iterations,
            search_sum(iterations as nat, texts(tags@), target@) <= usize::MAX,
            found_acc == search_sum(round as nat, texts(tags@), target@),
        decreases iterations - round,
    {
        if let Some(index) = find_text(tags, target) {
            assert((round + 1) * index == round * index + index) by (nonlinear_arith);
            assert((round + 1) * index <= iterations * index) by (nonlinear_arith)
                requires
                    round + 1 <= iterations,
                    index >= 0,
            ;
            found_acc = found_acc + index;
        }
        round = round + 1;
    }
    found_acc as u64
}

} // verus!
