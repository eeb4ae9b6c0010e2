//! The random choices of the generator and the case folding of its input,
//! which come from outside this library and are taken on trust.

use vstd::prelude::*;
use rand::Rng;
use rand::seq::SliceRandom;

verus! {

/// What `str::to_lowercase` makes of a text.
pub uninterp spec fn lowercase_of(text: Seq<char>) -> Seq<char>;

/// Calls `str::to_lowercase` on the characters of `text`. Nothing is claimed
/// of the outcome beyond that it depends on `text` alone.
#[verifier::external_body]
pub(crate) fn lowercase(text: &Vec<char>) -> (lowered: Vec<char>)
    ensures
        lowered@ == lowercase_of(text@),
{
    let joined: String = text.iter().collect();
    joined.to_lowercase().chars().collect()
}

/// Calls `rand::seq::SliceRandom::choose` on `lines` with the thread's
/// generator. An empty slice gives nothing; otherwise the outcome is one of
/// the elements.
#[verifier::external_body]
pub(crate) fn choose_line(lines: &Vec<Vec<char>>) -> (pick: Option<&Vec<char>>)
    ensures
        match pick {
            Some(line) => exists|i: int| 0 <= i < lines@.len() && #[trigger] lines@[i]@ == line@,
            None => lines@.len() == 0,
        },
{
    lines.choose(&mut rand::thread_rng())
}

/// Calls `rand::Rng::gen_range` on the thread's generator with the range
/// `0..bound`. The range must not be empty; the outcome lies in it.
#[verifier::external_body]
pub(crate) fn random_below(bound: usize) -> (r: usize)
    requires
        bound > 0,
    ensures
        r < bound,
{
    rand::thread_rng().gen_range(0..bound)
}

/// Calls `rand::seq::SliceRandom::shuffle` on `items` with the thread's
/// generator. The call swaps elements in place, so the same elements are
/// there afterwards, each as often as before, in some order.
#[verifier::external_body]
pub(crate) fn shuffle(items: &mut Vec<usize>)
    ensures
        final(items)@.to_multiset() == old(items)@.to_multiset(),
{
    items.shuffle(&mut rand::thread_rng());
}

} // verus!
