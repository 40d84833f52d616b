//! Building and joining strings.
use vstd::prelude::*;

verus! {

/// `String::push` appends one character to the end of the string (std
/// documentation: "Appends the given char to the end of this String").
pub assume_specification[ std::string::String::push ](s: &mut std::string::String, ch: char)
    ensures
        final(s)@ == old(s)@.push(ch),
;

/// `items` joined by `sep`.
pub open spec fn join(items: Seq<Seq<char>>, sep: Seq<char>) -> Seq<char>
    decreases items.len(),
{
    if items.len() == 0 {
        Seq::empty()
    } else if items.len() == 1 {
        items[0]
    } else {
        join(items.drop_last(), sep) + sep + items.last()
    }
}

/// Joining one more item.
pub proof fn lemma_join_step(items: Seq<Seq<char>>, i: int, sep: Seq<char>)
    requires
        0 <= i < items.len(),
    ensures
        join(items.take(i + 1), sep) == if i == 0 {
            items[0]
        } else {
            join(items.take(i), sep) + sep + items[i]
        },
{
    assert(items.take(i + 1).drop_last() =~= items.take(i));
}

} // verus!
