//! The page of the viewer, made of its template.

use vstd::prelude::*;

verus! {

/// Whether `text` begins with `start`.
pub open spec fn begins_with(text: Seq<char>, start: Seq<char>) -> bool {
    start.len() <= text.len() && text.take(start.len() as int) == start
}

/// `text` with `to` in place of every `from`, the places taken from the left and none twice.
pub open spec fn replaced(text: Seq<char>, from: Seq<char>, to: Seq<char>) -> Seq<char>
    decreases text.len(),
{
    if from.len() == 0 || text.len() < from.len() {
        text
    } else if begins_with(text, from) {
        to + replaced(text.skip(from.len() as int), from, to)
    } else {
        seq![text[0]] + replaced(text.skip(1), from, to)
    }
}

/// `str::replace` with a text as the pattern: `text` with `to` in place of every match of
/// `from`, where `from` is not empty. The matches are found from the left and do not overlap.
#[verifier::external_body]
fn replace(text: &str, from: &str, to: &str) -> (out: String)
    requires
        from@.len() > 0,
    ensures
        out@ == replaced(text@, from@, to@),
{
    text.replace(from, to)
}

/// The place in the template where the address of the script goes.
pub open spec fn source_mark() -> Seq<char> {
    "{{source}}"@
}

/// The page: `template` with the address `source` of the script at every place marked for it.
pub fn index_page(template: &str, source: &str) -> (page: String)
    ensures
        page@ == replaced(template@, source_mark(), source@),
{
    proof {
        reveal_strlit("{{source}}");
    }
    replace(template, "{{source}}", source)
}

} // verus!
