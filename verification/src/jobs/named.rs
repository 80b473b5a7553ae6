//! How outputs are named.

use vstd::prelude::*;

use crate::bytes;
use crate::jobs::finalize;
use crate::render::named;
use crate::render::named::{is_number, is_page_number};
use crate::text;

verus! {

/// `name` is `stem`, with the number of the attempt in brackets from the second
/// attempt on.
pub open spec fn is_stem(name: Seq<char>, stem: Seq<char>, attempt: int) -> bool {
    if attempt == 0 {
        name == stem
    } else {
        exists|digits: Seq<char>| #[trigger]
            is_number(digits, attempt) && name == stem + seq![' ', '('] + digits + seq![')']
    }
}

/// `name` is that of an output behind its stem: a dash and the number of the page
/// where there are several, a point, and the extension.
pub open spec fn is_output(
    name: Seq<char>,
    stem: Seq<char>,
    extension: Seq<char>,
    count: int,
    page: int,
) -> bool {
    if count == 1 {
        name == stem + seq!['.'] + extension
    } else {
        exists|digits: Seq<char>| #[trigger]
            is_page_number(digits, page + 1) && name == stem + seq!['-'] + digits + seq!['.']
                + extension
    }
}

/// An output is named after its input, with the number of the attempt and of the
/// page where they tell outputs apart.
pub proof fn law_outputs_are_named_after_their_input(
    stem: Seq<char>,
    extension: Seq<char>,
    count: int,
    attempt: int,
    page: int,
)
    requires
        0 <= attempt,
        0 <= page,
    ensures
        exists|start: Seq<char>| #[trigger]
            is_stem(start, stem, attempt) && is_output(
                finalize::output_name(stem, extension, count, attempt, page),
                start,
                extension,
                count,
                page,
            ),
{
    reveal_strlit(" (");
    reveal_strlit(")");
    reveal_strlit("-");
    reveal_strlit(".");
    assert(" ("@ =~= seq![' ', '(']);
    assert(")"@ =~= seq![')']);
    assert("-"@ =~= seq!['-']);
    assert("."@ =~= seq!['.']);
    let start = finalize::numbered(stem, attempt);
    named::lemma_number(attempt as nat);
    named::lemma_page_number((page + 1) as nat);
    let digits = text::ascii(bytes::padded((page + 1) as nat, 3));
    assert(is_stem(start, stem, attempt)) by {
        if attempt > 0 {
            assert(is_number(text::number(attempt as nat), attempt));
        }
    }
    assert(is_page_number(digits, page + 1));
    assert(is_output(
        finalize::output_name(stem, extension, count, attempt, page),
        start,
        extension,
        count,
        page,
    ));
}

} // verus!
