//! The types of the parts of a presentation.

use vstd::prelude::*;

use crate::pptx::parts;
use crate::text;

verus! {

proof fn lemma_holds(a: Seq<char>, s: Seq<char>, b: Seq<char>, word: Seq<char>)
    requires
        text::holds(s, word),
    ensures
        text::holds(a + s + b, word),
{
    let i = choose|i: int| #[trigger] text::stands_at(s, i, word);
    assert((a + s + b).subrange(a.len() + i, a.len() + i + word.len()) =~= s.subrange(
        i,
        i + word.len(),
    ));
    assert(text::stands_at(a + s + b, a.len() + i, word));
}

proof fn lemma_itself(word: Seq<char>)
    ensures
        text::holds(word, word),
{
    assert(word.subrange(0, word.len() as int) =~= word);
    assert(text::stands_at(word, 0, word));
}

/// The entry of a slide.
pub open spec fn slide_type(number: nat) -> Seq<char> {
    "<Override PartName=\"/ppt/slides/slide"@ + text::number(number)
        + ".xml\" ContentType=\"application/vnd.openxmlformats-officedocument.presentationml.slide+xml\"/>"@
}

proof fn lemma_slide_type(n: int, k: int)
    requires
        0 < k <= n,
    ensures
        text::holds(parts::slide_types(n), slide_type(k as nat)),
    decreases n,
{
    let before = parts::slide_types(n - 1);
    let last = slide_type(n as nat);
    let none = Seq::<char>::empty();
    assert(parts::slide_types(n) =~= before + last + none);
    if k < n {
        lemma_slide_type(n - 1, k);
        assert(parts::slide_types(n) =~= none + before + last);
        lemma_holds(none, before, last, slide_type(k as nat));
    } else {
        lemma_itself(last);
        lemma_holds(before, last, none, last);
    }
}

/// The list of types names every slide as a slide, and the types of images that
/// there are.
pub proof fn law_types_name_every_slide(png: bool, jpg: bool, count: int, k: int)
    ensures
        0 < k <= count ==> text::holds(
            parts::types_text(png, jpg, count),
            slide_type(k as nat),
        ),
        png ==> text::holds(
            parts::types_text(png, jpg, count),
            "<Default Extension=\"png\" ContentType=\"image/png\"/>"@,
        ),
        jpg ==> text::holds(
            parts::types_text(png, jpg, count),
            "<Default Extension=\"jpg\" ContentType=\"image/jpeg\"/>"@,
        ),
{
    reveal(parts::types_text);
    let none = Seq::<char>::empty();
    let first = parts::TYPES_START@;
    let one = if png {
        parts::TYPES_PNG@
    } else {
        none
    };
    let two = if jpg {
        parts::TYPES_JPG@
    } else {
        none
    };
    let slides = parts::slide_types(count);
    let end = "</Types>"@;
    let all = parts::types_text(png, jpg, count);
    if 0 < k <= count {
        lemma_slide_type(count, k);
        assert(all =~= (first + one + two + parts::TYPES_PARTS@) + slides + end);
        lemma_holds(first + one + two + parts::TYPES_PARTS@, slides, end, slide_type(k as nat));
    }
    if png {
        lemma_itself(one);
        assert(all =~= first + one + (two + parts::TYPES_PARTS@ + slides + end));
        lemma_holds(first, one, two + parts::TYPES_PARTS@ + slides + end, one);
    }
    if jpg {
        lemma_itself(two);
        assert(all =~= (first + one) + two + (parts::TYPES_PARTS@ + slides + end));
        lemma_holds(first + one, two, parts::TYPES_PARTS@ + slides + end, two);
    }
}

} // verus!
