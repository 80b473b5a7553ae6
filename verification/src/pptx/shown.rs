//! What a presentation shows, as a reader of its parts finds it.

use vstd::prelude::*;
use vstd::utf8::*;

use crate::archive;
use crate::bytes;
use crate::look;
use crate::look::{before, behind, clear};
use crate::pptx::image_file::ImageInput;
use crate::pptx::package;
use crate::pptx::package::SlideImage;
use crate::pptx::parts;
use crate::pptx::parts::{Canvas, Placement, SlideImageFormat};
use crate::pptx::PptxError;
use crate::text;

verus! {

/// What stands before the next quotation mark.
pub open spec fn quoted(s: Seq<char>) -> Seq<char> {
    before(s, seq!['"'])
}

/// What follows the `k`-th occurrence of a key, counted from zero.
pub open spec fn nth(s: Seq<char>, key: Seq<char>, k: int) -> Seq<char>
    decreases k,
{
    if k <= 0 {
        behind(s, key)
    } else {
        behind(nth(s, key, k - 1), key)
    }
}

/// The name of the `k`-th of a list of relations.
pub open spec fn relation_id(relations: Seq<char>, k: int) -> Seq<char> {
    quoted(nth(relations, "Id=\""@, k))
}

/// What the `k`-th of a list of relations leads to.
pub open spec fn relation_target(relations: Seq<char>, k: int) -> Seq<char> {
    quoted(behind(nth(relations, "Id=\""@, k), "Target=\""@))
}

/// What the first relation with a name leads to, from the `k`-th on.
pub open spec fn target_from(relations: Seq<char>, id: Seq<char>, k: int) -> Option<Seq<char>>
    decreases relations.len() - k,
{
    if k >= relations.len() {
        None
    } else if relation_id(relations, k) == id {
        Some(relation_target(relations, k))
    } else {
        target_from(relations, id, k + 1)
    }
}

/// The name of the relation of the `k`-th slide in a list of slides.
pub open spec fn slide_relation(presentation: Seq<char>, k: int) -> Seq<char> {
    quoted(
        nth(
            behind(presentation, "\"/></p:sldMasterIdLst><p:sldIdLst>"@),
            "r:id=\""@,
            k,
        ),
    )
}

spec fn lacks_quote(s: Seq<char>) -> bool {
    forall|i: int| 0 <= i < s.len() ==> #[trigger] s[i] != '"'
}

proof fn lemma_quoted(s: Seq<char>, rest: Seq<char>)
    requires
        lacks_quote(s),
    ensures
        quoted(s + seq!['"'] + rest) == s,
{
    look::lemma_before(s, '"', rest);
}

spec fn is_digits(s: Seq<char>) -> bool {
    forall|i: int| 0 <= i < s.len() ==> '0' <= #[trigger] s[i] <= '9'
}

proof fn lemma_number(n: nat)
    ensures
        is_digits(text::number(n)),
        text::number(n).len() > 0,
{
    bytes::law_decimal_round_trip(n);
    let s = text::number(n);
    assert forall|i: int| 0 <= i < s.len() implies '0' <= #[trigger] s[i] <= '9' by {
        assert(s[i] == bytes::decimal(n)[i] as char);
    }
}

proof fn lemma_numbers_differ(a: nat, b: nat)
    requires
        text::number(a) == text::number(b),
    ensures
        a == b,
{
    bytes::law_decimal_round_trip(a);
    bytes::law_decimal_round_trip(b);
    let x = bytes::decimal(a);
    let y = bytes::decimal(b);
    assert(text::number(a).len() == x.len() && text::number(b).len() == y.len());
    assert forall|i: int| 0 <= i < x.len() implies x[i] == y[i] by {
        assert(text::number(a)[i] == x[i] as char);
        assert(text::number(b)[i] == y[i] as char);
    }
    assert(x =~= y);
}

proof fn lemma_clear_number(s: Seq<char>, key: Seq<char>)
    requires
        is_digits(s),
        key[0] < '0' || key[0] > '9',
    ensures
        clear(s, key),
{
    reveal(look::clear);
}

/// The relation to a slide, behind the name of its first attribute.
spec fn relation_rest(i: int) -> Seq<char> {
    "rId"@ + text::number((i + 2) as nat) + "\" Type=\"http://schemas.openxmlformats.org/officeDocument/2006/relationships/slide\" "@ + "Target=\""@ + "slides/slide"@ + text::number(
        (i + 1) as nat,
    ) + ".xml\"/>"@
}

/// The relations to the slides from `i` up to `n`.
spec fn relations_between(i: int, n: int) -> Seq<char>
    decreases n - i,
{
    if i >= n {
        Seq::empty()
    } else {
        "<Relationship "@ + "Id=\""@ + relation_rest(i) + relations_between(i + 1, n)
    }
}

proof fn lemma_relation(n: int)
    requires
        n > 0,
    ensures
        parts::slide_relations(n) == parts::slide_relations(n - 1) + ("<Relationship "@ + "Id=\""@
            + relation_rest(n - 1)),
{
    let a = text::number((n + 1) as nat);
    let b = text::number(n as nat);
    assert("<Relationship Id=\"rId"@ == "<Relationship "@ + "Id=\""@ + "rId"@) by {
        reveal_strlit("<Relationship Id=\"rId");
        reveal_strlit("<Relationship ");
        reveal_strlit("Id=\"");
        reveal_strlit("rId");
        assert("<Relationship Id=\"rId"@ =~= "<Relationship "@ + "Id=\""@ + "rId"@);
    }
    assert(parts::RELATION_SLIDE@ == "\" Type=\"http://schemas.openxmlformats.org/officeDocument/2006/relationships/slide\" "@ + "Target=\""@ + "slides/slide"@) by {
        reveal_strlit("\" Type=\"http://schemas.openxmlformats.org/officeDocument/2006/relationships/slide\" Target=\"slides/slide");
        reveal_strlit("\" Type=\"http://schemas.openxmlformats.org/officeDocument/2006/relationships/slide\" ");
        reveal_strlit("Target=\"");
        reveal_strlit("slides/slide");
        assert(parts::RELATION_SLIDE@ =~= "\" Type=\"http://schemas.openxmlformats.org/officeDocument/2006/relationships/slide\" "@ + "Target=\""@ + "slides/slide"@);
    }
    let before = parts::slide_relations(n - 1);
    assert(parts::slide_relations(n) =~= before + ("<Relationship "@ + "Id=\""@ + relation_rest(
        n - 1,
    )));
}

proof fn lemma_relations_between(i: int, n: int)
    requires
        0 <= i <= n,
    ensures
        parts::slide_relations(n) == parts::slide_relations(i) + relations_between(i, n),
    decreases n - i,
{
    if i < n {
        lemma_relations_between(i + 1, n);
        lemma_relation(i + 1);
    }
    assert(parts::slide_relations(n) =~= parts::slide_relations(i) + relations_between(i, n));
}

proof fn lemma_relation_words()
    ensures
        clear("<Relationship "@, "Id=\""@),
        clear("\" Type=\"http://schemas.openxmlformats.org/officeDocument/2006/relationships/slide\" "@, "Id=\""@),
        clear("Target=\""@, "Id=\""@),
        clear("slides/slide"@, "Id=\""@),
        clear(".xml\"/>"@, "Id=\""@),
        clear("rId"@, "Target=\""@),
        clear("\" Type=\"http://schemas.openxmlformats.org/officeDocument/2006/relationships/slide\" "@, "Target=\""@),
        "Id=\""@.len() == 4 && "Id=\""@[0] == 'I',
        "Target=\""@.len() == 8 && "Target=\""@[0] == 'T',
        "\" Type=\"http://schemas.openxmlformats.org/officeDocument/2006/relationships/slide\" "@ == seq!['"'] + "\" Type=\"http://schemas.openxmlformats.org/officeDocument/2006/relationships/slide\" "@.skip(1),
        ".xml\"/>"@ == ".xml"@ + seq!['"'] + "/>"@,
        lacks_quote("rId"@) && lacks_quote("slides/slide"@) && lacks_quote(".xml"@),
{
    assert(clear("<Relationship "@, "Id=\""@)) by {
        reveal(look::clear);
        reveal_strlit("<Relationship ");
        reveal_strlit("Id=\"");
    }
    assert(clear("\" Type=\"http://schemas.openxmlformats.org/officeDocument/2006/relationships/slide\" "@, "Id=\""@)) by {
        reveal(look::clear);
        reveal_strlit("\" Type=\"http://schemas.openxmlformats.org/officeDocument/2006/relationships/slide\" ");
        reveal_strlit("Id=\"");
    }
    assert(clear("Target=\""@, "Id=\""@)) by {
        reveal(look::clear);
        reveal_strlit("Target=\"");
        reveal_strlit("Id=\"");
    }
    assert(clear("slides/slide"@, "Id=\""@)) by {
        reveal(look::clear);
        reveal_strlit("slides/slide");
        reveal_strlit("Id=\"");
    }
    assert(clear(".xml\"/>"@, "Id=\""@)) by {
        reveal(look::clear);
        reveal_strlit(".xml\"/>");
        reveal_strlit("Id=\"");
    }
    assert(clear("rId"@, "Target=\""@)) by {
        reveal(look::clear);
        reveal_strlit("rId");
        reveal_strlit("Target=\"");
    }
    assert(clear("\" Type=\"http://schemas.openxmlformats.org/officeDocument/2006/relationships/slide\" "@, "Target=\""@)) by {
        reveal(look::clear);
        reveal_strlit("\" Type=\"http://schemas.openxmlformats.org/officeDocument/2006/relationships/slide\" ");
        reveal_strlit("Target=\"");
    }
    assert("\" Type=\"http://schemas.openxmlformats.org/officeDocument/2006/relationships/slide\" "@ =~= seq!['"'] + "\" Type=\"http://schemas.openxmlformats.org/officeDocument/2006/relationships/slide\" "@.skip(1)) by {
        reveal_strlit("\" Type=\"http://schemas.openxmlformats.org/officeDocument/2006/relationships/slide\" ");
    }
    reveal_strlit("Id=\"");
    reveal_strlit("Target=\"");
    assert(".xml\"/>"@ =~= ".xml"@ + seq!['"'] + "/>"@) by {
        reveal_strlit(".xml\"/>");
        reveal_strlit(".xml");
        reveal_strlit("/>");
    }
    reveal_strlit("rId");
    reveal_strlit("slides/slide");
    reveal_strlit(".xml");
}

proof fn lemma_clear_name(digits: Seq<char>)
    requires
        is_digits(digits),
        digits.len() > 0,
    ensures
        clear("rId"@ + digits, "Id=\""@),
{
    reveal(look::clear);
    reveal_strlit("rId");
    reveal_strlit("Id=\"");
    let s = "rId"@ + digits;
    assert forall|i: int| 0 <= i < s.len() && #[trigger] s[i] == 'I' implies i + 2 < s.len() && s[i
        + 2] != '=' by {
        if i >= 3 {
            assert(s[i] == digits[i - 3]);
        }
        assert(s[3] == digits[0]);
    }
}

/// The parts of a relation to a slide, in which no other one begins.
proof fn lemma_relation_rest(i: int, rest: Seq<char>)
    requires
        i >= 0,
    ensures
        clear(relation_rest(i), "Id=\""@),
        quoted(relation_rest(i) + rest) == "rId"@ + text::number((i + 2) as nat),
        quoted(behind(relation_rest(i) + rest, "Target=\""@)) == "slides/slide"@ + text::number(
            (i + 1) as nat,
        ) + ".xml"@,
{
    lemma_relation_words();
    let key = "Id=\""@;
    let a = text::number((i + 2) as nat);
    let b = text::number((i + 1) as nat);
    lemma_number((i + 2) as nat);
    lemma_number((i + 1) as nat);
    lemma_clear_name(a);
    lemma_clear_number(b, key);
    let name = "rId"@ + a;
    let kind = "\" Type=\"http://schemas.openxmlformats.org/officeDocument/2006/relationships/slide\" "@;
    let t = "Target=\""@;
    let s = "slides/slide"@;
    let e = ".xml\"/>"@;
    look::lemma_clear(name, kind, key);
    look::lemma_clear(name + kind, t, key);
    look::lemma_clear(name + kind + t, s, key);
    look::lemma_clear(name + kind + t + s, b, key);
    look::lemma_clear(name + kind + t + s + b, e, key);
    lemma_quoted(name, kind.skip(1) + t + s + b + e + rest);
    assert(relation_rest(i) + rest =~= name + seq!['"'] + (kind.skip(1) + t + s + b + e + rest));
    lemma_clear_number(a, t);
    look::lemma_clear("rId"@, a, t);
    look::lemma_clear(name, kind, t);
    assert(relation_rest(i) + rest =~= (name + kind) + t + (s + b + e + rest));
    look::lemma_behind(name + kind, t, s + b + e + rest);
    let path = s + b + ".xml"@;
    assert(lacks_quote(path));
    assert(s + b + e + rest =~= path + seq!['"'] + ("/>"@ + rest));
    lemma_quoted(path, "/>"@ + rest);
}

proof fn lemma_relations_head()
    ensures
        parts::RELATIONS_START@ == "<?xml version=\"1.0\" encoding=\"UTF-8\" standalone=\"yes\"?><Relationships xmlns=\"http://schemas.openxmlformats.org/package/2006/relationships\"><Relationship "@ + "Id=\""@ + ("rId1\" Type=\"http://schemas.openxmlformats.org/officeDocument/2006/relationships/slideMaster\" "@ + "Target=\""@ + "slideMasters/slideMaster1.xml\"/>"@),
        clear("<?xml version=\"1.0\" encoding=\"UTF-8\" standalone=\"yes\"?><Relationships xmlns=\"http://schemas.openxmlformats.org/package/2006/relationships\"><Relationship "@, "Id=\""@),
        clear("rId1\" Type=\"http://schemas.openxmlformats.org/officeDocument/2006/relationships/slideMaster\" "@ + "Target=\""@ + "slideMasters/slideMaster1.xml\"/>"@, "Id=\""@),
        forall|rest: Seq<char>|
            #[trigger] quoted("rId1\" Type=\"http://schemas.openxmlformats.org/officeDocument/2006/relationships/slideMaster\" "@ + "Target=\""@ + "slideMasters/slideMaster1.xml\"/>"@ + rest) == "rId1"@,
{
    assert(parts::RELATIONS_START@ == "<?xml version=\"1.0\" encoding=\"UTF-8\" standalone=\"yes\"?><Relationships xmlns=\"http://schemas.openxmlformats.org/package/2006/relationships\"><Relationship "@ + "Id=\""@ + "rId1\" Type=\"http://schemas.openxmlformats.org/officeDocument/2006/relationships/slideMaster\" "@ + "Target=\""@ + "slideMasters/slideMaster1.xml\"/>"@) by {
        reveal_strlit("<?xml version=\"1.0\" encoding=\"UTF-8\" standalone=\"yes\"?><Relationships xmlns=\"http://schemas.openxmlformats.org/package/2006/relationships\"><Relationship Id=\"rId1\" Type=\"http://schemas.openxmlformats.org/officeDocument/2006/relationships/slideMaster\" Target=\"slideMasters/slideMaster1.xml\"/>");
        reveal_strlit("<?xml version=\"1.0\" encoding=\"UTF-8\" standalone=\"yes\"?><Relationships xmlns=\"http://schemas.openxmlformats.org/package/2006/relationships\"><Relationship ");
        reveal_strlit("Id=\"");
        reveal_strlit("rId1\" Type=\"http://schemas.openxmlformats.org/officeDocument/2006/relationships/slideMaster\" ");
        reveal_strlit("Target=\"");
        reveal_strlit("slideMasters/slideMaster1.xml\"/>");
        assert(parts::RELATIONS_START@ =~= "<?xml version=\"1.0\" encoding=\"UTF-8\" standalone=\"yes\"?><Relationships xmlns=\"http://schemas.openxmlformats.org/package/2006/relationships\"><Relationship "@ + "Id=\""@ + "rId1\" Type=\"http://schemas.openxmlformats.org/officeDocument/2006/relationships/slideMaster\" "@ + "Target=\""@ + "slideMasters/slideMaster1.xml\"/>"@);
    }
    assert(clear("<?xml version=\"1.0\" encoding=\"UTF-8\" standalone=\"yes\"?><Relationships xmlns=\"http://schemas.openxmlformats.org/package/2006/relationships\"><Relationship "@, "Id=\""@)) by {
        reveal(look::clear);
        reveal_strlit("<?xml version=\"1.0\" encoding=\"UTF-8\" standalone=\"yes\"?><Relationships xmlns=\"http://schemas.openxmlformats.org/package/2006/relationships\"><Relationship ");
        reveal_strlit("Id=\"");
    }
    assert(clear("rId1\" Type=\"http://schemas.openxmlformats.org/officeDocument/2006/relationships/slideMaster\" "@, "Id=\""@)) by {
        reveal(look::clear);
        reveal_strlit("rId1\" Type=\"http://schemas.openxmlformats.org/officeDocument/2006/relationships/slideMaster\" ");
        reveal_strlit("Id=\"");
    }
    assert(clear("slideMasters/slideMaster1.xml\"/>"@, "Id=\""@)) by {
        reveal(look::clear);
        reveal_strlit("slideMasters/slideMaster1.xml\"/>");
        reveal_strlit("Id=\"");
    }
    lemma_relation_words();
    let a = "<?xml version=\"1.0\" encoding=\"UTF-8\" standalone=\"yes\"?><Relationships xmlns=\"http://schemas.openxmlformats.org/package/2006/relationships\"><Relationship "@;
    let b = "rId1\" Type=\"http://schemas.openxmlformats.org/officeDocument/2006/relationships/slideMaster\" "@;
    let t = "Target=\""@;
    let c = "slideMasters/slideMaster1.xml\"/>"@;
    look::lemma_clear(b, t, "Id=\""@);
    look::lemma_clear(b + t, c, "Id=\""@);
    assert(a + "Id=\""@ + b + t + c =~= a + "Id=\""@ + (b + t + c));
    assert("rId1"@ + seq!['"'] + b.skip(5) =~= b && lacks_quote("rId1"@)) by {
        reveal_strlit("rId1");
        reveal_strlit("rId1\" Type=\"http://schemas.openxmlformats.org/officeDocument/2006/relationships/slideMaster\" ");
    }
    assert forall|rest: Seq<char>| #[trigger] quoted(b + t + c + rest) == "rId1"@ by {
        lemma_quoted("rId1"@, b.skip(5) + t + c + rest);
        assert(b + t + c + rest =~= "rId1"@ + seq!['"'] + (b.skip(5) + t + c + rest));
    }
}

/// What stands behind the names of the relations of a presentation.
#[verifier::rlimit(40)]
#[verifier::spinoff_prover]
proof fn lemma_nth_relation(count: int, k: int)
    requires
        0 <= k <= count,
    ensures
        ({
            let rest = relations_between(k, count) + "</Relationships>"@;
            let found = nth(parts::relations_text(count), "Id=\""@, k);
            if k == 0 {
                found == "rId1\" Type=\"http://schemas.openxmlformats.org/officeDocument/2006/relationships/slideMaster\" "@ + "Target=\""@ + "slideMasters/slideMaster1.xml\"/>"@ + rest
            } else {
                found == relation_rest(k - 1) + rest
            }
        }),
    decreases k,
{
    reveal(parts::relations_text);
    lemma_relations_head();
    lemma_relation_words();
    let key = "Id=\""@;
    let end = "</Relationships>"@;
    let head = "<?xml version=\"1.0\" encoding=\"UTF-8\" standalone=\"yes\"?><Relationships xmlns=\"http://schemas.openxmlformats.org/package/2006/relationships\"><Relationship "@;
    let first = "rId1\" Type=\"http://schemas.openxmlformats.org/officeDocument/2006/relationships/slideMaster\" "@ + "Target=\""@ + "slideMasters/slideMaster1.xml\"/>"@;
    if k == 0 {
        lemma_relations_between(0, count);
        let rest = relations_between(0, count) + end;
        assert(parts::slide_relations(count) =~= relations_between(0, count));
        assert(parts::relations_text(count) =~= head + key + (first + rest));
        look::lemma_behind(head, key, first + rest);
    } else {
        lemma_nth_relation(count, k - 1);
        let rest = relations_between(k, count) + end;
        let earlier = if k == 1 {
            first
        } else {
            relation_rest(k - 2)
        };
        if k > 1 {
            lemma_relation_rest(k - 2, Seq::empty());
        }
        let opening = "<Relationship "@;
        look::lemma_clear(earlier, opening, key);
        assert(earlier + (relations_between(k - 1, count) + end) =~= (earlier + opening) + key + (
        relation_rest(k - 1) + rest));
        look::lemma_behind(earlier + opening, key, relation_rest(k - 1) + rest);
    }
}

proof fn lemma_relations_are_many(n: int)
    ensures
        n >= 0 ==> parts::slide_relations(n).len() >= n,
    decreases n,
{
    if n > 0 {
        lemma_relations_are_many(n - 1);
        lemma_number(n as nat);
    }
}

/// The relation with the name of a slide leads to the part of that slide.
proof fn lemma_target(count: int, k: int, j: int)
    requires
        0 < k <= count,
        0 <= j <= k,
    ensures
        target_from(
            parts::relations_text(count),
            "rId"@ + text::number((k + 1) as nat),
            j,
        ) == Some("slides/slide"@ + text::number(k as nat) + ".xml"@),
    decreases k - j,
{
    let relations = parts::relations_text(count);
    let rest = relations_between(j, count) + "</Relationships>"@;
    let id = "rId"@ + text::number((k + 1) as nat);
    lemma_relations_are_many(count);
    assert(relations.len() > count) by {
        reveal(parts::relations_text);
        reveal_strlit("</Relationships>");
    }
    lemma_nth_relation(count, j);
    if j == 0 {
        lemma_relations_head();
        assert(relation_id(relations, 0) == "rId1"@);
        if id == "rId1"@ {
            assert(id.skip(3) =~= text::number((k + 1) as nat)) by {
                reveal_strlit("rId");
            }
            assert("rId1"@.skip(3) =~= text::number(1)) by {
                reveal_strlit("rId1");
                assert(text::number(1) =~= seq!['1']);
            }
            lemma_numbers_differ((k + 1) as nat, 1);
        }
        lemma_target(count, k, 1);
    } else {
        lemma_relation_rest(j - 1, rest);
        if j < k {
            let other = "rId"@ + text::number((j + 1) as nat);
            if id == other {
                assert(id.skip(3) =~= text::number((k + 1) as nat) && other.skip(3)
                    =~= text::number((j + 1) as nat)) by {
                    reveal_strlit("rId");
                }
                lemma_numbers_differ((k + 1) as nat, (j + 1) as nat);
            }
            lemma_target(count, k, j + 1);
        }
    }
}

/// The entry of a slide in the list of slides, behind the name of its relation.
spec fn id_rest(i: int) -> Seq<char> {
    "rId"@ + text::number((i + 2) as nat) + "\"/>"@
}

spec fn id_start(i: int) -> Seq<char> {
    "<p:sldId id=\""@ + text::number((i + 256) as nat) + "\" "@
}

/// The entries of the slides from `i` up to `n`.
spec fn ids_between(i: int, n: int) -> Seq<char>
    decreases n - i,
{
    if i >= n {
        Seq::empty()
    } else {
        id_start(i) + "r:id=\""@ + id_rest(i) + ids_between(i + 1, n)
    }
}

proof fn lemma_ids_between(i: int, n: int)
    requires
        0 <= i <= n,
    ensures
        parts::slide_ids(n) == parts::slide_ids(i) + ids_between(i, n),
    decreases n - i,
{
    if i < n {
        lemma_ids_between(i + 1, n);
        assert("\" r:id=\"rId"@ == "\" "@ + "r:id=\""@ + "rId"@) by {
            reveal_strlit("\" r:id=\"rId");
            reveal_strlit("\" ");
            reveal_strlit("r:id=\"");
            reveal_strlit("rId");
            assert("\" r:id=\"rId"@ =~= "\" "@ + "r:id=\""@ + "rId"@);
        }
        assert(parts::slide_ids(i + 1) =~= parts::slide_ids(i) + (id_start(i) + "r:id=\""@ + id_rest(
            i,
        )));
    }
    assert(parts::slide_ids(n) =~= parts::slide_ids(i) + ids_between(i, n));
}

proof fn lemma_id(i: int, rest: Seq<char>)
    requires
        i >= 0,
    ensures
        clear(id_start(i), "r:id=\""@),
        clear(id_rest(i), "r:id=\""@),
        "r:id=\""@.len() == 6,
        quoted(id_rest(i) + rest) == "rId"@ + text::number((i + 2) as nat),
{
    let key = "r:id=\""@;
    let a = text::number((i + 256) as nat);
    let b = text::number((i + 2) as nat);
    lemma_number((i + 256) as nat);
    lemma_number((i + 2) as nat);
    assert(clear("<p:sldId id=\""@, "r:id=\""@)) by {
        reveal(look::clear);
        reveal_strlit("<p:sldId id=\"");
        reveal_strlit("r:id=\"");
    }
    assert(clear("\" "@, "r:id=\""@)) by {
        reveal(look::clear);
        reveal_strlit("\" ");
        reveal_strlit("r:id=\"");
    }
    assert(clear("rId"@, "r:id=\""@)) by {
        reveal(look::clear);
        reveal_strlit("rId");
        reveal_strlit("r:id=\"");
    }
    assert(clear("\"/>"@, "r:id=\""@)) by {
        reveal(look::clear);
        reveal_strlit("\"/>");
        reveal_strlit("r:id=\"");
    }
    assert(key.len() == 6 && key[0] == 'r') by {
        reveal_strlit("r:id=\"");
    }
    lemma_clear_number(a, key);
    lemma_clear_number(b, key);
    look::lemma_clear("<p:sldId id=\""@, a, key);
    look::lemma_clear("<p:sldId id=\""@ + a, "\" "@, key);
    look::lemma_clear("rId"@, b, key);
    look::lemma_clear("rId"@ + b, "\"/>"@, key);
    assert("\"/>"@ =~= seq!['"'] + "/>"@) by {
        reveal_strlit("\"/>");
        reveal_strlit("/>");
    }
    let name = "rId"@ + b;
    assert(lacks_quote(name)) by {
        reveal_strlit("rId");
    }
    assert(id_rest(i) + rest =~= name + seq!['"'] + ("/>"@ + rest));
    lemma_quoted(name, "/>"@ + rest);
}

/// What follows the list of slides.
spec fn sizes(canvas: Canvas) -> Seq<char> {
    parts::SIZE_START@ + text::number(canvas.width as nat) + "\" cy=\""@ + text::number(
        canvas.height as nat,
    ) + parts::SIZE_END@
}

proof fn lemma_list_of_slides(count: int, canvas: Canvas)
    requires
        0 <= count,
    ensures
        behind(parts::presentation_text(count, canvas), "\"/></p:sldMasterIdLst><p:sldIdLst>"@) == ids_between(0, count) + sizes(
            canvas,
        ),
{
    reveal(parts::presentation_text);
    let head = "<?xml version=\"1.0\" encoding=\"UTF-8\" standalone=\"yes\"?><p:presentation xmlns:a=\"http://schemas.openxmlformats.org/drawingml/2006/main\" xmlns:r=\"http://schemas.openxmlformats.org/officeDocument/2006/relationships\" xmlns:p=\"http://schemas.openxmlformats.org/presentationml/2006/main\"><p:sldMasterIdLst><p:sldMasterId id=\"2147483648\" r:id=\"rId1"@;
    let key = "\"/></p:sldMasterIdLst><p:sldIdLst>"@;
    assert(parts::PRESENTATION_START@ == "<?xml version=\"1.0\" encoding=\"UTF-8\" standalone=\"yes\"?><p:presentation xmlns:a=\"http://schemas.openxmlformats.org/drawingml/2006/main\" xmlns:r=\"http://schemas.openxmlformats.org/officeDocument/2006/relationships\" xmlns:p=\"http://schemas.openxmlformats.org/presentationml/2006/main\"><p:sldMasterIdLst><p:sldMasterId id=\"2147483648\" r:id=\"rId1"@ + "\"/></p:sldMasterIdLst><p:sldIdLst>"@) by {
        reveal_strlit("<?xml version=\"1.0\" encoding=\"UTF-8\" standalone=\"yes\"?><p:presentation xmlns:a=\"http://schemas.openxmlformats.org/drawingml/2006/main\" xmlns:r=\"http://schemas.openxmlformats.org/officeDocument/2006/relationships\" xmlns:p=\"http://schemas.openxmlformats.org/presentationml/2006/main\"><p:sldMasterIdLst><p:sldMasterId id=\"2147483648\" r:id=\"rId1\"/></p:sldMasterIdLst><p:sldIdLst>");
        reveal_strlit("<?xml version=\"1.0\" encoding=\"UTF-8\" standalone=\"yes\"?><p:presentation xmlns:a=\"http://schemas.openxmlformats.org/drawingml/2006/main\" xmlns:r=\"http://schemas.openxmlformats.org/officeDocument/2006/relationships\" xmlns:p=\"http://schemas.openxmlformats.org/presentationml/2006/main\"><p:sldMasterIdLst><p:sldMasterId id=\"2147483648\" r:id=\"rId1");
        reveal_strlit("\"/></p:sldMasterIdLst><p:sldIdLst>");
        assert(parts::PRESENTATION_START@ =~= "<?xml version=\"1.0\" encoding=\"UTF-8\" standalone=\"yes\"?><p:presentation xmlns:a=\"http://schemas.openxmlformats.org/drawingml/2006/main\" xmlns:r=\"http://schemas.openxmlformats.org/officeDocument/2006/relationships\" xmlns:p=\"http://schemas.openxmlformats.org/presentationml/2006/main\"><p:sldMasterIdLst><p:sldMasterId id=\"2147483648\" r:id=\"rId1"@ + "\"/></p:sldMasterIdLst><p:sldIdLst>"@);
    }
    assert(clear("<?xml version=\"1.0\" encoding=\"UTF-8\" standalone=\"yes\"?><p:presentation xmlns:a=\"http://schemas.openxmlformats.org/drawingml/2006/main\" xmlns:r=\"http://schemas.openxmlformats.org/officeDocument/2006/relationships\" xmlns:p=\"http://schemas.openxmlformats.org/presentationml/2006/main\"><p:sldMasterIdLst><p:sldMasterId id=\"2147483648\" r:id=\"rId1"@, "\"/></p:sldMasterIdLst><p:sldIdLst>"@)) by {
        reveal(look::clear);
        reveal_strlit("<?xml version=\"1.0\" encoding=\"UTF-8\" standalone=\"yes\"?><p:presentation xmlns:a=\"http://schemas.openxmlformats.org/drawingml/2006/main\" xmlns:r=\"http://schemas.openxmlformats.org/officeDocument/2006/relationships\" xmlns:p=\"http://schemas.openxmlformats.org/presentationml/2006/main\"><p:sldMasterIdLst><p:sldMasterId id=\"2147483648\" r:id=\"rId1");
        reveal_strlit("\"/></p:sldMasterIdLst><p:sldIdLst>");
    }
    assert(key.len() >= 3) by {
        reveal_strlit("\"/></p:sldMasterIdLst><p:sldIdLst>");
    }
    lemma_ids_between(0, count);
    assert(parts::slide_ids(count) =~= ids_between(0, count));
    let rest = ids_between(0, count) + sizes(canvas);
    assert(parts::presentation_text(count, canvas) =~= head + key + rest);
    look::lemma_behind(head, key, rest);
}

#[verifier::rlimit(40)]
#[verifier::spinoff_prover]
proof fn lemma_nth_id(count: int, canvas: Canvas, k: int)
    requires
        0 <= k < count,
    ensures
        nth(ids_between(0, count) + sizes(canvas), "r:id=\""@, k) == id_rest(k) + (ids_between(
            k + 1,
            count,
        ) + sizes(canvas)),
    decreases k,
{
    let list = ids_between(0, count) + sizes(canvas);
    let key = "r:id=\""@;
    let rest = ids_between(k + 1, count) + sizes(canvas);
    lemma_id(k, rest);
    if k == 0 {
        assert(list =~= id_start(0) + key + (id_rest(0) + rest));
        look::lemma_behind(id_start(0), key, id_rest(0) + rest);
    } else {
        lemma_nth_id(count, canvas, k - 1);
        lemma_id(k - 1, Seq::empty());
        let earlier = id_rest(k - 1);
        look::lemma_clear(earlier, id_start(k), key);
        assert(earlier + (ids_between(k, count) + sizes(canvas)) =~= (earlier + id_start(k)) + key
            + (id_rest(k) + rest));
        look::lemma_behind(earlier + id_start(k), key, id_rest(k) + rest);
    }
}

/// The slides of a presentation are its pages, in order: the relation that the
/// list of slides names for the `k`-th slide leads to the part of the `k`-th slide.
/// No two slides share a relation, so no two lead to the same part.
pub proof fn law_slides_come_in_order(count: int, canvas: Canvas, k: int)
    requires
        0 < k <= count,
    ensures
        ({
            let presentation = parts::presentation_text(count, canvas);
            let relations = parts::relations_text(count);
            &&& target_from(relations, slide_relation(presentation, k - 1), 0) == Some(
                "slides/slide"@ + text::number(k as nat) + ".xml"@,
            )
            &&& forall|j: int|
                0 < j <= count && j != k ==> #[trigger] slide_relation(presentation, j - 1)
                    != slide_relation(presentation, k - 1)
        }),
{
    let presentation = parts::presentation_text(count, canvas);
    lemma_list_of_slides(count, canvas);
    lemma_nth_id(count, canvas, k - 1);
    lemma_id(k - 1, ids_between(k, count) + sizes(canvas));
    lemma_target(count, k, 0);
    assert forall|j: int| 0 < j <= count && j != k implies #[trigger] slide_relation(
        presentation,
        j - 1,
    ) != slide_relation(presentation, k - 1) by {
        lemma_nth_id(count, canvas, j - 1);
        lemma_id(j - 1, ids_between(j, count) + sizes(canvas));
        let a = "rId"@ + text::number((k + 1) as nat);
        let b = "rId"@ + text::number((j + 1) as nat);
        if a == b {
            assert(a.skip(3) =~= text::number((k + 1) as nat) && b.skip(3) =~= text::number(
                (j + 1) as nat,
            )) by {
                reveal_strlit("rId");
            }
            lemma_numbers_differ((k + 1) as nat, (j + 1) as nat);
        }
    }
}

/// The image of a slide is what its second relation leads to.
pub proof fn law_slide_leads_to_its_image(media: Seq<char>)
    requires
        forall|i: int| 0 <= i < media.len() ==> #[trigger] media[i] != '"',
    ensures
        target_from(parts::slide_relations_text(media), "rId2"@, 0) == Some("../media/"@ + media),
{
    let relations = parts::slide_relations_text(media);
    let key = "Id=\""@;
    let t = "Target=\""@;
    let a = "<?xml version=\"1.0\" encoding=\"UTF-8\" standalone=\"yes\"?><Relationships xmlns=\"http://schemas.openxmlformats.org/package/2006/relationships\"><Relationship "@;
    let b = "rId1\" Type=\"http://schemas.openxmlformats.org/officeDocument/2006/relationships/slideLayout\" Target=\"../slideLayouts/slideLayout1.xml\"/><Relationship "@;
    let c = "rId2\" Type=\"http://schemas.openxmlformats.org/officeDocument/2006/relationships/image\" "@;
    let d = "../media/"@;
    let e = parts::SLIDE_RELATIONS_END@;
    assert(parts::SLIDE_RELATIONS_START@ == "<?xml version=\"1.0\" encoding=\"UTF-8\" standalone=\"yes\"?><Relationships xmlns=\"http://schemas.openxmlformats.org/package/2006/relationships\"><Relationship "@ + "Id=\""@ + "rId1\" Type=\"http://schemas.openxmlformats.org/officeDocument/2006/relationships/slideLayout\" Target=\"../slideLayouts/slideLayout1.xml\"/><Relationship "@ + "Id=\""@ + "rId2\" Type=\"http://schemas.openxmlformats.org/officeDocument/2006/relationships/image\" "@ + "Target=\""@ + "../media/"@) by {
        reveal_strlit("<?xml version=\"1.0\" encoding=\"UTF-8\" standalone=\"yes\"?><Relationships xmlns=\"http://schemas.openxmlformats.org/package/2006/relationships\"><Relationship Id=\"rId1\" Type=\"http://schemas.openxmlformats.org/officeDocument/2006/relationships/slideLayout\" Target=\"../slideLayouts/slideLayout1.xml\"/><Relationship Id=\"rId2\" Type=\"http://schemas.openxmlformats.org/officeDocument/2006/relationships/image\" Target=\"../media/");
        reveal_strlit("<?xml version=\"1.0\" encoding=\"UTF-8\" standalone=\"yes\"?><Relationships xmlns=\"http://schemas.openxmlformats.org/package/2006/relationships\"><Relationship ");
        reveal_strlit("Id=\"");
        reveal_strlit("rId1\" Type=\"http://schemas.openxmlformats.org/officeDocument/2006/relationships/slideLayout\" Target=\"../slideLayouts/slideLayout1.xml\"/><Relationship ");
        reveal_strlit("Id=\"");
        reveal_strlit("rId2\" Type=\"http://schemas.openxmlformats.org/officeDocument/2006/relationships/image\" ");
        reveal_strlit("Target=\"");
        reveal_strlit("../media/");
        assert(parts::SLIDE_RELATIONS_START@ =~= "<?xml version=\"1.0\" encoding=\"UTF-8\" standalone=\"yes\"?><Relationships xmlns=\"http://schemas.openxmlformats.org/package/2006/relationships\"><Relationship "@ + "Id=\""@ + "rId1\" Type=\"http://schemas.openxmlformats.org/officeDocument/2006/relationships/slideLayout\" Target=\"../slideLayouts/slideLayout1.xml\"/><Relationship "@ + "Id=\""@ + "rId2\" Type=\"http://schemas.openxmlformats.org/officeDocument/2006/relationships/image\" "@ + "Target=\""@ + "../media/"@);
    }
    assert(clear("<?xml version=\"1.0\" encoding=\"UTF-8\" standalone=\"yes\"?><Relationships xmlns=\"http://schemas.openxmlformats.org/package/2006/relationships\"><Relationship "@, "Id=\""@)) by {
        reveal(look::clear);
        reveal_strlit("<?xml version=\"1.0\" encoding=\"UTF-8\" standalone=\"yes\"?><Relationships xmlns=\"http://schemas.openxmlformats.org/package/2006/relationships\"><Relationship ");
        reveal_strlit("Id=\"");
    }
    assert(clear("rId1\" Type=\"http://schemas.openxmlformats.org/officeDocument/2006/relationships/slideLayout\" Target=\"../slideLayouts/slideLayout1.xml\"/><Relationship "@, "Id=\""@)) by {
        reveal(look::clear);
        reveal_strlit("rId1\" Type=\"http://schemas.openxmlformats.org/officeDocument/2006/relationships/slideLayout\" Target=\"../slideLayouts/slideLayout1.xml\"/><Relationship ");
        reveal_strlit("Id=\"");
    }
    assert(clear("rId2\" Type=\"http://schemas.openxmlformats.org/officeDocument/2006/relationships/image\" "@, "Target=\""@)) by {
        reveal(look::clear);
        reveal_strlit("rId2\" Type=\"http://schemas.openxmlformats.org/officeDocument/2006/relationships/image\" ");
        reveal_strlit("Target=\"");
    }
    lemma_relation_words();
    assert("rId1"@ + seq!['"'] + b.skip(5) =~= b && lacks_quote("rId1"@) && "rId1"@.len() == 4
        && "rId1"@[3] == '1') by {
        reveal_strlit("rId1");
        reveal_strlit("rId1\" Type=\"http://schemas.openxmlformats.org/officeDocument/2006/relationships/slideLayout\" Target=\"../slideLayouts/slideLayout1.xml\"/><Relationship ");
    }
    assert("rId2"@ + seq!['"'] + c.skip(5) =~= c && lacks_quote("rId2"@) && "rId2"@.len() == 4
        && "rId2"@[3] == '2') by {
        reveal_strlit("rId2");
        reveal_strlit("rId2\" Type=\"http://schemas.openxmlformats.org/officeDocument/2006/relationships/image\" ");
    }
    assert(seq!['"'] + e.skip(1) =~= e && e.len() > 1) by {
        reveal_strlit("\"/></Relationships>");
    }
    let rest = d + media + e;
    assert(relations =~= a + key + (b + key + (c + t + rest)));
    look::lemma_behind(a, key, b + key + (c + t + rest));
    look::lemma_behind(b, key, c + t + rest);
    assert(b + key + (c + t + rest) =~= "rId1"@ + seq!['"'] + (b.skip(5) + key + (c + t + rest)));
    lemma_quoted("rId1"@, b.skip(5) + key + (c + t + rest));
    assert(c + t + rest =~= "rId2"@ + seq!['"'] + (c.skip(5) + t + rest));
    lemma_quoted("rId2"@, c.skip(5) + t + rest);
    look::lemma_behind(c, t, rest);
    let path = d + media;
    assert(lacks_quote(path)) by {
        reveal_strlit("../media/");
    }
    assert(rest =~= path + seq!['"'] + e.skip(1));
    lemma_quoted(path, e.skip(1));
    assert(nth(relations, key, 0) == b + key + (c + t + rest));
    assert(nth(relations, key, 1) == c + t + rest);
    assert(relation_id(relations, 0) == "rId1"@);
    assert(relation_id(relations, 1) == "rId2"@);
    assert(relations.len() > 2);
    reveal_with_fuel(target_from, 2);
}

/// The relation that the picture of a slide is fetched through.
pub open spec fn embedded(slide: Seq<char>) -> Seq<char> {
    quoted(behind(slide, "r:embed=\""@))
}

/// Where the picture of a slide goes: across, down, its width and its height.
pub open spec fn picture_place(slide: Seq<char>) -> (Seq<char>, Seq<char>, Seq<char>, Seq<char>) {
    let x = behind(behind(slide, "r:embed=\""@), "off x=\""@);
    let y = behind(x, " y=\""@);
    let width = behind(y, "ext cx=\""@);
    let height = behind(width, " cy=\""@);
    (quoted(x), quoted(y), quoted(width), quoted(height))
}

proof fn lemma_embedded(number: int, place: Placement)
    ensures
        ({
            let x = text::number(place.x as nat) + "\" y=\""@ + text::number(place.y as nat)
                + "\"/><a:ext cx=\""@ + text::number(place.width as nat) + "\" cy=\""@
                + text::number(place.height as nat) + parts::SLIDE_END@;
            behind(parts::slide_text(number, place), "r:embed=\""@) == "rId2\"/><a:stretch><a:fillRect/></a:stretch></p:blipFill><p:spPr><a:xfrm><a:"@ + "off x=\""@ + x
        }),
{
    reveal(parts::slide_text);
    let key = "r:embed=\""@;
    let n = text::number(number as nat);
    lemma_number(number as nat);
    assert(parts::SLIDE_PLACE@ == "\"/><p:cNvPicPr><a:picLocks noChangeAspect=\"1\"/></p:cNvPicPr><p:nvPr/></p:nvPicPr><p:blipFill><a:blip "@ + "r:embed=\""@ + "rId2\"/><a:stretch><a:fillRect/></a:stretch></p:blipFill><p:spPr><a:xfrm><a:"@ + "off x=\""@) by {
        reveal_strlit("\"/><p:cNvPicPr><a:picLocks noChangeAspect=\"1\"/></p:cNvPicPr><p:nvPr/></p:nvPicPr><p:blipFill><a:blip r:embed=\"rId2\"/><a:stretch><a:fillRect/></a:stretch></p:blipFill><p:spPr><a:xfrm><a:off x=\"");
        reveal_strlit("\"/><p:cNvPicPr><a:picLocks noChangeAspect=\"1\"/></p:cNvPicPr><p:nvPr/></p:nvPicPr><p:blipFill><a:blip ");
        reveal_strlit("r:embed=\"");
        reveal_strlit("rId2\"/><a:stretch><a:fillRect/></a:stretch></p:blipFill><p:spPr><a:xfrm><a:");
        reveal_strlit("off x=\"");
        assert(parts::SLIDE_PLACE@ =~= "\"/><p:cNvPicPr><a:picLocks noChangeAspect=\"1\"/></p:cNvPicPr><p:nvPr/></p:nvPicPr><p:blipFill><a:blip "@ + "r:embed=\""@ + "rId2\"/><a:stretch><a:fillRect/></a:stretch></p:blipFill><p:spPr><a:xfrm><a:"@ + "off x=\""@);
    }
    assert(clear("\"/><p:cNvPicPr><a:picLocks noChangeAspect=\"1\"/></p:cNvPicPr><p:nvPr/></p:nvPicPr><p:blipFill><a:blip "@, "r:embed=\""@)) by {
        reveal(look::clear);
        reveal_strlit("\"/><p:cNvPicPr><a:picLocks noChangeAspect=\"1\"/></p:cNvPicPr><p:nvPr/></p:nvPicPr><p:blipFill><a:blip ");
        reveal_strlit("r:embed=\"");
    }
    assert(clear(parts::SLIDE_START@, key)) by {
        reveal(look::clear);
        reveal_strlit("<?xml version=\"1.0\" encoding=\"UTF-8\" standalone=\"yes\"?><p:sld xmlns:a=\"http://schemas.openxmlformats.org/drawingml/2006/main\" xmlns:r=\"http://schemas.openxmlformats.org/officeDocument/2006/relationships\" xmlns:p=\"http://schemas.openxmlformats.org/presentationml/2006/main\"><p:cSld><p:bg><p:bgPr><a:solidFill><a:srgbClr val=\"FFFFFF\"/></a:solidFill><a:effectLst/></p:bgPr></p:bg><p:spTree>");
        reveal_strlit("r:embed=\"");
    }
    assert(clear(parts::GROUP_SHAPE@, key)) by {
        reveal(look::clear);
        reveal_strlit("<p:nvGrpSpPr><p:cNvPr id=\"1\" name=\"\"/><p:cNvGrpSpPr/><p:nvPr/></p:nvGrpSpPr><p:grpSpPr><a:xfrm><a:off x=\"0\" y=\"0\"/><a:ext cx=\"0\" cy=\"0\"/><a:chOff x=\"0\" y=\"0\"/><a:chExt cx=\"0\" cy=\"0\"/></a:xfrm></p:grpSpPr>");
        reveal_strlit("r:embed=\"");
    }
    assert(clear(parts::SLIDE_PICTURE@, key)) by {
        reveal(look::clear);
        reveal_strlit("<p:pic><p:nvPicPr><p:cNvPr id=\"2\" name=\"Page ");
        reveal_strlit("r:embed=\"");
    }
    assert(key.len() == 9 && key[0] == 'r') by {
        reveal_strlit("r:embed=\"");
    }
    lemma_clear_number(n, key);
    let a = parts::SLIDE_START@;
    let b = parts::GROUP_SHAPE@;
    let c = parts::SLIDE_PICTURE@;
    let d = "\"/><p:cNvPicPr><a:picLocks noChangeAspect=\"1\"/></p:cNvPicPr><p:nvPr/></p:nvPicPr><p:blipFill><a:blip "@;
    look::lemma_clear(a, b, key);
    look::lemma_clear(a + b, c, key);
    look::lemma_clear(a + b + c, n, key);
    look::lemma_clear(a + b + c + n, d, key);
    let x = text::number(place.x as nat) + "\" y=\""@ + text::number(place.y as nat)
        + "\"/><a:ext cx=\""@ + text::number(place.width as nat) + "\" cy=\""@ + text::number(
        place.height as nat,
    ) + parts::SLIDE_END@;
    let rest = "rId2\"/><a:stretch><a:fillRect/></a:stretch></p:blipFill><p:spPr><a:xfrm><a:"@ + "off x=\""@ + x;
    assert(parts::slide_text(number, place) =~= (a + b + c + n + d) + key + rest);
    look::lemma_behind(a + b + c + n + d, key, rest);
}

/// A slide fetches its picture through its second relation, and the picture goes
/// where it is placed.
pub proof fn law_slide_places_its_picture(number: int, place: Placement)
    requires
        0 <= place.x,
        0 <= place.y,
        0 <= place.width,
        0 <= place.height,
    ensures
        embedded(parts::slide_text(number, place)) == "rId2"@,
        picture_place(parts::slide_text(number, place)) == (
            text::number(place.x as nat),
            text::number(place.y as nat),
            text::number(place.width as nat),
            text::number(place.height as nat),
        ),
{
    lemma_embedded(number, place);
    lemma_place_words();
    lemma_number(place.x as nat);
    lemma_number(place.y as nat);
    lemma_number(place.width as nat);
    lemma_number(place.height as nat);
    let x = text::number(place.x as nat);
    let y = text::number(place.y as nat);
    let w = text::number(place.width as nat);
    let h = text::number(place.height as nat);
    let b = "rId2\"/><a:stretch><a:fillRect/></a:stretch></p:blipFill><p:spPr><a:xfrm><a:"@;
    let end = parts::SLIDE_END@;
    lemma_place(b, x, y, w, h, end);
    lemma_quoted(
        "rId2"@,
        b.skip(5) + "off x=\""@ + (x + "\" y=\""@ + y + "\"/><a:ext cx=\""@ + w + "\" cy=\""@ + h
            + end),
    );
    assert(b + "off x=\""@ + (x + "\" y=\""@ + y + "\"/><a:ext cx=\""@ + w + "\" cy=\""@ + h + end)
        =~= "rId2"@ + seq!['"'] + (b.skip(5) + "off x=\""@ + (x + "\" y=\""@ + y
        + "\"/><a:ext cx=\""@ + w + "\" cy=\""@ + h + end)));
}

proof fn lemma_place_words()
    ensures
        clear("rId2\"/><a:stretch><a:fillRect/></a:stretch></p:blipFill><p:spPr><a:xfrm><a:"@, "off x=\""@),
        clear("\"/><a:"@, "ext cx=\""@),
        clear(seq!['"'], " y=\""@),
        clear(seq!['"'], " cy=\""@),
        "\" y=\""@ == seq!['"'] + " y=\""@,
        "\" cy=\""@ == seq!['"'] + " cy=\""@,
        "\"/><a:ext cx=\""@ == "\"/><a:"@ + "ext cx=\""@,
        "\"/><a:"@ == seq!['"'] + "\"/><a:"@.skip(1),
        parts::SLIDE_END@ == seq!['"'] + parts::SLIDE_END@.skip(1),
        " y=\""@.len() == 4 && " y=\""@[0] == ' ',
        " cy=\""@.len() == 5 && " cy=\""@[0] == ' ',
        "ext cx=\""@.len() == 8 && "ext cx=\""@[0] == 'e',
        "off x=\""@.len() == 7,
        "rId2"@ + seq!['"'] + "rId2\"/><a:stretch><a:fillRect/></a:stretch></p:blipFill><p:spPr><a:xfrm><a:"@.skip(5) == "rId2\"/><a:stretch><a:fillRect/></a:stretch></p:blipFill><p:spPr><a:xfrm><a:"@,
        lacks_quote("rId2"@),
{
    assert(clear("rId2\"/><a:stretch><a:fillRect/></a:stretch></p:blipFill><p:spPr><a:xfrm><a:"@, "off x=\""@)) by {
        reveal(look::clear);
        reveal_strlit("rId2\"/><a:stretch><a:fillRect/></a:stretch></p:blipFill><p:spPr><a:xfrm><a:");
        reveal_strlit("off x=\"");
    }
    assert(clear("\"/><a:"@, "ext cx=\""@)) by {
        reveal(look::clear);
        reveal_strlit("\"/><a:");
        reveal_strlit("ext cx=\"");
    }
    assert(clear(seq!['"'], " y=\""@) && clear(seq!['"'], " cy=\""@)) by {
        reveal(look::clear);
        reveal_strlit(" y=\"");
        reveal_strlit(" cy=\"");
    }
    assert("\" y=\""@ =~= seq!['"'] + " y=\""@) by {
        reveal_strlit("\" y=\"");
        reveal_strlit(" y=\"");
    }
    assert("\" cy=\""@ =~= seq!['"'] + " cy=\""@) by {
        reveal_strlit("\" cy=\"");
        reveal_strlit(" cy=\"");
    }
    assert("\"/><a:ext cx=\""@ =~= "\"/><a:"@ + "ext cx=\""@) by {
        reveal_strlit("\"/><a:ext cx=\"");
        reveal_strlit("\"/><a:");
        reveal_strlit("ext cx=\"");
    }
    assert("\"/><a:"@ =~= seq!['"'] + "\"/><a:"@.skip(1)) by {
        reveal_strlit("\"/><a:");
    }
    assert(parts::SLIDE_END@ =~= seq!['"'] + parts::SLIDE_END@.skip(1)) by {
        reveal_strlit("\"/></a:xfrm><a:prstGeom prst=\"rect\"><a:avLst/></a:prstGeom></p:spPr></p:pic></p:spTree></p:cSld><p:clrMapOvr><a:masterClrMapping/></p:clrMapOvr></p:sld>");
    }
    assert(" y=\""@.len() == 4 && " y=\""@[0] == ' ' && " cy=\""@.len() == 5 && " cy=\""@[0] == ' '
        && "ext cx=\""@.len() == 8 && "ext cx=\""@[0] == 'e' && "off x=\""@.len() == 7) by {
        reveal_strlit(" y=\"");
        reveal_strlit(" cy=\"");
        reveal_strlit("ext cx=\"");
        reveal_strlit("off x=\"");
    }
    assert("rId2"@ + seq!['"'] + "rId2\"/><a:stretch><a:fillRect/></a:stretch></p:blipFill><p:spPr><a:xfrm><a:"@.skip(5) =~= "rId2\"/><a:stretch><a:fillRect/></a:stretch></p:blipFill><p:spPr><a:xfrm><a:"@ && lacks_quote("rId2"@)) by {
        reveal_strlit("rId2");
        reveal_strlit("rId2\"/><a:stretch><a:fillRect/></a:stretch></p:blipFill><p:spPr><a:xfrm><a:");
    }
}

#[verifier::spinoff_prover]
proof fn lemma_place(
    b: Seq<char>,
    x: Seq<char>,
    y: Seq<char>,
    w: Seq<char>,
    h: Seq<char>,
    end: Seq<char>,
)
    requires
        is_digits(x),
        is_digits(y),
        is_digits(w),
        is_digits(h),
        clear(b, "off x=\""@),
        end == seq!['"'] + end.skip(1),
    ensures
        ({
            let s = b + "off x=\""@ + (x + "\" y=\""@ + y + "\"/><a:ext cx=\""@ + w + "\" cy=\""@ + h
                + end);
            let s1 = behind(s, "off x=\""@);
            let s2 = behind(s1, " y=\""@);
            let s3 = behind(s2, "ext cx=\""@);
            let s4 = behind(s3, " cy=\""@);
            quoted(s1) == x && quoted(s2) == y && quoted(s3) == w && quoted(s4) == h
        }),
{
    lemma_place_words();
    let ox = "off x=\""@;
    let yk = " y=\""@;
    let xk = "ext cx=\""@;
    let hk = " cy=\""@;
    let gap = "\"/><a:"@;
    let quote = seq!['"'];
    let s4 = h + end;
    let s3 = w + "\" cy=\""@ + s4;
    let s2 = y + "\"/><a:ext cx=\""@ + s3;
    let s1 = x + "\" y=\""@ + s2;
    assert(x + "\" y=\""@ + y + "\"/><a:ext cx=\""@ + w + "\" cy=\""@ + h + end =~= s1);
    look::lemma_behind(b, ox, s1);
    lemma_field(x, quote, yk, s2);
    lemma_field(w, quote, hk, s4);
    lemma_clear_number(x, yk);
    lemma_clear_number(w, hk);
    lemma_clear_number(y, xk);
    look::lemma_clear(x, quote, yk);
    look::lemma_clear(w, quote, hk);
    look::lemma_clear(y, gap, xk);
    assert(s1 =~= (x + quote) + yk + s2);
    look::lemma_behind(x + quote, yk, s2);
    assert(s2 =~= (y + gap) + xk + s3);
    look::lemma_behind(y + gap, xk, s3);
    assert(s3 =~= (w + quote) + hk + s4);
    look::lemma_behind(w + quote, hk, s4);
    lemma_quoted(y, gap.skip(1) + xk + s3);
    assert(s2 =~= y + quote + (gap.skip(1) + xk + s3));
    lemma_quoted(h, end.skip(1));
    assert(s4 =~= h + quote + end.skip(1));
}

proof fn lemma_field(x: Seq<char>, quote: Seq<char>, key: Seq<char>, rest: Seq<char>)
    requires
        is_digits(x),
        quote == seq!['"'],
    ensures
        quoted(x + (quote + key) + rest) == x,
{
    lemma_quoted(x, key + rest);
    assert(x + (quote + key) + rest =~= x + seq!['"'] + (key + rest));
}

/// A picture is in the middle of its slide, to within one unit.
pub proof fn law_picture_is_in_the_middle(canvas: Canvas, width: u32, height: u32)
    requires
        width > 0,
        height > 0,
    ensures
        ({
            let place = parts::placement(canvas, width, height);
            &&& 0 <= canvas.width - (2 * place.x + place.width) <= 1
            &&& 0 <= canvas.height - (2 * place.y + place.height) <= 1
        }),
{
    parts::law_picture_fits(canvas, width, height);
}

/// How large the slides of a presentation are: their width and their height.
pub open spec fn slide_size(presentation: Seq<char>) -> (Seq<char>, Seq<char>) {
    let width = behind(presentation, "Sz cx=\""@);
    (quoted(width), quoted(behind(width, " cy=\""@)))
}

spec fn lacks(s: Seq<char>, c: char) -> bool {
    forall|i: int| 0 <= i < s.len() ==> #[trigger] s[i] != c
}

proof fn lemma_ids_lack(n: int)
    ensures
        lacks(parts::slide_ids(n), 'S'),
    decreases n,
{
    if n > 0 {
        lemma_ids_lack(n - 1);
        lemma_number((n + 255) as nat);
        lemma_number((n + 1) as nat);
        let a = parts::slide_ids(n - 1);
        let b = "<p:sldId id=\""@;
        let c = text::number((n + 255) as nat);
        let d = "\" r:id=\"rId"@;
        let e = text::number((n + 1) as nat);
        let f = "\"/>"@;
        assert(lacks(b, 'S') && lacks(d, 'S') && lacks(f, 'S')) by {
            reveal_strlit("<p:sldId id=\"");
            reveal_strlit("\" r:id=\"rId");
            reveal_strlit("\"/>");
        }
        assert(lacks(c, 'S') && lacks(e, 'S'));
        lemma_lack(a, b);
        lemma_lack(a + b, c);
        lemma_lack(a + b + c, d);
        lemma_lack(a + b + c + d, e);
        lemma_lack(a + b + c + d + e, f);
    }
}

proof fn lemma_lack(a: Seq<char>, b: Seq<char>)
    requires
        lacks(a, 'S'),
        lacks(b, 'S'),
    ensures
        lacks(a + b, 'S'),
{
    assert forall|i: int| 0 <= i < (a + b).len() implies #[trigger] (a + b)[i] != 'S' by {
        if i < a.len() {
            assert((a + b)[i] == a[i]);
        } else {
            assert((a + b)[i] == b[i - a.len()]);
        }
    }
}

/// The slides of a presentation are as large as its canvas.
pub proof fn law_slides_are_as_large_as_the_canvas(count: int, canvas: Canvas)
    ensures
        slide_size(parts::presentation_text(count, canvas)) == (
            text::number(canvas.width as nat),
            text::number(canvas.height as nat),
        ),
{
    reveal(parts::presentation_text);
    let key = "Sz cx=\""@;
    let start = parts::PRESENTATION_START@;
    let list = parts::slide_ids(count);
    let gap = "</p:sldIdLst><p:sld"@;
    let w = text::number(canvas.width as nat);
    let h = text::number(canvas.height as nat);
    let hk = " cy=\""@;
    let end = parts::SIZE_END@;
    let quote = seq!['"'];
    lemma_number(canvas.width as nat);
    lemma_number(canvas.height as nat);
    lemma_ids_lack(count);
    lemma_place_words();
    assert(parts::SIZE_START@ == "</p:sldIdLst><p:sld"@ + "Sz cx=\""@) by {
        reveal_strlit("</p:sldIdLst><p:sldSz cx=\"");
        reveal_strlit("</p:sldIdLst><p:sld");
        reveal_strlit("Sz cx=\"");
        assert(parts::SIZE_START@ =~= "</p:sldIdLst><p:sld"@ + "Sz cx=\""@);
    }
    assert(key.len() == 7 && key[0] == 'S') by {
        reveal_strlit("Sz cx=\"");
    }
    assert(clear(start, key)) by {
        reveal(look::clear);
        reveal_strlit("<?xml version=\"1.0\" encoding=\"UTF-8\" standalone=\"yes\"?><p:presentation xmlns:a=\"http://schemas.openxmlformats.org/drawingml/2006/main\" xmlns:r=\"http://schemas.openxmlformats.org/officeDocument/2006/relationships\" xmlns:p=\"http://schemas.openxmlformats.org/presentationml/2006/main\"><p:sldMasterIdLst><p:sldMasterId id=\"2147483648\" r:id=\"rId1\"/></p:sldMasterIdLst><p:sldIdLst>");
        reveal_strlit("Sz cx=\"");
    }
    assert(clear(list, key)) by {
        reveal(look::clear);
    }
    assert(clear("</p:sldIdLst><p:sld"@, "Sz cx=\""@)) by {
        reveal(look::clear);
        reveal_strlit("</p:sldIdLst><p:sld");
        reveal_strlit("Sz cx=\"");
    }
    assert(end =~= quote + end.skip(1)) by {
        reveal_strlit("\" type=\"custom\"/><p:notesSz cx=\"6858000\" cy=\"9144000\"/><p:defaultTextStyle/></p:presentation>");
    }
    look::lemma_clear(start, list, key);
    look::lemma_clear(start + list, gap, key);
    let s2 = h + end;
    let s1 = w + (quote + hk) + s2;
    assert(parts::presentation_text(count, canvas) =~= (start + list + gap) + key + s1);
    look::lemma_behind(start + list + gap, key, s1);
    lemma_field(w, quote, hk, s2);
    lemma_clear_number(w, hk);
    look::lemma_clear(w, quote, hk);
    assert(s1 =~= (w + quote) + hk + s2);
    look::lemma_behind(w + quote, hk, s2);
    lemma_quoted(h, end.skip(1));
    assert(s2 =~= h + quote + end.skip(1));
}

/// The most that is read of a part.
pub const READ_LIMIT: u64 = 0xffff_ffff_ffff_fffe;

/// The text of a part of an archive.
pub open spec fn text_in(b: Seq<u8>, name: Seq<char>) -> Seq<char> {
    match archive::part_of(b, name, READ_LIMIT) {
        Ok((_, content)) => decode_utf8(content),
        Err(_) => Seq::empty(),
    }
}

/// The part of the slide with an index, as the list of slides and the relations of
/// the presentation lead to it.
pub open spec fn slide_path(b: Seq<u8>, k: int) -> Seq<char> {
    match target_from(
        text_in(b, "ppt/_rels/presentation.xml.rels"@),
        slide_relation(text_in(b, "ppt/presentation.xml"@), k),
        0,
    ) {
        Some(target) => target,
        None => Seq::empty(),
    }
}

/// The bytes of the image that the slide with an index shows, as its picture and
/// its relations lead to them.
pub open spec fn shown_image(b: Seq<u8>, k: int) -> Option<Seq<u8>> {
    let path = slide_path(b, k);
    let slide = text_in(b, "ppt/"@ + path);
    let relations = text_in(b, "ppt/slides/_rels/"@ + behind(path, "slides/"@) + ".rels"@);
    match target_from(relations, embedded(slide), 0) {
        None => None,
        Some(media) => match archive::part_of(
            b,
            "ppt/media/"@ + behind(media, "../media/"@),
            READ_LIMIT,
        ) {
            Ok((_, content)) => Some(content),
            Err(_) => None,
        },
    }
}

/// The texts of a list are packed, and what was packed before is kept.
proof fn lemma_texts_packed(
    contents: package::Contents,
    texts: Seq<(Seq<char>, Seq<char>)>,
    n: int,
    j: int,
)
    requires
        0 <= j < n,
        contents.with_texts(texts, n) is Some,
    ensures
        contents.with_texts(texts, n)->0.parts.contains((texts[j].0, encode_utf8(texts[j].1))),
        encode_utf8(texts[j].1).len() <= package::MAX_XML_BYTES,
        contents.parts.is_prefix_of(contents.with_texts(texts, n)->0.parts),
    decreases n,
{
    let before = contents.with_texts(texts, n - 1)->0;
    let after = contents.with_texts(texts, n)->0;
    let part = (texts[j].0, encode_utf8(texts[j].1));
    if j == n - 1 {
        assert(after.parts[before.parts.len() as int] == part);
    } else {
        lemma_texts_packed(contents, texts, n - 1, j);
        let k = choose|k: int| 0 <= k < before.parts.len() && before.parts[k] == part;
        assert(after.parts[k] == part);
    }
    lemma_texts_kept(contents, texts, n);
}

proof fn lemma_texts_kept(contents: package::Contents, texts: Seq<(Seq<char>, Seq<char>)>, n: int)
    requires
        contents.with_texts(texts, n) is Some,
    ensures
        contents.parts.is_prefix_of(contents.with_texts(texts, n)->0.parts),
    decreases n,
{
    if n > 0 {
        lemma_texts_kept(contents, texts, n - 1);
    }
}

/// What is packed before a slide, and the slide itself, stay.
proof fn lemma_packed(
    slides: Seq<SlideImage>,
    canvas: Canvas,
    inputs: Seq<Result<ImageInput, String>>,
    i: int,
    j: int,
)
    requires
        package::packed(slides, canvas, inputs) is Ok,
        0 <= i <= inputs.len(),
        i > 0 ==> 0 <= j < 2,
        i == 0 ==> 0 <= j < 11,
    ensures
        ({
            let texts = if i == 0 {
                package::leading_texts(slides, canvas)
            } else {
                package::slide_texts(i, slides[i - 1], canvas)
            };
            &&& package::packed(slides, canvas, inputs)->Ok_0.parts.contains(
                (texts[j].0, encode_utf8(texts[j].1)),
            )
            &&& encode_utf8(texts[j].1).len() <= package::MAX_XML_BYTES
        }),
    decreases inputs.len(),
{
    let n = inputs.len() as int;
    let texts = if i == 0 {
        package::leading_texts(slides, canvas)
    } else {
        package::slide_texts(i, slides[i - 1], canvas)
    };
    let part = (texts[j].0, encode_utf8(texts[j].1));
    let after = package::packed(slides, canvas, inputs)->Ok_0;
    if n == 0 {
        lemma_texts_packed(package::Contents::empty(), texts, 11, j);
    } else {
        let before = package::packed(slides, canvas, inputs.drop_last())->Ok_0;
        let own = package::slide_texts(n, slides[n - 1], canvas);
        let middle = before.with_texts(own, 2)->0;
        lemma_texts_kept(before, own, 2);
        assert(after.parts == middle.parts.push(
            (package::media_path(n, slides[n - 1].format), inputs.last()->Ok_0.data@),
        ));
        if i == n {
            lemma_texts_packed(before, own, 2, j);
            let k = choose|k: int| 0 <= k < middle.parts.len() && middle.parts[k] == part;
            assert(after.parts[k] == part);
        } else {
            lemma_packed(slides, canvas, inputs.drop_last(), i, j);
            let k = choose|k: int| 0 <= k < before.parts.len() && before.parts[k] == part;
            assert(after.parts[k] == part);
        }
    }
}

proof fn lemma_text_in(
    r: Result<Vec<u8>, PptxError>,
    slides: Seq<SlideImage>,
    canvas: Canvas,
    inputs: Seq<Result<ImageInput, String>>,
    i: int,
    j: int,
)
    requires
        package::presented(r, slides, canvas, inputs),
        r is Ok,
        0 <= i <= inputs.len(),
        i > 0 ==> 0 <= j < 2,
        i == 0 ==> 0 <= j < 11,
        ({
            let texts = if i == 0 {
                package::leading_texts(slides, canvas)
            } else {
                package::slide_texts(i, slides[i - 1], canvas)
            };
            archive::is_plain_name(texts[j].0)
        }),
    ensures
        ({
            let texts = if i == 0 {
                package::leading_texts(slides, canvas)
            } else {
                package::slide_texts(i, slides[i - 1], canvas)
            };
            text_in(r->Ok_0@, texts[j].0) == texts[j].1
        }),
{
    let texts = if i == 0 {
        package::leading_texts(slides, canvas)
    } else {
        package::slide_texts(i, slides[i - 1], canvas)
    };
    lemma_packed(slides, canvas, inputs, i, j);
    let all = package::packed(slides, canvas, inputs)->Ok_0.parts;
    let part = (texts[j].0, encode_utf8(texts[j].1));
    let k = choose|k: int| 0 <= k < all.len() && all[k] == part;
    assert(archive::part_of(r->Ok_0@, all[k].0, READ_LIMIT) == Ok::<
        (u64, Seq<u8>),
        archive::PartTrouble,
    >((all[k].1.len() as u64, all[k].1)));
    encode_utf8_decode_utf8(texts[j].1);
}

proof fn lemma_slide_names(k: int)
    requires
        k > 0,
    ensures
        ({
            let n = text::number(k as nat);
            let path = "slides/slide"@ + n + ".xml"@;
            &&& archive::is_plain_name(package::slide_name(k))
            &&& archive::is_plain_name(package::relations_name(k))
            &&& "ppt/"@ + path == package::slide_name(k)
            &&& "ppt/slides/_rels/"@ + behind(path, "slides/"@) + ".rels"@
                == package::relations_name(k)
        }),
{
    let n = text::number(k as nat);
    lemma_number(k as nat);
    reveal_strlit("ppt/slides/slide");
    reveal_strlit(".xml");
    reveal_strlit("ppt/slides/_rels/slide");
    reveal_strlit(".xml.rels");
    reveal_strlit("ppt/");
    reveal_strlit("slides/slide");
    reveal_strlit("slides/");
    reveal_strlit("slide");
    reveal_strlit("ppt/slides/_rels/");
    reveal_strlit(".rels");
    let path = "slides/slide"@ + n + ".xml"@;
    let none = Seq::<char>::empty();
    let file = "slide"@ + n + ".xml"@;
    assert("ppt/"@ + path =~= package::slide_name(k));
    assert(clear(none, "slides/"@)) by {
        reveal(look::clear);
    }
    assert(path =~= none + "slides/"@ + file);
    look::lemma_behind(none, "slides/"@, file);
    assert("ppt/slides/_rels/"@ + file + ".rels"@ =~= package::relations_name(k));
    lemma_plain("ppt/slides/slide"@, n, ".xml"@);
    lemma_plain("ppt/slides/_rels/slide"@, n, ".xml.rels"@);
}

proof fn lemma_plain(a: Seq<char>, n: Seq<char>, b: Seq<char>)
    requires
        is_digits(n),
        b.len() > 0,
        b.last() != '/',
        forall|i: int| 0 <= i < a.len() ==> '!' <= #[trigger] a[i] <= '~' && a[i] != '\\',
        forall|i: int| 0 <= i < b.len() ==> '!' <= #[trigger] b[i] <= '~' && b[i] != '\\',
    ensures
        archive::is_plain_name(a + n + b),
{
    let s = a + n + b;
    assert forall|i: int| 0 <= i < s.len() implies '!' <= #[trigger] s[i] <= '~' && s[i] != '\\' by {
        if i < a.len() {
            assert(s[i] == a[i]);
        } else if i < a.len() + n.len() {
            assert(s[i] == n[i - a.len()]);
        } else {
            assert(s[i] == b[i - a.len() - n.len()]);
        }
    }
    assert(s.last() == b.last());
}

proof fn lemma_media(k: int, format: SlideImageFormat)
    ensures
        lacks_quote(parts::media_name_spec(k, format)),
        behind("../media/"@ + parts::media_name_spec(k, format), "../media/"@)
            == parts::media_name_spec(k, format),
{
    reveal_strlit("page");
    reveal_strlit(".");
    reveal_strlit("png");
    reveal_strlit("jpg");
    reveal_strlit("../media/");
    lemma_number(k as nat);
    let name = parts::media_name_spec(k, format);
    let n = text::number(k as nat);
    assert forall|i: int| 0 <= i < name.len() implies #[trigger] name[i] != '"' by {
        if i < 4 {
            assert(name[i] == "page"@[i]);
        } else if i < 4 + n.len() {
            assert(name[i] == n[i - 4]);
        }
    }
    let none = Seq::<char>::empty();
    assert(clear(none, "../media/"@)) by {
        reveal(look::clear);
    }
    assert("../media/"@ + name =~= none + "../media/"@ + name);
    look::lemma_behind(none, "../media/"@, name);
}

/// The `k`-th slide of a presentation shows the `k`-th image, byte for byte: the
/// list of slides leads through the relations of the presentation to the part of
/// the slide, and its picture through the relations of the slide to the image.
pub proof fn law_slides_show_the_images_in_order(
    r: Result<Vec<u8>, PptxError>,
    slides: Seq<SlideImage>,
    canvas: Canvas,
    inputs: Seq<Result<ImageInput, String>>,
    k: int,
)
    requires
        package::presented(r, slides, canvas, inputs),
        r is Ok,
        0 <= k < slides.len(),
        inputs[k]->Ok_0.data@.len() <= READ_LIMIT,
    ensures
        inputs[k] is Ok,
        shown_image(r->Ok_0@, k) == Some(inputs[k]->Ok_0.data@),
{
    let b = r->Ok_0@;
    let n = slides.len() as int;
    let format = slides[k].format;
    let place = parts::placement(canvas, slides[k].width, slides[k].height);
    let leading = package::leading_texts(slides, canvas);
    assert(archive::is_plain_name("ppt/presentation.xml"@) && archive::is_plain_name(
        "ppt/_rels/presentation.xml.rels"@,
    )) by {
        reveal_strlit("ppt/presentation.xml");
        reveal_strlit("ppt/_rels/presentation.xml.rels");
    }
    assert(leading[4] == ("ppt/presentation.xml"@, parts::presentation_text(n, canvas)));
    assert(leading[5] == ("ppt/_rels/presentation.xml.rels"@, parts::relations_text(n)));
    lemma_text_in(r, slides, canvas, inputs, 0, 4);
    lemma_text_in(r, slides, canvas, inputs, 0, 5);
    law_slides_come_in_order(n, canvas, k + 1);
    let path = "slides/slide"@ + text::number((k + 1) as nat) + ".xml"@;
    assert(slide_path(b, k) == path);
    lemma_slide_names(k + 1);
    let own = package::slide_texts(k + 1, slides[k], canvas);
    assert(own[0] == (package::slide_name(k + 1), parts::slide_text(k + 1, place)));
    let media = parts::media_name_spec(k + 1, format);
    assert(own[1] == (package::relations_name(k + 1), parts::slide_relations_text(media)));
    lemma_text_in(r, slides, canvas, inputs, k + 1, 0);
    lemma_text_in(r, slides, canvas, inputs, k + 1, 1);
    lemma_embedded_name(k + 1, place);
    lemma_media(k + 1, format);
    law_slide_leads_to_its_image(media);
    package::law_images_are_kept(r, slides, canvas, inputs, k, READ_LIMIT);
}

proof fn lemma_embedded_name(number: int, place: Placement)
    ensures
        embedded(parts::slide_text(number, place)) == "rId2"@,
{
    lemma_embedded(number, place);
    lemma_place_words();
    let b = "rId2\"/><a:stretch><a:fillRect/></a:stretch></p:blipFill><p:spPr><a:xfrm><a:"@;
    let x = text::number(place.x as nat) + "\" y=\""@ + text::number(place.y as nat)
        + "\"/><a:ext cx=\""@ + text::number(place.width as nat) + "\" cy=\""@ + text::number(
        place.height as nat,
    ) + parts::SLIDE_END@;
    lemma_quoted("rId2"@, b.skip(5) + "off x=\""@ + x);
    assert(b + "off x=\""@ + x =~= "rId2"@ + seq!['"'] + (b.skip(5) + "off x=\""@ + x));
}

/// The slides have the shape of the first page: the longer side is thirteen and a
/// third inches, and the other one is to it as the sides of the page are, but for
/// what a length loses when it is rounded down.
pub proof fn law_canvas_has_the_shape_of_the_page(width: u32, height: u32)
    requires
        width > 0,
        height > 0,
    ensures
        ({
            let canvas = package::canvas_for(width, height);
            if width >= height {
                canvas.width == 12_192_000 && 0 <= canvas.width * height - canvas.height * width
                    < width
            } else {
                canvas.height == 12_192_000 && 0 <= canvas.height * width - canvas.width * height
                    < height
            }
        }),
{
    package::law_canvas_is_bounded(width, height);
    let w = width as int;
    let h = height as int;
    if w >= h {
        let q = 12_192_000 * h / w;
        assert(0 <= 12_192_000 * h - q * w < w && 0 <= q <= 12_192_000) by (nonlinear_arith)
            requires
                0 < h <= w,
                q == 12_192_000 * h / w,
        ;
    } else {
        let q = 12_192_000 * w / h;
        assert(0 <= 12_192_000 * w - q * h < h && 0 <= q <= 12_192_000) by (nonlinear_arith)
            requires
                0 < w <= h,
                q == 12_192_000 * w / h,
        ;
    }
}

} // verus!
