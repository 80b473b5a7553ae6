//! Where outputs may not go.

use vstd::prelude::*;

use crate::jobs::kind::Platform;
use crate::jobs::request;
use crate::words;
use crate::words::{lacks, strung};

verus! {

/// The directories of the system.
pub open spec fn system_names() -> Seq<Seq<char>> {
    seq!["System"@, "Library"@, "Applications"@, "usr"@, "bin"@, "sbin"@, "etc"@]
}

/// A name on a path.
pub open spec fn is_name(name: Seq<char>) -> bool {
    name.len() > 0 && name != "."@ && lacks(name, '/')
}

proof fn lemma_first(name: Seq<char>, rest: Seq<Seq<char>>)
    requires
        is_name(name),
        forall|k: int| 0 <= k < rest.len() ==> lacks(#[trigger] rest[k], '/'),
    ensures
        ({
            let named = |part: Seq<char>| part.len() > 0 && part != "."@;
            request::path_parts(strung(seq![Seq::<char>::empty(), name] + rest, '/')) == seq![name]
                + rest.filter(named)
        }),
{
    let named = |part: Seq<char>| part.len() > 0 && part != "."@;
    let empty = Seq::<char>::empty();
    let start = seq![empty, name];
    let parts = start + rest;
    assert forall|k: int| 0 <= k < parts.len() implies lacks(#[trigger] parts[k], '/') by {
        if k >= 2 {
            assert(parts[k] == rest[k - 2]);
        }
    }
    words::law_cutting_undoes_stringing(parts, '/');
    Seq::filter_distributes_over_add(start, rest, named);
    reveal(Seq::filter);
    assert(start.drop_last() =~= seq![empty]);
    assert(start.drop_last().drop_last() =~= Seq::<Seq<char>>::empty());
    assert(Seq::<Seq<char>>::empty().filter(named) =~= Seq::<Seq<char>>::empty());
    assert(start.drop_last().filter(named) =~= Seq::<Seq<char>>::empty());
    assert(start.filter(named) =~= seq![name]);
}

/// A path from the root is refused where its first name is that of a directory of
/// the system, whatever stands below; empty parts and dots before it and behind
/// it do not matter.
pub proof fn law_system_directories_are_refused(name: Seq<char>, rest: Seq<Seq<char>>)
    requires
        is_name(name),
        name != "private"@,
        forall|k: int| 0 <= k < rest.len() ==> lacks(#[trigger] rest[k], '/'),
    ensures
        request::forbidden(
            strung(seq![Seq::<char>::empty(), name] + rest, '/'),
            Platform::Other,
        ) <==> system_names().contains(name),
{
    let parts = seq![Seq::<char>::empty(), name] + rest;
    let path = strung(parts, '/');
    lemma_first(name, rest);
    assert(parts[0].len() == 0);
    assert(path[0] == '/');
    let list = system_names();
    assert(list[0] == "System"@ && list[1] == "Library"@ && list[2] == "Applications"@ && list[3]
        == "usr"@ && list[4] == "bin"@ && list[5] == "sbin"@ && list[6] == "etc"@);
    assert(request::path_parts(path)[0] == name);
}

} // verus!
