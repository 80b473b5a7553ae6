//! What the index of a file says of an object.

use vstd::prelude::*;

use crate::pdf::error::Failure;
use crate::pdf::mapped;
use crate::pdf::mapped::big;
use crate::pdf::object;
use crate::pdf::object::XrefEntry;
use crate::pdf::xref;
use crate::pdf::xref_stream;
use crate::table;

verus! {

/// The rows have an ascending number each.
pub open spec fn are_sorted(rows: Seq<(u32, XrefEntry)>) -> bool {
    table::ascending::<u32, XrefEntry>(rows)
}

proof fn lemma_rank(rows: Seq<(u32, XrefEntry)>, j: int, i: int)
    requires
        are_sorted(rows),
        0 <= i <= j < rows.len(),
    ensures
        table::rank::<u32, XrefEntry>(rows, rows[j].0, i) == j,
    decreases j - i,
{
    if i < j {
        assert(rows[i].0 < rows[j].0);
        lemma_rank(rows, j, i + 1);
    }
}

proof fn lemma_absent(rows: Seq<(u32, XrefEntry)>, number: u32)
    requires
        forall|j: int| 0 <= j < rows.len() ==> (#[trigger] rows[j]).0 != number,
    ensures
        object::entry_of(rows, number) is None,
{
    lemma_rank_bounds(rows, number, 0);
}

proof fn lemma_rank_bounds(rows: Seq<(u32, XrefEntry)>, number: u32, i: int)
    requires
        0 <= i <= rows.len(),
    ensures
        i <= table::rank::<u32, XrefEntry>(rows, number, i) <= rows.len(),
    decreases rows.len() - i,
{
    if i < rows.len() {
        lemma_rank_bounds(rows, number, i + 1);
    }
}

proof fn lemma_merged(
    newer: Seq<(u32, XrefEntry)>,
    older: Seq<(u32, XrefEntry)>,
    i: int,
    number: u32,
)
    requires
        are_sorted(newer),
        are_sorted(older),
        0 <= i <= older.len(),
    ensures
        are_sorted(xref::merged(newer, older, i)),
        object::entry_of(newer, number) is Some ==> object::entry_of(
            xref::merged(newer, older, i),
            number,
        ) == object::entry_of(newer, number),
        object::entry_of(newer, number) is None ==> {
            &&& forall|j: int|
                i <= j < older.len() && (#[trigger] older[j]).0 == number ==> object::entry_of(
                    xref::merged(newer, older, i),
                    number,
                ) == Some(older[j].1)
            &&& (forall|j: int| i <= j < older.len() ==> (#[trigger] older[j]).0 != number)
                ==> object::entry_of(xref::merged(newer, older, i), number) is None
        },
    decreases older.len() - i,
{
    if i < older.len() {
        let (key, entry) = older[i];
        if object::entry_of(newer, key) is Some {
            lemma_merged(newer, older, i + 1, number);
        } else {
            let next = table::put::<u32, XrefEntry>(newer, key, entry);
            table::law_put_keeps_order::<u32, XrefEntry>(newer, key, entry);
            table::law_find_after_put::<u32, XrefEntry>(newer, key, entry, number);
            lemma_merged(next, older, i + 1, number);
        }
        assert forall|j: int| i < j < older.len() implies (#[trigger] older[j]).0 != key by {
            assert(older[i].0 < older[j].0);
        }
    }
}

/// What a newer part of the index says of an object hides what an older part
/// says of it; of the other objects the older part is heard.
pub proof fn law_newer_rows_hide_older_ones(
    newer: Seq<(u32, XrefEntry)>,
    older: Seq<(u32, XrefEntry)>,
    number: u32,
)
    requires
        are_sorted(newer),
        are_sorted(older),
    ensures
        object::entry_of(xref::merged(newer, older, 0), number) == (if object::entry_of(
            newer,
            number,
        ) is Some {
            object::entry_of(newer, number)
        } else {
            object::entry_of(older, number)
        }),
{
    lemma_merged(newer, older, 0, number);
    if exists|j: int| 0 <= j < older.len() && (#[trigger] older[j]).0 == number {
        let j = choose|j: int| 0 <= j < older.len() && (#[trigger] older[j]).0 == number;
        lemma_rank(older, j, 0);
    } else {
        lemma_absent(older, number);
    }
}

/// The three fields of a row: the kind, then an offset or the number of a
/// stream, then a generation or a place in the stream. Without a first field the
/// kind is 1.
pub open spec fn meaning(kind: Seq<u8>, second: Seq<u8>, third: Seq<u8>) -> Option<XrefEntry> {
    let k = if kind.len() == 0 {
        1
    } else {
        big(kind)
    };
    if k == 0 {
        Some(XrefEntry::Free)
    } else if k == 1 && 0 < big(second) <= usize::MAX && big(third) <= 65_535 {
        Some(XrefEntry::Direct { offset: big(second) as usize, generation: big(third) as u16 })
    } else if k == 2 && 0 < big(second) <= u32::MAX && big(third) < 10_000 {
        Some(
            XrefEntry::Compressed {
                stream_number: big(second) as u32,
                index: big(third) as usize,
            },
        )
    } else {
        None
    }
}

/// A row of a compressed index is read field by field.
pub proof fn law_rows_are_read_field_by_field(
    before: Seq<u8>,
    kind: Seq<u8>,
    second: Seq<u8>,
    third: Seq<u8>,
    rest: Seq<u8>,
    number: int,
)
    requires
        number > 0,
        kind.len() <= usize::MAX && second.len() <= usize::MAX && third.len() <= usize::MAX,
    ensures
        ({
            let data = before + kind + second + third + rest;
            let widths = (kind.len() as usize, second.len() as usize, third.len() as usize);
            let entry = xref_stream::entry_at(data, widths, number, before.len() as int);
            match meaning(kind, second, third) {
                Some(meant) => entry == Ok::<XrefEntry, Failure>(meant),
                None => entry is Err,
            }
        }),
{
    let data = before + kind + second + third + rest;
    let a = before.len() + kind.len();
    let b = a + second.len();
    let c = b + third.len();
    mapped::lemma_big(kind);
    mapped::lemma_big(second);
    mapped::lemma_big(third);
    assert(data.subrange(before.len() as int, a as int) =~= kind);
    assert(data.subrange(a as int, b as int) =~= second);
    assert(data.subrange(b as int, c as int) =~= third);
}

proof fn lemma_range(
    data: Seq<u8>,
    widths: (usize, usize, usize),
    first: usize,
    count: usize,
    k: int,
    rows: Seq<(u32, XrefEntry)>,
    j: int,
)
    requires
        0 <= k <= count,
        0 <= j < count,
        are_sorted(rows),
        forall|n: u32|
            first + k <= n ==> #[trigger] object::entry_of(rows, n) is None,
        j < k ==> first + j <= u32::MAX && xref_stream::entry_at(
            data,
            widths,
            first + j,
            j * (widths.0 + widths.1 + widths.2),
        ) is Ok && object::entry_of(rows, (first + j) as u32) == Some(
            xref_stream::entry_at(
                data,
                widths,
                first + j,
                j * (widths.0 + widths.1 + widths.2),
            )->Ok_0,
        ),
        xref_stream::entries_from(
            data,
            widths,
            seq![(first, count)],
            0,
            k,
            k * (widths.0 + widths.1 + widths.2),
            rows,
        ) is Ok,
    ensures
        ({
            let all = xref_stream::entries_from(
                data,
                widths,
                seq![(first, count)],
                0,
                k,
                k * (widths.0 + widths.1 + widths.2),
                rows,
            )->Ok_0;
            let entry = xref_stream::entry_at(
                data,
                widths,
                first + j,
                j * (widths.0 + widths.1 + widths.2),
            );
            &&& first + j <= u32::MAX
            &&& entry is Ok
            &&& object::entry_of(all, (first + j) as u32) == Some(entry->Ok_0)
        }),
    decreases count - k,
{
    let w = widths.0 + widths.1 + widths.2;
    let ranges = seq![(first, count)];
    if k < count {
        let number = first + k;
        let entry = xref_stream::entry_at(data, widths, number, k * w)->Ok_0;
        assert(number <= u32::MAX);
        let next = table::put::<u32, XrefEntry>(rows, number as u32, entry);
        table::law_put_keeps_order::<u32, XrefEntry>(rows, number as u32, entry);
        table::law_find_after_put::<u32, XrefEntry>(rows, number as u32, entry, number as u32);
        assert forall|n: u32| first + k + 1 <= n implies #[trigger] object::entry_of(
            next,
            n,
        ) is None by {
            table::law_find_after_put::<u32, XrefEntry>(rows, number as u32, entry, n);
            assert(object::entry_of(rows, n) is None);
        }
        if j < k {
            table::law_find_after_put::<u32, XrefEntry>(
                rows,
                number as u32,
                entry,
                (first + j) as u32,
            );
        }
        assert((k + 1) * w == k * w + w) by (nonlinear_arith);
        assert(k * w + widths.0 + widths.1 + widths.2 == (k + 1) * w);
        lemma_range(data, widths, first, count, k + 1, next, j);
    } else {
        assert(xref_stream::entries_from(data, widths, ranges, 1, 0, k * w, rows) == Ok::<
            Seq<(u32, XrefEntry)>,
            Failure,
        >(rows));
    }
}

/// The rows of a range stand one behind the other: the `j`-th is that of the
/// object whose number is `j` more than that of the first.
pub proof fn law_rows_stand_in_order(
    data: Seq<u8>,
    widths: (usize, usize, usize),
    first: usize,
    count: usize,
    j: int,
)
    requires
        0 <= j < count,
        xref_stream::entries_from(
            data,
            widths,
            seq![(first, count)],
            0,
            0,
            0,
            Seq::empty(),
        ) is Ok,
    ensures
        ({
            let rows = xref_stream::entries_from(
                data,
                widths,
                seq![(first, count)],
                0,
                0,
                0,
                Seq::empty(),
            )->Ok_0;
            let entry = xref_stream::entry_at(
                data,
                widths,
                first + j,
                j * (widths.0 + widths.1 + widths.2),
            );
            &&& first + j <= u32::MAX
            &&& entry is Ok
            &&& object::entry_of(rows, (first + j) as u32) == Some(entry->Ok_0)
        }),
{
    let none = Seq::<(u32, XrefEntry)>::empty();
    assert forall|n: u32| #[trigger] object::entry_of(none, n) is None by {
        lemma_absent(none, n);
    }
    assert(0 * (widths.0 + widths.1 + widths.2) == 0) by (nonlinear_arith);
    lemma_range(data, widths, first, count, 0, none, j);
}

} // verus!
