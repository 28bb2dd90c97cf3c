//! The layout of an object: its size, its last index, a table with one
//! offset for each index up to the last, and the fields behind the table.

use vstd::prelude::*;
use crate::buffer::overwrite;
use crate::endian::{le_bytes, lemma_le_bytes_len, unsigned};
use crate::value::Datum;
use crate::wire::{
    header_size, i32_wire, last_index, lemma_last_index, lemma_wire_len, lemma_wires_len, size,
    sizes, slot_of, slots, table_bytes, wire, wires,
};

verus! {

/// The bytes of an object at `at` while it is being written: `word` where its
/// size will stand, the table after `filled` fields have been entered, and
/// the first `written` fields.
pub open spec fn image(
    indices: Seq<int>,
    fields: Seq<Datum>,
    at: int,
    word: int,
    filled: nat,
    written: nat,
) -> Seq<u8> {
    let base = at + header_size(indices);
    i32_wire(word) + i32_wire(last_index(indices)) + table_bytes(
        slots(indices, fields, base, filled),
    ) + wires(fields, base, written)
}

/// A signed 32-bit number has four bytes.
pub proof fn lemma_i32_wire_len(v: int)
    ensures
        i32_wire(v).len() == 4,
{
    lemma_le_bytes_len(unsigned(v, 4), 4);
}

/// The bytes of zero are zero.
pub proof fn lemma_zero_word()
    ensures
        i32_wire(0) == seq![0u8, 0u8, 0u8, 0u8],
{
    reveal_with_fuel(le_bytes, 5);
    assert(i32_wire(0) =~= seq![0u8, 0u8, 0u8, 0u8]);
}

/// How long the image is.
pub proof fn lemma_image_len(
    indices: Seq<int>,
    fields: Seq<Datum>,
    at: int,
    word: int,
    filled: nat,
    written: nat,
)
    ensures
        image(indices, fields, at, word, filled, written).len() == header_size(indices) + sizes(
            fields,
            written,
        ),
        header_size(indices) >= 8,
{
    lemma_last_index(indices);
    lemma_i32_wire_len(word);
    lemma_i32_wire_len(last_index(indices));
    lemma_wires_len(fields, at + header_size(indices), written);
}

/// A header of zeros with the last index written into it is the image of
/// an object of which nothing has been written yet.
pub proof fn lemma_image_start(indices: Seq<int>, fields: Seq<Datum>, at: int)
    ensures
        overwrite(
            Seq::new(header_size(indices) as nat, |i: int| 0u8),
            4,
            i32_wire(last_index(indices)),
        ) == image(indices, fields, at, 0, 0, 0),
{
    lemma_last_index(indices);
    lemma_zero_word();
    lemma_i32_wire_len(last_index(indices));
    lemma_image_len(indices, fields, at, 0, 0, 0);
    let zeros = Seq::new(header_size(indices) as nat, |i: int| 0u8);
    let left = overwrite(zeros, 4, i32_wire(last_index(indices)));
    let right = image(indices, fields, at, 0, 0, 0);
    let table = table_bytes(slots(indices, fields, at + header_size(indices), 0));
    assert forall|j: int| 0 <= j < right.len() implies left[j] == right[j] by {
        if j >= 8 {
            assert(right[j] == table[j - 8]);
            assert(table[j - 8] == i32_wire(0)[(j - 8) % 4]);
        }
    }
    assert(left =~= right);
}

/// Entering the offset of the next field into the table changes the four
/// bytes of its entry and nothing else.
pub proof fn lemma_image_enter(indices: Seq<int>, fields: Seq<Datum>, at: int, k: nat)
    requires
        k < indices.len(),
        0 <= indices[k as int],
    ensures
        overwrite(
            image(indices, fields, at, 0, k, k),
            8 + 4 * indices[k as int],
            i32_wire(at + header_size(indices) + sizes(fields, k)),
        ) == image(indices, fields, at, 0, k + 1, k),
        8 + 4 * indices[k as int] + 4 <= header_size(indices),
{
    lemma_last_index(indices);
    let i = indices[k as int];
    assert(i <= last_index(indices));
    let base = at + header_size(indices);
    let entry = i32_wire(base + sizes(fields, k));
    lemma_i32_wire_len(base + sizes(fields, k));
    lemma_i32_wire_len(0);
    lemma_i32_wire_len(last_index(indices));
    lemma_image_len(indices, fields, at, 0, k, k);
    lemma_image_len(indices, fields, at, 0, k + 1, k);
    let before = image(indices, fields, at, 0, k, k);
    let after = image(indices, fields, at, 0, k + 1, k);
    let left = overwrite(before, 8 + 4 * i, entry);
    let old_table = table_bytes(slots(indices, fields, base, k));
    let new_table = table_bytes(slots(indices, fields, base, k + 1));
    assert forall|j: int| 0 <= j < after.len() implies left[j] == after[j] by {
        if 8 <= j < header_size(indices) {
            let m = (j - 8) / 4;
            assert(before[j] == old_table[j - 8]);
            assert(after[j] == new_table[j - 8]);
            assert(slot_of(indices, fields, base, m, k + 1) == (if m == i {
                base + sizes(fields, k)
            } else {
                slot_of(indices, fields, base, m, k)
            }));
        }
    }
    assert(left =~= after);
}

/// Writing the next field behind the fields written so far.
pub proof fn lemma_image_append(indices: Seq<int>, fields: Seq<Datum>, at: int, k: nat)
    requires
        k < fields.len(),
    ensures
        image(indices, fields, at, 0, k + 1, k) + wire(
            fields[k as int],
            at + header_size(indices) + sizes(fields, k),
        ) == image(indices, fields, at, 0, k + 1, k + 1),
{
    let base = at + header_size(indices);
    assert(image(indices, fields, at, 0, k + 1, k) + wire(fields[k as int], base + sizes(fields, k))
        =~= image(indices, fields, at, 0, k + 1, k + 1));
}

/// Writing the size in front completes the object.
pub proof fn lemma_image_close(indices: Seq<int>, fields: Seq<Datum>, at: int)
    requires
        indices.len() == fields.len(),
    ensures
        overwrite(
            image(indices, fields, at, 0, fields.len(), fields.len()),
            0,
            i32_wire(size(Datum::Object(indices, fields)) as int),
        ) == wire(Datum::Object(indices, fields), at),
{
    let d = Datum::Object(indices, fields);
    let n = fields.len();
    lemma_i32_wire_len(0);
    lemma_i32_wire_len(size(d) as int);
    lemma_i32_wire_len(last_index(indices));
    lemma_image_len(indices, fields, at, 0, n, n);
    lemma_wire_len(d, at);
    let left = overwrite(image(indices, fields, at, 0, n, n), 0, i32_wire(size(d) as int));
    assert(wire(d, at) == image(indices, fields, at, size(d) as int, n, n));
    assert(left =~= wire(d, at));
}

} // verus!
