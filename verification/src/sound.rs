//! Shapes whose values can all be written, and what a reader returns for them.

use vstd::prelude::*;
use crate::buffer::readable;
use crate::conform::conforms;
use crate::endian::{lemma_le_value_bound, lemma_radix_values};
use crate::parse::{
    case_of, default_of, default_of_field, default_of_item, i32_in, int_in, parse, parse_case,
    parse_each, parse_field, parse_fields, parse_run, shape_indices, unsigned_in,
};
use crate::schema::{CaseShape, FieldShape, Int, Shape};
use crate::value::Datum;
use crate::wire::{all_valid, distinct_indices, starts_with_size, valid};

verus! {

broadcast use vstd::std_specs::vec::axiom_vec_index_decreases;

/// Whether every value of `shape` that a reader can return has an encoding:
/// what may be absent stands behind the mark that its shape asks for, the
/// indices of an object are not negative and all different, and a union has
/// a case and keys of its own kind.
pub open spec fn sound(shape: Shape) -> bool
    decreases shape,
{
    match shape {
        Shape::Bool | Shape::Int(_) | Shape::Str | Shape::Instant | Shape::Duration => true,
        Shape::HasValue(inner) => !inner.starts_with_size() && sound(*inner),
        Shape::Nullable(inner) => inner.starts_with_size() && sound(*inner),
        Shape::Tuple(a, b) => sound(*a) && sound(*b),
        Shape::Struct(fields) => forall|k: int|
            0 <= k < fields@.len() ==> sound(#[trigger] fields@[k]),
        Shape::Object(fields) => distinct_indices(shape_indices(fields@)) && forall|k: int|
            0 <= k < fields@.len() ==> sound((#[trigger] fields@[k]).shape),
        Shape::Union(kind, cases) => cases@.len() > 0 && forall|k: int|
            0 <= k < cases@.len() ==> (#[trigger] cases@[k]).key.kind() == kind && sound(
                cases@[k].shape,
            ),
        Shape::Sequence(inner) => sound(*inner),
    }
}

/// The default of a sound shape is a value of the shape and has an encoding.
pub proof fn lemma_default_sound(shape: Shape)
    requires
        sound(shape),
    ensures
        conforms(default_of(shape), shape),
        valid(default_of(shape)),
    decreases shape,
{
    let d = default_of(shape);
    match shape {
        Shape::Tuple(a, b) => {
            lemma_default_sound(*a);
            lemma_default_sound(*b);
        },
        Shape::Struct(fields) => {
            let values = d->Struct_0;
            assert(decreases_to!(shape => shape->Struct_0));
            assert forall|k: int| 0 <= k < fields@.len() implies conforms(
                values[k],
                fields@[k],
            ) && valid(#[trigger] values[k]) by {
                assert(values[k] == default_of_item(fields@, k));
                lemma_default_sound(fields@[k]);
            }
            assert(all_valid(values));
        },
        Shape::Object(fields) => {
            let values = d->Object_1;
            assert(decreases_to!(shape => shape->Object_0));
            assert forall|k: int| 0 <= k < fields@.len() implies conforms(
                values[k],
                fields@[k].shape,
            ) && valid(#[trigger] values[k]) by {
                assert(values[k] == default_of_field(fields@, k));
                lemma_default_sound(fields@[k].shape);
            }
            assert(all_valid(values));
        },
        Shape::Union(kind, cases) => {
            assert(decreases_to!(shape => shape->Union_1));
            lemma_default_sound(cases@[0].shape);
            assert(case_of(cases@, cases@[0].key, 0) == Some(0int));
        },
        Shape::Sequence(_) => {
            assert(all_valid(Seq::<Datum>::empty()));
        },
        _ => {},
    }
}

/// What `case_of` finds is a case with the key that was asked for.
pub proof fn lemma_case_of(cases: Seq<CaseShape>, key: Int, k: nat)
    ensures
        case_of(cases, key, k) matches Some(p) ==> k <= p < cases.len() && cases[p].key == key,
    decreases cases.len() - k,
{
    if k < cases.len() && cases[k as int].key != key {
        lemma_case_of(cases, key, k + 1);
    }
}

/// What a reader returns for a sound shape is a value of the shape, and it
/// has an encoding: it can be written again.
pub proof fn lemma_parse_sound(shape: Shape, bytes: Seq<u8>, at: int)
    requires
        sound(shape),
        parse(shape, bytes, at) is Ok,
    ensures
        conforms(parse(shape, bytes, at)->Ok_0.0, shape),
        valid(parse(shape, bytes, at)->Ok_0.0),
    decreases shape, 1nat,
{
    match shape {
        Shape::Bool | Shape::Int(_) | Shape::Str | Shape::Instant | Shape::Duration => {
            lemma_parse_sound_flat(shape, bytes, at);
        },
        Shape::HasValue(inner) => {
            if unsigned_in(bytes, at, 1) == Some(1nat) {
                lemma_parse_sound(*inner, bytes, at + 1);
                lemma_parse_kind(*inner, bytes, at + 1);
            }
        },
        Shape::Nullable(inner) => {
            if i32_in(bytes, at) != Some(-1int) {
                lemma_parse_sound(*inner, bytes, at);
                lemma_parse_kind(*inner, bytes, at);
            }
        },
        Shape::Tuple(a, b) => {
            lemma_parse_sound(*a, bytes, at);
            lemma_parse_sound(*b, bytes, parse(*a, bytes, at)->Ok_0.1);
        },
        Shape::Struct(fields) => {
            assert(decreases_to!(shape => shape->Struct_0));
            lemma_parse_each_sound(fields@, bytes, at, fields@.len());
            assert(all_valid(parse(shape, bytes, at)->Ok_0.0->Struct_0));
        },
        Shape::Object(fields) => {
            assert(decreases_to!(shape => shape->Object_0));
            let last = i32_in(bytes, at + 4)->Some_0;
            lemma_parse_fields_sound(fields@, bytes, at, last, fields@.len());
            assert(all_valid(parse(shape, bytes, at)->Ok_0.0->Object_1));
        },
        Shape::Union(kind, cases) => {
            assert(decreases_to!(shape => shape->Union_1));
            let key = int_in(bytes, at + 4, kind)->Some_0;
            let k = case_of(cases@, key, 0)->Some_0;
            lemma_case_of(cases@, key, 0);
            assert(parse_case(cases@, k, bytes, at + 4 + kind.width()) == parse(
                cases@[k].shape,
                bytes,
                at + 4 + kind.width(),
            ));
            lemma_parse_sound(cases@[k].shape, bytes, at + 4 + kind.width());
        },
        Shape::Sequence(inner) => {
            let count = i32_in(bytes, at)->Some_0;
            lemma_radix_values();
            if readable(bytes, at, 4) {
                lemma_le_value_bound(bytes.subrange(at, at + 4));
            }
            lemma_parse_run_sound(*inner, bytes, at + 4, count as nat);
            assert(all_valid(parse(shape, bytes, at)->Ok_0.0->Sequence_0));
        },
    }
}

/// What a reader returns for a shape that holds no other shape is a value
/// of the shape and has an encoding.
pub proof fn lemma_parse_sound_flat(shape: Shape, bytes: Seq<u8>, at: int)
    requires
        shape is Bool || shape is Int || shape is Str || shape is Instant || shape is Duration,
        parse(shape, bytes, at) is Ok,
    ensures
        conforms(parse(shape, bytes, at)->Ok_0.0, shape),
        valid(parse(shape, bytes, at)->Ok_0.0),
{
    lemma_radix_values();
    if readable(bytes, at, 8) {
        lemma_le_value_bound(bytes.subrange(at, at + 8));
    }
    if readable(bytes, at + 8, 4) {
        lemma_le_value_bound(bytes.subrange(at + 8, at + 12));
    }
    match shape {
        Shape::Int(kind) => {
            if readable(bytes, at, kind.width() as int) {
                lemma_le_value_bound(bytes.subrange(at, at + kind.width()));
            }
        },
        _ => {},
    }
}

/// What a reader returns begins with a size or a count where its shape says so, and only there.
pub proof fn lemma_parse_kind(shape: Shape, bytes: Seq<u8>, at: int)
    requires
        parse(shape, bytes, at) is Ok,
    ensures
        starts_with_size(parse(shape, bytes, at)->Ok_0.0) == shape.starts_with_size(),
{
}

/// The fields of a struct that a reader returns are values of their shapes.
pub proof fn lemma_parse_each_sound(shapes: Seq<Shape>, bytes: Seq<u8>, at: int, k: nat)
    requires
        k <= shapes.len(),
        forall|j: int| 0 <= j < shapes.len() ==> sound(#[trigger] shapes[j]),
        parse_each(shapes, bytes, at, k) is Ok,
    ensures
        parse_each(shapes, bytes, at, k)->Ok_0.0.len() == k,
        forall|j: int|
            0 <= j < k ==> conforms(parse_each(shapes, bytes, at, k)->Ok_0.0[j], shapes[j])
                && valid(#[trigger] parse_each(shapes, bytes, at, k)->Ok_0.0[j]),
    decreases shapes, k,
{
    if k > 0 {
        lemma_parse_each_sound(shapes, bytes, at, (k - 1) as nat);
        let mid = parse_each(shapes, bytes, at, (k - 1) as nat)->Ok_0.1;
        lemma_parse_sound(shapes[k - 1], bytes, mid);
    }
}

/// The elements of a sequence that a reader returns are values of its shape.
pub proof fn lemma_parse_run_sound(shape: Shape, bytes: Seq<u8>, at: int, k: nat)
    requires
        sound(shape),
        parse_run(shape, bytes, at, k) is Ok,
    ensures
        parse_run(shape, bytes, at, k)->Ok_0.0.len() == k,
        forall|j: int|
            0 <= j < k ==> conforms(#[trigger] parse_run(shape, bytes, at, k)->Ok_0.0[j], shape)
                && valid(parse_run(shape, bytes, at, k)->Ok_0.0[j]),
    decreases shape, 2 + k,
{
    if k > 0 {
        lemma_parse_run_sound(shape, bytes, at, (k - 1) as nat);
        let mid = parse_run(shape, bytes, at, (k - 1) as nat)->Ok_0.1;
        lemma_parse_sound(shape, bytes, mid);
    }
}

/// The fields of an object that a reader returns are values of their shapes.
pub proof fn lemma_parse_fields_sound(
    fields: Seq<FieldShape>,
    bytes: Seq<u8>,
    start: int,
    last: int,
    k: nat,
)
    requires
        k <= fields.len(),
        forall|j: int| 0 <= j < fields.len() ==> sound((#[trigger] fields[j]).shape),
        parse_fields(fields, bytes, start, last, k) is Ok,
    ensures
        parse_fields(fields, bytes, start, last, k)->Ok_0.len() == k,
        forall|j: int|
            0 <= j < k ==> conforms(
                parse_fields(fields, bytes, start, last, k)->Ok_0[j],
                fields[j].shape,
            ) && valid(#[trigger] parse_fields(fields, bytes, start, last, k)->Ok_0[j]),
    decreases fields, k,
{
    if k > 0 {
        lemma_parse_fields_sound(fields, bytes, start, last, (k - 1) as nat);
        let field = fields[k - 1];
        lemma_default_sound(field.shape);
        if 0 <= field.index <= last {
            match i32_in(bytes, start + 8 + 4 * field.index) {
                Some(slot) => {
                    if slot > 0 {
                        lemma_parse_sound(field.shape, bytes, slot);
                    }
                },
                None => {},
            }
        }
        assert(parse_field(field, bytes, start, last) is Ok);
    }
}

/// Whether no index of `fields` is negative and none occurs twice.
fn check_shape_indices(fields: &Vec<FieldShape>) -> (r: bool)
    ensures
        r == distinct_indices(shape_indices(fields@)),
{
    let ghost indices = shape_indices(fields@);
    let mut k: usize = 0;
    while k < fields.len()
        invariant
            k <= fields@.len(),
            indices == shape_indices(fields@),
            forall|j: int| 0 <= j < k ==> 0 <= #[trigger] indices[j] <= i32::MAX,
            forall|a: int, b: int|
                0 <= a < b < k ==> #[trigger] indices[a] != #[trigger] indices[b],
        decreases fields@.len() - k,
    {
        if fields[k].index < 0 {
            proof {
                assert(indices[k as int] < 0);
            }
            return false;
        }
        let mut j: usize = 0;
        while j < k
            invariant
                j <= k < fields@.len(),
                indices == shape_indices(fields@),
                forall|a: int| 0 <= a < j ==> #[trigger] indices[a] != indices[k as int],
            decreases k - j,
        {
            if fields[j].index == fields[k].index {
                proof {
                    assert(indices[j as int] == indices[k as int]);
                }
                return false;
            }
            j = j + 1;
        }
        k = k + 1;
    }
    true
}

/// Whether `shape` is sound.
pub fn is_sound(shape: &Shape) -> (r: bool)
    ensures
        r == sound(*shape),
    decreases shape,
{
    match shape {
        Shape::Bool | Shape::Int(_) | Shape::Str | Shape::Instant | Shape::Duration => true,
        Shape::HasValue(inner) => !inner.is_sized() && is_sound(inner),
        Shape::Nullable(inner) => inner.is_sized() && is_sound(inner),
        Shape::Tuple(a, b) => is_sound(a) && is_sound(b),
        Shape::Struct(fields) => {
            let mut k: usize = 0;
            while k < fields.len()
                invariant
                    k <= fields@.len(),
                    *shape == Shape::Struct(*fields),
                    forall|j: int| 0 <= j < k ==> sound(#[trigger] fields@[j]),
                decreases fields@.len() - k,
            {
                proof {
                    assert(shape->Struct_0 == *fields);
                    assert(decreases_to!(*shape => shape->Struct_0));
                    assert(decreases_to!(*fields => fields[k as int]));
                }
                if !is_sound(&fields[k]) {
                    return false;
                }
                k = k + 1;
            }
            true
        },
        Shape::Object(fields) => {
            if !check_shape_indices(fields) {
                return false;
            }
            let mut k: usize = 0;
            while k < fields.len()
                invariant
                    k <= fields@.len(),
                    *shape == Shape::Object(*fields),
                    distinct_indices(shape_indices(fields@)),
                    forall|j: int| 0 <= j < k ==> sound((#[trigger] fields@[j]).shape),
                decreases fields@.len() - k,
            {
                proof {
                    assert(shape->Object_0 == *fields);
                    assert(decreases_to!(*shape => shape->Object_0));
                    assert(decreases_to!(*fields => fields[k as int]));
                    assert(decreases_to!(*shape => fields[k as int].shape));
                }
                if !is_sound(&fields[k].shape) {
                    return false;
                }
                k = k + 1;
            }
            true
        },
        Shape::Union(kind, cases) => {
            if cases.len() == 0 {
                return false;
            }
            let mut k: usize = 0;
            while k < cases.len()
                invariant
                    k <= cases@.len(),
                    *shape == Shape::Union(*kind, *cases),
                    forall|j: int|
                        0 <= j < k ==> (#[trigger] cases@[j]).key.kind() == *kind && sound(
                            cases@[j].shape,
                        ),
                decreases cases@.len() - k,
            {
                proof {
                    assert(shape->Union_1 == *cases);
                    assert(decreases_to!(*shape => shape->Union_1));
                    assert(decreases_to!(*cases => cases[k as int]));
                    assert(decreases_to!(*shape => cases[k as int].shape));
                }
                if cases[k].key.get_kind() != *kind || !is_sound(&cases[k].shape) {
                    return false;
                }
                k = k + 1;
            }
            true
        },
        Shape::Sequence(inner) => is_sound(inner),
    }
}

} // verus!
