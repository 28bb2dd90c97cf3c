//! Values of a shape, and objects seen through a schema that did not write them.

use vstd::prelude::*;
use crate::parse::{case_of, default_of, shape_indices};
use crate::schema::{FieldShape, Shape};
use crate::value::{
    data, field_data, field_indices, lemma_data, lemma_field_data, Datum, Value,
};
use crate::wire::distinct_indices;

verus! {

broadcast use vstd::std_specs::vec::axiom_vec_index_decreases;

/// Whether `d` is a value of `shape`.
pub open spec fn conforms(d: Datum, shape: Shape) -> bool
    decreases shape,
{
    match shape {
        Shape::Bool => d is Bool,
        Shape::Int(kind) => d matches Datum::Int(i) && i.kind() == kind,
        Shape::Str => d is Str,
        Shape::Instant => d is Instant,
        Shape::Duration => d is Duration,
        Shape::HasValue(inner) => d matches Datum::HasValue(x) && (x matches Some(y) ==> conforms(
            *y,
            *inner,
        )),
        Shape::Nullable(inner) => d matches Datum::Nullable(x) && (x matches Some(y) ==> conforms(
            *y,
            *inner,
        )),
        Shape::Tuple(a, b) => d matches Datum::Tuple(x, y) && conforms(*x, *a) && conforms(*y, *b),
        Shape::Struct(fields) => d matches Datum::Struct(values) && values.len() == fields@.len()
            && forall|k: int|
            0 <= k < fields@.len() ==> conforms(#[trigger] values[k], fields@[k]),
        Shape::Object(fields) => d matches Datum::Object(indices, values) && indices
            == shape_indices(fields@) && values.len() == fields@.len() && forall|k: int|
            0 <= k < fields@.len() ==> conforms(#[trigger] values[k], fields@[k].shape),
        Shape::Union(kind, cases) => d matches Datum::Union(key, x) && key.kind() == kind && (
        case_of(cases@, key, 0) matches Some(k) && 0 <= k < cases@.len() && conforms(
            *x,
            cases@[k].shape,
        )),
        Shape::Sequence(inner) => d matches Datum::Sequence(items) && forall|k: int|
            0 <= k < items.len() ==> conforms(#[trigger] items[k], *inner),
    }
}

/// Where the field with index `i` stands among the first `k` fields, if one has that index.
pub open spec fn position(indices: Seq<int>, i: int, k: nat) -> Option<int>
    decreases k,
{
    if k == 0 || k > indices.len() {
        None
    } else if indices[k - 1] == i {
        Some(k - 1)
    } else {
        position(indices, i, (k - 1) as nat)
    }
}

/// What a reader with the fields `schema` makes of an object that was
/// written with `indices` and `values`: the value that was written under
/// the index of a field, and the default of the field where none was.
pub open spec fn seen_through(indices: Seq<int>, values: Seq<Datum>, schema: Seq<FieldShape>) -> Seq<
    Datum,
> {
    Seq::new(
        schema.len(),
        |j: int|
            match position(indices, schema[j].index as int, indices.len()) {
                Some(k) => values[k],
                None => default_of(schema[j].shape),
            },
    )
}

/// Whether each field of `schema` whose index was written has the shape of
/// what was written under it.
pub open spec fn agrees(indices: Seq<int>, values: Seq<Datum>, schema: Seq<FieldShape>) -> bool {
    forall|j: int|
        0 <= j < schema.len() ==> match position(
            indices,
            (#[trigger] schema[j]).index as int,
            indices.len(),
        ) {
            Some(k) => conforms(values[k], schema[j].shape),
            None => true,
        }
}

/// What `position` finds is a field with the index that was asked for, and
/// it finds one wherever there is one.
pub proof fn lemma_position(indices: Seq<int>, i: int, k: nat)
    requires
        k <= indices.len(),
    ensures
        match position(indices, i, k) {
            Some(p) => 0 <= p < k && indices[p] == i,
            None => forall|j: int| 0 <= j < k ==> #[trigger] indices[j] != i,
        },
    decreases k,
{
    if k > 0 && indices[k - 1] != i {
        lemma_position(indices, i, (k - 1) as nat);
    }
}

/// Among indices that are all different, each is found where it stands.
pub proof fn lemma_position_of_own(indices: Seq<int>, k: int)
    requires
        distinct_indices(indices),
        0 <= k < indices.len(),
    ensures
        position(indices, indices[k], indices.len()) == Some(k),
{
    lemma_position(indices, indices[k], indices.len());
}

/// Whether `value` is a value of `shape`.
pub fn conforms_to(value: &Value, shape: &Shape) -> (r: bool)
    ensures
        r == conforms(value@, *shape),
    decreases shape,
{
    match shape {
        Shape::Bool => match value {
            Value::Bool(_) => true,
            _ => false,
        },
        Shape::Int(kind) => match value {
            Value::Int(i) => i.get_kind() == *kind,
            _ => false,
        },
        Shape::Str => match value {
            Value::Str(_) => true,
            _ => false,
        },
        Shape::Instant => match value {
            Value::Instant(_) => true,
            _ => false,
        },
        Shape::Duration => match value {
            Value::Duration(_) => true,
            _ => false,
        },
        Shape::HasValue(inner) => match value {
            Value::HasValue(None) => true,
            Value::HasValue(Some(x)) => conforms_to(x, inner),
            _ => false,
        },
        Shape::Nullable(inner) => match value {
            Value::Nullable(None) => true,
            Value::Nullable(Some(x)) => conforms_to(x, inner),
            _ => false,
        },
        Shape::Tuple(a, b) => match value {
            Value::Tuple(x, y) => conforms_to(x, a) && conforms_to(y, b),
            _ => false,
        },
        Shape::Struct(fields) => match value {
            Value::Struct(values) => {
                proof {
                    lemma_data(values@);
                }
                if values.len() != fields.len() {
                    return false;
                }
                let mut k: usize = 0;
                while k < fields.len()
                    invariant
                        k <= fields@.len(),
                        values@.len() == fields@.len(),
                        *shape == Shape::Struct(*fields),
                        value@ == Datum::Struct(data(values@)),
                        data(values@).len() == values@.len(),
                        forall|j: int|
                            0 <= j < k ==> conforms(#[trigger] data(values@)[j], fields@[j]),
                    decreases fields@.len() - k,
                {
                    proof {
                        lemma_data(values@);
                        assert(shape->Struct_0 == *fields);
                        assert(decreases_to!(*shape => shape->Struct_0));
                        assert(decreases_to!(*fields => fields[k as int]));
                    }
                    if !conforms_to(&values[k], &fields[k]) {
                        proof {
                            assert(!conforms(data(values@)[k as int], fields@[k as int]));
                        }
                        return false;
                    }
                    k = k + 1;
                }
                proof {
                    lemma_data(values@);
                }
                true
            },
            _ => false,
        },
        Shape::Object(fields) => match value {
            Value::Object(values) => {
                proof {
                    lemma_field_data(values@);
                }
                if values.len() != fields.len() {
                    proof {
                        assert(field_indices(values@).len() != shape_indices(fields@).len());
                    }
                    return false;
                }
                let mut k: usize = 0;
                while k < fields.len()
                    invariant
                        k <= fields@.len(),
                        values@.len() == fields@.len(),
                        *shape == Shape::Object(*fields),
                        value@ == Datum::Object(field_indices(values@), field_data(values@)),
                        field_data(values@).len() == values@.len(),
                        forall|j: int|
                            0 <= j < k ==> (#[trigger] values@[j]).index == fields@[j].index,
                        forall|j: int|
                            0 <= j < k ==> conforms(
                                #[trigger] field_data(values@)[j],
                                fields@[j].shape,
                            ),
                    decreases fields@.len() - k,
                {
                    proof {
                        lemma_field_data(values@);
                        assert(shape->Object_0 == *fields);
                        assert(decreases_to!(*shape => shape->Object_0));
                        assert(decreases_to!(*fields => fields[k as int]));
                        assert(decreases_to!(*shape => fields[k as int].shape));
                    }
                    if values[k].index != fields[k].index {
                        proof {
                            assert(field_indices(values@)[k as int] != shape_indices(
                                fields@,
                            )[k as int]);
                            assert(!conforms(value@, *shape));
                        }
                        return false;
                    }
                    if !conforms_to(&values[k].value, &fields[k].shape) {
                        proof {
                            assert(!conforms(
                                field_data(values@)[k as int],
                                fields@[k as int].shape,
                            ));
                            assert(!conforms(value@, *shape));
                        }
                        return false;
                    }
                    k = k + 1;
                }
                proof {
                    lemma_field_data(values@);
                    assert(field_indices(values@) =~= shape_indices(fields@));
                }
                true
            },
            _ => false,
        },
        Shape::Union(kind, cases) => match value {
            Value::Union(key, x) => {
                if key.get_kind() != *kind {
                    return false;
                }
                let mut k: usize = 0;
                while k < cases.len()
                    invariant
                        k <= cases@.len(),
                        *shape == Shape::Union(*kind, *cases),
                        *value == Value::Union(*key, *x),
                        key.kind() == *kind,
                        case_of(cases@, *key, 0) == case_of(cases@, *key, k as nat),
                    decreases cases@.len() - k,
                {
                    if cases[k].key.same(key) {
                        proof {
                            assert(shape->Union_1 == *cases);
                            assert(decreases_to!(*shape => shape->Union_1));
                            assert(decreases_to!(*cases => cases[k as int]));
                            assert(decreases_to!(*shape => cases[k as int].shape));
                            assert(case_of(cases@, *key, 0) == Some(k as int));
                        }
                        return conforms_to(x, &cases[k].shape);
                    }
                    k = k + 1;
                }
                false
            },
            _ => false,
        },
        Shape::Sequence(inner) => match value {
            Value::Sequence(items) => {
                proof {
                    lemma_data(items@);
                }
                let mut k: usize = 0;
                while k < items.len()
                    invariant
                        k <= items@.len(),
                        *shape == Shape::Sequence(*inner),
                        value@ == Datum::Sequence(data(items@)),
                        data(items@).len() == items@.len(),
                        forall|j: int|
                            0 <= j < k ==> conforms(#[trigger] data(items@)[j], **inner),
                    decreases items@.len() - k,
                {
                    proof {
                        lemma_data(items@);
                        assert(shape->Sequence_0 == *inner);
                        assert(decreases_to!(*shape => *shape->Sequence_0));
                    }
                    if !conforms_to(&items[k], inner) {
                        proof {
                            assert(!conforms(value@->Sequence_0[k as int], *shape->Sequence_0));
                        }
                        return false;
                    }
                    k = k + 1;
                }
                proof {
                    lemma_data(items@);
                }
                true
            },
            _ => false,
        },
    }
}

} // verus!
