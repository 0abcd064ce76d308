//! Moving points between buffers of different layouts: the attributes that
//! both layouts name are carried over, converted where their types differ.

use crate::containers::{
    lemma_chunk_of_attribute_range, zero_point, BufferError, PointBuffer, PointBufferWriteable,
    PointsModel,
};
use crate::conversion::{
    conversion_between, conversion_supported, converted, get_converter, holds_numbers,
    lemma_round_trip_from_narrower, AttributeConversion,
};
use crate::endian::ByteOrder;
use crate::layout::{
    field_index, has_field, layout_wf, lemma_field_index_unique,
    lemma_fields_aligned_and_disjoint, point_size, FieldModel, PointLayout,
};
use vstd::prelude::*;

verus! {

/// The value that a transfer with `conversion` makes of `value`.
pub open spec fn transferred(value: Seq<u8>, conversion: AttributeConversion) -> Seq<u8> {
    match conversion {
        AttributeConversion::Function(f) => f.spec_convert(value),
        _ => value,
    }
}

/// Both layouts hold an attribute called `name`, and `conversion` leads from
/// the type it has in the source to the type it has in the target.
pub open spec fn transfer_ready(
    target_fields: Seq<FieldModel>,
    source_fields: Seq<FieldModel>,
    name: Seq<char>,
    conversion: AttributeConversion,
) -> bool {
    &&& has_field(target_fields, name)
    &&& has_field(source_fields, name)
    &&& match conversion {
        AttributeConversion::Identity => source_fields[field_index(source_fields, name)].datatype
            == target_fields[field_index(target_fields, name)].datatype,
        AttributeConversion::Function(f) => f.wf() && f.spec_source_type()
            == source_fields[field_index(source_fields, name)].datatype && f.spec_target_type()
            == target_fields[field_index(target_fields, name)].datatype,
        AttributeConversion::Unavailable => true,
    }
}

/// Writes the values that the attribute called `name` has in the points of
/// `source` into the points of `target` from `first` on, converted by
/// `conversion`. With no conversion available nothing is written. Refused,
/// with the target untouched, where the machine cannot address the values.
pub fn transfer_attribute<T: PointBufferWriteable, S: PointBuffer>(
    target: &mut T,
    first: usize,
    source: &S,
    name: &str,
    conversion: AttributeConversion,
) -> (result: Result<(), BufferError>)
    requires
        old(target).wf(),
        source.wf(),
        old(target)@.len() == first + source@.len(),
        transfer_ready(old(target)@.fields, source@.fields, name@, conversion),
    ensures
        final(target).wf(),
        final(target)@.fields == old(target)@.fields,
        final(target)@.len() == old(target)@.len(),
        result is Err <==> conversion != AttributeConversion::Unavailable && (source@.len()
            * source@.fields[field_index(source@.fields, name@)].size() > usize::MAX
            || source@.len() * old(target)@.fields[field_index(
            old(target)@.fields,
            name@,
        )].size() > usize::MAX),
        result matches Err(e) ==> e == BufferError::CapacityOverflow && final(target)@ == old(target)@,
        result is Ok ==> forall|p: int, b: int|
            0 <= p < old(target)@.len() && 0 <= b < old(target)@.fields.len()
                ==> #[trigger] final(target)@.values[p][b] == if conversion
                != AttributeConversion::Unavailable && b == field_index(
                old(target)@.fields,
                name@,
            ) && p >= first {
                transferred(
                    source@.values[p - first][field_index(source@.fields, name@)],
                    conversion,
                )
            } else {
                old(target)@.values[p][b]
            },
{
    let count: usize = source.len();
    let total: usize = target.len();
    proof {
        source.lemma_wf();
        old(target).lemma_wf();
    }
    if let AttributeConversion::Unavailable = conversion {
        return Ok(());
    }
    let source_definition = source.point_layout().get_attribute_by_name(name).unwrap().definition();
    let target_definition = target.point_layout().get_attribute_by_name(name).unwrap().definition();
    let ghost source_index = field_index(source@.fields, name@);
    let ghost target_index = field_index(target@.fields, name@);
    let source_bytes: usize = match count.checked_mul(source_definition.size() as usize) {
        Some(n) => n,
        None => {
            return Err(BufferError::CapacityOverflow);
        },
    };
    let target_bytes: usize = match count.checked_mul(target_definition.size() as usize) {
        Some(n) => n,
        None => {
            return Err(BufferError::CapacityOverflow);
        },
    };
    let mut values: Vec<u8> = vec![0u8; source_bytes];
    let read = source.get_raw_attribute_range(0..count, &source_definition, values.as_mut_slice());
    assert(read is Ok);
    let ghost before = target@;
    match conversion {
        AttributeConversion::Function(function) => {
            let mut results: Vec<u8> = vec![0u8; target_bytes];
            function.convert_range(values.as_slice(), count, results.as_mut_slice());
            let written = target.set_raw_attribute_range(
                first..total,
                &target_definition,
                results.as_slice(),
            );
            assert(written is Ok);
            proof {
                target.lemma_wf();
                assert forall|p: int, b: int|
                    0 <= p < before.len() && 0 <= b < before.fields.len() implies (
                #[trigger] target@.values[p][b])
                    == if b == target_index && p >= first {
                    transferred(source@.values[p - first][source_index], conversion)
                } else {
                    before.values[p][b]
                } by {
                    if b == target_index && p >= first {
                        lemma_chunk_of_attribute_range(
                            source@,
                            source_index,
                            0,
                            count as int,
                            p - first,
                        );
                    }
                }
            }
        },
        _ => {
            let written = target.set_raw_attribute_range(
                first..total,
                &target_definition,
                values.as_slice(),
            );
            assert(written is Ok);
            proof {
                target.lemma_wf();
                assert forall|p: int, b: int|
                    0 <= p < before.len() && 0 <= b < before.fields.len() implies (
                #[trigger] target@.values[p][b])
                    == if b == target_index && p >= first {
                    transferred(source@.values[p - first][source_index], conversion)
                } else {
                    before.values[p][b]
                } by {
                    if b == target_index && p >= first {
                        lemma_chunk_of_attribute_range(
                            source@,
                            source_index,
                            0,
                            count as int,
                            p - first,
                        );
                    }
                }
            }
        },
    }
    Ok(())
}

/// The source holds the attribute of `target_field` in a type that can be
/// carried over into the target's.
pub open spec fn carries(target_field: FieldModel, source_fields: Seq<FieldModel>) -> bool {
    has_field(source_fields, target_field.name) && {
        let from = source_fields[field_index(source_fields, target_field.name)].datatype;
        from == target_field.datatype || conversion_supported(from, target_field.datatype)
    }
}

/// The value that point number `point` of `source` gives the attribute
/// `target_field`: the source's value of that name, converted where the
/// types differ, and zero bytes where the source has no such attribute or no
/// conversion exists.
pub open spec fn carried_value(
    target_field: FieldModel,
    source: PointsModel,
    point: int,
    order: ByteOrder,
) -> Seq<u8> {
    if carries(target_field, source.fields) {
        let index = field_index(source.fields, target_field.name);
        let from = source.fields[index].datatype;
        if from == target_field.datatype {
            source.values[point][index]
        } else {
            converted(source.values[point][index], from, target_field.datatype, order)
        }
    } else {
        Seq::new(target_field.size(), |i: int| 0u8)
    }
}

/// The points of `source` as points of the layout `target_fields`.
pub open spec fn carried_points(
    target_fields: Seq<FieldModel>,
    source: PointsModel,
    order: ByteOrder,
) -> Seq<Seq<Seq<u8>>> {
    Seq::new(
        source.len(),
        |p: int|
            Seq::new(
                target_fields.len(),
                |b: int| carried_value(target_fields[b], source, p, order),
            ),
    )
}

/// The machine can address the values of every attribute that `count`
/// points carry over from `source_fields` to `target_fields`, in the type
/// they have in the source and in the type they get in the target.
pub open spec fn transfers_fit(
    target_fields: Seq<FieldModel>,
    source_fields: Seq<FieldModel>,
    count: nat,
) -> bool {
    forall|b: int|
        0 <= b < target_fields.len() && carries(#[trigger] target_fields[b], source_fields)
            ==> count * target_fields[b].size() <= usize::MAX && count
            * source_fields[field_index(source_fields, target_fields[b].name)].size()
            <= usize::MAX
}

/// There is one conversion for every attribute of the target, and each
/// leads from the type that the source has for that attribute, if it has
/// it, to the target's.
pub open spec fn conversions_ready(
    target_fields: Seq<FieldModel>,
    source_fields: Seq<FieldModel>,
    conversions: Seq<AttributeConversion>,
) -> bool {
    &&& conversions.len() == target_fields.len()
    &&& forall|b: int|
        0 <= b < target_fields.len() && has_field(source_fields, (#[trigger] target_fields[b]).name)
            ==> transfer_ready(target_fields, source_fields, target_fields[b].name, conversions[b])
}

/// The value that point number `point` of `source` gives the attribute
/// `target_field` under `conversion`: the source's value of that name,
/// converted, and zero bytes where the source has no such attribute or no
/// conversion is available.
pub open spec fn moved_value(
    target_field: FieldModel,
    source: PointsModel,
    point: int,
    conversion: AttributeConversion,
) -> Seq<u8> {
    if has_field(source.fields, target_field.name) && conversion
        != AttributeConversion::Unavailable {
        transferred(
            source.values[point][field_index(source.fields, target_field.name)],
            conversion,
        )
    } else {
        Seq::new(target_field.size(), |i: int| 0u8)
    }
}

/// The points of `source` as points of the layout `target_fields`, each
/// attribute under its conversion.
pub open spec fn moved_points(
    target_fields: Seq<FieldModel>,
    source: PointsModel,
    conversions: Seq<AttributeConversion>,
) -> Seq<Seq<Seq<u8>>> {
    Seq::new(
        source.len(),
        |p: int|
            Seq::new(
                target_fields.len(),
                |b: int| moved_value(target_fields[b], source, p, conversions[b]),
            ),
    )
}

/// The machine can address the values of every attribute that `count`
/// points move from `source_fields` to `target_fields`.
pub open spec fn moves_fit(
    target_fields: Seq<FieldModel>,
    source_fields: Seq<FieldModel>,
    conversions: Seq<AttributeConversion>,
    count: nat,
) -> bool {
    forall|b: int|
        0 <= b < target_fields.len() && has_field(source_fields, (#[trigger] target_fields[b]).name)
            && conversions[b] != AttributeConversion::Unavailable ==> count
            * target_fields[b].size() <= usize::MAX && count * source_fields[field_index(
            source_fields,
            target_fields[b].name,
        )].size() <= usize::MAX
}

/// Tells whether the machine can address the values of every attribute that
/// `count` points of `source` move to `target`.
fn check_moves_fit<T: PointBuffer, S: PointBuffer>(
    target: &T,
    source: &S,
    conversions: &Vec<AttributeConversion>,
    count: usize,
) -> (fit: bool)
    requires
        target.wf(),
        source.wf(),
        conversions@.len() == target@.fields.len(),
    ensures
        fit == moves_fit(target@.fields, source@.fields, conversions@, count as nat),
{
    let fields: usize = target.point_layout().len();
    let mut b: usize = 0;
    while b < fields
        invariant
            b <= fields,
            target.wf(),
            source.wf(),
            fields == target@.fields.len(),
            conversions@.len() == fields,
            forall|c: int|
                0 <= c < b && has_field(source@.fields, (#[trigger] target@.fields[c]).name)
                    && conversions@[c] != AttributeConversion::Unavailable ==> count
                    * target@.fields[c].size() <= usize::MAX && count
                    * source@.fields[field_index(source@.fields, target@.fields[c].name)].size()
                    <= usize::MAX,
        decreases fields - b,
    {
        let member = target.point_layout().attribute_at(b);
        let available: bool = match conversions[b] {
            AttributeConversion::Unavailable => false,
            _ => true,
        };
        match source.point_layout().get_attribute_by_name(member.name()) {
            Some(found) => {
                if available && (count.checked_mul(member.size() as usize).is_none()
                    || count.checked_mul(found.size() as usize).is_none()) {
                    return false;
                }
            },
            None => {},
        }
        b += 1;
    }
    true
}

/// Appends the points of `source` to `target`, whatever the two layouts are:
/// every attribute of the target takes the source's value of that name
/// under the conversion given for it. Attributes that only the source has
/// are left out; attributes that the source lacks, or for which no
/// conversion is available, are zero. Refused, with the target untouched,
/// only where the machine cannot address the bytes.
pub fn push_with_conversions<T: PointBufferWriteable, S: PointBuffer>(
    target: &mut T,
    source: &S,
    conversions: &Vec<AttributeConversion>,
) -> (result: Result<(), BufferError>)
    requires
        old(target).wf(),
        source.wf(),
        conversions_ready(old(target)@.fields, source@.fields, conversions@),
    ensures
        final(target).wf(),
        final(target)@.fields == old(target)@.fields,
        result matches Err(e) ==> e == BufferError::CapacityOverflow && final(target)@ == old(target)@,
        result is Ok <==> old(target)@.len() + source@.len() <= usize::MAX && moves_fit(
            old(target)@.fields,
            source@.fields,
            conversions@,
            source@.len(),
        ) && T::fits(old(target)@.fields, old(target)@.len() + source@.len()),
        old(target)@.len() + source@.len() <= usize::MAX && (old(target)@.len() + source@.len())
            * point_size(old(target)@.fields) <= usize::MAX && source@.len() * point_size(
            source@.fields,
        ) <= usize::MAX ==> result is Ok,
        result is Ok ==> final(target)@.values == old(target)@.values + moved_points(
            old(target)@.fields,
            source@,
            conversions@,
        ),
{
    let first: usize = target.len();
    let count: usize = source.len();
    let fields: usize = target.point_layout().len();
    proof {
        source.lemma_wf();
        old(target).lemma_wf();
        lemma_fields_aligned_and_disjoint(source@.fields);
        lemma_fields_aligned_and_disjoint(target@.fields);
        if (first + count) * point_size(target@.fields) <= usize::MAX {
            T::lemma_fits(target@.fields, (first + count) as nat);
        }
    }
    let new_len: usize = match first.checked_add(count) {
        Some(n) => n,
        None => {
            return Err(BufferError::CapacityOverflow);
        },
    };
    if !check_moves_fit(target, source, conversions, count) {
        proof {
            if new_len * point_size(target@.fields) <= usize::MAX && count * point_size(
                source@.fields,
            ) <= usize::MAX {
                assert forall|b: int|
                    0 <= b < target@.fields.len() && has_field(
                        source@.fields,
                        (#[trigger] target@.fields[b]).name,
                    ) && conversions@[b] != AttributeConversion::Unavailable implies count
                    * target@.fields[b].size() <= usize::MAX && count
                    * source@.fields[field_index(source@.fields, target@.fields[b].name)].size()
                    <= usize::MAX by {
                    let index = field_index(source@.fields, target@.fields[b].name);
                    let source_size = source@.fields[index].size();
                    let target_size = target@.fields[b].size();
                    assert(source@.fields[index].end() <= point_size(source@.fields));
                    assert(target@.fields[b].end() <= point_size(target@.fields));
                    assert(count * source_size <= count * point_size(source@.fields))
                        by (nonlinear_arith)
                        requires
                            source_size <= point_size(source@.fields),
                    ;
                    assert(count * target_size <= new_len * point_size(target@.fields))
                        by (nonlinear_arith)
                        requires
                            target_size <= point_size(target@.fields),
                            count <= new_len,
                    ;
                }
            }
        }
        return Err(BufferError::CapacityOverflow);
    }
    match target.resize(new_len) {
        Ok(()) => {},
        Err(e) => {
            return Err(e);
        },
    }
    let ghost start = old(target)@;
    let mut b: usize = 0;
    while b < fields
        invariant
            b <= fields,
            target.wf(),
            source.wf(),
            source@.wf(),
            start.wf(),
            start == old(target)@,
            fields == start.fields.len(),
            target@.fields == start.fields,
            target@.len() == new_len,
            new_len == first + count,
            first == start.len(),
            count == source@.len(),
            conversions_ready(start.fields, source@.fields, conversions@),
            moves_fit(start.fields, source@.fields, conversions@, count as nat),
            forall|p: int| 0 <= p < first ==> #[trigger] target@.values[p] == start.values[p],
            forall|p: int, c: int|
                first <= p < new_len && 0 <= c < b ==> #[trigger] target@.values[p][c]
                    == moved_value(start.fields[c], source@, p - first, conversions@[c]),
            forall|p: int, c: int|
                first <= p < new_len && b <= c < fields ==> #[trigger] target@.values[p][c]
                    == zero_point(start.fields)[c],
        decreases fields - b,
    {
        let ghost before = target@;
        proof {
            target.lemma_wf();
            lemma_field_index_unique(start.fields, b as int);
        }
        let name = String::from_str(target.point_layout().attribute_at(b).name());
        if has_source_attribute(source, name.as_str()) {
            let moved = transfer_attribute(target, first, source, name.as_str(), conversions[b]);
            assert(moved is Ok);
        }
        proof {
            target.lemma_wf();
            assert forall|p: int| 0 <= p < first implies #[trigger] target@.values[p]
                == start.values[p] by {
                assert(before.values[p] == start.values[p]);
                assert(target@.values[p] =~= before.values[p]);
            }
            assert forall|p: int, c: int|
                first <= p < new_len && 0 <= c < b + 1 implies #[trigger] target@.values[p][c]
                == moved_value(start.fields[c], source@, p - first, conversions@[c]) by {
                if c < b {
                    assert(before.values[p][c] == moved_value(
                        start.fields[c],
                        source@,
                        p - first,
                        conversions@[c],
                    ));
                } else {
                    assert(before.values[p][c] == zero_point(start.fields)[c]);
                }
            }
            assert forall|p: int, c: int|
                first <= p < new_len && b + 1 <= c < fields implies #[trigger] target@.values[p][c]
                == zero_point(start.fields)[c] by {
                assert(before.values[p][c] == zero_point(start.fields)[c]);
            }
        }
        b += 1;
    }
    proof {
        target.lemma_wf();
        let expected = start.values + moved_points(start.fields, source@, conversions@);
        assert forall|p: int| 0 <= p < new_len implies #[trigger] target@.values[p]
            == expected[p] by {
            if p >= first {
                assert(target@.values[p] =~= moved_points(start.fields, source@, conversions@)[p
                    - first]);
            }
        }
        assert(target@.values =~= expected);
    }
    Ok(())
}

/// `conversions` are, for every attribute of the target, the conversion from
/// the type that the source has under that name on a machine of the given
/// byte order, and none where the source lacks the name.
pub open spec fn conversions_for(
    target_fields: Seq<FieldModel>,
    source_fields: Seq<FieldModel>,
    conversions: Seq<AttributeConversion>,
    order: ByteOrder,
) -> bool {
    &&& conversions.len() == target_fields.len()
    &&& forall|b: int|
        0 <= b < target_fields.len() ==> if has_field(
            source_fields,
            (#[trigger] target_fields[b]).name,
        ) {
            conversion_between(
                source_fields[field_index(source_fields, target_fields[b].name)].datatype,
                target_fields[b].datatype,
                order,
                conversions[b],
            )
        } else {
            conversions[b] == AttributeConversion::Unavailable
        }
}

/// The conversions that lead from the attributes of `source_layout` to those
/// of `target_layout` on a machine of the given byte order: for every
/// attribute of the target the conversion from the type that the source has
/// under that name, and none where the source lacks the name.
pub fn conversions_between(
    target_layout: &PointLayout,
    source_layout: &PointLayout,
    order: ByteOrder,
) -> (conversions: Vec<AttributeConversion>)
    requires
        target_layout.wf(),
        source_layout.wf(),
    ensures
        conversions_ready(target_layout@, source_layout@, conversions@),
        conversions_for(target_layout@, source_layout@, conversions@, order),
{
    let fields: usize = target_layout.len();
    let mut conversions: Vec<AttributeConversion> = Vec::new();
    let mut b: usize = 0;
    proof {
        target_layout.lemma_wf();
    }
    while b < fields
        invariant
            b <= fields,
            fields == target_layout@.len(),
            target_layout.wf(),
            source_layout.wf(),
            layout_wf(target_layout@),
            conversions@.len() == b,
            forall|c: int|
                0 <= c < b ==> if has_field(source_layout@, (#[trigger] target_layout@[c]).name) {
                    conversion_between(
                        source_layout@[field_index(
                            source_layout@,
                            target_layout@[c].name,
                        )].datatype,
                        target_layout@[c].datatype,
                        order,
                        conversions@[c],
                    )
                } else {
                    conversions@[c] == AttributeConversion::Unavailable
                },
        decreases fields - b,
    {
        let member = target_layout.attribute_at(b);
        let conversion = match source_layout.get_attribute_by_name(member.name()) {
            Some(found) => get_converter(found.datatype(), member.datatype(), order),
            None => AttributeConversion::Unavailable,
        };
        conversions.push(conversion);
        b += 1;
    }
    proof {
        assert forall|c: int|
            0 <= c < target_layout@.len() && has_field(
                source_layout@,
                (#[trigger] target_layout@[c]).name,
            ) implies transfer_ready(
            target_layout@,
            source_layout@,
            target_layout@[c].name,
            conversions@[c],
        ) by {
            lemma_field_index_unique(target_layout@, c);
        }
    }
    conversions
}

/// Points moved under the conversions for a byte order are the points
/// carried over for that byte order.
pub proof fn lemma_moved_points_are_carried(
    target_fields: Seq<FieldModel>,
    source: PointsModel,
    conversions: Seq<AttributeConversion>,
    order: ByteOrder,
)
    requires
        conversions_for(target_fields, source.fields, conversions, order),
    ensures
        moved_points(target_fields, source, conversions) == carried_points(
            target_fields,
            source,
            order,
        ),
{
    assert forall|p: int| 0 <= p < source.len() implies #[trigger] moved_points(
        target_fields,
        source,
        conversions,
    )[p] == carried_points(target_fields, source, order)[p] by {
        assert(moved_points(target_fields, source, conversions)[p] =~= carried_points(
            target_fields,
            source,
            order,
        )[p]);
    }
    assert(moved_points(target_fields, source, conversions) =~= carried_points(
        target_fields,
        source,
        order,
    ));
}

/// The source holds the attribute of `target_field`, but in a type from which
/// no conversion leads to the target's.
pub open spec fn unconvertible(target_field: FieldModel, source_fields: Seq<FieldModel>) -> bool {
    has_field(source_fields, target_field.name) && !carries(target_field, source_fields)
}

/// The positions, in the target layout, of the attributes that the source
/// holds in a type that does not convert, in rising order.
fn unconvertible_attributes(
    target_layout: &PointLayout,
    source_layout: &PointLayout,
    conversions: &Vec<AttributeConversion>,
) -> (positions: Vec<usize>)
    requires
        target_layout.wf(),
        source_layout.wf(),
        conversions@.len() == target_layout@.len(),
        forall|b: int|
            0 <= b < target_layout@.len() ==> (#[trigger] conversions@[b]
                == AttributeConversion::Unavailable) == !carries(
                target_layout@[b],
                source_layout@,
            ),
    ensures
        forall|b: int|
            0 <= b < target_layout@.len() ==> (positions@.contains(b as usize) <==> unconvertible(
                #[trigger] target_layout@[b],
                source_layout@,
            )),
        forall|i: int| 0 <= i < positions@.len() ==> (#[trigger] positions@[i]) < target_layout@.len(),
        forall|i: int, j: int|
            0 <= i < j < positions@.len() ==> (#[trigger] positions@[i]) < (
            #[trigger] positions@[j]),
{
    let fields: usize = target_layout.len();
    let mut positions: Vec<usize> = Vec::new();
    let mut b: usize = 0;
    while b < fields
        invariant
            b <= fields,
            fields == target_layout@.len(),
            target_layout.wf(),
            source_layout.wf(),
            conversions@.len() == fields,
            forall|c: int|
                0 <= c < fields ==> (#[trigger] conversions@[c]
                    == AttributeConversion::Unavailable) == !carries(
                    target_layout@[c],
                    source_layout@,
                ),
            forall|c: int|
                0 <= c < b ==> (positions@.contains(c as usize) <==> unconvertible(
                    #[trigger] target_layout@[c],
                    source_layout@,
                )),
            forall|i: int| 0 <= i < positions@.len() ==> (#[trigger] positions@[i]) < b,
            forall|i: int, j: int|
                0 <= i < j < positions@.len() ==> (#[trigger] positions@[i]) < (
                #[trigger] positions@[j]),
        decreases fields - b,
    {
        let unavailable: bool = match conversions[b] {
            AttributeConversion::Unavailable => true,
            _ => false,
        };
        let ghost before = positions@;
        if unavailable && source_layout.has_attribute_with_name(target_layout.attribute_at(b).name()) {
            positions.push(b);
            proof {
                assert(positions@[before.len() as int] == b);
                assert forall|c: int| 0 <= c < b + 1 implies (positions@.contains(c as usize)
                    <==> unconvertible(#[trigger] target_layout@[c], source_layout@)) by {
                    if c < b {
                        if before.contains(c as usize) {
                            let i = choose|i: int| 0 <= i < before.len() && before[i] == c as usize;
                            assert(positions@[i] == c as usize);
                        }
                        if positions@.contains(c as usize) {
                            let i = choose|i: int|
                                0 <= i < positions@.len() && positions@[i] == c as usize;
                            assert(i < before.len());
                            assert(before[i] == c as usize);
                        }
                    }
                }
            }
        } else {
            proof {
                assert forall|c: int| 0 <= c < b + 1 implies (positions@.contains(c as usize)
                    <==> unconvertible(#[trigger] target_layout@[c], source_layout@)) by {
                    if c == b {
                        if positions@.contains(c as usize) {
                            let i = choose|i: int|
                                0 <= i < positions@.len() && positions@[i] == c as usize;
                            assert(positions@[i] < b);
                        }
                    }
                }
            }
        }
        b += 1;
    }
    positions
}

/// Appends the points of `source` to `target`, whatever the two layouts are:
/// every attribute of the target takes the source's value of that name,
/// converted for a machine of the given byte order where the types differ.
/// Attributes that only the source has are left out; attributes that the
/// source lacks are zero. An attribute that the source holds in a type that
/// does not convert is zero too, and its position in the target's layout is
/// reported in the result. Refused, with the target untouched, only where
/// the machine cannot address the bytes.
pub fn push_converted<T: PointBufferWriteable, S: PointBuffer>(
    target: &mut T,
    source: &S,
    order: ByteOrder,
) -> (result: Result<Vec<usize>, BufferError>)
    requires
        old(target).wf(),
        source.wf(),
    ensures
        final(target).wf(),
        final(target)@.fields == old(target)@.fields,
        result matches Err(e) ==> e == BufferError::CapacityOverflow && final(target)@ == old(target)@,
        result is Ok <==> old(target)@.len() + source@.len() <= usize::MAX && transfers_fit(
            old(target)@.fields,
            source@.fields,
            source@.len(),
        ) && T::fits(old(target)@.fields, old(target)@.len() + source@.len()),
        old(target)@.len() + source@.len() <= usize::MAX && (old(target)@.len() + source@.len())
            * point_size(old(target)@.fields) <= usize::MAX && source@.len() * point_size(
            source@.fields,
        ) <= usize::MAX ==> result is Ok,
        result matches Ok(dropped) ==> {
            &&& final(target)@.values == old(target)@.values + carried_points(
                old(target)@.fields,
                source@,
                order,
            )
            &&& forall|b: int|
                0 <= b < old(target)@.fields.len() ==> (dropped@.contains(b as usize)
                    <==> unconvertible(#[trigger] old(target)@.fields[b], source@.fields))
            &&& forall|i: int, j: int|
                0 <= i < j < dropped@.len() ==> (#[trigger] dropped@[i]) < (#[trigger] dropped@[j])
        },
{
    let conversions = conversions_between(target.point_layout(), source.point_layout(), order);
    proof {
        lemma_moved_points_are_carried(target@.fields, source@, conversions@, order);
        assert(moves_fit(target@.fields, source@.fields, conversions@, source@.len())
            == transfers_fit(target@.fields, source@.fields, source@.len()));
    }
    let dropped = unconvertible_attributes(
        target.point_layout(),
        source.point_layout(),
        &conversions,
    );
    match push_with_conversions(target, source, &conversions) {
        Ok(()) => Ok(dropped),
        Err(e) => Err(e),
    }
}

/// A value that the target's narrower type holds exactly, that is, one that
/// a value `narrow` of the target's type widens to, is carried over as
/// `narrow`, and widens back to what the source held. Any other value comes
/// back as close as the narrower type allows.
pub proof fn lemma_carried_value_widens_back(
    target_field: FieldModel,
    source: PointsModel,
    point: int,
    narrow: Seq<u8>,
    order: ByteOrder,
)
    requires
        carries(target_field, source.fields),
        ({
            let from = source.fields[field_index(source.fields, target_field.name)].datatype;
            &&& from != target_field.datatype
            &&& conversion_supported(target_field.datatype, from)
            &&& target_field.datatype.spec_size() <= from.spec_size()
            &&& narrow.len() == target_field.datatype.spec_size()
            &&& holds_numbers(narrow, target_field.datatype, order)
            &&& source.values[point][field_index(source.fields, target_field.name)] == converted(
                narrow,
                target_field.datatype,
                from,
                order,
            )
        }),
    ensures
        carried_value(target_field, source, point, order) == narrow,
        converted(
            carried_value(target_field, source, point, order),
            target_field.datatype,
            source.fields[field_index(source.fields, target_field.name)].datatype,
            order,
        ) == source.values[point][field_index(source.fields, target_field.name)],
{
    lemma_round_trip_from_narrower(
        narrow,
        target_field.datatype,
        source.fields[field_index(source.fields, target_field.name)].datatype,
        order,
    );
}

/// True where the layout of `source` holds an attribute called `name`.
fn has_source_attribute<S: PointBuffer>(source: &S, name: &str) -> (found: bool)
    requires
        source.wf(),
    ensures
        found == has_field(source@.fields, name@),
{
    source.point_layout().has_attribute_with_name(name)
}

} // verus!
