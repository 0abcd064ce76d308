//! The writer for point-cloud tiles. Points are collected attribute by
//! attribute in the three semantics that the format knows; the tile is put
//! together once, when the writer is flushed.

use crate::containers::{
    lemma_attribute_range_len, regions_fit, PerAttributeVecPointStorage, PointBuffer, PointsModel,
};
use crate::conversion::{get_converter, AttributeConversion};
use crate::endian::{le_bytes, native_byte_order, ByteOrder};
use crate::layout::{
    align_offset, align_to, has_field, lemma_align_to, lemma_max_alignment,
    max_alignment, names_distinct, packed_end, placed_field, FieldAlignment,
    FieldModel, PointAttributeDataType, PointAttributeDefinition, PointLayout,
};
use crate::tiles3d::{
    header_members, json_text, ser_batch_table_header, ser_feature_table_header,
    BatchTableHeader, FeatureTableDataReference, FeatureTableHeader, FeatureTableValue,
    JsonModel, PntsError, PntsHeader,
};
use crate::transfer::{
    carried_points, carries, conversions_between, conversions_for, conversions_ready,
    lemma_moved_points_are_carried, moves_fit, push_with_conversions, transfers_fit,
};
use vstd::prelude::*;

verus! {

/// The alignment of every attribute's values in the feature table body.
pub const PNTS_SEMANTICS_MAX_ALIGNMENT: usize = 8;

/// The version of the tile format that the writer produces.
pub const PNTS_VERSION: u32 = 1;

/// The name under which the feature table holds the attribute called `name`,
/// if the format knows it.
pub open spec fn semantic_name(name: Seq<char>) -> Option<Seq<char>> {
    if name == "Position3D"@ {
        Some("POSITION"@)
    } else if name == "ColorRGB"@ {
        Some("RGB"@)
    } else if name == "Normal"@ {
        Some("NORMAL"@)
    } else {
        None
    }
}

/// The name under which the feature table holds `attribute`, or `None`
/// where the format has no semantic for it.
pub fn pnts_semantics_name_from_point_attribute(attribute: &PointAttributeDefinition) -> (name:
    Option<String>)
    ensures
        name is Some <==> semantic_name(attribute.spec_name()) is Some,
        name matches Some(n) ==> semantic_name(attribute.spec_name()) == Some(n@),
{
    let given = String::from_str(attribute.name());
    if given == String::from_str("Position3D") {
        Some(String::from_str("POSITION"))
    } else if given == String::from_str("ColorRGB") {
        Some(String::from_str("RGB"))
    } else if given == String::from_str("Normal") {
        Some(String::from_str("NORMAL"))
    } else {
        None
    }
}

/// The attributes that the format knows, each with the type it stores: the
/// position and the normal as three 32-bit floats, the colour as three bytes.
pub open spec fn supported_attributes() -> Seq<(Seq<char>, PointAttributeDataType)> {
    seq![
        ("Position3D"@, PointAttributeDataType::Vec3f32),
        ("ColorRGB"@, PointAttributeDataType::Vec3u8),
        ("Normal"@, PointAttributeDataType::Vec3f32),
    ]
}

/// The field that stands for a supported attribute when it is looked up in
/// another layout.
pub open spec fn wanted_field(name: Seq<char>, datatype: PointAttributeDataType) -> FieldModel {
    FieldModel { name, datatype, offset: 0, alignment: 1 }
}

/// The layout that the first `count` supported attributes make of `fields`:
/// each of them that `fields` holds, in a type that is or converts to the
/// stored one, in the format's order and at its natural alignment.
pub open spec fn compatible_fields_upto(fields: Seq<FieldModel>, count: nat) -> Seq<FieldModel>
    decreases count,
{
    if count == 0 {
        Seq::empty()
    } else {
        let before = compatible_fields_upto(fields, (count - 1) as nat);
        let (name, datatype) = supported_attributes()[count - 1];
        if carries(wanted_field(name, datatype), fields) {
            before.push(placed_field(before, name, datatype, FieldAlignment::Default))
        } else {
            before
        }
    }
}

/// The layout that the writer keeps of points laid out as `fields`.
pub open spec fn compatible_fields(fields: Seq<FieldModel>) -> Seq<FieldModel> {
    compatible_fields_upto(fields, 3)
}

/// The three names that the format knows differ from each other.
pub proof fn lemma_supported_names_differ()
    ensures
        "Position3D"@ != "ColorRGB"@,
        "Position3D"@ != "Normal"@,
        "ColorRGB"@ != "Normal"@,
{
    reveal_strlit("Position3D");
    reveal_strlit("ColorRGB");
    reveal_strlit("Normal");
    assert("Position3D"@.len() == 10);
    assert("ColorRGB"@.len() == 8);
    assert("Normal"@.len() == 6);
}

/// The supported attribute number `index`, in the type that the format
/// stores.
fn supported_attribute(index: usize) -> (attribute: PointAttributeDefinition)
    requires
        index < 3,
    ensures
        attribute.spec_name() == supported_attributes()[index as int].0,
        attribute.spec_datatype() == supported_attributes()[index as int].1,
{
    if index == 0 {
        PointAttributeDefinition::custom("Position3D", PointAttributeDataType::Vec3f32)
    } else if index == 1 {
        PointAttributeDefinition::custom("ColorRGB", PointAttributeDataType::Vec3u8)
    } else {
        PointAttributeDefinition::custom("Normal", PointAttributeDataType::Vec3f32)
    }
}

/// Every field of the compatible layout is one of the first `count`
/// supported attributes, and the layout stays small.
proof fn lemma_compatible_fields(fields: Seq<FieldModel>, count: nat)
    requires
        count <= 3,
    ensures
        compatible_fields_upto(fields, count).len() <= count,
        forall|i: int|
            0 <= i < compatible_fields_upto(fields, count).len() ==> exists|k: int|
                0 <= k < count && (#[trigger] compatible_fields_upto(fields, count)[i]).name
                    == supported_attributes()[k].0 && compatible_fields_upto(
                    fields,
                    count,
                )[i].datatype == supported_attributes()[k].1 && carries(
                    wanted_field(supported_attributes()[k].0, supported_attributes()[k].1),
                    fields,
                ),
        packed_end(compatible_fields_upto(fields, count)) <= 16 * count,
        max_alignment(compatible_fields_upto(fields, count)) <= 4,
        names_distinct(compatible_fields_upto(fields, count)),
        crate::layout::placed_in_order(compatible_fields_upto(fields, count)),
    decreases count,
{
    if count > 0 {
        lemma_compatible_fields(fields, (count - 1) as nat);
        lemma_supported_names_differ();
        let before = compatible_fields_upto(fields, (count - 1) as nat);
        let after = compatible_fields_upto(fields, count);
        let (name, datatype) = supported_attributes()[count - 1];
        if carries(wanted_field(name, datatype), fields) {
            let field = placed_field(before, name, datatype, FieldAlignment::Default);
            assert(after == before.push(field));
            assert(after.drop_last() =~= before);
            lemma_align_to(packed_end(before), field.alignment);
            assert forall|i: int| 0 <= i < after.len() implies exists|k: int|
                0 <= k < count && (#[trigger] after[i]).name == supported_attributes()[k].0
                    && after[i].datatype == supported_attributes()[k].1 && carries(
                    wanted_field(supported_attributes()[k].0, supported_attributes()[k].1),
                    fields,
                ) by {
                if i < before.len() {
                    assert(after[i] == before[i]);
                    let k = choose|k: int|
                        0 <= k < count - 1 && before[i].name == supported_attributes()[k].0
                            && before[i].datatype == supported_attributes()[k].1 && carries(
                            wanted_field(supported_attributes()[k].0, supported_attributes()[k].1),
                            fields,
                        );
                    assert(0 <= k < count && after[i].name == supported_attributes()[k].0);
                } else {
                    assert(after[i].name == supported_attributes()[count - 1].0);
                }
            }
            assert forall|i: int, j: int| 0 <= i < j < after.len() implies (#[trigger] after[i]).name
                != (#[trigger] after[j]).name by {
                assert(after[i] == before[i]);
                if j < before.len() {
                    assert(after[j] == before[j]);
                } else {
                    let k = choose|k: int|
                        0 <= k < count - 1 && before[i].name == supported_attributes()[k].0
                            && before[i].datatype == supported_attributes()[k].1 && carries(
                            wanted_field(supported_attributes()[k].0, supported_attributes()[k].1),
                            fields,
                        );
                    assert(before[i].name == supported_attributes()[k].0);
                }
            }
        } else {
            assert(after == before);
        }
    }
}

/// Bytes that the values of one attribute take in the feature table body:
/// the values of all points, rounded up to the body's alignment.
pub open spec fn region_length(field: FieldModel, points: nat) -> nat {
    align_to(points * field.size(), PNTS_SEMANTICS_MAX_ALIGNMENT as nat)
}

/// Bytes that the feature table body takes for `points` points of the given
/// fields.
pub open spec fn body_length(fields: Seq<FieldModel>, points: nat) -> nat
    decreases fields.len(),
{
    if fields.len() == 0 {
        0
    } else {
        body_length(fields.drop_last(), points) + region_length(fields.last(), points)
    }
}

/// The body of more fields is not shorter.
pub proof fn lemma_body_length_grows(fields: Seq<FieldModel>, points: nat, prefix: int)
    requires
        0 <= prefix <= fields.len(),
    ensures
        body_length(fields.take(prefix), points) <= body_length(fields, points),
    decreases fields.len() - prefix,
{
    if prefix < fields.len() {
        assert(fields.take(prefix + 1).drop_last() =~= fields.take(prefix));
        lemma_body_length_grows(fields, points, prefix + 1);
    } else {
        assert(fields.take(prefix) =~= fields);
    }
}

/// The first `count` regions of the feature table body: for each attribute
/// the values of all points, followed by zero bytes up to the body's
/// alignment.
pub open spec fn feature_table_body(points: PointsModel, count: nat) -> Seq<u8>
    decreases count,
{
    if count == 0 {
        Seq::empty()
    } else {
        let values = points.attribute_range(count - 1, 0, points.len() as int);
        feature_table_body(points, (count - 1) as nat) + values + Seq::new(
            (region_length(points.fields[count - 1], points.len()) - values.len()) as nat,
            |i: int| 0u8,
        )
    }
}

/// The body takes as many bytes as `body_length` says.
pub proof fn lemma_feature_table_body_len(points: PointsModel, count: nat)
    requires
        points.wf(),
        count <= points.fields.len(),
    ensures
        feature_table_body(points, count).len() == body_length(
            points.fields.take(count as int),
            points.len(),
        ),
    decreases count,
{
    if count > 0 {
        lemma_feature_table_body_len(points, (count - 1) as nat);
        lemma_attribute_range_len(points, count - 1, 0, points.len() as int);
        assert(points.fields.take(count as int).drop_last() =~= points.fields.take(count - 1));
        lemma_align_to(points.len() * points.fields[count - 1].size(), 8);
    } else {
        assert(points.fields.take(0) =~= Seq::<FieldModel>::empty());
    }
}

/// The members that the feature table header holds for the first `count`
/// fields: under the semantic's name a reference to where its values start
/// in the body.
pub open spec fn semantic_members(fields: Seq<FieldModel>, points: nat, count: nat) -> Map<
    Seq<char>,
    JsonModel,
>
    decreases count,
{
    if count == 0 {
        crate::tiles3d::no_members()
    } else {
        semantic_members(fields, points, (count - 1) as nat).insert(
            semantic_name(fields[count - 1].name).unwrap(),
            JsonModel::Object(
                crate::tiles3d::no_members().insert(
                    "byteOffset"@,
                    JsonModel::Number(body_length(fields.take(count - 1), points)),
                ),
            ),
        )
    }
}

/// The members of the feature table header: a reference for every field,
/// and the number of points.
pub open spec fn feature_table_members(fields: Seq<FieldModel>, points: nat) -> Map<
    Seq<char>,
    JsonModel,
> {
    semantic_members(fields, points, fields.len()).insert(
        "POINTS_LENGTH"@,
        JsonModel::Number(points),
    )
}

/// The JSON text of the feature table header.
pub open spec fn feature_table_text(fields: Seq<FieldModel>, points: nat) -> Seq<u8> {
    json_text(JsonModel::Object(feature_table_members(fields, points)))
}

/// The JSON text of the batch table header, which holds nothing.
pub open spec fn batch_table_text() -> Seq<u8> {
    json_text(JsonModel::Object(crate::tiles3d::no_members()))
}

/// Bytes of the whole tile.
pub open spec fn tile_length(fields: Seq<FieldModel>, points: nat) -> nat {
    28 + feature_table_text(fields, points).len() + body_length(fields, points)
        + batch_table_text().len()
}

/// The machine can count `cached + count` points and address what a writer
/// for points of the fields `expected` would keep of them, and the values
/// that `count` points laid out as `fields` carry over to it.
#[verifier::opaque]
pub open spec fn write_fits(
    expected: Seq<FieldModel>,
    fields: Seq<FieldModel>,
    cached: nat,
    count: nat,
) -> bool {
    &&& cached + count <= usize::MAX
    &&& transfers_fit(compatible_fields(expected), fields, count)
    &&& regions_fit(compatible_fields(expected), cached + count)
}

/// Whether, and why not, a writer for points of the fields `expected` that
/// holds `cached` points takes `count` more of them.
pub open spec fn write_outcome(expected: Seq<FieldModel>, cached: nat, count: nat) -> Result<
    (),
    PntsError,
> {
    if !write_fits(expected, expected, cached, count) {
        Err(PntsError::CapacityOverflow)
    } else {
        Ok(())
    }
}

/// The serialised header of the tile that holds `points` points of the given
/// fields: the magic bytes, the version, the length of the tile, and the
/// lengths of its four sections, each number in four bytes, lowest first.
pub open spec fn tile_header_bytes(fields: Seq<FieldModel>, points: nat) -> Seq<u8> {
    crate::tiles3d::pnts_magic() + le_bytes(PNTS_VERSION as nat, 4) + le_bytes(
        tile_length(fields, points),
        4,
    ) + le_bytes(feature_table_text(fields, points).len(), 4) + le_bytes(
        body_length(fields, points),
        4,
    ) + le_bytes(batch_table_text().len(), 4) + le_bytes(0, 4)
}

/// The tile of the given points: the header, the feature table header, the
/// feature table body, and the batch table header.
pub open spec fn tile_bytes(points: PointsModel) -> Seq<u8> {
    tile_header_bytes(points.fields, points.len()) + feature_table_text(
        points.fields,
        points.len(),
    ) + feature_table_body(points, points.fields.len()) + batch_table_text()
}

/// A writer of point-cloud tiles. It takes points of one layout, keeps of
/// them what the format knows, and gives the bytes of the tile when it is
/// flushed. The sink `W` is kept for the caller, who writes the bytes to it.
/// Attributes that the format does not know are dropped without notice.
pub struct PntsWriter<W> {
    writer: W,
    expected_layout: PointLayout,
    default_layout: PointLayout,
    cached_points: PerAttributeVecPointStorage,
    attribute_converters: Vec<AttributeConversion>,
    byte_order: ByteOrder,
    requires_flush: bool,
}

impl<W> PntsWriter<W> {
    /// The fields of the points that the writer takes.
    pub closed spec fn spec_expected_layout(&self) -> Seq<FieldModel> {
        self.expected_layout@
    }

    /// The points collected so far, in the layout that the writer keeps.
    pub closed spec fn spec_cached_points(&self) -> PointsModel {
        self.cached_points@
    }

    /// The conversion for every attribute that the writer keeps.
    pub closed spec fn spec_attribute_converters(&self) -> Seq<AttributeConversion> {
        self.attribute_converters@
    }

    /// The byte order of the machine, for which the conversions are made.
    pub closed spec fn spec_byte_order(&self) -> ByteOrder {
        self.byte_order
    }

    /// True until the tile has been put together.
    pub closed spec fn spec_requires_flush(&self) -> bool {
        self.requires_flush
    }

    /// The sink that the writer was made with.
    pub closed spec fn spec_writer(&self) -> W {
        self.writer
    }

    /// The writer's invariant: it keeps the compatible part of the expected
    /// layout, its points have that layout, and it holds a conversion for
    /// each of its attributes.
    pub closed spec fn wf(&self) -> bool {
        &&& self.expected_layout.wf()
        &&& self.default_layout.wf()
        &&& self.cached_points.wf()
        &&& self.default_layout@ == compatible_fields(self.expected_layout@)
        &&& self.cached_points@.fields == self.default_layout@
        &&& conversions_ready(
            self.default_layout@,
            self.expected_layout@,
            self.attribute_converters@,
        )
        &&& conversions_for(
            self.default_layout@,
            self.expected_layout@,
            self.attribute_converters@,
            self.byte_order,
        )
    }

    /// A well-formed writer keeps well-formed points in the compatible
    /// layout.
    pub proof fn lemma_wf(&self)
        requires
            self.wf(),
        ensures
            self.spec_cached_points().wf(),
            self.spec_cached_points().fields == compatible_fields(self.spec_expected_layout()),
            conversions_ready(
                compatible_fields(self.spec_expected_layout()),
                self.spec_expected_layout(),
                self.spec_attribute_converters(),
            ),
            conversions_for(
                compatible_fields(self.spec_expected_layout()),
                self.spec_expected_layout(),
                self.spec_attribute_converters(),
                self.spec_byte_order(),
            ),
    {
        self.cached_points.lemma_wf();
    }

    /// A writer for points of `point_layout` that keeps `writer` as its
    /// sink. Of the attributes of the layout, only the position, the colour
    /// and the normal are written; all others are dropped without notice.
    pub fn from_write_and_layout(writer: W, point_layout: PointLayout) -> (made: Self)
        requires
            point_layout.wf(),
        ensures
            made.wf(),
            made.spec_writer() == writer,
            made.spec_expected_layout() == point_layout@,
            made.spec_cached_points().len() == 0,
            made.spec_requires_flush(),
    {
        let byte_order = native_byte_order();
        let (cache_layout, attribute_converters) = Self::make_compatible_layout_for(
            &point_layout,
            byte_order,
        );
        let cache = PerAttributeVecPointStorage::new(cache_layout.clone());
        PntsWriter {
            writer,
            expected_layout: point_layout,
            default_layout: cache_layout,
            cached_points: cache,
            attribute_converters,
            byte_order,
            requires_flush: true,
        }
    }

    /// The part of `point_layout` that the format can hold, and for each of
    /// its attributes the conversion from the type it has in `point_layout`,
    /// for the machine that runs this code. An attribute is kept where the
    /// format knows its name and its type is, or converts to, the stored one.
    pub fn make_compatible_layout(point_layout: &PointLayout) -> (made: (
        PointLayout,
        Vec<AttributeConversion>,
    ))
        requires
            point_layout.wf(),
        ensures
            made.0.wf(),
            made.0@ == compatible_fields(point_layout@),
            conversions_ready(made.0@, point_layout@, made.1@),
            conversions_for(made.0@, point_layout@, made.1@, ByteOrder::LittleEndian)
                || conversions_for(made.0@, point_layout@, made.1@, ByteOrder::BigEndian),
    {
        Self::make_compatible_layout_for(point_layout, native_byte_order())
    }

    /// The part of `point_layout` that the format can hold, and for each of
    /// its attributes the conversion from the type it has in `point_layout`,
    /// for a machine of the given byte order.
    pub fn make_compatible_layout_for(point_layout: &PointLayout, order: ByteOrder) -> (made: (
        PointLayout,
        Vec<AttributeConversion>,
    ))
        requires
            point_layout.wf(),
        ensures
            made.0.wf(),
            made.0@ == compatible_fields(point_layout@),
            conversions_ready(made.0@, point_layout@, made.1@),
            conversions_for(made.0@, point_layout@, made.1@, order),
    {
        let mut compatible_layout = PointLayout::default();
        let mut index: usize = 0;
        while index < 3
            invariant
                index <= 3,
                point_layout.wf(),
                compatible_layout.wf(),
                compatible_layout@ == compatible_fields_upto(point_layout@, index as nat),
            decreases 3 - index,
        {
            let attribute = supported_attribute(index);
            let ghost before = compatible_layout@;
            proof {
                lemma_compatible_fields(point_layout@, index as nat);
                lemma_compatible_fields(point_layout@, (index + 1) as nat);
                lemma_supported_names_differ();
            }
            let kept: bool = match point_layout.get_attribute_by_name(attribute.name()) {
                Some(source_attribute) => {
                    match get_converter(
                        source_attribute.datatype(),
                        attribute.datatype(),
                        ByteOrder::LittleEndian,
                    ) {
                        AttributeConversion::Unavailable => false,
                        _ => true,
                    }
                },
                None => false,
            };
            assert(kept == carries(
                wanted_field(attribute.spec_name(), attribute.spec_datatype()),
                point_layout@,
            ));
            if kept {
                proof {
                    let field = placed_field(
                        before,
                        attribute.spec_name(),
                        attribute.spec_datatype(),
                        FieldAlignment::Default,
                    );
                    let after = before.push(field);
                    assert(after == compatible_fields_upto(point_layout@, (index + 1) as nat));
                    lemma_align_to(packed_end(after), max_alignment(after));
                    lemma_max_alignment(after);
                    if has_field(before, attribute.spec_name()) {
                        let i = choose|i: int|
                            0 <= i < before.len() && (#[trigger] before[i]).name
                                == attribute.spec_name();
                        assert(after[i] == before[i]);
                        assert(after[after.len() - 1].name == attribute.spec_name());
                        assert(false);
                    }
                }
                let added = compatible_layout.add_attribute(attribute, FieldAlignment::Default);
                assert(added is Ok);
            }
            index += 1;
        }
        let conversions = conversions_between(&compatible_layout, point_layout, order);
        (compatible_layout, conversions)
    }

    /// Takes the points of `points`, which must have the layout that the
    /// writer was made for, and keeps of them what the format knows. Nothing
    /// reaches the sink before the writer is flushed. Refused, with the
    /// writer untouched, only where the machine cannot count the points or
    /// address their values.
    pub fn write<B: PointBuffer>(&mut self, points: &B) -> (result: Result<(), PntsError>)
        requires
            old(self).wf(),
            points.wf(),
            points@.fields == old(self).spec_expected_layout(),
        ensures
            final(self).wf(),
            final(self).spec_writer() == old(self).spec_writer(),
            final(self).spec_expected_layout() == old(self).spec_expected_layout(),
            final(self).spec_attribute_converters() == old(self).spec_attribute_converters(),
            final(self).spec_byte_order() == old(self).spec_byte_order(),
            final(self).spec_requires_flush() == old(self).spec_requires_flush(),
            final(self).spec_cached_points().fields == old(self).spec_cached_points().fields,
            result == write_outcome(
                old(self).spec_expected_layout(),
                old(self).spec_cached_points().len(),
                points@.len(),
            ),
            result is Err ==> final(self).spec_cached_points() == old(self).spec_cached_points(),
            result is Ok ==> final(self).spec_cached_points().values == old(self).spec_cached_points().values
                + carried_points(
                old(self).spec_cached_points().fields,
                points@,
                old(self).spec_byte_order(),
            ),
    {
        proof {
            reveal(write_fits);
            lemma_moved_points_are_carried(
                self.cached_points@.fields,
                points@,
                self.attribute_converters@,
                self.byte_order,
            );
            assert(moves_fit(
                self.cached_points@.fields,
                points@.fields,
                self.attribute_converters@,
                points@.len(),
            ) == transfers_fit(self.cached_points@.fields, points@.fields, points@.len()));
        }
        match push_with_conversions(&mut self.cached_points, points, &self.attribute_converters) {
            Ok(()) => Ok(()),
            Err(_) => Err(PntsError::CapacityOverflow),
        }
    }

    /// The feature table header: for every attribute that the writer keeps,
    /// under its semantic's name, where its values start in the body, and the
    /// number of points under `POINTS_LENGTH`. Refused where an offset is
    /// more than the machine can address.
    pub fn create_feature_table(&self) -> (result: Result<FeatureTableHeader, PntsError>)
        requires
            self.wf(),
        ensures
            match result {
                Ok(header) => header_members(header@) == feature_table_members(
                    self.spec_cached_points().fields,
                    self.spec_cached_points().len(),
                ) && header@.len() == self.spec_cached_points().fields.len() + 1,
                Err(e) => e == PntsError::CapacityOverflow && body_length(
                    self.spec_cached_points().fields,
                    self.spec_cached_points().len(),
                ) > usize::MAX,
            },
    {
        let num_points: usize = self.cached_points.len();
        let fields: usize = self.default_layout.len();
        let ghost layout = self.default_layout@;
        let mut header: FeatureTableHeader = Vec::new();
        let mut offset: usize = 0;
        let mut index: usize = 0;
        proof {
            self.cached_points.lemma_wf();
            assert(layout.take(0) =~= Seq::<FieldModel>::empty());
        }
        while index < fields
            invariant
                self.wf(),
                index <= fields,
                fields == layout.len(),
                layout == self.default_layout@,
                layout == self.cached_points@.fields,
                num_points == self.cached_points@.len(),
                self.cached_points@.wf(),
                header@.len() == index,
                offset == body_length(layout.take(index as int), num_points as nat),
                header_members(header@) == semantic_members(
                    layout,
                    num_points as nat,
                    index as nat,
                ),
            decreases fields - index,
        {
            let attribute = self.default_layout.attribute_at(index);
            proof {
                lemma_compatible_fields(self.expected_layout@, 3);
                lemma_attribute_range_len(self.cached_points@, index as int, 0, num_points as int);
                assert(layout.take(index + 1).drop_last() =~= layout.take(index as int));
                lemma_body_length_grows(layout, num_points as nat, index + 1);
            }
            let found = pnts_semantics_name_from_point_attribute(&attribute.definition());
            let semantic_name = found.unwrap();
            let region: usize = self.cached_points.attribute_region(index).len();
            let padded: usize = match align_offset(region as u64, 8) {
                Some(p) => if p <= usize::MAX as u64 {
                    p as usize
                } else {
                    return Err(PntsError::CapacityOverflow);
                },
                None => {
                    return Err(PntsError::CapacityOverflow);
                },
            };
            let ghost before = header@;
            header.push(
                (
                    semantic_name,
                    FeatureTableValue::DataReference(
                        FeatureTableDataReference { byte_offset: offset, component_type: None },
                    ),
                ),
            );
            proof {
                assert(header@.drop_last() =~= before);
            }
            offset = match offset.checked_add(padded) {
                Some(o) => o,
                None => {
                    return Err(PntsError::CapacityOverflow);
                },
            };
            index += 1;
        }
        let ghost before = header@;
        header.push(
            (String::from_str("POINTS_LENGTH"), FeatureTableValue::SingleValue(num_points as u64)),
        );
        proof {
            assert(header@.drop_last() =~= before);
            assert(layout.take(fields as int) =~= layout);
        }
        Ok(header)
    }

    /// The batch table header, which holds nothing.
    pub fn create_batch_table(&self) -> (header: BatchTableHeader)
        ensures
            header@.len() == 0,
    {
        Vec::new()
    }

    /// Bytes that the feature table body takes: for every attribute the
    /// values of all points, rounded up to eight bytes. Refused where that is
    /// more than the machine can address.
    pub fn calc_feature_table_body_length(&self) -> (result: Result<usize, PntsError>)
        requires
            self.wf(),
        ensures
            match result {
                Ok(length) => length == body_length(
                    self.spec_cached_points().fields,
                    self.spec_cached_points().len(),
                ),
                Err(e) => e == PntsError::CapacityOverflow && body_length(
                    self.spec_cached_points().fields,
                    self.spec_cached_points().len(),
                ) > usize::MAX,
            },
    {
        let num_points: usize = self.cached_points.len();
        let fields: usize = self.default_layout.len();
        let ghost layout = self.default_layout@;
        let mut length: usize = 0;
        let mut index: usize = 0;
        proof {
            self.cached_points.lemma_wf();
            assert(layout.take(0) =~= Seq::<FieldModel>::empty());
        }
        while index < fields
            invariant
                self.wf(),
                index <= fields,
                fields == layout.len(),
                layout == self.default_layout@,
                layout == self.cached_points@.fields,
                num_points == self.cached_points@.len(),
                self.cached_points@.wf(),
                length == body_length(layout.take(index as int), num_points as nat),
            decreases fields - index,
        {
            proof {
                lemma_attribute_range_len(self.cached_points@, index as int, 0, num_points as int);
                assert(layout.take(index + 1).drop_last() =~= layout.take(index as int));
                lemma_body_length_grows(layout, num_points as nat, index + 1);
            }
            let region: usize = self.cached_points.attribute_region(index).len();
            let padded: usize = match align_offset(region as u64, 8) {
                Some(p) => if p <= usize::MAX as u64 {
                    p as usize
                } else {
                    return Err(PntsError::CapacityOverflow);
                },
                None => {
                    return Err(PntsError::CapacityOverflow);
                },
            };
            length = match length.checked_add(padded) {
                Some(l) => l,
                None => {
                    return Err(PntsError::CapacityOverflow);
                },
            };
            index += 1;
        }
        proof {
            assert(layout.take(fields as int) =~= layout);
        }
        Ok(length)
    }

    /// Appends the feature table body to `out`: for every attribute the
    /// values of all points, followed by zero bytes up to a multiple of
    /// eight.
    pub fn write_feature_table_body(&self, out: &mut Vec<u8>)
        requires
            self.wf(),
        ensures
            final(out)@ == old(out)@ + feature_table_body(
                self.spec_cached_points(),
                self.spec_cached_points().fields.len(),
            ),
    {
        let num_points: usize = self.cached_points.len();
        let fields: usize = self.default_layout.len();
        let mut index: usize = 0;
        proof {
            self.cached_points.lemma_wf();
        }
        while index < fields
            invariant
                self.wf(),
                index <= fields,
                fields == self.cached_points@.fields.len(),
                num_points == self.cached_points@.len(),
                self.cached_points@.wf(),
                out@ == old(out)@ + feature_table_body(self.cached_points@, index as nat),
            decreases fields - index,
        {
            let ghost before = out@;
            let attribute_data = self.cached_points.attribute_region(index);
            out.extend_from_slice(attribute_data);
            let blob_byte_size: usize = attribute_data.len();
            proof {
                lemma_attribute_range_len(self.cached_points@, index as int, 0, num_points as int);
                lemma_align_to(blob_byte_size as nat, 8);
            }
            let rest: usize = blob_byte_size % PNTS_SEMANTICS_MAX_ALIGNMENT;
            let num_padding_bytes: usize = if rest == 0 {
                0
            } else {
                PNTS_SEMANTICS_MAX_ALIGNMENT - rest
            };
            let mut written: usize = 0;
            while written < num_padding_bytes
                invariant
                    written <= num_padding_bytes,
                    out@ == before + attribute_data@ + Seq::new(written as nat, |i: int| 0u8),
                decreases num_padding_bytes - written,
            {
                out.push(0);
                written += 1;
                assert(out@ =~= before + attribute_data@ + Seq::new(written as nat, |i: int| 0u8));
            }
            assert(Seq::new(0, |i: int| 0u8) =~= Seq::<u8>::empty());
            assert(out@ =~= old(out)@ + feature_table_body(
                self.cached_points@,
                (index + 1) as nat,
            ));
            index += 1;
        }
    }

    /// The header of the tile, given the sizes of the two JSON texts.
    /// Refused where the tile is longer than its 32-bit length field can say.
    pub fn header_for(&self, feature_table_json: usize, batch_table_json: usize) -> (result: Result<
        PntsHeader,
        PntsError,
    >)
        requires
            self.wf(),
        ensures
            match result {
                Ok(header) => {
                    &&& header.magic@ == crate::tiles3d::pnts_magic()
                    &&& header.version == PNTS_VERSION
                    &&& header.byte_length == 28 + feature_table_json + body_length(
                        self.spec_cached_points().fields,
                        self.spec_cached_points().len(),
                    ) + batch_table_json
                    &&& header.feature_table_json_byte_length == feature_table_json
                    &&& header.feature_table_binary_byte_length == body_length(
                        self.spec_cached_points().fields,
                        self.spec_cached_points().len(),
                    )
                    &&& header.batch_table_json_byte_length == batch_table_json
                    &&& header.batch_table_binary_byte_length == 0
                },
                Err(e) => e == PntsError::CapacityOverflow && 28 + feature_table_json
                    + body_length(
                    self.spec_cached_points().fields,
                    self.spec_cached_points().len(),
                ) + batch_table_json > u32::MAX,
            },
    {
        let body: usize = match self.calc_feature_table_body_length() {
            Ok(length) => length,
            Err(e) => {
                return Err(e);
            },
        };
        if feature_table_json > u32::MAX as usize || body > u32::MAX as usize || batch_table_json
            > u32::MAX as usize {
            return Err(PntsError::CapacityOverflow);
        }
        let total: u64 = PntsHeader::BYTE_LENGTH as u64 + feature_table_json as u64 + body as u64
            + batch_table_json as u64;
        if total > u32::MAX as u64 {
            return Err(PntsError::CapacityOverflow);
        }
        Ok(
            PntsHeader::new(
                PNTS_VERSION,
                total as u32,
                feature_table_json as u32,
                body as u32,
                batch_table_json as u32,
                0,
            ),
        )
    }

    /// Puts the tile together from the serialised header and the two JSON
    /// texts: the header, the feature table header, the feature table body,
    /// the batch table header.
    pub fn assemble_tile(
        &self,
        header: &[u8],
        feature_table_json: &[u8],
        batch_table_json: &[u8],
    ) -> (tile: Vec<u8>)
        requires
            self.wf(),
        ensures
            tile@ == header@ + feature_table_json@ + feature_table_body(
                self.spec_cached_points(),
                self.spec_cached_points().fields.len(),
            ) + batch_table_json@,
    {
        let mut tile: Vec<u8> = Vec::new();
        tile.extend_from_slice(header);
        tile.extend_from_slice(feature_table_json);
        self.write_feature_table_body(&mut tile);
        tile.extend_from_slice(batch_table_json);
        assert(tile@ =~= header@ + feature_table_json@ + feature_table_body(
            self.cached_points@,
            self.cached_points@.fields.len(),
        ) + batch_table_json@);
        tile
    }

    /// Tells whether the tile of the points collected so far is short enough
    /// for its 32-bit length fields.
    pub fn tile_fits(&self) -> (fits: bool)
        requires
            self.wf(),
        ensures
            fits == (tile_length(
                self.spec_cached_points().fields,
                self.spec_cached_points().len(),
            ) <= u32::MAX),
    {
        let feature_table_header = match self.create_feature_table() {
            Ok(header) => header,
            Err(_) => {
                return false;
            },
        };
        let batch_table_header = self.create_batch_table();
        let feature_table_blob = match ser_feature_table_header(&feature_table_header) {
            Ok(blob) => blob,
            Err(_) => {
                return false;
            },
        };
        let batch_table_blob = match ser_batch_table_header(&batch_table_header) {
            Ok(blob) => blob,
            Err(_) => {
                return false;
            },
        };
        self.header_for(feature_table_blob.len(), batch_table_blob.len()).is_ok()
    }

    /// Puts the tile of the points collected so far together: the header,
    /// the feature table header, the feature table body, the batch table
    /// header. Only for points whose tile is short enough for its 32-bit
    /// length fields; `flush` tests that before it asks.
    pub fn write_cached_points(&self) -> (result: Result<Vec<u8>, PntsError>)
        requires
            self.wf(),
            tile_length(self.spec_cached_points().fields, self.spec_cached_points().len())
                <= u32::MAX,
        ensures
            result matches Ok(tile) && tile@ == tile_bytes(self.spec_cached_points()),
    {
        let ghost fields = self.cached_points@.fields;
        let ghost points = self.cached_points@.len();
        proof {
            self.cached_points.lemma_wf();
            lemma_feature_table_body_len(self.cached_points@, fields.len());
            assert(fields.take(fields.len() as int) =~= fields);
        }
        let feature_table_header = match self.create_feature_table() {
            Ok(header) => header,
            Err(e) => {
                return Err(e);
            },
        };
        let batch_table_header = self.create_batch_table();
        let feature_table_blob = match ser_feature_table_header(&feature_table_header) {
            Ok(blob) => blob,
            Err(e) => {
                return Err(e);
            },
        };
        let batch_table_blob = match ser_batch_table_header(&batch_table_header) {
            Ok(blob) => blob,
            Err(e) => {
                return Err(e);
            },
        };
        let pnts_header = match self.header_for(feature_table_blob.len(), batch_table_blob.len()) {
            Ok(header) => header,
            Err(e) => {
                return Err(e);
            },
        };
        let header_blob = match pnts_header.to_bytes() {
            Ok(blob) => blob,
            Err(e) => {
                return Err(e);
            },
        };
        let tile = self.assemble_tile(
            header_blob.as_slice(),
            feature_table_blob.as_slice(),
            batch_table_blob.as_slice(),
        );
        proof {
            assert(pnts_header.spec_bytes() =~= tile_header_bytes(fields, points));
        }
        Ok(tile)
    }

    /// Gives the bytes of the tile, for the caller to write to the sink, as
    /// long as the writer requires a flush, and `None` once it does not.
    /// Refused exactly where the tile is longer than its 32-bit length
    /// fields can say. The writer goes on requiring a flush until
    /// `record_flush` is told that the sink took the tile.
    pub fn flush(&self) -> (result: Result<Option<Vec<u8>>, PntsError>)
        requires
            self.wf(),
        ensures
            !self.spec_requires_flush() ==> (result matches Ok(tile) && tile is None),
            self.spec_requires_flush() ==> (result is Ok <==> tile_length(
                self.spec_cached_points().fields,
                self.spec_cached_points().len(),
            ) <= u32::MAX),
            self.spec_requires_flush() ==> match result {
                Ok(None) => false,
                Ok(Some(tile)) => tile@ == tile_bytes(self.spec_cached_points()),
                Err(e) => e == PntsError::CapacityOverflow,
            },
    {
        if !self.requires_flush {
            return Ok(None);
        }
        if !self.tile_fits() {
            return Err(PntsError::CapacityOverflow);
        }
        match self.write_cached_points() {
            Ok(tile) => Ok(Some(tile)),
            Err(e) => Err(e),
        }
    }

    /// Takes note of what the sink answered to the tile: the writer requires
    /// no flush any more once the sink has taken the tile, and goes on
    /// requiring one where it has not.
    pub fn record_flush(&mut self, written: bool)
        requires
            old(self).wf(),
        ensures
            final(self).wf(),
            final(self).spec_requires_flush() == (old(self).spec_requires_flush() && !written),
            final(self).spec_writer() == old(self).spec_writer(),
            final(self).spec_expected_layout() == old(self).spec_expected_layout(),
            final(self).spec_attribute_converters() == old(self).spec_attribute_converters(),
            final(self).spec_byte_order() == old(self).spec_byte_order(),
            final(self).spec_cached_points() == old(self).spec_cached_points(),
    {
        if written {
            self.requires_flush = false;
        }
    }

    /// The layout of the points that the writer takes.
    pub fn expected_layout(&self) -> (layout: &PointLayout)
        requires
            self.wf(),
        ensures
            layout.wf(),
            layout@ == self.spec_expected_layout(),
    {
        &self.expected_layout
    }

    /// The layout in which the writer keeps its points: what the format can
    /// hold of the layout that the writer was made for.
    pub fn get_default_point_layout(&self) -> (layout: &PointLayout)
        requires
            self.wf(),
        ensures
            layout.wf(),
            layout@ == compatible_fields(self.spec_expected_layout()),
    {
        &self.default_layout
    }

    /// Number of points collected so far.
    pub fn cached_len(&self) -> (count: usize)
        requires
            self.wf(),
        ensures
            count == self.spec_cached_points().len(),
    {
        self.cached_points.len()
    }

    /// True until the tile has been put together.
    pub fn requires_flush(&self) -> (pending: bool)
        ensures
            pending == self.spec_requires_flush(),
    {
        self.requires_flush
    }

    /// The sink that the writer was made with.
    pub fn writer(&self) -> (writer: &W)
        ensures
            *writer == self.spec_writer(),
    {
        &self.writer
    }

    /// The sink, for the caller to write a tile to. The writer itself stays
    /// as it is.
    pub fn writer_mut(&mut self) -> (writer: &mut W)
        ensures
            *writer == old(self).spec_writer(),
            final(self).spec_writer() == *final(writer),
            final(self).wf() == old(self).wf(),
            final(self).spec_expected_layout() == old(self).spec_expected_layout(),
            final(self).spec_attribute_converters() == old(self).spec_attribute_converters(),
            final(self).spec_byte_order() == old(self).spec_byte_order(),
            final(self).spec_cached_points() == old(self).spec_cached_points(),
            final(self).spec_requires_flush() == old(self).spec_requires_flush(),
    {
        &mut self.writer
    }

    /// Gives the sink back and ends the writer.
    pub fn into_writer(self) -> (writer: W)
        ensures
            writer == self.spec_writer(),
    {
        self.writer
    }
}

} // verus!
