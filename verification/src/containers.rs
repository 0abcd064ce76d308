//! Point buffers: collections of point records behind one contract, kept
//! either attribute by attribute or record by record.

use crate::chunks::{chunk, copy_bytes, lemma_chunk_bounds, lemma_chunk_of_splice};
use crate::layout::{
    field_index, has_field, layout_wf, lemma_field_index_unique,
    lemma_fields_aligned_and_disjoint, point_size, FieldModel, PointAttributeDataType,
    PointAttributeDefinition, PointLayout,
};
use std::ops::Range;
use vstd::prelude::*;

verus! {

/// Why a point buffer refused a request.
#[derive(Clone, Copy, Debug, PartialEq, Eq, Structural)]
pub enum BufferError {
    /// The buffer's layout holds no attribute of that name.
    MissingAttribute,
    /// The layout holds the attribute with another data type.
    TypeMismatch,
    /// The two buffers do not share one layout.
    LayoutMismatch,
    /// The range of points reaches beyond the buffer, or ends before it starts.
    OutOfBounds,
    /// The bytes handed over are not as many as the range and attribute take.
    SizeMismatch,
    /// The buffer would take more bytes than the machine can address.
    CapacityOverflow,
}

/// Whether, and why not, the points `start..end` of the attribute with the
/// given name and type can be exchanged with `bytes` bytes, in a buffer of
/// `len` points laid out as `fields`.
pub open spec fn range_outcome(
    fields: Seq<FieldModel>,
    len: nat,
    start: int,
    end: int,
    name: Seq<char>,
    datatype: PointAttributeDataType,
    bytes: nat,
) -> Result<(), BufferError> {
    if !has_field(fields, name) {
        Err(BufferError::MissingAttribute)
    } else if fields[field_index(fields, name)].datatype != datatype {
        Err(BufferError::TypeMismatch)
    } else if !(0 <= start <= end <= len) {
        Err(BufferError::OutOfBounds)
    } else if bytes != (end - start) * datatype.spec_size() {
        Err(BufferError::SizeMismatch)
    } else {
        Ok(())
    }
}

/// The mathematical content of a point buffer: the fields of one point, and
/// for every point the bytes of each of its attributes, in field order.
pub struct PointsModel {
    pub fields: Seq<FieldModel>,
    pub values: Seq<Seq<Seq<u8>>>,
}

impl PointsModel {
    /// Number of points.
    pub open spec fn len(self) -> nat {
        self.values.len()
    }

    /// The fields form a layout, and every point has one value for each
    /// field, of that field's size.
    pub open spec fn wf(self) -> bool {
        &&& layout_wf(self.fields)
        &&& forall|p: int|
            0 <= p < self.values.len() ==> (#[trigger] self.values[p]).len() == self.fields.len()
        &&& forall|p: int, a: int|
            0 <= p < self.values.len() && 0 <= a < self.fields.len() ==> (
            #[trigger] self.values[p][a]).len() == self.fields[a].size()
    }

    /// The values of attribute number `attribute` for the points
    /// `start..end`, one behind the other.
    pub open spec fn attribute_range(self, attribute: int, start: int, end: int) -> Seq<u8>
        decreases end - start,
    {
        if end <= start {
            Seq::empty()
        } else {
            self.attribute_range(attribute, start, end - 1) + self.values[end - 1][attribute]
        }
    }

    /// The points with the values of attribute number `attribute` for the
    /// points `start..end` replaced by the chunks of `bytes`.
    pub open spec fn with_range(self, attribute: int, start: int, end: int, bytes: Seq<u8>) -> Self {
        PointsModel {
            fields: self.fields,
            values: Seq::new(
                self.values.len(),
                |p: int|
                    if start <= p < end {
                        self.values[p].update(
                            attribute,
                            chunk(bytes, p - start, self.fields[attribute].size()),
                        )
                    } else {
                        self.values[p]
                    },
            ),
        }
    }

    /// The first `new_len` points, with points of zero bytes where there
    /// were fewer.
    pub open spec fn resized(self, new_len: nat) -> Self {
        PointsModel {
            fields: self.fields,
            values: Seq::new(
                new_len,
                |p: int|
                    if p < self.values.len() {
                        self.values[p]
                    } else {
                        zero_point(self.fields)
                    },
            ),
        }
    }

    /// The points followed by those of `other`.
    pub open spec fn appended(self, other: PointsModel) -> Self {
        PointsModel { fields: self.fields, values: self.values + other.values }
    }
}

/// A point of the given fields whose bytes are all zero.
pub open spec fn zero_point(fields: Seq<FieldModel>) -> Seq<Seq<u8>> {
    Seq::new(fields.len(), |a: int| Seq::new(fields[a].size(), |i: int| 0u8))
}

/// A buffer of points that can be read.
pub trait PointBuffer: View<V = PointsModel> {
    /// The buffer's invariant.
    spec fn wf(&self) -> bool;

    /// A well-formed buffer holds well-formed points.
    proof fn lemma_wf(&self)
        requires
            self.wf(),
        ensures
            self@.wf(),
    ;

    /// Number of points.
    fn len(&self) -> (count: usize)
        requires
            self.wf(),
        ensures
            count == self@.len(),
    ;

    /// The layout that every point of the buffer has.
    fn point_layout(&self) -> (layout: &PointLayout)
        requires
            self.wf(),
        ensures
            layout.wf(),
            layout@ == self@.fields,
    ;

    /// Copies the values of `attribute` for the points of `index_range`, in
    /// point order, into `buf`. Refused, with `buf` untouched, where the
    /// layout lacks the attribute or has it with another type, where the
    /// range leaves the buffer, or where `buf` has not exactly the size of
    /// the values.
    fn get_raw_attribute_range(
        &self,
        index_range: Range<usize>,
        attribute: &PointAttributeDefinition,
        buf: &mut [u8],
    ) -> (result: Result<(), BufferError>)
        requires
            self.wf(),
        ensures
            result == range_outcome(
                self@.fields,
                self@.len(),
                index_range.start as int,
                index_range.end as int,
                attribute.spec_name(),
                attribute.spec_datatype(),
                old(buf)@.len(),
            ),
            final(buf)@.len() == old(buf)@.len(),
            result is Ok ==> final(buf)@ == self@.attribute_range(
                field_index(self@.fields, attribute.spec_name()),
                index_range.start as int,
                index_range.end as int,
            ),
            result is Err ==> final(buf)@ == old(buf)@,
    ;

    /// The buffer keeps its points as whole records, one behind the other.
    spec fn keeps_records(&self) -> bool;

    /// The point records one behind the other, exactly where the buffer
    /// keeps whole records, and `None` where it keeps its points otherwise.
    fn interleaved_records(&self) -> (records: Option<&[u8]>)
        requires
            self.wf(),
        ensures
            records is Some <==> self.keeps_records(),
            records matches Some(r) ==> holds_records(self@, r@),
    ;
}

/// `records` are the points of `model` as whole records, one behind the
/// other.
pub open spec fn holds_records(model: PointsModel, records: Seq<u8>) -> bool {
    &&& records.len() == model.len() * point_size(model.fields)
    &&& forall|p: int, a: int|
        0 <= p < model.len() && 0 <= a < model.fields.len() ==> (#[trigger] model.values[p][a])
            == field_bytes(records, point_size(model.fields), model.fields[a], p)
}

/// A buffer of points that can be changed.
pub trait PointBufferWriteable: PointBuffer {
    /// The machine can address what a buffer of this kind keeps for `points`
    /// points of the given fields.
    spec fn fits(fields: Seq<FieldModel>, points: nat) -> bool;

    /// Where the machine can address `points` whole point records, it can
    /// address what the buffer keeps for them.
    proof fn lemma_fits(fields: Seq<FieldModel>, points: nat)
        requires
            layout_wf(fields),
            points * point_size(fields) <= usize::MAX,
        ensures
            Self::fits(fields, points),
    ;

    /// Overwrites the values of `attribute` for the points of `index_range`
    /// with the bytes of `buf`, in point order. Refused, with the buffer
    /// untouched, on the conditions on which reading that range is refused.
    fn set_raw_attribute_range(
        &mut self,
        index_range: Range<usize>,
        attribute: &PointAttributeDefinition,
        buf: &[u8],
    ) -> (result: Result<(), BufferError>)
        requires
            old(self).wf(),
        ensures
            final(self).wf(),
            result == range_outcome(
                old(self)@.fields,
                old(self)@.len(),
                index_range.start as int,
                index_range.end as int,
                attribute.spec_name(),
                attribute.spec_datatype(),
                buf@.len(),
            ),
            result is Ok ==> final(self)@ == old(self)@.with_range(
                field_index(old(self)@.fields, attribute.spec_name()),
                index_range.start as int,
                index_range.end as int,
                buf@,
            ),
            result is Err ==> final(self)@ == old(self)@,
    ;

    /// Cuts the buffer down to `new_len` points or extends it to that many
    /// with points of zero bytes. Refused, with the buffer untouched, exactly
    /// where the machine cannot address what the buffer would keep.
    fn resize(&mut self, new_len: usize) -> (result: Result<(), BufferError>)
        requires
            old(self).wf(),
        ensures
            final(self).wf(),
            result is Ok <==> Self::fits(old(self)@.fields, new_len as nat),
            result matches Err(e) ==> e == BufferError::CapacityOverflow && final(self)@ == old(self)@,
            result is Ok ==> final(self)@ == old(self)@.resized(new_len as nat),
    ;

    /// Appends the points of `other`, which must have this buffer's layout.
    /// Refused, with the buffer untouched, where the layouts differ, and
    /// where the machine cannot count the points of both or address what
    /// the buffer would keep for them.
    fn push<B: PointBuffer>(&mut self, other: &B) -> (result: Result<(), BufferError>)
        requires
            old(self).wf(),
            other.wf(),
        ensures
            final(self).wf(),
            result == push_outcome(
                old(self)@.fields,
                other@.fields,
                old(self)@.len() + other@.len(),
                Self::fits(old(self)@.fields, old(self)@.len() + other@.len()),
            ),
            result is Err ==> final(self)@ == old(self)@,
            result is Ok ==> final(self)@ == old(self)@.appended(other@),
    ;
}

/// Whether, and why not, a buffer of the fields `fields` takes the points of
/// one of the fields `other_fields`, `points` points in all, where `fits`
/// says whether the machine can address what the buffer would keep.
pub open spec fn push_outcome(
    fields: Seq<FieldModel>,
    other_fields: Seq<FieldModel>,
    points: nat,
    fits: bool,
) -> Result<(), BufferError> {
    if fields != other_fields {
        Err(BufferError::LayoutMismatch)
    } else if points > usize::MAX || !fits {
        Err(BufferError::CapacityOverflow)
    } else {
        Ok(())
    }
}

/// Where the values of an attribute are the chunks of one run of bytes, the
/// values of a range of points are a stretch of that run.
pub proof fn lemma_attribute_range_of_column(
    model: PointsModel,
    attribute: int,
    column: Seq<u8>,
    size: nat,
    start: int,
    end: int,
)
    requires
        0 <= start <= end <= model.len(),
        column.len() == model.len() * size,
        forall|p: int|
            start <= p < end ==> (#[trigger] model.values[p])[attribute] == chunk(column, p, size),
    ensures
        0 <= start * size <= end * size <= column.len(),
        model.attribute_range(attribute, start, end) == column.subrange(start * size, end * size),
    decreases end - start,
{
    assert(0 <= start * size <= end * size <= model.len() * size) by (nonlinear_arith)
        requires
            0 <= start <= end <= model.len(),
    ;
    if start < end {
        lemma_attribute_range_of_column(model, attribute, column, size, start, end - 1);
        lemma_chunk_bounds(end - 1, size, model.len());
        assert(model.values[end - 1][attribute] == chunk(column, end - 1, size));
        assert(column.subrange(start * size, (end - 1) * size) + chunk(column, end - 1, size)
            =~= column.subrange(start * size, end * size));
    } else {
        assert(column.subrange(start * size, end * size) =~= Seq::<u8>::empty());
    }
}

/// The values of a range of points, one behind the other, hold the value of
/// each of the points as a chunk.
pub proof fn lemma_chunk_of_attribute_range(
    model: PointsModel,
    attribute: int,
    start: int,
    end: int,
    point: int,
)
    requires
        model.wf(),
        0 <= attribute < model.fields.len(),
        0 <= start <= end <= model.len(),
    ensures
        model.attribute_range(attribute, start, end).len() == (end - start)
            * model.fields[attribute].size(),
        start <= point < end ==> chunk(
            model.attribute_range(attribute, start, end),
            point - start,
            model.fields[attribute].size(),
        ) == model.values[point][attribute],
    decreases end - start,
{
    let size = model.fields[attribute].size();
    if start < end {
        lemma_attribute_range_len(model, attribute, start, end - 1);
        lemma_chunk_of_attribute_range(model, attribute, start, end - 1, point);
        let shorter = model.attribute_range(attribute, start, end - 1);
        let last = model.values[end - 1][attribute];
        assert(last.len() == size);
        assert((end - start) * size == (end - 1 - start) * size + size) by (nonlinear_arith);
        if start <= point < end {
            lemma_chunk_bounds(point - start, size, (end - start) as nat);
            if point < end - 1 {
                lemma_chunk_bounds(point - start, size, (end - 1 - start) as nat);
                assert(chunk(shorter + last, point - start, size) =~= chunk(
                    shorter,
                    point - start,
                    size,
                ));
            } else {
                assert(chunk(shorter + last, point - start, size) =~= last);
            }
        }
    } else {
        assert((end - start) * size == 0) by (nonlinear_arith)
            requires
                end - start == 0,
        ;
    }
}

/// The values of a range of points take as many bytes as the points times
/// the size of the attribute.
pub proof fn lemma_attribute_range_len(model: PointsModel, attribute: int, start: int, end: int)
    requires
        model.wf(),
        0 <= attribute < model.fields.len(),
        0 <= start <= end <= model.len(),
    ensures
        model.attribute_range(attribute, start, end).len() == (end - start)
            * model.fields[attribute].size(),
    decreases end - start,
{
    let size = model.fields[attribute].size();
    if start < end {
        lemma_attribute_range_len(model, attribute, start, end - 1);
        assert(model.values[end - 1][attribute].len() == size);
        assert((end - start) * size == (end - 1 - start) * size + size) by (nonlinear_arith);
    } else {
        assert((end - start) * size == 0) by (nonlinear_arith)
            requires
                end - start == 0,
        ;
    }
}

/// A point buffer that keeps each attribute in a region of its own: the
/// values of one attribute for all points follow each other.
#[derive(Debug)]
pub struct PerAttributeVecPointStorage {
    layout: PointLayout,
    columns: Vec<Vec<u8>>,
    length: usize,
}

impl View for PerAttributeVecPointStorage {
    type V = PointsModel;

    closed spec fn view(&self) -> PointsModel {
        PointsModel {
            fields: self.layout@,
            values: Seq::new(
                self.length as nat,
                |p: int|
                    Seq::new(
                        self.layout@.len(),
                        |a: int| chunk(self.columns@[a]@, p, self.layout@[a].size()),
                    ),
            ),
        }
    }
}

impl PerAttributeVecPointStorage {
    /// The region of each attribute holds one value for every point.
    pub closed spec fn regions_wf(&self) -> bool {
        &&& self.layout.wf()
        &&& self.columns@.len() == self.layout@.len()
        &&& forall|a: int|
            0 <= a < self.columns@.len() ==> (#[trigger] self.columns@[a])@.len() == self.length
                * self.layout@[a].size()
    }

    /// An empty buffer for points of the given layout.
    pub fn new(layout: PointLayout) -> (buffer: Self)
        requires
            layout.wf(),
        ensures
            buffer.wf(),
            buffer@.fields == layout@,
            buffer@.len() == 0,
    {
        let mut columns: Vec<Vec<u8>> = Vec::new();
        let mut a: usize = 0;
        while a < layout.len()
            invariant
                a <= layout@.len(),
                columns@.len() == a,
                forall|k: int| 0 <= k < a ==> (#[trigger] columns@[k])@.len() == 0,
            decreases layout@.len() - a,
        {
            columns.push(Vec::new());
            a += 1;
        }
        let buffer = PerAttributeVecPointStorage { layout, columns, length: 0 };
        assert forall|k: int| 0 <= k < buffer.columns@.len() implies (
        #[trigger] buffer.columns@[k])@.len() == buffer.length * buffer.layout@[k].size() by {
            assert(0 * buffer.layout@[k].size() == 0);
        }
        buffer
    }

    /// True where the machine can address the region of every attribute for
    /// `new_len` points.
    fn regions_addressable(&self, new_len: usize) -> (fit: bool)
        requires
            self.regions_wf(),
        ensures
            fit == regions_fit(self@.fields, new_len as nat),
            new_len * point_size(self@.fields) <= usize::MAX ==> fit,
    {
        let fields: usize = self.layout.len();
        proof {
            self.layout.lemma_wf();
            lemma_fields_aligned_and_disjoint(self.layout@);
        }
        let mut a: usize = 0;
        while a < fields
            invariant
                a <= fields,
                fields == self.layout@.len(),
                forall|k: int|
                    0 <= k < fields ==> (#[trigger] self.layout@[k]).end() <= point_size(
                        self.layout@,
                    ),
                forall|k: int|
                    0 <= k < a ==> new_len * (#[trigger] self.layout@[k]).size() <= usize::MAX,
            decreases fields - a,
        {
            let size: usize = self.layout.attribute_at(a).size() as usize;
            if new_len.checked_mul(size).is_none() {
                proof {
                    assert(self.layout@[a as int].end() <= point_size(self.layout@));
                    assert(new_len * size <= new_len * point_size(self.layout@)) by (nonlinear_arith)
                        requires
                            size <= point_size(self.layout@),
                    ;
                    assert(new_len * self@.fields[a as int].size() > usize::MAX);
                }
                return false;
            }
            a += 1;
        }
        true
    }

    /// The bytes of attribute number `attribute` for all points, in point
    /// order.
    pub fn attribute_region(&self, attribute: usize) -> (region: &[u8])
        requires
            self.wf(),
            attribute < self@.fields.len(),
        ensures
            region@ == self@.attribute_range(attribute as int, 0, self@.len() as int),
    {
        proof {
            lemma_attribute_range_of_column(
                self@,
                attribute as int,
                self.columns@[attribute as int]@,
                self.layout@[attribute as int].size(),
                0,
                self.length as int,
            );
            assert(self.columns@[attribute as int]@.subrange(
                0,
                self.length * self.layout@[attribute as int].size(),
            ) =~= self.columns@[attribute as int]@);
        }
        self.columns[attribute].as_slice()
    }
}

impl PointBuffer for PerAttributeVecPointStorage {
    closed spec fn wf(&self) -> bool {
        self.regions_wf()
    }

    proof fn lemma_wf(&self) {
        self.layout.lemma_wf();
        assert forall|p: int, a: int|
            0 <= p < self@.values.len() && 0 <= a < self@.fields.len() implies (
        #[trigger] self@.values[p][a]).len() == self@.fields[a].size() by {
            lemma_chunk_bounds(p, self.layout@[a].size(), self.length as nat);
        }
    }

    fn len(&self) -> (count: usize) {
        self.length
    }

    fn point_layout(&self) -> (layout: &PointLayout) {
        &self.layout
    }

    open spec fn keeps_records(&self) -> bool {
        false
    }

    fn interleaved_records(&self) -> (records: Option<&[u8]>) {
        None
    }

    fn get_raw_attribute_range(
        &self,
        index_range: Range<usize>,
        attribute: &PointAttributeDefinition,
        buf: &mut [u8],
    ) -> (result: Result<(), BufferError>) {
        let index: usize = match self.layout.index_of(attribute.name()) {
            Some(i) => i,
            None => {
                return Err(BufferError::MissingAttribute);
            },
        };
        let member = self.layout.attribute_at(index);
        if member.datatype() != attribute.datatype() {
            return Err(BufferError::TypeMismatch);
        }
        if !(index_range.start <= index_range.end && index_range.end <= self.length) {
            return Err(BufferError::OutOfBounds);
        }
        let column = &self.columns[index];
        assert(column.len() <= usize::MAX);
        let size: usize = member.size() as usize;
        proof {
            lemma_attribute_range_of_column(
                self@,
                index as int,
                column@,
                size as nat,
                index_range.start as int,
                index_range.end as int,
            );
            assert((index_range.end - index_range.start) * size == index_range.end * size
                - index_range.start * size) by (nonlinear_arith);
        }
        let count: usize = (index_range.end - index_range.start) * size;
        if buf.len() != count {
            return Err(BufferError::SizeMismatch);
        }
        let first: usize = index_range.start * size;
        copy_bytes(buf, 0, column.as_slice(), first, count);
        assert(buf@ =~= column@.subrange(first as int, first + count));
        Ok(())
    }
}

impl PointBufferWriteable for PerAttributeVecPointStorage {
    open spec fn fits(fields: Seq<FieldModel>, points: nat) -> bool {
        regions_fit(fields, points)
    }

    proof fn lemma_fits(fields: Seq<FieldModel>, points: nat) {
        lemma_fields_aligned_and_disjoint(fields);
        assert forall|a: int| 0 <= a < fields.len() implies points * (#[trigger] fields[a]).size()
            <= usize::MAX by {
            assert(fields[a].end() <= point_size(fields));
            assert(points * fields[a].size() <= points * point_size(fields)) by (nonlinear_arith)
                requires
                    fields[a].size() <= point_size(fields),
            ;
        }
    }

    fn set_raw_attribute_range(
        &mut self,
        index_range: Range<usize>,
        attribute: &PointAttributeDefinition,
        buf: &[u8],
    ) -> (result: Result<(), BufferError>) {
        let index: usize = match self.layout.index_of(attribute.name()) {
            Some(i) => i,
            None => {
                return Err(BufferError::MissingAttribute);
            },
        };
        let member = self.layout.attribute_at(index);
        if member.datatype() != attribute.datatype() {
            return Err(BufferError::TypeMismatch);
        }
        if !(index_range.start <= index_range.end && index_range.end <= self.length) {
            return Err(BufferError::OutOfBounds);
        }
        let size: usize = member.size() as usize;
        assert(self.columns[index as int].len() <= usize::MAX);
        let ghost before = self.columns@[index as int]@;
        proof {
            assert(0 <= index_range.start * size <= index_range.end * size <= self.length * size)
                by (nonlinear_arith)
                requires
                    0 <= index_range.start <= index_range.end <= self.length,
            ;
            assert((index_range.end - index_range.start) * size == index_range.end * size
                - index_range.start * size) by (nonlinear_arith);
        }
        let count: usize = (index_range.end - index_range.start) * size;
        if buf.len() != count {
            return Err(BufferError::SizeMismatch);
        }
        let first: usize = index_range.start * size;
        let column = &mut self.columns[index];
        copy_bytes(column.as_mut_slice(), first, buf, 0, count);
        proof {
            assert(buf@.subrange(0, count as int) =~= buf@);
            let after = self.columns@[index as int]@;
            assert(after == before.subrange(0, first as int) + buf@ + before.subrange(
                first + count,
                before.len() as int,
            ));
            let expected = old(self)@.with_range(
                index as int,
                index_range.start as int,
                index_range.end as int,
                buf@,
            );
            assert forall|p: int| 0 <= p < self.length implies #[trigger] self@.values[p]
                =~~= expected.values[p] by {
                lemma_chunk_of_splice(
                    before,
                    buf@,
                    size as nat,
                    self.length as nat,
                    index_range.start as int,
                    index_range.end as int,
                    p,
                );
            }
            assert(self@.values =~~= expected.values);
        }
        Ok(())
    }

    fn resize(&mut self, new_len: usize) -> (result: Result<(), BufferError>) {
        let fields: usize = self.layout.len();
        if !self.regions_addressable(new_len) {
            return Err(BufferError::CapacityOverflow);
        }
        let mut a: usize = 0;
        while a < fields
            invariant
                a <= fields,
                fields == self.layout@.len(),
                self.layout == old(self).layout,
                self.length == old(self).length,
                self.columns@.len() == fields,
                old(self).regions_wf(),
                regions_fit(self.layout@, new_len as nat),
                forall|k: int|
                    a <= k < fields ==> (#[trigger] self.columns@[k]) == old(self).columns@[k],
                forall|k: int|
                    0 <= k < a ==> (#[trigger] self.columns@[k])@ == resized_region(
                        old(self).columns@[k]@,
                        (new_len * self.layout@[k].size()) as nat,
                    ),
            decreases fields - a,
        {
            let size: usize = self.layout.attribute_at(a).size() as usize;
            let ghost before = self.columns@[a as int]@;
            let column = &mut self.columns[a];
            column.resize(new_len * size, 0u8);
            proof {
                let after = self.columns@[a as int]@;
                if new_len * size > before.len() {
                    assert forall|i: int| 0 <= i < before.len() implies after[i] == before[i] by {
                        assert(after.subrange(0, before.len() as int)[i] == before[i]);
                    }
                }
                assert(after =~= resized_region(before, (new_len * size) as nat));
            }
            a += 1;
        }
        let ghost old_len = self.length;
        self.length = new_len;
        proof {
            let expected = old(self)@.resized(new_len as nat);
            assert forall|p: int, k: int| 0 <= p < new_len && 0 <= k < fields implies chunk(
                #[trigger] self.columns@[k]@,
                p,
                self.layout@[k].size(),
            ) == #[trigger] expected.values[p][k] by {
                let size = self.layout@[k].size();
                let before = old(self).columns@[k]@;
                lemma_chunk_bounds(p, size, new_len as nat);
                if p < old_len {
                    lemma_chunk_bounds(p, size, old_len as nat);
                    assert(chunk(self.columns@[k]@, p, size) =~= chunk(before, p, size));
                } else {
                    assert(p * size >= old_len * size) by (nonlinear_arith)
                        requires
                            p >= old_len,
                            size >= 0,
                    ;
                    assert(chunk(self.columns@[k]@, p, size) =~= zero_point(self.layout@)[k]);
                }
            }
            assert(self@.values =~~= expected.values);
        }
        Ok(())
    }

    fn push<B: PointBuffer>(&mut self, other: &B) -> (result: Result<(), BufferError>) {
        if !self.layout.equals(other.point_layout()) {
            return Err(BufferError::LayoutMismatch);
        }
        let added: usize = other.len();
        let fields: usize = self.layout.len();
        proof {
            other.lemma_wf();
            self.layout.lemma_wf();
            lemma_fields_aligned_and_disjoint(self.layout@);
        }
        let new_len: usize = match self.length.checked_add(added) {
            Some(n) => n,
            None => {
                return Err(BufferError::CapacityOverflow);
            },
        };
        if !self.regions_addressable(new_len) {
            return Err(BufferError::CapacityOverflow);
        }
        let mut a: usize = 0;
        while a < fields
            invariant
                a <= fields,
                fields == self.layout@.len(),
                self.layout == old(self).layout,
                self.length == old(self).length,
                self.columns@.len() == fields,
                old(self).regions_wf(),
                other.wf(),
                other@.wf(),
                other@.fields == self.layout@,
                other@.len() == added,
                new_len == self.length + added,
                regions_fit(self.layout@, new_len as nat),
                forall|k: int|
                    a <= k < fields ==> (#[trigger] self.columns@[k]) == old(self).columns@[k],
                forall|k: int|
                    0 <= k < a ==> (#[trigger] self.columns@[k])@ == old(self).columns@[k]@
                        + other@.attribute_range(k, 0, added as int),
            decreases fields - a,
        {
            let member = self.layout.attribute_at(a);
            let size: usize = member.size() as usize;
            let definition = member.definition();
            proof {
                lemma_field_index_unique(self.layout@, a as int);
                assert(added * size <= new_len * size) by (nonlinear_arith)
                    requires
                        added <= new_len,
                ;
            }
            let mut values: Vec<u8> = vec![0u8; added * size];
            let outcome = other.get_raw_attribute_range(0..added, &definition, values.as_mut_slice());
            assert(outcome is Ok);
            let column = &mut self.columns[a];
            column.extend_from_slice(values.as_slice());
            assert(self.columns@[a as int]@ =~= old(self).columns@[a as int]@
                + other@.attribute_range(a as int, 0, added as int));
            a += 1;
        }
        let ghost old_len = self.length;
        self.length = new_len;
        proof {
            let expected = old(self)@.appended(other@);
            assert forall|k: int| 0 <= k < fields implies (#[trigger] self.columns@[k])@.len()
                == self.length * self.layout@[k].size() by {
                lemma_attribute_range_len(other@, k, 0, added as int);
                assert((old_len + added) * self.layout@[k].size() == old_len
                    * self.layout@[k].size() + added * self.layout@[k].size())
                    by (nonlinear_arith);
            }
            assert forall|p: int, k: int| 0 <= p < new_len && 0 <= k < fields implies chunk(
                #[trigger] self.columns@[k]@,
                p,
                self.layout@[k].size(),
            ) == #[trigger] expected.values[p][k] by {
                let size = self.layout@[k].size();
                let before = old(self).columns@[k]@;
                let tail = other@.attribute_range(k, 0, added as int);
                lemma_attribute_range_len(other@, k, 0, added as int);
                lemma_chunk_bounds(p, size, new_len as nat);
                if p < old_len {
                    lemma_chunk_bounds(p, size, old_len as nat);
                    assert(chunk(before + tail, p, size) =~= chunk(before, p, size));
                } else {
                    lemma_chunk_of_attribute_range(other@, k, 0, added as int, p - old_len);
                    lemma_chunk_bounds(p - old_len, size, added as nat);
                    assert((p - old_len) * size == p * size - old_len * size) by (nonlinear_arith);
                    assert(chunk(before + tail, p, size) =~= chunk(tail, p - old_len, size));
                }
            }
            assert(self@.values =~~= expected.values);
        }
        Ok(())
    }
}

/// The region of every field for `points` points is within what the machine
/// can address.
pub open spec fn regions_fit(fields: Seq<FieldModel>, points: nat) -> bool {
    forall|a: int| 0 <= a < fields.len() ==> points * (#[trigger] fields[a]).size() <= usize::MAX
}

/// A region cut down to `size` bytes, or extended to that many with zeros.
pub open spec fn resized_region(region: Seq<u8>, size: nat) -> Seq<u8> {
    Seq::new(
        size,
        |i: int|
            if i < region.len() {
                region[i]
            } else {
                0u8
            },
    )
}

/// The bytes of `field` in record number `point` of `records`, whose
/// records are `stride` bytes each.
pub open spec fn field_bytes(records: Seq<u8>, stride: nat, field: FieldModel, point: int) -> Seq<
    u8,
> {
    records.subrange(point * stride + field.offset, point * stride + field.end())
}

/// A field of a record lies within that record.
pub proof fn lemma_field_bounds(fields: Seq<FieldModel>, attribute: int, point: int, count: nat)
    requires
        layout_wf(fields),
        0 <= attribute < fields.len(),
        0 <= point < count,
    ensures
        0 <= point * point_size(fields) <= point * point_size(fields) + fields[attribute].offset,
        point * point_size(fields) + fields[attribute].end() <= (point + 1) * point_size(fields),
        (point + 1) * point_size(fields) <= count * point_size(fields),
{
    lemma_fields_aligned_and_disjoint(fields);
    assert(fields[attribute].end() <= point_size(fields));
    lemma_chunk_bounds(point, point_size(fields), count);
}

/// Writing one field of one record leaves every other field of every record
/// as it was.
pub proof fn lemma_field_bytes_after_write(
    before: Seq<u8>,
    fields: Seq<FieldModel>,
    count: nat,
    attribute: int,
    point: int,
    value: Seq<u8>,
    other_attribute: int,
    other_point: int,
)
    requires
        layout_wf(fields),
        before.len() == count * point_size(fields),
        0 <= attribute < fields.len(),
        0 <= other_attribute < fields.len(),
        0 <= point < count,
        0 <= other_point < count,
        value.len() == fields[attribute].size(),
    ensures
        field_bytes(
            before.subrange(0, point * point_size(fields) + fields[attribute].offset) + value
                + before.subrange(
                point * point_size(fields) + fields[attribute].end(),
                before.len() as int,
            ),
            point_size(fields),
            fields[other_attribute],
            other_point,
        ) == if other_point == point && other_attribute == attribute {
            value
        } else {
            field_bytes(before, point_size(fields), fields[other_attribute], other_point)
        },
{
    let stride = point_size(fields);
    let after = before.subrange(0, point * stride + fields[attribute].offset) + value
        + before.subrange(point * stride + fields[attribute].end(), before.len() as int);
    lemma_field_bounds(fields, attribute, point, count);
    lemma_field_bounds(fields, other_attribute, other_point, count);
    lemma_fields_aligned_and_disjoint(fields);
    let written = field_bytes(after, stride, fields[other_attribute], other_point);
    let kept = field_bytes(before, stride, fields[other_attribute], other_point);
    if other_point == point {
        if other_attribute == attribute {
            assert(written =~= value);
        } else if other_attribute < attribute {
            assert(fields[other_attribute].end() <= fields[attribute].offset);
            assert(written =~= kept);
        } else {
            assert(fields[attribute].end() <= fields[other_attribute].offset);
            assert(written =~= kept);
        }
    } else if other_point < point {
        assert((other_point + 1) * stride <= point * stride) by (nonlinear_arith)
            requires
                other_point + 1 <= point,
        ;
        assert(written =~= kept);
    } else {
        assert((point + 1) * stride <= other_point * stride) by (nonlinear_arith)
            requires
                point + 1 <= other_point,
        ;
        assert(written =~= kept);
    }
}

/// A point buffer that keeps whole point records one behind the other.
#[derive(Debug)]
pub struct InterleavedVecPointStorage {
    layout: PointLayout,
    points: Vec<u8>,
    length: usize,
    stride: usize,
}

impl View for InterleavedVecPointStorage {
    type V = PointsModel;

    closed spec fn view(&self) -> PointsModel {
        PointsModel {
            fields: self.layout@,
            values: Seq::new(
                self.length as nat,
                |p: int|
                    Seq::new(
                        self.layout@.len(),
                        |a: int| field_bytes(self.points@, self.stride as nat, self.layout@[a], p),
                    ),
            ),
        }
    }
}

impl InterleavedVecPointStorage {
    /// The records are as long as the layout says, and there is one for
    /// every point.
    pub closed spec fn records_wf(&self) -> bool {
        &&& self.layout.wf()
        &&& self.stride == point_size(self.layout@)
        &&& self.points@.len() == self.length * self.stride
    }

    /// An empty buffer for points of the given layout. `None` where the
    /// machine cannot address one point record.
    pub fn new(layout: PointLayout) -> (buffer: Option<Self>)
        requires
            layout.wf(),
        ensures
            buffer is Some <==> point_size(layout@) <= usize::MAX,
            buffer matches Some(b) ==> b.wf() && b@.fields == layout@ && b@.len() == 0,
    {
        let size: u64 = layout.size_of_point_entry();
        if size > usize::MAX as u64 {
            return None;
        }
        let buffer = InterleavedVecPointStorage {
            layout,
            points: Vec::new(),
            length: 0,
            stride: size as usize,
        };
        assert(0 * buffer.stride == 0);
        Some(buffer)
    }

    /// The bytes that the buffer holds: its point records, one behind the
    /// other, with the padding between and behind their fields.
    pub closed spec fn spec_records(&self) -> Seq<u8> {
        self.points@
    }

    /// The point records, one behind the other.
    pub fn records(&self) -> (records: &[u8])
        requires
            self.wf(),
        ensures
            records@ == self.spec_records(),
            holds_records(self@, records@),
    {
        self.points.as_slice()
    }
}

impl PointBuffer for InterleavedVecPointStorage {
    closed spec fn wf(&self) -> bool {
        self.records_wf()
    }

    proof fn lemma_wf(&self) {
        self.layout.lemma_wf();
        assert forall|p: int, a: int|
            0 <= p < self@.values.len() && 0 <= a < self@.fields.len() implies (
        #[trigger] self@.values[p][a]).len() == self@.fields[a].size() by {
            lemma_field_bounds(self.layout@, a, p, self.length as nat);
        }
    }

    fn len(&self) -> (count: usize) {
        self.length
    }

    fn point_layout(&self) -> (layout: &PointLayout) {
        &self.layout
    }

    open spec fn keeps_records(&self) -> bool {
        true
    }

    fn interleaved_records(&self) -> (records: Option<&[u8]>)
        ensures
            records matches Some(r) ==> r@ == self.spec_records(),
    {
        Some(self.points.as_slice())
    }

    fn get_raw_attribute_range(
        &self,
        index_range: Range<usize>,
        attribute: &PointAttributeDefinition,
        buf: &mut [u8],
    ) -> (result: Result<(), BufferError>) {
        let index: usize = match self.layout.index_of(attribute.name()) {
            Some(i) => i,
            None => {
                return Err(BufferError::MissingAttribute);
            },
        };
        let member = self.layout.attribute_at(index);
        if member.datatype() != attribute.datatype() {
            return Err(BufferError::TypeMismatch);
        }
        if !(index_range.start <= index_range.end && index_range.end <= self.length) {
            return Err(BufferError::OutOfBounds);
        }
        let size: usize = member.size() as usize;
        let offset: u64 = member.offset();
        let total: usize = self.points.len();
        let buf_len: usize = buf.len();
        proof {
            self.layout.lemma_wf();
            self.lemma_wf();
            lemma_fields_aligned_and_disjoint(self.layout@);
            assert(self.layout@[index as int].end() <= self.stride);
        }
        let count: usize = match (index_range.end - index_range.start).checked_mul(size) {
            Some(c) => c,
            None => {
                return Err(BufferError::SizeMismatch);
            },
        };
        if buf_len != count {
            return Err(BufferError::SizeMismatch);
        }
        let offset: usize = offset as usize;
        let mut p: usize = index_range.start;
        let mut at: usize = 0;
        let mut from: usize = 0;
        proof {
            assert(index_range.start * self.stride <= self.length * self.stride) by (nonlinear_arith)
                requires
                    index_range.start <= self.length,
            ;
            assert((index_range.start - index_range.start) * size == 0) by (nonlinear_arith);
        }
        from = index_range.start * self.stride;
        while p < index_range.end
            invariant
                self.wf(),
                self@.wf(),
                layout_wf(self.layout@),
                index < self.layout@.len(),
                size == self.layout@[index as int].size(),
                offset == self.layout@[index as int].offset,
                index_range.start <= p <= index_range.end <= self.length,
                total == self.points@.len(),
                buf@.len() == buf_len,
                buf_len == (index_range.end - index_range.start) * size,
                at == (p - index_range.start) * size,
                from == p * self.stride,
                buf@.subrange(0, at as int) == self@.attribute_range(
                    index as int,
                    index_range.start as int,
                    p as int,
                ),
            decreases index_range.end - p,
        {
            proof {
                lemma_field_bounds(self.layout@, index as int, p as int, self.length as nat);
                assert((p + 1 - index_range.start) * size == (p - index_range.start) * size + size)
                    by (nonlinear_arith);
                assert((p + 1 - index_range.start) * size <= (index_range.end - index_range.start)
                    * size) by (nonlinear_arith)
                    requires
                        p + 1 <= index_range.end,
                ;
                assert((p + 1) * self.stride == p * self.stride + self.stride) by (nonlinear_arith);
            }
            let ghost before = buf@;
            copy_bytes(buf, at, self.points.as_slice(), from + offset, size);
            proof {
                let value = self@.values[p as int][index as int];
                assert(value == self.points@.subrange(from + offset, from + offset + size));
                assert(buf@.subrange(0, at + size) =~= before.subrange(0, at as int) + value);
            }
            at += size;
            from += self.stride;
            p += 1;
        }
        assert(buf@.subrange(0, at as int) =~= buf@);
        Ok(())
    }
}

impl InterleavedVecPointStorage {
    /// Overwrites the values of `attribute` for the points of `index_range`.
    fn write_range(
        &mut self,
        index_range: Range<usize>,
        attribute: &PointAttributeDefinition,
        buf: &[u8],
    ) -> (result: Result<(), BufferError>)
        requires
            old(self).records_wf(),
        ensures
            final(self).records_wf(),
            result == range_outcome(
                old(self)@.fields,
                old(self)@.len(),
                index_range.start as int,
                index_range.end as int,
                attribute.spec_name(),
                attribute.spec_datatype(),
                buf@.len(),
            ),
            result is Ok ==> final(self)@ == old(self)@.with_range(
                field_index(old(self)@.fields, attribute.spec_name()),
                index_range.start as int,
                index_range.end as int,
                buf@,
            ),
            result is Err ==> final(self)@ == old(self)@,
    {
        let index: usize = match self.layout.index_of(attribute.name()) {
            Some(i) => i,
            None => {
                return Err(BufferError::MissingAttribute);
            },
        };
        let member = self.layout.attribute_at(index);
        if member.datatype() != attribute.datatype() {
            return Err(BufferError::TypeMismatch);
        }
        if !(index_range.start <= index_range.end && index_range.end <= self.length) {
            return Err(BufferError::OutOfBounds);
        }
        let size: usize = member.size() as usize;
        let offset: u64 = member.offset();
        let total: usize = self.points.len();
        let buf_len: usize = buf.len();
        proof {
            self.layout.lemma_wf();
            lemma_fields_aligned_and_disjoint(self.layout@);
            assert(self.layout@[index as int].end() <= self.stride);
        }
        let count: usize = match (index_range.end - index_range.start).checked_mul(size) {
            Some(c) => c,
            None => {
                return Err(BufferError::SizeMismatch);
            },
        };
        if buf_len != count {
            return Err(BufferError::SizeMismatch);
        }
        let offset: usize = offset as usize;
        let stride: usize = self.stride;
        let ghost fields = self.layout@;
        let ghost records = self.points@;
        let mut p: usize = index_range.start;
        let mut at: usize = 0;
        proof {
            assert(index_range.start * stride <= self.length * stride) by (nonlinear_arith)
                requires
                    index_range.start <= self.length,
            ;
            assert((index_range.start - index_range.start) * size == 0) by (nonlinear_arith);
        }
        let mut to: usize = index_range.start * stride;
        while p < index_range.end
            invariant
                self.layout == old(self).layout,
                self.length == old(self).length,
                self.stride == old(self).stride,
                stride == self.stride,
                fields == self.layout@,
                records == old(self).points@,
                old(self).records_wf(),
                layout_wf(fields),
                stride == point_size(fields),
                index < fields.len(),
                size == fields[index as int].size(),
                offset == fields[index as int].offset,
                index_range.start <= p <= index_range.end <= self.length,
                total == self.points@.len(),
                total == self.length * stride,
                buf@.len() == buf_len,
                buf_len == (index_range.end - index_range.start) * size,
                at == (p - index_range.start) * size,
                to == p * stride,
                forall|q: int, b: int|
                    0 <= q < self.length && 0 <= b < fields.len() ==> #[trigger] field_bytes(
                        self.points@,
                        stride as nat,
                        fields[b],
                        q,
                    ) == if b == index && index_range.start <= q < p {
                        chunk(buf@, q - index_range.start, size as nat)
                    } else {
                        field_bytes(records, stride as nat, fields[b], q)
                    },
            decreases index_range.end - p,
        {
            proof {
                lemma_field_bounds(fields, index as int, p as int, self.length as nat);
                lemma_chunk_bounds(
                    p - index_range.start,
                    size as nat,
                    (index_range.end - index_range.start) as nat,
                );
                assert((p + 1) * stride == p * stride + stride) by (nonlinear_arith);
            }
            let ghost before = self.points@;
            copy_bytes(self.points.as_mut_slice(), to + offset, buf, at, size);
            proof {
                let value = chunk(buf@, p - index_range.start, size as nat);
                assert(value =~= buf@.subrange(at as int, at + size));
                assert(self.points@ == before.subrange(0, p * stride + fields[index as int].offset)
                    + value + before.subrange(
                    p * stride + fields[index as int].end(),
                    before.len() as int,
                ));
                assert forall|q: int, b: int|
                    0 <= q < self.length && 0 <= b < fields.len() implies #[trigger] field_bytes(
                    self.points@,
                    stride as nat,
                    fields[b],
                    q,
                ) == if b == index && index_range.start <= q < p + 1 {
                    chunk(buf@, q - index_range.start, size as nat)
                } else {
                    field_bytes(records, stride as nat, fields[b], q)
                } by {
                    lemma_field_bytes_after_write(
                        before,
                        fields,
                        self.length as nat,
                        index as int,
                        p as int,
                        value,
                        b,
                        q,
                    );
                    assert(field_bytes(before, stride as nat, fields[b], q) == if b == index
                        && index_range.start <= q < p {
                        chunk(buf@, q - index_range.start, size as nat)
                    } else {
                        field_bytes(records, stride as nat, fields[b], q)
                    });
                }
            }
            at += size;
            to += stride;
            p += 1;
        }
        proof {
            let expected = old(self)@.with_range(
                index as int,
                index_range.start as int,
                index_range.end as int,
                buf@,
            );
            assert forall|q: int| 0 <= q < self.length implies #[trigger] self@.values[q]
                =~~= expected.values[q] by {
                assert forall|b: int| 0 <= b < fields.len() implies self@.values[q][b]
                    == expected.values[q][b] by {
                    assert(self@.values[q][b] == field_bytes(
                        self.points@,
                        stride as nat,
                        fields[b],
                        q,
                    ));
                }
            }
            assert(self@.values =~~= expected.values);
        }
        Ok(())
    }


    /// Cuts the records down to `new_len` or adds records of zero bytes.
    fn resize_records(&mut self, new_len: usize) -> (result: Result<(), BufferError>)
        requires
            old(self).records_wf(),
        ensures
            final(self).records_wf(),
            result is Err <==> new_len * point_size(old(self)@.fields) > usize::MAX,
            result matches Err(e) ==> e == BufferError::CapacityOverflow && final(self)@ == old(self)@,
            result is Ok ==> final(self)@ == old(self)@.resized(new_len as nat),
    {
        let size: usize = match new_len.checked_mul(self.stride) {
            Some(s) => s,
            None => {
                return Err(BufferError::CapacityOverflow);
            },
        };
        let ghost before = self.points@;
        let ghost old_len = self.length;
        self.points.resize(size, 0u8);
        self.length = new_len;
        proof {
            let after = self.points@;
            let fields = self.layout@;
            let stride = self.stride as nat;
            self.layout.lemma_wf();
            if size > before.len() {
                assert forall|i: int| 0 <= i < before.len() implies after[i] == before[i] by {
                    assert(after.subrange(0, before.len() as int)[i] == before[i]);
                }
            }
            assert(after =~= resized_region(before, size as nat));
            let expected = old(self)@.resized(new_len as nat);
            assert forall|p: int, b: int| 0 <= p < new_len && 0 <= b < fields.len() implies (
            #[trigger] self@.values[p][b]) == expected.values[p][b] by {
                lemma_field_bounds(fields, b, p, new_len as nat);
                if p < old_len {
                    lemma_field_bounds(fields, b, p, old_len as nat);
                    assert(field_bytes(after, stride, fields[b], p) =~= field_bytes(
                        before,
                        stride,
                        fields[b],
                        p,
                    ));
                } else {
                    assert(p * stride >= old_len * stride) by (nonlinear_arith)
                        requires
                            p >= old_len,
                    ;
                    assert(field_bytes(after, stride, fields[b], p) =~= zero_point(fields)[b]);
                }
            }
            assert(self@.values =~~= expected.values);
        }
        Ok(())
    }


    /// Appends `count` whole records in one piece.
    fn append_records(&mut self, records: &[u8], count: usize)
        requires
            old(self).records_wf(),
            records@.len() == count * old(self).stride,
            (old(self).length + count) * old(self).stride <= usize::MAX,
            old(self).length + count <= usize::MAX,
        ensures
            final(self).records_wf(),
            final(self)@.fields == old(self)@.fields,
            final(self)@.values == old(self)@.values + Seq::new(
                count as nat,
                |p: int|
                    Seq::new(
                        old(self)@.fields.len(),
                        |a: int|
                            field_bytes(
                                records@,
                                point_size(old(self)@.fields),
                                old(self)@.fields[a],
                                p,
                            ),
                    ),
            ),
    {
        let ghost before = self.points@;
        let ghost old_len = self.length;
        let ghost fields = self.layout@;
        let ghost stride = self.stride as nat;
        self.points.extend_from_slice(records);
        self.length = self.length + count;
        proof {
            self.layout.lemma_wf();
            let after = self.points@;
            assert(after =~= before + records@);
            assert((old_len + count) * stride == old_len * stride + count * stride)
                by (nonlinear_arith);
            let expected = old(self)@.values + Seq::new(
                count as nat,
                |p: int|
                    Seq::new(fields.len(), |a: int| field_bytes(records@, stride, fields[a], p)),
            );
            assert forall|p: int, a: int|
                0 <= p < old_len + count && 0 <= a < fields.len() implies (
            #[trigger] self@.values[p][a]) == expected[p][a] by {
                lemma_field_bounds(fields, a, p, (old_len + count) as nat);
                if p < old_len {
                    lemma_field_bounds(fields, a, p, old_len as nat);
                    assert(field_bytes(after, stride, fields[a], p) =~= field_bytes(
                        before,
                        stride,
                        fields[a],
                        p,
                    ));
                } else {
                    lemma_field_bounds(fields, a, p - old_len, count as nat);
                    assert(p * stride == old_len * stride + (p - old_len) * stride)
                        by (nonlinear_arith);
                    assert(field_bytes(after, stride, fields[a], p) =~= field_bytes(
                        records@,
                        stride,
                        fields[a],
                        p - old_len,
                    ));
                }
            }
            assert(self@.values =~~= expected);
        }
    }

    /// Fills the points from `first` on with the points of `source`,
    /// attribute by attribute.
    fn fill_from<S: PointBuffer>(&mut self, source: &S, first: usize)
        requires
            old(self).records_wf(),
            source.wf(),
            old(self)@.fields == source@.fields,
            old(self)@.len() == first + source@.len(),
        ensures
            final(self).records_wf(),
            final(self)@.fields == old(self)@.fields,
            final(self)@.values == old(self)@.values.take(first as int) + source@.values,
    {
        let count: usize = source.len();
        let fields: usize = source.point_layout().len();
        proof {
            source.lemma_wf();
            old(self).lemma_model_wf();
        }
        let ghost start = self@;
        let mut a: usize = 0;
        while a < fields
            invariant
                a <= fields,
                fields == source@.fields.len(),
                count == source@.len(),
                source.wf(),
                source@.wf(),
                self.records_wf(),
                start.wf(),
                self@.fields == source@.fields,
                self@.len() == first + count,
                start.len() == first + count,
                forall|p: int| 0 <= p < first ==> #[trigger] self@.values[p] == start.values[p],
                forall|p: int|
                    first <= p < first + count ==> (#[trigger] self@.values[p]).len() == fields,
                forall|p: int, b: int|
                    first <= p < first + count && 0 <= b < a ==> #[trigger] self@.values[p][b]
                        == source@.values[p - first][b],
            decreases fields - a,
        {
            let member = source.point_layout().attribute_at(a);
            let size: usize = member.size() as usize;
            let definition = member.definition();
            let total: usize = self.points.len();
            proof {
                lemma_field_index_unique(source@.fields, a as int);
                self.lemma_model_wf();
                lemma_field_bounds(self.layout@, a as int, 0, 1);
                assert(total == (first + count) * self.stride);
                assert(count * size <= (first + count) * self.stride) by (nonlinear_arith)
                    requires
                        size <= self.stride,
                        0 <= first,
                        0 <= count,
                ;
            }
            let mut values: Vec<u8> = vec![0u8; count * size];
            let read = source.get_raw_attribute_range(0..count, &definition, values.as_mut_slice());
            assert(read is Ok);
            let ghost before = self@;
            let written = self.write_range(first..first + count, &definition, values.as_slice());
            assert(written is Ok);
            proof {
                self.lemma_model_wf();
                assert forall|p: int, b: int|
                    first <= p < first + count && 0 <= b < a + 1 implies #[trigger] self@.values[p][b]
                    == source@.values[p - first][b] by {
                    if b == a {
                        lemma_chunk_of_attribute_range(
                            source@,
                            a as int,
                            0,
                            count as int,
                            p - first,
                        );
                    } else {
                        assert(before.values[p][b] == source@.values[p - first][b]);
                    }
                }
                assert forall|p: int| 0 <= p < first implies #[trigger] self@.values[p]
                    == start.values[p] by {
                    assert(before.values[p] == start.values[p]);
                }
            }
            a += 1;
        }
        proof {
            let expected = start.values.take(first as int) + source@.values;
            assert forall|p: int| 0 <= p < first + count implies #[trigger] self@.values[p]
                == expected[p] by {
                if p >= first {
                    assert(source@.values[p - first].len() == fields);
                    assert(self@.values[p] =~= source@.values[p - first]);
                }
            }
            assert(self@.values =~= expected);
        }
    }

    /// A well-formed buffer holds well-formed points.
    proof fn lemma_model_wf(&self)
        requires
            self.records_wf(),
        ensures
            self@.wf(),
    {
        self.layout.lemma_wf();
        assert forall|p: int, a: int|
            0 <= p < self@.values.len() && 0 <= a < self@.fields.len() implies (
        #[trigger] self@.values[p][a]).len() == self@.fields[a].size() by {
            lemma_field_bounds(self.layout@, a, p, self.length as nat);
        }
    }
}

impl PointBufferWriteable for InterleavedVecPointStorage {
    open spec fn fits(fields: Seq<FieldModel>, points: nat) -> bool {
        points * point_size(fields) <= usize::MAX
    }

    proof fn lemma_fits(fields: Seq<FieldModel>, points: nat) {
    }

    fn set_raw_attribute_range(
        &mut self,
        index_range: Range<usize>,
        attribute: &PointAttributeDefinition,
        buf: &[u8],
    ) -> (result: Result<(), BufferError>) {
        self.write_range(index_range, attribute, buf)
    }

    fn resize(&mut self, new_len: usize) -> (result: Result<(), BufferError>) {
        self.resize_records(new_len)
    }

    fn push<B: PointBuffer>(&mut self, other: &B) -> (result: Result<(), BufferError>) {
        if !self.layout.equals(other.point_layout()) {
            return Err(BufferError::LayoutMismatch);
        }
        let added: usize = other.len();
        let old_len: usize = self.length;
        let new_len: usize = match old_len.checked_add(added) {
            Some(n) => n,
            None => {
                return Err(BufferError::CapacityOverflow);
            },
        };
        if new_len.checked_mul(self.stride).is_none() {
            return Err(BufferError::CapacityOverflow);
        }
        let ghost before = self@;
        match other.interleaved_records() {
            Some(records) => {
                proof {
                    other.lemma_wf();
                }
                self.append_records(records, added);
                assert(self@.values =~~= before.values + other@.values);
            },
            None => {
                let resized = self.resize_records(new_len);
                assert(resized is Ok);
                self.fill_from(other, old_len);
                assert(self@.values =~= before.values + other@.values);
            },
        }
        Ok(())
    }
}

/// What a buffer gives for an attribute and a range of points depends on
/// the values of those points alone, not on how the buffer keeps them: two
/// buffers that hold the same values for the attribute give the same bytes.
pub proof fn lemma_same_values_same_bytes(
    first: PointsModel,
    second: PointsModel,
    attribute: int,
    start: int,
    end: int,
)
    requires
        forall|p: int|
            start <= p < end ==> (#[trigger] first.values[p])[attribute]
                == second.values[p][attribute],
    ensures
        first.attribute_range(attribute, start, end) == second.attribute_range(
            attribute,
            start,
            end,
        ),
    decreases end - start,
{
    if start < end {
        lemma_same_values_same_bytes(first, second, attribute, start, end - 1);
        assert(first.values[end - 1][attribute] == second.values[end - 1][attribute]);
    }
}

/// A buffer that keeps its points attribute by attribute and one that keeps
/// them record by record, holding the same points, give the same bytes for
/// every attribute over the full range.
pub proof fn lemma_layouts_agree(
    columnar: &PerAttributeVecPointStorage,
    interleaved: &InterleavedVecPointStorage,
    attribute: int,
)
    requires
        columnar.wf(),
        interleaved.wf(),
        columnar@ == interleaved@,
    ensures
        columnar@.attribute_range(attribute, 0, columnar@.len() as int)
            == interleaved@.attribute_range(attribute, 0, interleaved@.len() as int),
{
    lemma_same_values_same_bytes(columnar@, interleaved@, attribute, 0, columnar@.len() as int);
}

} // verus!
