//! The ASN.1 type SEQUENCE as a vector of elements of one type.
//!
//! The payload of a sequence is the encodings of its elements, one behind the
//! other with nothing between them.

use vstd::prelude::*;
use vstd::slice::slice_subrange;
use crate::der::tag::SEQUENCE;
use crate::der::{encoding, encoding_len, parsed_object, DerModel, DerObject};
use crate::der::{lemma_encoding_len, lemma_parse_encoding};
use crate::error::Asn1DerError;
use crate::types::{FromDerObject, IntoDerObject};

verus! {

/// The encodings of `objects`, one behind the other.
pub open spec fn concat_encodings(objects: Seq<DerModel>) -> Seq<u8>
    decreases objects.len(),
{
    if objects.len() == 0 {
        Seq::empty()
    } else {
        encoding(objects[0]) + concat_encodings(objects.skip(1))
    }
}

/// The objects that stand for `elements`, in their order.
pub open spec fn models<T: IntoDerObject>(elements: Seq<T>) -> Seq<DerModel> {
    elements.map_values(|e: T| e.der_model())
}

/// The object that stands for a sequence of `elements`.
pub open spec fn sequence_model<T: IntoDerObject>(elements: Seq<T>) -> DerModel {
    DerModel { tag: SEQUENCE, payload: concat_encodings(models(elements)) }
}

/// The records that `payload` holds, one behind the other, up to the first
/// that cannot be read.
pub open spec fn records(payload: Seq<u8>) -> Seq<DerModel>
    decreases payload.len(),
{
    if payload.len() == 0 {
        Seq::empty()
    } else {
        match parsed_object(payload) {
            Ok((object, size)) => if 0 < size <= payload.len() {
                seq![object] + records(payload.skip(size as int))
            } else {
                Seq::empty()
            },
            Err(_) => Seq::empty(),
        }
    }
}

/// The error with which `payload` is refused as the elements of a sequence
/// of `T`, if it is: for the first record that cannot be read the error of
/// the record, for the first that `T` refuses the error of `T`, whichever
/// comes first.
pub open spec fn elements_refusal<T: FromDerObject>(payload: Seq<u8>) -> Option<Asn1DerError>
    decreases payload.len(),
{
    if payload.len() == 0 {
        None
    } else {
        match parsed_object(payload) {
            Err(e) => Some(e),
            Ok((object, size)) => if T::refusal(object) is Some {
                T::refusal(object)
            } else if 0 < size <= payload.len() {
                elements_refusal::<T>(payload.skip(size as int))
            } else {
                None
            },
        }
    }
}

/// A record that is read takes at least two bytes and no more than there are.
pub proof fn lemma_parsed_size(src: Seq<u8>)
    requires
        parsed_object(src) is Ok,
    ensures
        2 <= parsed_object(src)->Ok_0.1 <= src.len(),
{
}

/// The encodings of objects with one more at the end are the encodings of
/// the objects and then that of the last.
pub proof fn lemma_concat_push(objects: Seq<DerModel>, last: DerModel)
    ensures
        concat_encodings(objects.push(last)) == concat_encodings(objects) + encoding(last),
    decreases objects.len(),
{
    if objects.len() == 0 {
        assert(objects.push(last).skip(1) =~= Seq::<DerModel>::empty());
        assert(objects.push(last)[0] == last);
        assert(concat_encodings(objects.push(last).skip(1)) =~= Seq::<u8>::empty());
        assert(concat_encodings(objects) =~= Seq::<u8>::empty());
        assert(concat_encodings(objects.push(last)) =~= concat_encodings(objects) + encoding(
            last,
        ));
    } else {
        lemma_concat_push(objects.skip(1), last);
        assert(objects.push(last).skip(1) =~= objects.skip(1).push(last));
        assert(concat_encodings(objects.push(last)) =~= concat_encodings(objects) + encoding(
            last,
        ));
    }
}

/// The encodings of the first `count` objects are no longer than those of
/// all, and each object's payload is shorter than the whole.
pub proof fn lemma_concat_prefix(objects: Seq<DerModel>, count: int)
    requires
        0 <= count <= objects.len(),
    ensures
        concat_encodings(objects.take(count)).len() <= concat_encodings(objects).len(),
        count < objects.len() ==> concat_encodings(objects.take(count + 1)) == concat_encodings(
            objects.take(count),
        ) + encoding(objects[count]),
        count < objects.len() ==> concat_encodings(objects.take(count)).len() + encoding(
            objects[count],
        ).len() <= concat_encodings(objects).len(),
        count < objects.len() ==> objects[count].payload.len() < concat_encodings(objects).len(),
    decreases objects.len() - count,
{
    if count < objects.len() {
        lemma_concat_push(objects.take(count), objects[count]);
        assert(objects.take(count + 1) =~= objects.take(count).push(objects[count]));
        lemma_concat_prefix(objects, count + 1);
    } else {
        assert(objects.take(count) =~= objects);
    }
}

/// Objects whose encodings have at most `bound` bytes each have encodings
/// of at most `bound` bytes for each object, taken together.
pub proof fn lemma_concat_bound(objects: Seq<DerModel>, bound: nat)
    requires
        forall|i: int| 0 <= i < objects.len() ==> encoding(#[trigger] objects[i]).len() <= bound,
    ensures
        concat_encodings(objects).len() <= objects.len() * bound,
    decreases objects.len(),
{
    if objects.len() > 0 {
        let rest = objects.skip(1);
        assert forall|i: int| 0 <= i < rest.len() implies encoding(#[trigger] rest[i]).len()
            <= bound by {
            assert(rest[i] == objects[i + 1]);
        }
        lemma_concat_bound(rest, bound);
        assert(bound + (objects.len() - 1) * bound == objects.len() * bound)
            by (nonlinear_arith);
    }
}

/// Reading the payload of a sequence gives the objects of its elements
/// back, in their order.
pub proof fn lemma_records_of_concat(objects: Seq<DerModel>)
    requires
        forall|i: int| 0 <= i < objects.len() ==> (#[trigger] objects[i]).payload.len()
            <= usize::MAX,
    ensures
        records(concat_encodings(objects)) == objects,
    decreases objects.len(),
{
    if objects.len() > 0 {
        let rest = concat_encodings(objects.skip(1));
        let payload = concat_encodings(objects);
        lemma_parse_encoding(objects[0], rest);
        lemma_encoding_len(objects[0]);
        assert forall|i: int| 0 <= i < objects.skip(1).len() implies (#[trigger] objects.skip(
            1,
        )[i]).payload.len() <= usize::MAX by {
            assert(objects.skip(1)[i] == objects[i + 1]);
        }
        lemma_records_of_concat(objects.skip(1));
        assert(payload.skip(encoding(objects[0]).len() as int) =~= rest);
        assert(records(payload) =~= objects);
    } else {
        assert(records(concat_encodings(objects)) =~= objects);
    }
}

/// The payload of a sequence whose elements' objects `T` accepts is
/// accepted as the elements of a sequence of `T`.
pub proof fn lemma_concat_accepted<T: FromDerObject>(objects: Seq<DerModel>)
    requires
        forall|i: int| 0 <= i < objects.len() ==> (#[trigger] objects[i]).payload.len()
            <= usize::MAX,
        forall|i: int| 0 <= i < objects.len() ==> T::refusal(#[trigger] objects[i]) is None,
    ensures
        elements_refusal::<T>(concat_encodings(objects)) is None,
    decreases objects.len(),
{
    if objects.len() > 0 {
        let rest = concat_encodings(objects.skip(1));
        let payload = concat_encodings(objects);
        lemma_parse_encoding(objects[0], rest);
        lemma_encoding_len(objects[0]);
        assert forall|i: int| 0 <= i < objects.skip(1).len() implies (#[trigger] objects.skip(
            1,
        )[i]).payload.len() <= usize::MAX && T::refusal(objects.skip(1)[i]) is None by {
            assert(objects.skip(1)[i] == objects[i + 1]);
        }
        lemma_concat_accepted::<T>(objects.skip(1));
        assert(payload.skip(encoding(objects[0]).len() as int) =~= rest);
    }
}

impl<T: FromDerObject> FromDerObject for Vec<T> {
    open spec fn refusal(object: DerModel) -> Option<Asn1DerError> {
        if object.tag != SEQUENCE {
            Some(Asn1DerError::InvalidTag)
        } else {
            elements_refusal::<T>(object.payload)
        }
    }

    open spec fn decoded_from(&self, object: DerModel) -> bool {
        &&& self@.len() == records(object.payload).len()
        &&& forall|i: int|
            0 <= i < self@.len() ==> (#[trigger] self@[i]).decoded_from(records(object.payload)[i])
    }

    fn from_der_object(der_object: DerObject) -> (r: Result<Self, Asn1DerError>) {
        if der_object.tag.byte != SEQUENCE {
            return Err(Asn1DerError::InvalidTag);
        }
        // Parse objects
        let ghost payload = der_object.value.data@;
        let len: usize = der_object.value.data.len();
        let mut objects: Vec<T> = Vec::new();
        let mut position: usize = 0;
        let ghost mut done: Seq<DerModel> = Seq::empty();
        proof {
            assert(payload.skip(0) =~= payload);
        }
        while position < len
            invariant
                position <= len,
                len == payload.len(),
                payload == der_object.value.data@,
                der_object.tag.byte == SEQUENCE,
                elements_refusal::<T>(payload) == elements_refusal::<T>(
                    payload.skip(position as int),
                ),
                records(payload) == done + records(payload.skip(position as int)),
                objects@.len() == done.len(),
                forall|i: int|
                    0 <= i < objects@.len() ==> (#[trigger] objects@[i]).decoded_from(done[i]),
            decreases len - position,
        {
            let rest = slice_subrange(der_object.value.data.as_slice(), position, len);
            assert(rest@ =~= payload.skip(position as int));
            let (object, size) = match DerObject::deserialize_prefix(rest) {
                Ok(found) => found,
                Err(e) => {
                    assert(elements_refusal::<T>(rest@) == Some(e));
                    return Err(e);
                },
            };
            proof {
                lemma_parsed_size(rest@);
            }
            let ghost model = object@;
            let element = match T::from_der_object(object) {
                Ok(element) => element,
                Err(e) => {
                    assert(elements_refusal::<T>(rest@) == Some(e));
                    return Err(e);
                },
            };
            assert(elements_refusal::<T>(rest@) == elements_refusal::<T>(
                rest@.skip(size as int),
            ));
            assert(records(rest@) == seq![model] + records(rest@.skip(size as int)));
            objects.push(element);
            proof {
                assert(payload.skip(position as int).skip(size as int) =~= payload.skip(
                    position + size,
                ));
                assert(done.push(model) + records(payload.skip(position + size)) =~= done + (
                seq![model] + records(payload.skip(position + size))));
                done = done.push(model);
            }
            position += size;
        }
        proof {
            assert(records(payload.skip(position as int)) =~= Seq::<DerModel>::empty());
            assert(records(payload) =~= done);
        }
        Ok(objects)
    }
}

impl<T: IntoDerObject> IntoDerObject for Vec<T> {
    open spec fn der_model(&self) -> DerModel {
        sequence_model(self@)
    }

    open spec fn has_object(&self) -> bool {
        &&& sequence_model(self@).payload.len() <= usize::MAX
        &&& forall|i: int| 0 <= i < self@.len() ==> (#[trigger] self@[i]).encodable()
    }

    open spec fn encodable(&self) -> bool {
        &&& encoding_len(sequence_model(self@).payload.len()) <= usize::MAX
        &&& forall|i: int| 0 <= i < self@.len() ==> (#[trigger] self@[i]).encodable()
    }

    proof fn lemma_encodable(&self) {
    }

    fn into_der_object(self) -> (object: DerObject) {
        let ghost elements = self@;
        let ghost objects = models(elements);
        let mut elements_left = self;
        // Compute the total length and allocate the buffer
        let len: usize = payload_len(&elements_left);
        let mut payload_buf: Vec<u8> = vec![0u8; len];
        // Serialize the elements, the last one first, each into its place
        let mut position: usize = len;
        proof {
            assert(elements.take(elements.len() as int) =~= elements);
            assert(objects.take(objects.len() as int) =~= objects);
            assert(payload_buf@.skip(position as int) =~= Seq::<u8>::empty());
            assert(concat_encodings(objects) =~= concat_encodings(objects) + payload_buf@.skip(
                position as int,
            ));
        }
        while elements_left.len() > 0
            invariant
                objects == models(elements),
                forall|i: int| 0 <= i < elements.len() ==> (#[trigger] elements[i]).encodable(),
                elements_left@ == elements.take(elements_left@.len() as int),
                elements_left@.len() <= elements.len(),
                payload_buf@.len() == len,
                len == concat_encodings(objects).len(),
                position == concat_encodings(objects.take(elements_left@.len() as int)).len(),
                position <= len,
                concat_encodings(objects) == concat_encodings(
                    objects.take(elements_left@.len() as int),
                ) + payload_buf@.skip(position as int),
            decreases elements_left@.len(),
        {
            let ghost count = elements_left@.len() - 1;
            let ghost before = payload_buf@;
            let element = elements_left.pop().unwrap();
            proof {
                lemma_concat_prefix(objects, count);
                assert(element == elements[count]);
                element.lemma_encodable();
                assert(objects[count] == element.der_model());
                lemma_encoding_len(element.der_model());
                assert(elements_left@ =~= elements.take(count));
            }
            let size: usize = element.serialized_len();
            position -= size;
            let (_, place) = payload_buf.as_mut_slice().split_at_mut(position);
            let _ = element.serialize(place);
            proof {
                assert(payload_buf@.skip(position as int) =~= encoding(objects[count])
                    + before.skip(position + size));
                assert(concat_encodings(objects) =~= concat_encodings(objects.take(count))
                    + payload_buf@.skip(position as int));
            }
        }
        proof {
            assert(objects.take(0) =~= Seq::<DerModel>::empty());
            assert(payload_buf@.skip(0) =~= payload_buf@);
            assert(payload_buf@ =~= concat_encodings(objects));
        }
        DerObject::from_raw(SEQUENCE, payload_buf)
    }

    fn serialized_len(&self) -> (len: usize) {
        proof {
            lemma_encoding_len(self.der_model());
        }
        let len: usize = payload_len(self);
        DerObject::compute_serialized_len(len)
    }

    fn checked_serialized_len(&self) -> (len: Option<usize>) {
        let ghost objects = models(self@);
        let mut total: usize = 0;
        let mut i: usize = 0;
        proof {
            assert(objects.take(0) =~= Seq::<DerModel>::empty());
        }
        while i < self.len()
            invariant
                i <= self@.len(),
                objects == models(self@),
                total == concat_encodings(objects.take(i as int)).len(),
                forall|j: int| 0 <= j < i ==> (#[trigger] self@[j]).encodable(),
            decreases self@.len() - i,
        {
            proof {
                lemma_concat_prefix(objects, i as int);
                assert(objects[i as int] == self@[i as int].der_model());
            }
            let size: usize = match self[i].checked_serialized_len() {
                Some(size) => size,
                None => { return None; },
            };
            proof {
                self@[i as int].lemma_encodable();
                lemma_encoding_len(self@[i as int].der_model());
            }
            if size > usize::MAX - total {
                return None;
            }
            total += size;
            i += 1;
        }
        proof {
            assert(objects.take(i as int) =~= objects);
        }
        DerObject::checked_serialized_len(total)
    }
}

/// Computes the length of the payload of a sequence of `elements` without
/// encoding them.
pub fn payload_len<T: IntoDerObject>(elements: &Vec<T>) -> (len: usize)
    requires
        sequence_model(elements@).payload.len() <= usize::MAX,
        forall|i: int| 0 <= i < elements@.len() ==> (#[trigger] elements@[i]).encodable(),
    ensures
        len == sequence_model(elements@).payload.len(),
{
    let ghost objects = models(elements@);
    let mut len: usize = 0;
    let mut i: usize = 0;
    proof {
        assert(objects.take(0) =~= Seq::<DerModel>::empty());
    }
    while i < elements.len()
        invariant
            i <= elements@.len(),
            objects == models(elements@),
            forall|i: int| 0 <= i < elements@.len() ==> (#[trigger] elements@[i]).encodable(),
            concat_encodings(objects).len() <= usize::MAX,
            len == concat_encodings(objects.take(i as int)).len(),
        decreases elements@.len() - i,
    {
        proof {
            lemma_concat_prefix(objects, i as int);
            assert(objects[i as int] == elements@[i as int].der_model());
            lemma_encoding_len(elements@[i as int].der_model());
        }
        len += elements[i].serialized_len();
        i += 1;
    }
    proof {
        assert(objects.take(i as int) =~= objects);
    }
    len
}

} // verus!
