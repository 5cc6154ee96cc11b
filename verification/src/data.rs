//! Turning the bytes of a labelled image set into values of a graph.
//!
//! Reading the files is the caller's business. What is here is what becomes of
//! the bytes once they are read.

use crate::graph::{grows_from, Graph, NodeView};
use crate::scalar::{is_byte, is_one, is_quotient, is_zero, Scalar};
use crate::value::{is_leaf_of, Value};
use vstd::prelude::*;

verus! {

/// The number of classes a label can name.
pub const CLASSES: usize = 10;

/// The number of samples in an image file, from the first sixteen bytes of the
/// file: the low two bytes of the big-endian count that follows the magic
/// number.
pub fn sample_count(header: &[u8; 16]) -> (count: u32)
    ensures
        count == header[7] + header[6] * 256,
{
    header[7] as u32 + header[6] as u32 * 256
}

/// `node` is a leaf that holds a result of `pixel / 255`.
pub open spec fn is_pixel_leaf<T: Scalar>(pixel: u8, node: NodeView<T>) -> bool {
    &&& is_leaf_of(node.value, node)
    &&& exists|level: T, full: T|
        is_byte(pixel, level) && is_byte(255u8, full) && is_quotient(level, full, node.value)
}

/// `node` is a leaf that holds one if `hot`, and zero if not.
pub open spec fn is_indicator_leaf<T: Scalar>(hot: bool, node: NodeView<T>) -> bool {
    &&& is_leaf_of(node.value, node)
    &&& if hot {
        is_one(node.value)
    } else {
        is_zero(node.value)
    }
}

/// The pixels of an image as new leaves of `graph`, one for each byte and in
/// the order of the bytes, each holding its byte divided by 255.
pub fn normalize<T: Scalar>(graph: &mut Graph<T>, pixels: &Vec<u8>) -> (image: Vec<Value>)
    requires
        old(graph).wf(),
    ensures
        image@.len() == pixels@.len(),
        final(graph)@.len() == old(graph)@.len() + pixels@.len(),
        grows_from(final(graph)@, old(graph)@),
        forall|i: int|
            0 <= i < pixels@.len() ==> (#[trigger] image@[i]).index == old(graph)@.len() + i,
        forall|i: int|
            0 <= i < pixels@.len() ==> is_pixel_leaf(
                #[trigger] pixels@[i],
                final(graph)@[old(graph)@.len() + i],
            ),
        final(graph).wf(),
{
    let ghost start = graph@;
    let mut image: Vec<Value> = Vec::new();
    let mut idx: usize = 0;
    while idx < pixels.len()
        invariant
            graph.wf(),
            idx <= pixels@.len(),
            image@.len() == idx,
            graph@.len() == start.len() + idx,
            grows_from(graph@, start),
            forall|i: int| 0 <= i < idx ==> (#[trigger] image@[i]).index == start.len() + i,
            forall|i: int|
                0 <= i < idx ==> is_pixel_leaf(#[trigger] pixels@[i], graph@[start.len() + i]),
        decreases pixels@.len() - idx,
    {
        let ghost before = graph@;
        let level = T::from_byte(pixels[idx]);
        let full = T::from_byte(255u8);
        let value = level.over(full);
        let leaf = Value::new(graph, value);
        image.push(leaf);
        proof {
            assert(is_byte(pixels@[idx as int], level) && is_byte(255u8, full) && is_quotient(
                level,
                full,
                graph@.last().value,
            ));
            assert forall|i: int| 0 <= i < idx + 1 implies is_pixel_leaf(
                #[trigger] pixels@[i],
                graph@[start.len() + i],
            ) by {
                if i < idx {
                    assert(graph@[start.len() + i] == before[start.len() + i]);
                }
            }
        }
        idx += 1;
    }
    image
}

/// A label as new leaves of `graph`, one for each class: the leaf of the
/// class that `label` names holds one, every other leaf holds zero. A label
/// that names no class gives zeros only.
pub fn one_hot<T: Scalar>(graph: &mut Graph<T>, label: u8) -> (encoded: Vec<Value>)
    requires
        old(graph).wf(),
    ensures
        encoded@.len() == CLASSES,
        final(graph)@.len() == old(graph)@.len() + CLASSES,
        grows_from(final(graph)@, old(graph)@),
        forall|i: int| 0 <= i < CLASSES ==> (#[trigger] encoded@[i]).index == old(graph)@.len() + i,
        forall|i: int|
            0 <= i < CLASSES ==> is_indicator_leaf(
                i == label,
                #[trigger] final(graph)@[old(graph)@.len() + i],
            ),
        final(graph).wf(),
{
    let ghost start = graph@;
    let mut encoded: Vec<Value> = Vec::new();
    let mut idx: u8 = 0;
    while idx < 10
        invariant
            graph.wf(),
            idx <= 10,
            CLASSES == 10,
            encoded@.len() == idx,
            graph@.len() == start.len() + idx,
            grows_from(graph@, start),
            forall|i: int| 0 <= i < idx ==> (#[trigger] encoded@[i]).index == start.len() + i,
            forall|i: int|
                0 <= i < idx ==> is_indicator_leaf(i == label, #[trigger] graph@[start.len() + i]),
        decreases 10 - idx,
    {
        let ghost before = graph@;
        let value = if label == idx {
            T::one()
        } else {
            T::zero()
        };
        let leaf = Value::new(graph, value);
        encoded.push(leaf);
        proof {
            assert forall|i: int| 0 <= i < idx + 1 implies is_indicator_leaf(
                i == label,
                #[trigger] graph@[start.len() + i],
            ) by {
                if i < idx {
                    assert(graph@[start.len() + i] == before[start.len() + i]);
                }
            }
        }
        idx += 1;
    }
    encoded
}

} // verus!
