//! The byte form of an index's state.
//!
//! A state is the polygons of the cells, in the order of their identities,
//! and the logical shape. The tree is not part of it: it is built again from
//! the cells, so no buffer can yield a tree that disagrees with its cells.

use crate::cell::{polygons, NumberedCell};
use crate::geometry::Geometry;
use bincode::ErrorKind;
use rstar::primitives::CachedEnvelope;
use vstd::prelude::*;

verus! {

/// `bincode::ErrorKind`: why writing or reading a state failed. It is
/// carried from the codec to its description.
#[verifier::external_type_specification]
#[verifier::external_body]
pub struct ExErrorKind(ErrorKind);

/// The bytes that `bincode` writes for a state, or its failure.
pub uninterp spec fn encoding(cells: Seq<Geometry>, shape: Seq<usize>) -> Result<
    Seq<u8>,
    ErrorKind,
>;

/// The state that `bincode` reads from a buffer, or its failure.
pub uninterp spec fn decoding(bytes: Seq<u8>) -> Result<(Seq<Geometry>, Seq<usize>), ErrorKind>;

/// The text in which `bincode` describes a failure.
pub uninterp spec fn codec_failure_text(failure: ErrorKind) -> Seq<char>;

/// Writes the polygons of the cells and the shape as bytes.
///
/// Calls `bincode::serialize` on the pair of the polygons and the shape.
/// Trusted: the bytes are a function of the state, and `bincode` reads back
/// from them the state that it wrote, as its documentation shows for
/// `serialize` and `deserialize`: every number is written as its eight
/// bytes and read back as the same bytes, and `decode` changes nothing in
/// what is read.
#[verifier::external_body]
pub(crate) fn encode(cells: &Vec<NumberedCell>, shape: &Vec<usize>) -> (outcome: Result<
    Vec<u8>,
    Box<ErrorKind>,
>)
    ensures
        match outcome {
            Ok(bytes) => {
                &&& encoding(polygons(cells@), shape@) == Ok::<Seq<u8>, ErrorKind>(bytes@)
                &&& decoding(bytes@) == Ok::<(Seq<Geometry>, Seq<usize>), ErrorKind>(
                    (polygons(cells@), shape@),
                )
            },
            Err(failure) => encoding(polygons(cells@), shape@) == Err::<Seq<u8>, ErrorKind>(
                *failure,
            ),
        },
{
    let rings: Vec<&geo::Polygon> = cells.iter().map(|cell| &*cell.geometry.shape).collect();
    bincode::serialize(&(rings, shape))
}

/// Reads polygons and a shape from bytes.
///
/// Calls `bincode::deserialize` for a pair of polygons and a shape, and
/// hands on the polygons as they were read, each with its envelope computed
/// by `CachedEnvelope::new`. Nothing is mended: a ring that the bytes leave
/// open stays open. Trusted: the result is a function of the bytes.
#[verifier::external_body]
pub(crate) fn decode(bytes: &[u8]) -> (outcome: Result<(Vec<Geometry>, Vec<usize>), Box<ErrorKind>>)
    ensures
        match outcome {
            Ok((cells, shape)) => decoding(bytes@) == Ok::<
                (Seq<Geometry>, Seq<usize>),
                ErrorKind,
            >((cells@, shape@)),
            Err(failure) => decoding(bytes@) == Err::<(Seq<Geometry>, Seq<usize>), ErrorKind>(
                *failure,
            ),
        },
{
    let (rings, shape): (Vec<geo::Polygon>, Vec<usize>) = bincode::deserialize(bytes)?;
    let cached = |polygon: geo::Polygon| Geometry { shape: CachedEnvelope::new(polygon) };
    Ok((rings.into_iter().map(cached).collect(), shape))
}

/// The text of a failure of the codec.
///
/// Calls the `Display` impl of `bincode::ErrorKind`. Trusted: the text is a
/// function of the failure. On byte slices `bincode` builds no failure from
/// a code of the operating system, whose text could vary.
#[verifier::external_body]
pub(crate) fn describe_failure(failure: &ErrorKind) -> (text: String)
    ensures
        text@ == codec_failure_text(*failure),
{
    failure.to_string()
}

} // verus!
