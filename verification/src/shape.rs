//! Row-major arithmetic on multi-dimensional shapes.

use vstd::prelude::*;

verus! {

/// The number of elements of an array with the given shape: the product of
/// its extents, which is 1 for the shape without dimensions.
pub open spec fn element_count(shape: Seq<usize>) -> nat
    decreases shape.len(),
{
    if shape.len() == 0 {
        1
    } else {
        element_count(shape.drop_last()) * (shape.last() as nat)
    }
}

/// Whether `position` names an element of an array with the given shape.
pub open spec fn in_bounds(position: Seq<usize>, shape: Seq<usize>) -> bool {
    &&& position.len() == shape.len()
    &&& forall|d: int| 0 <= d < shape.len() ==> position[d] < shape[d]
}

/// The offset of `position` in the row-major layout of `shape`: the last
/// dimension varies fastest.
pub open spec fn linear_index(position: Seq<usize>, shape: Seq<usize>) -> nat
    decreases shape.len(),
{
    if shape.len() == 0 || position.len() != shape.len() {
        0
    } else {
        linear_index(position.drop_last(), shape.drop_last()) * (shape.last() as nat) + (
        position.last() as nat)
    }
}

/// Whether some extent of the shape is zero.
pub open spec fn has_zero(shape: Seq<usize>) -> bool {
    exists|d: int| 0 <= d < shape.len() && shape[d] == 0
}

/// A shape has no elements exactly when one of its extents is zero.
pub proof fn lemma_count_zero(shape: Seq<usize>)
    ensures
        element_count(shape) == 0 <==> has_zero(shape),
    decreases shape.len(),
{
    if shape.len() > 0 {
        let front = shape.drop_last();
        lemma_count_zero(front);
        if has_zero(front) {
            let d = choose|d: int| 0 <= d < front.len() && front[d] == 0;
            assert(shape[d] == 0);
        }
        if has_zero(shape) {
            let d = choose|d: int| 0 <= d < shape.len() && shape[d] == 0;
            if d < front.len() {
                assert(front[d] == 0);
            }
        }
        assert(element_count(shape) == 0 <==> (element_count(front) == 0 || shape.last() == 0))
            by (nonlinear_arith)
            requires
                element_count(shape) == element_count(front) * (shape.last() as nat),
        ;
    }
}

/// The count of a prefix never exceeds the count of the whole shape when no
/// extent is zero.
pub proof fn lemma_count_prefix(shape: Seq<usize>, n: int)
    requires
        0 <= n <= shape.len(),
        !has_zero(shape),
    ensures
        1 <= element_count(shape.take(n)) <= element_count(shape),
    decreases shape.len() - n,
{
    lemma_count_zero(shape.take(n));
    if has_zero(shape.take(n)) {
        let d = choose|d: int| 0 <= d < shape.take(n).len() && shape.take(n)[d] == 0;
        assert(shape[d] == 0);
    }
    if n == shape.len() {
        assert(shape.take(n) =~= shape);
    } else {
        lemma_count_prefix(shape, n + 1);
        let longer = shape.take(n + 1);
        assert(longer.drop_last() =~= shape.take(n));
        assert(longer.last() == shape[n]);
        assert(shape[n] >= 1);
        assert(element_count(shape.take(n)) <= element_count(longer)) by (nonlinear_arith)
            requires
                element_count(longer) == element_count(shape.take(n)) * (shape[n] as nat),
                shape[n] >= 1,
        ;
    }
}

/// A position within bounds has an offset below the element count.
pub proof fn lemma_linear_index_bound(position: Seq<usize>, shape: Seq<usize>)
    requires
        in_bounds(position, shape),
    ensures
        linear_index(position, shape) < element_count(shape),
    decreases shape.len(),
{
    if shape.len() > 0 {
        let p = position.drop_last();
        let s = shape.drop_last();
        assert(in_bounds(p, s)) by {
            assert forall|d: int| 0 <= d < s.len() implies p[d] < s[d] by {
                assert(position[d] < shape[d]);
            }
        }
        lemma_linear_index_bound(p, s);
        assert(position.last() < shape.last());
        assert(linear_index(p, s) * (shape.last() as nat) + (position.last() as nat)
            < element_count(s) * (shape.last() as nat)) by (nonlinear_arith)
            requires
                linear_index(p, s) < element_count(s),
                (position.last() as nat) < (shape.last() as nat),
        ;
    }
}

/// The element count of a concatenation is the product of the counts.
pub proof fn lemma_count_concat(outer: Seq<usize>, inner: Seq<usize>)
    ensures
        element_count(outer + inner) == element_count(outer) * element_count(inner),
    decreases inner.len(),
{
    if inner.len() == 0 {
        assert(outer + inner =~= outer);
        assert(element_count(inner) == 1);
        assert(element_count(outer) * 1 == element_count(outer)) by (nonlinear_arith);
    } else {
        let whole = outer + inner;
        assert(whole.drop_last() =~= outer + inner.drop_last());
        assert(whole.last() == inner.last());
        lemma_count_concat(outer, inner.drop_last());
        let a = element_count(outer);
        let c = element_count(inner.drop_last());
        let e = inner.last() as nat;
        assert(element_count(whole) == (a * c) * e);
        assert(element_count(inner) == c * e);
        assert((a * c) * e == a * (c * e)) by (nonlinear_arith);
    }
}

/// In the layout of a concatenated shape, the offset of a concatenated
/// position splits into the outer offset, scaled by the inner count, plus the
/// inner offset.
pub proof fn lemma_linear_index_concat(
    outer_position: Seq<usize>,
    inner_position: Seq<usize>,
    outer: Seq<usize>,
    inner: Seq<usize>,
)
    requires
        outer_position.len() == outer.len(),
        inner_position.len() == inner.len(),
    ensures
        linear_index(outer_position + inner_position, outer + inner) == linear_index(
            outer_position,
            outer,
        ) * element_count(inner) + linear_index(inner_position, inner),
    decreases inner.len(),
{
    let a = linear_index(outer_position, outer);
    if inner.len() == 0 {
        assert(outer + inner =~= outer);
        assert(outer_position + inner_position =~= outer_position);
        assert(element_count(inner) == 1);
        assert(linear_index(inner_position, inner) == 0);
        assert(a * 1 + 0 == a) by (nonlinear_arith);
    } else {
        let whole = outer + inner;
        let position = outer_position + inner_position;
        assert(whole.drop_last() =~= outer + inner.drop_last());
        assert(position.drop_last() =~= outer_position + inner_position.drop_last());
        assert(whole.last() == inner.last());
        assert(position.last() == inner_position.last());
        lemma_linear_index_concat(
            outer_position,
            inner_position.drop_last(),
            outer,
            inner.drop_last(),
        );
        let c = element_count(inner.drop_last());
        let b = linear_index(inner_position.drop_last(), inner.drop_last());
        let e = inner.last() as nat;
        let l = inner_position.last() as nat;
        assert(linear_index(position, whole) == (a * c + b) * e + l);
        assert(element_count(inner) == c * e);
        assert(linear_index(inner_position, inner) == b * e + l);
        assert((a * c + b) * e + l == a * (c * e) + (b * e + l)) by (nonlinear_arith);
    }
}

/// The element count of `shape`, or `None` when it exceeds what a `u128`
/// holds.
pub fn count_elements(shape: &[usize]) -> (count: Option<u128>)
    ensures
        element_count(shape@) <= u128::MAX ==> count == Some(element_count(shape@) as u128),
        element_count(shape@) > u128::MAX ==> count is None,
{
    let n = shape.len();
    let mut d: usize = 0;
    while d < n
        invariant
            n == shape@.len(),
            d <= n,
            forall|k: int| 0 <= k < d ==> shape@[k] != 0,
        decreases n - d,
    {
        if shape[d] == 0 {
            proof {
                lemma_count_zero(shape@);
            }
            return Some(0);
        }
        d = d + 1;
    }
    let mut count: u128 = 1;
    let mut d: usize = 0;
    while d < n
        invariant
            n == shape@.len(),
            d <= n,
            !has_zero(shape@),
            count == element_count(shape@.take(d as int)),
        decreases n - d,
    {
        let extent: u128 = shape[d] as u128;
        proof {
            let longer = shape@.take(d + 1);
            assert(longer.drop_last() =~= shape@.take(d as int));
            assert(longer.last() == shape@[d as int]);
            lemma_count_prefix(shape@, d + 1);
        }
        match count.checked_mul(extent) {
            Some(next) => {
                count = next;
            },
            None => {
                return None;
            },
        }
        d = d + 1;
    }
    proof {
        assert(shape@.take(n as int) =~= shape@);
    }
    Some(count)
}

/// Within bounds, the offset in a prefix of the dimensions never exceeds the
/// offset in all of them.
pub proof fn lemma_linear_index_prefix(position: Seq<usize>, shape: Seq<usize>, n: int)
    requires
        in_bounds(position, shape),
        0 <= n <= shape.len(),
    ensures
        linear_index(position.take(n), shape.take(n)) <= linear_index(position, shape),
    decreases shape.len() - n,
{
    if n == shape.len() {
        assert(position.take(n) =~= position);
        assert(shape.take(n) =~= shape);
    } else {
        lemma_linear_index_prefix(position, shape, n + 1);
        let p = position.take(n + 1);
        let s = shape.take(n + 1);
        assert(p.drop_last() =~= position.take(n));
        assert(s.drop_last() =~= shape.take(n));
        assert(s.last() == shape[n]);
        assert(position[n] < shape[n]);
        let inner = linear_index(position.take(n), shape.take(n));
        assert(inner <= inner * (shape[n] as nat)) by (nonlinear_arith)
            requires
                shape[n] >= 1,
        ;
    }
}

/// The row-major offset of `position` in an array of the given shape.
/// `None` when the position lies outside the shape, and when the offset
/// exceeds what a `u128` holds.
pub fn flat_index(position: &[usize], shape: &[usize]) -> (offset: Option<u128>)
    ensures
        in_bounds(position@, shape@) && linear_index(position@, shape@) <= u128::MAX ==> offset
            == Some(linear_index(position@, shape@) as u128),
        !in_bounds(position@, shape@) || linear_index(position@, shape@) > u128::MAX
            ==> offset is None,
{
    let n = shape.len();
    if position.len() != n {
        return None;
    }
    let mut d: usize = 0;
    while d < n
        invariant
            n == shape@.len(),
            n == position@.len(),
            d <= n,
            forall|k: int| 0 <= k < d ==> position@[k] < shape@[k],
        decreases n - d,
    {
        if position[d] >= shape[d] {
            return None;
        }
        d = d + 1;
    }
    let mut offset: u128 = 0;
    let mut d: usize = 0;
    while d < n
        invariant
            n == shape@.len(),
            d <= n,
            in_bounds(position@, shape@),
            offset == linear_index(position@.take(d as int), shape@.take(d as int)),
        decreases n - d,
    {
        proof {
            let p = position@.take(d + 1);
            let s = shape@.take(d + 1);
            assert(p.drop_last() =~= position@.take(d as int));
            assert(s.drop_last() =~= shape@.take(d as int));
            assert(linear_index(p, s) == offset * (shape@[d as int] as nat) + (
            position@[d as int] as nat));
            lemma_linear_index_prefix(position@, shape@, d + 1);
        }
        let scaled = match offset.checked_mul(shape[d] as u128) {
            Some(scaled) => scaled,
            None => {
                return None;
            },
        };
        offset = match scaled.checked_add(position[d] as u128) {
            Some(next) => next,
            None => {
                return None;
            },
        };
        d = d + 1;
    }
    proof {
        assert(position@.take(n as int) =~= position@);
        assert(shape@.take(n as int) =~= shape@);
    }
    Some(offset)
}

} // verus!
