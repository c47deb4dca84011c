//! Shapes, element types and bit operations of the MLX backend.

use crate::dtype::DType;
use vstd::arithmetic::div_mod::*;
use vstd::prelude::*;

verus! {

/// Element types of MLX arrays.
#[derive(Clone, Copy, Debug, PartialEq, Eq, Structural)]
pub enum MlxDtype {
    Bool,
    Uint8,
    Uint16,
    Uint32,
    Uint64,
    Int8,
    Int16,
    Int32,
    Int64,
    Float16,
    Float32,
    Float64,
    Bfloat16,
}

/// The array type of an element type.
pub open spec fn array_type(dtype: DType) -> Option<MlxDtype> {
    match dtype {
        DType::F32 => Some(MlxDtype::Float32),
        DType::F64 => Some(MlxDtype::Float64),
        DType::F16 => Some(MlxDtype::Float16),
        DType::BF16 => Some(MlxDtype::Bfloat16),
        DType::I32 => Some(MlxDtype::Int32),
        DType::I64 => Some(MlxDtype::Int64),
        DType::I16 => Some(MlxDtype::Int16),
        DType::I8 => Some(MlxDtype::Int8),
        DType::U8 => Some(MlxDtype::Uint8),
        DType::U16 => Some(MlxDtype::Uint16),
        DType::U32 => Some(MlxDtype::Uint32),
        DType::U64 => Some(MlxDtype::Uint64),
        DType::Bool => Some(MlxDtype::Bool),
        _ => None,
    }
}

pub fn mlx_dtype(dtype: DType) -> (array: Option<MlxDtype>)
    ensures
        array == array_type(dtype),
{
    match dtype {
        DType::F32 => Some(MlxDtype::Float32),
        DType::F64 => Some(MlxDtype::Float64),
        DType::F16 => Some(MlxDtype::Float16),
        DType::BF16 => Some(MlxDtype::Bfloat16),
        DType::I32 => Some(MlxDtype::Int32),
        DType::I64 => Some(MlxDtype::Int64),
        DType::I16 => Some(MlxDtype::Int16),
        DType::I8 => Some(MlxDtype::Int8),
        DType::U8 => Some(MlxDtype::Uint8),
        DType::U16 => Some(MlxDtype::Uint16),
        DType::U32 => Some(MlxDtype::Uint32),
        DType::U64 => Some(MlxDtype::Uint64),
        DType::Bool => Some(MlxDtype::Bool),
        _ => None,
    }
}

/// The element type of tensors over an array, where there is one.
pub open spec fn tensor_type(array: MlxDtype) -> Option<DType> {
    match array {
        MlxDtype::Float32 => Some(DType::F32),
        MlxDtype::Float16 => Some(DType::F16),
        MlxDtype::Bfloat16 => Some(DType::BF16),
        MlxDtype::Float64 => Some(DType::F64),
        MlxDtype::Int32 => Some(DType::I32),
        MlxDtype::Int64 => Some(DType::I64),
        MlxDtype::Bool => Some(DType::Bool),
        _ => None,
    }
}

pub fn tensor_dtype(array: MlxDtype) -> (dtype: Option<DType>)
    ensures
        dtype == tensor_type(array),
{
    match array {
        MlxDtype::Float32 => Some(DType::F32),
        MlxDtype::Float16 => Some(DType::F16),
        MlxDtype::Bfloat16 => Some(DType::BF16),
        MlxDtype::Float64 => Some(DType::F64),
        MlxDtype::Int32 => Some(DType::I32),
        MlxDtype::Int64 => Some(DType::I64),
        MlxDtype::Bool => Some(DType::Bool),
        _ => None,
    }
}

/// Whether the backend computes with an element type.
pub open spec fn is_supported(dtype: DType) -> bool {
    match dtype {
        DType::F32 | DType::F64 | DType::F16 | DType::BF16 | DType::I32 | DType::I64
        | DType::Bool => true,
        _ => false,
    }
}

pub fn supports_dtype(dtype: DType) -> (supported: bool)
    ensures
        supported == is_supported(dtype),
{
    match dtype {
        DType::F32 | DType::F64 | DType::F16 | DType::BF16 | DType::I32 | DType::I64
        | DType::Bool => true,
        _ => false,
    }
}

/// The backend computes exactly with the element types that come back from arrays.
pub proof fn law_supported_types_come_back(dtype: DType)
    ensures
        is_supported(dtype) <==> array_type(dtype) is Some && tensor_type(array_type(dtype)->0)
            == Some(dtype),
{
}

/// Windows of a side: their number, the index of every sample of every window, and
/// the shape with the windows in place of the side and their samples behind it.
#[derive(Debug)]
pub struct UnfoldPlan {
    pub windows: usize,
    pub indices: Vec<i32>,
    pub shape: Vec<i32>,
}

/// Number of windows of `size` samples, `step` apart, on a side of `extent` samples.
pub open spec fn window_count(extent: int, size: int, step: int) -> int {
    (extent - size) / step + 1
}

pub open spec fn as_i32(shape: Seq<usize>) -> Seq<i32> {
    shape.map_values(|side: usize| side as i32)
}

/// Cuts a side of a tensor into windows.
pub fn unfold_plan(shape: &Vec<usize>, dim: usize, size: usize, step: usize) -> (plan: UnfoldPlan)
    requires
        dim < shape@.len(),
        size <= shape@[dim as int],
        step > 0,
        window_count(shape@[dim as int] as int, size as int, step as int) <= i32::MAX,
        window_count(shape@[dim as int] as int, size as int, step as int) * size <= i32::MAX,
        forall|i: int| 0 <= i < shape@.len() ==> #[trigger] shape@[i] <= i32::MAX,
    ensures
        plan.windows == window_count(shape@[dim as int] as int, size as int, step as int),
        plan.indices@.len() == plan.windows * size,
        forall|i: int|
            0 <= i < plan.indices@.len() ==> #[trigger] plan.indices@[i] == i / (size as int) * step
                + i % (size as int),
        forall|i: int|
            0 <= i < plan.indices@.len() ==> 0 <= #[trigger] plan.indices@[i] < shape@[dim as int],
        plan.shape@ == as_i32(shape@).update(dim as int, plan.windows as i32).push(size as i32),
{
    let extent: usize = shape[dim];
    let ghost s = size as int;
    let ghost t = step as int;
    let ghost n = window_count(extent as int, s, t);
    proof {
        lemma_div_pos_is_pos(extent - size, t);
        lemma_div_is_ordered_by_denominator(extent - size, 1, t);
    }
    let windows: usize = (extent - size) / step + 1;
    let mut indices: Vec<i32> = Vec::new();
    let mut w: usize = 0;
    while w < windows
        invariant
            step > 0,
            s == size,
            t == step,
            windows == n == window_count(extent as int, s, t),
            size <= extent <= i32::MAX,
            w <= windows,
            indices@.len() == w * s,
            forall|i: int|
                0 <= i < indices@.len() ==> #[trigger] indices@[i] == i / s * t + i % s && 0
                    <= indices@[i] < extent,
        decreases windows - w,
    {
        proof {
            lemma_fundamental_div_mod(extent - size, t);
            lemma_mod_bound(extent - size, t);
            assert(w * t <= (extent - size) / t * t) by (nonlinear_arith)
                requires
                    w <= (extent - size) / t,
                    t > 0,
            ;
            assert((extent - size) / t * t == t * ((extent - size) / t)) by (nonlinear_arith);
        }
        let base: usize = w * step;
        let mut k: usize = 0;
        while k < size
            invariant
                s == size,
                t == step,
                size <= extent <= i32::MAX,
                k <= size,
                base == w * t,
                base + size <= extent,
                indices@.len() == w * s + k,
                forall|i: int|
                    0 <= i < indices@.len() ==> #[trigger] indices@[i] == i / s * t + i % s && 0
                        <= indices@[i] < extent,
            decreases size - k,
        {
            proof {
                lemma_fundamental_div_mod_converse(w * s + k, s, w as int, k as int);
            }
            indices.push((base + k) as i32);
            k = k + 1;
        }
        w = w + 1;
        assert((w - 1) * s + s == w * s) by (nonlinear_arith);
    }
    let mut new_shape: Vec<i32> = Vec::new();
    let mut i: usize = 0;
    while i < shape.len()
        invariant
            i <= shape@.len(),
            dim < shape@.len(),
            windows <= i32::MAX,
            forall|j: int| 0 <= j < shape@.len() ==> #[trigger] shape@[j] <= i32::MAX,
            new_shape@ == as_i32(shape@).update(dim as int, windows as i32).take(i as int),
        decreases shape.len() - i,
    {
        if i == dim {
            new_shape.push(windows as i32);
        } else {
            new_shape.push(shape[i] as i32);
        }
        i = i + 1;
        assert(new_shape@ == as_i32(shape@).update(dim as int, windows as i32).take(i as int));
    }
    new_shape.push(size as i32);
    assert(new_shape@ == as_i32(shape@).update(dim as int, windows as i32).push(size as i32));
    UnfoldPlan { windows, indices, shape: new_shape }
}

/// How often a tensor is laid out along every side when one side is repeated.
pub open spec fn tiled(ndim: nat, dim: int, times: usize) -> Seq<i32> {
    Seq::new(ndim, |i: int| 1i32).update(dim, times as i32)
}

pub fn tile_counts(ndim: usize, dim: usize, times: usize) -> (counts: Vec<i32>)
    requires
        dim < ndim,
        times <= i32::MAX,
    ensures
        counts@ == tiled(ndim as nat, dim as int, times),
{
    let mut counts: Vec<i32> = Vec::new();
    let mut i: usize = 0;
    while i < ndim
        invariant
            i <= ndim,
            dim < ndim,
            times <= i32::MAX,
            counts@ == tiled(ndim as nat, dim as int, times).take(i as int),
        decreases ndim - i,
    {
        if i == dim {
            counts.push(times as i32);
        } else {
            counts.push(1);
        }
        i = i + 1;
        assert(counts@ == tiled(ndim as nat, dim as int, times).take(i as int));
    }
    assert(tiled(ndim as nat, dim as int, times).take(ndim as int) == tiled(
        ndim as nat,
        dim as int,
        times,
    ));
    counts
}

/// How a side of a tensor of floats is repeated.
#[derive(Debug)]
pub enum RepeatPlan {
    /// A side of one sample is stretched to the shape.
    Broadcast(Vec<i32>),
    /// The tensor is tiled as often along every side.
    Tile(Vec<i32>),
}

/// Repeats a side of a tensor of floats.
pub fn repeat_plan(shape: &Vec<usize>, dim: usize, times: usize) -> (plan: RepeatPlan)
    requires
        dim < shape@.len(),
        times <= i32::MAX,
        forall|i: int| 0 <= i < shape@.len() ==> #[trigger] shape@[i] <= i32::MAX,
    ensures
        shape@[dim as int] == 1 ==> plan is Broadcast && plan->Broadcast_0@ == as_i32(
            shape@,
        ).update(dim as int, times as i32),
        shape@[dim as int] != 1 ==> plan is Tile && plan->Tile_0@ == tiled(
            shape@.len(),
            dim as int,
            times,
        ),
{
    if shape[dim] != 1 {
        return RepeatPlan::Tile(tile_counts(shape.len(), dim, times));
    }
    let ghost expected = as_i32(shape@).update(dim as int, times as i32);
    let mut sides: Vec<i32> = Vec::new();
    let mut i: usize = 0;
    while i < shape.len()
        invariant
            i <= shape@.len(),
            dim < shape@.len(),
            times <= i32::MAX,
            forall|j: int| 0 <= j < shape@.len() ==> #[trigger] shape@[j] <= i32::MAX,
            expected == as_i32(shape@).update(dim as int, times as i32),
            sides@ == expected.take(i as int),
        decreases shape.len() - i,
    {
        if i == dim {
            sides.push(times as i32);
        } else {
            sides.push(shape[i] as i32);
        }
        i = i + 1;
        assert(sides@ == expected.take(i as int));
    }
    assert(expected.take(i as int) == expected);
    RepeatPlan::Broadcast(sides)
}

/// A part of a side, where negative places count from its end.
#[derive(Clone, Copy, Debug, PartialEq, Eq, Structural)]
pub struct Slice {
    pub start: isize,
    pub end: Option<isize>,
    pub step: isize,
}

/// The place on a side of `size` samples that a number stands for.
pub open spec fn place(index: int, size: int) -> int {
    if index < 0 {
        if size + index < 0 {
            0
        } else {
            size + index
        }
    } else if index <= size {
        index
    } else {
        size
    }
}

impl Slice {
    pub open spec fn first(self, size: int) -> int {
        place(self.start as int, size)
    }

    pub open spec fn stop(self, size: int) -> int {
        match self.end {
            Some(end) => place(end as int, size),
            None => size,
        }
    }
}

/// `burn_core::tensor::Slice::to_range`: where a slice starts and stops on a side of `size`
/// samples. Negative places count from the end, and places beyond the side are moved to it.
#[verifier::external_body]
fn slice_range(slice: Slice, size: usize) -> (range: (usize, usize))
    requires
        size <= isize::MAX,
    ensures
        range.0 == slice.first(size as int),
        range.1 == slice.stop(size as int),
{
    let Slice { start, end, step } = slice;
    let range = burn_core::tensor::Slice { start, end, step }.to_range(size);
    (range.start, range.end)
}

/// The bounds of slices, side by side.
#[derive(Debug)]
pub struct SliceBounds {
    pub starts: Vec<i32>,
    pub stops: Vec<i32>,
}

/// Samples on a side; there are none on a side that the shape lacks.
pub open spec fn side(shape: Seq<usize>, i: int) -> int {
    if 0 <= i < shape.len() {
        shape[i] as int
    } else {
        0
    }
}

/// Where the slices of a tensor start and stop.
pub fn slice_bounds(shape: &Vec<usize>, slices: &Vec<Slice>) -> (bounds: SliceBounds)
    requires
        forall|i: int| 0 <= i < shape@.len() ==> #[trigger] shape@[i] <= i32::MAX,
    ensures
        bounds.starts@.len() == slices@.len(),
        bounds.stops@.len() == slices@.len(),
        forall|i: int|
            0 <= i < slices@.len() ==> #[trigger] bounds.starts@[i] == slices@[i].first(
                side(shape@, i),
            ),
        forall|i: int|
            0 <= i < slices@.len() ==> #[trigger] bounds.stops@[i] == slices@[i].stop(
                side(shape@, i),
            ),
{
    let mut starts: Vec<i32> = Vec::new();
    let mut stops: Vec<i32> = Vec::new();
    let mut i: usize = 0;
    while i < slices.len()
        invariant
            i <= slices@.len(),
            forall|j: int| 0 <= j < shape@.len() ==> #[trigger] shape@[j] <= i32::MAX,
            starts@.len() == i,
            stops@.len() == i,
            forall|k: int|
                0 <= k < i ==> #[trigger] starts@[k] == slices@[k].first(side(shape@, k)),
            forall|k: int| 0 <= k < i ==> #[trigger] stops@[k] == slices@[k].stop(side(shape@, k)),
        decreases slices.len() - i,
    {
        let size: usize = if i < shape.len() {
            shape[i]
        } else {
            0
        };
        let range = slice_range(slices[i], size);
        starts.push(range.0 as i32);
        stops.push(range.1 as i32);
        i = i + 1;
    }
    SliceBounds { starts, stops }
}

/// Slices lie on their sides.
pub proof fn law_slices_stay_on_their_sides(slice: Slice, size: int)
    requires
        size >= 0,
    ensures
        0 <= slice.first(size) <= size,
        0 <= slice.stop(size) <= size,
{
}

/// The order of the sides of a tensor once two of them change places.
pub open spec fn swapped(ndim: nat, a: int, b: int) -> Seq<i32> {
    Seq::new(
        ndim,
        |i: int|
            if i == a {
                b as i32
            } else if i == b {
                a as i32
            } else {
                i as i32
            },
    )
}

pub fn swapped_axes(ndim: usize, a: usize, b: usize) -> (axes: Vec<i32>)
    requires
        a < ndim,
        b < ndim,
        ndim <= i32::MAX,
    ensures
        axes@ == swapped(ndim as nat, a as int, b as int),
{
    let mut axes: Vec<i32> = Vec::new();
    let mut i: usize = 0;
    while i < ndim
        invariant
            i <= ndim <= i32::MAX,
            a < ndim,
            b < ndim,
            axes@ == swapped(ndim as nat, a as int, b as int).take(i as int),
        decreases ndim - i,
    {
        if i == a {
            axes.push(b as i32);
        } else if i == b {
            axes.push(a as i32);
        } else {
            axes.push(i as i32);
        }
        i = i + 1;
        assert(axes@ == swapped(ndim as nat, a as int, b as int).take(i as int));
    }
    assert(swapped(ndim as nat, a as int, b as int).take(ndim as int) == swapped(
        ndim as nat,
        a as int,
        b as int,
    ));
    axes
}

/// Changing the places of two sides twice leaves all in place.
pub proof fn law_swapping_twice_restores(ndim: nat, a: int, b: int, i: int)
    requires
        0 <= a < ndim <= i32::MAX,
        0 <= b < ndim,
        0 <= i < ndim,
    ensures
        swapped(ndim, a, b)[swapped(ndim, a, b)[i] as int] == i,
{
}

/// An operation on the bits of two numbers.
#[derive(Clone, Copy, Debug, PartialEq, Eq, Structural)]
pub enum BitOp {
    And,
    Or,
    Xor,
    LeftShift,
    RightShift,
}

impl BitOp {
    pub open spec fn is_shift(self) -> bool {
        self == BitOp::LeftShift || self == BitOp::RightShift
    }

    /// Whether the operation is defined for a right-hand number.
    pub open spec fn takes(self, rhs: i32) -> bool {
        self.is_shift() ==> 0 <= rhs < 32
    }

    pub open spec fn of(self, lhs: i32, rhs: i32) -> i32 {
        match self {
            BitOp::And => lhs & rhs,
            BitOp::Or => lhs | rhs,
            BitOp::Xor => lhs ^ rhs,
            BitOp::LeftShift => lhs << rhs,
            BitOp::RightShift => lhs >> rhs,
        }
    }

    pub fn apply(self, lhs: i32, rhs: i32) -> (out: i32)
        requires
            self.takes(rhs),
        ensures
            out == self.of(lhs, rhs),
    {
        match self {
            BitOp::And => lhs & rhs,
            BitOp::Or => lhs | rhs,
            BitOp::Xor => lhs ^ rhs,
            BitOp::LeftShift => lhs << rhs,
            BitOp::RightShift => lhs >> rhs,
        }
    }
}

pub open spec fn least(a: nat, b: nat) -> nat {
    if a <= b {
        a
    } else {
        b
    }
}

/// An operation on numbers at the same places.
pub fn bitwise(op: BitOp, lhs: &Vec<i32>, rhs: &Vec<i32>) -> (out: Vec<i32>)
    requires
        forall|i: int|
            0 <= i < least(lhs@.len(), rhs@.len()) ==> op.takes(#[trigger] rhs@[i]),
    ensures
        out@.len() == least(lhs@.len(), rhs@.len()),
        forall|i: int| 0 <= i < out@.len() ==> #[trigger] out@[i] == op.of(lhs@[i], rhs@[i]),
{
    let mut out: Vec<i32> = Vec::new();
    let mut i: usize = 0;
    while i < lhs.len() && i < rhs.len()
        invariant
            i <= least(lhs@.len(), rhs@.len()),
            forall|k: int|
                0 <= k < least(lhs@.len(), rhs@.len()) ==> op.takes(#[trigger] rhs@[k]),
            out@.len() == i,
            forall|k: int| 0 <= k < i ==> #[trigger] out@[k] == op.of(lhs@[k], rhs@[k]),
        decreases lhs.len() - i,
    {
        out.push(op.apply(lhs[i], rhs[i]));
        i = i + 1;
    }
    out
}

/// An operation on numbers and one right-hand number.
pub fn bitwise_scalar(op: BitOp, lhs: &Vec<i32>, rhs: i32) -> (out: Vec<i32>)
    requires
        lhs@.len() > 0 ==> op.takes(rhs),
    ensures
        out@ == lhs@.map_values(|a: i32| op.of(a, rhs)),
{
    let mut out: Vec<i32> = Vec::new();
    let mut i: usize = 0;
    while i < lhs.len()
        invariant
            i <= lhs@.len(),
            lhs@.len() > 0 ==> op.takes(rhs),
            out@ == lhs@.map_values(|a: i32| op.of(a, rhs)).take(i as int),
        decreases lhs.len() - i,
    {
        out.push(op.apply(lhs[i], rhs));
        i = i + 1;
        assert(out@ == lhs@.map_values(|a: i32| op.of(a, rhs)).take(i as int));
    }
    assert(lhs@.map_values(|a: i32| op.of(a, rhs)).take(i as int) == lhs@.map_values(
        |a: i32| op.of(a, rhs),
    ));
    out
}

pub open spec fn flipped(value: i32) -> i32 {
    !value
}

fn flip(value: i32) -> (out: i32)
    ensures
        out == flipped(value),
{
    !value
}

/// Numbers with all bits turned over.
pub fn bitwise_not(data: &Vec<i32>) -> (out: Vec<i32>)
    ensures
        out@.len() == data@.len(),
        forall|i: int| 0 <= i < out@.len() ==> #[trigger] out@[i] == flipped(data@[i]),
{
    let mut out: Vec<i32> = Vec::new();
    let mut i: usize = 0;
    while i < data.len()
        invariant
            i <= data@.len(),
            out@.len() == i,
            forall|k: int| 0 <= k < i ==> #[trigger] out@[k] == flipped(data@[k]),
        decreases data.len() - i,
    {
        out.push(flip(data[i]));
        i = i + 1;
    }
    out
}

/// As many windows are cut as fit: the last one ends on the side, and the next one would
/// not.
pub proof fn law_windows_fill_the_side(extent: int, size: int, step: int)
    requires
        0 <= size <= extent,
        step > 0,
    ensures
        ({
            let n = window_count(extent, size, step);
            &&& n >= 1
            &&& (n - 1) * step + size <= extent
            &&& extent < n * step + size
        }),
{
    let q = (extent - size) / step;
    lemma_fundamental_div_mod(extent - size, step);
    lemma_div_pos_is_pos(extent - size, step);
    assert((q + 1) * step == step * q + step) by (nonlinear_arith);
    assert(q * step == step * q) by (nonlinear_arith);
}

/// Places count from the start, negative ones from the end, and those beyond an end of the
/// side are moved to it. A slice without an end goes to the end of the side.
pub proof fn law_negative_places_count_from_the_end(index: int, size: int, slice: Slice)
    requires
        size >= 0,
    ensures
        0 <= index <= size ==> place(index, size) == index,
        index > size ==> place(index, size) == size,
        -size <= index < 0 ==> place(index, size) == size + index,
        index < -size ==> place(index, size) == 0,
        slice.first(size) == place(slice.start as int, size),
        slice.end is None ==> slice.stop(size) == size,
        slice.end matches Some(end) ==> slice.stop(size) == place(end as int, size),
{
}

/// One side is repeated, and all others are laid out once.
pub proof fn law_one_side_is_repeated(ndim: nat, dim: int, times: usize, i: int)
    requires
        0 <= dim < ndim,
        0 <= i < ndim,
        times <= i32::MAX,
    ensures
        tiled(ndim, dim, times).len() == ndim,
        tiled(ndim, dim, times)[i] == if i == dim {
            times as int
        } else {
            1
        },
{
}

/// Two sides change places, and all others stay.
pub proof fn law_two_sides_change_places(ndim: nat, a: int, b: int, i: int)
    requires
        0 <= a < ndim <= i32::MAX,
        0 <= b < ndim,
        0 <= i < ndim,
    ensures
        swapped(ndim, a, b).len() == ndim,
        swapped(ndim, a, b)[a] == b,
        swapped(ndim, a, b)[b] == a,
        i != a && i != b ==> swapped(ndim, a, b)[i] == i,
{
}

/// Shapes keep their sides.
pub proof fn law_shapes_keep_their_sides(shape: Seq<usize>, i: int)
    requires
        0 <= i < shape.len(),
        shape[i] <= i32::MAX,
    ensures
        as_i32(shape).len() == shape.len(),
        as_i32(shape)[i] == shape[i],
        side(shape, i) == shape[i],
        side(shape, shape.len() as int) == 0,
{
}

/// Element types keep their kind and their width.
pub proof fn law_element_types_keep_their_width(dtype: DType)
    ensures
        dtype == DType::F16 <==> array_type(dtype) == Some(MlxDtype::Float16),
        dtype == DType::BF16 <==> array_type(dtype) == Some(MlxDtype::Bfloat16),
        dtype == DType::F32 <==> array_type(dtype) == Some(MlxDtype::Float32),
        dtype == DType::F64 <==> array_type(dtype) == Some(MlxDtype::Float64),
        dtype == DType::I8 <==> array_type(dtype) == Some(MlxDtype::Int8),
        dtype == DType::I16 <==> array_type(dtype) == Some(MlxDtype::Int16),
        dtype == DType::I32 <==> array_type(dtype) == Some(MlxDtype::Int32),
        dtype == DType::I64 <==> array_type(dtype) == Some(MlxDtype::Int64),
        dtype == DType::U8 <==> array_type(dtype) == Some(MlxDtype::Uint8),
        dtype == DType::U16 <==> array_type(dtype) == Some(MlxDtype::Uint16),
        dtype == DType::U32 <==> array_type(dtype) == Some(MlxDtype::Uint32),
        dtype == DType::U64 <==> array_type(dtype) == Some(MlxDtype::Uint64),
        dtype == DType::Bool <==> array_type(dtype) == Some(MlxDtype::Bool),
        dtype == DType::Flex32 || dtype == DType::QFloat <==> array_type(dtype) is None,
        is_supported(dtype) <==> dtype == DType::F16 || dtype == DType::BF16 || dtype
            == DType::F32 || dtype == DType::F64 || dtype == DType::I32 || dtype == DType::I64
            || dtype == DType::Bool,
{
}

/// What comes back from an array has the type that the array was made for.
pub proof fn law_arrays_come_back(array: MlxDtype)
    ensures
        tensor_type(array) matches Some(dtype) ==> array_type(dtype) == Some(array),
{
}

/// Bits are taken where both numbers have them, where either has, or where one alone has;
/// shifts move them by as many places.
pub proof fn law_operations_work_on_bits(lhs: i32, rhs: i32)
    ensures
        BitOp::And.of(lhs, rhs) == lhs & rhs,
        BitOp::Or.of(lhs, rhs) == lhs | rhs,
        BitOp::Xor.of(lhs, rhs) == lhs ^ rhs,
        BitOp::LeftShift.of(lhs, rhs) == lhs << rhs,
        BitOp::RightShift.of(lhs, rhs) == lhs >> rhs,
        BitOp::LeftShift.takes(rhs) <==> 0 <= rhs < 32,
        BitOp::RightShift.takes(rhs) <==> 0 <= rhs < 32,
        BitOp::And.takes(rhs) && BitOp::Or.takes(rhs) && BitOp::Xor.takes(rhs),
{
}

/// Turning all bits over negates a number and takes one off, and doing so twice gives the
/// number back.
pub proof fn law_turned_bits_come_back(value: i32)
    ensures
        flipped(value) == -value - 1,
        flipped(flipped(value)) == value,
{
    assert(!value == -value - 1) by (bit_vector);
    let other: i32 = !value;
    assert(!other == -other - 1) by (bit_vector);
}

} // verus!
