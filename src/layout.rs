//! Alignment and size rules of the std430 and std140 buffer layouts.
use vstd::arithmetic::div_mod::{lemma_fundamental_div_mod, lemma_mod_multiples_basic};
use vstd::prelude::*;

verus! {

/// One of the two packing conventions for shader buffers.
#[derive(Clone, Copy, Debug, PartialEq, Eq, Structural)]
pub enum Convention {
    Std430,
    Std140,
}

/// Alignment and size, in bytes, of a value laid out under a convention.
#[derive(Clone, Copy, Debug, PartialEq, Eq, Structural)]
pub struct Layout {
    pub alignment: usize,
    pub size: usize,
}

/// `n` is a power of two.
pub open spec fn is_pow2(n: nat) -> bool
    decreases n,
{
    if n <= 1 {
        n == 1
    } else {
        n % 2 == 0 && is_pow2(n / 2)
    }
}

impl Layout {
    /// A layout is well formed when its alignment is a power of two.
    pub open spec fn wf(self) -> bool {
        is_pow2(self.alignment as nat)
    }
}

/// Bytes of padding that bring `offset` up to the next multiple of `alignment`.
pub open spec fn pad_to(offset: nat, alignment: nat) -> nat {
    ((alignment - offset % alignment) % (alignment as int)) as nat
}

/// The first multiple of `alignment` at or after `offset`.
pub open spec fn align_up(offset: nat, alignment: nat) -> nat {
    offset + pad_to(offset, alignment)
}

/// Where the cursor stands after placing `layouts` one after another from
/// `start`, each at its own alignment.
pub open spec fn placed_end(start: nat, layouts: Seq<Layout>) -> nat
    decreases layouts.len(),
{
    if layouts.len() == 0 {
        start
    } else {
        let before = placed_end(start, layouts.drop_last());
        align_up(before, layouts.last().alignment as nat) + layouts.last().size as nat
    }
}

/// Largest alignment among `layouts` (1 when there are none).
pub open spec fn max_alignment(layouts: Seq<Layout>) -> nat
    decreases layouts.len(),
{
    if layouts.len() == 0 {
        1
    } else {
        let rest = max_alignment(layouts.drop_last());
        let a = layouts.last().alignment as nat;
        if a > rest {
            a
        } else {
            rest
        }
    }
}

/// Layout of a 32-bit scalar (integer, float bits or boolean).
pub open spec fn scalar_spec() -> Layout {
    Layout { alignment: 4, size: 4 }
}

/// Layout of a vector of `n` 32-bit components, if `n` is a supported arity.
pub open spec fn vector_spec(n: nat, conv: Convention) -> Option<Layout> {
    if n == 2 {
        Some(Layout { alignment: 8, size: 8 })
    } else if n == 3 {
        Some(Layout { alignment: 16, size: if conv == Convention::Std140 { 16 } else { 12 } })
    } else if n == 4 {
        Some(Layout { alignment: 16, size: 16 })
    } else {
        None
    }
}

/// Alignment of an array of `elem`: std140 raises it to at least 16.
pub open spec fn array_alignment(elem: Layout, conv: Convention) -> nat {
    if conv == Convention::Std140 && elem.alignment < 16 {
        16
    } else {
        elem.alignment as nat
    }
}

/// Distance between consecutive elements of an array of `elem`.
pub open spec fn array_stride(elem: Layout, conv: Convention) -> nat {
    align_up(elem.size as nat, array_alignment(elem, conv))
}

/// Layout of an array of `count` elements, or `None` if its size does not
/// fit in `usize`.
pub open spec fn array_spec(elem: Layout, count: nat, conv: Convention) -> Option<Layout> {
    let stride = array_stride(elem, conv);
    if stride <= usize::MAX && stride * count <= usize::MAX {
        Some(Layout {
            alignment: array_alignment(elem, conv) as usize,
            size: (stride * count) as usize,
        })
    } else {
        None
    }
}

/// Layout of a matrix of `columns` column vectors of `rows` components each.
pub open spec fn matrix_spec(columns: nat, rows: nat, conv: Convention) -> Option<Layout> {
    if 2 <= columns <= 4 && 2 <= rows <= 4 {
        array_spec(vector_spec(rows, conv).unwrap(), columns, conv)
    } else {
        None
    }
}

/// Layout of a structure with the given fields, or `None` if it has no
/// field or its size does not fit in `usize`.
pub open spec fn structure_spec(fields: Seq<Layout>) -> Option<Layout> {
    let alignment = max_alignment(fields);
    let size = align_up(placed_end(0, fields), alignment);
    if fields.len() > 0 && size <= usize::MAX {
        Some(Layout { alignment: alignment as usize, size: size as usize })
    } else {
        None
    }
}

/// Offset of field `i` inside a structure with the given fields.
pub open spec fn field_offset(fields: Seq<Layout>, i: int) -> nat {
    align_up(placed_end(0, fields.take(i)), fields[i].alignment as nat)
}

/// Padding is less than the alignment, lands on a multiple of it, and is
/// zero when the offset is already aligned.
pub proof fn lemma_pad_to(offset: nat, alignment: nat)
    requires
        alignment > 0,
    ensures
        pad_to(offset, alignment) < alignment,
        (align_up(offset, alignment) as int) % (alignment as int) == 0,
        (offset as int) % (alignment as int) == 0 ==> pad_to(offset, alignment) == 0,
{
    let a = alignment as int;
    let o = offset as int;
    let r = o % a;
    let q = o / a;
    assert(o == q * a + r && 0 <= r < a) by (nonlinear_arith)
        requires
            a > 0,
            r == o % a,
            q == o / a,
    ;
    if r == 0 {
        assert((a - r) % a == 0) by (nonlinear_arith)
            requires
                a > 0,
                r == 0,
        ;
    } else {
        assert((a - r) % a == a - r) by (nonlinear_arith)
            requires
                0 < r < a,
        ;
        assert((q * a + r + (a - r)) % a == 0) by (nonlinear_arith)
            requires
                a > 0,
        ;
    }
}

/// A power of two that is at most 16 divides 16.
pub proof fn lemma_small_pow2_divides_16(a: nat)
    requires
        is_pow2(a),
        a <= 16,
    ensures
        16int % (a as int) == 0,
{
    reveal_with_fuel(is_pow2, 6);
    if a % 2 == 1 {
        assert(a == 1);
    } else if (a / 2) % 2 == 1 {
        assert(a / 2 == 1);
    } else if (a / 4) % 2 == 1 {
        assert(a / 4 == 1);
    } else if (a / 8) % 2 == 1 {
        assert(a / 8 == 1);
    } else {
        assert(a / 16 == 1);
    }
    assert(a == 1 || a == 2 || a == 4 || a == 8 || a == 16);
}

/// `placed_end` never goes back, and never passes the end of the whole
/// sequence on a prefix of it.
pub proof fn lemma_placed_end_monotone(start: nat, layouts: Seq<Layout>, k: int)
    requires
        0 <= k <= layouts.len(),
        forall|i: int| 0 <= i < layouts.len() ==> #[trigger] layouts[i].alignment > 0,
    ensures
        start <= placed_end(start, layouts.take(k)) <= placed_end(start, layouts),
    decreases layouts.len(),
{
    if layouts.len() > 0 {
        let rest = layouts.drop_last();
        lemma_pad_to(placed_end(start, rest), layouts.last().alignment as nat);
        if k == layouts.len() {
            assert(layouts.take(k) =~= layouts);
            lemma_placed_end_monotone(start, rest, rest.len() as int);
            assert(rest.take(rest.len() as int) =~= rest);
        } else {
            lemma_placed_end_monotone(start, rest, k);
            assert(rest.take(k) =~= layouts.take(k));
        }
    } else {
        assert(layouts.take(k) =~= layouts);
    }
}

/// The largest alignment of well-formed layouts is a power of two, bounds
/// each of them, and is one of them.
pub proof fn lemma_max_alignment(layouts: Seq<Layout>)
    requires
        forall|i: int| 0 <= i < layouts.len() ==> #[trigger] layouts[i].wf(),
    ensures
        is_pow2(max_alignment(layouts)),
        forall|i: int| 0 <= i < layouts.len() ==> #[trigger] layouts[i].alignment <= max_alignment(layouts),
        layouts.len() > 0 ==> exists|i: int| 0 <= i < layouts.len() && #[trigger] layouts[i].alignment == max_alignment(layouts),
    decreases layouts.len(),
{
    reveal_with_fuel(is_pow2, 2);
    if layouts.len() > 0 {
        let rest = layouts.drop_last();
        assert forall|i: int| 0 <= i < rest.len() implies #[trigger] rest[i].wf() by {
            assert(rest[i] == layouts[i]);
        }
        lemma_max_alignment(rest);
        assert forall|i: int| 0 <= i < layouts.len() implies #[trigger] layouts[i].alignment <= max_alignment(layouts) by {
            if i < rest.len() {
                assert(rest[i] == layouts[i]);
            }
        }
        let last = layouts.len() - 1;
        assert(layouts[last] == layouts.last());
        assert(layouts[last].wf());
        if layouts.last().alignment as nat <= max_alignment(rest) && rest.len() > 0 {
            let j = choose|j: int| 0 <= j < rest.len() && #[trigger] rest[j].alignment == max_alignment(rest);
            assert(rest[j] == layouts[j]);
            assert(layouts[j].alignment == max_alignment(layouts));
        } else {
            assert(layouts.last().alignment as nat >= 1);
            assert(layouts[last].alignment == max_alignment(layouts));
        }
    }
}


/// Smallest number of bytes that moves `offset` to a multiple of `alignment`.
pub fn padding_needed(offset: usize, alignment: usize) -> (r: usize)
    requires
        alignment > 0,
    ensures
        r == pad_to(offset as nat, alignment as nat),
        r < alignment,
        (offset as int + r) % (alignment as int) == 0,
        offset % alignment == 0 ==> r == 0,
{
    proof {
        lemma_pad_to(offset as nat, alignment as nat);
    }
    (alignment - offset % alignment) % alignment
}

/// `align_up`, or `None` when the result does not fit in `usize`.
fn checked_align_up(offset: usize, alignment: usize) -> (r: Option<usize>)
    requires
        alignment > 0,
    ensures
        r matches Some(v) ==> v == align_up(offset as nat, alignment as nat),
        r is None <==> align_up(offset as nat, alignment as nat) > usize::MAX,
{
    let pad = padding_needed(offset, alignment);
    offset.checked_add(pad)
}

impl Layout {
    /// Layout of a 32-bit scalar: an integer, the bits of a float, or a
    /// boolean held in 32 bits.
    pub fn scalar() -> (r: Layout)
        ensures
            r == scalar_spec(),
            r.wf(),
    {
        proof {
            reveal_with_fuel(is_pow2, 3);
        }
        Layout { alignment: 4, size: 4 }
    }

    /// Layout of a vector of `components` 32-bit lanes; only 2, 3 and 4
    /// lanes are supported.
    pub fn vector(components: usize, conv: Convention) -> (r: Option<Layout>)
        ensures
            r == vector_spec(components as nat, conv),
            r matches Some(l) ==> l.wf(),
    {
        proof {
            reveal_with_fuel(is_pow2, 5);
        }
        if components == 2 {
            Some(Layout { alignment: 8, size: 8 })
        } else if components == 3 {
            let size: usize = match conv {
                Convention::Std140 => 16,
                Convention::Std430 => 12,
            };
            Some(Layout { alignment: 16, size })
        } else if components == 4 {
            Some(Layout { alignment: 16, size: 16 })
        } else {
            None
        }
    }

    /// Layout of an array of `count` elements laid out as `elem`.
    ///
    /// The stride is the element's size rounded up to the array's alignment,
    /// which std140 raises to at least 16. `None` when the size overflows.
    pub fn array(elem: Layout, count: usize, conv: Convention) -> (r: Option<Layout>)
        requires
            elem.wf(),
        ensures
            r == array_spec(elem, count as nat, conv),
            r matches Some(l) ==> l.wf(),
    {
        proof {
            reveal_with_fuel(is_pow2, 5);
        }
        let alignment: usize = match conv {
            Convention::Std140 => if elem.alignment < 16 {
                16
            } else {
                elem.alignment
            },
            Convention::Std430 => elem.alignment,
        };
        match checked_align_up(elem.size, alignment) {
            Some(stride) => match stride.checked_mul(count) {
                Some(size) => Some(Layout { alignment, size }),
                None => None,
            },
            None => None,
        }
    }

    /// Layout of a matrix held as `columns` column vectors of `rows` lanes;
    /// both counts must be 2, 3 or 4.
    pub fn matrix(columns: usize, rows: usize, conv: Convention) -> (r: Option<Layout>)
        ensures
            r == matrix_spec(columns as nat, rows as nat, conv),
            r matches Some(l) ==> l.wf(),
            2 <= columns <= 4 && 2 <= rows <= 4 <==> r is Some,
    {
        if 2 <= columns && columns <= 4 && 2 <= rows && rows <= 4 {
            let column = Layout::vector(rows, conv).unwrap();
            let r = Layout::array(column, columns, conv);
            assert(r is Some) by {
                let stride = array_stride(column, conv);
                lemma_pad_to(column.size as nat, array_alignment(column, conv));
                assert(stride <= 32);
                assert(stride * columns <= 128) by (nonlinear_arith)
                    requires
                        stride <= 32,
                        columns <= 4,
                ;
            }
            r
        } else {
            None
        }
    }

    /// Layout of a structure whose fields, in order, have the given layouts.
    ///
    /// Each field starts at its own alignment after the previous one; the
    /// structure aligns to its largest field alignment and its size is
    /// rounded up to that. `None` when there is no field or the size
    /// overflows.
    pub fn structure(fields: &[Layout]) -> (r: Option<Layout>)
        requires
            forall|i: int| 0 <= i < fields@.len() ==> #[trigger] fields@[i].wf(),
        ensures
            r == structure_spec(fields@),
            r matches Some(l) ==> l.wf(),
    {
        let n = fields.len();
        let mut end: usize = 0;
        let mut alignment: usize = 1;
        let mut i: usize = 0;
        proof {
            lemma_max_alignment(fields@);
            assert(fields@.take(0) =~= Seq::<Layout>::empty());
        }
        while i < n
            invariant
                0 <= i <= n,
                n == fields@.len(),
                forall|k: int| 0 <= k < fields@.len() ==> #[trigger] fields@[k].wf(),
                end == placed_end(0, fields@.take(i as int)),
                alignment == max_alignment(fields@.take(i as int)),
            decreases n - i,
        {
            let f = fields[i];
            proof {
                assert(fields@[i as int].wf());
                let next = fields@.take(i + 1);
                assert(next.drop_last() =~= fields@.take(i as int));
                assert(next.last() == f);
                assert forall|k: int| 0 <= k < fields@.len() implies #[trigger] fields@[k].alignment
                    > 0 by {
                    assert(fields@[k].wf());
                }
                lemma_placed_end_monotone(0, fields@, i + 1);
                lemma_pad_to(placed_end(0, fields@), max_alignment(fields@));
            }
            let start = match checked_align_up(end, f.alignment) {
                Some(v) => v,
                None => {
                    return None;
                },
            };
            end = match start.checked_add(f.size) {
                Some(v) => v,
                None => {
                    return None;
                },
            };
            if f.alignment > alignment {
                alignment = f.alignment;
            }
            i = i + 1;
        }
        proof {
            assert(fields@.take(n as int) =~= fields@);
            lemma_max_alignment(fields@);
        }
        if n == 0 {
            return None;
        }
        match checked_align_up(end, alignment) {
            Some(size) => Some(Layout { alignment, size }),
            None => None,
        }
    }
}


/// Stride rounding for arrays, under both conventions: the stride covers the
/// element and is a multiple of the element's alignment, and the array's size
/// is a multiple of the array's alignment, so the array can itself be repeated
/// or nested. Matrices, being arrays of columns, inherit this.
pub proof fn lemma_array_rounding(elem: Layout, count: nat, conv: Convention)
    requires
        elem.wf(),
    ensures
        array_stride(elem, conv) >= elem.size,
        (array_stride(elem, conv) as int) % (elem.alignment as int) == 0,
        array_spec(elem, count, conv) matches Some(l) ==> l.wf() && (l.size as int) % (
        l.alignment as int) == 0,
{
    reveal_with_fuel(is_pow2, 5);
    let a = array_alignment(elem, conv) as int;
    let e = elem.alignment as int;
    let stride = array_stride(elem, conv) as int;
    lemma_pad_to(elem.size as nat, a as nat);
    if a != e {
        lemma_small_pow2_divides_16(elem.alignment as nat);
    }
    assert(a % e == 0);
    let q1 = stride / a;
    let q2 = a / e;
    lemma_fundamental_div_mod(stride, a);
    lemma_fundamental_div_mod(a, e);
    assert(stride == (q1 * q2) * e) by (nonlinear_arith)
        requires
            stride == a * q1,
            a == e * q2,
    ;
    lemma_mod_multiples_basic(q1 * q2, e);
    assert(stride * count == (q1 * count) * a) by (nonlinear_arith)
        requires
            stride == a * q1,
    ;
    lemma_mod_multiples_basic(q1 * count, a);
}

/// Matrices keep the stride-rounding invariant: size is a multiple of
/// alignment under both conventions.
pub proof fn lemma_matrix_rounding(columns: nat, rows: nat, conv: Convention)
    ensures
        matrix_spec(columns, rows, conv) matches Some(l) ==> l.wf() && (l.size as int) % (
        l.alignment as int) == 0,
{
    if 2 <= columns <= 4 && 2 <= rows <= 4 {
        reveal_with_fuel(is_pow2, 5);
        lemma_array_rounding(vector_spec(rows, conv).unwrap(), columns, conv);
    }
}

/// Stride rounding for structures: every field starts at a multiple of its
/// own alignment and ends within the structure, and the structure's size is
/// a multiple of its alignment, so it can be repeated in an array or nested
/// in another structure.
pub proof fn lemma_structure_rounding(fields: Seq<Layout>)
    requires
        forall|i: int| 0 <= i < fields.len() ==> #[trigger] fields[i].wf(),
    ensures
        forall|i: int|
            0 <= i < fields.len() ==> (#[trigger] field_offset(fields, i) as int) % (
            fields[i].alignment as int) == 0 && field_offset(fields, i) + fields[i].size
                <= placed_end(0, fields),
        structure_spec(fields) matches Some(l) ==> l.wf() && (l.size as int) % (
        l.alignment as int) == 0 && l.size >= placed_end(0, fields),
{
    assert forall|k: int| 0 <= k < fields.len() implies #[trigger] fields[k].alignment > 0 by {
        assert(fields[k].wf());
    }
    assert forall|i: int| 0 <= i < fields.len() implies (#[trigger] field_offset(fields, i) as int)
        % (fields[i].alignment as int) == 0 && field_offset(fields, i) + fields[i].size
        <= placed_end(0, fields) by {
        lemma_pad_to(placed_end(0, fields.take(i)), fields[i].alignment as nat);
        let next = fields.take(i + 1);
        assert(next.drop_last() =~= fields.take(i));
        assert(next.last() == fields[i]);
        lemma_placed_end_monotone(0, fields, i + 1);
    }
    lemma_max_alignment(fields);
    lemma_pad_to(placed_end(0, fields), max_alignment(fields));
}

} // verus!
