//! A cursor that writes values into a sink, inserting the zero padding that
//! each value's alignment calls for.
use crate::layout::{align_up, is_pow2, lemma_pad_to, padding_needed, pad_to, placed_end, Layout};
use crate::sink::{ByteSink, SinkError};
use crate::values::Std430;
use vstd::arithmetic::div_mod::lemma_add_mod_noop;
use vstd::prelude::*;

verus! {

/// Why a write did not complete.
#[derive(Clone, Copy, Debug, PartialEq, Eq, Structural)]
pub enum WriteError {
    /// The sink refused bytes; the writer must not be used further.
    Sink(SinkError),
    /// The offset would pass `usize::MAX`; nothing was written.
    OffsetOverflow,
}

/// `n` zero bytes.
pub open spec fn zeros(n: nat) -> Seq<u8> {
    Seq::new(n, |_i: int| 0u8)
}

/// The same layout `n` times.
pub open spec fn repeated(layout: Layout, n: nat) -> Seq<Layout> {
    Seq::new(n, |_i: int| layout)
}

/// The padding and size that each of `layouts` adds when placed in order
/// from `start`, summed.
pub open spec fn contributions(start: nat, layouts: Seq<Layout>) -> nat
    decreases layouts.len(),
{
    if layouts.len() == 0 {
        0
    } else {
        let rest = layouts.drop_last();
        contributions(start, rest) + pad_to(placed_end(start, rest), layouts.last().alignment as nat)
            + layouts.last().size as nat
    }
}

/// The bytes that writing `items` one after another from offset `start`
/// appends: before each item, the zeros that align it, then its bytes.
pub open spec fn run_bytes<T: Std430>(start: nat, items: Seq<T>) -> Seq<u8>
    decreases items.len(),
{
    if items.len() == 0 {
        Seq::empty()
    } else {
        let before = placed_end(start, repeated(T::layout_spec(), (items.len() - 1) as nat));
        run_bytes(start, items.drop_last()) + zeros(
            pad_to(before, T::layout_spec().alignment as nat),
        ) + items.last().spec_bytes()
    }
}

/// Writes values with correct std430 alignment into a sink that it owns.
pub struct Writer<S> {
    sink: S,
    offset: usize,
}

impl<S: ByteSink> Writer<S> {
    /// Bytes committed so far, padding included.
    pub closed spec fn spec_len(&self) -> nat {
        self.offset as nat
    }

    /// The sink being written to.
    pub closed spec fn spec_sink(&self) -> S {
        self.sink
    }

    /// A writer at offset 0 over `sink`.
    pub fn new(sink: S) -> (r: Self)
        ensures
            r.spec_len() == 0,
            r.spec_sink() == sink,
    {
        Writer { sink, offset: 0 }
    }

    /// Bytes committed so far, padding included.
    pub fn len(&self) -> (r: usize)
        ensures
            r == self.spec_len(),
    {
        self.offset
    }

    /// The sink being written to.
    pub fn sink(&self) -> (r: &S)
        ensures
            *r == self.spec_sink(),
    {
        &self.sink
    }

    /// Gives up the writer, returning its sink.
    pub fn into_inner(self) -> (r: S)
        ensures
            r == self.spec_sink(),
    {
        self.sink
    }

    /// Writes the GPU representation `bytes` of a value whose alignment is
    /// `alignment`: first the zero bytes that bring the offset to that
    /// alignment, then `bytes`. Returns the offset of the value's first byte.
    ///
    /// It succeeds whenever the offset does not overflow and the sink takes
    /// the padding and the bytes.
    pub fn write_std430(&mut self, alignment: usize, bytes: &[u8]) -> (r: Result<usize, WriteError>)
        requires
            alignment > 0,
        ensures
            final(self).spec_len() >= old(self).spec_len(),
            old(self).spec_sink().contents().is_prefix_of(final(self).spec_sink().contents()),
            (r == Err::<usize, WriteError>(WriteError::OffsetOverflow)) <==> align_up(
                old(self).spec_len(),
                alignment as nat,
            ) + bytes@.len() > usize::MAX,
            r == Err::<usize, WriteError>(WriteError::OffsetOverflow) ==> *final(self) == *old(
                self,
            ),
            align_up(old(self).spec_len(), alignment as nat) + bytes@.len() <= usize::MAX
                && old(self).spec_sink().accepts(
                pad_to(old(self).spec_len(), alignment as nat) + bytes@.len(),
            ) ==> r is Ok,
            r matches Err(WriteError::Sink(_)) ==> final(self).spec_len() <= align_up(
                old(self).spec_len(),
                alignment as nat,
            ),
            r matches Ok(at) ==> {
                &&& at == align_up(old(self).spec_len(), alignment as nat)
                &&& final(self).spec_len() == at + bytes@.len()
                &&& final(self).spec_sink().contents() == old(self).spec_sink().contents() + zeros(
                    pad_to(old(self).spec_len(), alignment as nat),
                ) + bytes@
                &&& forall|m: nat|
                    old(self).spec_sink().accepts(
                        pad_to(old(self).spec_len(), alignment as nat) + bytes@.len() + m,
                    ) ==> #[trigger] final(self).spec_sink().accepts(m)
            },
    {
        let pad = padding_needed(self.offset, alignment);
        if pad > usize::MAX - self.offset || bytes.len() > usize::MAX - self.offset - pad {
            return Err(WriteError::OffsetOverflow);
        }
        let ghost before = self.sink;
        let ghost len = bytes@.len();
        let ghost p: nat = pad as nat;
        if pad > 0 {
            let mut padding: Vec<u8> = Vec::new();
            let mut i: usize = 0;
            while i < pad
                invariant
                    0 <= i <= pad,
                    padding@ == zeros(i as nat),
                decreases pad - i,
            {
                padding.push(0u8);
                i = i + 1;
                assert(padding@ =~= zeros(i as nat));
            }
            proof {
                if before.accepts(p + len) {
                    before.lemma_accepts_fewer(p + len, p);
                }
            }
            match self.sink.write_all(padding.as_slice()) {
                Ok(()) => {},
                Err(e) => {
                    return Err(WriteError::Sink(e));
                },
            }
        } else {
            assert(before.contents() + zeros(0) =~= before.contents());
            assert(before.contents().subrange(0, before.contents().len() as int)
                =~= before.contents());
        }
        let ghost mid = self.sink;
        proof {
            assert forall|m: nat| before.accepts(p + m) implies #[trigger] mid.accepts(m) by {
                if p == 0 {
                    assert(p + m == m);
                }
            }
        }
        self.offset = self.offset + pad;
        match self.sink.write_all(bytes) {
            Ok(()) => {},
            Err(e) => {
                proof {
                    lemma_prefix_trans(before.contents(), mid.contents(), self.sink.contents());
                }
                return Err(WriteError::Sink(e));
            },
        }
        proof {
            lemma_prefix_trans(before.contents(), mid.contents(), self.sink.contents());
            assert forall|m: nat| before.accepts(p + len + m) implies #[trigger] self.sink.accepts(
                m,
            ) by {
                assert(p + len + m == p + (len + m));
                assert(mid.accepts(len + m));
            }
        }
        let at = self.offset;
        self.offset = self.offset + bytes.len();
        Ok(at)
    }

    /// Writes `value` at the next offset its alignment allows, after zero
    /// padding. Returns the offset of the value's first byte.
    ///
    /// It succeeds whenever the offset does not overflow and the sink takes
    /// the padding and the value's bytes.
    pub fn write<T: Std430>(&mut self, value: &T) -> (r: Result<usize, WriteError>)
        ensures
            final(self).spec_len() >= old(self).spec_len(),
            old(self).spec_sink().contents().is_prefix_of(final(self).spec_sink().contents()),
            (r == Err::<usize, WriteError>(WriteError::OffsetOverflow)) <==> align_up(
                old(self).spec_len(),
                T::layout_spec().alignment as nat,
            ) + T::layout_spec().size > usize::MAX,
            r == Err::<usize, WriteError>(WriteError::OffsetOverflow) ==> *final(self) == *old(
                self,
            ),
            align_up(old(self).spec_len(), T::layout_spec().alignment as nat)
                + T::layout_spec().size <= usize::MAX && old(self).spec_sink().accepts(
                pad_to(old(self).spec_len(), T::layout_spec().alignment as nat)
                    + T::layout_spec().size as nat,
            ) ==> r is Ok,
            r matches Err(WriteError::Sink(_)) ==> final(self).spec_len() <= align_up(
                old(self).spec_len(),
                T::layout_spec().alignment as nat,
            ),
            r matches Ok(at) ==> {
                &&& at == align_up(old(self).spec_len(), T::layout_spec().alignment as nat)
                &&& final(self).spec_len() == at + T::layout_spec().size
                &&& final(self).spec_len() == placed_end(
                    old(self).spec_len(),
                    seq![T::layout_spec()],
                )
                &&& final(self).spec_sink().contents() == old(self).spec_sink().contents() + zeros(
                    pad_to(old(self).spec_len(), T::layout_spec().alignment as nat),
                ) + value.spec_bytes()
                &&& forall|m: nat|
                    old(self).spec_sink().accepts(
                        pad_to(old(self).spec_len(), T::layout_spec().alignment as nat)
                            + T::layout_spec().size as nat + m,
                    ) ==> #[trigger] final(self).spec_sink().accepts(m)
            },
    {
        let layout = T::layout();
        let bytes = value.to_bytes();
        proof {
            lemma_placed_end_single(self.offset as nat, layout);
        }
        self.write_std430(layout.alignment, bytes.as_slice())
    }

    /// Writes `items` one after another, each as `write` would. Returns the
    /// offset of the first item, or the current offset if there is none.
    ///
    /// It succeeds whenever the offset does not overflow and the sink takes
    /// every item's padding and bytes.
    pub fn write_iter<T: Std430>(&mut self, items: &[T]) -> (r: Result<usize, WriteError>)
        ensures
            final(self).spec_len() >= old(self).spec_len(),
            items@.len() == 0 ==> r == Ok::<usize, WriteError>(old(self).spec_len() as usize)
                && *final(self) == *old(self),
            r == Err::<usize, WriteError>(WriteError::OffsetOverflow) ==> placed_end(
                old(self).spec_len(),
                repeated(T::layout_spec(), items@.len()),
            ) > usize::MAX,
            placed_end(old(self).spec_len(), repeated(T::layout_spec(), items@.len()))
                > usize::MAX ==> r is Err,
            placed_end(old(self).spec_len(), repeated(T::layout_spec(), items@.len()))
                <= usize::MAX && old(self).spec_sink().accepts(
                (placed_end(old(self).spec_len(), repeated(T::layout_spec(), items@.len())) - old(
                    self,
                ).spec_len()) as nat,
            ) ==> r is Ok,
            r matches Err(WriteError::Sink(_)) ==> exists|k: int|
                0 <= k < items@.len() && (old(self).spec_sink().contents() + #[trigger] run_bytes(
                    old(self).spec_len(),
                    items@.take(k),
                )).is_prefix_of(final(self).spec_sink().contents()),
            r is Err ==> final(self).spec_len() <= placed_end(
                old(self).spec_len(),
                repeated(T::layout_spec(), items@.len()),
            ),
            r matches Ok(at) ==> {
                &&& items@.len() > 0 ==> at == align_up(
                    old(self).spec_len(),
                    T::layout_spec().alignment as nat,
                )
                &&& final(self).spec_len() == placed_end(
                    old(self).spec_len(),
                    repeated(T::layout_spec(), items@.len()),
                )
                &&& final(self).spec_sink().contents() == old(self).spec_sink().contents()
                    + run_bytes(old(self).spec_len(), items@)
            },
    {
        let layout_now = T::layout();
        let ghost layout = layout_now;
        let ghost start = self.offset as nat;
        let ghost base = self.sink.contents();
        let ghost end = placed_end(start, repeated(layout, items@.len()));
        let ghost accepted = end <= usize::MAX && self.sink.accepts((end - start) as nat);
        let n = items.len();
        let mut first = self.offset;
        let mut i: usize = 0;
        proof {
            assert(repeated(layout, 0) =~= Seq::<Layout>::empty());
            assert(items@.take(0) =~= Seq::<T>::empty());
            assert(base + run_bytes(start, items@.take(0)) =~= base);
            lemma_placed_end_prefix(start, layout, 0, n as nat);
        }
        while i < n
            invariant
                0 <= i <= n,
                n == items@.len(),
                layout == T::layout_spec(),
                layout.wf(),
                start == old(self).spec_len(),
                base == old(self).spec_sink().contents(),
                end == placed_end(start, repeated(layout, n as nat)),
                accepted == (end <= usize::MAX && old(self).spec_sink().accepts(
                    (end - start) as nat,
                )),
                self.spec_len() == placed_end(start, repeated(layout, i as nat)),
                start <= self.spec_len() <= end,
                self.spec_sink().contents() == base + run_bytes(start, items@.take(i as int)),
                accepted ==> self.spec_sink().accepts((end - self.spec_len()) as nat),
                i == 0 ==> first == start && *self == *old(self),
                i > 0 ==> first == align_up(start, layout.alignment as nat),
            decreases n - i,
        {
            let ghost prev = *self;
            let ghost next = repeated(layout, (i + 1) as nat);
            proof {
                assert(next.drop_last() =~= repeated(layout, i as nat));
                assert(next.last() == layout);
                lemma_placed_end_single(prev.spec_len(), layout);
                lemma_placed_end_prefix(start, layout, (i + 1) as nat, n as nat);
                let step: nat = pad_to(prev.spec_len(), layout.alignment as nat) + layout.size as nat;
                assert(placed_end(start, next) == prev.spec_len() + step);
                if accepted {
                    prev.spec_sink().lemma_accepts_fewer(
                        (end - prev.spec_len()) as nat,
                        step,
                    );
                }
            }
            match self.write(&items[i]) {
                Ok(at) => {
                    if i == 0 {
                        first = at;
                    }
                    proof {
                        let step: nat = pad_to(prev.spec_len(), layout.alignment as nat) + layout.size as nat;
                        let take_next = items@.take(i + 1);
                        assert(take_next.drop_last() =~= items@.take(i as int));
                        assert(take_next.last() == items@[i as int]);
                        assert(take_next.len() - 1 == i);
                        assert(self.spec_sink().contents() =~= base + run_bytes(start, take_next));
                        if accepted {
                            let m = (end - self.spec_len()) as nat;
                            assert(step + m == end - prev.spec_len());
                            assert(self.spec_sink().accepts(m));
                        }
                    }
                },
                Err(e) => {
                    proof {
                        assert(0 <= i < items@.len() && (base + run_bytes(start, items@.take(i as int))).is_prefix_of(
                            self.spec_sink().contents(),
                        ));
                        if e == WriteError::OffsetOverflow {
                            lemma_placed_end_prefix(start, layout, (i + 1) as nat, items@.len());
                        }
                    }
                    return Err(e);
                },
            }
            i = i + 1;
        }
        proof {
            assert(items@.take(n as int) =~= items@);
        }
        Ok(first)
    }
}

/// A prefix of a prefix is a prefix.
proof fn lemma_prefix_trans(a: Seq<u8>, b: Seq<u8>, c: Seq<u8>)
    requires
        a.is_prefix_of(b),
        b.is_prefix_of(c),
    ensures
        a.is_prefix_of(c),
{
    assert(a =~= c.subrange(0, a.len() as int));
}

/// Placing a single layout aligns the start and adds the size.
proof fn lemma_placed_end_single(start: nat, layout: Layout)
    ensures
        placed_end(start, seq![layout]) == align_up(start, layout.alignment as nat) + layout.size,
{
    let s = seq![layout];
    assert(s.drop_last() =~= Seq::<Layout>::empty());
    assert(s.last() == layout);
    reveal_with_fuel(placed_end, 2);
}

/// A run of the same layout never ends later than a longer run.
proof fn lemma_placed_end_prefix(start: nat, layout: Layout, k: nat, n: nat)
    requires
        k <= n,
        layout.wf(),
    ensures
        placed_end(start, repeated(layout, k)) <= placed_end(start, repeated(layout, n)),
    decreases n - k,
{
    reveal_with_fuel(is_pow2, 1);
    if k < n {
        let next = repeated(layout, k + 1);
        assert(next.drop_last() =~= repeated(layout, k));
        lemma_pad_to(placed_end(start, repeated(layout, k)), layout.alignment as nat);
        lemma_placed_end_prefix(start, layout, k + 1, n);
    }
}

/// A run of values whose size is a multiple of their alignment has no
/// padding between them: the first is aligned, and each following one
/// starts where the previous one ends.
pub proof fn lemma_run_without_gaps(start: nat, layout: Layout, n: nat)
    requires
        layout.alignment > 0,
        (layout.size as int) % (layout.alignment as int) == 0,
        n > 0,
    ensures
        placed_end(start, repeated(layout, n)) == align_up(start, layout.alignment as nat) + n
            * layout.size,
        (placed_end(start, repeated(layout, n)) as int) % (layout.alignment as int) == 0,
    decreases n,
{
    let a = layout.alignment as int;
    let size = layout.size as int;
    let s = repeated(layout, n);
    assert(s.drop_last() =~= repeated(layout, (n - 1) as nat));
    assert(s.last() == layout);
    let before = placed_end(start, repeated(layout, (n - 1) as nat));
    assert(placed_end(start, s) == align_up(before, a as nat) + size);
    if n == 1 {
        assert(repeated(layout, 0) =~= Seq::<Layout>::empty());
        assert(before == start);
        lemma_pad_to(start, a as nat);
        let x = align_up(start, a as nat) as int;
        assert(x % a == 0);
        assert(0int % a == 0) by (nonlinear_arith)
            requires
                a > 0,
        ;
        lemma_add_mod_noop(x, size, a);
        assert((x + size) % a == 0);
    } else {
        lemma_run_without_gaps(start, layout, (n - 1) as nat);
        lemma_pad_to(before, a as nat);
        assert(pad_to(before, a as nat) == 0);
        let x = before as int;
        lemma_add_mod_noop(x, size, a);
        assert((x + size) % a == 0);
        assert((n - 1) * size + size == n * size) by (nonlinear_arith);
    }
}

/// The cursor after a sequence of writes stands at the start plus each
/// value's padding and size, taken in call order.
pub proof fn lemma_len_is_sum_of_contributions(start: nat, layouts: Seq<Layout>)
    ensures
        placed_end(start, layouts) == start + contributions(start, layouts),
    decreases layouts.len(),
{
    if layouts.len() > 0 {
        lemma_len_is_sum_of_contributions(start, layouts.drop_last());
    }
}

/// Writing one sequence and then another leaves the cursor where writing
/// both, in that order, from the same start leaves it.
pub proof fn lemma_writes_compose(start: nat, first: Seq<Layout>, second: Seq<Layout>)
    ensures
        placed_end(start, first + second) == placed_end(placed_end(start, first), second),
    decreases second.len(),
{
    if second.len() == 0 {
        assert(first + second =~= first);
    } else {
        let all = first + second;
        assert(all.drop_last() =~= first + second.drop_last());
        assert(all.last() == second.last());
        lemma_writes_compose(start, first, second.drop_last());
    }
}

} // verus!
