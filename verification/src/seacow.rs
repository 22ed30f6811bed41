//! Borrow-or-own wrappers around palette and image buffers, and row views
//! over contiguous bitmaps.
//!
//! These carry pixel data between the caller and the engine without
//! copying: a buffer is either borrowed from the caller or owned, and a
//! bitmap is addressed row by row over one contiguous allocation.

use vstd::prelude::*;

verus! {

/// A slice that is either borrowed from the caller or owned by this crate.
#[derive(Clone)]
pub struct SeaCow<'a, T> {
    inner: SeaCowInner<'a, T>,
}

#[derive(Clone)]
enum SeaCowInner<'a, T> {
    Borrowed(&'a [T]),
    Boxed(Vec<T>),
}

impl<'a, T> SeaCow<'a, T> {
    /// The elements the cow holds, wherever they live.
    pub closed spec fn view(self) -> Seq<T> {
        match self.inner {
            SeaCowInner::Borrowed(data) => data@,
            SeaCowInner::Boxed(ref data) => data@,
        }
    }

    /// Wrap an owned buffer.
    pub fn boxed(data: Vec<T>) -> (r: SeaCow<'a, T>)
        ensures
            r.view() == data@,
    {
        SeaCow { inner: SeaCowInner::Boxed(data) }
    }

    /// Wrap a borrowed slice.
    pub fn borrowed(data: &'a [T]) -> (r: SeaCow<'a, T>)
        ensures
            r.view() == data@,
    {
        SeaCow { inner: SeaCowInner::Borrowed(data) }
    }

    /// The held elements as one slice.
    pub fn as_slice(&self) -> (r: &[T])
        ensures
            r@ == self.view(),
    {
        match &self.inner {
            SeaCowInner::Borrowed(data) => data,
            SeaCowInner::Boxed(data) => data.as_slice(),
        }
    }
}

/// Read-only bitmap view over one contiguous buffer: `width` elements per
/// row.
pub enum RowBitmap<'a, T> {
    Contiguous { data: &'a [T], width: usize },
}

impl<'a, T> RowBitmap<'a, T> {
    /// The underlying elements.
    pub closed spec fn data_seq(self) -> Seq<T> {
        match self {
            RowBitmap::Contiguous { data, .. } => data@,
        }
    }

    /// Elements per row.
    pub closed spec fn spec_width(self) -> int {
        match self {
            RowBitmap::Contiguous { width, .. } => width as int,
        }
    }

    /// The bitmap's rows, in order: each holds `width` consecutive
    /// elements, and elements past the last full row are not part of any
    /// row.
    pub fn rows(&self) -> (r: Vec<&'a [T]>)
        requires
            self.spec_width() >= 1,
        ensures
            r@.len() == self.data_seq().len() as int / self.spec_width(),
            forall|i: int|
                0 <= i < r@.len() ==> (#[trigger] r@[i])@ == self.data_seq().subrange(
                    i * self.spec_width(),
                    i * self.spec_width() + self.spec_width(),
                ),
    {
        match self {
            RowBitmap::Contiguous { data, width } => {
                let w = *width;
                let n = data.len() / w;
                proof {
                    vstd::arithmetic::div_mod::lemma_fundamental_div_mod(
                        data@.len() as int,
                        w as int,
                    );
                }
                let mut out: Vec<&'a [T]> = Vec::new();
                let mut k: usize = 0;
                while k < n
                    invariant
                        w >= 1,
                        n == data@.len() as int / w as int,
                        n * (w as int) <= data@.len(),
                        data@.len() <= usize::MAX,
                        out@.len() == k,
                        k <= n,
                        forall|i: int|
                            0 <= i < k ==> (#[trigger] out@[i])@ == data@.subrange(
                                i * (w as int),
                                i * (w as int) + (w as int),
                            ),
                    decreases n - k,
                {
                    proof {
                        crate::bounds::lemma_mul_le_both(
                            k as int + 1,
                            w as int,
                            n as int,
                            w as int,
                        );
                        assert((k as int) * (w as int) + (w as int) == (k as int + 1) * (w as int))
                            by (nonlinear_arith);
                        assert((k as int) * (w as int) + (w as int) <= data@.len());
                    }
                    let start = k * w;
                    let row = vstd::slice::slice_subrange(*data, start, start + w);
                    out.push(row);
                    k += 1;
                }
                out
            },
        }
    }
}

/// Mutable bitmap view over one contiguous buffer: `width` elements per
/// row.
pub enum RowBitmapMut<'a, T> {
    Contiguous { data: &'a mut [T], width: usize },
}

impl<'a, T> RowBitmapMut<'a, T> {
    /// Elements per row.
    pub closed spec fn spec_width(self) -> int {
        match self {
            RowBitmapMut::Contiguous { width, .. } => width as int,
        }
    }

    /// The elements currently held.
    pub closed spec fn data_seq(self) -> Seq<T> {
        match self {
            RowBitmapMut::Contiguous { ref data, .. } => data@,
        }
    }

    /// Wrap a contiguous buffer for mutation. Construction is total; the
    /// row operations themselves ask for a positive width.
    pub fn new_contiguous(data: &'a mut [T], width: usize) -> (r: RowBitmapMut<'a, T>)
        ensures
            r.data_seq() == old(data)@,
            r.spec_width() == width,
    {
        RowBitmapMut::Contiguous { data, width }
    }

    /// The number of full rows.
    pub fn len(&self) -> (n: usize)
        requires
            self.spec_width() >= 1,
        ensures
            n == self.data_seq().len() as int / self.spec_width(),
    {
        match self {
            RowBitmapMut::Contiguous { data, width } => data.len() / *width,
        }
    }

    /// Split the bitmap into stripes of at most `chunk_size` rows each,
    /// in order: every stripe but the last holds exactly
    /// `chunk_size * width` elements, the last holds the remainder, and no
    /// element is lost.
    pub fn chunks(self, chunk_size: usize) -> (r: Vec<RowBitmapMut<'a, T>>)
        requires
            self.spec_width() >= 1,
            chunk_size >= 1,
            chunk_size * self.spec_width() <= usize::MAX,
        ensures
            forall|i: int|
                #![trigger r@.index(i)]
                0 <= i < r@.len() ==> r@[i].spec_width() == self.spec_width() && r@[i].data_seq()
                    == self.data_seq().subrange(
                    i * (chunk_size as int * self.spec_width()),
                    vstd::math::min(
                        (i + 1) * (chunk_size as int * self.spec_width()),
                        self.data_seq().len() as int,
                    ),
                ),
            self.data_seq().len() == 0 ==> r@.len() == 0,
            self.data_seq().len() > 0 ==> ((r@.len() - 1) * (chunk_size as int
                * self.spec_width()) < self.data_seq().len() && self.data_seq().len() <= r@.len()
                * (chunk_size as int * self.spec_width())),
    {
        let ghost orig = self.data_seq();
        match self {
            RowBitmapMut::Contiguous { data, width } => {
                let cb: usize = chunk_size * width;
                proof {
                    assert(cb >= 1) by (nonlinear_arith)
                        requires
                            chunk_size >= 1,
                            width >= 1,
                            cb == chunk_size * width,
                    ;
                }
                let len = data.len();
                let q = len / cb;
                let rem = len % cb;
                proof {
                    vstd::arithmetic::div_mod::lemma_fundamental_div_mod(len as int, cb as int);
                    assert(q as int <= (cb as int) * (q as int)) by (nonlinear_arith)
                        requires
                            cb as int >= 1,
                            q as int >= 0,
                    ;
                }
                let n_chunks: usize = if rem != 0 {
                    q + 1
                } else {
                    q
                };
                let mut rest: &'a mut [T] = data;
                let mut out: Vec<RowBitmapMut<'a, T>> = Vec::new();
                let mut k: usize = 0;
                while k < n_chunks
                    invariant
                        cb == chunk_size * width,
                        cb >= 1,
                        width >= 1,
                        len == orig.len(),
                        len <= usize::MAX,
                        q == len as int / cb as int,
                        rem == len as int % cb as int,
                        n_chunks == q + if rem != 0 { 1int } else { 0int },
                        len == (cb as int) * (q as int) + rem,
                        out@.len() == k,
                        k <= n_chunks,
                        rest@ == orig.subrange(
                            vstd::math::min((k as int) * (cb as int), len as int),
                            len as int,
                        ),
                        forall|i: int|
                            #![trigger out@.index(i)]
                            0 <= i < k ==> out@[i].spec_width() == width as int
                                && out@[i].data_seq() == orig.subrange(
                                i * (cb as int),
                                vstd::math::min((i + 1) * (cb as int), len as int),
                            ),
                    decreases n_chunks - k,
                {
                    proof {
                        crate::bounds::lemma_mul_nonneg(k as int, cb as int);
                        crate::bounds::lemma_mul_le_both(
                            k as int + 1,
                            cb as int,
                            n_chunks as int,
                            cb as int,
                        );
                        assert((k as int) * (cb as int) + (cb as int) == (k as int + 1) * (
                        cb as int)) by (nonlinear_arith);
                        if k as int + 1 < n_chunks as int {
                            crate::bounds::lemma_mul_le_both(
                                k as int + 2,
                                cb as int,
                                n_chunks as int,
                                cb as int,
                            );
                            assert((k as int + 1) * (cb as int) + (cb as int) == (k as int + 2) * (
                            cb as int)) by (nonlinear_arith);
                        }
                        if rem != 0 {
                            assert((n_chunks as int) * (cb as int) == (cb as int) * (q as int) + (
                            cb as int)) by (nonlinear_arith)
                                requires
                                    n_chunks as int == q as int + 1,
                            ;
                        } else {
                            assert((n_chunks as int) * (cb as int) == (cb as int) * (q as int))
                                by (nonlinear_arith)
                                requires
                                    n_chunks as int == q as int,
                            ;
                        }
                        assert((k as int) * (cb as int) < len as int);
                    }
                    let take = if rest.len() > cb {
                        cb
                    } else {
                        rest.len()
                    };
                    let (chunk, rem_slice) = rest.split_at_mut(take);
                    proof {
                        assert(chunk@ =~= orig.subrange(
                            (k as int) * (cb as int),
                            (k as int) * (cb as int) + take as int,
                        ));
                        assert(rem_slice@ =~= orig.subrange(
                            vstd::math::min((k as int + 1) * (cb as int), len as int),
                            len as int,
                        ));
                    }
                    out.push(RowBitmapMut::Contiguous { data: chunk, width });
                    rest = rem_slice;
                    k += 1;
                }
                proof {
                    if orig.len() > 0 {
                        assert((n_chunks as int - 1) * (cb as int) < len as int && len as int <= (
                        n_chunks as int) * (cb as int)) by {
                            vstd::arithmetic::div_mod::lemma_fundamental_div_mod(
                                len as int,
                                cb as int,
                            );
                            if rem != 0 {
                                assert((n_chunks as int) * (cb as int) == (cb as int) * (q as int)
                                    + (cb as int)) by (nonlinear_arith)
                                    requires
                                        n_chunks as int == q as int + 1,
                                ;
                                assert((n_chunks as int - 1) * (cb as int) == (cb as int) * (
                                q as int)) by (nonlinear_arith)
                                    requires
                                        n_chunks as int == q as int + 1,
                                ;
                            } else {
                                assert((n_chunks as int) * (cb as int) == (cb as int) * (q as int))
                                    by (nonlinear_arith)
                                    requires
                                        n_chunks as int == q as int,
                                ;
                                assert((n_chunks as int - 1) * (cb as int) == (cb as int) * (
                                q as int) - (cb as int)) by (nonlinear_arith)
                                    requires
                                        n_chunks as int == q as int,
                                ;
                            }
                        }
                    }
                }
                out
            },
        }
    }

    /// Split the bitmap into its rows, each writable independently: row
    /// `i` holds the `width` consecutive elements starting at
    /// `i * width`. Elements past the last full row are not part of any
    /// row.
    pub fn rows_mut(self) -> (r: Vec<&'a mut [T]>)
        requires
            self.spec_width() >= 1,
        ensures
            r@.len() == self.data_seq().len() as int / self.spec_width(),
            forall|i: int|
                #![trigger r@.index(i)]
                0 <= i < r@.len() ==> r@[i]@ == self.data_seq().subrange(
                    i * self.spec_width(),
                    i * self.spec_width() + self.spec_width(),
                ) && r@[i]@.len() == self.spec_width(),
    {
        let ghost orig = self.data_seq();
        match self {
            RowBitmapMut::Contiguous { data, width } => {
                let w = width;
                let n = data.len() / w;
                proof {
                    vstd::arithmetic::div_mod::lemma_fundamental_div_mod(orig.len() as int, w as int);
                }
                let mut rest: &'a mut [T] = data;
                let mut out: Vec<&'a mut [T]> = Vec::new();
                let mut k: usize = 0;
                while k < n
                    invariant
                        w >= 1,
                        n == orig.len() as int / w as int,
                        n * (w as int) <= orig.len(),
                        out@.len() == k,
                        k <= n,
                        rest@ == orig.subrange((k as int) * (w as int), orig.len() as int),
                        forall|i: int|
                            #![trigger out@.index(i)]
                            0 <= i < k ==> out@[i]@ == orig.subrange(
                                i * (w as int),
                                i * (w as int) + (w as int),
                            ),
                    decreases n - k,
                {
                    proof {
                        crate::bounds::lemma_mul_le_both(
                            k as int + 1,
                            w as int,
                            n as int,
                            w as int,
                        );
                        assert((k as int) * (w as int) + (w as int) == (k as int + 1) * (w as int))
                            by (nonlinear_arith);
                    }
                    let (row, rem) = rest.split_at_mut(w);
                    proof {
                        assert(row@ =~= orig.subrange(
                            (k as int) * (w as int),
                            (k as int) * (w as int) + (w as int),
                        ));
                        assert(rem@ =~= orig.subrange(
                            (k as int + 1) * (w as int),
                            orig.len() as int,
                        ));
                    }
                    out.push(row);
                    rest = rem;
                    k += 1;
                }
                proof {
                    assert(orig == self.data_seq());
                    assert forall|i: int| 0 <= i < out@.len() implies #[trigger] out@.index(i)@
                        == self.data_seq().subrange(
                        i * self.spec_width(),
                        i * self.spec_width() + self.spec_width(),
                    ) && out@.index(i)@.len() == self.spec_width() by {
                        crate::bounds::lemma_mul_nonneg(i, w as int);
                        crate::bounds::lemma_mul_le_both(i + 1, w as int, n as int, w as int);
                        assert(i * (w as int) + (w as int) == (i + 1) * (w as int))
                            by (nonlinear_arith);
                        assert(out@.index(i)@ == orig.subrange(
                            i * (w as int),
                            i * (w as int) + (w as int),
                        ));
                    }
                }
                out
            },
        }
    }
}

/// A mutable value that is either owned or borrowed from the caller.
pub enum MutCow<'a, T> {
    Owned(Box<T>),
    Borrowed(&'a mut T),
}

impl<'a, T> MutCow<'a, T> {
    /// The value the cow currently holds, wherever it lives.
    pub closed spec fn value(self) -> T {
        match self {
            MutCow::Owned(b) => *b,
            MutCow::Borrowed(x) => *x,
        }
    }

    /// Mutable access to the held value, wherever it lives.
    pub fn borrow_mut(&mut self) -> (r: &mut T)
        ensures
            *r == old(self).value(),
            final(self).value() == *final(r),
    {
        match self {
            MutCow::Owned(a) => &mut **a,
            MutCow::Borrowed(a) => *a,
        }
    }
}

} // verus!
