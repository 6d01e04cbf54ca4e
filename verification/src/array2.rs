//! A fixed-size two-dimensional array stored in row-major order.
//!
//! `Array2` is a bounds-checked `(column, row)` container: every lookup
//! outside the stored width and height answers `None`, never a panic.

use vstd::prelude::*;

verus! {

/// For a column `c` and a row `r` inside a `w` by `h` grid, the row-major
/// offset `r * w + c` lies inside the grid's element count.
pub proof fn lemma_row_major_in_bounds(w: int, h: int, c: int, r: int)
    by (nonlinear_arith)
    requires
        0 <= c < w,
        0 <= r < h,
    ensures
        0 <= r * w + c < w * h,
{
}

/// A fixed-size two-dimensional array of `width * height` elements,
/// stored row by row.
pub struct Array2<T> {
    width: usize,
    height: usize,
    data: Vec<T>,
}

impl<T> Array2<T> {
    /// The stored width, for use in specifications.
    pub closed spec fn spec_width(&self) -> usize {
        self.width
    }

    /// The stored height, for use in specifications.
    pub closed spec fn spec_height(&self) -> usize {
        self.height
    }

    /// The elements in row-major order, for use in specifications.
    pub closed spec fn contents(&self) -> Seq<T> {
        self.data@
    }

    /// The element count always matches the stored dimensions.
    #[verifier::type_invariant]
    pub closed spec fn wf(&self) -> bool {
        self.data@.len() == self.spec_width() * self.spec_height()
    }

    /// The height.
    pub fn height(&self) -> (r: usize)
        ensures
            r == self.spec_height(),
    {
        self.height
    }

    /// The width.
    pub fn width(&self) -> (r: usize)
        ensures
            r == self.spec_width(),
    {
        self.width
    }

    /// All elements, in row-major order.
    pub fn elements_row_major(&self) -> (r: &Vec<T>)
        ensures
            r@ == self.contents(),
    {
        &self.data
    }

    /// The row-major offset of `(c, r)` when that pair is in bounds,
    /// `None` otherwise.
    fn get_index(&self, c: usize, r: usize) -> (res: Option<usize>)
        ensures
            match res {
                Some(i) => c < self.spec_width() && r < self.spec_height() && i == r
                    * self.spec_width() + c && i < self.contents().len(),
                None => !(c < self.spec_width() && r < self.spec_height()),
            },
    {
        proof {
            use_type_invariant(self);
        }
        let _len = self.data.len();
        if c < self.width && r < self.height {
            proof {
                lemma_row_major_in_bounds(self.width as int, self.height as int, c as int, r as int);
            }
            Some(r * self.width + c)
        } else {
            None
        }
    }

    /// A reference to the element at column `c` and row `r`, or `None`
    /// when `(c, r)` is out of bounds.
    pub fn get(&self, c: usize, r: usize) -> (res: Option<&T>)
        ensures
            match res {
                Some(v) => c < self.spec_width() && r < self.spec_height() && *v
                    == self.contents()[r * self.spec_width() + c],
                None => !(c < self.spec_width() && r < self.spec_height()),
            },
    {
        match self.get_index(c, r) {
            Some(index) => Some(&self.data[index]),
            None => None,
        }
    }

    /// A mutable reference to the element at column `c` and row `r`, or
    /// `None` when `(c, r)` is out of bounds.
    pub fn get_mut(&mut self, c: usize, r: usize) -> (res: Option<&mut T>)
        ensures
            final(self).spec_width() == old(self).spec_width(),
            final(self).spec_height() == old(self).spec_height(),
            match res {
                Some(v) => c < old(self).spec_width() && r < old(self).spec_height() && *v == old(
                    self,
                ).contents()[r * old(self).spec_width() + c] && final(self).contents() == old(
                    self,
                ).contents().update(r * old(self).spec_width() + c, *final(v)),
                None => !(c < old(self).spec_width() && r < old(self).spec_height())
                    && final(self).contents() == old(self).contents(),
            },
    {
        if !(c < self.width && r < self.height) {
            return None;
        }
        proof {
            use_type_invariant(&*self);
            lemma_row_major_in_bounds(
                self.spec_width() as int,
                self.spec_height() as int,
                c as int,
                r as int,
            );
        }
        let _len = self.data.len();
        let index = r * self.width + c;
        Some(&mut self.data[index])
    }
}

impl<T: Clone> Array2<T> {
    /// A new `width` by `height` array with every element a clone of `val`.
    pub fn new(width: usize, height: usize, val: T) -> (res: Self)
        requires
            width * height <= usize::MAX,
        ensures
            res.spec_width() == width,
            res.spec_height() == height,
            res.contents().len() == width * height,
            forall|k: int|
                0 <= k < width * height ==> cloned(val, #[trigger] res.contents()[k]),
    {
        let n: usize = width * height;
        let mut data: Vec<T> = Vec::new();
        let mut i: usize = 0;
        while i < n
            invariant
                i <= n,
                data@.len() == i,
                forall|k: int| 0 <= k < i ==> cloned(val, #[trigger] data@[k]),
            decreases n - i,
        {
            data.push(val.clone());
            i = i + 1;
        }
        Array2 { width, height, data }
    }

    /// A new `width` by `height` array holding `values`, given in row-major
    /// order; fails when the element count does not match the dimensions.
    pub fn from_row_major(width: usize, height: usize, values: Vec<T>) -> (res: Result<
        Self,
        String,
    >)
        ensures
            match res {
                Ok(a) => width * height == values@.len() && a.spec_width() == width
                    && a.spec_height() == height && a.contents() == values@,
                Err(_) => width * height != values@.len(),
            },
    {
        if width.checked_mul(height) == Some(values.len()) {
            Ok(Array2 { width, height, data: values })
        } else {
            Err("element count does not match width times height".to_string())
        }
    }

    /// Every element paired with its `(column, row)` position, walking
    /// row by row: the `k`-th entry is `(k % width, k / width, element k)`.
    pub fn iter_row_major(&self) -> (res: Vec<(usize, usize, T)>)
        ensures
            res@.len() == self.contents().len(),
            forall|k: int|
                0 <= k < res@.len() ==> (#[trigger] res@[k]).0 == k % (
                self.spec_width() as int) && res@[k].1 == k / (self.spec_width() as int) && cloned(
                    self.contents()[k],
                    res@[k].2,
                ),
    {
        proof {
            use_type_invariant(self);
        }
        let mut out: Vec<(usize, usize, T)> = Vec::new();
        let mut r: usize = 0;
        while r < self.height
            invariant
                self.wf(),
                r <= self.spec_height(),
                out@.len() == r * self.spec_width(),
                out@.len() <= self.contents().len(),
                forall|k: int|
                    0 <= k < out@.len() ==> (#[trigger] out@[k]).0 == k % (
                    self.spec_width() as int) && out@[k].1 == k / (self.spec_width() as int)
                        && cloned(self.contents()[k], out@[k].2),
            decreases self.spec_height() - r,
        {
            let mut c: usize = 0;
            while c < self.width
                invariant
                    self.wf(),
                    r < self.spec_height(),
                    c <= self.spec_width(),
                    out@.len() == r * self.spec_width() + c,
                    out@.len() <= self.contents().len(),
                    forall|k: int|
                        0 <= k < out@.len() ==> (#[trigger] out@[k]).0 == k % (
                        self.spec_width() as int) && out@[k].1 == k / (self.spec_width() as int)
                            && cloned(self.contents()[k], out@[k].2),
                decreases self.spec_width() - c,
            {
                proof {
                    lemma_row_major_in_bounds(
                        self.spec_width() as int,
                        self.spec_height() as int,
                        c as int,
                        r as int,
                    );
                    vstd::arithmetic::div_mod::lemma_fundamental_div_mod_converse(
                        (r * self.spec_width() + c) as int,
                        self.spec_width() as int,
                        r as int,
                        c as int,
                    );
                }
                let _len = self.data.len();
                let v = self.data[r * self.width + c].clone();
                out.push((c, r, v));
                c = c + 1;
            }
            proof {
                lemma_row_major_step(self.spec_width() as int, r as int);
            }
            r = r + 1;
        }
        proof {
            vstd::arithmetic::mul::lemma_mul_is_commutative(
                self.spec_width() as int,
                self.spec_height() as int,
            );
        }
        out
    }

    /// Every element paired with its `(column, row)` position, walking
    /// column by column: the `k`-th entry is column `k / height`, row
    /// `k % height`, and the element stored at that position.
    pub fn iter_col_major(&self) -> (res: Vec<(usize, usize, T)>)
        ensures
            res@.len() == self.contents().len(),
            forall|k: int|
                0 <= k < res@.len() ==> (#[trigger] res@[k]).0 == k / (
                self.spec_height() as int) && res@[k].1 == k % (self.spec_height() as int) && cloned(
                    self.contents()[(k % (self.spec_height() as int)) * self.spec_width() + k / (
                    self.spec_height() as int)],
                    res@[k].2,
                ),
    {
        proof {
            use_type_invariant(self);
            vstd::arithmetic::mul::lemma_mul_is_commutative(
                self.spec_width() as int,
                self.spec_height() as int,
            );
        }
        let mut out: Vec<(usize, usize, T)> = Vec::new();
        let mut c: usize = 0;
        while c < self.width
            invariant
                self.wf(),
                c <= self.spec_width(),
                out@.len() == c * self.spec_height(),
                out@.len() <= self.contents().len(),
                forall|k: int|
                    0 <= k < out@.len() ==> (#[trigger] out@[k]).0 == k / (
                    self.spec_height() as int) && out@[k].1 == k % (self.spec_height() as int)
                        && cloned(
                        self.contents()[(k % (self.spec_height() as int)) * self.spec_width() + k
                            / (self.spec_height() as int)],
                        out@[k].2,
                    ),
            decreases self.spec_width() - c,
        {
            let mut r: usize = 0;
            while r < self.height
                invariant
                    self.wf(),
                    c < self.spec_width(),
                    r <= self.spec_height(),
                    out@.len() == c * self.spec_height() + r,
                    out@.len() <= self.contents().len(),
                    forall|k: int|
                        0 <= k < out@.len() ==> (#[trigger] out@[k]).0 == k / (
                        self.spec_height() as int) && out@[k].1 == k % (self.spec_height() as int)
                            && cloned(
                            self.contents()[(k % (self.spec_height() as int)) * self.spec_width()
                                + k / (self.spec_height() as int)],
                            out@[k].2,
                        ),
                decreases self.spec_height() - r,
            {
                proof {
                    lemma_row_major_in_bounds(
                        self.spec_width() as int,
                        self.spec_height() as int,
                        c as int,
                        r as int,
                    );
                    lemma_row_major_in_bounds(
                        self.spec_height() as int,
                        self.spec_width() as int,
                        r as int,
                        c as int,
                    );
                    vstd::arithmetic::div_mod::lemma_fundamental_div_mod_converse(
                        (c * self.spec_height() + r) as int,
                        self.spec_height() as int,
                        c as int,
                        r as int,
                    );
                }
                let _len = self.data.len();
                let v = self.data[r * self.width + c].clone();
                out.push((c, r, v));
                r = r + 1;
            }
            proof {
                lemma_row_major_step(self.spec_height() as int, c as int);
            }
            c = c + 1;
        }
        out
    }
}

/// Stepping to the next row advances the row-major offset by one width:
/// `r * w + w == (r + 1) * w`.
pub proof fn lemma_row_major_step(w: int, r: int)
    by (nonlinear_arith)
    ensures
        r * w + w == (r + 1) * w,
{
}

} // verus!
