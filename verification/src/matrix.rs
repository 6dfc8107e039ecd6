//! The matrix itself: a fixed-shape, row-major, dense buffer of
//! single-precision values (held as `u32` bit patterns), with a text
//! parser, a text formatter, row access, and the three elementary row
//! operations.

use vstd::prelude::*;
use vstd::slice::slice_subrange;

use crate::single::add_single;
use crate::single::mul_single;
use crate::single::single_of_text;
use crate::single::text_of_single;
use crate::single::add_bits;
use crate::single::mul_bits;
use crate::single::format_single;
use crate::single::parse_single;
use crate::text::tokens_of;
use crate::text::usize_of_token;
use crate::text::tokenize;
use crate::text::parse_usize;

verus! {

/// How building a matrix from text can fail, and how a row access out of
/// range reports itself.
#[derive(Debug, Clone, Copy, PartialEq, Eq, Structural)]
pub enum MatrixError {
    /// The row or column count is absent or not an integer.
    MalformedHeader,
    /// A data token is not a real-number token.
    MalformedElement,
    /// The number of data tokens differs from `rows * cols`.
    ElementCountMismatch,
    /// A row index is at least `rows`.
    IndexOutOfRange,
}

/// The flat, row-major offset of the cell at row `i`, column `j` of a
/// matrix with `c` columns.
pub open spec fn flat_index(i: int, j: int, c: int) -> int {
    i * c + j
}

/// The sequence of rows that a row-major buffer of `rows * cols` elements
/// holds: element `(i, j)` lives at offset `i * cols + j`.
pub open spec fn grid_of(d: Seq<u32>, rows: int, cols: int) -> Seq<Seq<u32>> {
    Seq::new(rows as nat, |i: int| Seq::new(cols as nat, |j: int| d[flat_index(i, j, cols)]))
}

/// A row scaled elementwise: entry `k` is `r[k] * v` in single precision.
pub open spec fn scaled_row(r: Seq<u32>, v: u32) -> Seq<u32> {
    Seq::new(r.len(), |k: int| mul_single(r[k], v))
}

/// Two rows summed elementwise: entry `k` is `a[k] + b[k]` in single
/// precision.
pub open spec fn summed_row(a: Seq<u32>, b: Seq<u32>) -> Seq<u32> {
    Seq::new(a.len(), |k: int| add_single(a[k], b[k]))
}

pub(crate) proof fn lemma_row_bound(i: int, r: int, c: int)
    by (nonlinear_arith)
    requires
        0 <= i < r,
        0 <= c,
    ensures
        0 <= i * c,
        i * c + c <= r * c,
{
}

/// Cells of two distinct rows never share a flat offset.
pub(crate) proof fn lemma_distinct_rows(t: int, i: int, m: int, c: int)
    by (nonlinear_arith)
    requires
        t != i,
        0 <= t,
        0 <= i,
        0 <= m < c,
    ensures
        t * c + m < i * c || t * c + m >= i * c + c,
{
}

/// A dense matrix of single-precision values, stored in row-major order.
///
/// The element at row `i`, column `j` is the `u32` bit pattern of an IEEE
/// 754 single-precision value, stored at offset `i * cols + j`.
#[derive(Debug)]
pub struct Matrix {
    data: Vec<u32>,
    rows: usize,
    cols: usize,
}

impl View for Matrix {
    type V = Seq<Seq<u32>>;

    closed spec fn view(&self) -> Seq<Seq<u32>> {
        grid_of(self.data@, self.rows as int, self.cols as int)
    }
}

impl Matrix {
    /// The number of rows, as the contracts speak of it.
    pub closed spec fn spec_rows(self) -> int {
        self.rows as int
    }

    /// The number of columns, as the contracts speak of it.
    pub closed spec fn spec_cols(self) -> int {
        self.cols as int
    }

    /// The shape invariant: the buffer holds exactly `rows * cols` elements.
    pub closed spec fn wf(self) -> bool {
        self.data@.len() == self.rows * self.cols
    }

    /// The view always has `spec_rows()` rows of `spec_cols()` entries each.
    pub proof fn lemma_shape(self)
        ensures
            self@.len() == self.spec_rows(),
            forall|i: int| 0 <= i < self@.len() ==> (#[trigger] self@[i]).len() == self.spec_cols(),
    {
    }

    /// Builds a matrix directly from its dimensions and its row-major
    /// elements.
    pub fn new(rows: usize, cols: usize, data: Vec<u32>) -> (m: Matrix)
        requires
            data@.len() == rows * cols,
        ensures
            m.wf(),
            m.spec_rows() == rows as int,
            m.spec_cols() == cols as int,
            m@ == grid_of(data@, rows as int, cols as int),
    {
        Matrix { data, rows, cols }
    }

    pub fn rows(&self) -> (r: usize)
        ensures
            r as int == self.spec_rows(),
    {
        self.rows
    }

    pub fn cols(&self) -> (c: usize)
        ensures
            c as int == self.spec_cols(),
    {
        self.cols
    }

    /// A read-only view of row `i`: the subrange `[i * cols, (i + 1) * cols)`
    /// of the buffer, aliased, not copied. Fails with `IndexOutOfRange` if
    /// and only if `i >= rows`.
    pub fn row(&self, i: usize) -> (r: Result<&[u32], MatrixError>)
        requires
            self.wf(),
        ensures
            match r {
                Ok(s) => (i as int) < self.spec_rows() && s@ == self@[i as int],
                Err(e) => (i as int) >= self.spec_rows() && e == MatrixError::IndexOutOfRange,
            },
    {
        if i < self.rows {
            let total = self.data.len();
            proof {
                lemma_row_bound(i as int, self.rows as int, self.cols as int);
            }
            let s = slice_subrange(self.data.as_slice(), i * self.cols, i * self.cols + self.cols);
            proof {
                assert(s@ =~= self@[i as int]);
            }
            Ok(s)
        } else {
            Err(MatrixError::IndexOutOfRange)
        }
    }

    /// Exchanges rows `i` and `j` element for element; a no-op when
    /// `i == j`. Out-of-range indices are a contract violation, not a
    /// recoverable error.
    pub fn swap_rows(&mut self, i: usize, j: usize)
        requires
            old(self).wf(),
            (i as int) < old(self).spec_rows(),
            (j as int) < old(self).spec_rows(),
        ensures
            final(self).wf(),
            final(self).spec_rows() == old(self).spec_rows(),
            final(self).spec_cols() == old(self).spec_cols(),
            final(self)@ == old(self)@.update(i as int, old(self)@[j as int]).update(
                j as int,
                old(self)@[i as int],
            ),
            i == j ==> final(self)@ == old(self)@,
    {
        let ghost d0 = self.data@;
        if i == j {
            proof {
                assert(self@.update(i as int, self@[j as int]).update(j as int, self@[i as int])
                    =~= self@);
            }
            return;
        }
        let c = self.cols;
        let r = self.rows;
        let total = self.data.len();
        let mut k: usize = 0;
        while k < c
            invariant
                self.rows == r,
                self.cols == c,
                self.wf(),
                i != j,
                (i as int) < r as int,
                (j as int) < r as int,
                d0 == old(self).data@,
                self.data@.len() == d0.len(),
                self.data@.len() == total as int,
                k <= c,
                forall|m: int|
                    0 <= m < k ==> self.data@[#[trigger] flat_index(i as int, m, c as int)]
                        == d0[flat_index(j as int, m, c as int)],
                forall|m: int|
                    0 <= m < k ==> self.data@[#[trigger] flat_index(j as int, m, c as int)]
                        == d0[flat_index(i as int, m, c as int)],
                forall|n: int|
                    0 <= n < d0.len() && !(i as int * (c as int) <= n < i as int * (c as int)
                        + k) && !(j as int * (c as int) <= n < j as int * (c as int) + k)
                        ==> #[trigger] self.data@[n] == d0[n],
            decreases c - k,
        {
            proof {
                lemma_row_bound(i as int, r as int, c as int);
                lemma_row_bound(j as int, r as int, c as int);
                lemma_distinct_rows(i as int, j as int, k as int, c as int);
                lemma_distinct_rows(j as int, i as int, k as int, c as int);
                assert(flat_index(i as int, k as int, c as int) == i as int * (c as int) + k);
                assert(flat_index(j as int, k as int, c as int) == j as int * (c as int) + k);
            }
            let a = self.data[i * c + k];
            let b = self.data[j * c + k];
            self.data.set(i * c + k, b);
            self.data.set(j * c + k, a);
            k += 1;
        }
        proof {
            lemma_row_bound(i as int, r as int, c as int);
            lemma_row_bound(j as int, r as int, c as int);
            assert forall|t: int, m: int|
                0 <= t < r as int && 0 <= m < c as int implies #[trigger] grid_of(
                self.data@,
                r as int,
                c as int,
            )[t][m] == grid_of(d0, r as int, c as int)[if t == i as int {
                j as int
            } else if t == j as int {
                i as int
            } else {
                t
            }][m] by {
                lemma_row_bound(t, r as int, c as int);
                assert(flat_index(t, m, c as int) == t * (c as int) + m);
                if t != i as int && t != j as int {
                    lemma_distinct_rows(t, i as int, m, c as int);
                    lemma_distinct_rows(t, j as int, m, c as int);
                    assert(self.data@[flat_index(t, m, c as int)] == d0[flat_index(t, m, c as int)]);
                }
            }
            assert(self@ =~~= old(self)@.update(i as int, old(self)@[j as int]).update(
                j as int,
                old(self)@[i as int],
            ));
        }
    }

    /// Multiplies every element of row `row` in place by the value `v`
    /// (given by its bit pattern); no validation of `v` — NaN and
    /// infinities propagate per floating-point semantics. An out-of-range
    /// row is a contract violation, not a recoverable error.
    pub fn mult_row(&mut self, row: usize, v: u32)
        requires
            old(self).wf(),
            (row as int) < old(self).spec_rows(),
        ensures
            final(self).wf(),
            final(self).spec_rows() == old(self).spec_rows(),
            final(self).spec_cols() == old(self).spec_cols(),
            final(self)@ == old(self)@.update(
                row as int,
                scaled_row(old(self)@[row as int], v),
            ),
    {
        let ghost d0 = self.data@;
        let c = self.cols;
        let r = self.rows;
        let total = self.data.len();
        let mut k: usize = 0;
        while k < c
            invariant
                self.rows == r,
                self.cols == c,
                self.wf(),
                (row as int) < r as int,
                d0 == old(self).data@,
                self.data@.len() == d0.len(),
                self.data@.len() == total as int,
                k <= c,
                forall|m: int|
                    0 <= m < k ==> self.data@[#[trigger] flat_index(row as int, m, c as int)]
                        == mul_single(d0[flat_index(row as int, m, c as int)], v),
                forall|n: int|
                    0 <= n < d0.len() && !(row as int * (c as int) <= n < row as int * (c as int)
                        + k) ==> #[trigger] self.data@[n] == d0[n],
            decreases c - k,
        {
            proof {
                lemma_row_bound(row as int, r as int, c as int);
                assert(flat_index(row as int, k as int, c as int) == row as int * (c as int) + k);
            }
            let a = self.data[row * c + k];
            self.data.set(row * c + k, mul_bits(a, v));
            k += 1;
        }
        proof {
            lemma_row_bound(row as int, r as int, c as int);
            assert forall|t: int, m: int|
                0 <= t < r as int && 0 <= m < c as int && t != row as int implies #[trigger] self.data@[flat_index(
                t,
                m,
                c as int,
            )] == d0[flat_index(t, m, c as int)] by {
                lemma_row_bound(t, r as int, c as int);
                lemma_distinct_rows(t, row as int, m, c as int);
                assert(flat_index(t, m, c as int) == t * (c as int) + m);
            }
            assert(self@ =~~= old(self)@.update(row as int, scaled_row(old(self)@[row as int], v)));
        }
    }

    /// Adds row `from` to row `to`, element by element: for each column
    /// `j`, `to[j] += from[j]`. With `to == from` this doubles every
    /// element of that row. Out-of-range indices are a contract violation,
    /// not a recoverable error.
    pub fn add_row(&mut self, to: usize, from: usize)
        requires
            old(self).wf(),
            (to as int) < old(self).spec_rows(),
            (from as int) < old(self).spec_rows(),
        ensures
            final(self).wf(),
            final(self).spec_rows() == old(self).spec_rows(),
            final(self).spec_cols() == old(self).spec_cols(),
            final(self)@ == old(self)@.update(
                to as int,
                summed_row(old(self)@[to as int], old(self)@[from as int]),
            ),
    {
        let ghost d0 = self.data@;
        let c = self.cols;
        let r = self.rows;
        let total = self.data.len();
        let mut k: usize = 0;
        while k < c
            invariant
                self.rows == r,
                self.cols == c,
                self.wf(),
                (to as int) < r as int,
                (from as int) < r as int,
                d0 == old(self).data@,
                self.data@.len() == d0.len(),
                self.data@.len() == total as int,
                k <= c,
                forall|m: int|
                    0 <= m < k ==> self.data@[#[trigger] flat_index(to as int, m, c as int)]
                        == add_single(
                        d0[flat_index(to as int, m, c as int)],
                        d0[flat_index(from as int, m, c as int)],
                    ),
                forall|n: int|
                    0 <= n < d0.len() && !(to as int * (c as int) <= n < to as int * (c as int)
                        + k) ==> #[trigger] self.data@[n] == d0[n],
            decreases c - k,
        {
            proof {
                lemma_row_bound(to as int, r as int, c as int);
                lemma_row_bound(from as int, r as int, c as int);
                assert(flat_index(to as int, k as int, c as int) == to as int * (c as int) + k);
                assert(flat_index(from as int, k as int, c as int) == from as int * (c as int) + k);
                if to != from {
                    lemma_distinct_rows(from as int, to as int, k as int, c as int);
                }
                assert(self.data@[flat_index(from as int, k as int, c as int)] == d0[flat_index(
                    from as int,
                    k as int,
                    c as int,
                )]);
            }
            let a = self.data[to * c + k];
            let b = self.data[from * c + k];
            self.data.set(to * c + k, add_bits(a, b));
            k += 1;
        }
        proof {
            lemma_row_bound(to as int, r as int, c as int);
            assert forall|t: int, m: int|
                0 <= t < r as int && 0 <= m < c as int && t != to as int implies #[trigger] self.data@[flat_index(
                t,
                m,
                c as int,
            )] == d0[flat_index(t, m, c as int)] by {
                lemma_row_bound(t, r as int, c as int);
                lemma_distinct_rows(t, to as int, m, c as int);
                assert(flat_index(t, m, c as int) == t * (c as int) + m);
            }
            assert(self@ =~~= old(self)@.update(
                to as int,
                summed_row(old(self)@[to as int], old(self)@[from as int]),
            ));
        }
    }
}

/// The data tokens of a matrix text: everything after the two header
/// tokens.
pub open spec fn data_tokens(s: Seq<char>) -> Seq<Seq<char>> {
    tokens_of(s).skip(2)
}

/// Every data token is a real-number token.
pub open spec fn all_elements_ok(s: Seq<char>) -> bool {
    forall|k: int|
        0 <= k < data_tokens(s).len() ==> single_of_text(#[trigger] data_tokens(s)[k]) is Some
}

/// The values of the data tokens, in token order.
pub open spec fn parsed_elements(s: Seq<char>) -> Seq<u32> {
    Seq::new(data_tokens(s).len(), |k: int| single_of_text(data_tokens(s)[k])->Some_0)
}

/// What parsing a matrix text yields: the declared row count, the declared
/// column count and the element values, or the first error in the order
/// the text is examined — a bad header, then a bad element, then a count
/// that does not match `rows * cols`.
pub open spec fn parse_spec(s: Seq<char>) -> Result<(usize, usize, Seq<u32>), MatrixError> {
    if tokens_of(s).len() < 2 || usize_of_token(tokens_of(s)[0]) is None || usize_of_token(
        tokens_of(s)[1],
    ) is None {
        Err(MatrixError::MalformedHeader)
    } else if !all_elements_ok(s) {
        Err(MatrixError::MalformedElement)
    } else if data_tokens(s).len() != usize_of_token(tokens_of(s)[0])->Some_0 * usize_of_token(
        tokens_of(s)[1],
    )->Some_0 {
        Err(MatrixError::ElementCountMismatch)
    } else {
        Ok(
            (
                usize_of_token(tokens_of(s)[0])->Some_0,
                usize_of_token(tokens_of(s)[1])->Some_0,
                parsed_elements(s),
            ),
        )
    }
}

/// The text of one row's entries: each value's rendering followed by one
/// space.
pub open spec fn entries_text(r: Seq<u32>) -> Seq<char>
    decreases r.len(),
{
    if r.len() == 0 {
        Seq::empty()
    } else {
        text_of_single(r[0]) + seq![' '] + entries_text(r.drop_first())
    }
}

/// The text of one row: `[ `, the entries, then `]` and a newline.
pub open spec fn row_text(r: Seq<u32>) -> Seq<char> {
    seq!['[', ' '] + entries_text(r) + seq![']', '\n']
}

/// The text of a whole matrix: one row line per row, rows in order.
pub open spec fn display_text(m: Seq<Seq<u32>>) -> Seq<char>
    decreases m.len(),
{
    if m.len() == 0 {
        Seq::empty()
    } else {
        row_text(m[0]) + display_text(m.drop_first())
    }
}

pub(crate) proof fn lemma_entries_text_push(r: Seq<u32>, x: u32)
    ensures
        entries_text(r.push(x)) == entries_text(r) + text_of_single(x) + seq![' '],
    decreases r.len(),
{
    if r.len() == 0 {
        assert(r.push(x)[0] == x);
        assert(r.push(x).drop_first() =~= r);
        assert(entries_text(r.push(x)) == text_of_single(x) + seq![' '] + entries_text(r));
        assert(entries_text(r) == Seq::<char>::empty());
        assert(entries_text(r.push(x)) =~= entries_text(r) + text_of_single(x) + seq![' ']);
    } else {
        assert(r.push(x)[0] == r[0]);
        assert(r.push(x).drop_first() =~= r.drop_first().push(x));
        lemma_entries_text_push(r.drop_first(), x);
        assert(entries_text(r.push(x)) == text_of_single(r[0]) + seq![' '] + entries_text(
            r.drop_first().push(x),
        ));
        assert(entries_text(r) == text_of_single(r[0]) + seq![' '] + entries_text(r.drop_first()));
        assert(entries_text(r.push(x)) =~= entries_text(r) + text_of_single(x) + seq![' ']);
    }
}

pub(crate) proof fn lemma_display_text_push(m: Seq<Seq<u32>>, r: Seq<u32>)
    ensures
        display_text(m.push(r)) == display_text(m) + row_text(r),
    decreases m.len(),
{
    if m.len() == 0 {
        assert(m.push(r)[0] == r);
        assert(m.push(r).drop_first() =~= m);
        assert(display_text(m.push(r)) == row_text(r) + display_text(m));
        assert(display_text(m) == Seq::<char>::empty());
        assert(display_text(m.push(r)) =~= display_text(m) + row_text(r));
    } else {
        assert(m.push(r)[0] == m[0]);
        assert(m.push(r).drop_first() =~= m.drop_first().push(r));
        lemma_display_text_push(m.drop_first(), r);
        assert(display_text(m.push(r)) == row_text(m[0]) + display_text(m.drop_first().push(r)));
        assert(display_text(m) == row_text(m[0]) + display_text(m.drop_first()));
        assert(display_text(m.push(r)) =~= display_text(m) + row_text(r));
    }
}

/// Parsing is complete: a text whose tokens are two integers `R` and `C`
/// followed by exactly `R * C` real-number tokens parses to an `R` by `C`
/// matrix, and element `(i, j)` is the value of data token `i * C + j` —
/// row 0 left to right, then row 1, and so on.
pub proof fn lemma_parse_complete(s: Seq<char>)
    requires
        tokens_of(s).len() >= 2,
        usize_of_token(tokens_of(s)[0]) is Some,
        usize_of_token(tokens_of(s)[1]) is Some,
        all_elements_ok(s),
        tokens_of(s).len() - 2 == usize_of_token(tokens_of(s)[0])->Some_0 as int * usize_of_token(
            tokens_of(s)[1],
        )->Some_0 as int,
    ensures
        parse_spec(s) is Ok,
        (parse_spec(s)->Ok_0).0 == usize_of_token(tokens_of(s)[0])->Some_0,
        (parse_spec(s)->Ok_0).1 == usize_of_token(tokens_of(s)[1])->Some_0,
        forall|i: int, j: int|
            0 <= i < (parse_spec(s)->Ok_0).0 as int && 0 <= j < (parse_spec(s)->Ok_0).1 as int
                ==> #[trigger] grid_of(
                (parse_spec(s)->Ok_0).2,
                (parse_spec(s)->Ok_0).0 as int,
                (parse_spec(s)->Ok_0).1 as int,
            )[i][j] == single_of_text(tokens_of(s)[2 + flat_index(i, j, (parse_spec(s)->Ok_0).1 as int)])->Some_0,
{
    let rr = usize_of_token(tokens_of(s)[0])->Some_0 as int;
    let cc = usize_of_token(tokens_of(s)[1])->Some_0 as int;
    assert(data_tokens(s).len() == tokens_of(s).len() - 2);
    assert(parse_spec(s) is Ok);
    assert forall|i: int, j: int| 0 <= i < rr && 0 <= j < cc implies #[trigger] grid_of(
        (parse_spec(s)->Ok_0).2,
        rr,
        cc,
    )[i][j] == single_of_text(tokens_of(s)[2 + flat_index(i, j, cc)])->Some_0 by {
        lemma_row_bound(i, rr, cc);
        assert(flat_index(i, j, cc) == i * cc + j);
        assert(data_tokens(s)[i * cc + j] == tokens_of(s)[2 + flat_index(i, j, cc)]);
    }
}

impl Matrix {
    /// Builds a matrix from text: two integer tokens — the row count and
    /// the column count — followed by exactly `rows * cols` real-number
    /// tokens in row-major order, all separated by arbitrary whitespace.
    /// Never yields a partially built matrix: the result is a matrix of
    /// exactly the declared shape, or the first error the text shows.
    pub fn from_str(s: &str) -> (res: Result<Matrix, MatrixError>)
        requires
            s@.len() < 0x2000_0000,
        ensures
            match res {
                Ok(m) => {
                    &&& parse_spec(s@) is Ok
                    &&& m.wf()
                    &&& m.spec_rows() == (parse_spec(s@)->Ok_0).0 as int
                    &&& m.spec_cols() == (parse_spec(s@)->Ok_0).1 as int
                    &&& m@ == grid_of(
                        (parse_spec(s@)->Ok_0).2,
                        (parse_spec(s@)->Ok_0).0 as int,
                        (parse_spec(s@)->Ok_0).1 as int,
                    )
                },
                Err(e) => parse_spec(s@) is Err && parse_spec(s@)->Err_0 == e,
            },
    {
        let toks = tokenize(s);
        if toks.len() < 2 {
            return Err(MatrixError::MalformedHeader);
        }
        let rr_opt = parse_usize(toks[0].as_str());
        let cc_opt = parse_usize(toks[1].as_str());
        proof {
            assert(toks.deep_view()[0] == toks@[0]@);
            assert(toks.deep_view()[1] == toks@[1]@);
        }
        let rr = match rr_opt {
            Some(v) => v,
            None => {
                return Err(MatrixError::MalformedHeader);
            },
        };
        let cc = match cc_opt {
            Some(v) => v,
            None => {
                return Err(MatrixError::MalformedHeader);
            },
        };
        let mut data: Vec<u32> = Vec::new();
        let mut k: usize = 2;
        let n = toks.len();
        while k < n
            invariant
                s@.len() < 0x2000_0000,
                toks.deep_view() == tokens_of(s@),
                n == toks@.len(),
                n >= 2,
                2 <= k <= n,
                usize_of_token(tokens_of(s@)[0]) == Some(rr),
                usize_of_token(tokens_of(s@)[1]) == Some(cc),
                data@.len() == k - 2,
                forall|m: int|
                    0 <= m < k - 2 ==> single_of_text(#[trigger] data_tokens(s@)[m]) is Some,
                forall|m: int|
                    0 <= m < k - 2 ==> data@[m] == single_of_text(
                        #[trigger] data_tokens(s@)[m],
                    )->Some_0,
            decreases n - k,
        {
            proof {
                assert(toks.deep_view()[k as int] == toks@[k as int]@);
                assert(data_tokens(s@)[k - 2] == tokens_of(s@)[k as int]);
                crate::text::lemma_tokens_of_lengths(s@, k as int);
            }
            match parse_single(toks[k].as_str()) {
                Some(b) => {
                    data.push(b);
                },
                None => {
                    proof {
                        assert(single_of_text(data_tokens(s@)[k - 2]) is None);
                        assert(!all_elements_ok(s@));
                    }
                    return Err(MatrixError::MalformedElement);
                },
            }
            k += 1;
        }
        proof {
            assert(data_tokens(s@).len() == n - 2);
            assert(all_elements_ok(s@));
        }
        let count_ok: bool = match rr.checked_mul(cc) {
            Some(p) => data.len() == p,
            None => false,
        };
        if !count_ok {
            return Err(MatrixError::ElementCountMismatch);
        }
        proof {
            assert(data@ =~= parsed_elements(s@));
        }
        Ok(Matrix { data, rows: rr, cols: cc })
    }

    /// Renders the matrix as text, one line per row: `[ `, each element's
    /// default rendering followed by a space, then `]` and a newline.
    /// This format is for reading, not for parsing back.
    pub fn to_string(&self) -> (out: String)
        requires
            self.wf(),
        ensures
            out@ == display_text(self@),
    {
        let mut out = String::new();
        let r = self.rows;
        let c = self.cols;
        let total = self.data.len();
        let mut i: usize = 0;
        proof {
            assert(self@.take(0) =~= Seq::<Seq<u32>>::empty());
        }
        while i < r
            invariant
                self.rows == r,
                self.cols == c,
                self.wf(),
                self.data@.len() == total as int,
                i <= r,
                out@ == display_text(self@.take(i as int)),
            decreases r - i,
        {
            let mut line = String::from_str("[ ");
            proof {
                reveal_strlit("[ ");
                assert(line@ =~= seq!['[', ' ']);
                assert(self@[i as int].take(0) =~= Seq::<u32>::empty());
                assert(line@ =~= seq!['[', ' '] + entries_text(self@[i as int].take(0)));
            }
            let mut j: usize = 0;
            while j < c
                invariant
                    self.rows == r,
                    self.cols == c,
                    self.wf(),
                    self.data@.len() == total as int,
                    i < r,
                    j <= c,
                    line@ == seq!['[', ' '] + entries_text(self@[i as int].take(j as int)),
                decreases c - j,
            {
                proof {
                    lemma_row_bound(i as int, r as int, c as int);
                    assert(flat_index(i as int, j as int, c as int) == i as int * (c as int) + j);
                    assert(self@[i as int][j as int] == self.data@[flat_index(
                        i as int,
                        j as int,
                        c as int,
                    )]);
                }
                let e = format_single(self.data[i * c + j]);
                line.append(e.as_str());
                line.append(" ");
                proof {
                    reveal_strlit(" ");
                    assert(" "@ =~= seq![' ']);
                    assert(self@[i as int].take(j as int + 1) =~= self@[i as int].take(
                        j as int,
                    ).push(self@[i as int][j as int]));
                    lemma_entries_text_push(self@[i as int].take(j as int), self@[i as int][j as int]);
                    assert(line@ =~= seq!['[', ' '] + entries_text(self@[i as int].take(j as int + 1)));
                }
                j += 1;
            }
            line.append("]\n");
            out.append(line.as_str());
            proof {
                reveal_strlit("]\n");
                assert("]\n"@ =~= seq![']', '\n']);
                assert(self@[i as int].take(c as int) =~= self@[i as int]);
                assert(line@ =~= row_text(self@[i as int]));
                lemma_display_text_push(self@.take(i as int), self@[i as int]);
                assert(self@.take(i as int + 1) =~= self@.take(i as int).push(self@[i as int]));
                assert(out@ =~= display_text(self@.take(i as int + 1)));
            }
            i += 1;
        }
        proof {
            assert(self@.take(r as int) =~= self@);
        }
        out
    }
}

} // verus!
