//! A dense matrix of machine integers in row-major order, with entrywise
//! addition and subtraction, multiplication, and a plain-text rendering.

use vstd::prelude::*;
use vstd::string::StringExecFns;

verus! {

/// A matrix of `row * col` integers, stored row by row.  `new_empty`
/// creates a matrix whose element store is still empty; every arithmetic
/// operation asks for a fully filled one.
#[derive(Debug)]
pub struct Matrix {
    /// Stores elements in row-major order.
    data: Vec<i64>,
    /// Number of rows.
    row: usize,
    /// Number of columns.
    col: usize,
}

impl Matrix {
    /// The number of rows.
    pub closed spec fn rows(self) -> int {
        self.row as int
    }

    /// The number of columns.
    pub closed spec fn cols(self) -> int {
        self.col as int
    }

    /// The elements, row by row.
    pub closed spec fn values(self) -> Seq<i64> {
        self.data@
    }

    /// The element store holds exactly one value per position.
    pub open spec fn wf(self) -> bool {
        self.values().len() == self.rows() * self.cols()
    }

    /// The element in row `i`, column `j`.
    pub open spec fn entry(self, i: int, j: int) -> i64 {
        self.values()[i * self.cols() + j]
    }

    /// The sum of the first `n` products of row `i` of `self` against
    /// column `j` of `rhs`, taken left to right.
    pub open spec fn dot(self, rhs: Matrix, i: int, j: int, n: int) -> int
        decreases n,
    {
        if n <= 0 {
            0
        } else {
            self.dot(rhs, i, j, n - 1) + self.entry(i, n - 1) * rhs.entry(n - 1, j)
        }
    }

    /// Creates a new matrix of `row` rows and `col` columns, and
    /// initializes the matrix with the elements in `values` in row-major
    /// order.
    pub fn new(row: usize, col: usize, values: &[i64]) -> (m: Matrix)
        requires
            row * col == values@.len(),
        ensures
            m.wf(),
            m.rows() == row,
            m.cols() == col,
            m.values() == values@,
    {
        Matrix { data: slice_to_vec(values), row, col }
    }

    /// Creates a new, empty matrix of `row` rows and `col` columns; its
    /// element store contains no element yet.
    pub fn new_empty(row: usize, col: usize) -> (m: Matrix)
        requires
            row * col <= usize::MAX,
        ensures
            m.rows() == row,
            m.cols() == col,
            m.values() == Seq::<i64>::empty(),
    {
        Matrix { row, col, data: Vec::with_capacity(row * col) }
    }

    /// Returns a shared reference to the element store.
    pub fn data(&self) -> (r: &Vec<i64>)
        ensures
            r@ == self.values(),
    {
        &self.data
    }

    /// Returns a mutable reference to the element store.
    pub fn mut_data(&mut self) -> (r: &mut Vec<i64>)
        ensures
            r@ == old(self).values(),
            final(self).values() == final(r)@,
            final(self).rows() == old(self).rows(),
            final(self).cols() == old(self).cols(),
    {
        &mut self.data
    }

    /// Returns the number of rows and columns in the first and second
    /// elements of the tuple, respectively.
    pub fn size(&self) -> (r: (usize, usize))
        ensures
            r.0 == self.rows(),
            r.1 == self.cols(),
    {
        (self.row, self.col)
    }

    /// Returns the sum of `self` and `rhs`, entry by entry.  The two
    /// matrices must have the same size, and every entrywise sum must fit
    /// the machine integers.
    pub fn add(&self, rhs: &Matrix) -> (m: Matrix)
        requires
            self.wf(),
            rhs.wf(),
            self.rows() == rhs.rows(),
            self.cols() == rhs.cols(),
            forall|k: int| 0 <= k < self.values().len()
                ==> i64::MIN <= #[trigger] self.values()[k] + rhs.values()[k] <= i64::MAX,
        ensures
            m.wf(),
            m.rows() == self.rows(),
            m.cols() == self.cols(),
            m.values().len() == self.values().len(),
            forall|k: int| 0 <= k < self.values().len()
                ==> #[trigger] m.values()[k] == self.values()[k] + rhs.values()[k],
    {
        let n = self.data.len();
        let mut result: Vec<i64> = Vec::new();
        let mut i: usize = 0;
        while i < n
            invariant
                i <= n,
                n == self.values().len(),
                self.wf(),
                rhs.wf(),
                self.rows() == rhs.rows(),
                self.cols() == rhs.cols(),
                forall|k: int| 0 <= k < self.values().len()
                    ==> i64::MIN <= #[trigger] self.values()[k] + rhs.values()[k] <= i64::MAX,
                result@.len() == i,
                forall|k: int| 0 <= k < i
                    ==> #[trigger] result@[k] == self.values()[k] + rhs.values()[k],
            decreases n - i,
        {
            result.push(self.data[i] + rhs.data[i]);
            i = i + 1;
        }
        Matrix { row: self.row, col: self.col, data: result }
    }

    /// Returns the subtraction of `rhs` from `self`, entry by entry, under
    /// the same conditions as addition.
    pub fn sub(&self, rhs: &Matrix) -> (m: Matrix)
        requires
            self.wf(),
            rhs.wf(),
            self.rows() == rhs.rows(),
            self.cols() == rhs.cols(),
            forall|k: int| 0 <= k < self.values().len()
                ==> i64::MIN <= #[trigger] self.values()[k] - rhs.values()[k] <= i64::MAX,
        ensures
            m.wf(),
            m.rows() == self.rows(),
            m.cols() == self.cols(),
            m.values().len() == self.values().len(),
            forall|k: int| 0 <= k < self.values().len()
                ==> #[trigger] m.values()[k] == self.values()[k] - rhs.values()[k],
    {
        let n = self.data.len();
        let mut result: Vec<i64> = Vec::new();
        let mut i: usize = 0;
        while i < n
            invariant
                i <= n,
                n == self.values().len(),
                self.wf(),
                rhs.wf(),
                self.rows() == rhs.rows(),
                self.cols() == rhs.cols(),
                forall|k: int| 0 <= k < self.values().len()
                    ==> i64::MIN <= #[trigger] self.values()[k] - rhs.values()[k] <= i64::MAX,
                result@.len() == i,
                forall|k: int| 0 <= k < i
                    ==> #[trigger] result@[k] == self.values()[k] - rhs.values()[k],
            decreases n - i,
        {
            result.push(self.data[i] - rhs.data[i]);
            i = i + 1;
        }
        Matrix { row: self.row, col: self.col, data: result }
    }
}

impl Matrix {
    /// Returns the matrix product of `self` by `rhs`.  The inner sizes
    /// must agree, an empty inner size is allowed only when the result is
    /// empty too, and every partial product and partial sum of the
    /// accumulation must fit the machine integers.
    pub fn mul(&self, rhs: &Matrix) -> (m: Matrix)
        requires
            self.wf(),
            rhs.wf(),
            self.cols() == rhs.rows(),
            self.rows() > 0 && rhs.cols() > 0 ==> self.cols() > 0,
            forall|i: int, j: int, n: int|
                0 <= i < self.rows() && 0 <= j < rhs.cols() && 0 < n <= self.cols()
                    ==> i64::MIN <= #[trigger] self.dot(*rhs, i, j, n) <= i64::MAX,
            forall|i: int, j: int, n: int|
                0 <= i < self.rows() && 0 <= j < rhs.cols() && 0 <= n < self.cols()
                    ==> i64::MIN <= #[trigger] (self.entry(i, n) * rhs.entry(n, j)) <= i64::MAX,
        ensures
            m.wf(),
            m.rows() == self.rows(),
            m.cols() == rhs.cols(),
            forall|i: int, j: int|
                0 <= i < self.rows() && 0 <= j < rhs.cols()
                    ==> #[trigger] m.entry(i, j) == self.dot(*rhs, i, j, self.cols()),
    {
        let arows = self.row;
        let acols = self.col;
        let bcols = rhs.col;
        let mut result: Vec<i64> = Vec::new();
        let mut i: usize = 0;
        while i < arows
            invariant
                i <= arows,
                arows == self.rows(),
                acols == self.cols(),
                bcols == rhs.cols(),
                self.wf(),
                rhs.wf(),
                self.cols() == rhs.rows(),
                self.rows() > 0 && rhs.cols() > 0 ==> self.cols() > 0,
                forall|a: int, b: int, n: int|
                    0 <= a < self.rows() && 0 <= b < rhs.cols() && 0 < n <= self.cols()
                        ==> i64::MIN <= #[trigger] self.dot(*rhs, a, b, n) <= i64::MAX,
                forall|a: int, b: int, n: int|
                    0 <= a < self.rows() && 0 <= b < rhs.cols() && 0 <= n < self.cols()
                        ==> i64::MIN <= #[trigger] (self.entry(a, n) * rhs.entry(n, b)) <= i64::MAX,
                result@.len() == i * rhs.cols(),
                forall|a: int, b: int|
                    0 <= a < i && 0 <= b < rhs.cols()
                        ==> #[trigger] result@[a * rhs.cols() + b] == self.dot(*rhs, a, b, self.cols()),
            decreases arows - i,
        {
            let mut j: usize = 0;
            while j < bcols
                invariant
                    i < arows,
                    j <= bcols,
                    arows == self.rows(),
                    acols == self.cols(),
                    bcols == rhs.cols(),
                    self.wf(),
                    rhs.wf(),
                    self.cols() == rhs.rows(),
                    rhs.cols() > 0 ==> self.cols() > 0,
                    forall|a: int, b: int, n: int|
                        0 <= a < self.rows() && 0 <= b < rhs.cols() && 0 < n <= self.cols()
                            ==> i64::MIN <= #[trigger] self.dot(*rhs, a, b, n) <= i64::MAX,
                    forall|a: int, b: int, n: int|
                        0 <= a < self.rows() && 0 <= b < rhs.cols() && 0 <= n < self.cols()
                            ==> i64::MIN <= #[trigger] (self.entry(a, n) * rhs.entry(n, b)) <= i64::MAX,
                    result@.len() == i * rhs.cols() + j,
                    forall|a: int, b: int|
                        0 <= a < i && 0 <= b < rhs.cols()
                            ==> #[trigger] result@[a * rhs.cols() + b] == self.dot(*rhs, a, b, self.cols()),
                    forall|b: int|
                        0 <= b < j
                            ==> #[trigger] result@[i as int * rhs.cols() + b] == self.dot(*rhs, i as int, b, self.cols()),
                decreases bcols - j,
            {
                proof {
                    assert((i as int) * (acols as int) + (acols as int) <= (arows as int) * (
                    acols as int)) by (nonlinear_arith)
                        requires
                            0 <= i as int && (i as int) < (arows as int),
                            0 <= acols as int;
                    assert((acols as int - 1) * (bcols as int) + (bcols as int) <= (acols as int)
                        * (bcols as int)) by (nonlinear_arith)
                        requires
                            0 <= acols as int,
                            0 <= bcols as int;
                }
                proof {
                    assert(self.data.len() == self.values().len());
                    assert(rhs.data.len() == rhs.values().len());
                    assert(self.values().len() <= usize::MAX);
                    assert(rhs.values().len() <= usize::MAX);
                    assert(self.values()[(i as int) * (acols as int)] == self.entry(i as int, 0));
                    assert(rhs.values()[j as int] == rhs.entry(0, j as int));
                    assert(i64::MIN <= self.entry(i as int, 0) * rhs.entry(0, j as int) <= i64::MAX);
                }
                let mut temp: i64 = self.data[i * acols] * rhs.data[j];
                let mut n: usize = 1;
                proof {
                    assert(self.dot(*rhs, i as int, j as int, 0) == 0);
                    assert(temp == self.dot(*rhs, i as int, j as int, 1));
                }
                while n < acols
                    invariant
                        i < arows,
                        j < bcols,
                        1 <= n <= acols,
                        arows == self.rows(),
                        acols == self.cols(),
                        bcols == rhs.cols(),
                        self.wf(),
                        rhs.wf(),
                        self.cols() == rhs.rows(),
                        forall|a: int, b: int, nn: int|
                            0 <= a < self.rows() && 0 <= b < rhs.cols() && 0 < nn <= self.cols()
                                ==> i64::MIN <= #[trigger] self.dot(*rhs, a, b, nn) <= i64::MAX,
                        forall|a: int, b: int, nn: int|
                            0 <= a < self.rows() && 0 <= b < rhs.cols() && 0 <= nn < self.cols()
                                ==> i64::MIN <= #[trigger] (self.entry(a, nn) * rhs.entry(nn, b))
                                <= i64::MAX,
                        temp == self.dot(*rhs, i as int, j as int, n as int),
                    decreases acols - n,
                {
                    proof {
                        assert((i as int) * (acols as int) + (n as int) < (arows as int) * (
                        acols as int)) by (nonlinear_arith)
                            requires
                                0 <= i as int && (i as int) < (arows as int),
                                0 <= n as int && (n as int) < (acols as int);
                        assert((n as int) * (bcols as int) + (j as int) < (acols as int) * (
                        bcols as int)) by (nonlinear_arith)
                            requires
                                0 <= n as int && (n as int) < (acols as int),
                                0 <= j as int && (j as int) < (bcols as int);
                    }
                    proof {
                        assert(self.data.len() == self.values().len());
                        assert(rhs.data.len() == rhs.values().len());
                        assert(self.values().len() <= usize::MAX);
                        assert(rhs.values().len() <= usize::MAX);
                        assert(self.values()[(i as int) * (acols as int) + (n as int)]
                            == self.entry(i as int, n as int));
                        assert(rhs.values()[(j as int) + (n as int) * (bcols as int)]
                            == rhs.entry(n as int, j as int));
                        assert(i64::MIN <= self.entry(i as int, n as int) * rhs.entry(
                            n as int, j as int) <= i64::MAX);
                        assert(i64::MIN <= self.dot(*rhs, i as int, j as int, n as int + 1)
                            <= i64::MAX);
                        assert(self.dot(*rhs, i as int, j as int, n as int + 1)
                            == self.dot(*rhs, i as int, j as int, n as int)
                            + self.entry(i as int, n as int) * rhs.entry(n as int, j as int));
                    }
                    temp = temp + self.data[i * acols + n] * rhs.data[j + n * bcols];
                    n = n + 1;
                }
                result.push(temp);
                proof {
                    assert forall|a: int, b: int| 0 <= a < i && 0 <= b < rhs.cols() implies #[trigger] result@[a
                        * rhs.cols() + b] == self.dot(*rhs, a, b, self.cols()) by {
                        assert(a * (bcols as int) + b < (i as int) * (bcols as int)) by (nonlinear_arith)
                            requires
                                0 <= a,
                                a < i as int,
                                0 <= b,
                                b < bcols as int;
                    }
                    assert(forall|b: int|
                        0 <= b < j
                            ==> #[trigger] result@[i as int * rhs.cols() + b] == self.dot(
                            *rhs, i as int, b, self.cols()));
                    assert(result@[i as int * rhs.cols() + j as int] == temp);
                }
                j = j + 1;
            }
            proof {
                assert((i as int) * (bcols as int) + (bcols as int) == (i as int + 1) * (
                bcols as int)) by (nonlinear_arith);
            }
            i = i + 1;
        }
        Matrix { row: arows, col: bcols, data: result }
    }
}

/// The character of one decimal digit.
pub open spec fn digit_char(d: nat) -> char {
    ((d + 48) as u8) as char
}

/// The decimal digits of a nonnegative number, most significant first.
pub open spec fn dec_digits(n: nat) -> Seq<char>
    decreases n,
{
    if n < 10 {
        seq![digit_char(n)]
    } else {
        dec_digits(n / 10).push(digit_char(n % 10))
    }
}

/// The decimal text of an integer: a minus sign before the digits of its
/// magnitude when it is negative.
pub open spec fn int_text(v: int) -> Seq<char> {
    if v < 0 {
        seq!['-'] + dec_digits((-v) as nat)
    } else {
        dec_digits(v as nat)
    }
}

/// The text of row `i` from column `j` on: each element followed by a
/// single space, except no space following the last element of the row,
/// and a line break at the end.
pub open spec fn row_text(m: Matrix, i: int, j: int) -> Seq<char>
    decreases m.cols() - j,
{
    if j < m.cols() {
        int_text(m.entry(i, j) as int) + (if j + 1 < m.cols() {
            seq![' ']
        } else {
            Seq::empty()
        }) + row_text(m, i, j + 1)
    } else {
        seq!['\n']
    }
}

/// The text of the rows from `i` down, each on its own line.
pub open spec fn rows_text(m: Matrix, i: int) -> Seq<char>
    decreases m.rows() - i,
{
    if i < m.rows() {
        row_text(m, i, 0) + rows_text(m, i + 1)
    } else {
        Seq::empty()
    }
}

/// The whole matrix as text: each row on a separate line, elements
/// separated by single spaces, no empty lines before or after any row.
pub open spec fn matrix_text(m: Matrix) -> Seq<char> {
    rows_text(m, 0)
}

/// Appends the character of one decimal digit.
fn push_digit(out: &mut String, d: u64)
    requires
        d < 10,
    ensures
        final(out)@ == old(out)@ + seq![digit_char(d as nat)],
{
    if d == 0 {
        out.append("0");
        proof {
            reveal_strlit("0");
            assert(out@ =~= old(out)@ + seq![digit_char(d as nat)]);
        }
    } else if d == 1 {
        out.append("1");
        proof {
            reveal_strlit("1");
            assert(out@ =~= old(out)@ + seq![digit_char(d as nat)]);
        }
    } else if d == 2 {
        out.append("2");
        proof {
            reveal_strlit("2");
            assert(out@ =~= old(out)@ + seq![digit_char(d as nat)]);
        }
    } else if d == 3 {
        out.append("3");
        proof {
            reveal_strlit("3");
            assert(out@ =~= old(out)@ + seq![digit_char(d as nat)]);
        }
    } else if d == 4 {
        out.append("4");
        proof {
            reveal_strlit("4");
            assert(out@ =~= old(out)@ + seq![digit_char(d as nat)]);
        }
    } else if d == 5 {
        out.append("5");
        proof {
            reveal_strlit("5");
            assert(out@ =~= old(out)@ + seq![digit_char(d as nat)]);
        }
    } else if d == 6 {
        out.append("6");
        proof {
            reveal_strlit("6");
            assert(out@ =~= old(out)@ + seq![digit_char(d as nat)]);
        }
    } else if d == 7 {
        out.append("7");
        proof {
            reveal_strlit("7");
            assert(out@ =~= old(out)@ + seq![digit_char(d as nat)]);
        }
    } else if d == 8 {
        out.append("8");
        proof {
            reveal_strlit("8");
            assert(out@ =~= old(out)@ + seq![digit_char(d as nat)]);
        }
    } else {
        out.append("9");
        proof {
            reveal_strlit("9");
            assert(out@ =~= old(out)@ + seq![digit_char(d as nat)]);
        }
    }
}

/// The digit characters of a stack of digits, last pushed first.
spec fn rev_chars(ds: Seq<u8>) -> Seq<char>
    decreases ds.len(),
{
    if ds.len() == 0 {
        Seq::empty()
    } else {
        seq![digit_char(ds.last() as nat)] + rev_chars(ds.drop_last())
    }
}

/// Appends the decimal digits of a nonnegative number.
fn push_udec(out: &mut String, v: u64)
    ensures
        final(out)@ == old(out)@ + dec_digits(v as nat),
{
    let mut ds: Vec<u8> = Vec::new();
    let mut n: u64 = v;
    if n == 0 {
        push_digit(out, 0);
        return ;
    }
    proof {
        assert(rev_chars(Seq::<u8>::empty()) =~= Seq::<char>::empty());
    }
    while n > 0
        invariant
            dec_digits(v as nat) == (if n > 0 {
                dec_digits(n as nat) + rev_chars(ds@)
            } else {
                rev_chars(ds@)
            }),
            forall|k: int| 0 <= k < ds@.len() ==> #[trigger] ds@[k] < 10,
        decreases n,
    {
        let ghost ds0 = ds@;
        let d: u8 = (n % 10) as u8;
        ds.push(d);
        proof {
            assert(ds@.drop_last() =~= ds0);
            assert(rev_chars(ds@) == seq![digit_char(d as nat)] + rev_chars(ds0));
            if n >= 10 {
                assert(dec_digits(n as nat) == dec_digits(n as nat / 10).push(digit_char(
                    n as nat % 10)));
                assert(dec_digits(n as nat / 10).push(digit_char(n as nat % 10))
                    =~= dec_digits(n as nat / 10) + seq![digit_char(n as nat % 10)]);
            }
        }
        n = n / 10;
    }
    while ds.len() != 0
        invariant
            forall|k: int| 0 <= k < ds@.len() ==> #[trigger] ds@[k] < 10,
            old(out)@ + dec_digits(v as nat) == out@ + rev_chars(ds@),
        decreases ds@.len(),
    {
        let ghost ds1 = ds@;
        let d = ds.pop().unwrap();
        push_digit(out, d as u64);
        proof {
            assert(ds@ =~= ds1.drop_last());
            assert(rev_chars(ds1) == seq![digit_char(d as nat)] + rev_chars(ds@));
            assert(old(out)@ + dec_digits(v as nat) =~= out@ + rev_chars(ds@));
        }
    }
    proof {
        assert(rev_chars(ds@) =~= Seq::<char>::empty());
        assert(out@ =~= old(out)@ + dec_digits(v as nat));
    }
}

/// Appends the decimal text of a machine integer.
fn push_int(out: &mut String, v: i64)
    ensures
        final(out)@ == old(out)@ + int_text(v as int),
{
    if v < 0 {
        out.append("-");
        proof {
            reveal_strlit("-");
            assert(out@ =~= old(out)@ + seq!['-']);
        }
        let m: u64 = (-(v as i128)) as u64;
        push_udec(out, m);
        proof {
            assert(m as nat == (-(v as int)) as nat);
            assert(out@ =~= old(out)@ + int_text(v as int));
        }
    } else {
        push_udec(out, v as u64);
        proof {
            assert(v as u64 as nat == v as int as nat);
            assert(out@ =~= old(out)@ + int_text(v as int));
        }
    }
}

impl Matrix {
    /// The matrix rendered as text: each row on a separate line with no
    /// empty lines before or after any row, and on each row each element
    /// followed by a single space, except no space following the last
    /// element of the row.
    pub fn to_display_string(&self) -> (r: String)
        requires
            self.wf(),
        ensures
            r@ == matrix_text(*self),
    {
        let mut out = String::new();
        let mut i: usize = 0;
        while i < self.row
            invariant
                i <= self.rows(),
                self.wf(),
                out@ + rows_text(*self, i as int) == matrix_text(*self),
            decreases self.rows() - i,
        {
            proof {
                assert(rows_text(*self, i as int) == row_text(*self, i as int, 0) + rows_text(
                    *self, i as int + 1));
            }
            let mut j: usize = 0;
            while j < self.col
                invariant
                    i < self.rows(),
                    j <= self.cols(),
                    self.wf(),
                    out@ + row_text(*self, i as int, j as int) + rows_text(*self, i as int + 1)
                        == matrix_text(*self),
                decreases self.cols() - j,
            {
                let ghost out0 = out@;
                proof {
                    assert(self.data.len() == self.values().len());
                    assert((i as int) * (self.cols()) + (j as int) < (self.rows()) * (
                    self.cols())) by (nonlinear_arith)
                        requires
                            0 <= i as int,
                            (i as int) < self.rows(),
                            0 <= j as int,
                            (j as int) < self.cols(),
                    ;
                }
                let e: i64 = self.data[i * self.col + j];
                proof {
                    assert(e == self.entry(i as int, j as int));
                }
                push_int(&mut out, e);
                if j + 1 < self.col {
                    out.append(" ");
                    proof {
                        reveal_strlit(" ");
                        assert(out@ =~= out0 + int_text(e as int) + seq![' ']);
                    }
                }
                proof {
                    assert(row_text(*self, i as int, j as int) == int_text(self.entry(
                        i as int, j as int)as int) + (if j as int + 1 < self.cols() {
                        seq![' ']
                    } else {
                        Seq::<char>::empty()
                    }) + row_text(*self, i as int, j as int + 1));
                    assert(out@ + row_text(*self, i as int, j as int + 1) + rows_text(
                        *self, i as int + 1) =~= matrix_text(*self));
                }
                j = j + 1;
            }
            let ghost out1 = out@;
            out.append("\n");
            proof {
                reveal_strlit("\n");
                assert(out@ =~= out1 + seq!['\n']);
                assert(row_text(*self, i as int, self.cols()) =~= seq!['\n']);
                assert(out@ + rows_text(*self, i as int + 1) =~= matrix_text(*self));
            }
            i = i + 1;
        }
        proof {
            assert(rows_text(*self, self.rows()) =~= Seq::<char>::empty());
            assert(out@ =~= matrix_text(*self));
        }
        out
    }
}

impl PartialEq for Matrix {
    /// Two matrices are equal when their sizes and their element stores
    /// agree.
    fn eq(&self, other: &Matrix) -> (r: bool) {
        let de: bool = self.data == other.data;
        proof {
            if de {
                assert(self.data@ =~= other.data@);
            }
        }
        self.row == other.row && self.col == other.col && de
    }
}

impl vstd::std_specs::cmp::PartialEqSpecImpl for Matrix {
    open spec fn obeys_eq_spec() -> bool {
        true
    }

    open spec fn eq_spec(&self, other: &Matrix) -> bool {
        self.rows() == other.rows() && self.cols() == other.cols() && self.values()
            == other.values()
    }
}

/// Copies a slice into a fresh vector.
fn slice_to_vec(values: &[i64]) -> (v: Vec<i64>)
    ensures
        v@ == values@,
{
    let mut v: Vec<i64> = Vec::new();
    let mut i: usize = 0;
    while i < values.len()
        invariant
            i <= values@.len(),
            v@ == values@.subrange(0, i as int),
        decreases values@.len() - i,
    {
        v.push(values[i]);
        proof {
            assert(v@ =~= values@.subrange(0, i + 1));
        }
        i = i + 1;
    }
    proof {
        assert(v@ =~= values@);
    }
    v
}

} // verus!
