//! NPY output: a header of fixed size that tells the shape, then the values row after row.
//!
//! The number of rows is known at the end only. As the header has the same size whatever the shape,
//! it is written once with no rows, and written over when all rows are out.

use vstd::arithmetic::power::pow;
use vstd::prelude::*;
use vstd::string::StringExecFns;
use vstd::utf8::{encode_utf8, is_ascii_chars, is_ascii_chars_encode_utf8};

use crate::little_endian::{
    le_bytes, le_bytes_len, le_reads_back, le_value, pow256_values, push_le,
};
use crate::number::{decimal, decimal_is_digits, decimal_width, to_decimal};

verus! {

/// The size of the header in bytes.
pub const HEADER_LEN: usize = 128;

/// What stands in front of the header's text: the magic bytes, the version, and the length of the
/// text.
pub const PREAMBLE_LEN: usize = 10;

/// The text that tells the type and the shape of the values.
pub open spec fn header_dict(n_rows: u64, hidden_dim: usize) -> Seq<char> {
    "{'descr': '<f4', 'fortran_order': False, 'shape': ("@ + decimal(n_rows as nat) + ", "@
        + decimal(hidden_dim as nat) + "), }"@
}

/// The magic bytes and the version of the format.
pub open spec fn npy_magic() -> Seq<u8> {
    seq![0x93u8, 0x4e, 0x55, 0x4d, 0x50, 0x59, 1, 0]
}

/// The header: magic bytes, version, the length of the text, and the text, which is padded with
/// blanks and ends with a line feed.
pub open spec fn header_bytes(n_rows: u64, hidden_dim: usize) -> Seq<u8> {
    let dict = encode_utf8(header_dict(n_rows, hidden_dim));
    npy_magic() + le_bytes((HEADER_LEN - PREAMBLE_LEN) as nat, 2) + dict + Seq::new(
        (HEADER_LEN - PREAMBLE_LEN - dict.len() - 1) as nat,
        |i: int| 0x20u8,
    ) + seq![0x0au8]
}

/// The bytes of values, each given by its bits.
pub open spec fn value_bytes(bits: Seq<u32>) -> Seq<u8>
    decreases bits.len(),
{
    if bits.len() == 0 {
        Seq::empty()
    } else {
        value_bytes(bits.drop_last()) + le_bytes(bits.last() as nat, 4)
    }
}

proof fn dict_fits(n_rows: u64, hidden_dim: usize)
    ensures
        is_ascii_chars(header_dict(n_rows, hidden_dim)),
        encode_utf8(header_dict(n_rows, hidden_dim)).len() == header_dict(n_rows, hidden_dim).len(),
        header_dict(n_rows, hidden_dim).len() <= 97,
{
    reveal_strlit("{'descr': '<f4', 'fortran_order': False, 'shape': (");
    reveal_strlit(", ");
    reveal_strlit("), }");
    assert(pow(10, 20) == 100_000_000_000_000_000_000) by {
        reveal_with_fuel(pow, 21);
    }
    decimal_width(n_rows as nat, 20);
    decimal_width(hidden_dim as nat, 20);
    decimal_is_digits(n_rows as nat);
    decimal_is_digits(hidden_dim as nat);
    let a = "{'descr': '<f4', 'fortran_order': False, 'shape': ("@;
    let b = decimal(n_rows as nat);
    let c = ", "@;
    let d = decimal(hidden_dim as nat);
    let e = "), }"@;
    let dict = header_dict(n_rows, hidden_dim);
    assert forall|i: int| 0 <= i < dict.len() implies '\0' <= #[trigger] dict[i] <= '\u{7f}' by {
        let n1 = a.len() as int;
        let n2 = n1 + b.len();
        let n3 = n2 + c.len();
        let n4 = n3 + d.len();
        if i < n1 {
            assert(dict[i] == a[i]);
        } else if i < n2 {
            assert(dict[i] == b[i - n1]);
        } else if i < n3 {
            assert(dict[i] == c[i - n2]);
        } else if i < n4 {
            assert(dict[i] == d[i - n3]);
        } else {
            assert(dict[i] == e[i - n4]);
        }
    }
    is_ascii_chars_encode_utf8(dict);
}

/// The header has the same size whatever the shape, so it can be written over.
pub proof fn header_has_fixed_size(n_rows: u64, hidden_dim: usize)
    ensures
        header_bytes(n_rows, hidden_dim).len() == HEADER_LEN,
{
    dict_fits(n_rows, hidden_dim);
    le_bytes_len((HEADER_LEN - PREAMBLE_LEN) as nat, 2);
}

/// Makes the header for values of the given shape.
pub fn npy_header(n_rows: u64, hidden_dim: usize) -> (r: Vec<u8>)
    ensures
        r@ == header_bytes(n_rows, hidden_dim),
        r@.len() == HEADER_LEN,
{
    let mut dict = "{'descr': '<f4', 'fortran_order': False, 'shape': (".to_owned();
    dict.append(to_decimal(n_rows).as_str());
    dict.append(", ");
    dict.append(to_decimal(hidden_dim as u64).as_str());
    dict.append("), }");
    assert(dict@ == header_dict(n_rows, hidden_dim));
    proof {
        dict_fits(n_rows, hidden_dim);
        header_has_fixed_size(n_rows, hidden_dim);
    }
    let text = dict.as_str().as_bytes();
    let len: usize = text.len();
    let mut out: Vec<u8> = vec![0x93u8, 0x4e, 0x55, 0x4d, 0x50, 0x59, 1, 0];
    assert(out@ == npy_magic());
    push_le(&mut out, (HEADER_LEN - PREAMBLE_LEN) as u64, 2);
    let ghost front = out@;
    for i in 0..len
        invariant
            len == text@.len(),
            out@ == front + text@.take(i as int),
    {
        out.push(text[i]);
        assert(out@ == front + text@.take(i + 1));
    }
    assert(text@.take(len as int) == text@);
    let pad: usize = HEADER_LEN - PREAMBLE_LEN - len - 1;
    let ghost told = out@;
    for i in 0..pad
        invariant
            out@ == told + Seq::new(i as nat, |k: int| 0x20u8),
    {
        out.push(0x20);
        assert(out@ == told + Seq::new((i + 1) as nat, |k: int| 0x20u8));
    }
    out.push(0x0a);
    assert(out@ == header_bytes(n_rows, hidden_dim));
    out
}

/// Makes the bytes of a file, piece after piece.
pub struct NpyWriter {
    hidden_dim: usize,
}

impl NpyWriter {
    /// The number of values in a row.
    pub closed spec fn dim(self) -> usize {
        self.hidden_dim
    }

    /// A writer for rows of no values.
    pub fn new() -> (r: Self)
        ensures
            r.dim() == 0,
    {
        NpyWriter { hidden_dim: 0 }
    }

    /// Starts a file of rows of `hidden_dim` values. Returns what stands at its start: a header
    /// for no rows.
    pub fn begin(&mut self, hidden_dim: usize) -> (r: Vec<u8>)
        ensures
            final(self).dim() == hidden_dim,
            r@ == header_bytes(0, hidden_dim),
    {
        self.hidden_dim = hidden_dim;
        npy_header(0, hidden_dim)
    }

    /// The bytes of a row, of which each value is given by its bits. They come next in the file.
    pub fn write_row(&self, bits: &[u32]) -> (r: Vec<u8>)
        ensures
            r@ == value_bytes(bits@),
    {
        let mut out: Vec<u8> = Vec::new();
        let n: usize = bits.len();
        assert(bits@.take(0) == Seq::<u32>::empty());
        for i in 0..n
            invariant
                n == bits@.len(),
                out@ == value_bytes(bits@.take(i as int)),
        {
            assert(bits@.take(i + 1).drop_last() == bits@.take(i as int));
            push_le(&mut out, bits[i] as u64, 4);
        }
        assert(bits@.take(n as int) == bits@);
        out
    }

    /// The header for all rows of the file. It is written over what stands at its start.
    pub fn finish(&self, n_rows: u64) -> (r: Vec<u8>)
        ensures
            r@ == header_bytes(n_rows, self.dim()),
            r@.len() == HEADER_LEN,
    {
        npy_header(n_rows, self.hidden_dim)
    }
}

/// The bytes of rows.
pub open spec fn rows_bytes(rows: Seq<Seq<u32>>) -> Seq<u8>
    decreases rows.len(),
{
    if rows.len() == 0 {
        Seq::empty()
    } else {
        rows_bytes(rows.drop_last()) + value_bytes(rows.last())
    }
}

/// A file after `new` was written over its start.
pub open spec fn overwritten(file: Seq<u8>, new: Seq<u8>) -> Seq<u8> {
    new + file.skip(new.len() as int)
}

/// Writing the header over keeps the rows: the file is the header that tells the number of rows,
/// followed by the rows.
pub proof fn finished_file_is_header_and_rows(rows: Seq<Seq<u32>>, n_rows: u64, hidden_dim: usize)
    ensures
        overwritten(
            header_bytes(0, hidden_dim) + rows_bytes(rows),
            header_bytes(n_rows, hidden_dim),
        ) == header_bytes(n_rows, hidden_dim) + rows_bytes(rows),
{
    header_has_fixed_size(0, hidden_dim);
    header_has_fixed_size(n_rows, hidden_dim);
    let file = header_bytes(0, hidden_dim) + rows_bytes(rows);
    assert(file.skip(HEADER_LEN as int) == rows_bytes(rows));
}

/// A value that was written is read back: the four bytes at its place are its bits.
pub proof fn written_value_reads_back(bits: Seq<u32>, i: int)
    requires
        0 <= i < bits.len(),
    ensures
        value_bytes(bits).len() == 4 * bits.len(),
        le_value(value_bytes(bits).subrange(4 * i, 4 * i + 4)) == bits[i],
    decreases bits.len(),
{
    value_bytes_len(bits);
    value_bytes_len(bits.drop_last());
    le_bytes_len(bits.last() as nat, 4);
    if i < bits.len() - 1 {
        written_value_reads_back(bits.drop_last(), i);
        assert(value_bytes(bits).subrange(4 * i, 4 * i + 4) == value_bytes(
            bits.drop_last(),
        ).subrange(4 * i, 4 * i + 4));
    } else {
        pow256_values();
        le_reads_back(bits.last() as nat, 4);
        assert(value_bytes(bits).subrange(4 * i, 4 * i + 4) == le_bytes(bits.last() as nat, 4));
    }
}

proof fn value_bytes_len(bits: Seq<u32>)
    ensures
        value_bytes(bits).len() == 4 * bits.len(),
    decreases bits.len(),
{
    if bits.len() > 0 {
        value_bytes_len(bits.drop_last());
        le_bytes_len(bits.last() as nat, 4);
    }
}

// Laws.

proof fn four_bytes(x: nat)
    requires
        x < 0x1_0000_0000,
    ensures
        le_bytes(x, 4) == seq![
            (x % 256) as u8,
            (x / 256 % 256) as u8,
            (x / 65536 % 256) as u8,
            (x / 16777216 % 256) as u8,
        ],
{
    reveal_with_fuel(le_bytes, 5);
    assert(x / 256 / 256 == x / 65536);
    assert(x / 256 / 256 / 256 == x / 16777216);
    assert(le_bytes(x, 4) =~= seq![
        (x % 256) as u8,
        (x / 256 % 256) as u8,
        (x / 65536 % 256) as u8,
        (x / 16777216 % 256) as u8,
    ]);
}

/// Every value takes four bytes, the lowest first, and the values stand in the order of the rows
/// and in each row in its order: the value in column `c` of row `r` stands behind all rows before
/// it and all columns before it.
pub proof fn values_stand_row_by_row(rows: Seq<Seq<u32>>, dim: nat, r: int, c: int)
    requires
        forall|k: int| 0 <= k < rows.len() ==> (#[trigger] rows[k]).len() == dim,
        0 <= r < rows.len(),
        0 <= c < dim,
    ensures
        ({
            let at = 4 * (r * dim + c);
            let bits = rows[r][c] as nat;
            let file = rows_bytes(rows);
            &&& file.len() == 4 * (rows.len() * dim)
            &&& 0 <= at && at + 4 <= file.len()
            &&& file[at] as nat == bits % 256
            &&& file[at + 1] as nat == bits / 256 % 256
            &&& file[at + 2] as nat == bits / 65536 % 256
            &&& file[at + 3] as nat == bits / 16777216 % 256
        }),
    decreases rows.len(),
{
    let n = rows.len() - 1;
    let front = rows.drop_last();
    assert forall|k: int| 0 <= k < front.len() implies (#[trigger] front[k]).len() == dim by {
        assert(front[k] == rows[k]);
    }
    rows_bytes_len(front, dim);
    rows_bytes_len(rows, dim);
    assert(rows[n].len() == dim);
    let at = 4 * (r * dim + c);
    assert(r * dim + dim == (r + 1) * dim) by (nonlinear_arith);
    assert(0 <= r * dim) by (nonlinear_arith)
        requires
            0 <= r,
    ;
    if r < n {
        assert((r + 1) * dim <= n * dim) by (nonlinear_arith)
            requires
                r + 1 <= n,
        ;
        values_stand_row_by_row(front, dim, r, c);
        assert(front[r] == rows[r]);
        assert(rows_bytes(rows)[at] == rows_bytes(front)[at]);
    } else {
        let row = rows[n];
        written_value_stands(row, c);
        assert(n * dim + dim == (n + 1) * dim) by (nonlinear_arith);
    }
}

proof fn rows_bytes_len(rows: Seq<Seq<u32>>, dim: nat)
    requires
        forall|k: int| 0 <= k < rows.len() ==> (#[trigger] rows[k]).len() == dim,
    ensures
        rows_bytes(rows).len() == 4 * (rows.len() * dim),
    decreases rows.len(),
{
    if rows.len() > 0 {
        let front = rows.drop_last();
        assert forall|k: int| 0 <= k < front.len() implies (#[trigger] front[k]).len() == dim by {
            assert(front[k] == rows[k]);
        }
        rows_bytes_len(front, dim);
        assert(rows[rows.len() - 1].len() == dim);
        value_bytes_len(rows.last());
        let n = front.len();
        assert((n + 1) * dim == n * dim + dim) by (nonlinear_arith);
    } else {
        assert(0 * dim == 0) by (nonlinear_arith);
    }
}

proof fn written_value_stands(bits: Seq<u32>, c: int)
    requires
        0 <= c < bits.len(),
    ensures
        value_bytes(bits).len() == 4 * bits.len(),
        value_bytes(bits)[4 * c] as nat == bits[c] as nat % 256,
        value_bytes(bits)[4 * c + 1] as nat == bits[c] as nat / 256 % 256,
        value_bytes(bits)[4 * c + 2] as nat == bits[c] as nat / 65536 % 256,
        value_bytes(bits)[4 * c + 3] as nat == bits[c] as nat / 16777216 % 256,
    decreases bits.len(),
{
    value_bytes_len(bits);
    let front = bits.drop_last();
    value_bytes_len(front);
    if c < front.len() {
        written_value_stands(front, c);
        assert(front[c] == bits[c]);
    } else {
        four_bytes(bits.last() as nat);
    }
}

/// The header is that of version one of the format: it begins with the magic bytes, tells the
/// length of its text, whose end is a line feed, and the text tells the number of rows and of
/// columns. With it the values begin at a multiple of 64 bytes.
pub proof fn header_tells_the_shape(n_rows: u64, hidden_dim: usize)
    ensures
        ({
            let header = header_bytes(n_rows, hidden_dim);
            let text = encode_utf8(
                "{'descr': '<f4', 'fortran_order': False, 'shape': ("@ + decimal(n_rows as nat)
                    + ", "@ + decimal(hidden_dim as nat) + "), }"@,
            );
            &&& header.len() == 128
            &&& header.take(8) == seq![0x93u8, 0x4e, 0x55, 0x4d, 0x50, 0x59, 1, 0]
            &&& header[8] as int + 256 * header[9] as int == header.len() - 10
            &&& header[127] == 0x0a
            &&& 10 + text.len() < 128
            &&& header.subrange(10, (10 + text.len()) as int) == text
            &&& forall|i: int| 10 + text.len() <= i < 127 ==> header[i] == 0x20
        }),
{
    header_has_fixed_size(n_rows, hidden_dim);
    dict_fits(n_rows, hidden_dim);
    let header = header_bytes(n_rows, hidden_dim);
    let text = encode_utf8(header_dict(n_rows, hidden_dim));
    reveal_with_fuel(le_bytes, 3);
    assert(le_bytes(118, 2) =~= seq![118u8, 0u8]);
    assert(header.take(8) =~= npy_magic());
    assert(header.subrange(10, (10 + text.len()) as int) =~= text);
}

/// Writing over the start of a file changes nothing behind it.
pub proof fn only_the_start_is_written_over(file: Seq<u8>, new: Seq<u8>)
    requires
        new.len() <= file.len(),
    ensures
        overwritten(file, new).len() == file.len(),
        overwritten(file, new).take(new.len() as int) == new,
        forall|i: int|
            new.len() <= i < file.len() ==> #[trigger] overwritten(file, new)[i] == file[i],
{
    assert(overwritten(file, new).take(new.len() as int) =~= new);
}

}
