//! The streaming search variant: a leaf renders the fast-field values
//! of its matching documents as CSV rows, and the root forwards the
//! leaves' byte chunks downstream in arrival order, with no global
//! sort.

use vstd::prelude::*;

verus! {

broadcast use vstd::std_specs::vec::group_vec_axioms;

/// The decimal digits of a value, most significant first, as ASCII
/// bytes.
pub open spec fn dec_bytes(n: u64) -> Seq<u8>
    decreases n,
{
    if n < 10 {
        seq![(48 + n) as u8]
    } else {
        dec_bytes(n / 10).push((48 + n % 10) as u8)
    }
}

/// One CSV row: the decimal value followed by a line feed.
pub open spec fn csv_row_bytes(n: u64) -> Seq<u8> {
    dec_bytes(n).push(10u8)
}

/// The CSV body for a list of values, one row per value, in order.
pub open spec fn csv_body_bytes(values: Seq<u64>) -> Seq<u8>
    decreases values.len(),
{
    if values.len() == 0 {
        Seq::empty()
    } else {
        csv_body_bytes(values.drop_last()) + csv_row_bytes(values.last())
    }
}

/// Renders a value as its decimal digits.
pub fn dec_digits(n: u64) -> (r: Vec<u8>)
    ensures
        r@ == dec_bytes(n),
    decreases n,
{
    if n < 10 {
        let mut out: Vec<u8> = Vec::new();
        out.push(48 + (n as u8));
        proof {
            assert(out@ =~= dec_bytes(n));
        }
        out
    } else {
        let mut out = dec_digits(n / 10);
        out.push(48 + ((n % 10) as u8));
        out
    }
}

/// Renders the CSV body for the fast-field values of the matching
/// documents: one decimal value per row, in document order.
#[verifier::loop_isolation(false)]
pub fn csv_body(values: &Vec<u64>) -> (r: Vec<u8>)
    ensures
        r@ == csv_body_bytes(values@),
{
    let mut out: Vec<u8> = Vec::new();
    let mut i: usize = 0;
    while i < values.len()
        invariant
            i <= values@.len(),
            out@ == csv_body_bytes(values@.take(i as int)),
        decreases values@.len() - i,
    {
        let row = dec_digits(values[i]);
        let mut k: usize = 0;
        while k < row.len()
            invariant
                k <= row@.len(),
                row@ == dec_bytes(values@[i as int]),
                i < values@.len(),
                out@ == csv_body_bytes(values@.take(i as int)) + row@.take(k as int),
            decreases row@.len() - k,
        {
            out.push(row[k]);
            proof {
                assert(out@ =~= csv_body_bytes(values@.take(i as int)) + row@.take(k + 1));
            }
            k = k + 1;
        }
        out.push(10);
        proof {
            assert(row@.take(row@.len() as int) =~= row@);
            assert(values@.take(i + 1).drop_last() =~= values@.take(i as int));
            assert(values@.take(i + 1).last() == values@[i as int]);
            assert(out@ =~= csv_body_bytes(values@.take(i + 1)));
        }
        i = i + 1;
    }
    proof {
        assert(values@.take(values@.len() as int) =~= values@);
    }
    out
}

/// The bytes of a list of chunks, in order.
pub open spec fn flat_chunks(chunks: Seq<Vec<u8>>) -> Seq<u8>
    decreases chunks.len(),
{
    if chunks.len() == 0 {
        Seq::empty()
    } else {
        flat_chunks(chunks.drop_last()) + chunks.last()@
    }
}

/// Forwards the leaves' chunks downstream in arrival order: the body a
/// client reads is exactly the concatenation of the chunks.
#[verifier::loop_isolation(false)]
pub fn assemble_stream(chunks: &Vec<Vec<u8>>) -> (r: Vec<u8>)
    ensures
        r@ == flat_chunks(chunks@),
{
    let mut out: Vec<u8> = Vec::new();
    let mut i: usize = 0;
    while i < chunks.len()
        invariant
            i <= chunks@.len(),
            out@ == flat_chunks(chunks@.take(i as int)),
        decreases chunks@.len() - i,
    {
        let chunk = &chunks[i];
        let mut k: usize = 0;
        while k < chunk.len()
            invariant
                k <= chunk@.len(),
                chunk == &chunks@[i as int],
                i < chunks@.len(),
                out@ == flat_chunks(chunks@.take(i as int)) + chunk@.take(k as int),
            decreases chunk@.len() - k,
        {
            out.push(chunk[k]);
            proof {
                assert(out@ =~= flat_chunks(chunks@.take(i as int)) + chunk@.take(k + 1));
            }
            k = k + 1;
        }
        proof {
            assert(chunk@.take(chunk@.len() as int) =~= chunk@);
            assert(chunks@.take(i + 1).drop_last() =~= chunks@.take(i as int));
            assert(chunks@.take(i + 1).last() == chunks@[i as int]);
            assert(out@ =~= flat_chunks(chunks@.take(i + 1)));
        }
        i = i + 1;
    }
    proof {
        assert(chunks@.take(chunks@.len() as int) =~= chunks@);
    }
    out
}

} // verus!
