//! Packing the voice style tensors of several voices into one batch buffer.

use vstd::prelude::*;

verus! {

/// The values of the rows of `rows`, in order.
pub open spec fn flat_rows<T>(rows: Seq<Vec<T>>) -> Seq<T>
    decreases rows.len(),
{
    if rows.len() == 0 {
        Seq::<T>::empty()
    } else {
        flat_rows(rows.drop_last()) + rows.last()@
    }
}

/// The values of a nested tensor (batches of rows), in order.
pub open spec fn flat_data<T>(data: Seq<Vec<Vec<T>>>) -> Seq<T>
    decreases data.len(),
{
    if data.len() == 0 {
        Seq::<T>::empty()
    } else {
        flat_data(data.drop_last()) + flat_rows(data.last()@)
    }
}

/// `buf` with `vals` written from position `off` on.
pub open spec fn write_at<T>(buf: Seq<T>, off: int, vals: Seq<T>) -> Seq<T> {
    Seq::new(
        buf.len(),
        |p: int|
            if off <= p < off + vals.len() {
                vals[p - off]
            } else {
                buf[p]
            },
    )
}

/// The batch buffer after the first `n` voices are written: `total` copies of
/// `zero`, then the values of voice `i` written from `i * stride` on, for
/// each voice in turn.
pub open spec fn packed<T>(voices: Seq<Vec<Vec<Vec<T>>>>, n: int, stride: int, total: nat, zero: T) -> Seq<T>
    decreases n,
{
    if n <= 0 {
        Seq::new(total, |p: int| zero)
    } else {
        write_at(
            packed(voices, n - 1, stride, total, zero),
            (n - 1) * stride,
            flat_data(voices[n - 1]@),
        )
    }
}

/// Whether every voice's values fit in the buffer from its slot on.
pub open spec fn voices_fit<T>(voices: Seq<Vec<Vec<Vec<T>>>>, stride: int) -> bool {
    forall|i: int|
        0 <= i < voices.len() ==> i * stride + flat_data(#[trigger] voices[i]@).len() <= voices.len()
            * stride
}

proof fn lemma_packed_len<T>(voices: Seq<Vec<Vec<Vec<T>>>>, n: int, stride: int, total: nat, zero: T)
    ensures
        packed(voices, n, stride, total, zero).len() == total,
    decreases n,
{
    if n > 0 {
        lemma_packed_len(voices, n - 1, stride, total, zero);
    }
}

proof fn lemma_mul_le(a: int, b: int, c: int)
    requires
        0 <= a <= b,
        0 <= c,
    ensures
        a * c <= b * c,
{
    assert(a * c <= b * c) by (nonlinear_arith)
        requires
            0 <= a <= b,
            0 <= c,
    ;
}

proof fn lemma_write_at_concat<T>(buf: Seq<T>, off: int, a: Seq<T>, c: Seq<T>)
    requires
        0 <= off,
        off + a.len() + c.len() <= buf.len(),
    ensures
        write_at(write_at(buf, off, a), off + a.len(), c) == write_at(buf, off, a + c),
{
    assert(write_at(write_at(buf, off, a), off + a.len(), c) =~= write_at(buf, off, a + c));
}

proof fn lemma_flat_rows_take<T>(rows: Seq<Vec<T>>, k: int)
    requires
        0 <= k < rows.len(),
    ensures
        flat_rows(rows.take(k + 1)) == flat_rows(rows.take(k)) + rows[k]@,
{
    assert(rows.take(k + 1).drop_last() =~= rows.take(k));
}

proof fn lemma_flat_data_take<T>(data: Seq<Vec<Vec<T>>>, k: int)
    requires
        0 <= k < data.len(),
    ensures
        flat_data(data.take(k + 1)) == flat_data(data.take(k)) + flat_rows(data[k]@),
{
    assert(data.take(k + 1).drop_last() =~= data.take(k));
}

proof fn lemma_flat_data_mono<T>(data: Seq<Vec<Vec<T>>>, k: int)
    requires
        0 <= k <= data.len(),
    ensures
        flat_data(data.take(k)).len() <= flat_data(data).len(),
    decreases data.len(),
{
    if k == data.len() {
        assert(data.take(k) =~= data);
    } else {
        assert(data.drop_last().take(k) =~= data.take(k));
        lemma_flat_data_mono(data.drop_last(), k);
    }
}

proof fn lemma_flat_rows_mono<T>(rows: Seq<Vec<T>>, k: int)
    requires
        0 <= k <= rows.len(),
    ensures
        flat_rows(rows.take(k)).len() <= flat_rows(rows).len(),
    decreases rows.len(),
{
    if k == rows.len() {
        assert(rows.take(k) =~= rows);
    } else {
        assert(rows.drop_last().take(k) =~= rows.take(k));
        lemma_flat_rows_mono(rows.drop_last(), k);
    }
}

fn write_row<T: Copy>(buf: &mut Vec<T>, pos: usize, row: &Vec<T>)
    requires
        pos + row@.len() <= old(buf).len(),
    ensures
        final(buf)@ == write_at(old(buf)@, pos as int, row@),
{
    let mut v: usize = 0;
    assert(old(buf)@ =~= write_at(old(buf)@, pos as int, row@.take(0)));
    while v < row.len()
        invariant
            v <= row@.len(),
            pos + row@.len() <= old(buf).len(),
            buf@ == write_at(old(buf)@, pos as int, row@.take(v as int)),
        decreases row.len() - v,
    {
        buf.set(pos + v, row[v]);
        v = v + 1;
        assert(buf@ =~= write_at(old(buf)@, pos as int, row@.take(v as int)));
    }
    assert(row@.take(v as int) =~= row@);
}

fn write_rows<T: Copy>(buf: &mut Vec<T>, pos: usize, rows: &Vec<Vec<T>>) -> (next: usize)
    requires
        pos + flat_rows(rows@).len() <= old(buf).len(),
    ensures
        final(buf)@ == write_at(old(buf)@, pos as int, flat_rows(rows@)),
        next == pos + flat_rows(rows@).len(),
{
    let mut r: usize = 0;
    let mut at = pos;
    assert(old(buf)@ =~= write_at(old(buf)@, pos as int, flat_rows(rows@.take(0))));
    while r < rows.len()
        invariant
            r <= rows@.len(),
            pos + flat_rows(rows@).len() <= old(buf).len(),
            at == pos + flat_rows(rows@.take(r as int)).len(),
            buf@.len() == old(buf)@.len(),
            buf@ == write_at(old(buf)@, pos as int, flat_rows(rows@.take(r as int))),
        decreases rows.len() - r,
    {
        proof {
            lemma_flat_rows_take(rows@, r as int);
            lemma_flat_rows_mono(rows@, r + 1);
            lemma_write_at_concat(
                old(buf)@,
                pos as int,
                flat_rows(rows@.take(r as int)),
                rows@[r as int]@,
            );
        }
        write_row(buf, at, &rows[r]);
        at = at + rows[r].len();
        r = r + 1;
    }
    assert(rows@.take(r as int) =~= rows@);
    at
}

fn write_data<T: Copy>(buf: &mut Vec<T>, pos: usize, data: &Vec<Vec<Vec<T>>>)
    requires
        pos + flat_data(data@).len() <= old(buf).len(),
    ensures
        final(buf)@ == write_at(old(buf)@, pos as int, flat_data(data@)),
{
    let mut b: usize = 0;
    let mut at = pos;
    assert(old(buf)@ =~= write_at(old(buf)@, pos as int, flat_data(data@.take(0))));
    while b < data.len()
        invariant
            b <= data@.len(),
            pos + flat_data(data@).len() <= old(buf).len(),
            at == pos + flat_data(data@.take(b as int)).len(),
            buf@.len() == old(buf)@.len(),
            buf@ == write_at(old(buf)@, pos as int, flat_data(data@.take(b as int))),
        decreases data.len() - b,
    {
        proof {
            lemma_flat_data_take(data@, b as int);
            lemma_flat_data_mono(data@, b + 1);
            lemma_write_at_concat(
                old(buf)@,
                pos as int,
                flat_data(data@.take(b as int)),
                flat_rows(data@[b as int]@),
            );
        }
        at = write_rows(buf, at, &data[b]);
        b = b + 1;
    }
    assert(data@.take(b as int) =~= data@);
}

/// Packs the style tensors of `voices` (each batches of rows of values)
/// into one buffer of `voices.len() * dim1 * dim2` values: voice `i` goes
/// from `i * dim1 * dim2` on, later voices overwriting what an earlier one
/// wrote past its slot, and the rest stays `zero`.
pub fn pack_voice_styles<T: Copy>(
    voices: &Vec<Vec<Vec<Vec<T>>>>,
    dim1: usize,
    dim2: usize,
    zero: T,
) -> (r: Vec<T>)
    requires
        voices@.len() * dim1 <= usize::MAX,
        voices@.len() * dim1 * dim2 <= usize::MAX,
        voices_fit(voices@, dim1 * dim2),
    ensures
        r@ == packed(
            voices@,
            voices@.len() as int,
            dim1 * dim2,
            (voices@.len() * dim1 * dim2) as nat,
            zero,
        ),
{
    let bsz = voices.len();
    let ghost gstride: int = dim1 * dim2;
    proof {
        assert(bsz * dim1 * dim2 == bsz * (dim1 * dim2)) by (nonlinear_arith);
        if bsz > 0 {
            lemma_mul_le(1, bsz as int, gstride);
        }
    }
    let stride: usize = if bsz == 0 {
        0
    } else {
        dim1 * dim2
    };
    let total: usize = bsz * dim1 * dim2;
    let mut buf: Vec<T> = Vec::new();
    let mut p: usize = 0;
    while p < total
        invariant
            p <= total,
            buf@ == Seq::new(p as nat, |q: int| zero),
        decreases total - p,
    {
        buf.push(zero);
        p = p + 1;
        assert(buf@ =~= Seq::new(p as nat, |q: int| zero));
    }
    let mut i: usize = 0;
    while i < bsz
        invariant
            i <= bsz == voices@.len(),
            total == bsz * gstride,
            gstride == dim1 * dim2,
            bsz > 0 ==> stride == gstride,
            voices_fit(voices@, gstride),
            buf@ == packed(voices@, i as int, gstride, total as nat, zero),
        decreases bsz - i,
    {
        proof {
            lemma_packed_len(voices@, i as int, gstride, total as nat, zero);
            assert(i * gstride + flat_data(voices@[i as int]@).len() <= total);
            assert(0 <= i * gstride) by (nonlinear_arith)
                requires
                    0 <= i,
                    0 <= gstride,
            ;
        }
        let offset = i * stride;
        write_data(&mut buf, offset, &voices[i]);
        i = i + 1;
    }
    buf
}


/// Whether the values of `data` number at most `room`.
pub fn data_fits<T>(data: &Vec<Vec<Vec<T>>>, room: usize) -> (b: bool)
    ensures
        b == (flat_data(data@).len() <= room),
{
    let mut used: usize = 0;
    let mut b: usize = 0;
    assert(data@.take(0) =~= Seq::<Vec<Vec<T>>>::empty());
    while b < data.len()
        invariant
            b <= data@.len(),
            used == flat_data(data@.take(b as int)).len(),
            used <= room,
        decreases data.len() - b,
    {
        let rows = &data[b];
        let mut r: usize = 0;
        assert(rows@.take(0) =~= Seq::<Vec<T>>::empty());
        while r < rows.len()
            invariant
                b < data@.len(),
                rows@ == data@[b as int]@,
                r <= rows@.len(),
                used == flat_data(data@.take(b as int)).len() + flat_rows(rows@.take(r as int)).len(),
                used <= room,
            decreases rows.len() - r,
        {
            proof {
                lemma_flat_rows_take(rows@, r as int);
            }
            if rows[r].len() > room - used {
                proof {
                    lemma_flat_rows_mono(rows@, r + 1);
                    lemma_flat_data_take(data@, b as int);
                    lemma_flat_data_mono(data@, b + 1);
                }
                return false;
            }
            used = used + rows[r].len();
            r = r + 1;
        }
        proof {
            assert(rows@.take(r as int) =~= rows@);
            lemma_flat_data_take(data@, b as int);
        }
        b = b + 1;
    }
    assert(data@.take(b as int) =~= data@);
    true
}

/// Packs the style tensors of `voices` as `pack_voice_styles` does, or gives
/// nothing when the buffer size overflows or a voice holds more values than
/// fit from its slot to the end of the buffer.
pub fn try_pack_voice_styles<T: Copy>(
    voices: &Vec<Vec<Vec<Vec<T>>>>,
    dim1: usize,
    dim2: usize,
    zero: T,
) -> (r: Option<Vec<T>>)
    ensures
        r is Some <==> (voices@.len() * dim1 <= usize::MAX && voices@.len() * dim1 * dim2
            <= usize::MAX && voices_fit(voices@, dim1 * dim2)),
        r matches Some(v) ==> v@ == packed(
            voices@,
            voices@.len() as int,
            dim1 * dim2,
            (voices@.len() * dim1 * dim2) as nat,
            zero,
        ),
{
    let bsz = voices.len();
    let a = match bsz.checked_mul(dim1) {
        Some(a) => a,
        None => return None,
    };
    let total = match a.checked_mul(dim2) {
        Some(t) => t,
        None => return None,
    };
    let ghost stride: int = dim1 * dim2;
    proof {
        assert(bsz * dim1 * dim2 == bsz * stride) by (nonlinear_arith)
            requires stride == dim1 * dim2;
    }
    let mut i: usize = 0;
    while i < bsz
        invariant
            i <= bsz == voices@.len(),
            total == bsz * stride,
            stride == dim1 * dim2,
            forall|k: int|
                0 <= k < i ==> k * stride + flat_data(#[trigger] voices@[k]@).len() <= bsz
                    * stride,
        decreases bsz - i,
    {
        proof {
            lemma_mul_le(i as int, bsz as int, stride);
            lemma_mul_le(1, bsz as int, stride);
            assert(0 <= i * stride) by (nonlinear_arith)
                requires 0 <= i, 0 <= stride;
        }
        let start = i * (dim1 * dim2);
        assert(start == i * stride) by (nonlinear_arith)
            requires start == i * (dim1 * dim2), stride == dim1 * dim2;
        if !data_fits(&voices[i], total - start) {
            return None;
        }
        i = i + 1;
    }
    Some(pack_voice_styles(voices, dim1, dim2, zero))
}

/// When each voice holds exactly `stride` values, the packed buffer holds
/// voice `i`'s values, in order, in slot `i`, from `i * stride` on.
pub proof fn lemma_packed_slots<T>(
    voices: Seq<Vec<Vec<Vec<T>>>>,
    n: int,
    stride: int,
    zero: T,
    i: int,
    k: int,
)
    requires
        0 <= i < n <= voices.len(),
        0 <= k < stride,
        forall|j: int| 0 <= j < voices.len() ==> flat_data(#[trigger] voices[j]@).len() == stride,
    ensures
        packed(voices, n, stride, (voices.len() * stride) as nat, zero)[i * stride + k] == flat_data(
            voices[i]@,
        )[k],
    decreases n,
{
    let total = (voices.len() * stride) as nat;
    lemma_packed_len(voices, n, stride, total, zero);
    lemma_packed_len(voices, n - 1, stride, total, zero);
    assert(i * stride + k < n * stride) by (nonlinear_arith)
        requires
            0 <= i < n,
            0 <= k < stride,
    ;
    assert(n * stride <= voices.len() * stride) by (nonlinear_arith)
        requires
            n <= voices.len(),
            0 <= stride,
    ;
    if i < n - 1 {
        assert(i * stride + k < (n - 1) * stride) by (nonlinear_arith)
            requires
                0 <= i < n - 1,
                0 <= k < stride,
        ;
        lemma_packed_slots(voices, n - 1, stride, zero, i, k);
    } else {
        assert(i * stride + k - (n - 1) * stride == k);
    }
}

} // verus!
