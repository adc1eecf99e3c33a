//! Serialization of hasher state: a flat integer stream, written as
//! little-endian bytes.  Decoding re-encodes and compares, so whatever
//! it accepts serializes back to exactly the input bytes.

use vstd::prelude::*;
use crate::fx::Fx;
use crate::hash::{Hasher, MinHash, SignRandomProjections, L2, MIPS};
use crate::sql_table::{blob_of, blob_to_code, code_to_blob};

verus! {

/// A scalar row as integers: its length, then its raw values.
pub open spec fn enc_fx_row(v: Seq<Fx>) -> Seq<i64>
    decreases v.len(),
{
    if v.len() == 0 {
        seq![0i64]
    } else {
        let prev = enc_fx_row(v.drop_last());
        seq![v.len() as i64] + prev.drop_first() + seq![v.last().raw]
    }
}

/// An integer row: its length, then its values.
pub open spec fn enc_i_row(v: Seq<i64>) -> Seq<i64> {
    seq![v.len() as i64] + v
}

/// A scalar matrix: its row count, then each encoded row.
pub open spec fn enc_matrix(m: Seq<Vec<Fx>>) -> Seq<i64>
    decreases m.len(),
{
    if m.len() == 0 {
        seq![0i64]
    } else {
        let prev = enc_matrix(m.drop_last());
        seq![m.len() as i64] + prev.drop_first() + enc_fx_row(m.last()@)
    }
}

/// An integer matrix: its row count, then each encoded row.
pub open spec fn enc_i_matrix(m: Seq<Vec<i64>>) -> Seq<i64>
    decreases m.len(),
{
    if m.len() == 0 {
        seq![0i64]
    } else {
        let prev = enc_i_matrix(m.drop_last());
        seq![m.len() as i64] + prev.drop_first() + enc_i_row(m.last()@)
    }
}

/// An L2 hasher: dimension and slot width, then its matrix and offsets.
pub open spec fn enc_l2(h: L2) -> Seq<i64> {
    seq![h.dim as i64, h.r.raw] + enc_matrix(h.a@) + enc_fx_row(h.b@)
}

/// One hasher: a family tag, then the family's state.
pub open spec fn enc_hasher(h: Hasher) -> Seq<i64> {
    match h {
        Hasher::Srp(s) => seq![0i64, s.dim as i64] + enc_matrix(s.hyperplanes@),
        Hasher::L2(h2) => seq![1i64] + enc_l2(h2),
        Hasher::Mips(m) => seq![2i64, m.dim as i64, m.m as i64, m.u.raw, m.m_max.raw]
            + enc_l2(m.hasher),
        Hasher::MinHash(mh) => seq![3i64, mh.dim as i64] + enc_i_matrix(mh.pi@),
    }
}

/// The hasher set as integers: the count, then each encoded hasher.
pub open spec fn hashers_ints(hs: Seq<Hasher>) -> Seq<i64>
    decreases hs.len(),
{
    if hs.len() == 0 {
        seq![0i64]
    } else {
        let prev = hashers_ints(hs.drop_last());
        seq![hs.len() as i64] + prev.drop_first() + enc_hasher(hs.last())
    }
}

/// The hasher set as bytes.
pub open spec fn hashers_blob(hs: Seq<Hasher>) -> Seq<u8> {
    blob_of(hashers_ints(hs))
}

/// Append a scalar row's encoding.
fn push_fx_row(out: &mut Vec<i64>, v: &Vec<Fx>)
    requires
        v@.len() <= 0x1_0000_0000,
    ensures
        final(out)@ == old(out)@ + enc_fx_row(v@),
{
    out.push(v.len() as i64);
    let ghost mid = out@;
    let mut j: usize = 0;
    while j < v.len()
        invariant
            j <= v@.len(),
            out@ == mid + raws_prefix(v@, j as int),
        decreases v@.len() - j,
    {
        out.push(v[j].raw);
        proof {
            assert(out@ =~= mid + raws_prefix(v@, j + 1));
        }
        j += 1;
    }
    proof {
        lemma_enc_fx_row_shape(v@);
        assert(final(out)@ =~= old(out)@ + enc_fx_row(v@));
    }
}

/// The first `j` raw values of a row.
pub open spec fn raws_prefix(v: Seq<Fx>, j: int) -> Seq<i64> {
    Seq::new(j as nat, |i: int| v[i].raw)
}

/// A row's encoding is its length followed by its raw values.
proof fn lemma_enc_fx_row_shape(v: Seq<Fx>)
    ensures
        enc_fx_row(v) == seq![v.len() as i64] + raws_prefix(v, v.len() as int),
    decreases v.len(),
{
    if v.len() == 0 {
        assert(enc_fx_row(v) =~= seq![v.len() as i64] + raws_prefix(v, v.len() as int));
    } else {
        lemma_enc_fx_row_shape(v.drop_last());
        assert(enc_fx_row(v.drop_last()).drop_first() =~= raws_prefix(
            v.drop_last(),
            v.len() - 1,
        ));
        assert(raws_prefix(v.drop_last(), v.len() - 1) =~= raws_prefix(v, v.len() - 1));
        assert(enc_fx_row(v) =~= seq![v.len() as i64] + raws_prefix(v, v.len() as int));
    }
}

/// Append an integer row's encoding.
fn push_i_row(out: &mut Vec<i64>, v: &Vec<i64>)
    requires
        v@.len() <= 0x1_0000_0000,
    ensures
        final(out)@ == old(out)@ + enc_i_row(v@),
{
    out.push(v.len() as i64);
    let ghost mid = out@;
    let mut j: usize = 0;
    while j < v.len()
        invariant
            j <= v@.len(),
            out@ == mid + v@.take(j as int),
        decreases v@.len() - j,
    {
        out.push(v[j]);
        proof {
            assert(out@ =~= mid + v@.take(j + 1));
        }
        j += 1;
    }
    proof {
        assert(v@.take(v@.len() as int) =~= v@);
        assert(final(out)@ =~= old(out)@ + enc_i_row(v@));
    }
}

/// A matrix's encoding is its row count followed by its encoded rows.
proof fn lemma_enc_matrix_shape(m: Seq<Vec<Fx>>, j: int)
    requires
        0 <= j <= m.len(),
    ensures
        enc_matrix(m.take(j)) == seq![j as i64] + rows_prefix(m, j),
    decreases j,
{
    if j == 0 {
        assert(enc_matrix(m.take(0)) =~= seq![0i64] + rows_prefix(m, 0));
    } else {
        lemma_enc_matrix_shape(m, j - 1);
        assert(m.take(j).drop_last() =~= m.take(j - 1));
        assert(m.take(j).last() == m[j - 1]);
        assert(enc_matrix(m.take(j - 1)).drop_first() =~= rows_prefix(m, j - 1));
        assert(enc_matrix(m.take(j)) =~= seq![j as i64] + rows_prefix(m, j));
    }
}

/// The concatenated encodings of the first `j` rows.
pub open spec fn rows_prefix(m: Seq<Vec<Fx>>, j: int) -> Seq<i64>
    decreases j,
{
    if j <= 0 {
        Seq::empty()
    } else {
        rows_prefix(m, j - 1) + enc_fx_row(m[j - 1]@)
    }
}

/// Append a scalar matrix's encoding.
fn push_matrix(out: &mut Vec<i64>, m: &Vec<Vec<Fx>>)
    requires
        m@.len() <= 0x1_0000_0000,
        forall|i: int| 0 <= i < m@.len() ==> (#[trigger] m@[i])@.len() <= 0x1_0000_0000,
    ensures
        final(out)@ == old(out)@ + enc_matrix(m@),
{
    out.push(m.len() as i64);
    let ghost mid = out@;
    let mut i: usize = 0;
    while i < m.len()
        invariant
            i <= m@.len(),
            m@.len() <= 0x1_0000_0000,
            forall|x: int| 0 <= x < m@.len() ==> (#[trigger] m@[x])@.len() <= 0x1_0000_0000,
            out@ == mid + rows_prefix(m@, i as int),
        decreases m@.len() - i,
    {
        push_fx_row(out, &m[i]);
        i += 1;
    }
    proof {
        lemma_enc_matrix_shape(m@, m@.len() as int);
        assert(m@.take(m@.len() as int) =~= m@);
        assert(final(out)@ =~= old(out)@ + enc_matrix(m@));
    }
}

/// The concatenated encodings of the first `j` integer rows.
pub open spec fn i_rows_prefix(m: Seq<Vec<i64>>, j: int) -> Seq<i64>
    decreases j,
{
    if j <= 0 {
        Seq::empty()
    } else {
        i_rows_prefix(m, j - 1) + enc_i_row(m[j - 1]@)
    }
}

/// An integer matrix's encoding is its row count followed by its
/// encoded rows.
proof fn lemma_enc_i_matrix_shape(m: Seq<Vec<i64>>, j: int)
    requires
        0 <= j <= m.len(),
    ensures
        enc_i_matrix(m.take(j)) == seq![j as i64] + i_rows_prefix(m, j),
    decreases j,
{
    if j == 0 {
        assert(enc_i_matrix(m.take(0)) =~= seq![0i64] + i_rows_prefix(m, 0));
    } else {
        lemma_enc_i_matrix_shape(m, j - 1);
        assert(m.take(j).drop_last() =~= m.take(j - 1));
        assert(m.take(j).last() == m[j - 1]);
        assert(enc_i_matrix(m.take(j - 1)).drop_first() =~= i_rows_prefix(m, j - 1));
        assert(enc_i_matrix(m.take(j)) =~= seq![j as i64] + i_rows_prefix(m, j));
    }
}

/// Append an integer matrix's encoding.
fn push_i_matrix(out: &mut Vec<i64>, m: &Vec<Vec<i64>>)
    requires
        m@.len() <= 0x1_0000_0000,
        forall|i: int| 0 <= i < m@.len() ==> (#[trigger] m@[i])@.len() <= 0x1_0000_0000,
    ensures
        final(out)@ == old(out)@ + enc_i_matrix(m@),
{
    out.push(m.len() as i64);
    let ghost mid = out@;
    let mut i: usize = 0;
    while i < m.len()
        invariant
            i <= m@.len(),
            m@.len() <= 0x1_0000_0000,
            forall|x: int| 0 <= x < m@.len() ==> (#[trigger] m@[x])@.len() <= 0x1_0000_0000,
            out@ == mid + i_rows_prefix(m@, i as int),
        decreases m@.len() - i,
    {
        push_i_row(out, &m[i]);
        i += 1;
    }
    proof {
        lemma_enc_i_matrix_shape(m@, m@.len() as int);
        assert(m@.take(m@.len() as int) =~= m@);
        assert(final(out)@ =~= old(out)@ + enc_i_matrix(m@));
    }
}

/// Whether a hasher's dimensions are small enough to serialize.
pub open spec fn hasher_sizes_ok(h: Hasher) -> bool {
    match h {
        Hasher::Srp(s) => s.hyperplanes@.len() <= 0x1_0000_0000 && s.dim <= 0x1_0000_0000
            && forall|i: int|
            0 <= i < s.hyperplanes@.len() ==> (#[trigger] s.hyperplanes@[i])@.len()
                <= 0x1_0000_0000,
        Hasher::L2(h2) => l2_sizes_ok(h2),
        Hasher::Mips(m) => m.dim <= 0x1_0000_0000 && m.m <= 0x1_0000_0000 && l2_sizes_ok(
            m.hasher,
        ),
        Hasher::MinHash(mh) => mh.pi@.len() <= 0x1_0000_0000 && mh.dim <= 0x1_0000_0000
            && forall|i: int|
            0 <= i < mh.pi@.len() ==> (#[trigger] mh.pi@[i])@.len() <= 0x1_0000_0000,
    }
}

/// Whether an L2 hasher's dimensions are small enough to serialize.
pub open spec fn l2_sizes_ok(h: L2) -> bool {
    &&& h.a@.len() <= 0x1_0000_0000
    &&& h.b@.len() <= 0x1_0000_0000
    &&& h.dim <= 0x1_0000_0000
    &&& forall|i: int| 0 <= i < h.a@.len() ==> (#[trigger] h.a@[i])@.len() <= 0x1_0000_0000
}

/// Append an L2 hasher's encoding.
fn push_l2(out: &mut Vec<i64>, h: &L2)
    requires
        l2_sizes_ok(*h),
    ensures
        final(out)@ == old(out)@ + enc_l2(*h),
{
    out.push(h.dim as i64);
    out.push(h.r.raw);
    push_matrix(out, &h.a);
    push_fx_row(out, &h.b);
    proof {
        assert(final(out)@ =~= old(out)@ + enc_l2(*h));
    }
}

/// Append one hasher's encoding.
fn push_hasher(out: &mut Vec<i64>, h: &Hasher)
    requires
        hasher_sizes_ok(*h),
    ensures
        final(out)@ == old(out)@ + enc_hasher(*h),
{
    match h {
        Hasher::Srp(s) => {
            out.push(0);
            out.push(s.dim as i64);
            push_matrix(out, &s.hyperplanes);
            proof {
                assert(final(out)@ =~= old(out)@ + enc_hasher(*h));
            }
        },
        Hasher::L2(h2) => {
            out.push(1);
            push_l2(out, h2);
            proof {
                assert(final(out)@ =~= old(out)@ + enc_hasher(*h));
            }
        },
        Hasher::Mips(m) => {
            out.push(2);
            out.push(m.dim as i64);
            out.push(m.m as i64);
            out.push(m.u.raw);
            out.push(m.m_max.raw);
            push_l2(out, &m.hasher);
            proof {
                assert(final(out)@ =~= old(out)@ + enc_hasher(*h));
            }
        },
        Hasher::MinHash(mh) => {
            out.push(3);
            out.push(mh.dim as i64);
            push_i_matrix(out, &mh.pi);
            proof {
                assert(final(out)@ =~= old(out)@ + enc_hasher(*h));
            }
        },
    }
}

/// The concatenated encodings of the first `j` hashers.
pub open spec fn hashers_prefix(hs: Seq<Hasher>, j: int) -> Seq<i64>
    decreases j,
{
    if j <= 0 {
        Seq::empty()
    } else {
        hashers_prefix(hs, j - 1) + enc_hasher(hs[j - 1])
    }
}

/// The hasher-set encoding is its count followed by its encoded
/// hashers.
proof fn lemma_hashers_ints_shape(hs: Seq<Hasher>, j: int)
    requires
        0 <= j <= hs.len(),
    ensures
        hashers_ints(hs.take(j)) == seq![j as i64] + hashers_prefix(hs, j),
    decreases j,
{
    if j == 0 {
        assert(hashers_ints(hs.take(0)) =~= seq![0i64] + hashers_prefix(hs, 0));
    } else {
        lemma_hashers_ints_shape(hs, j - 1);
        assert(hs.take(j).drop_last() =~= hs.take(j - 1));
        assert(hs.take(j).last() == hs[j - 1]);
        assert(hashers_ints(hs.take(j - 1)).drop_first() =~= hashers_prefix(hs, j - 1));
        assert(hashers_ints(hs.take(j)) =~= seq![j as i64] + hashers_prefix(hs, j));
    }
}

/// Serialize a hasher set as little-endian bytes.
pub fn hashers_to_blob(hs: &Vec<Hasher>) -> (r: Vec<u8>)
    requires
        hs@.len() <= 0x1_0000_0000,
        forall|i: int| 0 <= i < hs@.len() ==> hasher_sizes_ok(#[trigger] hs@[i]),
    ensures
        r@ == hashers_blob(hs@),
{
    let mut out: Vec<i64> = Vec::new();
    out.push(hs.len() as i64);
    let ghost mid = out@;
    let mut i: usize = 0;
    while i < hs.len()
        invariant
            i <= hs@.len(),
            hs@.len() <= 0x1_0000_0000,
            forall|x: int| 0 <= x < hs@.len() ==> hasher_sizes_ok(#[trigger] hs@[x]),
            out@ == mid + hashers_prefix(hs@, i as int),
        decreases hs@.len() - i,
    {
        push_hasher(&mut out, &hs[i]);
        i += 1;
    }
    proof {
        lemma_hashers_ints_shape(hs@, hs@.len() as int);
        assert(hs@.take(hs@.len() as int) =~= hs@);
        assert(out@ =~= hashers_ints(hs@));
    }
    code_to_blob(out.as_slice())
}


/// Read one integer; fails at the end of the stream.
fn read_i(ints: &Vec<i64>, pos: usize) -> (r: Option<(i64, usize)>)
    ensures
        r matches Some((_, p2)) ==> pos < ints@.len() && p2 == pos + 1,
{
    if pos < ints.len() {
        Some((ints[pos], pos + 1))
    } else {
        None
    }
}

/// Read a length: a nonnegative integer no larger than the cap.
fn read_len(ints: &Vec<i64>, pos: usize) -> (r: Option<(usize, usize)>)
    ensures
        r matches Some((n, p2)) ==> pos < ints@.len() && p2 == pos + 1 && n <= 0x1_0000_0000,
{
    let (x, p2) = match read_i(ints, pos) {
        Some(v) => v,
        None => {
            return None;
        },
    };
    if x < 0 || x > 0x1_0000_0000 {
        return None;
    }
    Some((x as usize, p2))
}

/// Parse a scalar row.
fn parse_fx_row(ints: &Vec<i64>, pos: usize) -> (r: Option<(Vec<Fx>, usize)>)
    ensures
        r matches Some((v, _)) ==> v@.len() <= 0x1_0000_0000,
{
    let (n, mut p) = match read_len(ints, pos) {
        Some(v) => v,
        None => {
            return None;
        },
    };
    let mut out: Vec<Fx> = Vec::new();
    let mut j: usize = 0;
    while j < n
        invariant
            j <= n,
            n <= 0x1_0000_0000,
            out@.len() == j,
        decreases n - j,
    {
        let (x, p2) = match read_i(ints, p) {
            Some(v) => v,
            None => {
                return None;
            },
        };
        out.push(Fx { raw: x });
        p = p2;
        j += 1;
    }
    Some((out, p))
}

/// Parse an integer row.
fn parse_i_row(ints: &Vec<i64>, pos: usize) -> (r: Option<(Vec<i64>, usize)>)
    ensures
        r matches Some((v, _)) ==> v@.len() <= 0x1_0000_0000,
{
    let (n, mut p) = match read_len(ints, pos) {
        Some(v) => v,
        None => {
            return None;
        },
    };
    let mut out: Vec<i64> = Vec::new();
    let mut j: usize = 0;
    while j < n
        invariant
            j <= n,
            n <= 0x1_0000_0000,
            out@.len() == j,
        decreases n - j,
    {
        let (x, p2) = match read_i(ints, p) {
            Some(v) => v,
            None => {
                return None;
            },
        };
        out.push(x);
        p = p2;
        j += 1;
    }
    Some((out, p))
}

/// Parse a scalar matrix.
fn parse_matrix(ints: &Vec<i64>, pos: usize) -> (r: Option<(Vec<Vec<Fx>>, usize)>)
    ensures
        r matches Some((m, _)) ==> m@.len() <= 0x1_0000_0000 && forall|i: int|
            0 <= i < m@.len() ==> (#[trigger] m@[i])@.len() <= 0x1_0000_0000,
{
    let (n, mut p) = match read_len(ints, pos) {
        Some(v) => v,
        None => {
            return None;
        },
    };
    let mut out: Vec<Vec<Fx>> = Vec::new();
    let mut j: usize = 0;
    while j < n
        invariant
            j <= n,
            n <= 0x1_0000_0000,
            out@.len() == j,
            forall|i: int| 0 <= i < j ==> (#[trigger] out@[i])@.len() <= 0x1_0000_0000,
        decreases n - j,
    {
        let (row, p2) = match parse_fx_row(ints, p) {
            Some(v) => v,
            None => {
                return None;
            },
        };
        out.push(row);
        p = p2;
        j += 1;
    }
    Some((out, p))
}

/// Parse an integer matrix.
fn parse_i_matrix(ints: &Vec<i64>, pos: usize) -> (r: Option<(Vec<Vec<i64>>, usize)>)
    ensures
        r matches Some((m, _)) ==> m@.len() <= 0x1_0000_0000 && forall|i: int|
            0 <= i < m@.len() ==> (#[trigger] m@[i])@.len() <= 0x1_0000_0000,
{
    let (n, mut p) = match read_len(ints, pos) {
        Some(v) => v,
        None => {
            return None;
        },
    };
    let mut out: Vec<Vec<i64>> = Vec::new();
    let mut j: usize = 0;
    while j < n
        invariant
            j <= n,
            n <= 0x1_0000_0000,
            out@.len() == j,
            forall|i: int| 0 <= i < j ==> (#[trigger] out@[i])@.len() <= 0x1_0000_0000,
        decreases n - j,
    {
        let (row, p2) = match parse_i_row(ints, p) {
            Some(v) => v,
            None => {
                return None;
            },
        };
        out.push(row);
        p = p2;
        j += 1;
    }
    Some((out, p))
}

/// Parse an L2 hasher.
fn parse_l2(ints: &Vec<i64>, pos: usize) -> (r: Option<(L2, usize)>)
    ensures
        r matches Some((h, _)) ==> l2_sizes_ok(h),
{
    let (dim, p1) = match read_len(ints, pos) {
        Some(v) => v,
        None => {
            return None;
        },
    };
    let (rr, p2) = match read_i(ints, p1) {
        Some(v) => v,
        None => {
            return None;
        },
    };
    let (a, p3) = match parse_matrix(ints, p2) {
        Some(v) => v,
        None => {
            return None;
        },
    };
    let (b, p4) = match parse_fx_row(ints, p3) {
        Some(v) => v,
        None => {
            return None;
        },
    };
    Some((L2 { a, b, r: Fx { raw: rr }, dim }, p4))
}

/// Parse one hasher.
fn parse_hasher(ints: &Vec<i64>, pos: usize) -> (r: Option<(Hasher, usize)>)
    ensures
        r matches Some((h, _)) ==> hasher_sizes_ok(h),
{
    let (tag, p0) = match read_i(ints, pos) {
        Some(v) => v,
        None => {
            return None;
        },
    };
    if tag == 0 {
        let (dim, p1) = match read_len(ints, p0) {
            Some(v) => v,
            None => {
                return None;
            },
        };
        let (hp, p2) = match parse_matrix(ints, p1) {
            Some(v) => v,
            None => {
                return None;
            },
        };
        Some((Hasher::Srp(SignRandomProjections { hyperplanes: hp, dim }), p2))
    } else if tag == 1 {
        let (h2, p1) = match parse_l2(ints, p0) {
            Some(v) => v,
            None => {
                return None;
            },
        };
        Some((Hasher::L2(h2), p1))
    } else if tag == 2 {
        let (dim, p1) = match read_len(ints, p0) {
            Some(v) => v,
            None => {
                return None;
            },
        };
        let (m, p2) = match read_len(ints, p1) {
            Some(v) => v,
            None => {
                return None;
            },
        };
        let (u, p3) = match read_i(ints, p2) {
            Some(v) => v,
            None => {
                return None;
            },
        };
        let (mm, p4) = match read_i(ints, p3) {
            Some(v) => v,
            None => {
                return None;
            },
        };
        let (inner, p5) = match parse_l2(ints, p4) {
            Some(v) => v,
            None => {
                return None;
            },
        };
        Some(
            (
                Hasher::Mips(
                    MIPS { u: Fx { raw: u }, m_max: Fx { raw: mm }, m, dim, hasher: inner },
                ),
                p5,
            ),
        )
    } else if tag == 3 {
        let (dim, p1) = match read_len(ints, p0) {
            Some(v) => v,
            None => {
                return None;
            },
        };
        let (pi, p2) = match parse_i_matrix(ints, p1) {
            Some(v) => v,
            None => {
                return None;
            },
        };
        Some((Hasher::MinHash(MinHash { pi, dim }), p2))
    } else {
        None
    }
}

/// Whether two byte strings are equal.
fn bytes_eq(a: &[u8], b: &[u8]) -> (r: bool)
    ensures
        r <==> a@ == b@,
{
    if a.len() != b.len() {
        proof {
            assert(a@.len() != b@.len());
        }
        return false;
    }
    let mut i: usize = 0;
    while i < a.len()
        invariant
            i <= a@.len(),
            a@.len() == b@.len(),
            forall|j: int| 0 <= j < i ==> a@[j] == b@[j],
        decreases a@.len() - i,
    {
        if a[i] != b[i] {
            return false;
        }
        i += 1;
    }
    proof {
        assert(a@ =~= b@);
    }
    true
}

/// Deserialize a hasher set.  Whatever is accepted serializes back to
/// exactly the input bytes: the parse is re-encoded and compared, so a
/// mangled or trailing-garbage blob is rejected.
pub fn hashers_from_blob(b: &[u8]) -> (r: Option<Vec<Hasher>>)
    ensures
        r matches Some(hs) ==> hashers_blob(hs@) == b@ && hs@.len() <= 0x1_0000_0000
            && forall|i: int| 0 <= i < hs@.len() ==> hasher_sizes_ok(#[trigger] hs@[i]),
{
    let ints = match blob_to_code(b) {
        Some(v) => v,
        None => {
            return None;
        },
    };
    let (count, mut p) = match read_len(&ints, 0) {
        Some(v) => v,
        None => {
            return None;
        },
    };
    let mut hs: Vec<Hasher> = Vec::new();
    let mut j: usize = 0;
    while j < count
        invariant
            j <= count,
            count <= 0x1_0000_0000,
            hs@.len() == j,
            forall|i: int| 0 <= i < j ==> hasher_sizes_ok(#[trigger] hs@[i]),
        decreases count - j,
    {
        let (h, p2) = match parse_hasher(&ints, p) {
            Some(v) => v,
            None => {
                return None;
            },
        };
        hs.push(h);
        p = p2;
        j += 1;
    }
    let blob2 = hashers_to_blob(&hs);
    if bytes_eq(blob2.as_slice(), b) {
        Some(hs)
    } else {
        None
    }
}

} // verus!
