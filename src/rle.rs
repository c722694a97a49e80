//! The run-length and back-reference compression of VBA streams.
use vstd::prelude::*;
use crate::cfb::{le16_at, read_u16_at};
use crate::error::{eof, malformed, ExcelError, ExcelResult};

verus! {

pub open spec fn pow2(n: nat) -> nat
    decreases n,
{
    if n == 0 {
        1
    } else {
        2 * pow2((n - 1) as nat)
    }
}

pub proof fn lemma_pow2_mono(a: nat, b: nat)
    requires
        a <= b,
    ensures
        pow2(a) <= pow2(b),
    decreases b,
{
    if a < b {
        lemma_pow2_mono(a, (b - 1) as nat);
    }
}

proof fn lemma_pow2_values()
    ensures
        pow2(12) == 0x1000,
        pow2(16) == 0x10000,
        pow2(17) == 0x20000,
{
    reveal_with_fuel(pow2, 18);
}

/// The smallest `k` from `k0` on with `2^k >= d`, stopping at 17.
pub open spec fn bit_count_from(d: nat, k: nat) -> nat
    decreases 17 - k,
{
    if k >= 17 || pow2(k) >= d {
        k
    } else {
        bit_count_from(d, k + 1)
    }
}

/// `max(ceil(log2(d)), 4)`; a value of 17 stands for anything above 16.
pub open spec fn bit_count(d: nat) -> nat {
    bit_count_from(d, 4)
}

/// Appends `n` bytes, each copied from `offset` bytes before the end: an LZ77 copy.
pub open spec fn copy_back(out: Seq<u8>, offset: nat, n: nat) -> Seq<u8>
    decreases n,
{
    if n == 0 {
        out
    } else {
        copy_back(out.push(out[out.len() - offset]), offset, (n - 1) as nat)
    }
}

/// Decodes the tokens that follow one flag byte. `f` holds the flag bits not
/// yet used (its low bit is the next token's kind) and `bit` counts the
/// tokens taken; `start` is where the current chunk's output began.
/// Gives the input position and the output after them.
pub open spec fn tokens_spec(inp: Seq<u8>, p: int, end: int, out: Seq<u8>, start: int, f: nat, bit: nat)
    -> Option<(int, Seq<u8>)>
    decreases 8 - bit,
{
    if bit >= 8 || p >= end {
        Some((p, out))
    } else if f % 2 == 0 {
        if p < 0 || p >= inp.len() {
            None
        } else {
            tokens_spec(inp, p + 1, end, out.push(inp[p]), start, f / 2, bit + 1)
        }
    } else if p < 0 || p + 2 > inp.len() {
        None
    } else {
        let token = le16_at(inp, p);
        let bc = bit_count((out.len() - start) as nat);
        if bc > 16 {
            None
        } else {
            let split = pow2((16 - bc) as nat);
            let length = token % split + 3;
            let offset = token / split + 1;
            // the source must lie within the current chunk's output
            if offset > out.len() - start {
                None
            } else {
                tokens_spec(inp, p + 2, end, copy_back(out, offset, length), start, f / 2, bit + 1)
            }
        }
    }
}

/// Decodes the token runs (a flag byte, then up to eight tokens) of a
/// compressed chunk body from `p` until `end`.
pub open spec fn runs_spec(inp: Seq<u8>, p: int, end: int, out: Seq<u8>, start: int) -> Option<(int, Seq<u8>)>
    decreases inp.len() - p,
{
    if p >= end {
        Some((p, out))
    } else if p < 0 || p >= inp.len() {
        None
    } else {
        match tokens_spec(inp, p + 1, end, out, start, inp[p] as nat, 0) {
            None => None,
            Some(r) => if r.0 <= p || r.0 > inp.len() {
                None
            } else {
                runs_spec(inp, r.0, end, r.1, start)
            },
        }
    }
}

/// Decodes the chunks from `p` to the end of the input.
pub open spec fn chunks_spec(inp: Seq<u8>, p: int, out: Seq<u8>) -> Option<Seq<u8>>
    decreases inp.len() - p,
{
    if p < 0 || p >= inp.len() {
        Some(out)
    } else if p + 2 > inp.len() {
        None
    } else {
        let h = le16_at(inp, p);
        if h < 0x8000 {
            if p + 2 + 4096 > inp.len() {
                None
            } else {
                chunks_spec(inp, p + 4098, out + inp.subrange(p + 2, p + 4098))
            }
        } else {
            // the chunk is `size` bytes, its header included
            let size = h % 4096 + 3;
            let end = if inp.len() < p + size { inp.len() as int } else { p + size };
            match runs_spec(inp, p + 2, end, out, out.len() as int) {
                None => None,
                Some(r) => if r.0 <= p || r.0 > inp.len() {
                    None
                } else {
                    chunks_spec(inp, r.0, r.1)
                },
            }
        }
    }
}

/// The decompressed form of `inp`: a signature byte 1, then chunks.
pub open spec fn decompress_spec(inp: Seq<u8>) -> Option<Seq<u8>> {
    if inp.len() == 0 || inp[0] != 1 {
        None
    } else {
        chunks_spec(inp, 1, Seq::empty())
    }
}

proof fn lemma_copy_back_len(out: Seq<u8>, offset: nat, n: nat)
    ensures
        copy_back(out, offset, n).len() == out.len() + n,
        copy_back(out, offset, n).subrange(0, out.len() as int) == out,
    decreases n,
{
    if n > 0 {
        let o2 = out.push(out[out.len() - offset]);
        lemma_copy_back_len(o2, offset, (n - 1) as nat);
        assert(copy_back(o2, offset, (n - 1) as nat).subrange(0, out.len() as int)
            =~= copy_back(o2, offset, (n - 1) as nat).subrange(0, o2.len() as int).subrange(0, out.len() as int));
        assert(o2.subrange(0, out.len() as int) =~= out);
    } else {
        assert(out.subrange(0, out.len() as int) =~= out);
    }
}

/// A compressed form of `b` made of literals only: chunks of up to eight
/// bytes, each a header `0x8000 + k` for its `k` bytes (a flag byte and `k`
/// literals make `k + 1` payload bytes), a flag byte 0 and the bytes themselves.
pub open spec fn literal_chunks(b: Seq<u8>) -> Seq<u8>
    decreases b.len(),
{
    if b.len() == 0 {
        Seq::empty()
    } else {
        let k = if b.len() < 8 { b.len() as int } else { 8 };
        seq![k as u8, 0x80, 0x00] + b.subrange(0, k) + literal_chunks(b.subrange(k, b.len() as int))
    }
}

/// The literal-only compressed form of `b`, signature byte included.
pub open spec fn literal_form(b: Seq<u8>) -> Seq<u8> {
    seq![1u8] + literal_chunks(b)
}

proof fn lemma_literal_tokens(inp: Seq<u8>, p: int, end: int, out: Seq<u8>, start: int, bit: nat)
    requires
        0 <= p <= end <= inp.len(),
        bit <= 8,
        end - p <= 8 - bit,
    ensures
        tokens_spec(inp, p, end, out, start, 0, bit) == Some((end, out + inp.subrange(p, end))),
    decreases 8 - bit,
{
    if bit >= 8 || p >= end {
        assert(out + inp.subrange(p, end) =~= out);
    } else {
        lemma_literal_tokens(inp, p + 1, end, out.push(inp[p]), start, bit + 1);
        assert(out.push(inp[p]) + inp.subrange(p + 1, end) =~= out + inp.subrange(p, end));
    }
}

#[verifier::rlimit(40)]
proof fn lemma_literal_chunks(inp: Seq<u8>, p: int, b: Seq<u8>, out: Seq<u8>)
    requires
        0 <= p <= inp.len(),
        inp.subrange(p, inp.len() as int) == literal_chunks(b),
    ensures
        chunks_spec(inp, p, out) == Some(out + b),
    decreases b.len(),
{
    if b.len() == 0 {
        assert(out + b =~= out);
        assert(inp.subrange(p, inp.len() as int).len() == 0);
    } else {
        let k = if b.len() < 8 { b.len() as int } else { 8 };
        let rest = b.subrange(k, b.len() as int);
        let tail = inp.subrange(p, inp.len() as int);
        let hdr = seq![k as u8, 0x80, 0x00];
        let first = b.subrange(0, k);
        let lrest = literal_chunks(rest);
        assert(tail == hdr + first + lrest);
        assert(tail.len() == 3 + k + lrest.len());
        assert(inp.len() == p + 3 + k + lrest.len());
        assert forall|j: int| 0 <= j < tail.len() implies #[trigger] inp[p + j] == tail[j] by {}
        assert(inp[p + 0] == tail[0] && inp[p + 1] == tail[1] && inp[p + 2] == tail[2]);
        assert(inp[p] == k as u8 && inp[p + 1] == 0x80u8 && inp[p + 2] == 0x00u8);
        assert(le16_at(inp, p) == 0x8000 + k);
        assert(inp.subrange(p + 3, p + 3 + k) =~= first) by {
            assert forall|j: int| 0 <= j < k implies inp.subrange(p + 3, p + 3 + k)[j] == first[j] by {
                assert(inp[p + (3 + j)] == tail[3 + j]);
            }
        }
        assert(inp.subrange(p + 3 + k, inp.len() as int) =~= lrest) by {
            assert forall|j: int| 0 <= j < lrest.len() implies inp.subrange(p + 3 + k, inp.len() as int)[j] == lrest[j] by {
                assert(inp[p + (3 + k + j)] == tail[3 + k + j]);
            }
        }
        let end = p + 3 + k;
        lemma_literal_tokens(inp, p + 3, end, out, out.len() as int, 0);
        assert(inp[p + 2] as nat == 0);
        assert(tokens_spec(inp, p + 3, end, out, out.len() as int, inp[p + 2] as nat, 0) == Some((end, out + first)));
        assert(runs_spec(inp, p + 2, end, out, out.len() as int) == Some((end, out + first)));
        assert(runs_spec(inp, end, end, out + b.subrange(0, k), out.len() as int) == Some((end, out + b.subrange(0, k))));
        lemma_literal_chunks(inp, end, rest, out + b.subrange(0, k));
        assert(out + b.subrange(0, k) + rest =~= out + b);
    }
}

/// Every byte sequence has a compressed form, starting with the signature
/// byte, that decompresses to it.
pub proof fn lemma_compressed_form_exists(b: Seq<u8>)
    ensures
        literal_form(b)[0] == 1,
        decompress_spec(literal_form(b)) == Some(b),
{
    let c = literal_form(b);
    assert(c.subrange(1, c.len() as int) =~= literal_chunks(b));
    lemma_literal_chunks(c, 1, b, Seq::empty());
    assert(Seq::<u8>::empty() + b =~= b);
}

fn copy_from_back(res: &mut Vec<u8>, offset: usize, n: usize)
    requires
        1 <= offset <= old(res)@.len(),
    ensures
        final(res)@ == copy_back(old(res)@, offset as nat, n as nat),
        final(res)@.len() == old(res)@.len() + n,
{
    proof {
        lemma_copy_back_len(res@, offset as nat, n as nat);
    }
    let ghost target = copy_back(res@, offset as nat, n as nat);
    let mut i: usize = 0;
    while i < n
        invariant
            i <= n,
            1 <= offset <= res@.len(),
            copy_back(res@, offset as nat, (n - i) as nat) == target,
        decreases n - i,
    {
        let v = res[res.len() - offset];
        res.push(v);
        i = i + 1;
    }
}

fn decode_tokens(c: &[u8], p0: usize, end: usize, res: &mut Vec<u8>, start: usize, flag: u8)
    -> (r: Result<usize, ExcelError>)
    requires
        p0 <= end <= c@.len(),
        start <= old(res)@.len(),
    ensures
        match tokens_spec(c@, p0 as int, end as int, old(res)@, start as int, flag as nat, 0) {
            Some(t) => r is Ok && r->Ok_0 == t.0 && final(res)@ == t.1,
            None => r is Err,
        },
        r is Ok ==> p0 <= r->Ok_0 <= c@.len(),
        final(res)@.len() >= old(res)@.len(),
{
    let ghost target = tokens_spec(c@, p0 as int, end as int, res@, start as int, flag as nat, 0);
    let mut p: usize = p0;
    let mut f: u8 = flag;
    let mut bit: usize = 0;
    while bit < 8 && p < end
        invariant
            p0 <= p <= c@.len(),
            end <= c@.len(),
            bit <= 8,
            start <= res@.len(),
            target == tokens_spec(c@, p as int, end as int, res@, start as int, f as nat, bit as nat),
            target == tokens_spec(c@, p0 as int, end as int, old(res)@, start as int, flag as nat, 0),
            res@.len() >= old(res)@.len(),
        decreases 8 - bit,
    {
        if f % 2 == 0 {
            res.push(c[p]);
            p = p + 1;
        } else {
            if c.len() - p < 2 {
                assert(tokens_spec(c@, p as int, end as int, res@, start as int, f as nat, bit as nat) is None);
                return Err(eof());
            }
            let token = (read_u16_at(c, p) as u32);
            let d = res.len() - start;
            let mut k: usize = 4;
            let mut pw: usize = 16;
            proof {
                reveal_with_fuel(pow2, 5);
            }
            while k < 17 && pw < d
                invariant
                    4 <= k <= 17,
                    pw as nat == pow2(k as nat),
                    bit_count(d as nat) == bit_count_from(d as nat, k as nat),
                decreases 17 - k,
            {
                proof {
                    lemma_pow2_mono(k as nat, 16);
                    lemma_pow2_values();
                }
                k = k + 1;
                pw = pw * 2;
            }
            assert(bit_count(d as nat) == k);
            if k > 16 {
                return Err(malformed("copy token beyond the chunk window"));
            }
            let mut split: u32 = 1;
            let mut j: usize = 0;
            while j < 16 - k
                invariant
                    j <= 16 - k,
                    split as nat == pow2(j as nat),
                    k >= 4,
                    split >= 1,
                decreases 16 - k - j,
            {
                proof {
                    lemma_pow2_mono(j as nat, 11);
                    lemma_pow2_values();
                    assert(pow2(11) == 0x800) by {
                        reveal_with_fuel(pow2, 12);
                    }
                }
                split = split * 2;
                j = j + 1;
            }
            let length = token % split + 3;
            let offset = token / split + 1;
            if offset as usize > res.len() - start {
                return Err(malformed("copy token before the start of the chunk"));
            }
            copy_from_back(res, offset as usize, length as usize);
            p = p + 2;
        }
        f = f / 2;
        bit = bit + 1;
    }
    Ok(p)
}

fn decode_runs(c: &[u8], p0: usize, end: usize, res: &mut Vec<u8>, start: usize) -> (r: Result<usize, ExcelError>)
    requires
        p0 <= end <= c@.len(),
        start <= old(res)@.len(),
    ensures
        match runs_spec(c@, p0 as int, end as int, old(res)@, start as int) {
            Some(t) => r is Ok && r->Ok_0 == t.0 && final(res)@ == t.1,
            None => r is Err,
        },
        r is Ok ==> p0 <= r->Ok_0 <= c@.len(),
{
    let ghost target = runs_spec(c@, p0 as int, end as int, res@, start as int);
    let mut p: usize = p0;
    while p < end
        invariant
            p0 <= p <= c@.len(),
            end <= c@.len(),
            start <= res@.len(),
            target == runs_spec(c@, p as int, end as int, res@, start as int),
            target == runs_spec(c@, p0 as int, end as int, old(res)@, start as int),
        decreases c@.len() - p,
    {
        let flag = c[p];
        p = decode_tokens(c, p + 1, end, res, start, flag)?;
    }
    Ok(p)
}

/// Decompresses a VBA stream: a signature byte `0x01`, then chunks, each
/// stored raw (4096 bytes) or as token runs of literals and back-references.
pub fn decompress_stream(c: &[u8]) -> (r: ExcelResult<Vec<u8>>)
    ensures
        match decompress_spec(c@) {
            Some(out) => r is Ok && r->Ok_0@ == out,
            None => r is Err,
        },
        c@.len() > 0 && c@[0] != 1 ==> r is Err && r->Err_0 is Malformed
            && r->Err_0->Malformed_0@ == "invalid signature byte"@,
        c@.len() == 0 ==> r is Err && r->Err_0 is Io,
{
    if c.len() == 0 {
        return Err(eof());
    }
    if c[0] != 1 {
        return Err(malformed("invalid signature byte"));
    }
    let mut res: Vec<u8> = Vec::new();
    let ghost target = decompress_spec(c@);
    let mut p: usize = 1;
    while p < c.len()
        invariant
            1 <= p <= c@.len(),
            c@[0] == 1,
            target == decompress_spec(c@),
            target == chunks_spec(c@, p as int, res@),
        decreases c@.len() - p,
    {
        if c.len() - p < 2 {
            return Err(eof());
        }
        let h = (read_u16_at(c, p) as u32);
        if h < 0x8000 {
            if c.len() - p - 2 < 4096 {
                return Err(eof());
            }
            let mut i: usize = p + 2;
            let stop: usize = p + 4098;
            let ghost before = res@;
            while i < stop
                invariant
                    stop == p + 4098,
                    p + 2 <= i <= stop <= c@.len(),
                    res@ == before + c@.subrange(p + 2, i as int),
                decreases stop - i,
            {
                res.push(c[i]);
                i = i + 1;
                assert(res@ =~= before + c@.subrange(p + 2, i as int));
            }
            p = stop;
        } else {
            // the chunk is `size` bytes, its header included
            let size = (h % 4096 + 3) as usize;
            let end = if c.len() - p < size { c.len() } else { p + size };
            let start = res.len();
            p = decode_runs(c, p + 2, end, &mut res, start)?;
        }
    }
    Ok(res)
}

} // verus!
