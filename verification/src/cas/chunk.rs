use vstd::prelude::*;

verus! {

/// Smallest chunk FastCDC may cut (but for the last one): 256 KiB.
pub const MIN_CHUNK_SIZE: u32 = 262144;
/// Target chunk size: 1 MiB.
pub const AVG_CHUNK_SIZE: u32 = 1048576;
/// Largest chunk FastCDC may cut: 4 MiB.
pub const MAX_CHUNK_SIZE: u32 = 4194304;

/// The `(offset, length)` pairs that the FastCDC 2020 iterator yields for
/// `data` with the given size parameters.
pub uninterp spec fn fastcdc_chunks(data: Seq<u8>, min: u32, avg: u32, max: u32) -> Seq<(usize, usize)>;

/// Total length of the first `i` cuts.
pub open spec fn cut_end(cuts: Seq<(usize, usize)>, i: int) -> int
    decreases i,
{
    if i <= 0 {
        0
    } else {
        cut_end(cuts, i - 1) + cuts[i - 1].1
    }
}

/// The cuts are non-empty, contiguous from offset 0, and end at `len`.
pub open spec fn cuts_cover(cuts: Seq<(usize, usize)>, len: int) -> bool {
    &&& forall|i: int| 0 <= i < cuts.len() ==> (#[trigger] cuts[i]).1 > 0
    &&& forall|i: int| 0 <= i < cuts.len() ==> (#[trigger] cuts[i]).0 == cut_end(cuts, i)
    &&& cut_end(cuts, cuts.len() as int) == len
}

/// The byte ranges that the cuts select.
pub open spec fn chunks_of(data: Seq<u8>, cuts: Seq<(usize, usize)>) -> Seq<Seq<u8>> {
    cuts.map_values(|c: (usize, usize)| data.subrange(c.0 as int, c.0 + c.1))
}

/// The chunks that `chunk_data` cuts `data` into.
pub open spec fn spec_chunks(data: Seq<u8>) -> Seq<Seq<u8>> {
    if data.len() == 0 {
        Seq::empty()
    } else {
        chunks_of(data, fastcdc_chunks(data, MIN_CHUNK_SIZE, AVG_CHUNK_SIZE, MAX_CHUNK_SIZE))
    }
}

/// Concatenation of a sequence of byte strings, in order.
pub open spec fn concat(parts: Seq<Seq<u8>>) -> Seq<u8>
    decreases parts.len(),
{
    if parts.len() == 0 {
        Seq::empty()
    } else {
        concat(parts.drop_last()) + parts.last()
    }
}

/// Trusted: the FastCDC 2020 iterator (`fastcdc::v2020::FastCDC`) yields
/// chunks that start at offset 0, follow each other without gap, are never
/// empty, are at most `max` bytes long, and end at the end of the data.
/// The size parameters must lie within the bounds that `FastCDC::new` asserts
/// and be ordered `min <= avg <= max`: `cut_gear` caps a cut at `max` only
/// when `min <= max`, and reads no further than the data only when
/// `avg <= max`.
#[verifier::external_body]
fn fastcdc_cut_points(data: &[u8], min: u32, avg: u32, max: u32) -> (res: Vec<(usize, usize)>)
    requires
        64 <= min <= 1048576,
        256 <= avg <= 4194304,
        1024 <= max <= 16777216,
        min <= avg <= max,
    ensures
        res@ == fastcdc_chunks(data@, min, avg, max),
        cuts_cover(res@, data@.len() as int),
        forall|i: int| 0 <= i < res@.len() ==> (#[trigger] res@[i]).1 <= max,
{
    fastcdc::v2020::FastCDC::new(data, min, avg, max).map(|c| (c.offset, c.length)).collect()
}

/// Cut ends grow with the number of cuts.
pub proof fn lemma_cut_end_mono(cuts: Seq<(usize, usize)>, i: int, j: int)
    requires
        0 <= i <= j <= cuts.len(),
    ensures
        cut_end(cuts, i) <= cut_end(cuts, j),
    decreases j - i,
{
    if i < j {
        lemma_cut_end_mono(cuts, i, j - 1);
    }
}

/// The first `k` chunks, put together, are the first `cut_end(k)` bytes.
pub proof fn lemma_concat_prefix(data: Seq<u8>, cuts: Seq<(usize, usize)>, k: int)
    requires
        cuts_cover(cuts, data.len() as int),
        0 <= k <= cuts.len(),
    ensures
        concat(chunks_of(data, cuts).take(k)) == data.subrange(0, cut_end(cuts, k)),
    decreases k,
{
    let parts = chunks_of(data, cuts);
    lemma_cut_end_mono(cuts, k, cuts.len() as int);
    if k == 0 {
        assert(parts.take(0) =~= Seq::<Seq<u8>>::empty());
        assert(data.subrange(0, 0) =~= Seq::<u8>::empty());
    } else {
        lemma_concat_prefix(data, cuts, k - 1);
        assert(parts.take(k).drop_last() =~= parts.take(k - 1));
        let c = cuts[k - 1];
        assert(c.0 == cut_end(cuts, k - 1));
        assert(data.subrange(0, cut_end(cuts, k)) =~= data.subrange(0, cut_end(cuts, k - 1))
            + data.subrange(c.0 as int, c.0 + c.1));
    }
}

/// Chunks cut by covering cuts put back together give the data.
pub proof fn lemma_chunks_concat(data: Seq<u8>, cuts: Seq<(usize, usize)>)
    requires
        cuts_cover(cuts, data.len() as int),
    ensures
        concat(chunks_of(data, cuts)) == data,
{
    lemma_concat_prefix(data, cuts, cuts.len() as int);
    assert(chunks_of(data, cuts).take(cuts.len() as int) =~= chunks_of(data, cuts));
    assert(data.subrange(0, data.len() as int) =~= data);
}

/// The views of a sequence of byte vectors.
pub open spec fn views(v: Seq<Vec<u8>>) -> Seq<Seq<u8>> {
    v.map_values(|b: Vec<u8>| b@)
}

/// Splits `data` into content-defined chunks with FastCDC (256 KiB min,
/// 1 MiB average, 4 MiB max). Empty data gives no chunks.
pub fn chunk_data(data: &[u8]) -> (res: Vec<Vec<u8>>)
    ensures
        views(res@) == spec_chunks(data@),
        concat(views(res@)) == data@,
        data@.len() == 0 <==> res@.len() == 0,
        forall|i: int| 0 <= i < res@.len() ==> 0 < (#[trigger] res@[i])@.len() <= MAX_CHUNK_SIZE,
{
    if data.len() == 0 {
        let res: Vec<Vec<u8>> = Vec::new();
        assert(views(res@) =~= spec_chunks(data@));
        return res;
    }
    let cuts = fastcdc_cut_points(data, MIN_CHUNK_SIZE, AVG_CHUNK_SIZE, MAX_CHUNK_SIZE);
    let mut out: Vec<Vec<u8>> = Vec::new();
    let mut i: usize = 0;
    while i < cuts.len()
        invariant
            i <= cuts@.len(),
            cuts@ == fastcdc_chunks(data@, MIN_CHUNK_SIZE, AVG_CHUNK_SIZE, MAX_CHUNK_SIZE),
            cuts_cover(cuts@, data@.len() as int),
            forall|k: int| 0 <= k < cuts@.len() ==> (#[trigger] cuts@[k]).1 <= MAX_CHUNK_SIZE,
            out@.len() == i,
            views(out@) == spec_chunks(data@).take(i as int),
        decreases cuts@.len() - i,
    {
        let (off, len) = cuts[i];
        let dlen = data.len();
        proof {
            assert(cut_end(cuts@, i as int + 1) == cut_end(cuts@, i as int) + cuts@[i as int].1);
            lemma_cut_end_mono(cuts@, i as int + 1, cuts@.len() as int);
            assert(off == cut_end(cuts@, i as int));
            assert(off + len <= dlen);
        }
        let piece = vstd::slice::slice_to_vec(vstd::slice::slice_subrange(data, off, off + len));
        out.push(piece);
        assert(views(out@) =~= spec_chunks(data@).take(i as int + 1));
        i += 1;
    }
    assert(spec_chunks(data@).take(cuts@.len() as int) =~= spec_chunks(data@));
    proof {
        lemma_chunks_concat(data@, cuts@);
        assert forall|k: int| 0 <= k < out@.len() implies 0 < (#[trigger] out@[k])@.len() <= MAX_CHUNK_SIZE by {
            assert(views(out@)[k] == out@[k]@);
            assert(cuts@[k].1 > 0);
            assert(cut_end(cuts@, k + 1) == cut_end(cuts@, k) + cuts@[k].1);
            lemma_cut_end_mono(cuts@, k + 1, cuts@.len() as int);
            lemma_cut_end_mono(cuts@, 0, k);
        }
        assert(cut_end(cuts@, 0) == 0);
    }
    out
}

} // verus!
