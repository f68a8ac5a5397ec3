use crate::error::RepoError;
use crate::structs::{ChunkerConf, Hash256, Key256};
use crate::traits::{blake3_keyed_hash, keyed_hash};
use hash_roll::fastcdc::{FastCdc, FastCdcIncr};
use hash_roll::gear_table::GEAR_64;
use hash_roll::ChunkIncr;
use vstd::arithmetic::power2::*;
use vstd::bits::*;
use vstd::prelude::*;
use vstd::slice::*;
use vstd::std_specs::bits::*;

verus! {

/// `k` is the position of the highest set bit of `x`: `2^k <= x < 2^(k+1)`.
pub open spec fn is_log2_floor(x: u64, k: u64) -> bool {
    &&& k < 64
    &&& pow2(k as nat) <= x
    &&& x < 2 * pow2(k as nat)
}

/// At most one `k` brackets `x` between consecutive powers of two.
pub proof fn lemma_log2_floor_unique(x: u64, j: u64, k: u64)
    requires
        is_log2_floor(x, j),
        is_log2_floor(x, k),
    ensures
        j == k,
{
    if j < k {
        lemma_pow2_strictly_increases(j as nat + 1, k as nat + 1);
        lemma_pow2_unfold(j as nat + 1);
        lemma_pow2_unfold(k as nat + 1);
        if j + 1 < k {
            lemma_pow2_strictly_increases(j as nat + 1, k as nat);
        }
    } else if k < j {
        lemma_pow2_unfold(k as nat + 1);
        if k + 1 < j {
            lemma_pow2_strictly_increases(k as nat + 1, j as nat);
        }
    }
}

/// Calculates the integer logarithm to base two of a [u64], rounded down.
/// Zero has no logarithm.
pub fn log2u64(x: u64) -> (r: Option<u64>)
    ensures
        x == 0 <==> r is None,
        r matches Some(k) ==> is_log2_floor(x, k),
{
    match x {
        0 => None,
        _ => {
            let lz: u32 = x.leading_zeros();
            proof {
                axiom_u64_leading_zeros(x);
            }
            let k: u64 = 63u64 - lz as u64;
            proof {
                let top: u64 = (k + 1) as u64;
                assert((x >> k) & 1u64 != 0u64);
                assert(x >> top == 0);
                assert(k < 64 && (x >> k) & 1u64 != 0u64 ==> x >= (1u64 << k)) by (bit_vector);
                assert(k < 63 && top == k + 1 && x >> top == 0 ==> x < (1u64 << top))
                    by (bit_vector);
                lemma_u64_pow2_no_overflow(k as nat);
                lemma_u64_shl_is_mul(1u64, k);
                lemma_pow2_unfold(k as nat + 1);
                if k < 63 {
                    lemma_u64_pow2_no_overflow(top as nat);
                    lemma_u64_shl_is_mul(1u64, top);
                } else {
                    lemma2_to64_rest();
                    lemma_pow2_unfold(64);
                }
            }
            Some(k)
        },
    }
}

/// Where FastCDC, with the gear table of the repository and the given
/// sizes, first cuts `data`: the index of the cut, or nothing where it finds
/// no cut in `data`.
pub uninterp spec fn fastcdc_cut(data: Seq<u8>, min: u64, avg: u64, max: u64) -> Option<nat>;

/// `hash_roll::fastcdc::FastCdcIncr::push` on a chunker that has seen no
/// data yet, made by `FastCdc::new` with the table `GEAR_64` and the sizes
/// of `conf`: the index at which it cuts `data`, if it finds a cut. With
/// sizes in order, it looks for a cut from the minimum on and cuts at the
/// maximum at the latest: a cut lies between the two and within the data,
/// and data that it does not cut is no longer than the maximum.
#[verifier::external_body]
fn find_cut(data: &[u8], conf: &ChunkerConf) -> (r: Option<usize>)
    ensures
        match r {
            Some(cut) => fastcdc_cut(
                data@,
                conf.minimum_chunk_size,
                conf.average_chunk_size,
                conf.maximum_chunk_size,
            ) == Some(cut as nat),
            None => fastcdc_cut(
                data@,
                conf.minimum_chunk_size,
                conf.average_chunk_size,
                conf.maximum_chunk_size,
            ) is None,
        },
        conf.is_valid() && conf.maximum_chunk_size <= usize::MAX ==> match r {
            Some(cut) => conf.minimum_chunk_size <= cut <= conf.maximum_chunk_size && cut
                <= data@.len(),
            None => data@.len() <= conf.maximum_chunk_size,
        },
{
    let cdc = FastCdc::new(
        &GEAR_64,
        conf.minimum_chunk_size,
        conf.average_chunk_size,
        conf.maximum_chunk_size,
    );
    let mut chunker = FastCdcIncr::from(&cdc);
    chunker.push(data)
}

/// The length of a chunk, given how many bytes are left and where the
/// chunker cuts them: up to the cut, and all that is left where there is no
/// cut or the cut lies outside.
pub open spec fn chunk_len_for(remaining: nat, cut: Option<nat>) -> nat {
    match cut {
        Some(c) => if 0 < c <= remaining {
            c
        } else {
            remaining
        },
        None => remaining,
    }
}

/// The length of the first chunk of `data`.
pub open spec fn first_chunk_len(data: Seq<u8>, conf: ChunkerConf) -> nat {
    chunk_len_for(
        data.len(),
        fastcdc_cut(
            data,
            conf.minimum_chunk_size,
            conf.average_chunk_size,
            conf.maximum_chunk_size,
        ),
    )
}

/// The chunks of `data`, in the order of the data: the first chunk, then the
/// chunks of what follows it.
pub open spec fn chunks_of(data: Seq<u8>, conf: ChunkerConf) -> Seq<Seq<u8>>
    decreases data.len(),
{
    if data.len() == 0 {
        Seq::empty()
    } else {
        let n = first_chunk_len(data, conf);
        seq![data.take(n as int)] + chunks_of(data.skip(n as int), conf)
    }
}

/// The chunks of any data, put together again, are the data; and no chunk is
/// empty.
pub proof fn lemma_chunks_cover(data: Seq<u8>, conf: ChunkerConf)
    ensures
        chunks_of(data, conf).flatten() == data,
        forall|i: int| 0 <= i < chunks_of(data, conf).len() ==> chunks_of(data, conf)[i].len() > 0,
    decreases data.len(),
{
    if data.len() == 0 {
        assert(chunks_of(data, conf).flatten() =~= data);
    } else {
        let n = first_chunk_len(data, conf);
        let rest = chunks_of(data.skip(n as int), conf);
        lemma_chunks_cover(data.skip(n as int), conf);
        let all = seq![data.take(n as int)] + rest;
        assert(all.first() == data.take(n as int));
        assert(all.drop_first() =~= rest);
        assert(all.flatten() =~= data.take(n as int) + rest.flatten());
        assert(data.take(n as int) + data.skip(n as int) =~= data);
        assert forall|i: int| 0 <= i < all.len() implies all[i].len() > 0 by {
            if i > 0 {
                assert(all[i] == rest[i - 1]);
            }
        }
    }
}

/// The length of the next chunk, given how many bytes are left and what the
/// chunker answered for them.
pub fn chunk_len(remaining: usize, cut: Option<usize>) -> (n: usize)
    ensures
        n == chunk_len_for(
            remaining as nat,
            match cut {
                Some(c) => Some(c as nat),
                None => None,
            },
        ),
{
    match cut {
        Some(c) => if 0 < c && c <= remaining {
            c
        } else {
            remaining
        },
        None => remaining,
    }
}

/// Calculate chunks, chunk hashes and a file-hash of the content of a file.
/// Returns the chunks in the order of the file, each with its hash under
/// `chunk_hash_key`, and the hash of the whole content under `file_hash_key`.
pub fn chunk_and_hash(
    data: &[u8],
    conf: &ChunkerConf,
    chunk_hash_key: &Key256,
    file_hash_key: &Key256,
) -> (r: Result<(Vec<(Vec<u8>, Hash256)>, Hash256), RepoError>)
    ensures
        r matches Ok((chunks, file_hash)) && {
            &&& file_hash@ == blake3_keyed_hash(file_hash_key@, data@)
            &&& chunks@.len() == chunks_of(data@, *conf).len()
            &&& forall|i: int|
                0 <= i < chunks@.len() ==> (#[trigger] chunks@[i]).0@ == chunks_of(data@, *conf)[i]
                    && chunks@[i].1@ == blake3_keyed_hash(chunk_hash_key@, chunks@[i].0@)
            &&& conf.is_valid() && conf.maximum_chunk_size <= usize::MAX ==> forall|i: int|
                0 <= i < chunks@.len() ==> (#[trigger] chunks@[i]).0@.len()
                    <= conf.maximum_chunk_size && (i < chunks@.len() - 1
                    ==> conf.minimum_chunk_size <= chunks@[i].0@.len())
        },
{
    let total = data.len();
    let mut chunks: Vec<(Vec<u8>, Hash256)> = Vec::new();
    let mut pos: usize = 0;
    proof {
        assert(data@.skip(0) =~= data@);
        assert(Seq::new(chunks@.len(), |i: int| chunks@[i].0@) + chunks_of(data@, *conf)
            =~= chunks_of(data@, *conf));
    }
    while pos < total
        invariant
            pos <= total,
            total == data@.len(),
            chunks_of(data@, *conf) == Seq::new(chunks@.len(), |i: int| chunks@[i].0@) + chunks_of(
                data@.skip(pos as int),
                *conf,
            ),
            forall|i: int|
                0 <= i < chunks@.len() ==> (#[trigger] chunks@[i]).1@ == blake3_keyed_hash(
                    chunk_hash_key@,
                    chunks@[i].0@,
                ),
            conf.is_valid() && conf.maximum_chunk_size <= usize::MAX ==> forall|i: int|
                0 <= i < chunks@.len() ==> (#[trigger] chunks@[i]).0@.len()
                    <= conf.maximum_chunk_size && (i < chunks@.len() - 1 || pos < total
                    ==> conf.minimum_chunk_size <= chunks@[i].0@.len()),
        decreases total - pos,
    {
        let rest = slice_subrange(data, pos, total);
        let n = chunk_len(rest.len(), find_cut(rest, conf));
        let chunk = slice_to_vec(slice_subrange(rest, 0, n));
        let hash = keyed_hash(chunk.as_slice(), chunk_hash_key);
        let ghost before = Seq::new(chunks@.len(), |i: int| chunks@[i].0@);
        proof {
            assert(rest@ == data@.skip(pos as int));
            assert(n == first_chunk_len(rest@, *conf));
            assert(chunk@ == rest@.take(n as int));
            assert(rest@.skip(n as int) =~= data@.skip(pos + n));
        }
        chunks.push((chunk, hash));
        proof {
            let after = Seq::new(chunks@.len(), |i: int| chunks@[i].0@);
            assert(after =~= before + seq![rest@.take(n as int)]);
            assert(chunks_of(data@, *conf) =~= after + chunks_of(data@.skip(pos + n), *conf));
        }
        pos += n;
    }
    proof {
        assert(data@.skip(pos as int).len() == 0);
        let listed = Seq::new(chunks@.len(), |i: int| chunks@[i].0@);
        assert(chunks_of(data@, *conf) =~= listed);
    }
    let file_hash = keyed_hash(data, file_hash_key);
    Ok((chunks, file_hash))
}

} // verus!
