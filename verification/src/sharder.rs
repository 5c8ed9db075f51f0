//! Splitting the symbol universe over connections and subscribe frames.

use vstd::prelude::*;
use vstd::string::*;
use crate::mexc_structs::MexcSubscribeMessage;

verus! {

/// The most symbols that one connection may subscribe to.
pub const MAX_SYMBOLS_PER_CONNECTION: usize = 30;

/// The most symbols that one subscribe frame may name.
pub const MAX_SYMBOLS_PER_FRAME: usize = 10;

/// The symbols of one connection, and the same symbols cut into frames.
pub struct ConnectionShard {
    pub symbols: Vec<String>,
    pub frames: Vec<Vec<String>>,
}

/// How many chunks of at most `size` items `len` items make.
pub open spec fn chunk_count(len: int, size: int) -> int {
    (len + size - 1) / size
}

/// Where chunk `k` ends: a full chunk further, or where the items end.
pub open spec fn chunk_end(len: int, size: int, k: int) -> int {
    if (k + 1) * size <= len {
        (k + 1) * size
    } else {
        len
    }
}

/// Chunk `k` of `s` cut into chunks of `size`: the items keep their order.
pub open spec fn chunk(s: Seq<String>, size: int, k: int) -> Seq<String> {
    s.subrange(k * size, chunk_end(s.len() as int, size, k))
}

/// `chunks` is `s` cut into chunks of `size`, in order.
pub open spec fn is_chunking(chunks: Seq<Vec<String>>, s: Seq<String>, size: int) -> bool {
    &&& chunks.len() == chunk_count(s.len() as int, size)
    &&& forall|k: int| 0 <= k < chunks.len() ==> (#[trigger] chunks[k])@ == chunk(s, size, k)
}

/// `shards` is `s` cut into shards of `per_connection`, each cut into frames
/// of `per_frame`.
pub open spec fn is_sharding(
    shards: Seq<ConnectionShard>,
    s: Seq<String>,
    per_connection: int,
    per_frame: int,
) -> bool {
    &&& shards.len() == chunk_count(s.len() as int, per_connection)
    &&& forall|k: int|
        0 <= k < shards.len() ==> {
            &&& (#[trigger] shards[k]).symbols@ == chunk(s, per_connection, k)
            &&& is_chunking(shards[k].frames@, shards[k].symbols@, per_frame)
        }
}

proof fn lemma_mul_step(k: int, size: int)
    ensures
        (k + 1) * size == k * size + size,
{
    assert((k + 1) * size == k * size + size) by (nonlinear_arith);
}

proof fn lemma_chunk_count(len: int, size: int, k: int)
    requires
        size > 0,
        k >= 0,
        k * size >= len,
        k > 0 ==> (k - 1) * size < len,
        len >= 0,
    ensures
        chunk_count(len, size) == k,
{
    lemma_mul_step(k - 1, size);
    assert((len + size - 1) / size == k) by (nonlinear_arith)
        requires
            size > 0,
            k >= 0,
            k * size >= len,
            k * size - size < len || k == 0,
            len >= 0,
    ;
}

/// Every chunk but the last is full, the last holds at least one item, none
/// holds more than `size`, and item `k * size + j` of `s` is item `j` of
/// chunk `k`: the chunks are disjoint and together are `s`.
pub proof fn lemma_chunks_partition(s: Seq<String>, size: int, k: int)
    requires
        size > 0,
        0 <= k < chunk_count(s.len() as int, size),
    ensures
        0 <= k * size < s.len(),
        1 <= chunk(s, size, k).len() <= size,
        k + 1 < chunk_count(s.len() as int, size) ==> chunk(s, size, k).len() == size,
        forall|j: int|
            0 <= j < chunk(s, size, k).len() ==> #[trigger] chunk(s, size, k)[j] == s[k * size + j],
{
    let len = s.len() as int;
    lemma_mul_step(k, size);
    assert(0 <= k * size < len && (k + 1 < (len + size - 1) / size ==> (k + 1) * size < len))
        by (nonlinear_arith)
        requires
            size > 0,
            0 <= k < (len + size - 1) / size,
            len >= 0,
    ;
}

fn copy_range(s: &Vec<String>, start: usize, end: usize) -> (r: Vec<String>)
    requires
        start <= end <= s.len(),
    ensures
        r@ == s@.subrange(start as int, end as int),
{
    let mut out: Vec<String> = Vec::new();
    let mut j: usize = start;
    while j < end
        invariant
            start <= j <= end <= s.len(),
            out@ == s@.subrange(start as int, j as int),
        decreases end - j,
    {
        out.push(s[j].clone());
        assert(s@.subrange(start as int, j + 1) =~= s@.subrange(start as int, j as int).push(
            s[j as int],
        ));
        j += 1;
    }
    out
}

/// Cuts `symbols` into chunks of `size`, keeping order and repeats: every
/// chunk is full but the last, which holds what is left.
pub fn split_chunks(symbols: &Vec<String>, size: usize) -> (r: Vec<Vec<String>>)
    requires
        size > 0,
    ensures
        is_chunking(r@, symbols@, size as int),
{
    let n = symbols.len();
    let mut out: Vec<Vec<String>> = Vec::new();
    let mut start: usize = 0;
    assert(0 == 0 * size) by (nonlinear_arith);
    while start < n
        invariant
            n == symbols.len(),
            size > 0,
            start <= n,
            start == 0 || start < n,
            start == out.len() * size,
            forall|k: int| 0 <= k < out.len() ==> (#[trigger] out[k])@ == chunk(
                symbols@,
                size as int,
                k,
            ),
        decreases n - start,
    {
        let end: usize = if n - start > size {
            start + size
        } else {
            n
        };
        proof {
            lemma_mul_step(out.len() as int, size as int);
        }
        let piece = copy_range(symbols, start, end);
        let ghost before = out@;
        out.push(piece);
        proof {
            assert forall|k: int| 0 <= k < out.len() implies (#[trigger] out[k])@ == chunk(
                symbols@,
                size as int,
                k,
            ) by {
                if k < before.len() {
                    assert(out[k] == before[k]);
                }
            }
            if end == n {
                lemma_chunk_count(n as int, size as int, out.len() as int);
            }
        }
        if end == n {
            return out;
        }
        start = end;
    }
    proof {
        assert(out.len() == 0) by (nonlinear_arith)
            requires
                out.len() * size == 0,
                size > 0,
        ;
        lemma_chunk_count(0, size as int, 0);
    }
    out
}

/// Cuts the symbol universe into connection shards of `per_connection`
/// symbols and each shard into frames of `per_frame`, in input order.
pub fn shard_symbols(symbols: &Vec<String>, per_connection: usize, per_frame: usize) -> (r: Vec<
    ConnectionShard,
>)
    requires
        per_connection > 0,
        per_frame > 0,
    ensures
        is_sharding(r@, symbols@, per_connection as int, per_frame as int),
{
    let mut groups = split_chunks(symbols, per_connection);
    let ghost all = groups@;
    let mut out: Vec<ConnectionShard> = Vec::new();
    let n = groups.len();
    let mut k: usize = 0;
    while k < n
        invariant
            per_frame > 0,
            n == groups.len(),
            groups@ == all,
            is_chunking(all, symbols@, per_connection as int),
            k <= n,
            out.len() == k,
            forall|i: int|
                0 <= i < k ==> {
                    &&& (#[trigger] out[i]).symbols@ == chunk(symbols@, per_connection as int, i)
                    &&& is_chunking(out[i].frames@, out[i].symbols@, per_frame as int)
                },
        decreases n - k,
    {
        let frames = split_chunks(&groups[k], per_frame);
        let members = copy_range(&groups[k], 0, groups[k].len());
        assert(members@ =~= groups[k as int]@);
        let ghost before = out@;
        out.push(ConnectionShard { symbols: members, frames });
        proof {
            assert forall|i: int| 0 <= i < k + 1 implies {
                &&& (#[trigger] out[i]).symbols@ == chunk(symbols@, per_connection as int, i)
                &&& is_chunking(out[i].frames@, out[i].symbols@, per_frame as int)
            } by {
                if i < k {
                    assert(out[i] == before[i]);
                }
            }
        }
        k += 1;
    }
    out
}

/// The name of the live kline channel of `symbol`.
pub open spec fn channel_name(symbol: Seq<char>) -> Seq<char> {
    "spot@public.kline.v3.api@"@ + symbol + "@Min1"@
}

/// The subscribe request of one frame: the method word and, for each symbol
/// of the frame, in order, the name of its channel.
pub fn subscribe_message(frame: &Vec<String>) -> (r: MexcSubscribeMessage)
    ensures
        r.method@ == "SUBSCRIPTION"@,
        r.params.len() == frame.len(),
        forall|i: int| 0 <= i < frame.len() ==> (#[trigger] r.params[i])@ == channel_name(frame[i]@),
{
    let mut params: Vec<String> = Vec::new();
    let n = frame.len();
    let mut i: usize = 0;
    while i < n
        invariant
            n == frame.len(),
            i <= n,
            params.len() == i,
            forall|j: int| 0 <= j < i ==> (#[trigger] params[j])@ == channel_name(frame[j]@),
        decreases n - i,
    {
        let mut name = String::from_str("spot@public.kline.v3.api@");
        name.append(frame[i].as_str());
        name.append("@Min1");
        let ghost before = params@;
        params.push(name);
        proof {
            assert forall|j: int| 0 <= j < i + 1 implies (#[trigger] params[j])@ == channel_name(
                frame[j]@,
            ) by {
                if j < i {
                    assert(params[j] == before[j]);
                }
            }
        }
        i += 1;
    }
    MexcSubscribeMessage { method: String::from_str("SUBSCRIPTION"), params }
}

} // verus!
