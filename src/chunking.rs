//! Splitting a token sequence into overlapping chunks for embedding.
use vstd::prelude::*;

verus! {

/// Where a chunk lies: its start and end token offsets, and its source.
#[derive(Debug, Clone)]
pub struct ChunkMetadata {
    pub start_idx: usize,
    pub end_idx: usize,
    pub source_file: String,
    pub language: Option<String>,
}

/// Chunk `i` of a text of `n` tokens: it starts `i * step` tokens in and
/// holds up to `size` tokens.
pub open spec fn chunk_span(n: int, size: int, step: int, i: int) -> (usize, usize) {
    let start = i * step;
    (start as usize, if start + size < n {
        (start + size) as usize
    } else {
        n as usize
    })
}

/// The token spans `[start, end)` of the chunks of a text of `n_tokens`
/// tokens: a text that fits in one chunk is one span; otherwise chunks of
/// `chunk_size` tokens start every `chunk_size - chunk_overlap` tokens, for
/// as long as they start inside the text, and the last one may be shorter.
pub fn chunk_spans(n_tokens: usize, chunk_size: usize, chunk_overlap: usize) -> (r: Vec<(usize, usize)>)
    requires
        chunk_overlap < chunk_size,
    ensures
        n_tokens <= chunk_size ==> r@ == seq![(0usize, n_tokens)],
        n_tokens > chunk_size ==> {
            let step = chunk_size - chunk_overlap;
            &&& r.len() >= 1
            &&& (r.len() - 1) * step < n_tokens <= r.len() * step
            &&& forall|i: int| 0 <= i < r.len() ==> #[trigger] r@[i] == chunk_span(n_tokens as int, chunk_size as int, step as int, i)
        },
{
    let mut out: Vec<(usize, usize)> = Vec::new();
    if n_tokens <= chunk_size {
        out.push((0, n_tokens));
        return out;
    }
    let step = chunk_size - chunk_overlap;
    let mut start: usize = 0;
    proof {
        assert(out.len() == 0);
        assert(out.len() * step == 0) by (nonlinear_arith)
            requires
                out.len() == 0,
        ;
    }
    loop
        invariant
            n_tokens > chunk_size,
            step == chunk_size - chunk_overlap,
            step >= 1,
            start < n_tokens,
            start as int == out.len() * step,
            forall|i: int| 0 <= i < out.len() ==> #[trigger] out@[i] == chunk_span(n_tokens as int, chunk_size as int, step as int, i),
            out.len() >= 1 ==> (out.len() - 1) * step < n_tokens,
        decreases n_tokens - start,
    {
        let end = if n_tokens - start > chunk_size {
            start + chunk_size
        } else {
            n_tokens
        };
        let ghost k = out.len() as int;
        out.push((start, end));
        proof {
            assert(out@[k] == chunk_span(n_tokens as int, chunk_size as int, step as int, k));
        }
        if n_tokens - start <= step {
            proof {
                assert((out.len() - 1) * step < n_tokens) by (nonlinear_arith)
                    requires
                        start as int == (out.len() - 1) * step,
                        start < n_tokens,
                ;
                assert(n_tokens <= out.len() * step) by (nonlinear_arith)
                    requires
                        start as int == (out.len() - 1) * step,
                        n_tokens - start <= step,
                ;
            }
            return out;
        }
        start = start + step;
        proof {
            assert(start as int == out.len() * step) by (nonlinear_arith)
                requires
                    start - step == (out.len() - 1) * step,
            ;
        }
    }
}

} // verus!
