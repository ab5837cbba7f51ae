//! The concurrent resolver's verified half: worker-count policy and the
//! order-preserving chunking that fans metadata resolution out and merges
//! results back.
//!
//! Threads themselves run outside the library; they receive contiguous seed
//! chunks produced here and their results are concatenated in chunk order,
//! which keeps siblings in their original listing order.

use vstd::prelude::*;
use crate::config::Cli;
use crate::meta::{opt_view, FileKind};

verus! {

/// Mathematical view of an [`EntrySeed`].
pub ghost struct EntrySeedV {
    pub path: Seq<char>,
    pub name: Seq<char>,
    pub file_type_hint: Option<FileKind>,
    pub file_type_error: Option<Seq<char>>,
}

/// The minimal data captured during a directory listing, enough to schedule
/// metadata resolution for one entry.
pub struct EntrySeed {
    pub path: String,
    pub name: String,
    pub file_type_hint: Option<FileKind>,
    pub file_type_error: Option<String>,
}

impl View for EntrySeed {
    type V = EntrySeedV;

    open spec fn view(&self) -> EntrySeedV {
        EntrySeedV {
            path: self.path@,
            name: self.name@,
            file_type_hint: self.file_type_hint,
            file_type_error: opt_view(self.file_type_error),
        }
    }
}

/// The bounded worker pool configuration.
pub struct JobPool {
    pub workers: usize,
}

impl JobPool {
    /// Validates the configured worker count: zero is rejected, values above
    /// 256 are clamped there.
    pub fn new(cli: &Cli) -> (r: Result<JobPool, String>)
        ensures
            match r {
                Result::Ok(p) => cli.jobs >= 1 && p.workers == (if cli.jobs > 256 {
                    256int
                } else {
                    cli.jobs as int
                }),
                Result::Err(_) => cli.jobs == 0,
            },
    {
        if cli.jobs == 0 {
            return Result::Err(String::from_str("--jobs must be >= 1"));
        }
        let workers = if cli.jobs > 256 {
            256
        } else {
            cli.jobs
        };
        Result::Ok(JobPool { workers })
    }

    /// The worker count.
    pub fn workers(&self) -> (r: usize)
        ensures
            r == self.workers,
    {
        self.workers
    }

    /// Whether resolution fans out to more than one worker.
    pub fn is_parallel(&self) -> (r: bool)
        ensures
            r == (self.workers > 1),
    {
        self.workers > 1
    }
}

/// Concatenation of a sequence of sequences, in order.
pub open spec fn spec_flatten<T>(chunks: Seq<Seq<T>>) -> Seq<T>
    decreases chunks.len(),
{
    if chunks.len() == 0 {
        Seq::empty()
    } else {
        spec_flatten(chunks.drop_last()) + chunks.last()
    }
}

/// View of a chunk list as a sequence of sequences.
pub open spec fn chunks_view<T>(chunks: Seq<Vec<T>>) -> Seq<Seq<T>> {
    chunks.map_values(|c: Vec<T>| c@)
}

/// Splits the seeds into at most `workers` contiguous chunks whose
/// concatenation is exactly the input, each chunk holding at most
/// ceiling(count / workers) seeds. Chunk order is seed order, so
/// concatenating per-chunk results preserves the original listing order.
pub fn chunk_seeds(seeds: Vec<EntrySeed>, workers: usize) -> (r: Vec<Vec<EntrySeed>>)
    requires
        workers >= 1,
    ensures
        spec_flatten(chunks_view(r@)) == seeds@,
        r@.len() <= workers,
        forall|i: int|
            0 <= i < r@.len() ==> #[trigger] r@[i]@.len() <= (seeds@.len() + workers - 1) as int
                / workers as int,
{
    let total = seeds.len();
    let w = if total == 0 {
        1
    } else if workers < total {
        workers
    } else {
        total
    };
    let q = total / w;
    let rem = total % w;
    let mut chunk = q;
    if rem != 0 {
        proof {
            assert(q < total) by (nonlinear_arith)
                requires
                    1 <= w,
                    q == total as int / w as int,
                    rem == total as int % w as int,
                    rem != 0,
            {}
        }
        chunk = q + 1;
    }
    let ghost cap = (seeds@.len() + workers - 1) as int / workers as int;
    proof {
        assert(chunk as int == (total as int + w as int - 1) / w as int) by (nonlinear_arith)
            requires
                1 <= w,
                q == total as int / w as int,
                rem == total as int % w as int,
                chunk == (if rem == 0 {
                    q as int
                } else {
                    q + 1
                }),
        {}
        if total == 0 {
            assert(chunk == 0);
            assert(cap >= 0) by (nonlinear_arith)
                requires
                    workers >= 1,
                    cap == (workers as int - 1) / workers as int,
            {}
        } else if workers < total {
            assert(w == workers);
            assert(chunk == cap);
            assert(w as int * chunk as int >= total as int && chunk >= 1) by (nonlinear_arith)
                requires
                    1 <= w,
                    total >= 1,
                    chunk as int == (total as int + w as int - 1) / w as int,
            {}
        } else {
            assert(w == total);
            assert(chunk == 1 && cap >= 1) by (nonlinear_arith)
                requires
                    1 <= total,
                    total <= workers,
                    w == total as int,
                    chunk as int == (total as int + w as int - 1) / w as int,
                    cap == (total as int + workers as int - 1) / workers as int,
            {}
        }
    }
    let mut rest = seeds;
    let mut out: Vec<Vec<EntrySeed>> = Vec::new();
    let ghost all = rest@;
    while rest.len() > 0
        invariant
            workers >= 1,
            w <= workers || all.len() == 0,
            w as int * chunk as int >= all.len(),
            all.len() > 0 ==> chunk >= 1,
            chunk <= cap,
            cap == (all.len() + workers - 1) as int / workers as int,
            spec_flatten(chunks_view(out@)) + rest@ =~= all,
            forall|i: int| 0 <= i < out@.len() ==> #[trigger] out@[i]@.len() <= chunk,
            rest@.len() > 0 ==> out@.len() * chunk + rest@.len() == all.len(),
            out@.len() == 0 || (out@.len() - 1) * chunk < all.len(),
        decreases rest@.len(),
    {
        let ghost pre_out = out@;
        let ghost pre_rest = rest@;
        let mut c: Vec<EntrySeed> = Vec::new();
        let mut k: usize = 0;
        while k < chunk && rest.len() > 0
            invariant
                k <= chunk,
                c@.len() == k,
                c@ + rest@ =~= pre_rest,
            decreases chunk - k,
        {
            let s = rest.remove(0);
            c.push(s);
            proof {
                assert(c@ + rest@ =~= pre_rest);
            }
            k = k + 1;
        }
        out.push(c);
        proof {
            assert(chunks_view(out@).drop_last() =~= chunks_view(pre_out));
            assert(spec_flatten(chunks_view(out@)) == spec_flatten(chunks_view(pre_out))
                + out@.last()@);
            assert(spec_flatten(chunks_view(out@)) + rest@ =~= all);
            assert((pre_out.len() + 1) * chunk == pre_out.len() * chunk + chunk)
                by (nonlinear_arith);
            if rest@.len() > 0 {
                assert(k == chunk);
                assert(out@.len() * chunk + rest@.len() == all.len());
            }
            assert(pre_out.len() * chunk <= all.len() - pre_rest.len());
        }
    }
    proof {
        assert(spec_flatten(chunks_view(out@)) =~= all);
        if out@.len() > 0 {
            assert((out@.len() - 1) * chunk < all.len());
            assert(all.len() <= w as int * chunk as int);
            assert(out@.len() - 1 < w) by (nonlinear_arith)
                requires
                    (out@.len() - 1) * chunk < all.len(),
                    all.len() <= w as int * chunk as int,
                    chunk >= 1,
            {}
        }
    }
    out
}

/// Concatenates per-chunk results back together, in chunk order.
pub fn merge_chunks<T>(chunks: Vec<Vec<T>>) -> (r: Vec<T>)
    ensures
        r@ == spec_flatten(chunks_view(chunks@)),
{
    let mut out: Vec<T> = Vec::new();
    let mut rest = chunks;
    let ghost all = chunks_view(rest@);
    while rest.len() > 0
        invariant
            out@ + spec_flatten(chunks_view(rest@)) =~= spec_flatten(all),
        decreases rest@.len(),
    {
        let ghost full = chunks_view(rest@);
        let mut c = rest.remove(0);
        let ghost cv = c@;
        let ghost pre_out = out@;
        out.append(&mut c);
        proof {
            assert(chunks_view(rest@) =~= full.drop_first());
            assert(full[0] == cv);
            lemma_flatten_first(full);
            assert(pre_out + (cv + spec_flatten(full.drop_first())) =~= (pre_out + cv)
                + spec_flatten(full.drop_first()));
            assert(out@ + spec_flatten(chunks_view(rest@)) =~= spec_flatten(all));
        }
    }
    proof {
        assert(chunks_view(rest@) =~= Seq::<Seq<T>>::empty());
        assert(out@ =~= spec_flatten(all));
    }
    out
}

/// Flattening a non-empty chunk list takes the first chunk first.
proof fn lemma_flatten_first<T>(chunks: Seq<Seq<T>>)
    requires
        chunks.len() > 0,
    ensures
        spec_flatten(chunks) == chunks[0] + spec_flatten(chunks.drop_first()),
    decreases chunks.len(),
{
    if chunks.len() == 1 {
        assert(chunks.drop_last() =~= Seq::<Seq<T>>::empty());
        assert(chunks.drop_first() =~= Seq::<Seq<T>>::empty());
        assert(chunks[0] + spec_flatten(chunks.drop_first()) =~= chunks.last());
    } else {
        let d = chunks.drop_last();
        lemma_flatten_first(d);
        assert(d[0] == chunks[0]);
        assert(chunks.drop_first().drop_last() =~= d.drop_first());
        assert(spec_flatten(chunks) == spec_flatten(d) + chunks.last());
        assert(spec_flatten(chunks.drop_first()) == spec_flatten(chunks.drop_first().drop_last())
            + chunks.drop_first().last());
        assert(chunks.drop_first().last() == chunks.last());
        assert(chunks[0] + (spec_flatten(d.drop_first()) + chunks.last()) =~= (chunks[0]
            + spec_flatten(d.drop_first())) + chunks.last());
    }
}

/// Chunk-wise application of a resolution function, then concatenation,
/// yields the same sequence as applying it to the seeds in order: the
/// concurrent and the sequential paths produce identical results in
/// identical order.
pub proof fn lemma_chunked_resolution_preserves_order<S, M>(
    chunks: Seq<Seq<S>>,
    resolve: spec_fn(S) -> M,
)
    ensures
        spec_flatten(chunks.map_values(|c: Seq<S>| c.map_values(resolve)))
            == spec_flatten(chunks).map_values(resolve),
    decreases chunks.len(),
{
    if chunks.len() == 0 {
        assert(spec_flatten(chunks).map_values(resolve) =~= Seq::<M>::empty());
        assert(chunks.map_values(|c: Seq<S>| c.map_values(resolve)) =~= Seq::<Seq<M>>::empty());
    } else {
        let d = chunks.drop_last();
        lemma_chunked_resolution_preserves_order(d, resolve);
        let mapped = chunks.map_values(|c: Seq<S>| c.map_values(resolve));
        assert(mapped.drop_last() =~= d.map_values(|c: Seq<S>| c.map_values(resolve)));
        assert(mapped.last() == chunks.last().map_values(resolve));
        assert(spec_flatten(mapped) == spec_flatten(mapped.drop_last()) + mapped.last());
        assert(spec_flatten(d).map_values(resolve) + chunks.last().map_values(resolve)
            =~= (spec_flatten(d) + chunks.last()).map_values(resolve));
    }
}

} // verus!
