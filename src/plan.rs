use vstd::prelude::*;

verus! {

/// Number of samples each worker renders when `num_samples` are split evenly
/// over `num_threads` workers; the remainder is not rendered.
pub fn samples_per_worker(num_samples: u32, num_threads: u32) -> (r: u32)
    requires
        num_threads > 0,
    ensures
        r == num_samples / num_threads,
{
    num_samples / num_threads
}

/// Samples rendered in all over `num_threads` workers.
pub open spec fn rendered_samples(num_samples: nat, num_threads: nat) -> nat {
    num_threads * (num_samples / num_threads)
}

/// Splitting the samples over workers never renders more than asked for, drops
/// fewer than one worker's share, and renders exactly the total when the worker
/// count divides it, as one worker does.
pub proof fn lemma_split_keeps_total(num_samples: nat, num_threads: nat)
    requires
        num_threads > 0,
    ensures
        rendered_samples(num_samples, num_threads) <= num_samples,
        num_samples - rendered_samples(num_samples, num_threads) < num_threads,
        num_samples % num_threads == 0 ==> rendered_samples(num_samples, num_threads)
            == num_samples,
        rendered_samples(num_samples, 1) == num_samples,
{
    vstd::arithmetic::div_mod::lemma_fundamental_div_mod(num_samples as int, num_threads as int);
    vstd::arithmetic::div_mod::lemma_mod_pos_bound(num_samples as int, num_threads as int);
}

/// Column of pixel `index` in the output order: rows from the top down, each
/// row from left to right.
pub open spec fn pixel_column(index: int, width: int) -> int {
    index % width
}

/// Row of pixel `index` in the output order, counted from the bottom row.
pub open spec fn pixel_row(index: int, width: int, height: int) -> int {
    height - 1 - index / width
}

/// Column and row (counted from the bottom) of pixel `index` of the output.
pub fn pixel_at(index: usize, width: u32, height: u32) -> (r: (u32, u32))
    requires
        width > 0,
        index < width * height,
    ensures
        r.0 == pixel_column(index as int, width as int),
        r.1 == pixel_row(index as int, width as int, height as int),
{
    let w = width as usize;
    proof {
        let q = index as int / w as int;
        vstd::arithmetic::div_mod::lemma_fundamental_div_mod(index as int, w as int);
        vstd::arithmetic::div_mod::lemma_mod_pos_bound(index as int, w as int);
        vstd::arithmetic::div_mod::lemma_div_pos_is_pos(index as int, w as int);
        if q >= height {
            vstd::arithmetic::mul::lemma_mul_inequality(height as int, q, w as int);
            assert(w * q >= w * height) by (nonlinear_arith)
                requires q >= height, w > 0;
        }
    }
    let row_from_top = index / w;
    ((index % w) as u32, height - 1 - row_from_top as u32)
}

} // verus!
