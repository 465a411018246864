//! Deterministic sampling schedule of the image tracer.
//!
//! Before any pixel is rendered, one driver generator seeded with
//! `(init_state, init_seq)` is consumed serially, pixel after pixel in
//! row-major order: two raw draws for each antialiasing sub-sample, then
//! one draw that becomes the stream selector of that pixel's private
//! generator. Every entry of the schedule is pinned here to a fixed
//! position of the driver stream, so the rendered image cannot depend on
//! the order in which pixels are later processed.

use vstd::prelude::*;

use crate::random::{
    lemma_pcg_skip_snoc, pcg_next_state, pcg_nth, pcg_seeded_inc, pcg_seeded_state, pcg_skip, Pcg,
};

verus! {

/// The schedule of one pixel: its jitter draws and the stream selector
/// of its private generator.
pub struct PixelSamples {
    /// One pair of raw 32-bit draws for each antialiasing sub-sample of
    /// the pixel, sub-row after sub-row.
    pub jitter: Vec<(u32, u32)>,
    /// Seed for the per-pixel generator used while solving the rendering
    /// equation on this pixel.
    pub seq: u64,
}

/// Driver draws consumed per pixel: two for each of the `aa * aa`
/// sub-samples, then one for the stream selector.
pub open spec fn draws_per_pixel(aa: u32) -> int {
    2 * aa * aa + 1
}

/// The schedule entry of pixel `p` holds exactly the driver draws that
/// belong to that pixel.
pub open spec fn pixel_samples_ok(
    entry: PixelSamples,
    init_state: u64,
    init_seq: u64,
    aa: u32,
    p: int,
) -> bool {
    let base = p * draws_per_pixel(aa);
    &&& entry.jitter@.len() == aa * aa
    &&& forall|s: int|
        0 <= s < aa * aa ==> entry.jitter@[s] == (
            #[trigger] pcg_nth(init_state, init_seq, (base + 2 * s) as nat),
            pcg_nth(init_state, init_seq, (base + 2 * s + 1) as nat),
        )
    &&& entry.seq == pcg_nth(init_state, init_seq, (base + 2 * (aa * aa)) as nat) as u64
}

/// Draw the schedule of one pixel from the driver generator, which must
/// stand exactly at the start of that pixel's draws.
#[verifier::loop_isolation(false)]
#[verifier::rlimit(100)]
#[verifier::spinoff_prover]
fn pixel_plan(
    pcg: &mut Pcg,
    aa: u32,
    Ghost(init_state): Ghost<u64>,
    Ghost(init_seq): Ghost<u64>,
    Ghost(p): Ghost<int>,
) -> (entry: PixelSamples)
    requires
        p >= 0,
        old(pcg).spec_state() == pcg_skip(
            pcg_seeded_state(init_state, init_seq),
            pcg_seeded_inc(init_seq),
            (p * draws_per_pixel(aa)) as nat,
        ),
        old(pcg).spec_inc() == pcg_seeded_inc(init_seq),
    ensures
        final(pcg).spec_state() == pcg_skip(
            pcg_seeded_state(init_state, init_seq),
            pcg_seeded_inc(init_seq),
            ((p + 1) * draws_per_pixel(aa)) as nat,
        ),
        final(pcg).spec_inc() == pcg_seeded_inc(init_seq),
        pixel_samples_ok(entry, init_state, init_seq, aa, p),
{
    let ghost st0 = pcg_seeded_state(init_state, init_seq);
    let ghost inc = pcg_seeded_inc(init_seq);
    let ghost base = p * draws_per_pixel(aa);
    proof {
        assert((aa as int) * (aa as int) < 0x1_0000_0000_0000_0000) by (nonlinear_arith)
            requires
                aa <= 0xffff_ffffu32,
        ;
    }
    let total: u64 = (aa as u64) * (aa as u64);
    let mut jitter: Vec<(u32, u32)> = Vec::new();
    let mut k: u64 = 0;
    while k < total
        invariant
            0 <= k <= total,
            jitter@.len() == k,
            pcg.spec_state() == pcg_skip(st0, inc, (base + 2 * jitter@.len()) as nat),
            pcg.spec_inc() == inc,
            forall|s: int|
                0 <= s < jitter@.len() ==> jitter@[s] == (
                    #[trigger] pcg_nth(init_state, init_seq, (base + 2 * s) as nat),
                    pcg_nth(init_state, init_seq, (base + 2 * s + 1) as nat),
                ),
        decreases total - k,
    {
        let ghost d = (base + 2 * jitter@.len()) as nat;
        let u = pcg.random();
        proof {
            lemma_pcg_skip_snoc(st0, inc, d);
        }
        let v = pcg.random();
        proof {
            lemma_pcg_skip_snoc(st0, inc, (d + 1) as nat);
        }
        jitter.push((u, v));
        k = k + 1;
    }
    proof {
        assert(jitter@.len() == (aa as int) * (aa as int));
    }
    let ghost d = (base + 2 * jitter@.len()) as nat;
    let sq = pcg.random();
    proof {
        lemma_pcg_skip_snoc(st0, inc, d);
        assert(base + 2 * ((aa as int) * (aa as int)) + 1 == (p + 1) * draws_per_pixel(aa))
            by (nonlinear_arith)
            requires
                base == p * draws_per_pixel(aa),
                draws_per_pixel(aa) == 2 * aa * aa + 1,
        ;
        assert(d + 1 == (p + 1) * draws_per_pixel(aa));
    }
    proof {
        assert(jitter@.len() == aa * aa);
        assert(forall|s: int|
            0 <= s < aa * aa ==> jitter@[s] == (
                #[trigger] pcg_nth(init_state, init_seq, (base + 2 * s) as nat),
                pcg_nth(init_state, init_seq, (base + 2 * s + 1) as nat),
            ));
        assert(sq as u64 == pcg_nth(init_state, init_seq, (base + 2 * (aa * aa)) as nat) as u64);
    }
    let entry = PixelSamples { jitter, seq: sq as u64 };
    proof {
        assert(pixel_samples_ok(entry, init_state, init_seq, aa, p));
    }
    entry
}

/// Build the sampling schedule of a `width` by `height` image: one entry
/// per pixel in row-major order, every draw taken from the single driver
/// generator seeded with `(init_state, init_seq)`.
///
/// The whole schedule is a function of the seeds and the shape alone:
/// two equal calls give equal schedules, whatever happens around them.
#[verifier::loop_isolation(false)]
#[verifier::rlimit(100)]
pub fn sample_plan(
    init_state: u64,
    init_seq: u64,
    width: u32,
    height: u32,
    antialiasing_level: u32,
) -> (plan: Vec<PixelSamples>)
    ensures
        plan@.len() == width * height,
        forall|p: int|
            0 <= p < plan@.len() ==> pixel_samples_ok(
                #[trigger] plan@[p],
                init_state,
                init_seq,
                antialiasing_level,
                p,
            ),
{
    let aa = antialiasing_level;
    let ghost st0 = pcg_seeded_state(init_state, init_seq);
    let ghost inc = pcg_seeded_inc(init_seq);
    let ghost dpp = draws_per_pixel(aa);
    let mut pcg = Pcg::new(init_state, init_seq);
    let mut plan: Vec<PixelSamples> = Vec::new();
    let mut row: u32 = 0;
    while row < height
        invariant
            0 <= row <= height,
            plan@.len() == row * width,
            pcg.spec_state() == pcg_skip(st0, inc, (plan@.len() * dpp) as nat),
            pcg.spec_inc() == inc,
            forall|p: int|
                0 <= p < plan@.len() ==> pixel_samples_ok(
                    #[trigger] plan@[p],
                    init_state,
                    init_seq,
                    aa,
                    p,
                ),
        decreases height - row,
    {
        let mut col: u32 = 0;
        while col < width
            invariant
                0 <= col <= width,
                plan@.len() == row * width + col,
                pcg.spec_state() == pcg_skip(st0, inc, (plan@.len() * dpp) as nat),
                pcg.spec_inc() == inc,
                forall|p: int|
                    0 <= p < plan@.len() ==> pixel_samples_ok(
                        #[trigger] plan@[p],
                        init_state,
                        init_seq,
                        aa,
                        p,
                    ),
            decreases width - col,
        {
            let entry = pixel_plan(
                &mut pcg,
                aa,
                Ghost(init_state),
                Ghost(init_seq),
                Ghost(plan@.len() as int),
            );
            plan.push(entry);
            col = col + 1;
        }
        proof {
            assert(row * width + width == (row + 1) * width) by (nonlinear_arith);
        }
        row = row + 1;
    }
    proof {
        assert(height * width == width * height) by (nonlinear_arith);
    }
    plan
}

} // verus!
