use vstd::prelude::*;
use crate::decoder::{grid_view, initial_cache, initial_prev};
use crate::image::{chunk_wf, chunks_wf, Channels, Chunk, ColorSpace, DiffRGB, Luma, QOIImage};
use crate::pixel::{hash_spec, pixel_hash, PixelRGB, PixelRGBA};

verus! {

/// Longest run of identical pixels that one run chunk may stand for.
pub const MAX_RUN: u8 = 62;

/// Where the encoder stands after some pixels: the previous pixel, the cache, the
/// chunks emitted, and the length of the run not yet emitted.
pub struct EncoderState {
    pub prev: PixelRGBA,
    pub cache: Seq<PixelRGBA>,
    pub chunks: Seq<Chunk>,
    pub run: nat,
}

/// The chunk that emits a pending run of `k` pixels; none where `k` is 0.
pub open spec fn run_chunk(k: nat) -> Seq<Chunk> {
    if k == 0 {
        Seq::empty()
    } else {
        seq![Chunk::Run((k - 1) as u8)]
    }
}

/// The cheapest chunk for a pixel `p` that differs from the previous pixel. The
/// channel deltas are plain differences, in -255..255: a delta qualifies for a
/// small-diff or luma-diff chunk only when it lies in that chunk's range as it is.
pub open spec fn pixel_chunk(prev: PixelRGBA, cache: Seq<PixelRGBA>, p: PixelRGBA) -> Chunk {
    let h = hash_spec(p);
    if cache[h] == p {
        Chunk::Index(h as u8)
    } else if p.3 == prev.3 {
        let dr = p.0 - prev.0;
        let dg = p.1 - prev.1;
        let db = p.2 - prev.2;
        if -2 <= dr <= 1 && -2 <= dg <= 1 && -2 <= db <= 1 {
            Chunk::Diff(DiffRGB((dr + 2) as u8, (dg + 2) as u8, (db + 2) as u8))
        } else if -32 <= dg <= 31 && -8 <= dr - dg <= 7 && -8 <= db - dg <= 7 {
            Chunk::Luma(Luma((dg + 32) as u8, (dr - dg + 8) as u8, (db - dg + 8) as u8))
        } else {
            Chunk::RGB(PixelRGB(p.0, p.1, p.2))
        }
    } else {
        Chunk::RGBA(p)
    }
}

/// One pixel taken by the encoder.
pub open spec fn encode_step(st: EncoderState, p: PixelRGBA) -> EncoderState {
    if p == st.prev {
        if st.run == MAX_RUN {
            EncoderState { chunks: st.chunks.push(Chunk::Run((MAX_RUN - 1) as u8)), run: 1, ..st }
        } else {
            EncoderState { run: st.run + 1, ..st }
        }
    } else {
        let c = pixel_chunk(st.prev, st.cache, p);
        EncoderState {
            prev: p,
            cache: if c is Index {
                st.cache
            } else {
                st.cache.update(hash_spec(p), p)
            },
            chunks: st.chunks + run_chunk(st.run) + seq![c],
            run: 0,
        }
    }
}

/// The encoder's state after taking all of `px` from the initial state.
pub open spec fn encode_pixels(px: Seq<PixelRGBA>) -> EncoderState
    decreases px.len(),
{
    if px.len() == 0 {
        EncoderState { prev: initial_prev(), cache: initial_cache(), chunks: Seq::empty(), run: 0 }
    } else {
        encode_step(encode_pixels(px.drop_last()), px.last())
    }
}

/// The chunks that encode `px`, the pending run emitted at the end.
pub open spec fn encode_spec(px: Seq<PixelRGBA>) -> Seq<Chunk> {
    let st = encode_pixels(px);
    st.chunks + run_chunk(st.run)
}

/// The rows of a grid one after the other.
pub open spec fn flatten(g: Seq<Seq<PixelRGBA>>) -> Seq<PixelRGBA>
    decreases g.len(),
{
    if g.len() == 0 {
        Seq::empty()
    } else {
        flatten(g.drop_last()) + g.last()
    }
}

/// Some pixel of `px` is not fully opaque.
pub open spec fn has_alpha(px: Seq<PixelRGBA>) -> bool {
    exists|i: int| 0 <= i < px.len() && #[trigger] px[i].3 != 255
}

/// The cheapest chunk for `p`, which differs from `prev`.
fn choose_chunk(prev: PixelRGBA, cache: &Vec<PixelRGBA>, p: PixelRGBA) -> (c: Chunk)
    requires
        cache@.len() == 64,
    ensures
        c == pixel_chunk(prev, cache@, p),
        chunk_wf(c),
{
    let h = pixel_hash(p);
    if cache[h] == p {
        return Chunk::Index(h as u8);
    }
    if p.3 != prev.3 {
        return Chunk::RGBA(p);
    }
    let dr: i32 = p.0 as i32 - prev.0 as i32;
    let dg: i32 = p.1 as i32 - prev.1 as i32;
    let db: i32 = p.2 as i32 - prev.2 as i32;
    if -2 <= dr && dr <= 1 && -2 <= dg && dg <= 1 && -2 <= db && db <= 1 {
        Chunk::Diff(DiffRGB((dr + 2) as u8, (dg + 2) as u8, (db + 2) as u8))
    } else if -32 <= dg && dg <= 31 && -8 <= dr - dg && dr - dg <= 7 && -8 <= db - dg && db - dg
        <= 7 {
        Chunk::Luma(Luma((dg + 32) as u8, (dr - dg + 8) as u8, (db - dg + 8) as u8))
    } else {
        Chunk::RGB(PixelRGB(p.0, p.1, p.2))
    }
}

impl QOIImage {
    /// Encodes a grid of pixels, taken row by row, into an image of the given size.
    /// The channel flag says whether some pixel is not fully opaque.
    pub fn from_rgba_mat(src: &Vec<Vec<PixelRGBA>>, width: usize, height: usize) -> (r: QOIImage)
        requires
            width <= u32::MAX,
            height <= u32::MAX,
        ensures
            r.width == width,
            r.height == height,
            r.data@ == encode_spec(flatten(grid_view(src))),
            r.channels == (if has_alpha(flatten(grid_view(src))) {
                Channels::RGBA
            } else {
                Channels::RGB
            }),
            r.color_space == ColorSpace::Linear,
            r.wf(),
    {
        let mut is_transparent = false;
        let mut prev = PixelRGBA(0, 0, 0, 255);
        let mut cache: Vec<PixelRGBA> = Vec::new();
        let mut k: usize = 0;
        while k < 64
            invariant
                k <= 64,
                cache@ == Seq::new(k as nat, |_i: int| PixelRGBA(0, 0, 0, 0)),
            decreases 64 - k,
        {
            cache.push(PixelRGBA(0, 0, 0, 0));
            k = k + 1;
            assert(cache@ =~= Seq::new(k as nat, |_i: int| PixelRGBA(0, 0, 0, 0)));
        }
        let mut data: Vec<Chunk> = Vec::new();
        let mut run: u8 = 0;
        let ghost g = grid_view(src);
        let mut y: usize = 0;
        assert(g.take(0) =~= Seq::<Seq<PixelRGBA>>::empty());
        while y < src.len()
            invariant
                y <= src@.len(),
                g == grid_view(src),
                cache@.len() == 64,
                run <= MAX_RUN,
                chunks_wf(data@),
                encode_pixels(flatten(g.take(y as int))) == (EncoderState {
                    prev,
                    cache: cache@,
                    chunks: data@,
                    run: run as nat,
                }),
                is_transparent == has_alpha(flatten(g.take(y as int))),
            decreases src@.len() - y,
        {
            let row = &src[y];
            let ghost done = flatten(g.take(y as int));
            let mut x: usize = 0;
            assert(done + row@.take(0) =~= done);
            while x < row.len()
                invariant
                    x <= row@.len(),
                    cache@.len() == 64,
                    run <= MAX_RUN,
                    chunks_wf(data@),
                    encode_pixels(done + row@.take(x as int)) == (EncoderState {
                        prev,
                        cache: cache@,
                        chunks: data@,
                        run: run as nat,
                    }),
                    is_transparent == has_alpha(done + row@.take(x as int)),
                decreases row@.len() - x,
            {
                let p = row[x];
                let ghost seen = done + row@.take(x as int);
                let ghost st = EncoderState { prev, cache: cache@, chunks: data@, run: run as nat };
                let ghost old_data = data@;
                if p.3 != 255 {
                    is_transparent = true;
                }
                if p == prev {
                    if run == MAX_RUN {
                        data.push(Chunk::Run(MAX_RUN - 1));
                        run = 1;
                    } else {
                        run = run + 1;
                    }
                } else {
                    let c = choose_chunk(prev, &cache, p);
                    if run > 0 {
                        data.push(Chunk::Run(run - 1));
                    }
                    data.push(c);
                    assert(data@ =~= old_data + run_chunk(run as nat) + seq![c]);
                    match c {
                        Chunk::Index(_) => {},
                        _ => {
                            let h = pixel_hash(p);
                            cache[h] = p;
                        },
                    }
                    prev = p;
                    run = 0;
                }
                proof {
                    let next = done + row@.take(x + 1);
                    assert(next.drop_last() =~= seen);
                    assert(next.last() == p);
                    assert(encode_pixels(next) == encode_step(st, p));
                    assert(encode_step(st, p).cache =~= cache@);
                    assert forall|i: int| 0 <= i < data@.len() implies #[trigger] chunk_wf(
                        data@[i],
                    ) by {
                        if i < old_data.len() {
                            assert(data@[i] == old_data[i]);
                        }
                    }
                    if has_alpha(seen) {
                        let i = choose|i: int| 0 <= i < seen.len() && #[trigger] seen[i].3 != 255;
                        assert(next[i] == seen[i]);
                    }
                    if p.3 != 255 {
                        assert(next[next.len() - 1] == p);
                    }
                    if has_alpha(next) {
                        let i = choose|i: int| 0 <= i < next.len() && #[trigger] next[i].3 != 255;
                        if i < seen.len() {
                            assert(next[i] == seen[i]);
                        }
                    }
                }
                x = x + 1;
            }
            proof {
                let t = g.take(y + 1);
                assert(t.drop_last() =~= g.take(y as int));
                assert(t.last() == row@);
                assert(row@.take(x as int) =~= row@);
            }
            y = y + 1;
        }
        assert(g.take(y as int) =~= g);
        let ghost last = data@;
        if run > 0 {
            data.push(Chunk::Run(run - 1));
        }
        proof {
            assert(data@ =~= last + run_chunk(run as nat));
            assert forall|i: int| 0 <= i < data@.len() implies #[trigger] chunk_wf(data@[i]) by {
                if i < last.len() {
                    assert(data@[i] == last[i]);
                }
            }
        }
        let channels = if is_transparent {
            Channels::RGBA
        } else {
            Channels::RGB
        };
        QOIImage {
            width: width as u32,
            height: height as u32,
            channels,
            color_space: ColorSpace::Linear,
            data,
        }
    }
}

} // verus!
