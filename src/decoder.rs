use vstd::prelude::*;
use crate::image::{chunk_wf, Chunk, DiffRGB, Luma, QOIImage};
use crate::pixel::{add_wrap, hash_spec, pixel_hash, wrap, PixelRGB, PixelRGBA};

verus! {

/// The pixel that every encode and decode starts from as its previous pixel.
pub open spec fn initial_prev() -> PixelRGBA {
    PixelRGBA(0, 0, 0, 255)
}

/// The pixel-history cache that every encode and decode starts from.
pub open spec fn initial_cache() -> Seq<PixelRGBA> {
    Seq::new(64, |_i: int| PixelRGBA(0, 0, 0, 0))
}

/// Where the decoder stands after some chunks: the previous pixel, the cache,
/// and the pixels produced so far.
pub struct DecoderState {
    pub prev: PixelRGBA,
    pub cache: Seq<PixelRGBA>,
    pub out: Seq<PixelRGBA>,
}

/// The pixel that a chunk other than a run stands for.
pub open spec fn chunk_pixel(prev: PixelRGBA, cache: Seq<PixelRGBA>, c: Chunk) -> PixelRGBA {
    match c {
        Chunk::RGB(PixelRGB(r, g, b)) => PixelRGBA(r, g, b, prev.3),
        Chunk::RGBA(p) => p,
        Chunk::Index(i) => cache[i as int],
        Chunk::Diff(DiffRGB(r, g, b)) => PixelRGBA(
            wrap(prev.0 + r - 2),
            wrap(prev.1 + g - 2),
            wrap(prev.2 + b - 2),
            prev.3,
        ),
        Chunk::Luma(Luma(dg, dr, db)) => PixelRGBA(
            wrap(prev.0 + dr + dg - 40),
            wrap(prev.1 + dg - 32),
            wrap(prev.2 + db + dg - 40),
            prev.3,
        ),
        Chunk::Run(_) => prev,
    }
}

/// `n` copies of a pixel.
pub open spec fn copies(p: PixelRGBA, n: int) -> Seq<PixelRGBA> {
    Seq::new(n as nat, |_i: int| p)
}

/// One chunk replayed by the decoder.
pub open spec fn decode_step(st: DecoderState, c: Chunk) -> DecoderState {
    match c {
        Chunk::Run(n) => DecoderState { out: st.out + copies(st.prev, n + 1), ..st },
        Chunk::Index(_) => {
            let p = chunk_pixel(st.prev, st.cache, c);
            DecoderState { prev: p, cache: st.cache, out: st.out.push(p) }
        },
        _ => {
            let p = chunk_pixel(st.prev, st.cache, c);
            DecoderState { prev: p, cache: st.cache.update(hash_spec(p), p), out: st.out.push(p) }
        },
    }
}

/// The decoder's state after replaying all of `cs` from the initial state.
pub open spec fn decode_chunks(cs: Seq<Chunk>) -> DecoderState
    decreases cs.len(),
{
    if cs.len() == 0 {
        DecoderState { prev: initial_prev(), cache: initial_cache(), out: Seq::empty() }
    } else {
        decode_step(decode_chunks(cs.drop_last()), cs.last())
    }
}

/// The first `w * h` pixels of `px`, cut into `h` rows of `w`.
pub open spec fn rows_of(px: Seq<PixelRGBA>, w: int, h: int) -> Seq<Seq<PixelRGBA>> {
    Seq::new(h as nat, |y: int| px.subrange(y * w, y * w + w))
}

/// A grid of pixels as a sequence of rows.
pub open spec fn grid_view(g: &Vec<Vec<PixelRGBA>>) -> Seq<Seq<PixelRGBA>> {
    Seq::new(g@.len(), |y: int| g@[y]@)
}

impl QOIImage {
    /// Decodes the chunks into a grid of `height` rows of `width` pixels; `None`
    /// where they stand for fewer than `width * height` pixels. Pixels beyond
    /// that count are dropped.
    pub fn to_rgba_mat(&self) -> (r: Option<Vec<Vec<PixelRGBA>>>)
        requires
            self.wf(),
        ensures
            r is Some <==> decode_chunks(self.data@).out.len() >= self.width * self.height,
            r is Some ==> grid_view(&r->Some_0) == rows_of(
                decode_chunks(self.data@).out,
                self.width as int,
                self.height as int,
            ),
    {
        let mut prev = PixelRGBA(0, 0, 0, 255);
        let mut cache: Vec<PixelRGBA> = Vec::new();
        let mut k: usize = 0;
        while k < 64
            invariant
                k <= 64,
                cache@ == Seq::new(k as nat, |_i: int| PixelRGBA(0, 0, 0, 0)),
            decreases 64 - k,
        {
            cache.push(PixelRGBA(0, 0, 0, 0));
            k = k + 1;
            assert(cache@ =~= Seq::new(k as nat, |_i: int| PixelRGBA(0, 0, 0, 0)));
        }
        let mut img: Vec<PixelRGBA> = Vec::new();
        let n = self.data.len();
        let mut j: usize = 0;
        assert(self.data@.take(0) =~= Seq::<Chunk>::empty());
        while j < n
            invariant
                j <= n,
                n == self.data@.len(),
                self.wf(),
                cache@.len() == 64,
                decode_chunks(self.data@.take(j as int)) == (DecoderState {
                    prev,
                    cache: cache@,
                    out: img@,
                }),
            decreases n - j,
        {
            let c = self.data[j];
            assert(chunk_wf(c));
            let ghost st = DecoderState { prev, cache: cache@, out: img@ };
            match c {
                Chunk::Run(m) => {
                    let ghost before = img@;
                    let mut t: u32 = 0;
                    while t < m as u32 + 1
                        invariant
                            t <= m + 1,
                            img@ == before + copies(prev, t as int),
                        decreases m + 1 - t,
                    {
                        img.push(prev);
                        t = t + 1;
                        assert(img@ =~= before + copies(prev, t as int));
                    }
                },
                Chunk::Index(i) => {
                    prev = cache[i as usize];
                    img.push(prev);
                },
                _ => {
                    let p = match c {
                        Chunk::RGB(PixelRGB(r, g, b)) => PixelRGBA(r, g, b, prev.3),
                        Chunk::RGBA(q) => q,
                        Chunk::Diff(DiffRGB(r, g, b)) => PixelRGBA(
                            add_wrap(prev.0, r, 254),
                            add_wrap(prev.1, g, 254),
                            add_wrap(prev.2, b, 254),
                            prev.3,
                        ),
                        Chunk::Luma(Luma(dg, dr, db)) => PixelRGBA(
                            add_wrap(prev.0, dr + dg, 216),
                            add_wrap(prev.1, dg, 224),
                            add_wrap(prev.2, db + dg, 216),
                            prev.3,
                        ),
                        _ => prev,
                    };
                    proof {
                        lemma_wrap_shift(prev.0 + r_of(c));
                        lemma_wrap_shift(prev.1 + g_of(c));
                        lemma_wrap_shift(prev.2 + b_of(c));
                    }
                    assert(p == chunk_pixel(prev, cache@, c));
                    let h = pixel_hash(p);
                    cache[h] = p;
                    prev = p;
                    img.push(p);
                },
            }
            proof {
                let t = self.data@.take(j + 1);
                assert(t.drop_last() =~= self.data@.take(j as int));
                assert(t.last() == c);
                assert(decode_chunks(t) == decode_step(st, c));
                assert(decode_step(st, c).out =~= img@);
                assert(decode_step(st, c).cache =~= cache@);
            }
            j = j + 1;
        }
        assert(self.data@.take(n as int) =~= self.data@);
        let width = self.width as usize;
        let height = self.height as usize;
        assert(self.width as int * self.height as int <= 0xffff_ffff * 0xffff_ffff) by (nonlinear_arith)
            requires
                self.width <= 0xffff_ffff,
                self.height <= 0xffff_ffff,
        ;
        let total: u64 = self.width as u64 * self.height as u64;
        if (img.len() as u64) < total {
            return None;
        }
        let len = img.len();
        let mut res: Vec<Vec<PixelRGBA>> = Vec::new();
        let mut y: usize = 0;
        while y < height
            invariant
                y <= height,
                height == self.height,
                width == self.width,
                img@.len() >= width * height,
                img@.len() == len,
                res@.len() == y,
                forall|k: int|
                    0 <= k < y ==> #[trigger] res@[k]@ == img@.subrange(k * width, k * width + width),
            decreases height - y,
        {
            let mut row: Vec<PixelRGBA> = Vec::new();
            let mut x: usize = 0;
            proof {
                assert((y + 1) * width <= height * width) by (nonlinear_arith)
                    requires
                        y + 1 <= height,
                ;
                assert((y + 1) * width == y * width + width) by (nonlinear_arith);
                assert(height * width == width * height) by (nonlinear_arith);
                assert(row@ =~= img@.subrange(y * width, y * width + 0));
            }
            while x < width
                invariant
                    x <= width,
                    y < height,
                    width == self.width,
                    img@.len() >= y * width + width,
                    img@.len() == len,
                    row@ == img@.subrange(y * width, y * width + x),
                decreases width - x,
            {
                row.push(img[y * width + x]);
                x = x + 1;
                assert(row@ =~= img@.subrange(y * width, y * width + x));
            }
            res.push(row);
            y = y + 1;
        }
        let ghost out = decode_chunks(self.data@).out;
        assert(grid_view(&res) =~= rows_of(out, width as int, height as int));
        Some(res)
    }
}

/// The red term that a chunk adds to the previous pixel's red channel.
spec fn r_of(c: Chunk) -> int {
    match c {
        Chunk::Diff(DiffRGB(r, _, _)) => r - 2,
        Chunk::Luma(Luma(dg, dr, _)) => dr + dg - 40,
        _ => 0,
    }
}

spec fn g_of(c: Chunk) -> int {
    match c {
        Chunk::Diff(DiffRGB(_, g, _)) => g - 2,
        Chunk::Luma(Luma(dg, _, _)) => dg - 32,
        _ => 0,
    }
}

spec fn b_of(c: Chunk) -> int {
    match c {
        Chunk::Diff(DiffRGB(_, _, b)) => b - 2,
        Chunk::Luma(Luma(dg, _, db)) => db + dg - 40,
        _ => 0,
    }
}

proof fn lemma_wrap_shift(x: int)
    ensures
        wrap(x + 256) == wrap(x),
{
    assert((x + 256) % 256 == x % 256) by (nonlinear_arith);
}

} // verus!
