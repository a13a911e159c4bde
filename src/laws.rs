use vstd::prelude::*;
use crate::decoder::{chunk_pixel, copies, decode_chunks, decode_step, rows_of};
use crate::encoder::{encode_pixels, encode_spec, flatten, pixel_chunk, run_chunk, MAX_RUN};
use crate::image::{chunk_wf, chunks_wf, Chunk, DecodeError, DiffRGB, ImageSpec, Luma};
use crate::stream::{
    be32_at, be32_bytes, channels_octet, chunk_at, chunk_bytes, chunks_bytes, color_space_octet,
    header_bytes, is_trailer_at, magic, parse_body, parse_spec, serialize_spec, trailer,
    well_formed_stream,
};
use crate::pixel::{hash_spec, wrap, PixelRGBA};

verus! {

/// Adding the difference `b - a` onto `a`, modulo 256, gives `b`: what the decoder's
/// wrapping addition does with a delta that the encoder took as a plain difference.
pub proof fn lemma_wrap_difference(a: u8, b: u8)
    ensures
        wrap(a + (b - a)) == b,
{
}

/// Decoding one more chunk is one more step of the decoder.
proof fn lemma_decode_push(cs: Seq<Chunk>, c: Chunk)
    ensures
        decode_chunks(cs.push(c)) == decode_step(decode_chunks(cs), c),
{
    assert(cs.push(c).drop_last() =~= cs);
}

/// The pixel that the encoder's chunk for `p` decodes to is `p` itself.
pub proof fn lemma_chunk_decodes_to_pixel(prev: PixelRGBA, cache: Seq<PixelRGBA>, p: PixelRGBA)
    requires
        cache.len() == 64,
    ensures
        chunk_pixel(prev, cache, pixel_chunk(prev, cache, p)) == p,
        chunk_wf(pixel_chunk(prev, cache, p)),
{
    lemma_wrap_difference(prev.0, p.0);
    lemma_wrap_difference(prev.1, p.1);
    lemma_wrap_difference(prev.2, p.2);
    let dr = p.0 - prev.0;
    let dg = p.1 - prev.1;
    let db = p.2 - prev.2;
    assert(prev.0 + (dr - dg + 8) + (dg + 32) - 40 == prev.0 + dr);
    assert(prev.2 + (db - dg + 8) + (dg + 32) - 40 == prev.2 + db);
}

/// What the decoder holds after the chunks that the encoder has emitted for `px`:
/// the encoder's previous pixel and cache, and every pixel of `px` but the pending run.
pub proof fn lemma_encoder_decoder_in_step(px: Seq<PixelRGBA>)
    ensures
        ({
            let st = encode_pixels(px);
            let d = decode_chunks(st.chunks);
            &&& d.prev == st.prev
            &&& d.cache == st.cache
            &&& st.cache.len() == 64
            &&& st.run <= MAX_RUN
            &&& d.out + copies(st.prev, st.run as int) == px
        }),
    decreases px.len(),
{
    if px.len() == 0 {
        assert(Seq::<PixelRGBA>::empty() + copies(PixelRGBA(0, 0, 0, 255), 0) =~= px);
    } else {
        let rest = px.drop_last();
        let p = px.last();
        lemma_encoder_decoder_in_step(rest);
        let st = encode_pixels(rest);
        let d = decode_chunks(st.chunks);
        assert(rest.push(p) =~= px);
        if p == st.prev {
            if st.run == MAX_RUN {
                lemma_decode_push(st.chunks, Chunk::Run((MAX_RUN - 1) as u8));
                assert(d.out + copies(st.prev, 62) + copies(st.prev, 1) =~= (d.out + copies(
                    st.prev,
                    62,
                )).push(p));
            } else {
                assert(d.out + copies(st.prev, (st.run + 1) as int) =~= (d.out + copies(
                    st.prev,
                    st.run as int,
                )).push(p));
            }
        } else {
            let c = pixel_chunk(st.prev, st.cache, p);
            lemma_chunk_decodes_to_pixel(st.prev, st.cache, p);
            let flushed = st.chunks + run_chunk(st.run);
            let d1 = decode_chunks(flushed);
            if st.run == 0 {
                assert(flushed =~= st.chunks);
                assert(d.out + copies(st.prev, 0) =~= d.out);
            } else {
                assert(flushed =~= st.chunks.push(Chunk::Run((st.run - 1) as u8)));
                lemma_decode_push(st.chunks, Chunk::Run((st.run - 1) as u8));
            }
            assert(d1.out == rest);
            assert(d1.prev == st.prev);
            assert(d1.cache == st.cache);
            assert(flushed + seq![c] =~= flushed.push(c));
            lemma_decode_push(flushed, c);
            assert(rest.push(p) + copies(p, 0) =~= px);
        }
    }
}

/// Decoding what the encoder emits for `px` gives back `px`.
pub proof fn lemma_pixels_round_trip(px: Seq<PixelRGBA>)
    ensures
        decode_chunks(encode_spec(px)).out == px,
{
    lemma_encoder_decoder_in_step(px);
    let st = encode_pixels(px);
    let d = decode_chunks(st.chunks);
    if st.run == 0 {
        assert(st.chunks + run_chunk(0) =~= st.chunks);
        assert(d.out + copies(st.prev, 0) =~= d.out);
    } else {
        assert(st.chunks + run_chunk(st.run) =~= st.chunks.push(Chunk::Run((st.run - 1) as u8)));
        lemma_decode_push(st.chunks, Chunk::Run((st.run - 1) as u8));
    }
}

/// Whenever the encoder, having taken `px`, would emit a cache-index chunk for the
/// next pixel `p`, the decoder's cache after the chunks emitted so far holds `p`
/// at that index.
pub proof fn lemma_cache_consistency(px: Seq<PixelRGBA>, p: PixelRGBA)
    ensures
        ({
            let st = encode_pixels(px);
            let c = pixel_chunk(st.prev, st.cache, p);
            c is Index ==> decode_chunks(st.chunks + run_chunk(st.run)).cache[c->Index_0 as int]
                == p
        }),
{
    lemma_encoder_decoder_in_step(px);
    let st = encode_pixels(px);
    if st.run > 0 {
        assert(st.chunks + run_chunk(st.run) =~= st.chunks.push(Chunk::Run((st.run - 1) as u8)));
        lemma_decode_push(st.chunks, Chunk::Run((st.run - 1) as u8));
    } else {
        assert(st.chunks + run_chunk(st.run) =~= st.chunks);
    }
}

/// A cache-index chunk is chosen only on exact equality with the slot's content:
/// a different pixel that hashes to the same slot is no hit.
pub proof fn lemma_index_needs_equality(
    prev: PixelRGBA,
    cache: Seq<PixelRGBA>,
    p: PixelRGBA,
    q: PixelRGBA,
)
    requires
        cache.len() == 64,
        p != q,
        hash_spec(p) == hash_spec(q),
        cache[hash_spec(q)] == q,
    ensures
        !(pixel_chunk(prev, cache, p) is Index),
{
}

/// Every chunk that the encoder emits fits its byte layout; in particular no run
/// chunk stands for more than 62 pixels.
pub proof fn lemma_encode_wf(px: Seq<PixelRGBA>)
    ensures
        chunks_wf(encode_spec(px)),
        forall|i: int|
            0 <= i < encode_spec(px).len() && (#[trigger] encode_spec(px)[i]) is Run
                ==> encode_spec(px)[i]->Run_0 + 1 <= MAX_RUN,
{
    lemma_encode_pixels_wf(px);
    let st = encode_pixels(px);
    let all = encode_spec(px);
    assert forall|i: int| 0 <= i < all.len() implies #[trigger] chunk_wf(all[i]) by {
        if i < st.chunks.len() {
            assert(all[i] == st.chunks[i]);
        }
    }
    assert forall|i: int| 0 <= i < all.len() && (#[trigger] all[i]) is Run implies all[i]->Run_0
        + 1 <= MAX_RUN by {
        assert(chunk_wf(all[i]));
    }
}

proof fn lemma_encode_pixels_wf(px: Seq<PixelRGBA>)
    ensures
        chunks_wf(encode_pixels(px).chunks),
        encode_pixels(px).run <= MAX_RUN,
        encode_pixels(px).cache.len() == 64,
    decreases px.len(),
{
    if px.len() > 0 {
        let rest = px.drop_last();
        let p = px.last();
        lemma_encode_pixels_wf(rest);
        let st = encode_pixels(rest);
        let next = encode_pixels(px);
        if p != st.prev {
            lemma_chunk_decodes_to_pixel(st.prev, st.cache, p);
        }
        assert forall|i: int| 0 <= i < next.chunks.len() implies #[trigger] chunk_wf(
            next.chunks[i],
        ) by {
            if i < st.chunks.len() {
                assert(next.chunks[i] == st.chunks[i]);
            }
        }
    }
}

/// The octets of two runs of chunks are the octets of each, one after the other.
proof fn lemma_chunks_bytes_append(a: Seq<Chunk>, b: Seq<Chunk>)
    ensures
        chunks_bytes(a + b) == chunks_bytes(a) + chunks_bytes(b),
    decreases b.len(),
{
    if b.len() == 0 {
        assert(a + b =~= a);
        assert(chunks_bytes(a) + chunks_bytes(b) =~= chunks_bytes(a));
    } else {
        assert((a + b).drop_last() =~= a + b.drop_last());
        lemma_chunks_bytes_append(a, b.drop_last());
        assert(chunks_bytes(a + b.drop_last()) + chunk_bytes(b.last()) =~= chunks_bytes(a) + (
        chunks_bytes(b.drop_last()) + chunk_bytes(b.last())));
    }
}

/// The chunk read at position `i` is written back as the octets it was read from.
proof fn lemma_chunk_at_bytes(s: Seq<u8>, i: int)
    requires
        0 <= i < s.len(),
        chunk_at(s, i) is Some,
    ensures
        ({
            let (c, n) = chunk_at(s, i)->Some_0;
            1 <= n && i + n <= s.len() && chunk_bytes(c) == s.subrange(i, i + n)
        }),
{
    let t = s[i];
    let (c, n) = chunk_at(s, i)->Some_0;
    if t < 0x80 && t >= 0x40 {
        assert(0x40 + ((t - 0x40) / 16) * 16 + (t / 4 % 4) * 4 + t % 4 == t) by (nonlinear_arith)
            requires
                0x40 <= t < 0x80,
        ;
    }
    if t >= 0x80 && t < 0xc0 {
        let u = s[i + 1];
        assert((u / 16) * 16 + u % 16 == u) by (nonlinear_arith);
    }
    assert(chunk_bytes(c) =~= s.subrange(i, i + n));
}

/// Reading chunks from position `i` consumes exactly the octets of the chunks read,
/// and stops at the trailer or at the end.
proof fn lemma_parse_body_bytes(s: Seq<u8>, i: int)
    requires
        0 <= i <= s.len(),
        parse_body(s, i) is Ok,
    ensures
        ({
            let (cs, e) = parse_body(s, i)->Ok_0;
            &&& i <= e <= s.len()
            &&& s.subrange(i, e) == chunks_bytes(cs)
            &&& (e == s.len() || is_trailer_at(s, e))
        }),
    decreases s.len() - i,
{
    if i >= s.len() || is_trailer_at(s, i) {
        assert(s.subrange(i, i) =~= chunks_bytes(Seq::empty()));
    } else {
        let (c, n) = chunk_at(s, i)->Some_0;
        lemma_chunk_at_bytes(s, i);
        lemma_parse_body_bytes(s, i + n);
        let (rest, e) = parse_body(s, i + n)->Ok_0;
        lemma_chunks_bytes_append(seq![c], rest);
        assert(seq![c].drop_last() =~= Seq::<Chunk>::empty());
        assert(seq![c].last() == c);
        assert(chunks_bytes(Seq::<Chunk>::empty()) == Seq::<u8>::empty());
        assert(chunks_bytes(seq![c]) =~= chunk_bytes(c));
        assert(s.subrange(i, e) =~= s.subrange(i, i + n) + s.subrange(i + n, e));
    }
}

/// Four octets read big-endian and written back big-endian are unchanged.
proof fn lemma_be32_round_trip(s: Seq<u8>, i: int)
    requires
        0 <= i && i + 4 <= s.len(),
    ensures
        be32_bytes(be32_at(s, i)) == s.subrange(i, i + 4),
{
    let a = s[i];
    let b = s[i + 1];
    let c = s[i + 2];
    let d = s[i + 3];
    let x: u32 = ((a as u32) * 0x1000000 + (b as u32) * 0x10000 + (c as u32) * 0x100 + (
    d as u32)) as u32;
    assert(x == be32_at(s, i));
    assert((x / 0x1000000) as u8 == a && (x / 0x10000 % 0x100) as u8 == b && (x / 0x100
        % 0x100) as u8 == c && (x % 0x100) as u8 == d) by (bit_vector)
        requires
            x == ((a as u32) * 0x1000000 + (b as u32) * 0x10000 + (c as u32) * 0x100 + (
            d as u32)) as u32,
    ;
    assert(be32_bytes(x) =~= s.subrange(i, i + 4));
}

/// A well-formed byte stream, read and written back, is unchanged.
pub proof fn lemma_bytes_round_trip(s: Seq<u8>)
    requires
        well_formed_stream(s),
    ensures
        serialize_spec(parse_spec(s)->Ok_0) == s,
{
    let img = parse_spec(s)->Ok_0;
    lemma_parse_body_bytes(s, 14);
    let (cs, e) = parse_body(s, 14)->Ok_0;
    lemma_be32_round_trip(s, 4);
    lemma_be32_round_trip(s, 8);
    assert(s.subrange(0, 4) == magic());
    assert(header_bytes(img) =~= s.subrange(0, 14)) by {
        assert(s.subrange(0, 4)[0] == s[0]);
        assert(s.subrange(0, 4)[1] == s[1]);
        assert(s.subrange(0, 4)[2] == s[2]);
        assert(s.subrange(0, 4)[3] == s[3]);
        assert(s.subrange(4, 8) =~= be32_bytes(img.width));
        assert(s.subrange(8, 12) =~= be32_bytes(img.height));
    }
    assert(e + 8 == s.len());
    assert(s =~= s.subrange(0, 14) + s.subrange(14, e) + s.subrange(e, e + 8));
}

/// A grid of `g.len()` rows of `w` pixels, flattened and cut into rows again, is unchanged.
proof fn lemma_flatten_rows(g: Seq<Seq<PixelRGBA>>, w: int)
    requires
        w >= 0,
        forall|y: int| 0 <= y < g.len() ==> (#[trigger] g[y]).len() == w,
    ensures
        flatten(g).len() == g.len() * w,
        rows_of(flatten(g), w, g.len() as int) =~~= g,
    decreases g.len(),
{
    let n = g.len() as int;
    if n > 0 {
        let g0 = g.drop_last();
        lemma_flatten_rows(g0, w);
        let f0 = flatten(g0);
        let f = flatten(g);
        assert(f == f0 + g.last());
        assert((n - 1) * w + w == n * w) by (nonlinear_arith);
        assert forall|y: int| 0 <= y < n implies #[trigger] rows_of(f, w, n)[y] =~= g[y] by {
            if y < n - 1 {
                assert(y * w + w <= (n - 1) * w) by (nonlinear_arith)
                    requires
                        y + 1 <= n - 1,
                        w >= 0,
                ;
                assert(0 <= y * w) by (nonlinear_arith)
                    requires
                        y >= 0,
                        w >= 0,
                ;
                assert(rows_of(f0, w, n - 1)[y] =~= g0[y]);
                assert(f.subrange(y * w, y * w + w) =~= f0.subrange(y * w, y * w + w));
            } else {
                assert(f.subrange(y * w, y * w + w) =~= g.last());
            }
        }
    } else {
        assert(rows_of(flatten(g), w, 0) =~= g);
    }
}

/// A grid of `h` rows of `w` pixels, encoded and then decoded, is unchanged: the
/// decoded pixels number at least `w * h`, and cut into rows they give the grid back.
pub proof fn lemma_grid_round_trip(g: Seq<Seq<PixelRGBA>>, w: int, h: int)
    requires
        w >= 0,
        g.len() == h,
        forall|y: int| 0 <= y < g.len() ==> (#[trigger] g[y]).len() == w,
    ensures
        decode_chunks(encode_spec(flatten(g))).out.len() >= w * h,
        rows_of(decode_chunks(encode_spec(flatten(g))).out, w, h) =~~= g,
{
    lemma_flatten_rows(g, w);
    lemma_pixels_round_trip(flatten(g));
    assert(h * w == w * h) by (nonlinear_arith);
}

/// Somewhere in `cs` seven cache-index-0 chunks are followed by a cache-index-1
/// chunk: octets that read exactly as the trailer.
pub open spec fn has_false_trailer(cs: Seq<Chunk>) -> bool {
    exists|k: int|
        0 <= k && k + 8 <= cs.len() && (forall|m: int|
            0 <= m < 7 ==> #[trigger] cs[k + m] == Chunk::Index(0)) && #[trigger] cs[k + 7]
            == Chunk::Index(1)
}

/// The octets from chunk `k` of `cs` on, the trailer included.
spec fn rest_bytes(cs: Seq<Chunk>, k: int) -> Seq<u8> {
    chunks_bytes(cs.skip(k)) + trailer()
}

proof fn lemma_chunks_bytes_one(c: Chunk)
    ensures
        chunks_bytes(seq![c]) == chunk_bytes(c),
{
    assert(seq![c].drop_last() =~= Seq::<Chunk>::empty());
    assert(seq![c].last() == c);
    assert(chunks_bytes(Seq::<Chunk>::empty()) == Seq::<u8>::empty());
    assert(chunks_bytes(seq![c]) =~= chunk_bytes(c));
}

/// The octets from chunk `k` on are those of chunk `k`, then those from `k + 1` on.
proof fn lemma_rest_bytes_step(cs: Seq<Chunk>, k: int)
    requires
        0 <= k < cs.len(),
    ensures
        rest_bytes(cs, k) == chunk_bytes(cs[k]) + rest_bytes(cs, k + 1),
        chunks_bytes(cs.take(k + 1)) == chunks_bytes(cs.take(k)) + chunk_bytes(cs[k]),
{
    assert(cs.skip(k) =~= seq![cs[k]] + cs.skip(k + 1));
    lemma_chunks_bytes_append(seq![cs[k]], cs.skip(k + 1));
    lemma_chunks_bytes_one(cs[k]);
    assert(rest_bytes(cs, k) =~= chunk_bytes(cs[k]) + rest_bytes(cs, k + 1));
    assert(cs.take(k + 1).drop_last() =~= cs.take(k));
    assert(cs.take(k + 1).last() == cs[k]);
}

/// A chunk whose first octet is below 64 is the cache-index chunk of that octet.
proof fn lemma_small_first_octet(c: Chunk)
    requires
        chunk_wf(c),
        chunk_bytes(c)[0] < 64,
    ensures
        c == Chunk::Index(chunk_bytes(c)[0]),
{
}

/// Past the first `j` octets of the trailer, matched by cache-index-0 chunks ending
/// before chunk `k`, the octets from chunk `k` on cannot complete the trailer.
proof fn lemma_no_trailer_window(cs: Seq<Chunk>, k: int, j: int)
    requires
        chunks_wf(cs),
        !has_false_trailer(cs),
        0 <= j <= 7,
        j <= k <= cs.len(),
        j == 0 ==> k < cs.len(),
        forall|m: int| 0 <= m < j ==> #[trigger] cs[k - j + m] == Chunk::Index(0),
    ensures
        rest_bytes(cs, k).subrange(0, 8 - j) != trailer().subrange(j, 8),
    decreases 8 - j,
{
    if rest_bytes(cs, k).subrange(0, 8 - j) == trailer().subrange(j, 8) {
        lemma_trailer_window_contradiction(cs, k, j);
    }
}

proof fn lemma_trailer_window_contradiction(cs: Seq<Chunk>, k: int, j: int)
    requires
        chunks_wf(cs),
        !has_false_trailer(cs),
        0 <= j <= 7,
        j <= k <= cs.len(),
        j == 0 ==> k < cs.len(),
        forall|m: int| 0 <= m < j ==> #[trigger] cs[k - j + m] == Chunk::Index(0),
        rest_bytes(cs, k).subrange(0, 8 - j) == trailer().subrange(j, 8),
    ensures
        !(rest_bytes(cs, k).subrange(0, 8 - j) == trailer().subrange(j, 8)),
    decreases 8 - j, 0int,
{
    let r = rest_bytes(cs, k);
    assert(r[0] == rest_bytes(cs, k).subrange(0, 8 - j)[0]);
    if k == cs.len() {
        assert(cs.skip(k) =~= Seq::<Chunk>::empty());
        assert(chunks_bytes(Seq::<Chunk>::empty()) == Seq::<u8>::empty());
        assert(r =~= trailer());
        assert(r.subrange(0, 8 - j)[7 - j] == r[7 - j]);
    } else {
        lemma_rest_bytes_step(cs, k);
        assert(chunk_wf(cs[k]));
        assert(r[0] == chunk_bytes(cs[k])[0]);
        lemma_small_first_octet(cs[k]);
        if j == 7 {
            assert(cs[k] == Chunk::Index(1));
            let k0 = k - 7;
            assert(forall|m: int| 0 <= m < 7 ==> #[trigger] cs[k0 + m] == Chunk::Index(0));
            assert(cs[k0 + 7] == Chunk::Index(1));
            assert(has_false_trailer(cs));
        } else {
            assert(cs[k] == Chunk::Index(0));
            assert(rest_bytes(cs, k + 1).subrange(0, 8 - (j + 1)) =~= trailer().subrange(
                j + 1,
                8,
            )) by {
                assert forall|m: int| 0 <= m < 7 - j implies #[trigger] rest_bytes(cs, k + 1)[m] == r[m
                    + 1]
                    by {}
                assert forall|m: int| 0 <= m < 7 - j implies #[trigger] r[m + 1] == rest_bytes(
                    cs,
                    k,
                ).subrange(0, 8 - j)[m + 1] by {}
            }
            assert forall|m: int| 0 <= m < j + 1 implies #[trigger] cs[(k + 1) - (j + 1) + m]
                == Chunk::Index(0) by {
                if m < j {
                    assert(cs[k - j + m] == Chunk::Index(0));
                }
            }
            lemma_no_trailer_window(cs, k + 1, j + 1);
        }
    }
}

/// The octets of a chunk that fits its byte layout read back as that chunk.
proof fn lemma_chunk_at_of_bytes(s: Seq<u8>, i: int, c: Chunk)
    requires
        chunk_wf(c),
        0 <= i,
        i + chunk_bytes(c).len() <= s.len(),
        s.subrange(i, i + chunk_bytes(c).len()) == chunk_bytes(c),
    ensures
        chunk_at(s, i) == Some((c, chunk_bytes(c).len() as int)),
{
    let n = chunk_bytes(c).len() as int;
    assert forall|m: int| 0 <= m < n implies s[i + m] == chunk_bytes(c)[m] by {
        assert(s.subrange(i, i + n)[m] == s[i + m]);
    }
    match c {
        Chunk::Diff(DiffRGB(r, g, b)) => {
            let t = s[i];
            assert(0x40 + r * 16 + g * 4 + b < 0x80) by (nonlinear_arith)
                requires
                    0 <= r < 4,
                    0 <= g < 4,
                    0 <= b < 4,
            ;
            assert(s.subrange(i, i + n)[0] == s[i]);
            assert(t == 0x40 + r * 16 + g * 4 + b);
            let (ri, gi, bi) = (r as int, g as int, b as int);
            let ti = t as int;
            assert((ti - 0x40) / 16 == ri && ti / 4 % 4 == gi && ti % 4 == bi) by (nonlinear_arith)
                requires
                    ti == 0x40 + ri * 16 + gi * 4 + bi,
                    0 <= ri < 4,
                    0 <= gi < 4,
                    0 <= bi < 4,
            ;
            assert(0x40 <= t < 0x80);
            assert(chunk_at(s, i) == Some((Chunk::Diff(DiffRGB(r, g, b)), 1int)));
            assert(c == Chunk::Diff(DiffRGB(r, g, b)));
            assert(n == 1);
            assert(chunk_at(s, i) == Some((c, n)));
            assert(chunk_at(s, i) == Some((c, chunk_bytes(c).len() as int)));
        },
        Chunk::Luma(Luma(dg, dr, db)) => {
            let u = s[i + 1];
            assert(s.subrange(i, i + n)[1] == s[i + 1]);
            assert(dr * 16 + db < 0x100) by (nonlinear_arith)
                requires
                    0 <= dr < 16,
                    0 <= db < 16,
            ;
            assert(u == dr * 16 + db);
            let (ui, dri, dbi) = (u as int, dr as int, db as int);
            assert(ui / 16 == dri && ui % 16 == dbi) by (nonlinear_arith)
                requires
                    ui == dri * 16 + dbi,
                    0 <= dri < 16,
                    0 <= dbi < 16,
            ;
            assert(s.subrange(i, i + n)[0] == s[i]);
            assert(chunk_at(s, i) == Some((c, n)));
        },
        _ => {
            assert(s.subrange(i, i + n)[0] == s[i]);
            assert(chunk_at(s, i) == Some((c, n)));
        },
    }
}

/// Big-endian octets read back give the number they were written from.
proof fn lemma_be32_of_bytes(s: Seq<u8>, i: int, x: u32)
    requires
        0 <= i && i + 4 <= s.len(),
        s.subrange(i, i + 4) == be32_bytes(x),
    ensures
        be32_at(s, i) == x,
{
    assert(s[i] == s.subrange(i, i + 4)[0] && s[i + 1] == s.subrange(i, i + 4)[1] && s[i + 2]
        == s.subrange(i, i + 4)[2] && s[i + 3] == s.subrange(i, i + 4)[3]);
    let a: u32 = x / 0x1000000;
    let b: u32 = x / 0x10000 % 0x100;
    let c: u32 = x / 0x100 % 0x100;
    let d: u32 = x % 0x100;
    assert(a < 0x100 && (a * 0x1000000 + b * 0x10000 + c * 0x100 + d) as u32 == x) by (bit_vector)
        requires
            a == x / 0x1000000,
            b == x / 0x10000 % 0x100,
            c == x / 0x100 % 0x100,
            d == x % 0x100,
    ;
    assert(b < 0x100 && c < 0x100 && d < 0x100);
}

/// The serialized image, from the octets of chunk `k` on, is the rest of the chunks'
/// octets and the trailer.
proof fn lemma_serialized_suffix(img: ImageSpec, k: int)
    requires
        0 <= k <= img.data.len(),
    ensures
        ({
            let s = serialize_spec(img);
            let i = 14 + chunks_bytes(img.data.take(k)).len() as int;
            &&& i <= s.len()
            &&& s.subrange(i, s.len() as int) == rest_bytes(img.data, k)
        }),
{
    let cs = img.data;
    assert(cs =~= cs.take(k) + cs.skip(k));
    lemma_chunks_bytes_append(cs.take(k), cs.skip(k));
    assert(header_bytes(img).len() == 14);
    let s = serialize_spec(img);
    let i = 14 + chunks_bytes(cs.take(k)).len() as int;
    assert(s.subrange(i, s.len() as int) =~= rest_bytes(cs, k));
}

/// Where the octets from position `i` of `s` are those from chunk `k` of `cs` on,
/// no trailer stands at `i`, and the chunk read there is chunk `k`.
proof fn lemma_read_chunk_step(s: Seq<u8>, cs: Seq<Chunk>, k: int, i: int)
    requires
        chunks_wf(cs),
        !has_false_trailer(cs),
        0 <= k < cs.len(),
        0 <= i <= s.len(),
        s.subrange(i, s.len() as int) == rest_bytes(cs, k),
    ensures
        !is_trailer_at(s, i),
        chunk_at(s, i) == Some((cs[k], chunk_bytes(cs[k]).len() as int)),
        i + chunk_bytes(cs[k]).len() <= s.len(),
        s.subrange(i + chunk_bytes(cs[k]).len(), s.len() as int) == rest_bytes(cs, k + 1),
{
    lemma_rest_bytes_step(cs, k);
    let c = cs[k];
    let n = chunk_bytes(c).len() as int;
    let r = rest_bytes(cs, k);
    assert(r.len() == s.len() - i);
    assert(forall|m: int| 0 <= m < r.len() ==> #[trigger] r[m] == s[i + m]) by {
        assert forall|m: int| 0 <= m < r.len() implies #[trigger] r[m] == s[i + m] by {
            assert(s.subrange(i, s.len() as int)[m] == s[i + m]);
        }
    }
    assert(chunk_wf(c));
    if is_trailer_at(s, i) {
        assert(r.subrange(0, 8) =~= trailer().subrange(0, 8)) by {
            assert forall|m: int| 0 <= m < 8 implies #[trigger] r.subrange(0, 8)[m] == trailer().subrange(
                0,
                8,
            )[m] by {
                assert(s.subrange(i, i + 8)[m] == s[i + m]);
                assert(r[m] == s[i + m]);
            }
        }
        lemma_no_trailer_window(cs, k, 0);
    }
    assert(s.subrange(i, i + n) =~= chunk_bytes(c)) by {
        assert forall|m: int| 0 <= m < n implies #[trigger] s.subrange(i, i + n)[m] == chunk_bytes(
            c,
        )[m] by {
            assert(r[m] == s[i + m]);
            assert(r[m] == chunk_bytes(c)[m]);
        }
    }
    lemma_chunk_at_of_bytes(s, i, c);
    assert(s.subrange(i + n, s.len() as int) =~= rest_bytes(cs, k + 1)) by {
        assert forall|m: int| 0 <= m < s.len() - i - n implies #[trigger] s.subrange(
            i + n,
            s.len() as int,
        )[m] == rest_bytes(cs, k + 1)[m] by {
            assert(r[n + m] == s[i + n + m]);
            assert(r[n + m] == rest_bytes(cs, k + 1)[m]);
        }
    }
}

/// Where the octets from position `i` of `s` are those from chunk `k` of `cs` on,
/// reading from `i` gives exactly the chunks from `k` on, ending at the trailer.
proof fn lemma_read_chunks_from(s: Seq<u8>, cs: Seq<Chunk>, k: int, i: int)
    requires
        chunks_wf(cs),
        !has_false_trailer(cs),
        0 <= k <= cs.len(),
        0 <= i <= s.len(),
        s.subrange(i, s.len() as int) == rest_bytes(cs, k),
    ensures
        parse_body(s, i) == Ok::<(Seq<Chunk>, int), DecodeError>((cs.skip(k), s.len() - 8)),
    decreases cs.len() - k,
{
    if k == cs.len() {
        assert(cs.skip(k) =~= Seq::<Chunk>::empty());
        assert(chunks_bytes(Seq::<Chunk>::empty()) == Seq::<u8>::empty());
        assert(rest_bytes(cs, k) =~= trailer());
        assert(s.subrange(i, i + 8) =~= trailer());
    } else {
        lemma_read_chunk_step(s, cs, k, i);
        let n = chunk_bytes(cs[k]).len() as int;
        lemma_read_chunks_from(s, cs, k + 1, i + n);
        assert(seq![cs[k]] + cs.skip(k + 1) =~= cs.skip(k));
    }
}

/// An image whose chunks fit their byte layout and nowhere read as the trailer,
/// serialized and read back, is unchanged.
pub proof fn lemma_serialized_parses_back(img: ImageSpec)
    requires
        chunks_wf(img.data),
        !has_false_trailer(img.data),
    ensures
        parse_spec(serialize_spec(img)) == Ok::<ImageSpec, DecodeError>(img),
{
    let s = serialize_spec(img);
    let h = header_bytes(img);
    assert(img.data.take(0) =~= Seq::<Chunk>::empty());
    assert(chunks_bytes(Seq::<Chunk>::empty()) == Seq::<u8>::empty());
    lemma_serialized_suffix(img, 0);
    lemma_read_chunks_from(s, img.data, 0, 14);
    assert(img.data.skip(0) =~= img.data);
    assert(s.subrange(0, 4) =~= magic());
    assert(s.subrange(4, 8) =~= be32_bytes(img.width));
    assert(s.subrange(8, 12) =~= be32_bytes(img.height));
    lemma_be32_of_bytes(s, 4, img.width);
    lemma_be32_of_bytes(s, 8, img.height);
    assert(s[12] == channels_octet(img.channels));
    assert(s[13] == color_space_octet(img.color_space));
}

/// No cache-index chunk of `cs` is followed by the same cache-index chunk.
pub open spec fn no_repeated_index(cs: Seq<Chunk>) -> bool {
    forall|k: int|
        0 <= k && k + 1 < cs.len() && (#[trigger] cs[k]) is Index ==> cs[k + 1] != cs[k]
}

/// What the encoder keeps true as it goes: it never repeats a cache-index chunk,
/// and right after one its previous pixel is the cache slot that chunk names.
proof fn lemma_encoder_no_repeated_index(px: Seq<PixelRGBA>)
    ensures
        ({
            let st = encode_pixels(px);
            &&& no_repeated_index(st.chunks)
            &&& st.cache.len() == 64
            &&& (st.run == 0 && st.chunks.len() > 0 && st.chunks.last() is Index) ==> st.cache[
                st.chunks.last()->Index_0 as int] == st.prev
        }),
    decreases px.len(),
{
    if px.len() > 0 {
        let rest = px.drop_last();
        let p = px.last();
        lemma_encoder_no_repeated_index(rest);
        lemma_encode_pixels_wf(rest);
        let st = encode_pixels(rest);
        let next = encode_pixels(px);
        if p == st.prev {
            if st.run == MAX_RUN {
                let cs = next.chunks;
                assert forall|k: int|
                    0 <= k && k + 1 < cs.len() && (#[trigger] cs[k]) is Index implies cs[k + 1]
                    != cs[k] by {
                    if k + 1 < st.chunks.len() {
                        assert(cs[k] == st.chunks[k] && cs[k + 1] == st.chunks[k + 1]);
                    }
                }
            }
        } else {
            let c = pixel_chunk(st.prev, st.cache, p);
            lemma_chunk_decodes_to_pixel(st.prev, st.cache, p);
            let flushed = st.chunks + run_chunk(st.run);
            let cs = next.chunks;
            assert(cs == flushed + seq![c]);
            assert forall|k: int|
                0 <= k && k + 1 < cs.len() && (#[trigger] cs[k]) is Index implies cs[k + 1]
                != cs[k] by {
                if k + 1 < st.chunks.len() {
                    assert(cs[k] == st.chunks[k] && cs[k + 1] == st.chunks[k + 1]);
                } else if k + 1 < flushed.len() {
                    assert(cs[k + 1] == flushed[k + 1]);
                } else if st.run == 0 {
                    assert(k == st.chunks.len() - 1);
                    assert(cs[k] == st.chunks.last());
                    assert(cs[k + 1] == c);
                } else {
                    assert(cs[k] == flushed[k]);
                }
            }
            assert(cs.last() == c);
        }
    }
}

/// What the encoder emits for `px` never reads as the trailer before its end.
pub proof fn lemma_encoder_no_false_trailer(px: Seq<PixelRGBA>)
    ensures
        !has_false_trailer(encode_spec(px)),
{
    lemma_encoder_no_repeated_index(px);
    let st = encode_pixels(px);
    let cs = encode_spec(px);
    if has_false_trailer(cs) {
        let k = choose|k: int|
            0 <= k && k + 8 <= cs.len() && (forall|m: int|
                0 <= m < 7 ==> #[trigger] cs[k + m] == Chunk::Index(0)) && #[trigger] cs[k + 7]
                == Chunk::Index(1);
        assert(cs[k + 0] == Chunk::Index(0));
        assert(cs[k + 1] == Chunk::Index(0));
        if st.run > 0 {
            assert(k + 1 < st.chunks.len());
        }
        assert(cs[k] == st.chunks[k] && cs[k + 1] == st.chunks[k + 1]);
    }
}

/// A grid of `img.height` rows of `img.width` pixels, encoded, serialized, read back
/// and decoded, is unchanged.
pub proof fn lemma_full_pipeline(g: Seq<Seq<PixelRGBA>>, img: ImageSpec)
    requires
        g.len() == img.height,
        forall|y: int| 0 <= y < g.len() ==> (#[trigger] g[y]).len() == img.width,
        img.data == encode_spec(flatten(g)),
    ensures
        parse_spec(serialize_spec(img)) == Ok::<ImageSpec, DecodeError>(img),
        decode_chunks(img.data).out.len() >= img.width * img.height,
        rows_of(decode_chunks(img.data).out, img.width as int, img.height as int) =~~= g,
{
    lemma_encode_wf(flatten(g));
    lemma_encoder_no_false_trailer(flatten(g));
    lemma_serialized_parses_back(img);
    lemma_grid_round_trip(g, img.width as int, img.height as int);
}

/// The pixels decoded from the first `j` chunks begin the pixels decoded from all.
proof fn lemma_decode_prefix(cs: Seq<Chunk>, j: int)
    requires
        0 <= j <= cs.len(),
    ensures
        decode_chunks(cs.take(j)).out.len() <= decode_chunks(cs).out.len(),
        decode_chunks(cs).out.take(decode_chunks(cs.take(j)).out.len() as int) == decode_chunks(
            cs.take(j),
        ).out,
    decreases cs.len(),
{
    if j == cs.len() {
        assert(cs.take(j) =~= cs);
        assert(decode_chunks(cs).out.take(decode_chunks(cs).out.len() as int) =~= decode_chunks(
            cs,
        ).out);
    } else {
        let d = cs.drop_last();
        assert(cs.take(j) =~= d.take(j));
        lemma_decode_prefix(d, j);
        let a = decode_chunks(d.take(j)).out;
        let b = decode_chunks(d).out;
        let c = decode_chunks(cs).out;
        assert(c.take(b.len() as int) =~= b);
        assert(c.take(a.len() as int) =~= a);
    }
}

/// Every cache-index chunk of `cs` names the slot of the pixel that the decoder's
/// cache holds there when it reaches that chunk.
pub open spec fn index_chunks_hash_consistent(cs: Seq<Chunk>) -> bool {
    forall|k: int|
        0 <= k < cs.len() && (#[trigger] cs[k]) is Index ==> hash_spec(
            decode_chunks(cs.take(k)).cache[cs[k]->Index_0 as int],
        ) == cs[k]->Index_0
}

proof fn lemma_take_of_append(a: Seq<Chunk>, b: Seq<Chunk>, k: int)
    requires
        0 <= k <= a.len(),
    ensures
        (a + b).take(k) == a.take(k),
{
    assert((a + b).take(k) =~= a.take(k));
}

proof fn lemma_encoder_index_hash(px: Seq<PixelRGBA>)
    ensures
        index_chunks_hash_consistent(encode_pixels(px).chunks),
        index_chunks_hash_consistent(encode_spec(px)),
    decreases px.len(),
{
    let st = encode_pixels(px);
    if px.len() > 0 {
        let rest = px.drop_last();
        let p = px.last();
        lemma_encoder_index_hash(rest);
        let st0 = encode_pixels(rest);
        let old_cs = st0.chunks;
        if p == st0.prev {
            if st0.run == MAX_RUN {
                let cs = st.chunks;
                assert forall|k: int| 0 <= k < cs.len() && (#[trigger] cs[k]) is Index implies hash_spec(
                    decode_chunks(cs.take(k)).cache[cs[k]->Index_0 as int],
                ) == cs[k]->Index_0 by {
                    if k < old_cs.len() {
                        assert(cs[k] == old_cs[k]);
                        lemma_take_of_append(old_cs, seq![Chunk::Run(61)], k);
                        assert(cs == old_cs + seq![Chunk::Run(61)]);
                    }
                }
            }
        } else {
            let c = pixel_chunk(st0.prev, st0.cache, p);
            let flushed = old_cs + run_chunk(st0.run);
            let cs = st.chunks;
            assert(cs == flushed + seq![c]);
            lemma_encoder_decoder_in_step(rest);
            lemma_cache_consistency(rest, p);
            assert forall|k: int| 0 <= k < cs.len() && (#[trigger] cs[k]) is Index implies hash_spec(
                decode_chunks(cs.take(k)).cache[cs[k]->Index_0 as int],
            ) == cs[k]->Index_0 by {
                if k < old_cs.len() {
                    assert(cs == old_cs + (run_chunk(st0.run) + seq![c]));
                    lemma_take_of_append(old_cs, run_chunk(st0.run) + seq![c], k);
                    assert(cs[k] == old_cs[k]);
                } else if k < flushed.len() {
                    assert(cs[k] == flushed[k]);
                } else {
                    assert(k == flushed.len());
                    assert(cs.take(k) =~= flushed);
                    assert(cs[k] == c);
                }
            }
        }
    }
    let cs = encode_spec(px);
    assert forall|k: int| 0 <= k < cs.len() && (#[trigger] cs[k]) is Index implies hash_spec(
        decode_chunks(cs.take(k)).cache[cs[k]->Index_0 as int],
    ) == cs[k]->Index_0 by {
        lemma_take_of_append(st.chunks, run_chunk(st.run), k);
        assert(cs[k] == st.chunks[k]);
        if k >= st.chunks.len() {
            assert(cs[k] == run_chunk(st.run)[k - st.chunks.len()]);
        }
    }
}

/// Each cache-index chunk that the encoder emits for `px`, at chunk position `k`,
/// recalls exactly the pixel it stands for: the decoder's cache after the first `k`
/// chunks holds, at the slot the chunk names, the next pixel of `px` in all four
/// channels, and that slot is the pixel's hash. A different pixel in that slot,
/// even one with the same hash, is never reported as a hit.
pub proof fn lemma_index_chunks_recall_pixel(px: Seq<PixelRGBA>, k: int)
    requires
        0 <= k < encode_spec(px).len(),
        encode_spec(px)[k] is Index,
    ensures
        ({
            let cs = encode_spec(px);
            let i = cs[k]->Index_0 as int;
            let d = decode_chunks(cs.take(k));
            &&& d.out.len() < px.len()
            &&& d.cache[i] == px[d.out.len() as int]
            &&& hash_spec(px[d.out.len() as int]) == i
        }),
{
    let cs = encode_spec(px);
    let i = cs[k]->Index_0 as int;
    lemma_pixels_round_trip(px);
    lemma_decode_prefix(cs, k + 1);
    lemma_encoder_index_hash(px);
    let d = decode_chunks(cs.take(k));
    assert(cs.take(k + 1).drop_last() =~= cs.take(k));
    assert(cs.take(k + 1).last() == cs[k]);
    let d1 = decode_chunks(cs.take(k + 1));
    assert(d1.out == d.out.push(d.cache[i]));
    assert(px.take(d1.out.len() as int)[d.out.len() as int] == px[d.out.len() as int]);
}

/// `q` run chunks of 62 pixels each.
pub open spec fn full_runs(q: nat) -> Seq<Chunk> {
    Seq::new(q, |_i: int| Chunk::Run((MAX_RUN - 1) as u8))
}

/// A streak of `62 * q + r` pixels equal to the previous one (`1 <= r <= 62`), taken
/// where no run is pending, emits `q` run chunks of 62 and leaves a run of `r` pending;
/// the previous pixel and the cache stay as they were.
proof fn lemma_streak_state(px: Seq<PixelRGBA>, q: nat, r: int)
    requires
        encode_pixels(px).run == 0,
        1 <= r <= MAX_RUN,
    ensures
        ({
            let st = encode_pixels(px);
            let st2 = encode_pixels(px + copies(st.prev, 62 * q + r));
            &&& st2.chunks == st.chunks + full_runs(q)
            &&& st2.run == r
            &&& st2.prev == st.prev
            &&& st2.cache == st.cache
        }),
    decreases q, r,
{
    let st = encode_pixels(px);
    let len = 62 * q + r;
    let all = px + copies(st.prev, len);
    assert(all.drop_last() =~= px + copies(st.prev, len - 1));
    assert(all.last() == st.prev);
    if r >= 2 {
        lemma_streak_state(px, q, r - 1);
    } else if q >= 1 {
        lemma_streak_state(px, (q - 1) as nat, MAX_RUN as int);
        assert(st.chunks + full_runs((q - 1) as nat) + seq![Chunk::Run((MAX_RUN - 1) as u8)]
            =~= st.chunks + full_runs(q));
        assert((st.chunks + full_runs((q - 1) as nat)).push(Chunk::Run((MAX_RUN - 1) as u8))
            =~= st.chunks + full_runs(q));
    } else {
        assert(px + copies(st.prev, 0) =~= px);
        assert(st.chunks + full_runs(0) =~= st.chunks);
    }
}

/// A streak of `62 * q + r` pixels equal to the previous one (`1 <= r <= 62`), taken
/// where no run is pending and ending the input, is emitted as `q` run chunks of 62
/// pixels and one run chunk of `r`: `q + 1` chunks in all, the least number of
/// chunks of at most 62 pixels that can hold it.
pub proof fn lemma_streak_split(px: Seq<PixelRGBA>, q: nat, r: int)
    requires
        encode_pixels(px).run == 0,
        1 <= r <= MAX_RUN,
    ensures
        ({
            let st = encode_pixels(px);
            encode_spec(px + copies(st.prev, 62 * q + r)) == st.chunks + full_runs(q) + seq![
                Chunk::Run((r - 1) as u8),
            ]
        }),
{
    lemma_streak_state(px, q, r);
}

} // verus!
