use vstd::prelude::*;
use crate::image::{
    chunk_wf, chunks_wf, Channels, Chunk, ColorSpace, DecodeError, DiffRGB, ImageSpec, Luma,
    QOIImage,
};
use crate::pixel::{PixelRGB, PixelRGBA};

verus! {

/// The four octets that open every stream: "qoif".
pub open spec fn magic() -> Seq<u8> {
    seq![0x71u8, 0x6fu8, 0x69u8, 0x66u8]
}

/// The eight octets that close the chunk stream.
pub open spec fn trailer() -> Seq<u8> {
    seq![0u8, 0u8, 0u8, 0u8, 0u8, 0u8, 0u8, 1u8]
}

/// The trailer stands at position `i` of `s`.
pub open spec fn is_trailer_at(s: Seq<u8>, i: int) -> bool {
    0 <= i && i + 8 <= s.len() && s.subrange(i, i + 8) == trailer()
}

/// The big-endian value of the four octets of `s` from position `i`.
pub open spec fn be32_at(s: Seq<u8>, i: int) -> u32 {
    (s[i] * 0x1000000 + s[i + 1] * 0x10000 + s[i + 2] * 0x100 + s[i + 3]) as u32
}

/// The four big-endian octets of `x`.
pub open spec fn be32_bytes(x: u32) -> Seq<u8> {
    seq![
        (x / 0x1000000) as u8,
        (x / 0x10000 % 0x100) as u8,
        (x / 0x100 % 0x100) as u8,
        (x % 0x100) as u8,
    ]
}

pub open spec fn channels_octet(c: Channels) -> u8 {
    match c {
        Channels::RGB => 3,
        Channels::RGBA => 4,
    }
}

pub open spec fn color_space_octet(c: ColorSpace) -> u8 {
    match c {
        ColorSpace::SRGB => 0,
        ColorSpace::Linear => 1,
    }
}

/// The canonical octets of one chunk.
pub open spec fn chunk_bytes(c: Chunk) -> Seq<u8> {
    match c {
        Chunk::RGB(PixelRGB(r, g, b)) => seq![0xfeu8, r, g, b],
        Chunk::RGBA(PixelRGBA(r, g, b, a)) => seq![0xffu8, r, g, b, a],
        Chunk::Index(i) => seq![i],
        Chunk::Diff(DiffRGB(r, g, b)) => seq![(0x40 + r * 16 + g * 4 + b) as u8],
        Chunk::Luma(Luma(dg, dr, db)) => seq![(0x80 + dg) as u8, (dr * 16 + db) as u8],
        Chunk::Run(n) => seq![(0xc0 + n) as u8],
    }
}

/// The octets of a sequence of chunks, one after the other.
pub open spec fn chunks_bytes(cs: Seq<Chunk>) -> Seq<u8>
    decreases cs.len(),
{
    if cs.len() == 0 {
        Seq::empty()
    } else {
        chunks_bytes(cs.drop_last()) + chunk_bytes(cs.last())
    }
}

/// The 14 octets of the header.
pub open spec fn header_bytes(img: ImageSpec) -> Seq<u8> {
    magic() + be32_bytes(img.width) + be32_bytes(img.height) + seq![
        channels_octet(img.channels),
        color_space_octet(img.color_space),
    ]
}

/// The whole byte stream of an image: header, chunks, trailer.
pub open spec fn serialize_spec(img: ImageSpec) -> Seq<u8> {
    header_bytes(img) + chunks_bytes(img.data) + trailer()
}

/// The chunk whose tag octet stands at position `i`, with its length in octets;
/// `None` where the octets it needs run past the end of `s`.
pub open spec fn chunk_at(s: Seq<u8>, i: int) -> Option<(Chunk, int)> {
    let t = s[i];
    if t == 0xff {
        if i + 5 <= s.len() {
            Some((Chunk::RGBA(PixelRGBA(s[i + 1], s[i + 2], s[i + 3], s[i + 4])), 5))
        } else {
            None
        }
    } else if t == 0xfe {
        if i + 4 <= s.len() {
            Some((Chunk::RGB(PixelRGB(s[i + 1], s[i + 2], s[i + 3])), 4))
        } else {
            None
        }
    } else if t >= 0xc0 {
        Some((Chunk::Run((t - 0xc0) as u8), 1))
    } else if t < 0x40 {
        Some((Chunk::Index(t), 1))
    } else if t < 0x80 {
        Some((Chunk::Diff(DiffRGB(((t - 0x40) / 16) as u8, (t / 4 % 4) as u8, (t % 4) as u8)), 1))
    } else if i + 2 <= s.len() {
        Some((Chunk::Luma(Luma((t - 0x80) as u8, s[i + 1] / 16, s[i + 1] % 16)), 2))
    } else {
        None
    }
}

/// The chunks read from position `i` on, with the position where reading stopped:
/// at the trailer, or at the end of `s` where no trailer comes.
pub open spec fn parse_body(s: Seq<u8>, i: int) -> Result<(Seq<Chunk>, int), DecodeError>
    decreases s.len() - i,
{
    if i < 0 || i >= s.len() || is_trailer_at(s, i) {
        Ok((Seq::empty(), i))
    } else {
        match chunk_at(s, i) {
            None => Err(DecodeError::UnexpectedEndOfStream),
            Some((c, n)) => if n <= 0 {
                Err(DecodeError::MalformedTag)
            } else {
                prepend(seq![c], parse_body(s, i + n))
            },
        }
    }
}

/// `r` with the chunks `d` put in front, where it is a success.
pub open spec fn prepend(d: Seq<Chunk>, r: Result<(Seq<Chunk>, int), DecodeError>) -> Result<
    (Seq<Chunk>, int),
    DecodeError,
> {
    match r {
        Ok((cs, e)) => Ok((d + cs, e)),
        Err(x) => Err(x),
    }
}

/// What reading the byte stream `s` gives, with the position where the chunks ended.
pub open spec fn parse_full(s: Seq<u8>) -> Result<(ImageSpec, int), DecodeError> {
    if s.len() < 14 {
        Err(DecodeError::IncompleteHeader)
    } else if s.subrange(0, 4) != magic() {
        Err(DecodeError::BadMagic)
    } else if s[12] != 3 && s[12] != 4 {
        Err(DecodeError::InvalidChannels)
    } else if s[13] != 0 && s[13] != 1 {
        Err(DecodeError::InvalidColorspace)
    } else {
        match parse_body(s, 14) {
            Err(x) => Err(x),
            Ok((cs, e)) => Ok(
                (
                    ImageSpec {
                        width: be32_at(s, 4),
                        height: be32_at(s, 8),
                        channels: if s[12] == 3 { Channels::RGB } else { Channels::RGBA },
                        color_space: if s[13] == 0 { ColorSpace::SRGB } else { ColorSpace::Linear },
                        data: cs,
                    },
                    e,
                ),
            ),
        }
    }
}

/// The image that the byte stream `s` holds, or why it holds none.
pub open spec fn parse_spec(s: Seq<u8>) -> Result<ImageSpec, DecodeError> {
    match parse_full(s) {
        Ok((img, _)) => Ok(img),
        Err(x) => Err(x),
    }
}

/// A stream whose reading succeeds and ends with the trailer as its last eight octets.
pub open spec fn well_formed_stream(s: Seq<u8>) -> bool {
    parse_full(s) is Ok && parse_full(s)->Ok_0.1 + 8 == s.len()
}

proof fn lemma_parse_body_wf(s: Seq<u8>, i: int)
    ensures
        parse_body(s, i) is Ok ==> chunks_wf(parse_body(s, i)->Ok_0.0),
    decreases s.len() - i,
{
    if i < 0 || i >= s.len() || is_trailer_at(s, i) {
    } else if let Some((c, n)) = chunk_at(s, i) {
        if n > 0 {
            lemma_parse_body_wf(s, i + n);
            if parse_body(s, i + n) is Ok {
                let rest = parse_body(s, i + n)->Ok_0.0;
                let all = seq![c] + rest;
                assert forall|k: int| 0 <= k < all.len() implies #[trigger] chunk_wf(all[k]) by {
                    if k > 0 {
                        assert(all[k] == rest[k - 1]);
                    }
                }
            }
        }
    }
}

/// Whether the trailer stands at position `i`.
fn trailer_at(b: &[u8], i: usize) -> (r: bool)
    ensures
        r == is_trailer_at(b@, i as int),
{
    if i > b.len() || b.len() - i < 8 {
        return false;
    }
    let s = Ghost(b@.subrange(i as int, i as int + 8));
    assert(forall|k: int| 0 <= k < 8 ==> s@[k] == b@[i + k]);
    let r = b[i] == 0 && b[i + 1] == 0 && b[i + 2] == 0 && b[i + 3] == 0 && b[i + 4] == 0
        && b[i + 5] == 0 && b[i + 6] == 0 && b[i + 7] == 1;
    proof {
        if r {
            assert(s@ =~= trailer());
        } else if s@ == trailer() {
            assert(s@[0] == trailer()[0] && s@[1] == trailer()[1] && s@[2] == trailer()[2]
                && s@[3] == trailer()[3] && s@[4] == trailer()[4] && s@[5] == trailer()[5]
                && s@[6] == trailer()[6] && s@[7] == trailer()[7]);
        }
    }
    r
}

impl QOIImage {
    /// Reads an image from its byte stream: the 14-octet header, then chunks until
    /// the trailer or the end of the octets. The trailer is recognised by its octets
    /// alone, so seven cache-index-0 chunks followed by a cache-index-1 chunk end the
    /// chunks there, exactly as the trailer would.
    pub fn from_qoi_file(b: &[u8]) -> (r: Result<QOIImage, DecodeError>)
        ensures
            r is Ok <==> parse_spec(b@) is Ok,
            r is Ok ==> r->Ok_0@ == parse_spec(b@)->Ok_0 && r->Ok_0.wf(),
            r is Err ==> r->Err_0 == parse_spec(b@)->Err_0,
    {
        let len = b.len();
        if len < 14 {
            return Err(DecodeError::IncompleteHeader);
        }
        if !(b[0] == 0x71 && b[1] == 0x6f && b[2] == 0x69 && b[3] == 0x66) {
            proof {
                if b@.subrange(0, 4) == magic() {
                    assert(b@.subrange(0, 4)[0] == b@[0] && b@.subrange(0, 4)[1] == b@[1]
                        && b@.subrange(0, 4)[2] == b@[2] && b@.subrange(0, 4)[3] == b@[3]);
                }
            }
            return Err(DecodeError::BadMagic);
        }
        assert(b@.subrange(0, 4) =~= magic());
        let width: u32 = b[4] as u32 * 0x1000000 + b[5] as u32 * 0x10000 + b[6] as u32 * 0x100
            + b[7] as u32;
        let height: u32 = b[8] as u32 * 0x1000000 + b[9] as u32 * 0x10000 + b[10] as u32 * 0x100
            + b[11] as u32;
        let channels = match b[12] {
            3u8 => Channels::RGB,
            4u8 => Channels::RGBA,
            _ => {
                return Err(DecodeError::InvalidChannels);
            },
        };
        let color_space = match b[13] {
            0u8 => ColorSpace::SRGB,
            1u8 => ColorSpace::Linear,
            _ => {
                return Err(DecodeError::InvalidColorspace);
            },
        };
        let mut data: Vec<Chunk> = Vec::new();
        let mut i: usize = 14;
        proof {
            assert(data@ + parse_body(b@, 14)->Ok_0.0 =~= parse_body(b@, 14)->Ok_0.0);
        }
        while i < len
            invariant
                14 <= i <= len,
                len == b@.len(),
                parse_body(b@, 14) == prepend(data@, parse_body(b@, i as int)),
                chunks_wf(data@),
                b@.subrange(0, 4) == magic(),
                width == be32_at(b@, 4),
                height == be32_at(b@, 8),
                channels == (if b@[12] == 3 { Channels::RGB } else { Channels::RGBA }),
                b@[12] == 3 || b@[12] == 4,
                color_space == (if b@[13] == 0 { ColorSpace::SRGB } else { ColorSpace::Linear }),
                b@[13] == 0 || b@[13] == 1,
            decreases len - i,
        {
            if trailer_at(b, i) {
                assert(data@ + Seq::<Chunk>::empty() =~= data@);
                return Ok(QOIImage { width, height, channels, color_space, data });
            }
            let t = b[i];
            let ghost before = data@;
            let step: usize;
            if t == 0xff {
                if len - i < 5 {
                    return Err(DecodeError::UnexpectedEndOfStream);
                }
                data.push(Chunk::RGBA(PixelRGBA(b[i + 1], b[i + 2], b[i + 3], b[i + 4])));
                step = 5;
            } else if t == 0xfe {
                if len - i < 4 {
                    return Err(DecodeError::UnexpectedEndOfStream);
                }
                data.push(Chunk::RGB(PixelRGB(b[i + 1], b[i + 2], b[i + 3])));
                step = 4;
            } else if t >= 0xc0 {
                data.push(Chunk::Run(t - 0xc0));
                step = 1;
            } else if t < 0x40 {
                data.push(Chunk::Index(t));
                step = 1;
            } else if t < 0x80 {
                data.push(Chunk::Diff(DiffRGB((t - 0x40) / 16, t / 4 % 4, t % 4)));
                step = 1;
            } else {
                if len - i < 2 {
                    return Err(DecodeError::UnexpectedEndOfStream);
                }
                data.push(Chunk::Luma(Luma(t - 0x80, b[i + 1] / 16, b[i + 1] % 16)));
                step = 2;
            }
            proof {
                let c = data@.last();
                assert(chunk_at(b@, i as int) == Some((c, step as int)));
                assert(data@ == before.push(c));
                assert forall|k: int| 0 <= k < data@.len() implies #[trigger] chunk_wf(data@[k]) by {
                    if k < before.len() {
                        assert(data@[k] == before[k]);
                    }
                }
                match parse_body(b@, i + step) {
                    Ok((cs, e)) => {
                        assert(before + (seq![c] + cs) =~= data@ + cs);
                    },
                    Err(_) => {},
                }
            }
            i = i + step;
        }
        assert(data@ + Seq::<Chunk>::empty() =~= data@);
        Ok(QOIImage { width, height, channels, color_space, data })
    }
}

/// Appends the four big-endian octets of `x`.
fn push_be32(out: &mut Vec<u8>, x: u32)
    ensures
        final(out)@ == old(out)@ + be32_bytes(x),
{
    out.push((x / 0x1000000) as u8);
    out.push((x / 0x10000 % 0x100) as u8);
    out.push((x / 0x100 % 0x100) as u8);
    out.push((x % 0x100) as u8);
    assert(final(out)@ =~= old(out)@ + be32_bytes(x));
}

/// Appends the canonical octets of one chunk.
fn push_chunk(out: &mut Vec<u8>, c: Chunk)
    requires
        chunk_wf(c),
    ensures
        final(out)@ == old(out)@ + chunk_bytes(c),
{
    match c {
        Chunk::RGB(PixelRGB(r, g, b)) => {
            out.push(0xfe);
            out.push(r);
            out.push(g);
            out.push(b);
        },
        Chunk::RGBA(PixelRGBA(r, g, b, a)) => {
            out.push(0xff);
            out.push(r);
            out.push(g);
            out.push(b);
            out.push(a);
        },
        Chunk::Index(i) => {
            out.push(i);
        },
        Chunk::Diff(DiffRGB(r, g, b)) => {
            out.push(0x40 + r * 16 + g * 4 + b);
        },
        Chunk::Luma(Luma(dg, dr, db)) => {
            out.push(0x80 + dg);
            out.push(dr * 16 + db);
        },
        Chunk::Run(n) => {
            out.push(0xc0 + n);
        },
    }
    assert(final(out)@ =~= old(out)@ + chunk_bytes(c));
}

impl QOIImage {
    /// Writes the image as its byte stream: header, chunks, trailer.
    pub fn serialize(&self) -> (r: Vec<u8>)
        requires
            self.wf(),
        ensures
            r@ == serialize_spec(self@),
    {
        let mut out: Vec<u8> = Vec::new();
        out.push(0x71);
        out.push(0x6f);
        out.push(0x69);
        out.push(0x66);
        push_be32(&mut out, self.width);
        push_be32(&mut out, self.height);
        let channels: u8 = match self.channels {
            Channels::RGB => 3,
            Channels::RGBA => 4,
        };
        out.push(channels);
        let color_space: u8 = match self.color_space {
            ColorSpace::SRGB => 0,
            ColorSpace::Linear => 1,
        };
        out.push(color_space);
        assert(out@ =~= header_bytes(self@));
        let mut j: usize = 0;
        while j < self.data.len()
            invariant
                0 <= j <= self.data@.len(),
                self.wf(),
                out@ == header_bytes(self@) + chunks_bytes(self.data@.take(j as int)),
            decreases self.data@.len() - j,
        {
            let ghost prev = out@;
            push_chunk(&mut out, self.data[j]);
            proof {
                let t = self.data@.take(j + 1);
                assert(t.drop_last() =~= self.data@.take(j as int));
                assert(t.last() == self.data@[j as int]);
                assert(out@ =~= header_bytes(self@) + chunks_bytes(t));
            }
            j = j + 1;
        }
        assert(self.data@.take(j as int) =~= self.data@);
        let ghost body = out@;
        out.push(0);
        out.push(0);
        out.push(0);
        out.push(0);
        out.push(0);
        out.push(0);
        out.push(0);
        out.push(1);
        assert(out@ =~= body + trailer());
        out
    }
}

} // verus!
