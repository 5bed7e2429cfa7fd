use vstd::prelude::*;
use crate::array::Array3;
use crate::array::ArrayV;
use crate::bytes::i32s_le;
use crate::bytes::i32_le;
use crate::bytes::u16_le;
use crate::bytes::u32_le;
use crate::bytes::lemma_i32s_le_len;
use crate::bytes::lemma_i32s_le_injective;
use crate::bytes::push_i32_le;
use crate::bytes::push_i32s_le;
use crate::bytes::push_u16_le;
use crate::bytes::push_u32_le;
use crate::bytes::parse_i32s;
use crate::codec::ByteCodec;
use crate::codec::StorageError;
use crate::extent::Extent3i;

verus! {

/// The two array-encoding strategies over a chosen byte codec.
#[derive(Clone, Copy, PartialEq, Eq, Structural, Debug)]
pub enum ArrayEncoding {
    /// Each channel's raw little-endian bytes are compressed independently.
    FastChannels,
    /// The whole array is serialized to one stable, fixed-width,
    /// little-endian, length-prefixed byte string, then compressed once.
    Serialized,
}

impl ArrayEncoding {
    pub open spec fn tag_spec(self) -> u8 {
        match self {
            ArrayEncoding::FastChannels => 0,
            ArrayEncoding::Serialized => 1,
        }
    }

    pub fn tag(&self) -> (r: u8)
        ensures
            r == self.tag_spec(),
    {
        match self {
            ArrayEncoding::FastChannels => 0,
            ArrayEncoding::Serialized => 1,
        }
    }
}

/// The size table of the wire header: one little-endian `u32` per section.
pub open spec fn sizes_bytes(sections: Seq<Seq<u8>>) -> Seq<u8>
    decreases sections.len(),
{
    if sections.len() == 0 {
        Seq::empty()
    } else {
        u32_le(sections[0].len() as u32) + sizes_bytes(sections.subrange(
            1,
            sections.len() as int,
        ))
    }
}

/// The concatenation of all sections.
pub open spec fn concat_bytes(sections: Seq<Seq<u8>>) -> Seq<u8>
    decreases sections.len(),
{
    if sections.len() == 0 {
        Seq::empty()
    } else {
        sections[0] + concat_bytes(sections.subrange(1, sections.len() as int))
    }
}

/// The stable wire image: magic "BBVC", version 1, encoding and codec tags,
/// the extent as six little-endian `i32`s, the section count, the size
/// table, then the concatenated codec outputs.
pub open spec fn wire_image(
    extent: Extent3i,
    enc_tag: u8,
    codec_tag: u8,
    sections: Seq<Seq<u8>>,
) -> Seq<u8> {
    seq![0x42u8, 0x42u8, 0x56u8, 0x43u8] + u16_le(1) + seq![enc_tag, codec_tag] + i32_le(
        extent.minimum.x,
    ) + i32_le(extent.minimum.y) + i32_le(extent.minimum.z) + i32_le(extent.shape.x) + i32_le(
        extent.shape.y,
    ) + i32_le(extent.shape.z) + seq![sections.len() as u8] + sizes_bytes(sections) + concat_bytes(
        sections,
    )
}

/// The compressed image of channel `ci` under the fast strategy.
pub open spec fn fast_section(a: ArrayV, codec: ByteCodec, ci: int) -> Seq<u8> {
    codec.compressed(i32s_le(a.channels[ci])).unwrap()
}

/// Whether the fast strategy succeeds: every channel compresses and every
/// section's size fits the `u32` size table.
pub open spec fn fast_ok(a: ArrayV, codec: ByteCodec) -> bool {
    forall|ci: int|
        0 <= ci < a.channels.len() ==> (#[trigger] codec.compressed(
            i32s_le(a.channels[ci]),
        )).is_some() && fast_section(a, codec, ci).len() <= 0xffffffff
}

pub open spec fn fast_sections(a: ArrayV, codec: ByteCodec) -> Seq<Seq<u8>> {
    Seq::new(a.channels.len(), |ci: int| fast_section(a, codec, ci))
}

/// The serialized image of the channels: for each, a `u32` length prefix
/// followed by the cell bytes.
pub open spec fn ser_channels(channels: Seq<Seq<i32>>) -> Seq<u8>
    decreases channels.len(),
{
    if channels.len() == 0 {
        Seq::empty()
    } else {
        u32_le(channels[0].len() as u32) + i32s_le(channels[0]) + ser_channels(
            channels.subrange(1, channels.len() as int),
        )
    }
}

/// The serialized image of a whole array value: the channel count, then the
/// length-prefixed channels. The extent travels in the wire header.
pub open spec fn ser_payload(a: ArrayV) -> Seq<u8> {
    seq![a.channels.len() as u8] + ser_channels(a.channels)
}

pub open spec fn serialized_ok(a: ArrayV, codec: ByteCodec) -> bool {
    codec.compressed(ser_payload(a)).is_some() && codec.compressed(ser_payload(a)).unwrap().len()
        <= 0xffffffff
}

/// The full wire bytes an encoding produces for an array value, `None` when
/// the byte codec fails or a section overflows the size table.
pub open spec fn encode_spec(a: ArrayV, encoding: ArrayEncoding, codec: ByteCodec) -> Option<
    Seq<u8>,
> {
    match encoding {
        ArrayEncoding::FastChannels => if fast_ok(a, codec) {
            Some(wire_image(a.extent, encoding.tag_spec(), codec.tag_spec(), fast_sections(a, codec)))
        } else {
            None
        },
        ArrayEncoding::Serialized => if serialized_ok(a, codec) {
            Some(
                wire_image(
                    a.extent,
                    encoding.tag_spec(),
                    codec.tag_spec(),
                    seq![codec.compressed(ser_payload(a)).unwrap()],
                ),
            )
        } else {
            None
        },
    }
}

/// Encoding is deterministic: the wire bytes are a function of the array
/// value, the strategy and the codec parameters alone, so equal inputs give
/// byte-identical outputs.
pub proof fn lemma_encode_deterministic(
    a1: ArrayV,
    a2: ArrayV,
    encoding: ArrayEncoding,
    codec: ByteCodec,
)
    requires
        a1 == a2,
    ensures
        encode_spec(a1, encoding, codec) == encode_spec(a2, encoding, codec),
{
}

/// A compressed array: the codec outputs plus the header fields, carrying a
/// ghost record of the array value it encodes. Decompression restores
/// exactly that value.
pub struct Compressed {
    encoding: ArrayEncoding,
    codec: ByteCodec,
    extent: Extent3i,
    sections: Vec<Vec<u8>>,
    original: Ghost<ArrayV>,
}

impl View for Compressed {
    type V = ArrayV;

    closed spec fn view(&self) -> ArrayV {
        self.original@
    }
}

impl Compressed {
    #[verifier::type_invariant]
    closed spec fn inv(self) -> bool {
        &&& self.original@.wf()
        &&& self.extent == self.original@.extent
        &&& match self.encoding {
            ArrayEncoding::FastChannels => {
                &&& fast_ok(self.original@, self.codec)
                &&& self.sections@.len() == self.original@.channels.len()
                &&& forall|ci: int|
                    0 <= ci < self.sections@.len() ==> (#[trigger] self.sections@[ci])@
                        == fast_section(self.original@, self.codec, ci)
            },
            ArrayEncoding::Serialized => {
                &&& serialized_ok(self.original@, self.codec)
                &&& self.sections@.len() == 1
                &&& self.sections@[0]@ == self.codec.compressed(
                    ser_payload(self.original@),
                ).unwrap()
            },
        }
    }

    pub closed spec fn encoding_spec(self) -> ArrayEncoding {
        self.encoding
    }

    pub closed spec fn codec_spec(self) -> ByteCodec {
        self.codec
    }

    /// The wire bytes of this value; always defined (the codec succeeded
    /// when the value was made).
    pub open spec fn wire_spec(self) -> Seq<u8> {
        encode_spec(self@, self.encoding_spec(), self.codec_spec()).unwrap()
    }

    pub fn encoding(&self) -> (r: ArrayEncoding)
        ensures
            r == self.encoding_spec(),
    {
        self.encoding
    }

    pub fn codec(&self) -> (r: ByteCodec)
        ensures
            r == self.codec_spec(),
    {
        self.codec
    }

    /// Compress an array with the chosen strategy and codec. On success the
    /// result encodes exactly the given array value; failure happens exactly
    /// when the byte codec fails (or a section overflows the size table).
    pub fn compress_array(a: &Array3, encoding: ArrayEncoding, codec: ByteCodec) -> (r: Result<
        Compressed,
        StorageError,
    >)
        requires
            a.wf(),
        ensures
            match r {
                Ok(c) => c@ == a@ && c.encoding_spec() == encoding && c.codec_spec() == codec
                    && encode_spec(a@, encoding, codec).is_some(),
                Err(e) => e == StorageError::CodecFailure && encode_spec(
                    a@,
                    encoding,
                    codec,
                ).is_none(),
            },
    {
        match encoding {
            ArrayEncoding::FastChannels => {
                let nc = a.channel_count();
                let mut sections: Vec<Vec<u8>> = Vec::new();
                let mut ci: u8 = 0;
                while ci < nc
                    invariant
                        a.wf(),
                        encoding == ArrayEncoding::FastChannels,
                        nc == a@.channels.len(),
                        ci <= nc,
                        sections@.len() == ci,
                        forall|k: int|
                            0 <= k < ci ==> (#[trigger] codec.compressed(
                                i32s_le(a@.channels[k]),
                            )).is_some() && sections@[k]@ == fast_section(a@, codec, k)
                                && sections@[k]@.len() <= 0xffffffff,
                    decreases nc - ci,
                {
                    let mut buf: Vec<u8> = Vec::new();
                    push_i32s_le(&mut buf, a.channel_vec(ci));
                    proof {
                        assert(buf@ =~= i32s_le(a@.channels[ci as int]));
                    }
                    match codec.compress(&buf) {
                        Ok(out) => {
                            if (out.len() as u64) > 0xffffffff {
                                proof {
                                    assert(fast_section(a@, codec, ci as int).len() > 0xffffffff);
                                    assert(!fast_ok(a@, codec));
                                }
                                return Err(StorageError::CodecFailure);
                            }
                            proof {
                                assert(out@ == fast_section(a@, codec, ci as int));
                            }
                            sections.push(out);
                        },
                        Err(_) => {
                            proof {
                                assert(!fast_ok(a@, codec));
                            }
                            return Err(StorageError::CodecFailure);
                        },
                    }
                    ci = ci + 1;
                }
                let c = Compressed {
                    encoding,
                    codec,
                    extent: a.get_extent(),
                    sections,
                    original: Ghost(a@),
                };
                Ok(c)
            },
            ArrayEncoding::Serialized => {
                let nc = a.channel_count();
                let mut payload: Vec<u8> = Vec::new();
                payload.push(nc);
                proof {
                    assert(a@.channels.subrange(0, 0) =~= Seq::<Seq<i32>>::empty());
                    assert(payload@ =~= seq![nc] + ser_channels(a@.channels.subrange(0, 0)));
                }
                let mut ci: u8 = 0;
                while ci < nc
                    invariant
                        a.wf(),
                        nc == a@.channels.len(),
                        ci <= nc,
                        payload@ == seq![nc] + ser_channels(a@.channels.subrange(0, ci as int)),
                    decreases nc - ci,
                {
                    let ch = a.channel_vec(ci);
                    push_u32_le(&mut payload, ch.len() as u32);
                    push_i32s_le(&mut payload, ch);
                    proof {
                        lemma_ser_channels_snoc(a@.channels.subrange(0, ci as int), ch@);
                        assert(a@.channels.subrange(0, ci + 1) =~= a@.channels.subrange(
                            0,
                            ci as int,
                        ).push(ch@));
                    }
                    ci = ci + 1;
                }
                proof {
                    assert(a@.channels.subrange(0, nc as int) =~= a@.channels);
                    assert(payload@ == ser_payload(a@));
                }
                match codec.compress(&payload) {
                    Ok(out) => {
                        if (out.len() as u64) > 0xffffffff {
                            proof {
                                assert(!serialized_ok(a@, codec));
                            }
                            return Err(StorageError::CodecFailure);
                        }
                        let mut sections: Vec<Vec<u8>> = Vec::new();
                        sections.push(out);
                        let c = Compressed {
                            encoding,
                            codec,
                            extent: a.get_extent(),
                            sections,
                            original: Ghost(a@),
                        };
                        Ok(c)
                    },
                    Err(_) => {
                        proof {
                            assert(!serialized_ok(a@, codec));
                        }
                        Err(StorageError::CodecFailure)
                    },
                }
            },
        }
    }

    /// Restore the array value this compressed value encodes.
    pub fn decompress(&self) -> (r: Array3)
        ensures
            r.wf(),
            r@ == self@,
    {
        proof {
            use_type_invariant(self);
        }
        let extent = self.extent;
        let n = extent.num_points();
        match self.encoding {
            ArrayEncoding::FastChannels => {
                let nc = self.sections.len();
                let mut channels: Vec<Vec<i32>> = Vec::new();
                let mut ci: usize = 0;
                while ci < nc
                    invariant
                        self.inv(),
                        self.encoding_spec() == ArrayEncoding::FastChannels,
                        nc == self@.channels.len(),
                        extent == self@.extent,
                        n == extent.volume(),
                        ci <= nc,
                        channels@.len() == ci,
                        forall|k: int|
                            0 <= k < ci ==> (#[trigger] channels@[k])@ == self@.channels[k],
                    decreases nc - ci,
                {
                    let ghost ch = self@.channels[ci as int];
                    match self.codec.decompress(&self.sections[ci]) {
                        Ok(bytes) => {
                            proof {
                                assert(self.codec.compressed(i32s_le(ch)) == Some(
                                    self.sections@[ci as int]@,
                                ));
                                assert(bytes@ == i32s_le(ch));
                                lemma_i32s_le_len(ch);
                            }
                            let cells = parse_i32s(&bytes, 0, n);
                            proof {
                                assert(bytes@.subrange(0, 4 * n) =~= bytes@);
                                lemma_i32s_le_injective(cells@, ch);
                            }
                            channels.push(cells);
                        },
                        Err(_) => {
                            proof {
                                assert(self.codec.compressed(i32s_le(ch)) == Some(
                                    self.sections@[ci as int]@,
                                ));
                                assert(false);
                            }
                            return Array3::new_fill(extent, 1, 0);
                        },
                    }
                    ci = ci + 1;
                }
                let out = Array3::from_channels(extent, channels);
                proof {
                    assert(out@.channels =~= self@.channels);
                }
                out
            },
            ArrayEncoding::Serialized => {
                let ghost chs = self@.channels;
                match self.codec.decompress(&self.sections[0]) {
                    Ok(payload) => {
                        proof {
                            assert(self.codec.compressed(ser_payload(self@)) == Some(
                                self.sections@[0]@,
                            ));
                            assert(payload@ == ser_payload(self@));
                            lemma_ser_channels_len(chs, extent.volume());
                            assert((chs.len() as int) * (4 + 4 * extent.volume()) <= 255 * 4 + 4 * (
                            (chs.len() as int) * extent.volume())) by (nonlinear_arith)
                                requires
                                    0 <= chs.len() <= 255,
                                    0 <= extent.volume(),
                            ;
                        }
                        let nc = payload[0];
                        proof {
                            assert(payload@[0] == chs.len() as u8);
                        }
                        let mut channels: Vec<Vec<i32>> = Vec::new();
                        proof {
                            assert(payload@.subrange(1, payload@.len() as int) =~= ser_channels(
                                chs,
                            ));
                            assert(chs.subrange(0, chs.len() as int) =~= chs);
                        }
                        let mut pos: usize = 1;
                        let mut ci: usize = 0;
                        while ci < nc as usize
                            invariant
                                self@.wf(),
                                payload@ == ser_payload(self@),
                                chs == self@.channels,
                                nc == chs.len() as u8,
                                nc == chs.len(),
                                extent == self@.extent,
                                n == extent.volume(),
                                payload@.len() <= 0xffffffff,
                                ci <= nc,
                                channels@.len() == ci,
                                pos <= payload@.len(),
                                forall|k: int|
                                    0 <= k < ci ==> (#[trigger] channels@[k])@ == chs[k],
                                payload@.subrange(pos as int, payload@.len() as int)
                                    == ser_channels(chs.subrange(ci as int, chs.len() as int)),
                            decreases nc - ci,
                        {
                            let ghost suffix = chs.subrange(ci as int, chs.len() as int);
                            let ghost ch = chs[ci as int];
                            proof {
                                assert(suffix.len() > 0);
                                assert(suffix[0] == ch);
                                assert(suffix.subrange(1, suffix.len() as int) =~= chs.subrange(
                                    ci + 1,
                                    chs.len() as int,
                                ));
                                lemma_i32s_le_len(ch);
                                assert(ch.len() == extent.volume());
                                assert(ser_channels(suffix) == u32_le(suffix[0].len() as u32)
                                    + i32s_le(suffix[0]) + ser_channels(
                                    suffix.subrange(1, suffix.len() as int),
                                ));
                                assert(payload@.len() - pos == 4 + 4 * (ch.len() as int) + ser_channels(
                                    chs.subrange(ci + 1, chs.len() as int),
                                ).len());
                            }
                            let b0 = payload[pos];
                            let b1 = payload[pos + 1];
                            let b2 = payload[pos + 2];
                            let b3 = payload[pos + 3];
                            let u = crate::bytes::u32_from_le(b0, b1, b2, b3);
                            proof {
                                let tail = payload@.subrange(pos as int, payload@.len() as int);
                                assert(tail[0] == payload@[pos as int]);
                                assert(tail[1] == payload@[pos + 1]);
                                assert(tail[2] == payload@[pos + 2]);
                                assert(tail[3] == payload@[pos + 3]);
                                assert(u32_le((ch.len() as u32))[0] == tail[0]);
                                assert(u32_le((ch.len() as u32))[1] == tail[1]);
                                assert(u32_le((ch.len() as u32))[2] == tail[2]);
                                assert(u32_le((ch.len() as u32))[3] == tail[3]);
                                assert(u32_le(u) =~= u32_le((ch.len() as u32)));
                                crate::bytes::lemma_u32_le_injective(u, ch.len() as u32);
                                assert(u == ch.len());
                            }
                            let count = u as usize;
                            let cells = parse_i32s(&payload, pos + 4, count);
                            proof {
                                let tail = payload@.subrange(pos as int, payload@.len() as int);
                                assert(i32s_le(ch) =~= tail.subrange(4, 4 + 4 * (ch.len() as int)));
                                assert(tail.subrange(4, 4 + 4 * (ch.len() as int)) =~= payload@.subrange(
                                    pos + 4,
                                    pos + 4 + 4 * (ch.len() as int),
                                ));
                                lemma_i32s_le_injective(cells@, ch);
                            }
                            channels.push(cells);
                            proof {
                                let tail = payload@.subrange(pos as int, payload@.len() as int);
                                assert(payload@.subrange(
                                    pos + 4 + 4 * (ch.len() as int),
                                    payload@.len() as int,
                                ) =~= tail.subrange(4 + 4 * (ch.len() as int), tail.len() as int));
                                assert(tail.subrange(4 + 4 * (ch.len() as int), tail.len() as int)
                                    =~= ser_channels(chs.subrange(ci + 1, chs.len() as int)));
                            }
                            pos = pos + 4 + 4 * count;
                            ci = ci + 1;
                        }
                        let out = Array3::from_channels(extent, channels);
                        proof {
                            assert(out@.channels =~= self@.channels);
                        }
                        out
                    },
                    Err(_) => {
                        proof {
                            assert(self.codec.compressed(ser_payload(self@)) == Some(
                                self.sections@[0]@,
                            ));
                            assert(false);
                        }
                        Array3::new_fill(extent, 1, 0)
                    },
                }
            },
        }
    }
}

impl Compressed {
    /// The stable wire image of this value, byte for byte: encoding equal
    /// array values with equal parameters gives identical byte strings.
    pub fn to_bytes(&self) -> (r: Vec<u8>)
        ensures
            Some(r@) == encode_spec(self@, self.encoding_spec(), self.codec_spec()),
            r@ == self.wire_spec(),
    {
        proof {
            use_type_invariant(self);
        }
        let ghost ss = self.sections@.map_values(|v: Vec<u8>| v@);
        let mut out: Vec<u8> = Vec::new();
        out.push(0x42);
        out.push(0x42);
        out.push(0x56);
        out.push(0x43);
        push_u16_le(&mut out, 1);
        out.push(self.encoding.tag());
        out.push(self.codec.tag());
        push_i32_le(&mut out, self.extent.minimum.x);
        push_i32_le(&mut out, self.extent.minimum.y);
        push_i32_le(&mut out, self.extent.minimum.z);
        push_i32_le(&mut out, self.extent.shape.x);
        push_i32_le(&mut out, self.extent.shape.y);
        push_i32_le(&mut out, self.extent.shape.z);
        out.push(self.sections.len() as u8);
        let ghost hp = seq![0x42u8, 0x42u8, 0x56u8, 0x43u8] + u16_le(1) + seq![
            self.encoding.tag_spec(),
            self.codec.tag_spec(),
        ] + i32_le(self.extent.minimum.x) + i32_le(self.extent.minimum.y) + i32_le(
            self.extent.minimum.z,
        ) + i32_le(self.extent.shape.x) + i32_le(self.extent.shape.y) + i32_le(self.extent.shape.z)
            + seq![ss.len() as u8];
        proof {
            assert(out@ =~= hp);
            assert(ss.subrange(0, 0) =~= Seq::<Seq<u8>>::empty());
            assert(out@ =~= hp + sizes_bytes(ss.subrange(0, 0)));
        }
        let mut i: usize = 0;
        let n = self.sections.len();
        while i < n
            invariant
                n == ss.len(),
                ss == self.sections@.map_values(|v: Vec<u8>| v@),
                i <= n,
                out@ == hp + sizes_bytes(ss.subrange(0, i as int)),
            decreases n - i,
        {
            proof {
                assert(ss[i as int] == self.sections@[i as int]@);
            }
            push_u32_le(&mut out, self.sections[i].len() as u32);
            proof {
                lemma_sizes_bytes_snoc(ss.subrange(0, i as int), ss[i as int]);
                assert(ss.subrange(0, i + 1) =~= ss.subrange(0, i as int).push(ss[i as int]));
            }
            i = i + 1;
        }
        proof {
            assert(ss.subrange(0, n as int) =~= ss);
            assert(Seq::<u8>::empty() + concat_bytes(ss.subrange(0, 0)) =~= concat_bytes(
                ss.subrange(0, 0),
            ));
            assert(concat_bytes(ss.subrange(0, 0)) =~= Seq::<u8>::empty());
            assert(out@ =~= hp + sizes_bytes(ss) + concat_bytes(ss.subrange(0, 0)));
        }
        let mut i: usize = 0;
        while i < n
            invariant
                n == ss.len(),
                n == self.sections@.len(),
                ss == self.sections@.map_values(|v: Vec<u8>| v@),
                i <= n,
                out@ == hp + sizes_bytes(ss) + concat_bytes(ss.subrange(0, i as int)),
            decreases n - i,
        {
            proof {
                assert(ss[i as int] == self.sections@[i as int]@);
            }
            let sec = &self.sections[i];
            let ghost base = out@;
            let mut j: usize = 0;
            while j < sec.len()
                invariant
                    j <= sec@.len(),
                    out@ == base + sec@.subrange(0, j as int),
                decreases sec@.len() - j,
            {
                out.push(sec[j]);
                proof {
                    assert(sec@.subrange(0, j + 1) =~= sec@.subrange(0, j as int).push(
                        sec@[j as int],
                    ));
                    assert(out@ =~= base + sec@.subrange(0, j + 1));
                }
                j = j + 1;
            }
            proof {
                assert(sec@.subrange(0, sec@.len() as int) =~= sec@);
                lemma_concat_bytes_snoc(ss.subrange(0, i as int), ss[i as int]);
                assert(ss.subrange(0, i + 1) =~= ss.subrange(0, i as int).push(ss[i as int]));
                assert(out@ =~= hp + sizes_bytes(ss) + concat_bytes(ss.subrange(0, i + 1)));
            }
            i = i + 1;
        }
        proof {
            assert(ss.subrange(0, n as int) =~= ss);
            match self.encoding {
                ArrayEncoding::FastChannels => {
                    assert(ss =~= fast_sections(self@, self.codec));
                },
                ArrayEncoding::Serialized => {
                    assert(ss =~= seq![self.codec.compressed(ser_payload(self@)).unwrap()]);
                },
            }
            assert(out@ =~= wire_image(
                self@.extent,
                self.encoding.tag_spec(),
                self.codec.tag_spec(),
                ss,
            ));
        }
        out
    }
}

/// Appending one section appends its four size bytes.
pub proof fn lemma_sizes_bytes_snoc(s: Seq<Seq<u8>>, x: Seq<u8>)
    ensures
        sizes_bytes(s.push(x)) == sizes_bytes(s) + u32_le(x.len() as u32),
    decreases s.len(),
{
    let p = s.push(x);
    if s.len() == 0 {
        assert(p[0] == x);
        assert(p.subrange(1, 1) =~= Seq::<Seq<u8>>::empty());
        assert(sizes_bytes(p.subrange(1, 1)) == Seq::<u8>::empty());
        assert(sizes_bytes(p) =~= sizes_bytes(s) + u32_le(x.len() as u32));
    } else {
        assert(p[0] == s[0]);
        assert(p.subrange(1, s.len() as int + 1) =~= s.subrange(1, s.len() as int).push(x));
        lemma_sizes_bytes_snoc(s.subrange(1, s.len() as int), x);
        assert(sizes_bytes(p) =~= sizes_bytes(s) + u32_le(x.len() as u32));
    }
}

/// Appending one section appends its bytes to the concatenation.
pub proof fn lemma_concat_bytes_snoc(s: Seq<Seq<u8>>, x: Seq<u8>)
    ensures
        concat_bytes(s.push(x)) == concat_bytes(s) + x,
    decreases s.len(),
{
    let p = s.push(x);
    if s.len() == 0 {
        assert(p[0] == x);
        assert(p.subrange(1, 1) =~= Seq::<Seq<u8>>::empty());
        assert(concat_bytes(p.subrange(1, 1)) == Seq::<u8>::empty());
        assert(concat_bytes(p) =~= concat_bytes(s) + x);
    } else {
        assert(p[0] == s[0]);
        assert(p.subrange(1, s.len() as int + 1) =~= s.subrange(1, s.len() as int).push(x));
        lemma_concat_bytes_snoc(s.subrange(1, s.len() as int), x);
        assert(concat_bytes(p) =~= concat_bytes(s) + x);
    }
}

/// Appending one channel appends its length prefix and its bytes.
pub proof fn lemma_ser_channels_snoc(s: Seq<Seq<i32>>, ch: Seq<i32>)
    ensures
        ser_channels(s.push(ch)) == ser_channels(s) + u32_le(ch.len() as u32) + i32s_le(ch),
    decreases s.len(),
{
    let p = s.push(ch);
    if s.len() == 0 {
        assert(p[0] == ch);
        assert(p.subrange(1, 1) =~= Seq::<Seq<i32>>::empty());
        assert(ser_channels(p.subrange(1, 1)) == Seq::<u8>::empty());
        assert(ser_channels(p) == u32_le(p[0].len() as u32) + i32s_le(p[0]) + ser_channels(
            p.subrange(1, 1),
        ));
        assert(ser_channels(p) =~= ser_channels(s) + u32_le(ch.len() as u32) + i32s_le(ch));
    } else {
        assert(p[0] == s[0]);
        assert(p.subrange(1, s.len() as int + 1) =~= s.subrange(1, s.len() as int).push(ch));
        lemma_ser_channels_snoc(s.subrange(1, s.len() as int), ch);
        assert(ser_channels(p) == u32_le(p[0].len() as u32) + i32s_le(p[0]) + ser_channels(
            p.subrange(1, s.len() as int + 1),
        ));
        assert(ser_channels(p.subrange(1, s.len() as int + 1)) == ser_channels(
            s.subrange(1, s.len() as int),
        ) + u32_le(ch.len() as u32) + i32s_le(ch));
        assert(ser_channels(p) =~= ser_channels(s) + u32_le(ch.len() as u32) + i32s_le(ch));
    }
}

/// The byte length of the serialized channels, when all have length `vol`.
pub proof fn lemma_ser_channels_len(s: Seq<Seq<i32>>, vol: int)
    requires
        forall|k: int| 0 <= k < s.len() ==> (#[trigger] s[k]).len() == vol,
    ensures
        ser_channels(s).len() == (s.len() as int) * (4 + 4 * vol),
    decreases s.len(),
{
    if s.len() == 0 {
    } else {
        let t = s.subrange(1, s.len() as int);
        lemma_ser_channels_len(t, vol);
        lemma_i32s_le_len(s[0]);
        assert((s.len() as int) * (4 + 4 * vol) == (4 + 4 * vol) + (t.len() as int) * (4 + 4 * vol))
            by (nonlinear_arith)
            requires
                t.len() == s.len() - 1,
                s.len() >= 1,
        ;
    }
}

} // verus!
