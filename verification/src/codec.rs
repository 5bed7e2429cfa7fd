use vstd::prelude::*;

verus! {

/// The error kinds surfaced by the storage crate.
#[derive(Clone, Copy, PartialEq, Eq, Structural, Debug)]
pub enum StorageError {
    /// A compressed blob failed structural checks or could not be decoded.
    CorruptedBlob,
    /// The underlying byte codec reported an error.
    CodecFailure,
    /// A compressible backend was configured with a zero cache capacity.
    CacheCapacityZero,
    /// A point or level of detail outside the configured world.
    OutOfBounds,
}

/// What `lz4` block compression (high-compression mode, with the input size
/// prepended) returns for the given input and level; `None` when it reports
/// an error. The result depends on the input bytes and the level alone.
pub uninterp spec fn lz4_compressed(input: Seq<u8>, level: i32) -> Option<Seq<u8>>;

/// What `snap` raw compression returns for the given input; `None` when it
/// reports an error. The result depends on the input bytes alone.
pub uninterp spec fn snappy_compressed(input: Seq<u8>) -> Option<Seq<u8>>;

/// Relies on `lz4::block::compress` with `CompressionMode::HIGHCOMPRESSION`
/// and `prepend_size == true`: a pure function of the input and the level.
#[verifier::external_body]
fn lz4_compress(input: &Vec<u8>, level: i32) -> (r: Result<Vec<u8>, StorageError>)
    ensures
        match r {
            Ok(out) => lz4_compressed(input@, level) == Some(out@),
            Err(e) => lz4_compressed(input@, level) == None::<Seq<u8>> && e
                == StorageError::CodecFailure,
        },
{
    match lz4::block::compress(
        input.as_slice(),
        Some(lz4::block::CompressionMode::HIGHCOMPRESSION(level)),
        true,
    ) {
        Ok(v) => Ok(v),
        Err(_) => Err(StorageError::CodecFailure),
    }
}

/// Relies on `lz4::block::decompress` reading the prepended size: applied to
/// the output of `lz4::block::compress` it restores the exact input bytes,
/// and it reports an error rather than panicking on other inputs.
#[verifier::external_body]
fn lz4_decompress(input: &Vec<u8>) -> (r: Result<Vec<u8>, StorageError>)
    ensures
        match r {
            Ok(out) => forall|b: Seq<u8>, level: i32|
                lz4_compressed(b, level) == Some(input@) ==> out@ == b,
            Err(e) => (forall|b: Seq<u8>, level: i32| lz4_compressed(b, level) != Some(input@)) && e
                == StorageError::CorruptedBlob,
        },
{
    match lz4::block::decompress(input.as_slice(), None) {
        Ok(v) => Ok(v),
        Err(_) => Err(StorageError::CorruptedBlob),
    }
}

/// Relies on `snap::raw::Encoder::compress_vec`: a pure function of the
/// input bytes.
#[verifier::external_body]
fn snappy_compress(input: &Vec<u8>) -> (r: Result<Vec<u8>, StorageError>)
    ensures
        match r {
            Ok(out) => snappy_compressed(input@) == Some(out@),
            Err(e) => snappy_compressed(input@) == None::<Seq<u8>> && e
                == StorageError::CodecFailure,
        },
{
    match snap::raw::Encoder::new().compress_vec(input.as_slice()) {
        Ok(v) => Ok(v),
        Err(_) => Err(StorageError::CodecFailure),
    }
}

/// Relies on `snap::raw::Decoder::decompress_vec`: applied to the output of
/// `compress_vec` it restores the exact input bytes, and it reports an error
/// rather than panicking on other inputs.
#[verifier::external_body]
fn snappy_decompress(input: &Vec<u8>) -> (r: Result<Vec<u8>, StorageError>)
    ensures
        match r {
            Ok(out) => forall|b: Seq<u8>| snappy_compressed(b) == Some(input@) ==> out@ == b,
            Err(e) => (forall|b: Seq<u8>| snappy_compressed(b) != Some(input@)) && e
                == StorageError::CorruptedBlob,
        },
{
    match snap::raw::Decoder::new().decompress_vec(input.as_slice()) {
        Ok(v) => Ok(v),
        Err(_) => Err(StorageError::CorruptedBlob),
    }
}

/// A swappable byte-level codec: both variants are deterministic, stateless
/// functions from bytes to bytes.
#[derive(Clone, Copy, PartialEq, Eq, Structural, Debug)]
pub enum ByteCodec {
    /// An LZ4-class block codec with a compression level.
    Lz4 { level: i32 },
    /// A snappy-class codec.
    Snappy,
}

impl ByteCodec {
    /// What this codec produces for `input`, `None` when it fails.
    pub open spec fn compressed(self, input: Seq<u8>) -> Option<Seq<u8>> {
        match self {
            ByteCodec::Lz4 { level } => lz4_compressed(input, level),
            ByteCodec::Snappy => snappy_compressed(input),
        }
    }

    /// The tag byte identifying this codec in the wire format.
    pub open spec fn tag_spec(self) -> u8 {
        match self {
            ByteCodec::Lz4 { .. } => 0,
            ByteCodec::Snappy => 1,
        }
    }

    pub fn tag(&self) -> (r: u8)
        ensures
            r == self.tag_spec(),
    {
        match self {
            ByteCodec::Lz4 { .. } => 0,
            ByteCodec::Snappy => 1,
        }
    }

    /// Compress `input`, returning exactly what the underlying codec names.
    pub fn compress(&self, input: &Vec<u8>) -> (r: Result<Vec<u8>, StorageError>)
        ensures
            match r {
                Ok(out) => self.compressed(input@) == Some(out@),
                Err(e) => self.compressed(input@) == None::<Seq<u8>> && e
                    == StorageError::CodecFailure,
            },
    {
        match self {
            ByteCodec::Lz4 { level } => lz4_compress(input, *level),
            ByteCodec::Snappy => snappy_compress(input),
        }
    }

    /// Decompress `input`: restores the unique bytes this codec compressed
    /// to `input`, and fails exactly when there are none.
    pub fn decompress(&self, input: &Vec<u8>) -> (r: Result<Vec<u8>, StorageError>)
        ensures
            match r {
                Ok(out) => forall|b: Seq<u8>| self.compressed(b) == Some(input@) ==> out@ == b,
                Err(e) => (forall|b: Seq<u8>| self.compressed(b) != Some(input@)) && e
                    == StorageError::CorruptedBlob,
            },
    {
        match self {
            ByteCodec::Lz4 { .. } => {
                let r = lz4_decompress(input);
                match r {
                    Ok(out) => Ok(out),
                    Err(e) => Err(e),
                }
            },
            ByteCodec::Snappy => snappy_decompress(input),
        }
    }
}

} // verus!
