//! Write-time configuration. Reading needs none. Every block records its own
//! codec, and the container framing is fixed.

use vstd::prelude::*;

verus! {

/// Compression codec applied to array blocks as the collection is written.
///
/// The choice affects the write path only. Each block stores its own codec.
/// A reader decodes what it finds, and needs no argument.
#[derive(Debug, Clone, Copy, PartialEq, Eq, Hash, Structural)]
pub enum Codec {
    /// Zstd. The default. It gives the best ratio at moderate speed.
    Zstd,
    /// LZ4. Faster than Zstd, larger output.
    Lz4,
    /// No compression. The fastest write path. It makes the file no smaller.
    Uncompressed,
}

impl Default for Codec {
    fn default() -> (codec: Self)
        ensures
            codec == Codec::Zstd,
    {
        Codec::Zstd
    }
}

/// Block size the segment writer aims at when it packs chunks, in bytes.
pub const DEFAULT_BLOCK_TARGET_SIZE: usize = 8_388_608;

/// Bytes one variable may hold in memory before its staging file flushes.
pub const STAGING_FLUSH_BUDGET: usize = 67_108_864;

/// Decompressed-block cache shared by every segment a reader opens, in bytes.
pub const DEFAULT_CACHE_CAPACITY: u64 = 268_435_456;

/// Raw I/O cache shared by every segment a reader opens, in bytes.
pub const DEFAULT_IO_CACHE_CAPACITY: u64 = 67_108_864;

/// Settings for building a collection.
#[derive(Debug, Clone)]
pub struct WriterConfig {
    /// Codec for array blocks. Defaults to [`Codec::Zstd`].
    pub codec: Codec,
    /// Target size of a compressed block, in bytes. Defaults to 8 MiB.
    pub block_target_size: usize,
}

impl Default for WriterConfig {
    fn default() -> (config: Self)
        ensures
            config.codec == Codec::Zstd,
            config.block_target_size == 8 * 1024 * 1024,
    {
        WriterConfig { codec: Codec::Zstd, block_target_size: DEFAULT_BLOCK_TARGET_SIZE }
    }
}

/// The encoding of a store's metadata file.
#[derive(Debug, Clone, Copy, PartialEq, Eq, Structural)]
pub enum MetaFormat {
    /// JSON text.
    Json,
    /// MessagePack.
    MsgPack,
}

/// The name of a store's metadata file.
pub open spec fn meta_file(format: MetaFormat, compression: Codec) -> Seq<char> {
    match (format, compression) {
        (MetaFormat::Json, Codec::Uncompressed) => "atlas.json"@,
        (MetaFormat::Json, Codec::Zstd) => "atlas.json.zst"@,
        (MetaFormat::Json, Codec::Lz4) => "atlas.json.lz4"@,
        (MetaFormat::MsgPack, Codec::Uncompressed) => "atlas.msgpack"@,
        (MetaFormat::MsgPack, Codec::Zstd) => "atlas.msgpack.zst"@,
        (MetaFormat::MsgPack, Codec::Lz4) => "atlas.msgpack.lz4"@,
    }
}

impl MetaFormat {
    /// The name of the metadata file in this encoding with this compression.
    pub fn filename(self, compression: Codec) -> (name: &'static str)
        ensures
            name@ == meta_file(self, compression),
    {
        match (self, compression) {
            (MetaFormat::Json, Codec::Uncompressed) => "atlas.json",
            (MetaFormat::Json, Codec::Zstd) => "atlas.json.zst",
            (MetaFormat::Json, Codec::Lz4) => "atlas.json.lz4",
            (MetaFormat::MsgPack, Codec::Uncompressed) => "atlas.msgpack",
            (MetaFormat::MsgPack, Codec::Zstd) => "atlas.msgpack.zst",
            (MetaFormat::MsgPack, Codec::Lz4) => "atlas.msgpack.lz4",
        }
    }
}

/// Every form a metadata file can have, by priority: JSON before MessagePack,
/// and uncompressed before compressed.
pub open spec fn meta_variants() -> Seq<(MetaFormat, Codec)> {
    seq![
        (MetaFormat::Json, Codec::Uncompressed),
        (MetaFormat::Json, Codec::Zstd),
        (MetaFormat::Json, Codec::Lz4),
        (MetaFormat::MsgPack, Codec::Uncompressed),
        (MetaFormat::MsgPack, Codec::Zstd),
        (MetaFormat::MsgPack, Codec::Lz4),
    ]
}

/// Every form a metadata file can have, by priority.
pub fn all_meta_variants() -> (list: Vec<(MetaFormat, Codec)>)
    ensures
        list@ == meta_variants(),
{
    let list: Vec<(MetaFormat, Codec)> = vec![
        (MetaFormat::Json, Codec::Uncompressed),
        (MetaFormat::Json, Codec::Zstd),
        (MetaFormat::Json, Codec::Lz4),
        (MetaFormat::MsgPack, Codec::Uncompressed),
        (MetaFormat::MsgPack, Codec::Zstd),
        (MetaFormat::MsgPack, Codec::Lz4),
    ];
    assert(list@ =~= meta_variants());
    list
}

/// What happens when a type cannot merge with the type the collection records.
#[derive(Debug, Clone, Copy, PartialEq, Eq, Structural)]
pub enum TypeMismatchPolicy {
    /// Store the value, and report the mismatch as a warning.
    Warn,
    /// Refuse the value.
    Error,
}

/// A compressed metadata file is named like the uncompressed one, with the
/// ending of its compression. Two different forms never share a name.
pub proof fn law_names_of_metadata_files(a: (MetaFormat, Codec), b: (MetaFormat, Codec))
    ensures
        meta_file(a.0, Codec::Zstd) == meta_file(a.0, Codec::Uncompressed) + ".zst"@,
        meta_file(a.0, Codec::Lz4) == meta_file(a.0, Codec::Uncompressed) + ".lz4"@,
        meta_file(a.0, a.1) == meta_file(b.0, b.1) ==> a == b,
{
    reveal_strlit(".zst");
    reveal_strlit(".lz4");
    reveal_strlit("atlas.json");
    reveal_strlit("atlas.json.zst");
    reveal_strlit("atlas.json.lz4");
    reveal_strlit("atlas.msgpack");
    reveal_strlit("atlas.msgpack.zst");
    reveal_strlit("atlas.msgpack.lz4");
    assert("atlas.json.zst"@ =~= "atlas.json"@ + ".zst"@);
    assert("atlas.json.lz4"@ =~= "atlas.json"@ + ".lz4"@);
    assert("atlas.msgpack.zst"@ =~= "atlas.msgpack"@ + ".zst"@);
    assert("atlas.msgpack.lz4"@ =~= "atlas.msgpack"@ + ".lz4"@);
    assert("atlas.json.zst"@[11] != "atlas.json.lz4"@[11]);
    assert("atlas.msgpack.zst"@[14] != "atlas.msgpack.lz4"@[14]);
}

/// Every form of a metadata file has one place in the order of priority. JSON
/// comes before MessagePack, and in each the uncompressed form comes first.
pub proof fn law_every_metadata_form_has_a_priority(format: MetaFormat, compression: Codec)
    ensures
        meta_variants().contains((format, compression)),
        meta_variants().no_duplicates(),
        forall|i: int, j: int|
            0 <= i < meta_variants().len() && 0 <= j < meta_variants().len() && (
            #[trigger] meta_variants()[i]).0 is Json && (#[trigger] meta_variants()[j]).0 is MsgPack
                ==> i < j,
        forall|i: int, j: int|
            0 <= i < meta_variants().len() && 0 <= j < meta_variants().len() && (
            #[trigger] meta_variants()[i]).1 is Uncompressed && meta_variants()[i].0 == (
            #[trigger] meta_variants()[j]).0 ==> i <= j,
{
    let all = meta_variants();
    assert(all[0] == (MetaFormat::Json, Codec::Uncompressed));
    assert(all[1] == (MetaFormat::Json, Codec::Zstd));
    assert(all[2] == (MetaFormat::Json, Codec::Lz4));
    assert(all[3] == (MetaFormat::MsgPack, Codec::Uncompressed));
    assert(all[4] == (MetaFormat::MsgPack, Codec::Zstd));
    assert(all[5] == (MetaFormat::MsgPack, Codec::Lz4));
}

} // verus!
