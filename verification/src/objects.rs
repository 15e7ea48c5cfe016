//! The object store: how contents are named, compressed, framed and cut into chunks.

use vstd::prelude::*;
use vstd::string::*;

use crate::bytes;
use crate::text;

verus! {

/// The effort that goes into compression.
pub const ZSTD_LEVEL: i32 = 6;

/// What an object may hold at most, in bytes.
pub const MAX_DECOMPRESSED_SIZE: u64 = 1073741824;

/// How many bytes are asked for at once when an object is decompressed.
pub const READ_SIZE: usize = 8192;

/// The contents of a larger file are cut into chunks of this size, in bytes.
pub const CHUNK_SIZE: usize = 4194304;

// ---------------------------------------------------------------------------------------
// Names
// ---------------------------------------------------------------------------------------
/// The digest that `blake3::hash` computes.
pub uninterp spec fn blake3_digest(b: Seq<u8>) -> Seq<u8>;

/// Calls `blake3::hash` and takes the bytes of the result. Trusted: the digest depends on the
/// bytes alone and has 32 bytes.
#[verifier::external_body]
fn digest(b: &[u8]) -> (r: Vec<u8>)
    ensures
        r@ == blake3_digest(b@),
        r@.len() == 32,
{
    blake3::hash(b).as_bytes().to_vec()
}

/// The digit with the value `n` in base sixteen.
pub open spec fn hex_digit(n: int) -> char {
    "0123456789abcdef"@[n]
}

/// Two digits in base sixteen for each byte, the higher one first.
pub open spec fn hex_text(b: Seq<u8>) -> Seq<char> {
    Seq::new(
        2 * b.len(),
        |i: int|
            hex_digit(
                if i % 2 == 0 {
                    b[i / 2] as int / 16
                } else {
                    b[i / 2] as int % 16
                },
            ),
    )
}

/// Calls `hex::encode`. Trusted: it writes each byte as two digits in base sixteen, the higher
/// one first, with small letters.
#[verifier::external_body]
fn hex_encode(b: &[u8]) -> (r: String)
    ensures
        r@ == hex_text(b@),
{
    hex::encode(b)
}

/// The name of the object that holds `raw`: its digest in base sixteen.
pub open spec fn object_name(raw: Seq<u8>) -> Seq<char> {
    hex_text(blake3_digest(raw))
}

/// The name of the object that holds `raw`.
pub fn blake3_hex(raw: &[u8]) -> (r: String)
    ensures
        r@ == object_name(raw@),
        r@.len() == 64,
{
    let d = digest(raw);
    hex_encode(d.as_slice())
}

/// The first two bytes of `hash` are whole characters.
pub open spec fn can_shard(hash: Seq<char>) -> bool {
    bytes::utf8(hash).len() < 2 || vstd::utf8::is_char_boundary(bytes::utf8(hash), 2)
}

/// The bytes of the name of the directory that holds the object `hash`: the first two of its
/// name, or `xx` for a shorter name.
pub open spec fn shard_bytes(hash: Seq<char>) -> Seq<u8> {
    if bytes::utf8(hash).len() < 2 {
        bytes::utf8("xx"@)
    } else {
        bytes::utf8(hash).subrange(0, 2)
    }
}

/// Whether the first two bytes of `hash` are whole characters.
pub fn has_shard(hash: &str) -> (r: bool)
    ensures
        r == can_shard(hash@),
{
    hash.as_bytes().len() < 2 || hash.is_char_boundary(2)
}

/// The name of the directory that holds the object `hash`.
pub fn shard(hash: &str) -> (r: String)
    requires
        can_shard(hash@),
    ensures
        bytes::utf8(r@) == shard_bytes(hash@),
{
    if hash.as_bytes().len() < 2 {
        return String::from_str("xx");
    }
    let (front, _back) = hash.split_at(2);
    assert(front.spec_bytes() == bytes::utf8(front@));
    String::from_str(front)
}

/// Whether `hash` is long enough to name an object.
pub fn names_object(hash: &str) -> (r: bool)
    ensures
        r == (bytes::utf8(hash@).len() >= 2),
{
    hash.as_bytes().len() >= 2
}

// ---------------------------------------------------------------------------------------
// Compression
// ---------------------------------------------------------------------------------------
/// Why an object cannot be had.
#[derive(Clone, Copy, Debug, PartialEq, Eq, Structural)]
pub enum ObjectError {
    /// The compression or the decompression failed.
    Broken,
    /// The object holds more than `MAX_DECOMPRESSED_SIZE` bytes.
    TooLarge,
}

/// The error of input and output.
#[verifier::external_type_specification]
#[verifier::external_body]
pub struct ExIoError(std::io::Error);

/// A reader with a buffer.
#[verifier::external_type_specification]
#[verifier::external_body]
#[verifier::reject_recursive_types(R)]
pub struct ExBufReader<R: ?Sized>(std::io::BufReader<R>);

/// The decoder of the `zstd` crate.
#[verifier::external_type_specification]
#[verifier::external_body]
#[verifier::reject_recursive_types(R)]
pub struct ExDecoder<'a, R>(zstd::stream::read::Decoder<'a, R>);

/// A decoder over bytes that are at hand.
pub type BytesDecoder<'b> = zstd::stream::read::Decoder<'static, std::io::BufReader<&'b [u8]>>;

/// What `zstd::encode_all` makes of bytes at a level.
pub uninterp spec fn zstd_encoded(b: Seq<u8>, level: i32) -> Seq<u8>;

/// What a new `zstd::Decoder` gives of compressed bytes when it is read to the end with a buffer
/// of `READ_SIZE` bytes each time; `None` where such a read fails. Bytes that have such a content
/// are called sound. The size matters: a frame that fits the buffer is decoded whatever window it
/// declares, while any other is refused where its window is too large.
pub uninterp spec fn zstd_content(c: Seq<u8>) -> Option<Seq<u8>>;

/// The compressed bytes that a decoder reads.
pub uninterp spec fn decoder_source(d: BytesDecoder<'_>) -> Seq<u8>;

/// What a decoder has given so far.
pub uninterp spec fn decoder_given(d: BytesDecoder<'_>) -> Seq<u8>;

/// Calls `zstd::encode_all`. Trusted: it succeeds, since bytes at hand can be read and written
/// and a level out of range is clamped; its result depends on the bytes and the level alone,
/// and decoding gives the bytes back. That there is memory for the call is taken for granted, as
/// it is wherever memory is allocated.
#[verifier::external_body]
fn zstd_encode(b: &[u8], level: i32) -> (r: Result<Vec<u8>, std::io::Error>)
    ensures
        r is Ok,
        r->Ok_0@ == zstd_encoded(b@, level),
        zstd_content(r->Ok_0@) == Some(b@),
{
    zstd::encode_all(b, level)
}

/// Calls `zstd::Decoder::new`. Trusted: it succeeds where `c` is sound, memory taken for
/// granted, and the new decoder reads `c` and has given nothing.
#[verifier::external_body]
fn zstd_open<'b>(c: &'b [u8]) -> (r: Result<BytesDecoder<'b>, std::io::Error>)
    ensures
        zstd_content(c@) is Some ==> r is Ok,
        r is Ok ==> decoder_source(r->Ok_0) == c@,
        r is Ok ==> decoder_given(r->Ok_0) == Seq::<u8>::empty(),
{
    zstd::Decoder::new(c)
}

/// Calls `read` of `zstd::Decoder` with a buffer of `n` bytes, which is the one size that
/// `zstd_content` speaks of. Trusted: it gives at most `n` bytes, which follow those that were
/// given before in the content of the source, where the source is sound; and it gives none at the
/// end of a sound source only. It succeeds where the source is sound, memory taken for granted. A
/// decoder that failed is not handed back.
#[verifier::external_body]
fn zstd_read<'b>(d: BytesDecoder<'b>, n: usize) -> (r: Result<(BytesDecoder<'b>, Vec<u8>), std::io::Error>)
    requires
        n == READ_SIZE,
    ensures
        zstd_content(decoder_source(d)) is Some ==> r is Ok,
        r is Ok ==> decoder_source(r->Ok_0.0) == decoder_source(d),
        r is Ok ==> r->Ok_0.1@.len() <= n,
        r is Ok ==> decoder_given(r->Ok_0.0) == decoder_given(d) + r->Ok_0.1@,
        r is Ok && zstd_content(decoder_source(d)) is Some ==> bytes::has_prefix(
            zstd_content(decoder_source(d))->0,
            decoder_given(r->Ok_0.0),
        ),
        r is Ok && r->Ok_0.1@.len() == 0 ==> zstd_content(decoder_source(d)) == Some(decoder_given(d)),
{
    let mut decoder = d;
    let mut buffer = vec![0u8; n];
    let k = std::io::Read::read(&mut decoder, &mut buffer)?;
    buffer.truncate(k);
    Ok((decoder, buffer))
}

/// What compressing `b` comes to: it succeeds.
pub open spec fn compresses_to(b: Seq<u8>, r: Result<Seq<u8>, ObjectError>) -> bool {
    match r {
        Ok(c) => c == zstd_encoded(b, ZSTD_LEVEL) && zstd_content(c) == Some(b),
        Err(_) => false,
    }
}

/// What decompressing `c` comes to. Sound bytes give their content up to the limit, and are too
/// large above it; others are broken, or too large where they hold too much before they break.
pub open spec fn decompresses_to(c: Seq<u8>, r: Result<Seq<u8>, ObjectError>) -> bool {
    match r {
        Ok(b) => zstd_content(c) == Some(b) && b.len() <= MAX_DECOMPRESSED_SIZE,
        Err(ObjectError::TooLarge) => zstd_content(c) is Some ==> zstd_content(c)->0.len()
            > MAX_DECOMPRESSED_SIZE,
        Err(ObjectError::Broken) => zstd_content(c) is None,
    }
}

/// What a result that holds bytes says.
pub open spec fn result_view(r: Result<Vec<u8>, ObjectError>) -> Result<Seq<u8>, ObjectError> {
    match r {
        Ok(v) => Ok(v@),
        Err(e) => Err(e),
    }
}

/// Compresses `b`.
pub fn compress(b: &[u8]) -> (r: Result<Vec<u8>, ObjectError>)
    ensures
        compresses_to(b@, result_view(r)),
{
    match zstd_encode(b, ZSTD_LEVEL) {
        Ok(c) => Ok(c),
        Err(_) => Err(ObjectError::Broken),
    }
}

/// What a part that was read means for what is decompressed.
#[derive(Clone, Copy, Debug, PartialEq, Eq, Structural)]
pub enum PartStep {
    /// The end is reached.
    Done,
    /// The part was put behind the others.
    More,
    /// With the part it would be too much.
    TooLarge,
}

/// Puts the next part behind what was decompressed so far, unless that is too much. An empty
/// part is the end.
pub fn take_part(result: &mut Vec<u8>, part: &[u8]) -> (r: PartStep)
    requires
        old(result)@.len() <= MAX_DECOMPRESSED_SIZE,
    ensures
        r == (if part@.len() == 0 {
            PartStep::Done
        } else if old(result)@.len() + part@.len() > MAX_DECOMPRESSED_SIZE {
            PartStep::TooLarge
        } else {
            PartStep::More
        }),
        final(result)@ == (if r == PartStep::More {
            old(result)@ + part@
        } else {
            old(result)@
        }),
{
    if part.len() == 0 {
        return PartStep::Done;
    }
    let left: u64 = MAX_DECOMPRESSED_SIZE - result.len() as u64;
    if part.len() as u64 > left {
        return PartStep::TooLarge;
    }
    bytes::append(result, part);
    PartStep::More
}

/// Decompresses `c`, and stops where it holds too much.
pub fn decompress(c: &[u8]) -> (r: Result<Vec<u8>, ObjectError>)
    ensures
        decompresses_to(c@, result_view(r)),
{
    let mut decoder = match zstd_open(c) {
        Ok(d) => d,
        Err(_) => {
            return Err(ObjectError::Broken);
        },
    };
    let mut result: Vec<u8> = Vec::new();
    loop
        invariant
            decoder_source(decoder) == c@,
            decoder_given(decoder) == result@,
            result@.len() <= MAX_DECOMPRESSED_SIZE,
        decreases MAX_DECOMPRESSED_SIZE - result@.len(),
    {
        let part = match zstd_read(decoder, READ_SIZE) {
            Ok((d, p)) => {
                decoder = d;
                p
            },
            Err(_) => {
                return Err(ObjectError::Broken);
            },
        };
        match take_part(&mut result, part.as_slice()) {
            PartStep::Done => {
                return Ok(result);
            },
            PartStep::TooLarge => {
                return Err(ObjectError::TooLarge);
            },
            PartStep::More => {},
        }
    }
}

// ---------------------------------------------------------------------------------------
// Frames
// ---------------------------------------------------------------------------------------
/// What an object holds.
#[derive(Clone, Copy, Debug, PartialEq, Eq, Structural)]
pub enum Kind {
    /// The contents of a file.
    Blob,
    /// The list of the chunks of a larger file.
    Big,
    /// A part of the contents of a larger file.
    Chunk,
    /// A directory listing.
    Tree,
    /// The changes of a commit.
    Layer,
}

/// The line that an object of this kind begins with.
pub open spec fn tag_of(k: Kind) -> Seq<char> {
    match k {
        Kind::Blob => "blob\n"@,
        Kind::Big => "big\n"@,
        Kind::Chunk => "chunk\n"@,
        Kind::Tree => "tree\n"@,
        Kind::Layer => "layer\n"@,
    }
}

/// An object of the kind `k` that holds `body`.
pub open spec fn framed(k: Kind, body: Seq<u8>) -> Seq<u8> {
    bytes::utf8(tag_of(k)) + body
}

/// What an object of the kind `k` holds; `None` for an object of another kind.
pub open spec fn unframed(k: Kind, raw: Seq<u8>) -> Option<Seq<u8>> {
    if bytes::has_prefix(raw, bytes::utf8(tag_of(k))) {
        Some(raw.skip(bytes::utf8(tag_of(k)).len() as int))
    } else {
        None
    }
}

/// The line that an object of this kind begins with.
fn tag(k: Kind) -> (r: &'static str)
    ensures
        r@ == tag_of(k),
{
    match k {
        Kind::Blob => "blob\n",
        Kind::Big => "big\n",
        Kind::Chunk => "chunk\n",
        Kind::Tree => "tree\n",
        Kind::Layer => "layer\n",
    }
}

/// An object of the kind `k` that holds `body`.
pub fn frame(k: Kind, body: &[u8]) -> (r: Vec<u8>)
    ensures
        r@ == framed(k, body@),
{
    let mut out: Vec<u8> = Vec::new();
    bytes::append_text(&mut out, tag(k));
    bytes::append(&mut out, body);
    assert(out@ =~= framed(k, body@));
    out
}

/// What optional bytes say.
pub open spec fn opt_view(o: Option<Vec<u8>>) -> Option<Seq<u8>> {
    match o {
        Some(v) => Some(v@),
        None => None,
    }
}

/// What an object of the kind `k` holds; `None` for an object of another kind.
pub fn unframe(k: Kind, raw: &[u8]) -> (r: Option<Vec<u8>>)
    ensures
        opt_view(r) == unframed(k, raw@),
{
    bytes::strip_prefix(raw, tag(k).as_bytes())
}

/// What an object says of the contents of a file.
pub enum BlobForm {
    /// These are the contents.
    Whole(Vec<u8>),
    /// This is the list of the chunks that make up the contents.
    Listed(Vec<u8>),
    /// Nothing: it is of another kind.
    Neither,
}

/// Reads an object as the contents of a file.
pub fn blob_form(raw: &[u8]) -> (r: BlobForm)
    ensures
        match r {
            BlobForm::Whole(b) => unframed(Kind::Blob, raw@) == Some(b@),
            BlobForm::Listed(j) => unframed(Kind::Blob, raw@) is None && unframed(Kind::Big, raw@) == Some(j@),
            BlobForm::Neither => unframed(Kind::Blob, raw@) is None && unframed(Kind::Big, raw@) is None,
        },
{
    match unframe(Kind::Blob, raw) {
        Some(b) => BlobForm::Whole(b),
        None => match unframe(Kind::Big, raw) {
            Some(j) => BlobForm::Listed(j),
            None => BlobForm::Neither,
        },
    }
}

// ---------------------------------------------------------------------------------------
// Chunks
// ---------------------------------------------------------------------------------------
/// `b` cut into parts of `n` bytes, of which the last may be shorter.
pub open spec fn cut(b: Seq<u8>, n: nat) -> Seq<Seq<u8>>
    decreases b.len(),
{
    if b.len() == 0 || n == 0 {
        Seq::empty()
    } else if b.len() <= n {
        seq![b]
    } else {
        seq![b.take(n as int)] + cut(b.skip(n as int), n)
    }
}

/// The list of the chunks of a larger file.
#[derive(Clone, Debug, PartialEq, Eq)]
pub struct BigBlob {
    pub size: u64,
    pub chunks: Vec<String>,
}

/// How the contents of a file are stored.
pub enum BlobPlan {
    /// In one object.
    Single { raw: Vec<u8> },
    /// In an object for each chunk, and one more that lists them.
    Chunked { chunks: Vec<Vec<u8>>, list: BigBlob },
}

/// What a list of byte strings says.
pub open spec fn raws(v: Seq<Vec<u8>>) -> Seq<Seq<u8>> {
    v.map_values(|b: Vec<u8>| b@)
}

/// The object that holds each part.
pub open spec fn chunk_objects(parts: Seq<Seq<u8>>) -> Seq<Seq<u8>> {
    parts.map_values(|p: Seq<u8>| framed(Kind::Chunk, p))
}

/// The name of each object.
pub open spec fn names_of(objects: Seq<Seq<u8>>) -> Seq<Seq<char>> {
    objects.map_values(|o: Seq<u8>| object_name(o))
}

/// `plan` stores the contents `b` of a file: in one object up to the size of a chunk, else in
/// chunks.
pub open spec fn stores(plan: BlobPlan, b: Seq<u8>) -> bool {
    match plan {
        BlobPlan::Single { raw } => b.len() <= CHUNK_SIZE && raw@ == framed(Kind::Blob, b),
        BlobPlan::Chunked { chunks, list } => b.len() > CHUNK_SIZE && raws(chunks@) == chunk_objects(
            cut(b, CHUNK_SIZE as nat),
        ) && list.size == b.len() && text::texts(list.chunks@) == names_of(raws(chunks@)),
    }
}

/// How the contents `b` of a file are stored.
pub fn store_blob(b: &[u8]) -> (r: BlobPlan)
    ensures
        stores(r, b@),
{
    if b.len() <= CHUNK_SIZE {
        return BlobPlan::Single { raw: frame(Kind::Blob, b) };
    }
    let n = b.len();
    let ghost all = chunk_objects(cut(b@, CHUNK_SIZE as nat));
    let mut chunks: Vec<Vec<u8>> = Vec::new();
    let mut names: Vec<String> = Vec::new();
    let mut at: usize = 0;
    proof {
        assert(b@.skip(0) =~= b@);
        assert(raws(chunks@) + chunk_objects(cut(b@.skip(0), CHUNK_SIZE as nat)) =~= all);
        assert(text::texts(names@) =~= names_of(raws(chunks@)));
    }
    while at < n
        invariant
            at <= n == b@.len(),
            raws(chunks@) + chunk_objects(cut(b@.skip(at as int), CHUNK_SIZE as nat)) == all,
            text::texts(names@) == names_of(raws(chunks@)),
        decreases n - at,
    {
        let end: usize = if n - at <= CHUNK_SIZE {
            n
        } else {
            at + CHUNK_SIZE
        };
        let part = vstd::slice::slice_subrange(b, at, end);
        let raw = frame(Kind::Chunk, part);
        let name = blake3_hex(raw.as_slice());
        let ghost done = raws(chunks@);
        let ghost named = text::texts(names@);
        let ghost rest = b@.skip(at as int);
        let ghost object = raw@;
        let ghost label = name@;
        chunks.push(raw);
        names.push(name);
        proof {
            let size = CHUNK_SIZE as nat;
            assert(raws(chunks@) =~= done.push(object));
            assert(text::texts(names@) =~= named.push(label));
            assert(names_of(done.push(object)) =~= names_of(done).push(object_name(object)));
            if end == n {
                assert(part@ =~= rest);
                assert(b@.skip(n as int) =~= Seq::empty());
                assert(cut(rest, size) =~= seq![rest]);
                assert(chunk_objects(cut(rest, size)) =~= seq![object]);
                assert(chunk_objects(cut(b@.skip(end as int), size)) =~= Seq::empty());
            } else {
                assert(part@ =~= rest.take(size as int));
                assert(b@.skip(end as int) =~= rest.skip(size as int));
                assert(chunk_objects(cut(rest, size)) =~= seq![object] + chunk_objects(
                    cut(rest.skip(size as int), size),
                ));
            }
            assert(raws(chunks@) + chunk_objects(cut(b@.skip(end as int), size)) =~= done + chunk_objects(
                cut(rest, size),
            ));
        }
        at = end;
    }
    proof {
        assert(b@.skip(at as int) =~= Seq::empty());
        assert(raws(chunks@) =~= all);
    }
    BlobPlan::Chunked { chunks, list: BigBlob { size: n as u64, chunks: names } }
}

/// What the chunks hold one after the other; `None` where one of the objects is no chunk.
pub open spec fn chunks_joined(objects: Seq<Seq<u8>>) -> Option<Seq<u8>>
    decreases objects.len(),
{
    if objects.len() == 0 {
        Some(Seq::empty())
    } else {
        match (chunks_joined(objects.drop_last()), unframed(Kind::Chunk, objects.last())) {
            (Some(front), Some(part)) => Some(front + part),
            _ => None,
        }
    }
}

proof fn lemma_join_stops(objects: Seq<Seq<u8>>, k: int)
    requires
        0 <= k <= objects.len(),
        chunks_joined(objects.take(k)) is None,
    ensures
        chunks_joined(objects) is None,
    decreases objects.len() - k,
{
    if k < objects.len() {
        assert(objects.take(k + 1).drop_last() =~= objects.take(k));
        lemma_join_stops(objects, k + 1);
    } else {
        assert(objects.take(k) =~= objects);
    }
}

/// What the chunks hold one after the other; `None` where one of the objects is no chunk.
pub fn join_chunks(objects: &Vec<Vec<u8>>) -> (r: Option<Vec<u8>>)
    ensures
        opt_view(r) == chunks_joined(raws(objects@)),
{
    let ghost os = raws(objects@);
    let mut out: Vec<u8> = Vec::new();
    let mut i: usize = 0;
    assert(os.take(0) =~= Seq::empty());
    while i < objects.len()
        invariant
            i <= objects@.len(),
            os == raws(objects@),
            chunks_joined(os.take(i as int)) == Some(out@),
        decreases objects@.len() - i,
    {
        proof {
            assert(os.take(i + 1).drop_last() =~= os.take(i as int));
            assert(os.take(i + 1).last() == objects@[i as int]@);
        }
        match unframe(Kind::Chunk, objects[i].as_slice()) {
            Some(part) => {
                bytes::append(&mut out, part.as_slice());
            },
            None => {
                proof {
                    lemma_join_stops(os, i + 1);
                }
                return None;
            },
        }
        i = i + 1;
    }
    assert(os.take(i as int) =~= os);
    Some(out)
}

// ---------------------------------------------------------------------------------------
// Laws
// ---------------------------------------------------------------------------------------
proof fn lemma_tags()
    ensures
        bytes::utf8("blob\n"@).len() == 5,
        bytes::utf8("big\n"@).len() == 4,
        bytes::utf8("chunk\n"@).len() == 6,
        bytes::utf8("tree\n"@).len() == 5,
        bytes::utf8("layer\n"@).len() == 6,
        bytes::utf8("blob\n"@)[0] == 98,
        bytes::utf8("blob\n"@)[1] == 108,
        bytes::utf8("big\n"@)[0] == 98,
        bytes::utf8("big\n"@)[1] == 105,
        bytes::utf8("chunk\n"@)[0] == 99,
        bytes::utf8("tree\n"@)[0] == 116,
        bytes::utf8("layer\n"@)[0] == 108,
{
    reveal_strlit("blob\n");
    reveal_strlit("big\n");
    reveal_strlit("chunk\n");
    reveal_strlit("tree\n");
    reveal_strlit("layer\n");
    vstd::utf8::is_ascii_chars_encode_utf8("blob\n"@);
    vstd::utf8::is_ascii_chars_encode_utf8("big\n"@);
    vstd::utf8::is_ascii_chars_encode_utf8("chunk\n"@);
    vstd::utf8::is_ascii_chars_encode_utf8("tree\n"@);
    vstd::utf8::is_ascii_chars_encode_utf8("layer\n"@);
}

/// An object gives back what it holds to who reads it as what it is, and nothing to who reads
/// it as anything else.
pub proof fn law_frame_round_trip(k: Kind, as_kind: Kind, body: Seq<u8>)
    ensures
        unframed(as_kind, framed(k, body)) == (if as_kind == k {
            Some(body)
        } else {
            None
        }),
{
    lemma_tags();
    let raw = framed(k, body);
    let mine = bytes::utf8(tag_of(k));
    if as_kind == k {
        assert(raw.take(mine.len() as int) =~= mine);
        assert(raw.skip(mine.len() as int) =~= body);
    } else {
        let other = bytes::utf8(tag_of(as_kind));
        assert(raw[0] == mine[0] && raw[1] == mine[1]);
        if bytes::has_prefix(raw, other) {
            assert(raw.take(other.len() as int)[0] == raw[0]);
            assert(raw.take(other.len() as int)[1] == raw[1]);
        }
    }
}

/// The parts of a cut are not empty and not too long, and one after the other they are what
/// was cut.
pub proof fn law_cut_loses_nothing(b: Seq<u8>, n: nat)
    requires
        n > 0,
    ensures
        chunks_joined(chunk_objects(cut(b, n))) == Some(b),
        forall|i: int| 0 <= i < cut(b, n).len() ==> 0 < (#[trigger] cut(b, n)[i]).len() <= n,
    decreases b.len(),
{
    if b.len() == 0 {
        assert(chunk_objects(cut(b, n)) =~= Seq::empty());
        assert(b =~= Seq::empty());
    } else if b.len() <= n {
        law_frame_round_trip(Kind::Chunk, Kind::Chunk, b);
        let os = chunk_objects(cut(b, n));
        assert(os.drop_last() =~= Seq::empty());
        assert(chunks_joined(os.drop_last()) == Some(Seq::<u8>::empty()));
        assert(os.last() == framed(Kind::Chunk, b));
        assert(Seq::<u8>::empty() + b =~= b);
    } else {
        let head = b.take(n as int);
        let rest = b.skip(n as int);
        law_cut_loses_nothing(rest, n);
        law_frame_round_trip(Kind::Chunk, Kind::Chunk, head);
        let os = chunk_objects(cut(rest, n));
        assert(chunk_objects(cut(b, n)) =~= seq![framed(Kind::Chunk, head)] + os);
        lemma_join_front(framed(Kind::Chunk, head), os);
        assert(head + rest =~= b);
        assert forall|i: int| 0 <= i < cut(b, n).len() implies 0 < (#[trigger] cut(b, n)[i]).len() <= n by {
            if i > 0 {
                assert(cut(b, n)[i] == cut(rest, n)[i - 1]);
            }
        }
    }
}

proof fn lemma_join_front(first: Seq<u8>, os: Seq<Seq<u8>>)
    requires
        unframed(Kind::Chunk, first) is Some,
        chunks_joined(os) is Some,
    ensures
        chunks_joined(seq![first] + os) == Some(unframed(Kind::Chunk, first)->0 + chunks_joined(os)->0),
    decreases os.len(),
{
    let whole = seq![first] + os;
    if os.len() == 0 {
        assert(whole.drop_last() =~= Seq::empty());
        assert(chunks_joined(whole.drop_last()) == Some(Seq::<u8>::empty()));
        assert(chunks_joined(os) == Some(Seq::<u8>::empty()));
        assert(whole.last() == first);
        let part = unframed(Kind::Chunk, first)->0;
        assert(Seq::<u8>::empty() + part =~= part + Seq::<u8>::empty());
    } else {
        assert(whole.drop_last() =~= seq![first] + os.drop_last());
        lemma_join_front(first, os.drop_last());
        let a = unframed(Kind::Chunk, first)->0;
        let b = chunks_joined(os.drop_last())->0;
        let c = unframed(Kind::Chunk, os.last())->0;
        assert((a + b) + c =~= a + (b + c));
    }
}

/// What reading the stored contents of a file gives: the body of the one object, or the bodies
/// of the chunks one after the other.
pub open spec fn loaded(plan: BlobPlan) -> Option<Seq<u8>> {
    match plan {
        BlobPlan::Single { raw } => unframed(Kind::Blob, raw@),
        BlobPlan::Chunked { chunks, .. } => chunks_joined(raws(chunks@)),
    }
}

/// Reading the stored contents of a file gives what was stored.
pub proof fn law_blob_round_trip(plan: BlobPlan, b: Seq<u8>)
    requires
        stores(plan, b),
    ensures
        loaded(plan) == Some(b),
{
    law_frame_round_trip(Kind::Blob, Kind::Blob, b);
    law_cut_loses_nothing(b, CHUNK_SIZE as nat);
}

/// What was compressed and is decompressed again comes back up to the limit, and is too large
/// above it.
pub proof fn law_compression_round_trip(b: Seq<u8>, c: Seq<u8>, r: Result<Seq<u8>, ObjectError>)
    requires
        compresses_to(b, Ok(c)),
        decompresses_to(c, r),
    ensures
        r == (if b.len() <= MAX_DECOMPRESSED_SIZE {
            Ok(b)
        } else {
            Err(ObjectError::TooLarge)
        }),
{
}

/// What reading back each of the objects `cs` gives.
pub open spec fn all_read(cs: Seq<Seq<u8>>, rs: Seq<Result<Seq<u8>, ObjectError>>) -> bool {
    cs.len() == rs.len() && forall|i: int| 0 <= i < cs.len() ==> decompresses_to(cs[i], #[trigger] rs[i])
}

/// An object that was stored as one kind, and is read back from its compressed bytes, gives what
/// it holds to who reads it as that kind, and nothing to who reads it as another. This holds of
/// every object up to the limit.
pub proof fn law_stored_object_is_read_back(
    k: Kind,
    as_kind: Kind,
    body: Seq<u8>,
    c: Seq<u8>,
    r: Result<Seq<u8>, ObjectError>,
)
    requires
        framed(k, body).len() <= MAX_DECOMPRESSED_SIZE,
        compresses_to(framed(k, body), Ok(c)),
        decompresses_to(c, r),
    ensures
        r is Ok,
        unframed(as_kind, r->Ok_0) == (if as_kind == k {
            Some(body)
        } else {
            None
        }),
{
    law_compression_round_trip(framed(k, body), c, r);
    law_frame_round_trip(k, as_kind, body);
}

/// The contents of a file are read back from the compressed objects that hold them, whatever
/// their size: from the one object, or from all the chunks.
pub proof fn law_stored_blob_is_read_back(
    plan: BlobPlan,
    b: Seq<u8>,
    cs: Seq<Seq<u8>>,
    rs: Seq<Result<Seq<u8>, ObjectError>>,
)
    requires
        stores(plan, b),
        all_read(cs, rs),
        cs.len() == (match plan {
            BlobPlan::Single { .. } => 1,
            BlobPlan::Chunked { chunks, .. } => chunks@.len(),
        }),
        match plan {
            BlobPlan::Single { raw } => compresses_to(raw@, Ok(cs[0])),
            BlobPlan::Chunked { chunks, .. } => forall|i: int|
                0 <= i < cs.len() ==> compresses_to(chunks@[i]@, Ok(#[trigger] cs[i])),
        },
    ensures
        forall|i: int| 0 <= i < rs.len() ==> (#[trigger] rs[i]) is Ok,
        match plan {
            BlobPlan::Single { .. } => unframed(Kind::Blob, rs[0]->Ok_0) == Some(b),
            BlobPlan::Chunked { .. } => chunks_joined(
                rs.map_values(|r: Result<Seq<u8>, ObjectError>| r->Ok_0),
            ) == Some(b),
        },
{
    lemma_tags();
    law_blob_round_trip(plan, b);
    match plan {
        BlobPlan::Single { raw } => {
            law_compression_round_trip(raw@, cs[0], rs[0]);
        },
        BlobPlan::Chunked { chunks, .. } => {
            let size = CHUNK_SIZE as nat;
            law_cut_loses_nothing(b, size);
            let os = raws(chunks@);
            assert forall|i: int| 0 <= i < rs.len() implies (#[trigger] rs[i]) == Ok::<Seq<u8>, ObjectError>(os[i]) by {
                assert(os[i] == chunks@[i]@);
                assert(os[i] == framed(Kind::Chunk, cut(b, size)[i]));
                assert(compresses_to(chunks@[i]@, Ok(cs[i])));
                law_compression_round_trip(os[i], cs[i], rs[i]);
            }
            assert(rs.map_values(|r: Result<Seq<u8>, ObjectError>| r->Ok_0) =~= os);
        },
    }
}

/// The name of an object has 64 digits, so that it has a directory.
pub proof fn law_names_have_directories(raw: Seq<u8>)
    requires
        blake3_digest(raw).len() == 32,
    ensures
        object_name(raw).len() == 64,
        can_shard(object_name(raw)),
{
    let name = object_name(raw);
    reveal_strlit("0123456789abcdef");
    assert(vstd::utf8::is_ascii_chars(name)) by {
        assert forall|i: int| 0 <= i < name.len() implies 0 <= (#[trigger] name[i] as nat) < 128 by {
            let d = blake3_digest(raw);
            let v = if i % 2 == 0 {
                d[i / 2] as int / 16
            } else {
                d[i / 2] as int % 16
            };
            assert(0 <= v < 16);
            assert(name[i] == hex_digit(v));
        }
    }
    vstd::utf8::is_ascii_chars_encode_utf8(name);
    vstd::utf8::encode_utf8_valid_utf8(name);
    let b = bytes::utf8(name);
    assert(b.len() == 64);
    vstd::utf8::is_char_boundary_iff_not_is_continuation_byte(b, 2);
    let x = b[2];
    assert(x < 128);
    assert(x < 128 ==> !vstd::utf8::is_continuation_byte(x)) by (bit_vector);
}

/// An object is its tag and what it holds; the tag says its kind and ends with a line break.
pub proof fn law_frames_begin_with_their_kind(body: Seq<u8>)
    ensures
        framed(Kind::Blob, body) == vstd::utf8::encode_utf8("blob\n"@) + body,
        framed(Kind::Big, body) == vstd::utf8::encode_utf8("big\n"@) + body,
        framed(Kind::Chunk, body) == vstd::utf8::encode_utf8("chunk\n"@) + body,
        framed(Kind::Tree, body) == vstd::utf8::encode_utf8("tree\n"@) + body,
        framed(Kind::Layer, body) == vstd::utf8::encode_utf8("layer\n"@) + body,
{
}

/// The name of an object gives its digest back: each byte is the value of two digits in base
/// sixteen, the higher one first.
pub proof fn law_names_tell_the_digest(raw: Seq<u8>, i: int)
    requires
        0 <= i < blake3_digest(raw).len(),
    ensures
        object_name(raw).len() == 2 * blake3_digest(raw).len(),
        exists|hi: int, lo: int|
            {
                &&& 0 <= hi < 16
                &&& 0 <= lo < 16
                &&& object_name(raw)[2 * i] == #[trigger] "0123456789abcdef"@[hi]
                &&& object_name(raw)[2 * i + 1] == #[trigger] "0123456789abcdef"@[lo]
                &&& blake3_digest(raw)[i] == 16 * hi + lo
            },
{
    let b = blake3_digest(raw)[i] as int;
    let hi = b / 16;
    let lo = b % 16;
    assert((2 * i) / 2 == i && (2 * i + 1) / 2 == i);
    assert(object_name(raw)[2 * i] == "0123456789abcdef"@[hi]);
    assert(object_name(raw)[2 * i + 1] == "0123456789abcdef"@[lo]);
}

/// An object stands in the directory of the first two bytes of its name, and one with a shorter
/// name in the directory `xx`.
pub proof fn law_directory_is_the_first_two_bytes(hash: Seq<char>)
    ensures
        vstd::utf8::encode_utf8(hash).len() >= 2 ==> shard_bytes(hash).len() == 2 && shard_bytes(hash)[0]
            == vstd::utf8::encode_utf8(hash)[0] && shard_bytes(hash)[1] == vstd::utf8::encode_utf8(hash)[1],
        vstd::utf8::encode_utf8(hash).len() < 2 ==> shard_bytes(hash) == vstd::utf8::encode_utf8("xx"@),
{
}

/// All parts of a cut are of the full size but the last, which is not empty.
pub proof fn law_parts_are_full_but_the_last(b: Seq<u8>, n: nat)
    requires
        n > 0,
    ensures
        b.len() == 0 ==> cut(b, n).len() == 0,
        forall|i: int| 0 <= i < cut(b, n).len() - 1 ==> (#[trigger] cut(b, n)[i]).len() == n,
        b.len() > 0 ==> cut(b, n).len() > 0 && 0 < cut(b, n).last().len() <= n,
    decreases b.len(),
{
    if b.len() > n {
        let rest = b.skip(n as int);
        law_parts_are_full_but_the_last(rest, n);
        let all = cut(b, n);
        assert(all.last() == cut(rest, n).last());
        assert forall|i: int| 0 <= i < all.len() - 1 implies (#[trigger] all[i]).len() == n by {
            if i > 0 {
                assert(all[i] == cut(rest, n)[i - 1]);
            }
        }
    }
}

/// Contents of up to four mebibytes stand in one object; larger ones in a chunk for each four
/// mebibytes, with a list that tells their size and the names of the chunks in their order.
pub proof fn law_large_contents_are_chunked(plan: BlobPlan, b: Seq<u8>)
    requires
        stores(plan, b),
    ensures
        plan is Single <==> b.len() <= 4 * 1024 * 1024,
        plan is Single ==> plan->raw@ == vstd::utf8::encode_utf8("blob\n"@) + b,
        plan is Chunked ==> {
            &&& plan->list.size == b.len()
            &&& plan->list.chunks@.len() == plan->chunks@.len()
            &&& forall|i: int|
                0 <= i < plan->chunks@.len() ==> (#[trigger] plan->list.chunks@[i])@ == object_name(plan->chunks@[i]@)
            &&& forall|i: int|
                0 <= i < plan->chunks@.len() - 1 ==> (#[trigger] plan->chunks@[i])@.len() == 4 * 1024 * 1024 + 6
        },
{
    match plan {
        BlobPlan::Single { .. } => {},
        BlobPlan::Chunked { chunks, list } => {
            lemma_tags();
            let size = CHUNK_SIZE as nat;
            law_parts_are_full_but_the_last(b, size);
            let os = raws(chunks@);
            assert(os.len() == chunks@.len());
            assert(text::texts(list.chunks@).len() == list.chunks@.len());
            assert forall|i: int| 0 <= i < chunks@.len() implies (#[trigger] list.chunks@[i])@ == object_name(
                chunks@[i]@,
            ) by {
                assert(text::texts(list.chunks@)[i] == names_of(os)[i]);
                assert(os[i] == chunks@[i]@);
            }
            assert forall|i: int| 0 <= i < chunks@.len() - 1 implies (#[trigger] chunks@[i])@.len() == 4 * 1024 * 1024
                + 6 by {
                assert(os[i] == chunks@[i]@);
                assert(os[i] == framed(Kind::Chunk, cut(b, size)[i]));
            }
        },
    }
}

/// What is read back up to one gibibyte is what was stored, and above that it is too large.
pub proof fn law_one_gibibyte_is_the_limit(b: Seq<u8>, c: Seq<u8>, r: Result<Seq<u8>, ObjectError>)
    requires
        compresses_to(b, Ok(c)),
        decompresses_to(c, r),
    ensures
        b.len() <= 1024 * 1024 * 1024 ==> r == Ok::<Seq<u8>, ObjectError>(b),
        b.len() > 1024 * 1024 * 1024 ==> r == Err::<Seq<u8>, ObjectError>(ObjectError::TooLarge),
{
    law_compression_round_trip(b, c, r);
}

/// Compressing succeeds, and no bytes are decompressed to more than one gibibyte.
pub proof fn law_compression_is_bounded(b: Seq<u8>, c: Seq<u8>, r: Result<Seq<u8>, ObjectError>)
    ensures
        compresses_to(b, r) ==> r is Ok && zstd_content(r->Ok_0) == Some(b) && r->Ok_0 == zstd_encoded(b, 6),
        decompresses_to(c, r) && r is Ok ==> r->Ok_0.len() <= 1024 * 1024 * 1024 && zstd_content(c) == Some(r->Ok_0),
        decompresses_to(c, r) && zstd_content(c) is None ==> r is Err,
{
}

/// An object is read as a kind exactly where it begins with the tag of that kind.
pub proof fn law_only_frames_are_opened(k: Kind, raw: Seq<u8>)
    ensures
        unframed(k, raw) is Some ==> raw == framed(k, unframed(k, raw)->0),
        unframed(k, raw) is None ==> forall|body: Seq<u8>| raw != #[trigger] framed(k, body),
{
    let tag = bytes::utf8(tag_of(k));
    if unframed(k, raw) is Some {
        assert(raw =~= tag + raw.skip(tag.len() as int));
    } else {
        assert forall|body: Seq<u8>| raw != #[trigger] framed(k, body) by {
            law_frame_round_trip(k, k, body);
        }
    }
}

/// Chunks are joined in their order, and only where each of the objects is a chunk.
pub proof fn law_chunks_are_joined_in_order(os: Seq<Seq<u8>>, o: Seq<u8>, body: Seq<u8>)
    ensures
        chunks_joined(Seq::empty()) == Some(Seq::<u8>::empty()),
        chunks_joined(os) is Some ==> chunks_joined(os.push(framed(Kind::Chunk, body))) == Some(
            chunks_joined(os)->0 + body,
        ),
        unframed(Kind::Chunk, o) is None ==> chunks_joined(os.push(o)) is None,
        chunks_joined(os) is None ==> chunks_joined(os.push(o)) is None,
{
    law_frame_round_trip(Kind::Chunk, Kind::Chunk, body);
    assert(os.push(framed(Kind::Chunk, body)).drop_last() =~= os);
    assert(os.push(o).drop_last() =~= os);
}

/// Every name in plain ASCII has a directory, and so has every name of less than two bytes.
pub proof fn law_plain_names_have_directories(hash: Seq<char>)
    ensures
        vstd::utf8::is_ascii_chars(hash) ==> can_shard(hash),
        vstd::utf8::encode_utf8(hash).len() < 2 ==> can_shard(hash),
        can_shard(hash) && vstd::utf8::encode_utf8(hash).len() >= 2 ==> vstd::utf8::is_char_boundary(
            vstd::utf8::encode_utf8(hash),
            2,
        ),
{
    if vstd::utf8::is_ascii_chars(hash) {
        vstd::utf8::is_ascii_chars_encode_utf8(hash);
        vstd::utf8::encode_utf8_valid_utf8(hash);
        let b = bytes::utf8(hash);
        if b.len() > 2 {
            vstd::utf8::is_char_boundary_iff_not_is_continuation_byte(b, 2);
            let x = b[2];
            assert(x < 128);
            assert(x < 128 ==> !vstd::utf8::is_continuation_byte(x)) by (bit_vector);
        } else if b.len() == 2 {
            vstd::utf8::is_char_boundary_start_end_of_seq(b);
        }
    }
}

/// Results and lists of bytes say what they hold.
pub proof fn law_bytes_say_what_they_hold(v: Seq<Vec<u8>>, b: Vec<u8>, e: ObjectError, i: int)
    ensures
        raws(v).len() == v.len(),
        0 <= i < v.len() ==> raws(v)[i] == v[i]@,
        result_view(Ok(b)) == Ok::<Seq<u8>, ObjectError>(b@),
        result_view(Err(e)) == Err::<Seq<u8>, ObjectError>(e),
        opt_view(Some(b)) == Some(b@),
        opt_view(None) is None,
{
}

} // verus!
