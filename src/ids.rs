//! Identity engine: stable 63-bit identifiers derived from content alone.
use vstd::prelude::*;
use vstd::utf8::encode_utf8;

verus! {

/// Identifiers live below this bound: the most significant bit of the
/// 64-bit keyed hash is cleared, so every id is a non-negative `i64` too.
pub const ID_BOUND: u64 = 0x8000_0000_0000_0000;

/// The 64-bit HighwayHash of `data` under the 256-bit key `key`.
pub uninterp spec fn highway64_of(key: Seq<u64>, data: Seq<u8>) -> u64;

/// Relies on `highway::HighwayHasher`: a hasher built from `key`, fed `data`
/// by one `append`, finished by `finalize64`.
#[verifier::external_body]
fn highway64(key: &[u64; 4], data: &[u8]) -> (r: u64)
    ensures
        r == highway64_of(key@, data@),
{
    let mut hasher = highway::HighwayHasher::new(highway::Key(*key));
    highway::HighwayHash::append(&mut hasher, data);
    highway::HighwayHash::finalize64(hasher)
}

/// The fixed key of every identity hash, so that ids agree across processes.
pub open spec fn hash_key() -> Seq<u64> {
    seq![1u64, 2u64, 3u64, 4u64]
}

fn make_hash_key() -> (r: [u64; 4])
    ensures
        r@ == hash_key(),
{
    let r: [u64; 4] = [1, 2, 3, 4];
    assert(r@ =~= hash_key());
    r
}

/// Big-endian bytes of a 64-bit integer.
pub open spec fn be_bytes(x: u64) -> Seq<u8> {
    seq![
        (x >> 56u64) as u8,
        (x >> 48u64) as u8,
        (x >> 40u64) as u8,
        (x >> 32u64) as u8,
        (x >> 24u64) as u8,
        (x >> 16u64) as u8,
        (x >> 8u64) as u8,
        x as u8,
    ]
}

/// A text as its UTF-8 length followed by its UTF-8 bytes.
pub open spec fn text_bytes(s: Seq<char>) -> Seq<u8> {
    be_bytes(encode_utf8(s).len() as u64) + encode_utf8(s)
}

/// An optional text: a tag byte, then the text when there is one.
pub open spec fn opt_text_bytes(s: Option<Seq<char>>) -> Seq<u8> {
    match s {
        None => seq![0u8],
        Some(t) => seq![1u8] + text_bytes(t),
    }
}

/// An optional integer: a tag byte, then its big-endian bytes when present.
pub open spec fn opt_int_bytes(n: Option<u64>) -> Seq<u8> {
    match n {
        None => seq![0u8],
        Some(v) => seq![1u8] + be_bytes(v),
    }
}

pub open spec fn opt_view(s: Option<String>) -> Option<Seq<char>> {
    match s {
        None => None,
        Some(t) => Some(t@),
    }
}

pub open spec fn opt_line(n: Option<u32>) -> Option<u64> {
    match n {
        None => None,
        Some(v) => Some(v as u64),
    }
}

/// The bytes hashed for a frame record.
pub open spec fn frame_preimage(
    symbol: Seq<char>,
    file: Option<Seq<char>>,
    line_number: Option<u32>,
    bin_file: Option<Seq<char>>,
) -> Seq<u8> {
    text_bytes(symbol) + opt_text_bytes(file) + opt_int_bytes(opt_line(line_number))
        + opt_text_bytes(bin_file)
}

/// The bytes hashed for a call-tree node.
pub open spec fn node_preimage(parent_id: Option<u64>, frame_id: u64, root_seed: u64) -> Seq<u8> {
    opt_int_bytes(parent_id) + be_bytes(frame_id) + be_bytes(root_seed)
}

/// The bytes hashed for an executable record.
pub open spec fn executable_preimage(name: Seq<char>, version: Option<Seq<char>>) -> Seq<u8> {
    text_bytes(name) + opt_text_bytes(version)
}

/// The identifier of the content whose bytes are `pre`.
pub open spec fn content_id(pre: Seq<u8>) -> u64 {
    highway64_of(hash_key(), pre) % ID_BOUND
}

pub open spec fn frame_id_of(
    symbol: Seq<char>,
    file: Option<Seq<char>>,
    line_number: Option<u32>,
    bin_file: Option<Seq<char>>,
) -> u64 {
    content_id(frame_preimage(symbol, file, line_number, bin_file))
}

pub open spec fn node_id_of(parent_id: Option<u64>, frame_id: u64, root_seed: u64) -> u64 {
    content_id(node_preimage(parent_id, frame_id, root_seed))
}

pub open spec fn executable_id_of(name: Seq<char>, version: Option<Seq<char>>) -> u64 {
    content_id(executable_preimage(name, version))
}

fn push_be(out: &mut Vec<u8>, x: u64)
    ensures
        final(out)@ == old(out)@ + be_bytes(x),
{
    out.push((x >> 56u64) as u8);
    out.push((x >> 48u64) as u8);
    out.push((x >> 40u64) as u8);
    out.push((x >> 32u64) as u8);
    out.push((x >> 24u64) as u8);
    out.push((x >> 16u64) as u8);
    out.push((x >> 8u64) as u8);
    out.push(x as u8);
    assert(final(out)@ =~= old(out)@ + be_bytes(x));
}

fn push_slice(out: &mut Vec<u8>, b: &[u8])
    ensures
        final(out)@ == old(out)@ + b@,
{
    let ghost start = out@;
    let mut i: usize = 0;
    while i < b.len()
        invariant
            i <= b@.len(),
            out@ == start + b@.subrange(0, i as int),
        decreases b@.len() - i,
    {
        out.push(b[i]);
        i = i + 1;
        assert(out@ =~= start + b@.subrange(0, i as int));
    }
    assert(b@.subrange(0, i as int) =~= b@);
}

fn push_text(out: &mut Vec<u8>, s: &str)
    ensures
        final(out)@ == old(out)@ + text_bytes(s@),
{
    let b = s.as_bytes();
    push_be(out, b.len() as u64);
    push_slice(out, b);
    assert(final(out)@ =~= old(out)@ + text_bytes(s@));
}

fn push_opt_text(out: &mut Vec<u8>, s: &Option<String>)
    ensures
        final(out)@ == old(out)@ + opt_text_bytes(opt_view(*s)),
{
    match s {
        None => {
            out.push(0u8);
            assert(final(out)@ =~= old(out)@ + opt_text_bytes(opt_view(*s)));
        },
        Some(t) => {
            out.push(1u8);
            push_text(out, t.as_str());
            assert(final(out)@ =~= old(out)@ + opt_text_bytes(opt_view(*s)));
        },
    }
}

fn push_opt_int(out: &mut Vec<u8>, n: Option<u64>)
    ensures
        final(out)@ == old(out)@ + opt_int_bytes(n),
{
    match n {
        None => {
            out.push(0u8);
        },
        Some(v) => {
            out.push(1u8);
            push_be(out, v);
        },
    }
    assert(final(out)@ =~= old(out)@ + opt_int_bytes(n));
}

/// The bytes hashed for a frame record, as a vector.
pub fn frame_preimage_bytes(
    symbol: &str,
    file: &Option<String>,
    line_number: Option<u32>,
    bin_file: &Option<String>,
) -> (r: Vec<u8>)
    ensures
        r@ == frame_preimage(symbol@, opt_view(*file), line_number, opt_view(*bin_file)),
{
    let mut out: Vec<u8> = Vec::new();
    push_text(&mut out, symbol);
    push_opt_text(&mut out, file);
    let line: Option<u64> = match line_number {
        None => None,
        Some(v) => Some(v as u64),
    };
    push_opt_int(&mut out, line);
    push_opt_text(&mut out, bin_file);
    assert(out@ =~= frame_preimage(symbol@, opt_view(*file), line_number, opt_view(*bin_file)));
    out
}

/// Hashes content bytes into an identifier below `ID_BOUND`.
pub fn content_id_of_bytes(pre: &[u8]) -> (r: u64)
    ensures
        r == content_id(pre@),
        r < ID_BOUND,
{
    let key = make_hash_key();
    let h = highway64(&key, pre);
    h % ID_BOUND
}

/// Identity of a frame record: a pure function of its four fields.
pub fn frame_id(
    symbol: &str,
    file: &Option<String>,
    line_number: Option<u32>,
    bin_file: &Option<String>,
) -> (r: u64)
    ensures
        r == frame_id_of(symbol@, opt_view(*file), line_number, opt_view(*bin_file)),
        r < ID_BOUND,
{
    let pre = frame_preimage_bytes(symbol, file, line_number, bin_file);
    content_id_of_bytes(pre.as_slice())
}

/// Identity of a call-tree node: its parent (`None` for a root), its frame
/// and the seed of the executable it belongs to.
pub fn node_id(parent_id: Option<u64>, frame_id: u64, root_seed: u64) -> (r: u64)
    ensures
        r == node_id_of(parent_id, frame_id, root_seed),
        r < ID_BOUND,
{
    let mut out: Vec<u8> = Vec::new();
    push_opt_int(&mut out, parent_id);
    push_be(&mut out, frame_id);
    push_be(&mut out, root_seed);
    assert(out@ =~= node_preimage(parent_id, frame_id, root_seed));
    content_id_of_bytes(out.as_slice())
}

/// Identity of an executable: its name and, when given, its version.
pub fn executable_id(name: &str, version: &Option<String>) -> (r: u64)
    ensures
        r == executable_id_of(name@, opt_view(*version)),
        r < ID_BOUND,
{
    let mut out: Vec<u8> = Vec::new();
    push_text(&mut out, name);
    push_opt_text(&mut out, version);
    assert(out@ =~= executable_preimage(name@, opt_view(*version)));
    content_id_of_bytes(out.as_slice())
}

/// Big-endian bytes determine the integer.
pub proof fn lemma_be_bytes_injective(x: u64, y: u64)
    requires
        be_bytes(x) == be_bytes(y),
    ensures
        x == y,
{
    assert(be_bytes(x)[0] == be_bytes(y)[0]);
    assert(be_bytes(x)[1] == be_bytes(y)[1]);
    assert(be_bytes(x)[2] == be_bytes(y)[2]);
    assert(be_bytes(x)[3] == be_bytes(y)[3]);
    assert(be_bytes(x)[4] == be_bytes(y)[4]);
    assert(be_bytes(x)[5] == be_bytes(y)[5]);
    assert(be_bytes(x)[6] == be_bytes(y)[6]);
    assert(be_bytes(x)[7] == be_bytes(y)[7]);
    assert(((x >> 56u64) as u8 == (y >> 56u64) as u8 && (x >> 48u64) as u8 == (y >> 48u64) as u8
        && (x >> 40u64) as u8 == (y >> 40u64) as u8 && (x >> 32u64) as u8 == (y >> 32u64) as u8
        && (x >> 24u64) as u8 == (y >> 24u64) as u8 && (x >> 16u64) as u8 == (y >> 16u64) as u8
        && (x >> 8u64) as u8 == (y >> 8u64) as u8 && x as u8 == y as u8) ==> x == y) by (bit_vector);
}

/// Identities are pure functions of content: equal content gives equal ids,
/// in any process, because the hash key is fixed.
pub proof fn lemma_ids_deterministic(
    sym_a: Seq<char>, file_a: Option<Seq<char>>, line_a: Option<u32>, bin_a: Option<Seq<char>>,
    sym_b: Seq<char>, file_b: Option<Seq<char>>, line_b: Option<u32>, bin_b: Option<Seq<char>>,
    parent_a: Option<u64>, frame_a: u64, seed_a: u64,
    parent_b: Option<u64>, frame_b: u64, seed_b: u64,
)
    ensures
        (sym_a == sym_b && file_a == file_b && line_a == line_b && bin_a == bin_b) ==> frame_id_of(
            sym_a,
            file_a,
            line_a,
            bin_a,
        ) == frame_id_of(sym_b, file_b, line_b, bin_b),
        (parent_a == parent_b && frame_a == frame_b && seed_a == seed_b) ==> node_id_of(parent_a, frame_a, seed_a)
            == node_id_of(parent_b, frame_b, seed_b),
{
}

/// Root-seed isolation: two nodes hashed under different seeds are hashed
/// from different bytes, whatever their parents and frames, so their ids can
/// only agree through a collision of the 64-bit keyed hash.
pub proof fn lemma_seed_scopes_node_preimage(
    parent_a: Option<u64>,
    frame_a: u64,
    seed_a: u64,
    parent_b: Option<u64>,
    frame_b: u64,
    seed_b: u64,
)
    requires
        seed_a != seed_b,
    ensures
        node_preimage(parent_a, frame_a, seed_a) != node_preimage(parent_b, frame_b, seed_b),
{
    let a = node_preimage(parent_a, frame_a, seed_a);
    let b = node_preimage(parent_b, frame_b, seed_b);
    if a == b {
        let n = a.len() as int;
        assert(a.subrange(n - 8, n) =~= be_bytes(seed_a));
        assert(b.subrange(n - 8, n) =~= be_bytes(seed_b));
        lemma_be_bytes_injective(seed_a, seed_b);
    }
}

} // verus!
