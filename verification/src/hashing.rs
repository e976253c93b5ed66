use vstd::prelude::*;

use crate::component::{dep_edge, deps_of, has_id, ids, unique_ids, Component};
use crate::closure::{
    lemma_edge_from_member, lemma_has_id_perm, lemma_ids_contains, lemma_perm_unique,
    lemma_reaches_root, reaches, valid_path,
};
use crate::errors::CustomError;
use crate::lexorder::{lemma_char_order_eq, lemma_lex_total_ordering, lexf};
use crate::toposort::{dep_first, dep_sat, sortable, toposort, valid_cycle_report};

verus! {

// ------------------------------------------------------------------
// big-endian byte encodings

/// The two big-endian bytes of `x mod 2^16`.
pub open spec fn be16(x: nat) -> Seq<u8> {
    seq![(((x / 256) % 256) as u8), ((x % 256) as u8)]
}

/// The four big-endian bytes of `x mod 2^32`.
pub open spec fn be32(x: nat) -> Seq<u8> {
    seq![
        (((x / 0x1000000) % 256) as u8),
        (((x / 0x10000) % 256) as u8),
        (((x / 256) % 256) as u8),
        ((x % 256) as u8),
    ]
}

/// The big-endian bytes of a 16-bit depth.
pub fn u16_be_bytes(x: u16) -> (r: Vec<u8>)
    ensures
        r@ == be16(x as nat),
{
    let mut r: Vec<u8> = Vec::new();
    r.push((x / 256) as u8);
    r.push((x % 256) as u8);
    proof {
        assert(r@ =~= be16(x as nat));
    }
    r
}

/// The big-endian bytes of a 32-bit offset.
pub fn u32_be_bytes(x: u32) -> (r: Vec<u8>)
    ensures
        r@ == be32(x as nat),
{
    let mut r: Vec<u8> = Vec::new();
    r.push((x / 0x1000000) as u8);
    r.push(((x / 0x10000) % 256) as u8);
    r.push(((x / 256) % 256) as u8);
    r.push((x % 256) as u8);
    proof {
        assert(r@ =~= be32(x as nat));
    }
    r
}

/// Appends the bytes of `src` to `dst`.
fn append_bytes(dst: &mut Vec<u8>, src: &Vec<u8>)
    ensures
        final(dst)@ == old(dst)@ + src@,
{
    let mut i: usize = 0;
    while i < src.len()
        invariant
            i <= src.len(),
            dst@ == old(dst)@ + src@.take(i as int),
        decreases src.len() - i,
    {
        let ghost pre = dst@;
        dst.push(src[i]);
        proof {
            assert(dst@ =~= old(dst)@ + src@.take(i as int + 1));
        }
        i = i + 1;
    }
    proof {
        assert(src@.take(src@.len() as int) =~= src@);
        assert(dst@ =~= old(dst)@ + src@);
    }
}

// ------------------------------------------------------------------
// hex digits

/// Whether the character is a hex digit of either case.
pub open spec fn is_hex_digit(c: char) -> bool {
    let v = c as u32;
    (48 <= v && v <= 57) || (97 <= v && v <= 102) || (65 <= v && v <= 70)
}

/// The value of a hex digit.
pub open spec fn hex_val(c: char) -> int {
    let v = c as u32;
    if 48 <= v && v <= 57 {
        v - 48
    } else if 65 <= v && v <= 70 {
        v - 55
    } else {
        v - 87
    }
}

/// All characters are hex digits.
pub open spec fn all_hex(s: Seq<char>) -> bool {
    forall|i: int| 0 <= i < s.len() ==> is_hex_digit(#[trigger] s[i])
}

/// An even run of hex digits.
pub open spec fn valid_hex(s: Seq<char>) -> bool {
    s.len() % 2 == 0 && all_hex(s)
}

/// A content identifier in the collaborator's native form: exactly forty hex
/// digits.
pub open spec fn valid_cid(s: Seq<char>) -> bool {
    s.len() == 40 && all_hex(s)
}

/// The bytes written by an even run of hex digits, two digits a byte, most
/// significant first.
pub open spec fn hex_decode_chars(s: Seq<char>) -> Seq<u8>
    decreases s.len(),
{
    if s.len() < 2 {
        Seq::empty()
    } else {
        seq![((hex_val(s[0]) * 16 + hex_val(s[1])) as u8)] + hex_decode_chars(s.skip(2))
    }
}

/// The lowercase hex digit of a value below sixteen.
pub open spec fn hex_digit_char(n: int) -> char {
    if n < 10 {
        ((48 + n) as u8) as char
    } else {
        ((87 + n) as u8) as char
    }
}

/// The lowercase hex encoding of a byte sequence.
pub open spec fn hex_chars(b: Seq<u8>) -> Seq<char>
    decreases b.len(),
{
    if b.len() == 0 {
        Seq::empty()
    } else {
        seq![hex_digit_char(b[0] as int / 16), hex_digit_char(b[0] as int % 16)]
            + hex_chars(b.drop_first())
    }
}

/// Decoding an even run of hex digits yields half as many bytes.
pub proof fn lemma_hex_decode_len(s: Seq<char>)
    requires
        s.len() % 2 == 0,
    ensures
        hex_decode_chars(s).len() == s.len() / 2,
    decreases s.len(),
{
    if s.len() >= 2 {
        lemma_hex_decode_len(s.skip(2));
    }
}

/// Hex encoding yields two digits for each byte.
pub proof fn lemma_hex_chars_len(b: Seq<u8>)
    ensures
        hex_chars(b).len() == 2 * b.len(),
    decreases b.len(),
{
    if b.len() > 0 {
        lemma_hex_chars_len(b.drop_first());
    }
}

// ------------------------------------------------------------------
// the outside hash and hex primitives

/// What SHA-256 returns for the given input bytes.
pub uninterp spec fn sha256_of(input: Seq<u8>) -> Seq<u8>;

/// Relies on sha2's Sha256: the digest is a function of the input bytes
/// alone and is 32 bytes wide.
#[verifier::external_body]
fn sha256_bytes(input: &Vec<u8>) -> (r: Vec<u8>)
    ensures
        r@ == sha256_of(input@),
        r@.len() == 32,
{
    let out = <sha2::Sha256 as sha2::Digest>::digest(input.as_slice());
    out.as_slice().to_vec()
}

/// Relies on hex::decode: it accepts exactly an even run of hex digits of
/// either case and pairs them into bytes, most significant digit first.
#[verifier::external_body]
fn hex_decode_str(s: &str) -> (r: Option<Vec<u8>>)
    ensures
        r is Some <==> valid_hex(s@),
        r is Some ==> r->Some_0@ == hex_decode_chars(s@),
{
    match hex::decode(s) {
        Ok(v) => Some(v),
        Err(_) => None,
    }
}

/// Relies on hex::encode: two lowercase hex digits for each byte, in order.
#[verifier::external_body]
fn hex_encode_bytes(b: &Vec<u8>) -> (r: String)
    ensures
        r@ == hex_chars(b@),
{
    hex::encode(b.as_slice())
}

// ------------------------------------------------------------------
// the hash record map and the dependency encoding

/// The record kept for an already-hashed node: its id, its depth, and its
/// digest.
pub struct HashRecord {
    pub dir: String,
    pub depth: u16,
    pub digest: Vec<u8>,
}

/// A content identifier supplied by the collaborator, keyed by the
/// component's storage location.
pub struct ContentId {
    pub dir: String,
    pub value: String,
}

/// The first index of a record for `id`, or -1.
pub open spec fn rec_index(rs: Seq<HashRecord>, id: Seq<char>) -> int
    decreases rs.len(),
{
    if rs.len() == 0 {
        -1
    } else if rs[0].dir@ == id {
        0
    } else {
        let r = rec_index(rs.drop_first(), id);
        if r < 0 {
            -1
        } else {
            r + 1
        }
    }
}

/// Some record carries `id`.
pub open spec fn has_rec(rs: Seq<HashRecord>, id: Seq<char>) -> bool {
    rec_index(rs, id) >= 0
}

/// `rec_index` names the first matching record, and -1 means none matches.
pub proof fn lemma_rec_index(rs: Seq<HashRecord>, id: Seq<char>)
    ensures
        rec_index(rs, id) == -1 ==> forall|j: int| 0 <= j < rs.len() ==> (#[trigger] rs[j]).dir@
            != id,
        rec_index(rs, id) >= 0 ==> 0 <= rec_index(rs, id) < rs.len() && rs[rec_index(
            rs,
            id,
        )].dir@ == id && forall|j: int| 0 <= j < rec_index(rs, id) ==> (#[trigger] rs[j]).dir@
            != id,
    decreases rs.len(),
{
    if rs.len() > 0 && rs[0].dir@ != id {
        lemma_rec_index(rs.drop_first(), id);
        let rest = rs.drop_first();
        assert forall|j: int| 1 <= j < rs.len() implies rest[j - 1] == rs[j] by {}
        if rec_index(rest, id) >= 0 {
            assert(rs[rec_index(rs, id)] == rest[rec_index(rest, id)]);
        }
    }
}

/// The first index of a content identifier for `id`, or -1.
pub open spec fn cid_index(cids: Seq<ContentId>, id: Seq<char>) -> int
    decreases cids.len(),
{
    if cids.len() == 0 {
        -1
    } else if cids[0].dir@ == id {
        0
    } else {
        let r = cid_index(cids.drop_first(), id);
        if r < 0 {
            -1
        } else {
            r + 1
        }
    }
}

/// `cid_index` names the first matching entry, and -1 means none matches.
pub proof fn lemma_cid_index(cids: Seq<ContentId>, id: Seq<char>)
    ensures
        cid_index(cids, id) == -1 ==> forall|j: int| 0 <= j < cids.len() ==> (
        #[trigger] cids[j]).dir@ != id,
        cid_index(cids, id) >= 0 ==> 0 <= cid_index(cids, id) < cids.len() && cids[cid_index(
            cids,
            id,
        )].dir@ == id,
    decreases cids.len(),
{
    if cids.len() > 0 && cids[0].dir@ != id {
        lemma_cid_index(cids.drop_first(), id);
        let rest = cids.drop_first();
        assert forall|j: int| 1 <= j < cids.len() implies rest[j - 1] == cids[j] by {}
        if cid_index(rest, id) >= 0 {
            assert(cids[cid_index(cids, id)] == rest[cid_index(rest, id)]);
        }
    }
}

/// The `(depth, digest)` pairs recorded for the given ids.
pub open spec fn metas_of(ds: Seq<Seq<char>>, rs: Seq<HashRecord>) -> Seq<(nat, Seq<u8>)> {
    Seq::new(
        ds.len(),
        |k: int| ((rs[rec_index(rs, ds[k])].depth as nat), rs[rec_index(rs, ds[k])].digest@),
    )
}

/// The largest depth among the pairs, or -1 for none.
pub open spec fn max_depth(ms: Seq<(nat, Seq<u8>)>) -> int
    decreases ms.len(),
{
    if ms.len() == 0 {
        -1
    } else {
        let d = ms.last().0 as int;
        let rest = max_depth(ms.drop_last());
        if d > rest {
            d
        } else {
            rest
        }
    }
}

/// The largest depth is at least -1 and is bounded by any bound on the
/// entries.
pub proof fn lemma_max_depth_bounds(ms: Seq<(nat, Seq<u8>)>, b: int)
    requires
        forall|k: int| 0 <= k < ms.len() ==> (#[trigger] ms[k]).0 <= b,
    ensures
        -1 <= max_depth(ms),
        max_depth(ms) <= if b >= -1 { b } else { -1 },
    decreases ms.len(),
{
    if ms.len() > 0 {
        lemma_max_depth_bounds(ms.drop_last(), b);
        assert(ms.last() == ms[ms.len() - 1]);
    }
}

/// One encoded entry of the dependency list: a 4-byte big-endian offset, a
/// 2-byte big-endian depth, the digest bytes, and the end flag.
pub open spec fn entry_bytes(i: int, depth: nat, digest: Seq<u8>, last: bool) -> Seq<u8> {
    be32(i as nat) + be16(depth) + digest + seq![(if last { 1u8 } else { 0u8 })]
}

/// The encoding of the entries from position `k` on.
pub open spec fn deps_encoding_from(ms: Seq<(nat, Seq<u8>)>, k: int) -> Seq<u8>
    decreases ms.len() - k,
{
    if k < 0 || k >= ms.len() {
        Seq::empty()
    } else {
        entry_bytes(k, ms[k].0, ms[k].1, k == ms.len() - 1) + deps_encoding_from(ms, k + 1)
    }
}

/// The byte encoding of the whole dependency list.
pub open spec fn deps_encoding(ms: Seq<(nat, Seq<u8>)>) -> Seq<u8> {
    deps_encoding_from(ms, 0)
}

/// The bytes a node's digest is computed over: its depth, its decoded
/// content identifier, its dependency encoding, and the node-kind marker.
pub open spec fn node_preimage(depth: nat, cid: Seq<u8>, depdata: Seq<u8>) -> Seq<u8> {
    be16(depth) + cid + depdata + seq![2u8]
}

/// Copies a byte vector.
fn copy_bytes(v: &Vec<u8>) -> (r: Vec<u8>)
    ensures
        r@ == v@,
{
    let mut r: Vec<u8> = Vec::new();
    append_bytes(&mut r, v);
    proof {
        assert(r@ =~= v@);
    }
    r
}

/// The first record for `id`, if any.
fn find_record(records: &Vec<HashRecord>, id: &String) -> (r: Option<usize>)
    ensures
        r is Some <==> has_rec(records@, id@),
        r is Some ==> r->Some_0 as int == rec_index(records@, id@),
{
    let mut i: usize = 0;
    while i < records.len()
        invariant
            i <= records.len(),
            forall|j: int| 0 <= j < i ==> (#[trigger] records@[j]).dir@ != id@,
        decreases records.len() - i,
    {
        if records[i].dir.eq(id) {
            proof {
                lemma_rec_index(records@, id@);
            }
            return Some(i);
        }
        i = i + 1;
    }
    proof {
        lemma_rec_index(records@, id@);
        if rec_index(records@, id@) >= 0 {
            assert(records@[rec_index(records@, id@)].dir@ == id@);
            assert(false);
        }
    }
    None
}

/// The first content identifier for `id`, if any.
fn find_cid(cids: &Vec<ContentId>, id: &String) -> (r: Option<usize>)
    ensures
        r is Some <==> cid_index(cids@, id@) >= 0,
        r is Some ==> r->Some_0 as int == cid_index(cids@, id@),
{
    let mut i: usize = 0;
    while i < cids.len()
        invariant
            i <= cids.len(),
            forall|j: int| 0 <= j < i ==> (#[trigger] cids@[j]).dir@ != id@,
        decreases cids.len() - i,
    {
        if cids[i].dir.eq(id) {
            proof {
                lemma_cid_index_first(cids@, id@, i as int);
            }
            return Some(i);
        }
        i = i + 1;
    }
    proof {
        lemma_cid_index(cids@, id@);
        if cid_index(cids@, id@) >= 0 {
            assert(cids@[cid_index(cids@, id@)].dir@ == id@);
            assert(false);
        }
    }
    None
}

/// When the first `i` entries do not match and entry `i` does, the index is
/// `i`.
proof fn lemma_cid_index_first(cids: Seq<ContentId>, id: Seq<char>, i: int)
    requires
        0 <= i < cids.len(),
        cids[i].dir@ == id,
        forall|j: int| 0 <= j < i ==> (#[trigger] cids[j]).dir@ != id,
    ensures
        cid_index(cids, id) == i,
    decreases cids.len(),
{
    lemma_cid_index(cids, id);
    if cid_index(cids, id) == -1 {
        assert(cids[i].dir@ != id);
    } else {
        let m = cid_index(cids, id);
        if m < i {
            assert(cids[m].dir@ != id);
        } else if m > i {
            lemma_cid_index_strict(cids, id, i);
        }
    }
}

/// The first index cannot lie beyond a match.
proof fn lemma_cid_index_strict(cids: Seq<ContentId>, id: Seq<char>, i: int)
    requires
        0 <= i < cids.len(),
        cids[i].dir@ == id,
    ensures
        0 <= cid_index(cids, id) <= i,
    decreases cids.len(),
{
    if cids.len() > 0 && cids[0].dir@ != id {
        let rest = cids.drop_last();
        assert(i != 0);
        lemma_cid_index_strict(cids.drop_first(), id, i - 1);
    }
}

// ------------------------------------------------------------------
// the verified encoding pass

/// The `(depth, digest)` pair looked up for one dependency.
pub struct DepMeta {
    pub depth: u16,
    pub digest: Vec<u8>,
}

/// Looks up each id's recorded depth and digest, in order; `None` when some
/// id has no record yet.
#[verifier::loop_isolation(false)]
pub fn translate(deps: &Vec<String>, records: &Vec<HashRecord>) -> (r: Option<Vec<DepMeta>>)
    ensures
        r is Some <==> (forall|k: int|
            0 <= k < deps.deep_view().len() ==> has_rec(records@, #[trigger] deps.deep_view()[k])),
        r is Some ==> r->Some_0@.len() == deps.deep_view().len(),
        r is Some ==> forall|k: int|
            #![trigger deps.deep_view()[k]]
            0 <= k < deps.deep_view().len() ==> metas_of(deps.deep_view(), records@)[k] == ((
            r->Some_0@[k]).depth as nat, r->Some_0@[k].digest@),
{
    let ghost ms = metas_of(deps.deep_view(), records@);
    proof {
        assert(deps.deep_view().len() == deps@.len());
        assert(ms.len() == deps@.len());
    }
    let mut out: Vec<DepMeta> = Vec::new();
    let mut k: usize = 0;
    while k < deps.len()
        invariant
            k <= deps@.len(),
            out@.len() == k,
            forall|j: int|
                0 <= j < k ==> has_rec(records@, #[trigger] deps.deep_view()[j]),
            forall|j: int|
                0 <= j < k ==> ms[j] == ((#[trigger] out@[j]).depth as nat, out@[j].digest@),
        decreases deps@.len() - k,
    {
        match find_record(records, &deps[k]) {
            Some(ix) => {
                proof {
                    assert(deps.deep_view()[k as int] == deps@[k as int]@);
                    lemma_rec_index(records@, deps.deep_view()[k as int]);
                }
                let depth = records[ix].depth;
                let digest = copy_bytes(&records[ix].digest);
                out.push(DepMeta { depth, digest });
                proof {
                    assert(out@[k as int].depth == depth && out@[k as int].digest@ == records@[
                        ix as int].digest@);
                    assert(ms[k as int] == ((out@[k as int]).depth as nat, out@[
                        k as int].digest@));
                }
            },
            None => {
                proof {
                    assert(!has_rec(records@, deps.deep_view()[k as int]));
                }
                return None;
            },
        }
        k = k + 1;
    }
    Some(out)
}

/// Builds the byte encoding of a dependency list from the recorded digests
/// and returns the largest recorded depth beside it (-1 for a leaf).
#[verifier::loop_isolation(false)]
#[verifier::rlimit(50)]
pub fn build_hash(deps: &Vec<String>, records: &Vec<HashRecord>) -> (r: (i32, Vec<u8>))
    requires
        forall|k: int|
            0 <= k < deps.deep_view().len() ==> has_rec(records@, #[trigger] deps.deep_view()[k]),
        deps@.len() <= 0xFFFF_FFFF,
        forall|j: int| 0 <= j < records@.len() ==> (#[trigger] records@[j]).depth <= 0xFFFE,
    ensures
        r.0 == max_depth(metas_of(deps.deep_view(), records@)),
        r.1@ == deps_encoding(metas_of(deps.deep_view(), records@)),
        -1 <= r.0 <= 0xFFFE,
{
    let ghost ms = metas_of(deps.deep_view(), records@);
    proof {
        assert(deps.deep_view().len() == deps@.len());
        assert(ms.len() == deps@.len());
        assert forall|k: int| 0 <= k < ms.len() implies (#[trigger] ms[k]).0 <= 0xFFFE by {
            lemma_rec_index(records@, deps.deep_view()[k]);
        }
        lemma_max_depth_bounds(ms, 0xFFFE);
    }
    let m = match translate(deps, records) {
        Some(m) => m,
        None => {
            proof {
                assert(false);
            }
            return (0, Vec::new());
        },
    };
    let mut enc: Vec<u8> = Vec::new();
    let mut d: i32 = -1;
    let mut k: usize = 0;
    proof {
        assert(ms.len() == m@.len());
        assert forall|j: int| 0 <= j < ms.len() implies ms[j] == (((#[trigger] m@[j]).depth
            as nat), m@[j].digest@) by {
            assert(deps.deep_view()[j] == deps.deep_view()[j]);
            assert(metas_of(deps.deep_view(), records@)[j] == ((m@[j]).depth as nat, m@[
                j].digest@));
        }
        assert(max_depth(ms.take(0)) == -1) by {
            assert(ms.take(0) =~= Seq::<(nat, Seq<u8>)>::empty());
        }
    }
    while k < m.len()
        invariant
            k <= m@.len(),
            m@.len() == ms.len(),
            ms.len() == deps.deep_view().len(),
            forall|j: int|
                0 <= j < ms.len() ==> ms[j] == ((#[trigger] m@[j]).depth as nat, m@[j].digest@),
            forall|j: int| 0 <= j < ms.len() ==> (#[trigger] ms[j]).0 <= 0xFFFE,
            d == max_depth(ms.take(k as int)),
            -1 <= d <= 0xFFFE,
            deps_encoding(ms) == enc@ + deps_encoding_from(ms, k as int),
        decreases m@.len() - k,
    {
        let ghost encp = enc@;
        let depth = m[k].depth;
        let last = k == m.len() - 1;
        let off = u32_be_bytes(k as u32);
        append_bytes(&mut enc, &off);
        let db = u16_be_bytes(depth);
        append_bytes(&mut enc, &db);
        append_bytes(&mut enc, &m[k].digest);
        enc.push(if last { 1 } else { 0 });
        if (depth as i32) > d {
            d = depth as i32;
        }
        proof {
            assert(ms[k as int].0 == depth as nat && ms[k as int].1 == m@[k as int].digest@);
            assert(enc@ =~= encp + entry_bytes(
                k as int,
                ms[k as int].0,
                ms[k as int].1,
                k as int == ms.len() - 1,
            ));
            assert(deps_encoding_from(ms, k as int) == entry_bytes(
                k as int,
                ms[k as int].0,
                ms[k as int].1,
                k as int == ms.len() - 1,
            ) + deps_encoding_from(ms, k as int + 1));
            assert(enc@ + deps_encoding_from(ms, k as int + 1) =~= encp + deps_encoding_from(
                ms,
                k as int,
            ));
            assert(ms.take(k as int + 1).drop_last() =~= ms.take(k as int));
            assert(ms.take(k as int + 1).last() == ms[k as int]);
        }
        k = k + 1;
    }
    proof {
        assert(ms.take(ms.len() as int) =~= ms);
        assert(deps_encoding_from(ms, ms.len() as int) == Seq::<u8>::empty());
        assert(enc@ =~= deps_encoding(ms));
    }
    (d, enc)
}

/// Computes one node's depth and digest from its decoded content identifier,
/// its canonically sorted dependency ids, and the records of the already
/// hashed nodes.
pub fn hash_for_node(
    cid_bytes: &Vec<u8>,
    deps_sorted: &Vec<String>,
    records: &Vec<HashRecord>,
) -> (r: (u16, Vec<u8>))
    requires
        forall|k: int|
            0 <= k < deps_sorted.deep_view().len() ==> has_rec(
                records@,
                #[trigger] deps_sorted.deep_view()[k],
            ),
        deps_sorted@.len() <= 0xFFFF_FFFF,
        forall|j: int| 0 <= j < records@.len() ==> (#[trigger] records@[j]).depth <= 0xFFFE,
    ensures
        r.0 as int == max_depth(metas_of(deps_sorted.deep_view(), records@)) + 1,
        r.1@ == sha256_of(
            node_preimage(
                r.0 as nat,
                cid_bytes@,
                deps_encoding(metas_of(deps_sorted.deep_view(), records@)),
            ),
        ),
        r.1@.len() == 32,
{
    let (d, data) = build_hash(deps_sorted, records);
    let mydepth = (d + 1) as u16;
    let mut input = u16_be_bytes(mydepth);
    append_bytes(&mut input, cid_bytes);
    append_bytes(&mut input, &data);
    input.push(2);
    proof {
        assert(input@ =~= node_preimage(mydepth as nat, cid_bytes@, data@));
    }
    let digest = sha256_bytes(&input);
    (mydepth, digest)
}

// ------------------------------------------------------------------
// the digest as a function of the graph

/// The first index of the component carrying `id`, or -1.
pub open spec fn comp_index(inp: Seq<Component>, id: Seq<char>) -> int
    decreases inp.len(),
{
    if inp.len() == 0 {
        -1
    } else if inp[0].dir@ == id {
        0
    } else {
        let r = comp_index(inp.drop_first(), id);
        if r < 0 {
            -1
        } else {
            r + 1
        }
    }
}

/// `comp_index` names the first matching component, and -1 means none.
pub proof fn lemma_comp_index(inp: Seq<Component>, id: Seq<char>)
    ensures
        comp_index(inp, id) == -1 ==> forall|j: int| 0 <= j < inp.len() ==> (
        #[trigger] inp[j]).dir@ != id,
        comp_index(inp, id) >= 0 ==> 0 <= comp_index(inp, id) < inp.len() && inp[comp_index(
            inp,
            id,
        )].dir@ == id,
    decreases inp.len(),
{
    if inp.len() > 0 && inp[0].dir@ != id {
        lemma_comp_index(inp.drop_first(), id);
        let rest = inp.drop_first();
        assert forall|j: int| 1 <= j < inp.len() implies rest[j - 1] == inp[j] by {}
        if comp_index(rest, id) >= 0 {
            assert(inp[comp_index(inp, id)] == rest[comp_index(rest, id)]);
        }
    }
}

/// A node's dependency ids in the canonical lexicographic order.
pub open spec fn sorted_deps(c: Component) -> Seq<Seq<char>> {
    deps_of(c).sort_by(lexf())
}

/// The depth and digest of the node named `id`, derived recursively from its
/// content identifier and its dependencies' depths and digests; `None` when
/// the recursion cannot be grounded within `fuel` steps or an input is
/// missing or malformed.
pub open spec fn node_meta(
    inp: Seq<Component>,
    cids: Seq<ContentId>,
    id: Seq<char>,
    fuel: nat,
) -> Option<(nat, Seq<u8>)>
    decreases fuel, 0int,
{
    if fuel == 0 {
        None
    } else {
        let ci = comp_index(inp, id);
        let xi = cid_index(cids, id);
        if ci < 0 || xi < 0 {
            None
        } else {
            let cid = cids[xi].value@;
            if !valid_cid(cid) {
                None
            } else {
                match deps_meta(inp, cids, sorted_deps(inp[ci]), (fuel - 1) as nat) {
                    None => None,
                    Some(ms) => {
                        let depth = (max_depth(ms) + 1) as nat;
                        Some(
                            (
                                depth,
                                sha256_of(
                                    node_preimage(depth, hex_decode_chars(cid), deps_encoding(ms)),
                                ),
                            ),
                        )
                    },
                }
            }
        }
    }
}

/// The metas of a list of ids, each from `node_meta`; `None` as soon as one
/// is ungrounded.
pub open spec fn deps_meta(
    inp: Seq<Component>,
    cids: Seq<ContentId>,
    ds: Seq<Seq<char>>,
    fuel: nat,
) -> Option<Seq<(nat, Seq<u8>)>>
    decreases fuel, ds.len() + 1,
{
    if ds.len() == 0 {
        Some(Seq::empty())
    } else {
        match node_meta(inp, cids, ds[0], fuel) {
            None => None,
            Some(m) => match deps_meta(inp, cids, ds.drop_first(), fuel) {
                None => None,
                Some(rest) => Some(seq![m] + rest),
            },
        }
    }
}

/// The depth and digest of the node named `id`, with fuel enough for any
/// acyclic registry.
pub open spec fn node_digest(inp: Seq<Component>, cids: Seq<ContentId>, id: Seq<char>) -> Option<
    (nat, Seq<u8>),
> {
    node_meta(inp, cids, id, (inp.len() + 1) as nat)
}

/// A grounded meta stays the same under more fuel.
pub proof fn lemma_node_meta_mono(
    inp: Seq<Component>,
    cids: Seq<ContentId>,
    id: Seq<char>,
    f1: nat,
    f2: nat,
)
    requires
        f1 <= f2,
        node_meta(inp, cids, id, f1) is Some,
    ensures
        node_meta(inp, cids, id, f2) == node_meta(inp, cids, id, f1),
    decreases f1, 0int,
{
    let ci = comp_index(inp, id);
    lemma_deps_meta_mono(inp, cids, sorted_deps(inp[ci]), (f1 - 1) as nat, (f2 - 1) as nat);
}

/// Grounded metas of a list stay the same under more fuel.
pub proof fn lemma_deps_meta_mono(
    inp: Seq<Component>,
    cids: Seq<ContentId>,
    ds: Seq<Seq<char>>,
    f1: nat,
    f2: nat,
)
    requires
        f1 <= f2,
        deps_meta(inp, cids, ds, f1) is Some,
    ensures
        deps_meta(inp, cids, ds, f2) == deps_meta(inp, cids, ds, f1),
    decreases f1, ds.len() + 1,
{
    if ds.len() > 0 {
        lemma_node_meta_mono(inp, cids, ds[0], f1, f2);
        lemma_deps_meta_mono(inp, cids, ds.drop_first(), f1, f2);
    }
}

/// When every id of `ds` has a record whose pair is its grounded meta, the
/// list's metas are exactly the recorded pairs.
proof fn lemma_deps_meta_records(
    inp: Seq<Component>,
    cids: Seq<ContentId>,
    rs: Seq<HashRecord>,
    ds: Seq<Seq<char>>,
    fuel: nat,
)
    requires
        forall|k: int|
            #![trigger ds[k]]
            0 <= k < ds.len() ==> has_rec(rs, ds[k]) && node_meta(inp, cids, ds[k], fuel) == Some(
                (((rs[rec_index(rs, ds[k])].depth) as nat), rs[rec_index(rs, ds[k])].digest@),
            ),
    ensures
        deps_meta(inp, cids, ds, fuel) == Some(metas_of(ds, rs)),
    decreases ds.len(),
{
    if ds.len() == 0 {
        assert(metas_of(ds, rs) =~= Seq::<(nat, Seq<u8>)>::empty());
    } else {
        let rest = ds.drop_first();
        assert forall|k: int| #![trigger rest[k]] 0 <= k < rest.len() implies has_rec(
            rs,
            rest[k],
        ) && node_meta(inp, cids, rest[k], fuel) == Some(
            (((rs[rec_index(rs, rest[k])].depth) as nat), rs[rec_index(rs, rest[k])].digest@),
        ) by {
            assert(rest[k] == ds[k + 1]);
        }
        lemma_deps_meta_records(inp, cids, rs, rest, fuel);
        assert(ds[0] == ds[0]);
        assert(metas_of(ds, rs) =~= seq![metas_of(ds, rs)[0]] + metas_of(rest, rs));
        assert(metas_of(ds, rs)[0] == (((rs[rec_index(rs, ds[0])].depth) as nat), rs[rec_index(
            rs,
            ds[0],
        )].digest@));
    }
}

// ------------------------------------------------------------------
// the full hashing pass

/// Every component has a content identifier and it is well-formed.
pub open spec fn all_cids_ok(inp: Seq<Component>, cids: Seq<ContentId>) -> bool {
    forall|i: int|
        #![trigger inp[i]]
        0 <= i < inp.len() ==> cid_index(cids, inp[i].dir@) >= 0 && valid_cid(
            cids[cid_index(cids, inp[i].dir@)].value@,
        )
}

/// How one output component relates to the input component it was built
/// from: same id and extra fields, dependencies kept or emptied, and the
/// four hash fields derived from the graph digest.
pub open spec fn component_hashed(
    inp: Seq<Component>,
    cids: Seq<ContentId>,
    remove: bool,
    c: Component,
    o: Component,
) -> bool {
    let cid = cids[cid_index(cids, c.dir@)].value@;
    let meta = node_digest(inp, cids, c.dir@);
    &&& o.dir@ == c.dir@
    &&& o.rem == c.rem
    &&& o.dependencies.deep_view() == (if remove {
        Seq::<Seq<char>>::empty()
    } else {
        deps_of(c)
    })
    &&& cid_index(cids, c.dir@) >= 0
    &&& meta is Some
    &&& (meta->Some_0).1.len() == 32
    &&& (o.commit_sha matches Some(s) && s@ == cid && s@.len() == 40)
    &&& (o.commit_sha_short matches Some(s) && s@ == cid.take(8) && s@.len() == 8)
    &&& (o.tree_sha matches Some(s) && s@ == hex_chars((meta->Some_0).1) && s@.len() == 64)
    &&& (o.tree_sha_short matches Some(s) && s@ == hex_chars((meta->Some_0).1).take(16)
        && s@.len() == 16)
}

/// The output is some dependency-first permutation of the registry with
/// every node hashed.
pub open spec fn hash_output_ok(
    inp: Seq<Component>,
    cids: Seq<ContentId>,
    remove: bool,
    out: Seq<Component>,
) -> bool {
    exists|t: Seq<Component>|
        #[trigger] t.to_multiset() == inp.to_multiset() && dep_first(t) && out.len() == t.len()
            && forall|i: int|
            #![trigger out[i]]
            0 <= i < out.len() ==> component_hashed(inp, cids, remove, t[i], out[i])
}

/// Sorts the registry dependencies-first and assigns every node its content
/// identifier and its recursive digest, leaves first. The digest covers the
/// node's own content identifier and, through the recorded digests of its
/// canonically sorted dependencies, its whole transitive closure.
#[verifier::loop_isolation(false)]
#[verifier::rlimit(100)]
pub fn hash_components(
    inp: Vec<Component>,
    content_ids: &Vec<ContentId>,
    remove_dependencies: bool,
) -> (r: Result<Vec<Component>, CustomError>)
    requires
        unique_ids(inp@),
        inp@.len() <= 0xFFFF,
        forall|i: int|
            #![trigger inp@[i]]
            0 <= i < inp@.len() ==> deps_of(inp@[i]).len() <= 0xFFFF_FFFF,
    ensures
        r is Ok <==> sortable(inp@) && all_cids_ok(inp@, content_ids@),
        r is Ok ==> hash_output_ok(inp@, content_ids@, remove_dependencies, r->Ok_0@),
        r is Err ==> (r->Err_0 is CycleError || r->Err_0 is ContentLookupError
            || r->Err_0 is DecodeError),
        (r is Err && r->Err_0 is CycleError) <==> !sortable(inp@),
        r matches Err(CustomError::CycleError(v)) ==> valid_cycle_report(inp@, v@),
        r matches Err(CustomError::ContentLookupError { dir }) ==> sortable(inp@) && has_id(
            inp@,
            dir@,
        ) && cid_index(content_ids@, dir@) < 0,
        r matches Err(CustomError::DecodeError { dir, value }) ==> sortable(inp@) && has_id(
            inp@,
            dir@,
        ) && cid_index(content_ids@, dir@) >= 0 && content_ids@[cid_index(
            content_ids@,
            dir@,
        )].value@ == value@ && !valid_cid(value@),
{
    broadcast use vstd::seq_lib::group_to_multiset_ensures;
    broadcast use vstd::multiset::group_multiset_axioms;

    let ghost inp0 = inp@;
    let ghost cids = content_ids@;
    let sorted = match toposort(inp) {
        Ok(s) => s,
        Err(e) => {
            return Err(e);
        },
    };
    let ghost t = sorted@;
    proof {
        lemma_perm_unique(inp0, t);
        lemma_ids_contains(t);
        lemma_has_id_perm(inp0, t);
    }
    let n = sorted.len();
    let mut work = sorted;
    let mut records: Vec<HashRecord> = Vec::new();
    let mut out: Vec<Component> = Vec::new();
    while work.len() > 0
        invariant
            out@.len() + work@.len() == n,
            n == t.len(),
            work@ == t.skip(out@.len() as int),
            out@.len() == records@.len(),
            forall|j: int|
                #![trigger records@[j]]
                0 <= j < records@.len() ==> records@[j].dir@ == t[j].dir@ && records@[j].depth
                    as int <= j && records@[j].digest@.len() == 32 && node_meta(
                    inp0,
                    cids,
                    t[j].dir@,
                    (j + 1) as nat,
                ) == Some((((records@[j].depth) as nat), records@[j].digest@)),
            forall|j: int|
                #![trigger out@[j]]
                0 <= j < out@.len() ==> component_hashed(
                    inp0,
                    cids,
                    remove_dependencies,
                    t[j],
                    out@[j],
                ),
        decreases work@.len(),
    {
        let ghost i = out@.len() as int;
        let comp = work.remove(0);
        proof {
            assert(comp == t[i]);
            assert(work@ =~= t.skip(i + 1));
            assert(t.contains(t[i]));
            assert(inp0.contains(t[i]));
        }
        let cid_ix = match find_cid(content_ids, &comp.dir) {
            Some(x) => x,
            None => {
                proof {
                    let a = choose|a: int| 0 <= a < inp0.len() && inp0[a] == t[i];
                    assert(cid_index(cids, inp0[a].dir@) < 0);
                    assert(!all_cids_ok(inp0, cids));
                }
                return Err(CustomError::ContentLookupError { dir: comp.dir });
            },
        };
        proof {
            lemma_cid_index(cids, comp.dir@);
            assert((cid_ix as int) < cids.len());
        }
        let cid_string = &content_ids[cid_ix].value;
        proof {
            assert(cids[cid_ix as int].value@ == cid_string@);
        }
        let bytes = match hex_decode_str(cid_string.as_str()) {
            Some(b) => b,
            None => {
                proof {
                    assert(!valid_cid(cid_string@));
                    let a = choose|a: int| 0 <= a < inp0.len() && inp0[a] == t[i];
                    assert(!all_cids_ok(inp0, cids));
                }
                return Err(
                    CustomError::DecodeError { dir: comp.dir, value: cid_string.clone() },
                );
            },
        };
        if bytes.len() != 20 {
            proof {
                lemma_hex_decode_len(cid_string@);
                assert(!valid_cid(cid_string@));
                let a = choose|a: int| 0 <= a < inp0.len() && inp0[a] == t[i];
                assert(!all_cids_ok(inp0, cids));
            }
            return Err(CustomError::DecodeError { dir: comp.dir, value: cid_string.clone() });
        }
        proof {
            lemma_hex_decode_len(cid_string@);
            assert(valid_cid(cid_string@));
        }
        let ds = comp.depsorted();
        proof {
            lemma_lex_total_ordering();
            deps_of(comp).lemma_sort_by_ensures(lexf());
            assert(ds.deep_view().len() == deps_of(comp).len()) by {
                assert(ds.deep_view().to_multiset().len() == deps_of(comp).to_multiset().len());
                assert(ds.deep_view().to_multiset().len() == ds.deep_view().len());
                assert(deps_of(comp).to_multiset().len() == deps_of(comp).len());
            }
            assert forall|k: int|
                #![trigger ds.deep_view()[k]]
                0 <= k < ds.deep_view().len() implies has_rec(records@, ds.deep_view()[k])
                && rec_index(records@, ds.deep_view()[k]) < i by {
                let d = ds.deep_view()[k];
                assert(ds.deep_view().to_multiset().count(d) > 0);
                assert(deps_of(comp).to_multiset().count(d) > 0);
                assert(deps_of(comp).contains(d));
                let kd = choose|kd: int| 0 <= kd < deps_of(comp).len() && deps_of(comp)[kd] == d;
                assert(dep_sat(t, i, kd));
                let j = choose|j: int| 0 <= j < i && t[j].dir@ == deps_of(t[i])[kd];
                assert(records@[j].dir@ == d);
                lemma_rec_index(records@, d);
                if rec_index(records@, d) == -1 {
                    assert(records@[j].dir@ != d);
                    assert(false);
                }
                if rec_index(records@, d) >= i {
                    assert(records@[j].dir@ != d);
                    assert(false);
                }
            }
        }
        let (depth, digest) = hash_for_node(&bytes, &ds, &records);
        let tree_hex = hex_encode_bytes(&digest);
        proof {
            lemma_hex_chars_len(digest@);
        }
        let short_commit = String::from_str(cid_string.as_str().substring_char(0, 8));
        let short_tree = String::from_str(tree_hex.as_str().substring_char(0, 16));
        let commit_clone = cid_string.clone();
        let dir_clone = comp.dir.clone();
        let ghost rs_pre = records@;
        records.push(HashRecord { dir: dir_clone, depth, digest });
        let hashed = Component {
            dir: comp.dir,
            dependencies: if remove_dependencies {
                Vec::new()
            } else {
                comp.dependencies
            },
            commit_sha: Some(commit_clone),
            commit_sha_short: Some(short_commit),
            tree_sha: Some(tree_hex),
            tree_sha_short: Some(short_tree),
            rem: comp.rem,
        };
        proof {
            // the unique component named t[i].dir is comp itself
            lemma_comp_index(inp0, t[i].dir@);
            let ci = comp_index(inp0, t[i].dir@);
            if ci == -1 {
                let a = choose|a: int| 0 <= a < inp0.len() && inp0[a] == t[i];
                assert(inp0[a].dir@ != t[i].dir@);
                assert(false);
            }
            assert(inp0[ci] == t[i]) by {
                let a = choose|a: int| 0 <= a < inp0.len() && inp0[a] == t[i];
                assert(inp0[ci].dir@ == inp0[a].dir@);
                assert(ci == a);
            }
            // the unique content entry named t[i].dir is the one found
            assert(cid_index(cids, t[i].dir@) == cid_ix as int);
            // each sorted dependency's meta is its recorded pair, at this fuel
            assert forall|k: int|
                #![trigger ds.deep_view()[k]]
                0 <= k < ds.deep_view().len() implies has_rec(rs_pre, ds.deep_view()[k])
                && node_meta(inp0, cids, ds.deep_view()[k], i as nat) == Some(
                (((rs_pre[rec_index(rs_pre, ds.deep_view()[k])].depth) as nat), rs_pre[rec_index(
                    rs_pre,
                    ds.deep_view()[k],
                )].digest@),
            ) by {
                let d = ds.deep_view()[k];
                let jd = rec_index(rs_pre, d);
                assert(0 <= jd < i);
                assert(node_meta(inp0, cids, t[jd].dir@, (jd + 1) as nat) == Some(
                    (((rs_pre[jd].depth) as nat), rs_pre[jd].digest@),
                ));
                lemma_rec_index(rs_pre, d);
                assert(t[jd].dir@ == d);
                lemma_node_meta_mono(inp0, cids, d, (jd + 1) as nat, i as nat);
            }
            lemma_deps_meta_records(inp0, cids, rs_pre, ds.deep_view(), i as nat);
            assert(sorted_deps(inp0[ci]) == ds.deep_view());
            assert(deps_meta(inp0, cids, sorted_deps(inp0[ci]), i as nat) == Some(
                metas_of(ds.deep_view(), rs_pre),
            ));
            // so this node's meta at the next fuel is the computed pair
            let ms = metas_of(ds.deep_view(), rs_pre);
            assert(node_meta(inp0, cids, t[i].dir@, (i + 1) as nat) == Some(
                ((depth as nat), digest@),
            )) by {
                assert((i + 1) as nat != 0);
                assert(((i + 1) as nat - 1) as nat == i as nat);
                assert(depth as int == max_depth(ms) + 1);
                assert(hex_decode_chars(cid_string@) == bytes@);
                assert(digest@ == sha256_of(
                    node_preimage((depth as nat), bytes@, deps_encoding(ms)),
                ));
            }
            // depth stays below the position
            assert(depth as int <= i) by {
                assert forall|k: int| 0 <= k < ms.len() implies (#[trigger] ms[k]).0 <= i - 1 by {
                    let d = ds.deep_view()[k];
                    lemma_rec_index(rs_pre, d);
                    assert(rs_pre[rec_index(rs_pre, d)].depth as int <= rec_index(rs_pre, d));
                    assert(rec_index(rs_pre, d) < i);
                }
                lemma_max_depth_bounds(ms, i - 1);
            }
            assert(records@ =~= rs_pre.push(
                HashRecord { dir: t[i].dir, depth, digest: rs_pre.push(records@[i]).last().digest },
            )) by {
                assert(records@[i].dir@ == t[i].dir@);
            }
            // re-establish the record invariant
            assert forall|j: int|
                #![trigger records@[j]]
                0 <= j < records@.len() implies records@[j].dir@ == t[j].dir@ && records@[j].depth
                as int <= j && records@[j].digest@.len() == 32 && node_meta(
                inp0,
                cids,
                t[j].dir@,
                (j + 1) as nat,
            ) == Some((((records@[j].depth) as nat), records@[j].digest@)) by {
                if j < i {
                    assert(records@[j] == rs_pre[j]);
                }
            }
            // the output component is correctly hashed
            lemma_node_meta_mono(inp0, cids, t[i].dir@, (i + 1) as nat, (inp0.len() + 1) as nat);
            assert(component_hashed(inp0, cids, remove_dependencies, t[i], hashed)) by {
                assert(hashed.commit_sha_short matches Some(sx) && sx@ == cid_string@.take(8));
                assert(hashed.tree_sha_short matches Some(sx) && sx@ == hex_chars(digest@).take(
                    16,
                ));
                if remove_dependencies {
                    assert(hashed.dependencies.deep_view() =~= Seq::<Seq<char>>::empty());
                }
            }
        }
        out.push(hashed);
    }
    proof {
        assert(all_cids_ok(inp0, cids)) by {
            assert forall|a: int| #![trigger inp0[a]] 0 <= a < inp0.len() implies cid_index(
                cids,
                inp0[a].dir@,
            ) >= 0 && valid_cid(cids[cid_index(cids, inp0[a].dir@)].value@) by {
                assert(inp0.to_multiset().count(inp0[a]) > 0);
                assert(t.contains(inp0[a]));
                let j = choose|j: int| 0 <= j < t.len() && t[j] == inp0[a];
                assert(component_hashed(inp0, cids, remove_dependencies, t[j], out@[j]));
                assert(node_digest(inp0, cids, t[j].dir@) is Some);
                lemma_meta_needs_cid(inp0, cids, t[j].dir@, (inp0.len() + 1) as nat);
            }
        }
        assert(hash_output_ok(inp0, cids, remove_dependencies, out@));
    }
    Ok(out)
}

/// A grounded meta presupposes a present, well-formed content identifier.
proof fn lemma_meta_needs_cid(
    inp: Seq<Component>,
    cids: Seq<ContentId>,
    id: Seq<char>,
    fuel: nat,
)
    requires
        node_meta(inp, cids, id, fuel) is Some,
    ensures
        cid_index(cids, id) >= 0,
        valid_cid(cids[cid_index(cids, id)].value@),
{
}

// ------------------------------------------------------------------
// determinism laws

/// Hashing the same registry and content identifiers twice yields identical
/// hash fields for every node: both outputs allowed by the hashing contract
/// agree wherever they carry the same id, whatever order each emitted.
pub proof fn lemma_hash_deterministic(
    inp: Seq<Component>,
    cids: Seq<ContentId>,
    remove: bool,
    out1: Seq<Component>,
    out2: Seq<Component>,
    i1: int,
    i2: int,
)
    requires
        hash_output_ok(inp, cids, remove, out1),
        hash_output_ok(inp, cids, remove, out2),
        0 <= i1 < out1.len(),
        0 <= i2 < out2.len(),
        out1[i1].dir@ == out2[i2].dir@,
    ensures
        out1[i1].tree_sha is Some && out2[i2].tree_sha is Some,
        out1[i1].tree_sha->Some_0@ == out2[i2].tree_sha->Some_0@,
        out1[i1].tree_sha_short is Some && out2[i2].tree_sha_short is Some,
        out1[i1].tree_sha_short->Some_0@ == out2[i2].tree_sha_short->Some_0@,
        out1[i1].commit_sha is Some && out2[i2].commit_sha is Some,
        out1[i1].commit_sha->Some_0@ == out2[i2].commit_sha->Some_0@,
{
    let t1 = choose|t1: Seq<Component>|
        #[trigger] t1.to_multiset() == inp.to_multiset() && crate::toposort::dep_first(t1)
            && out1.len() == t1.len() && forall|i: int|
            #![trigger out1[i]]
            0 <= i < out1.len() ==> component_hashed(inp, cids, remove, t1[i], out1[i]);
    let t2 = choose|t2: Seq<Component>|
        #[trigger] t2.to_multiset() == inp.to_multiset() && crate::toposort::dep_first(t2)
            && out2.len() == t2.len() && forall|i: int|
            #![trigger out2[i]]
            0 <= i < out2.len() ==> component_hashed(inp, cids, remove, t2[i], out2[i]);
    assert(component_hashed(inp, cids, remove, t1[i1], out1[i1]));
    assert(component_hashed(inp, cids, remove, t2[i2], out2[i2]));
    assert(t1[i1].dir@ == t2[i2].dir@);
}

/// Two registries that agree on everything but the declaration order of
/// each node's dependencies.
pub open spec fn same_graph_mod_dep_order(a: Seq<Component>, b: Seq<Component>) -> bool {
    &&& a.len() == b.len()
    &&& forall|i: int|
        #![trigger b[i]]
        0 <= i < a.len() ==> b[i].dir@ == a[i].dir@ && deps_of(b[i]).to_multiset() == deps_of(
            a[i],
        ).to_multiset()
}

/// The first matching index only looks at dirs, which agree.
proof fn lemma_comp_index_same(a: Seq<Component>, b: Seq<Component>, id: Seq<char>)
    requires
        a.len() == b.len(),
        forall|i: int| #![trigger b[i]] 0 <= i < a.len() ==> b[i].dir@ == a[i].dir@,
    ensures
        comp_index(a, id) == comp_index(b, id),
    decreases a.len(),
{
    if a.len() > 0 {
        assert(b[0].dir@ == a[0].dir@);
        let ar = a.drop_first();
        let br = b.drop_first();
        assert forall|i: int| #![trigger br[i]] 0 <= i < ar.len() implies br[i].dir@
            == ar[i].dir@ by {
            assert(br[i] == b[i + 1] && ar[i] == a[i + 1]);
        }
        lemma_comp_index_same(ar, br, id);
    }
}

/// Declaring a node's dependencies in another order does not change any
/// node's depth or digest: the canonical sort erases the declaration order.
pub proof fn lemma_meta_ignores_declaration_order(
    a: Seq<Component>,
    b: Seq<Component>,
    cids: Seq<ContentId>,
    id: Seq<char>,
    fuel: nat,
)
    requires
        same_graph_mod_dep_order(a, b),
    ensures
        node_meta(a, cids, id, fuel) == node_meta(b, cids, id, fuel),
    decreases fuel, 0int,
{
    if fuel > 0 {
        lemma_comp_index_same(a, b, id);
        let ci = comp_index(a, id);
        if ci >= 0 && cid_index(cids, id) >= 0 {
            lemma_comp_index(a, id);
            assert(b[ci].dir@ == a[ci].dir@);
            assert(sorted_deps(a[ci]) == sorted_deps(b[ci])) by {
                lemma_lex_total_ordering();
                deps_of(a[ci]).lemma_sort_by_ensures(lexf());
                deps_of(b[ci]).lemma_sort_by_ensures(lexf());
                vstd::seq_lib::lemma_sorted_unique(
                    deps_of(a[ci]).sort_by(lexf()),
                    deps_of(b[ci]).sort_by(lexf()),
                    lexf(),
                );
            }
            lemma_deps_meta_ignores_order(a, b, cids, sorted_deps(a[ci]), (fuel - 1) as nat);
        }
    }
}

proof fn lemma_deps_meta_ignores_order(
    a: Seq<Component>,
    b: Seq<Component>,
    cids: Seq<ContentId>,
    ds: Seq<Seq<char>>,
    fuel: nat,
)
    requires
        same_graph_mod_dep_order(a, b),
    ensures
        deps_meta(a, cids, ds, fuel) == deps_meta(b, cids, ds, fuel),
    decreases fuel, ds.len() + 1,
{
    if ds.len() > 0 {
        lemma_meta_ignores_declaration_order(a, b, cids, ds[0], fuel);
        lemma_deps_meta_ignores_order(a, b, cids, ds.drop_first(), fuel);
    }
}

/// The headline form over the full-fuel digest.
pub proof fn lemma_digest_ignores_declaration_order(
    a: Seq<Component>,
    b: Seq<Component>,
    cids: Seq<ContentId>,
    id: Seq<char>,
)
    requires
        same_graph_mod_dep_order(a, b),
    ensures
        node_digest(a, cids, id) == node_digest(b, cids, id),
{
    lemma_meta_ignores_declaration_order(a, b, cids, id, (a.len() + 1) as nat);
}

// ------------------------------------------------------------------
// what a changed content identifier does to the digest preimage

/// Hex digits written the way the collaborator writes them: decimal digits
/// and lowercase letters only.
pub open spec fn canonical_hex(s: Seq<char>) -> bool {
    forall|i: int|
        0 <= i < s.len() ==> ((48 <= (#[trigger] s[i]) as u32 && s[i] as u32 <= 57)
            || (97 <= s[i] as u32 && s[i] as u32 <= 102))
}

/// On canonical hex runs of equal even length, decoding is injective.
proof fn lemma_hex_decode_injective(c1: Seq<char>, c2: Seq<char>)
    requires
        c1.len() == c2.len(),
        c1.len() % 2 == 0,
        canonical_hex(c1),
        canonical_hex(c2),
        c1 != c2,
    ensures
        hex_decode_chars(c1) != hex_decode_chars(c2),
    decreases c1.len(),
{
    if c1.len() == 0 {
        assert(c1 =~= c2);
    } else {
        assert(c1.len() >= 2);
        assert(is_hex_digit(c1[0]) && is_hex_digit(c1[1]));
        assert(is_hex_digit(c2[0]) && is_hex_digit(c2[1]));
        if c1[0] == c2[0] && c1[1] == c2[1] {
            assert(c1.skip(2) != c2.skip(2)) by {
                if c1.skip(2) == c2.skip(2) {
                    assert forall|i: int| 0 <= i < c1.len() implies c1[i] == c2[i] by {
                        if i >= 2 {
                            assert(c1.skip(2)[i - 2] == c1[i]);
                            assert(c2.skip(2)[i - 2] == c2[i]);
                        }
                    }
                    assert(c1 =~= c2);
                }
            }
            assert(canonical_hex(c1.skip(2))) by {
                assert forall|i: int| 0 <= i < c1.skip(2).len() implies ((48 <= (
                #[trigger] c1.skip(2)[i]) as u32 && c1.skip(2)[i] as u32 <= 57)
                    || (97 <= c1.skip(2)[i] as u32 && c1.skip(2)[i] as u32 <= 102)) by {
                    assert(c1.skip(2)[i] == c1[i + 2]);
                }
            }
            assert(canonical_hex(c2.skip(2))) by {
                assert forall|i: int| 0 <= i < c2.skip(2).len() implies ((48 <= (
                #[trigger] c2.skip(2)[i]) as u32 && c2.skip(2)[i] as u32 <= 57)
                    || (97 <= c2.skip(2)[i] as u32 && c2.skip(2)[i] as u32 <= 102)) by {
                    assert(c2.skip(2)[i] == c2[i + 2]);
                }
            }
            lemma_hex_decode_injective(c1.skip(2), c2.skip(2));
            assert(hex_decode_chars(c1)[0] == hex_decode_chars(c2)[0]);
            if hex_decode_chars(c1) == hex_decode_chars(c2) {
                assert(hex_decode_chars(c1).skip(1) =~= hex_decode_chars(c1.skip(2)));
                assert(hex_decode_chars(c2).skip(1) =~= hex_decode_chars(c2.skip(2)));
                assert(false);
            }
        } else {
            // the leading byte already differs: canonical digits have
            // distinct values
            let b1 = hex_val(c1[0]) * 16 + hex_val(c1[1]);
            let b2 = hex_val(c2[0]) * 16 + hex_val(c2[1]);
            assert(0 <= hex_val(c1[0]) < 16 && 0 <= hex_val(c1[1]) < 16);
            assert(0 <= hex_val(c2[0]) < 16 && 0 <= hex_val(c2[1]) < 16);
            assert(b1 != b2) by {
                if hex_val(c1[0]) == hex_val(c2[0]) && hex_val(c1[1]) == hex_val(c2[1]) {
                    assert(c1[0] as u32 == c2[0] as u32);
                    assert(c1[1] as u32 == c2[1] as u32);
                    lemma_char_order_eq(c1[0], c2[0]);
                    lemma_char_order_eq(c1[1], c2[1]);
                    assert(false);
                }
            }
            assert(hex_decode_chars(c1) == seq![((hex_val(c1[0]) * 16 + hex_val(c1[1])) as u8)]
                + hex_decode_chars(c1.skip(2)));
            assert(hex_decode_chars(c2) == seq![((hex_val(c2[0]) * 16 + hex_val(c2[1])) as u8)]
                + hex_decode_chars(c2.skip(2)));
            assert(hex_decode_chars(c1)[0] == ((hex_val(c1[0]) * 16 + hex_val(c1[1])) as u8));
            assert(hex_decode_chars(c2)[0] == ((hex_val(c2[0]) * 16 + hex_val(c2[1])) as u8));
            assert(b1 as u8 != b2 as u8);
            assert(hex_decode_chars(c1)[0] != hex_decode_chars(c2)[0]);
        }
    }
}

/// Changing a node's content identifier changes the bytes its digest is
/// computed over. That the digest itself then differs rests on the collision
/// resistance of the outside hash, which this model does not state; the
/// scenario is exercised by tests against the real hash instead.
pub proof fn lemma_cid_changes_preimage(
    c1: Seq<char>,
    c2: Seq<char>,
    depth: nat,
    depdata: Seq<u8>,
)
    requires
        valid_cid(c1),
        valid_cid(c2),
        canonical_hex(c1),
        canonical_hex(c2),
        c1 != c2,
    ensures
        node_preimage(depth, hex_decode_chars(c1), depdata) != node_preimage(
            depth,
            hex_decode_chars(c2),
            depdata,
        ),
{
    lemma_hex_decode_injective(c1, c2);
    lemma_hex_decode_len(c1);
    lemma_hex_decode_len(c2);
    let b1 = hex_decode_chars(c1);
    let b2 = hex_decode_chars(c2);
    let k = choose|k: int| !(0 <= k < b1.len() ==> b1[k] == b2[k]);
    assert(b1.len() == b2.len() == 20);
    assert(exists|k2: int| !(0 <= k2 < b1.len() ==> b1[k2] == b2[k2])) by {
        if forall|k2: int| 0 <= k2 < b1.len() ==> b1[k2] == #[trigger] b2[k2] {
            assert(b1 =~= b2);
        }
    }
    assert(0 <= k < 20 && b1[k] != b2[k]);
    let p1 = node_preimage(depth, b1, depdata);
    let p2 = node_preimage(depth, b2, depdata);
    assert(p1[2 + k] == b1[k]);
    assert(p2[2 + k] == b2[k]);
    assert(p1 != p2);
}

// ------------------------------------------------------------------
// what a changed dependency digest does to the dependent's preimage

/// With 32-byte digests every encoded entry is 39 bytes wide.
proof fn lemma_encoding_from_len(ms: Seq<(nat, Seq<u8>)>, k: int)
    requires
        forall|x: int| 0 <= x < ms.len() ==> (#[trigger] ms[x]).1.len() == 32,
        0 <= k <= ms.len(),
    ensures
        deps_encoding_from(ms, k).len() == (ms.len() - k) * 39,
    decreases ms.len() - k,
{
    if k < ms.len() {
        lemma_encoding_from_len(ms, k + 1);
    }
}

/// The byte at entry `j`, digest position `b`, of the encoding from `k` on.
proof fn lemma_encoding_from_index(ms: Seq<(nat, Seq<u8>)>, k: int, j: int, b: int)
    requires
        forall|x: int| 0 <= x < ms.len() ==> (#[trigger] ms[x]).1.len() == 32,
        0 <= k <= j < ms.len(),
        0 <= b < 32,
    ensures
        deps_encoding_from(ms, k)[(j - k) * 39 + 6 + b] == ms[j].1[b],
    decreases j - k,
{
    let entry = entry_bytes(k, ms[k].0, ms[k].1, k == ms.len() - 1);
    assert(entry.len() == 39);
    if j == k {
        assert(entry[6 + b] == ms[k].1[b]);
        assert(deps_encoding_from(ms, k)[6 + b] == entry[6 + b]);
    } else {
        lemma_encoding_from_index(ms, k + 1, j, b);
        lemma_encoding_from_len(ms, k + 1);
        assert((j - k) * 39 + 6 + b >= 39) by (nonlinear_arith)
            requires j - k >= 1, 0 <= b,
        ;
        assert((j - k) * 39 - 39 == (j - (k + 1)) * 39) by (nonlinear_arith);
        assert(deps_encoding_from(ms, k)[(j - k) * 39 + 6 + b] == deps_encoding_from(ms, k + 1)[(
        j - (k + 1)) * 39 + 6 + b]);
    }
}

/// Changing one byte of a dependency's recorded digest changes the bytes
/// the dependent's digest is computed over. That the dependent's digest
/// itself then differs again rests on the collision resistance of the
/// outside hash; the full chain is exercised by tests against the real one.
pub proof fn lemma_dep_digest_changes_preimage(
    depth: nat,
    cid: Seq<u8>,
    ms1: Seq<(nat, Seq<u8>)>,
    ms2: Seq<(nat, Seq<u8>)>,
    j: int,
    b: int,
)
    requires
        ms1.len() == ms2.len(),
        forall|x: int| 0 <= x < ms1.len() ==> (#[trigger] ms1[x]).1.len() == 32,
        forall|x: int| 0 <= x < ms2.len() ==> (#[trigger] ms2[x]).1.len() == 32,
        0 <= j < ms1.len(),
        0 <= b < 32,
        ms1[j].1[b] != ms2[j].1[b],
    ensures
        node_preimage(depth, cid, deps_encoding(ms1)) != node_preimage(
            depth,
            cid,
            deps_encoding(ms2),
        ),
{
    lemma_encoding_from_index(ms1, 0, j, b);
    lemma_encoding_from_index(ms2, 0, j, b);
    lemma_encoding_from_len(ms1, 0);
    lemma_encoding_from_len(ms2, 0);
    let pos = j * 39 + 6 + b;
    assert(0 <= j * 39 + 6 + b && j * 39 + 6 + b < ms1.len() * 39) by (nonlinear_arith)
        requires
            0 <= j < ms1.len(),
            0 <= b < 32,
    ;
    let p1 = node_preimage(depth, cid, deps_encoding(ms1));
    let p2 = node_preimage(depth, cid, deps_encoding(ms2));
    assert(p1[2 + cid.len() + pos] == deps_encoding(ms1)[pos]);
    assert(p2[2 + cid.len() + pos] == deps_encoding(ms2)[pos]);
    assert(p1 != p2);
}

// ------------------------------------------------------------------
// the digest depends only on the reachable content identifiers

/// The two content maps agree on `d`: both lack an entry, or both carry the
/// same identifier.
pub open spec fn same_cid(cids1: Seq<ContentId>, cids2: Seq<ContentId>, d: Seq<char>) -> bool {
    if cid_index(cids1, d) < 0 {
        cid_index(cids2, d) < 0
    } else {
        cid_index(cids2, d) >= 0 && cids1[cid_index(cids1, d)].value@ == cids2[cid_index(
            cids2,
            d,
        )].value@
    }
}

/// A path out of `x` extends to a path out of `id` through one edge.
proof fn lemma_reaches_through(inp: Seq<Component>, id: Seq<char>, x: Seq<char>, d: Seq<char>)
    requires
        dep_edge(inp, id, x),
        reaches(inp, seq![x], d),
    ensures
        reaches(inp, seq![id], d),
{
    let p = choose|p: Seq<Seq<char>>| #[trigger] valid_path(inp, seq![x], p) && p.last() == d;
    assert(seq![x].contains(p[0]));
    assert(p[0] == x);
    let p2 = seq![id] + p;
    assert(p2[0] == id);
    assert(seq![id].contains(id));
    assert(p2.last() == p.last());
    assert forall|k: int| 0 <= k < p2.len() - 1 implies dep_edge(inp, #[trigger] p2[k], p2[k + 1])
        by {
        if k == 0 {
            assert(p2[0] == id && p2[1] == p[0]);
        } else {
            assert(p2[k] == p[k - 1] && p2[k + 1] == p[k]);
        }
    }
    assert(valid_path(inp, seq![id], p2));
}

/// The depth and digest of a node are a function of the content identifiers
/// of the ids it can reach alone: two content maps that agree there give it
/// the same meta at every fuel. This is the unchanged half of the
/// leaf-change property — a node that does not reach a changed identifier
/// keeps its digest byte for byte.
pub proof fn lemma_meta_local(
    inp: Seq<Component>,
    cids1: Seq<ContentId>,
    cids2: Seq<ContentId>,
    id: Seq<char>,
    fuel: nat,
)
    requires
        forall|d: Seq<char>|
            #![trigger reaches(inp, seq![id], d)]
            reaches(inp, seq![id], d) ==> same_cid(cids1, cids2, d),
    ensures
        node_meta(inp, cids1, id, fuel) == node_meta(inp, cids2, id, fuel),
    decreases fuel, 0int,
{
    if fuel > 0 {
        assert(seq![id][0] == id);
        assert(seq![id].contains(id));
        lemma_reaches_root(inp, seq![id], id);
        assert(same_cid(cids1, cids2, id));
        let ci = comp_index(inp, id);
        let xi = cid_index(cids1, id);
        if ci >= 0 && xi >= 0 {
            lemma_comp_index(inp, id);
            let ds = sorted_deps(inp[ci]);
            assert(inp.contains(inp[ci]));
            assert forall|k: int| #![trigger ds[k]] 0 <= k < ds.len() implies dep_edge(
                inp,
                id,
                ds[k],
            ) by {
                broadcast use vstd::seq_lib::group_to_multiset_ensures;

                lemma_lex_total_ordering();
                deps_of(inp[ci]).lemma_sort_by_ensures(lexf());
                assert(ds.contains(ds[k]));
                assert(ds.to_multiset().count(ds[k]) > 0);
                assert(deps_of(inp[ci]).contains(ds[k]));
                lemma_edge_from_member(inp, inp[ci], ds[k]);
            }
            lemma_deps_meta_local(inp, cids1, cids2, id, ds, (fuel - 1) as nat);
        }
    }
}

/// The metas of ids all reachable from `id` agree between agreeing maps.
proof fn lemma_deps_meta_local(
    inp: Seq<Component>,
    cids1: Seq<ContentId>,
    cids2: Seq<ContentId>,
    id: Seq<char>,
    ds: Seq<Seq<char>>,
    fuel: nat,
)
    requires
        forall|d: Seq<char>|
            #![trigger reaches(inp, seq![id], d)]
            reaches(inp, seq![id], d) ==> same_cid(cids1, cids2, d),
        forall|k: int| #![trigger ds[k]] 0 <= k < ds.len() ==> dep_edge(inp, id, ds[k]),
    ensures
        deps_meta(inp, cids1, ds, fuel) == deps_meta(inp, cids2, ds, fuel),
    decreases fuel, ds.len() + 1,
{
    if ds.len() > 0 {
        assert(dep_edge(inp, id, ds[0]));
        assert forall|d: Seq<char>| #![trigger reaches(inp, seq![ds[0]], d)] reaches(
            inp,
            seq![ds[0]],
            d,
        ) implies same_cid(cids1, cids2, d) by {
            lemma_reaches_through(inp, id, ds[0], d);
        }
        lemma_meta_local(inp, cids1, cids2, ds[0], fuel);
        let rest = ds.drop_first();
        assert forall|k: int| #![trigger rest[k]] 0 <= k < rest.len() implies dep_edge(
            inp,
            id,
            rest[k],
        ) by {
            assert(rest[k] == ds[k + 1]);
        }
        lemma_deps_meta_local(inp, cids1, cids2, id, rest, fuel);
    }
}

/// The headline form over the full-fuel digest: a node whose reachable ids
/// keep their content identifiers keeps its depth and digest.
pub proof fn lemma_unreached_digest_unchanged(
    inp: Seq<Component>,
    cids1: Seq<ContentId>,
    cids2: Seq<ContentId>,
    id: Seq<char>,
)
    requires
        forall|d: Seq<char>|
            #![trigger reaches(inp, seq![id], d)]
            reaches(inp, seq![id], d) ==> same_cid(cids1, cids2, d),
    ensures
        node_digest(inp, cids1, id) == node_digest(inp, cids2, id),
{
    lemma_meta_local(inp, cids1, cids2, id, (inp.len() + 1) as nat);
}

} // verus!
