//! The on-disk tile cache format: a persisted mapping from tile identity to
//! representative color, so repeated runs over a stable tile source skip
//! recomputation.
//!
//! The format is a length-prefixed binary record: a little-endian entry
//! count, then per entry the identity's byte length, its bytes, and the three
//! color channels, each little-endian 32-bit. Encoding and decoding are
//! verified inverses; file reads and writes are the caller's.

use vstd::prelude::*;
use crate::color::{LinColor, LINEAR_MAX};
use crate::errors::MosaicError;

verus! {

/// One persisted cache record: a tile's identity (its path relative to the
/// source root) and its representative color.
#[derive(Debug)]
pub struct CacheEntry {
    pub identity: Vec<u8>,
    pub color: LinColor,
}

/// The mathematical model of one entry: identity bytes and color.
pub type EntryModel = (Seq<u8>, LinColor);

impl CacheEntry {
    pub open spec fn model(self) -> EntryModel {
        (self.identity@, self.color)
    }
}

/// The model of a whole mapping.
pub open spec fn models_of(s: Seq<CacheEntry>) -> Seq<EntryModel> {
    s.map_values(|e: CacheEntry| e.model())
}

/// An entry that the format can hold: the identity's length fits the length
/// prefix and the color is within the linear range.
pub open spec fn entry_encodable(m: EntryModel) -> bool {
    m.0.len() <= u32::MAX && m.1.in_range()
}

/// A mapping that the format can hold, with identities unique.
pub open spec fn mapping_encodable(ms: Seq<EntryModel>) -> bool {
    &&& ms.len() <= u32::MAX
    &&& forall|i: int| 0 <= i < ms.len() ==> entry_encodable(#[trigger] ms[i])
    &&& distinct_identities(ms)
}

/// No two entries share an identity.
pub open spec fn distinct_identities(ms: Seq<EntryModel>) -> bool {
    forall|i: int, j: int| 0 <= i < j < ms.len() ==> ms[i].0 != ms[j].0
}

/// The four little-endian bytes of a 32-bit value.
pub open spec fn le32(n: u32) -> Seq<u8> {
    seq![
        (n & 0xFF) as u8,
        ((n >> 8) & 0xFF) as u8,
        ((n >> 16) & 0xFF) as u8,
        ((n >> 24) & 0xFF) as u8,
    ]
}

/// The 32-bit value of four little-endian bytes.
pub open spec fn from_le32(b0: u8, b1: u8, b2: u8, b3: u8) -> u32 {
    (b0 as u32) | ((b1 as u32) << 8) | ((b2 as u32) << 16) | ((b3 as u32) << 24)
}

/// Reading back the four bytes of a value gives the value; reading four
/// bytes and re-emitting them gives the same bytes. The two directions make
/// the 32-bit field a bijection.
pub proof fn lemma_le32_roundtrip(n: u32, b0: u8, b1: u8, b2: u8, b3: u8)
    ensures
        from_le32((n & 0xFF) as u8, ((n >> 8) & 0xFF) as u8, ((n >> 16) & 0xFF) as u8, ((n
            >> 24) & 0xFF) as u8) == n,
        (from_le32(b0, b1, b2, b3) & 0xFF) as u8 == b0,
        ((from_le32(b0, b1, b2, b3) >> 8) & 0xFF) as u8 == b1,
        ((from_le32(b0, b1, b2, b3) >> 16) & 0xFF) as u8 == b2,
        ((from_le32(b0, b1, b2, b3) >> 24) & 0xFF) as u8 == b3,
{
    assert(((n & 0xFF) as u8 as u32) | (((n >> 8) & 0xFF) as u8 as u32) << 8 | (((n >> 16)
        & 0xFF) as u8 as u32) << 16 | (((n >> 24) & 0xFF) as u8 as u32) << 24 == n)
        by (bit_vector);
    assert((((b0 as u32) | ((b1 as u32) << 8) | ((b2 as u32) << 16) | ((b3 as u32) << 24))
        & 0xFF) as u8 == b0) by (bit_vector);
    assert(((((b0 as u32) | ((b1 as u32) << 8) | ((b2 as u32) << 16) | ((b3 as u32) << 24))
        >> 8) & 0xFF) as u8 == b1) by (bit_vector);
    assert(((((b0 as u32) | ((b1 as u32) << 8) | ((b2 as u32) << 16) | ((b3 as u32) << 24))
        >> 16) & 0xFF) as u8 == b2) by (bit_vector);
    assert(((((b0 as u32) | ((b1 as u32) << 8) | ((b2 as u32) << 16) | ((b3 as u32) << 24))
        >> 24) & 0xFF) as u8 == b3) by (bit_vector);
}

/// The encoding of one entry: length prefix, identity bytes, three channels.
pub open spec fn enc_entry(m: EntryModel) -> Seq<u8> {
    le32(m.0.len() as u32) + m.0 + le32(m.1.r) + le32(m.1.g) + le32(m.1.b)
}

/// The encoding of a run of entries, in order.
pub open spec fn enc_entries(ms: Seq<EntryModel>) -> Seq<u8>
    decreases ms.len(),
{
    if ms.len() == 0 {
        Seq::empty()
    } else {
        enc_entry(ms[0]) + enc_entries(ms.drop_first())
    }
}

/// The encoding of a whole mapping: entry count, then the entries.
pub open spec fn enc(ms: Seq<EntryModel>) -> Seq<u8> {
    le32(ms.len() as u32) + enc_entries(ms)
}

/// Appending one entry appends its encoding.
pub proof fn lemma_enc_entries_push(ms: Seq<EntryModel>, m: EntryModel)
    ensures
        enc_entries(ms.push(m)) == enc_entries(ms) + enc_entry(m),
    decreases ms.len(),
{
    if ms.len() == 0 {
        assert(ms.push(m).drop_first() =~= Seq::<EntryModel>::empty());
        assert(ms.push(m)[0] == m);
        assert(enc_entries(ms.push(m)) == enc_entry(m) + enc_entries(
            Seq::<EntryModel>::empty(),
        ));
        assert(enc_entry(m) + enc_entries(Seq::<EntryModel>::empty()) =~= enc_entry(m));
        assert(enc_entries(ms) + enc_entry(m) =~= enc_entry(m));
    } else {
        assert(ms.push(m).drop_first() =~= ms.drop_first().push(m));
        lemma_enc_entries_push(ms.drop_first(), m);
        assert(ms.push(m)[0] == ms[0]);
        assert(enc_entries(ms.push(m)) =~= enc_entries(ms) + enc_entry(m));
    }
}

/// Appends the little-endian bytes of `n`.
fn push_le32(out: &mut Vec<u8>, n: u32)
    ensures
        final(out)@ == old(out)@ + le32(n),
{
    out.push((n & 0xFF) as u8);
    out.push(((n >> 8) & 0xFF) as u8);
    out.push(((n >> 16) & 0xFF) as u8);
    out.push(((n >> 24) & 0xFF) as u8);
    proof {
        assert(out@ =~= old(out)@ + le32(n));
    }
}

/// Appends a copy of `bytes`.
fn push_bytes(out: &mut Vec<u8>, bytes: &Vec<u8>)
    ensures
        final(out)@ == old(out)@ + bytes@,
{
    let n = bytes.len();
    let mut j: usize = 0;
    while j < n
        invariant
            j <= n,
            n == bytes@.len(),
            out@ == old(out)@ + bytes@.take(j as int),
        decreases n - j,
    {
        out.push(bytes[j]);
        proof {
            assert(old(out)@ + bytes@.take(j as int) + seq![bytes@[j as int]] =~= old(out)@
                + bytes@.take(j + 1));
        }
        j = j + 1;
    }
    proof {
        assert(old(out)@ + bytes@.take(n as int) =~= old(out)@ + bytes@);
    }
}

/// Whether two byte strings are equal.
pub fn bytes_eq(a: &Vec<u8>, b: &Vec<u8>) -> (r: bool)
    ensures
        r <==> a@ == b@,
{
    if a.len() != b.len() {
        return false;
    }
    let n = a.len();
    let mut i: usize = 0;
    while i < n
        invariant
            i <= n,
            n == a@.len() == b@.len(),
            forall|k: int| 0 <= k < i ==> a@[k] == b@[k],
        decreases n - i,
    {
        if a[i] != b[i] {
            return false;
        }
        i = i + 1;
    }
    proof {
        assert(a@ =~= b@);
    }
    true
}

/// Serializes a mapping into the cache format. The inverse of `decode`.
pub fn encode(entries: &Vec<CacheEntry>) -> (r: Vec<u8>)
    requires
        mapping_encodable(models_of(entries@)),
    ensures
        r@ == enc(models_of(entries@)),
{
    let ghost ms = models_of(entries@);
    let n = entries.len();
    let mut out: Vec<u8> = Vec::new();
    proof {
        assert(ms.len() == entries@.len());
        assert(Seq::<u8>::empty() + le32(n as u32) =~= le32(n as u32));
    }
    push_le32(&mut out, n as u32);
    let mut i: usize = 0;
    while i < n
        invariant
            i <= n,
            n == entries@.len(),
            ms == models_of(entries@),
            ms.len() == n,
            forall|k: int| 0 <= k < n ==> entry_encodable(#[trigger] ms[k]),
            out@ == le32(n as u32) + enc_entries(ms.take(i as int)),
        decreases n - i,
    {
        let e = &entries[i];
        proof {
            assert(ms[i as int] == entries@[i as int].model());
            assert(entry_encodable(ms[i as int]));
        }
        push_le32(&mut out, e.identity.len() as u32);
        push_bytes(&mut out, &e.identity);
        push_le32(&mut out, e.color.r);
        push_le32(&mut out, e.color.g);
        push_le32(&mut out, e.color.b);
        proof {
            let m = ms[i as int];
            lemma_enc_entries_push(ms.take(i as int), m);
            assert(ms.take(i as int).push(m) =~= ms.take(i + 1));
            assert(le32(n as u32) + enc_entries(ms.take(i as int)) + le32(m.0.len() as u32)
                + m.0 + le32(m.1.r) + le32(m.1.g) + le32(m.1.b) =~= le32(n as u32)
                + enc_entries(ms.take(i + 1)));
        }
        i = i + 1;
    }
    proof {
        assert(ms.take(n as int) =~= ms);
    }
    out
}

/// Parses one entry from the front of `b`: the entry and the remaining
/// bytes, or nothing when `b` does not start with a well-formed entry.
pub open spec fn dec_entry(b: Seq<u8>) -> Option<(EntryModel, Seq<u8>)> {
    if b.len() < 16 {
        None
    } else {
        let l = from_le32(b[0], b[1], b[2], b[3]) as int;
        if b.len() < 16 + l {
            None
        } else {
            let ident = b.subrange(4, 4 + l);
            let cr = from_le32(b[4 + l], b[5 + l], b[6 + l], b[7 + l]);
            let cg = from_le32(b[8 + l], b[9 + l], b[10 + l], b[11 + l]);
            let cb = from_le32(b[12 + l], b[13 + l], b[14 + l], b[15 + l]);
            if cr <= LINEAR_MAX && cg <= LINEAR_MAX && cb <= LINEAR_MAX {
                Some(((ident, LinColor { r: cr, g: cg, b: cb }), b.skip(16 + l)))
            } else {
                None
            }
        }
    }
}

/// Parses exactly `n` entries, requiring that they use `b` up in full.
pub open spec fn dec_entries(b: Seq<u8>, n: nat) -> Option<Seq<EntryModel>>
    decreases n,
{
    if n == 0 {
        if b.len() == 0 {
            Some(Seq::empty())
        } else {
            None
        }
    } else {
        match dec_entry(b) {
            Some((m, rest)) => match dec_entries(rest, (n - 1) as nat) {
                Some(ms) => Some(seq![m] + ms),
                None => None,
            },
            None => None,
        }
    }
}

/// Parses a whole cache image: the count, then that many entries, with
/// nothing left over and no identity repeated. Exactly the byte strings
/// that `enc` produces on encodable mappings are accepted.
pub open spec fn dec(b: Seq<u8>) -> Option<Seq<EntryModel>> {
    if b.len() < 4 {
        None
    } else {
        match dec_entries(b.skip(4), from_le32(b[0], b[1], b[2], b[3]) as nat) {
            Some(ms) => if distinct_identities(ms) {
                Some(ms)
            } else {
                None
            },
            None => None,
        }
    }
}

/// Reads a little-endian 32-bit field.
fn read_le32(data: &Vec<u8>, pos: usize) -> (r: u32)
    requires
        pos + 4 <= data@.len(),
        data@.len() <= usize::MAX,
    ensures
        r == from_le32(data@[pos as int], data@[pos + 1], data@[pos + 2], data@[pos + 3]),
{
    (data[pos] as u32) | ((data[pos + 1] as u32) << 8u32) | ((data[pos + 2] as u32) << 16u32)
        | ((data[pos + 3] as u32) << 24u32)
}

/// Copies `data[start .. start + len]` out.
fn copy_bytes(data: &Vec<u8>, start: usize, len: usize) -> (r: Vec<u8>)
    requires
        start + len <= data@.len(),
        data@.len() <= usize::MAX,
    ensures
        r@ == data@.subrange(start as int, start as int + len as int),
{
    let mut out: Vec<u8> = Vec::new();
    let mut j: usize = 0;
    while j < len
        invariant
            j <= len,
            start + len <= data@.len(),
            data@.len() <= usize::MAX,
            out@ == data@.subrange(start as int, start as int + j as int),
        decreases len - j,
    {
        out.push(data[start + j]);
        proof {
            assert(data@.subrange(start as int, start as int + j as int).push(
                data@[start + j],
            ) =~= data@.subrange(start as int, start as int + j + 1));
        }
        j = j + 1;
    }
    out
}

/// Deserializes a cache image. Returns the mapping exactly when the bytes
/// are a well-formed encoding; `CorruptCache` otherwise.
pub fn decode(data: &Vec<u8>) -> (r: Result<Vec<CacheEntry>, MosaicError>)
    ensures
        match r {
            Ok(v) => dec(data@) == Some(models_of(v@)) && mapping_encodable(models_of(v@)),
            Err(e) => e == MosaicError::CorruptCache && dec(data@) is None,
        },
{
    if data.len() < 4 {
        return Err(MosaicError::CorruptCache);
    }
    let n = read_le32(data, 0);
    let total = data.len();
    let mut out: Vec<CacheEntry> = Vec::new();
    let mut pos: usize = 4;
    let mut i: u32 = 0;
    while i < n
        invariant
            i <= n,
            4 <= pos <= total,
            total == data@.len(),
            n == from_le32(data@[0], data@[1], data@[2], data@[3]),
            out@.len() == i,
            forall|k: int| 0 <= k < i ==> entry_encodable(#[trigger] models_of(out@)[k]),
            dec_entries(data@.skip(4), n as nat) == (match dec_entries(
                data@.skip(pos as int),
                (n - i) as nat,
            ) {
                Some(ms) => Some(models_of(out@) + ms),
                None => None,
            }),
        decreases n - i,
    {
        let ghost rem = data@.skip(pos as int);
        if total - pos < 16 {
            proof {
                assert(dec_entry(rem) is None);
                assert(dec_entries(rem, (n - i) as nat) is None);
                assert(dec(data@) is None);
            }
            return Err(MosaicError::CorruptCache);
        }
        let l = read_le32(data, pos);
        proof {
            assert(rem[0] == data@[pos as int] && rem[1] == data@[pos + 1] && rem[2]
                == data@[pos + 2] && rem[3] == data@[pos + 3]);
        }
        if ((total - pos) as u64) < 16u64 + (l as u64) {
            proof {
                assert(dec_entry(rem) is None);
                assert(dec_entries(rem, (n - i) as nat) is None);
                assert(dec(data@) is None);
            }
            return Err(MosaicError::CorruptCache);
        }
        let lu: usize = l as usize;
        let identity = copy_bytes(data, pos + 4, lu);
        let cr = read_le32(data, pos + 4 + lu);
        let cg = read_le32(data, pos + 8 + lu);
        let cb = read_le32(data, pos + 12 + lu);
        proof {
            let li = l as int;
            assert(rem[4 + li] == data@[pos + 4 + li] && rem[5 + li] == data@[pos + 5 + li]
                && rem[6 + li] == data@[pos + 6 + li] && rem[7 + li] == data@[pos + 7 + li]);
            assert(rem[8 + li] == data@[pos + 8 + li] && rem[9 + li] == data@[pos + 9 + li]
                && rem[10 + li] == data@[pos + 10 + li] && rem[11 + li] == data@[pos + 11
                + li]);
            assert(rem[12 + li] == data@[pos + 12 + li] && rem[13 + li] == data@[pos + 13
                + li] && rem[14 + li] == data@[pos + 14 + li] && rem[15 + li] == data@[pos
                + 15 + li]);
            assert(rem.subrange(4, 4 + li) =~= data@.subrange(pos + 4, pos + 4 + li));
        }
        if cr > LINEAR_MAX || cg > LINEAR_MAX || cb > LINEAR_MAX {
            proof {
                assert(dec_entry(rem) is None);
                assert(dec_entries(rem, (n - i) as nat) is None);
                assert(dec(data@) is None);
            }
            return Err(MosaicError::CorruptCache);
        }
        let entry = CacheEntry { identity, color: LinColor { r: cr, g: cg, b: cb } };
        proof {
            let li = l as int;
            let m: EntryModel = (rem.subrange(4, 4 + li), LinColor { r: cr, g: cg, b: cb });
            assert(dec_entry(rem) == Some((m, rem.skip(16 + li))));
            assert(rem.skip(16 + li) =~= data@.skip(pos + 16 + li));
            assert(entry.model() == m);
            assert(models_of(out@.push(entry)) =~= models_of(out@).push(m));
            if dec_entries(data@.skip(pos + 16 + li), (n - i - 1) as nat) is Some {
                let ms = dec_entries(data@.skip(pos + 16 + li), (n - i - 1) as nat)->Some_0;
                assert(dec_entries(rem, (n - i) as nat) == Some(seq![m] + ms));
                assert(models_of(out@) + (seq![m] + ms) =~= models_of(out@).push(m) + ms);
            } else {
                assert(dec_entries(rem, (n - i) as nat) is None);
            }
        }
        out.push(entry);
        pos = pos + 16 + lu;
        i = i + 1;
    }
    if pos != total {
        proof {
            assert(data@.skip(pos as int).len() > 0);
            assert(dec_entries(data@.skip(pos as int), 0) is None);
            assert(dec(data@) is None);
        }
        return Err(MosaicError::CorruptCache);
    }
    proof {
        assert(data@.skip(pos as int).len() == 0);
        assert(dec_entries(data@.skip(pos as int), 0) == Some(Seq::<EntryModel>::empty()));
        assert(models_of(out@) + Seq::<EntryModel>::empty() =~= models_of(out@));
    }
    if find_duplicate(&out) {
        return Err(MosaicError::CorruptCache);
    }
    Ok(out)
}

/// Parsing the encoding of one entry yields that entry and the trailing
/// bytes.
proof fn lemma_dec_entry_of_enc(m: EntryModel, t: Seq<u8>)
    requires
        entry_encodable(m),
    ensures
        dec_entry(enc_entry(m) + t) == Some((m, t)),
{
    let l = m.0.len() as int;
    let lw = m.0.len() as u32;
    let b = enc_entry(m) + t;
    assert(enc_entry(m).len() == 16 + l);
    lemma_le32_roundtrip(lw, 0, 0, 0, 0);
    lemma_le32_roundtrip(m.1.r, 0, 0, 0, 0);
    lemma_le32_roundtrip(m.1.g, 0, 0, 0, 0);
    lemma_le32_roundtrip(m.1.b, 0, 0, 0, 0);
    assert(b[0] == (lw & 0xFF) as u8 && b[1] == ((lw >> 8) & 0xFF) as u8 && b[2] == ((lw
        >> 16) & 0xFF) as u8 && b[3] == ((lw >> 24) & 0xFF) as u8);
    assert(from_le32(b[0], b[1], b[2], b[3]) == lw);
    assert(b.subrange(4, 4 + l) =~= m.0);
    assert(b[4 + l] == (m.1.r & 0xFF) as u8 && b[5 + l] == ((m.1.r >> 8) & 0xFF) as u8 && b[6
        + l] == ((m.1.r >> 16) & 0xFF) as u8 && b[7 + l] == ((m.1.r >> 24) & 0xFF) as u8);
    assert(b[8 + l] == (m.1.g & 0xFF) as u8 && b[9 + l] == ((m.1.g >> 8) & 0xFF) as u8 && b[10
        + l] == ((m.1.g >> 16) & 0xFF) as u8 && b[11 + l] == ((m.1.g >> 24) & 0xFF) as u8);
    assert(b[12 + l] == (m.1.b & 0xFF) as u8 && b[13 + l] == ((m.1.b >> 8) & 0xFF) as u8 && b[
        14 + l] == ((m.1.b >> 16) & 0xFF) as u8 && b[15 + l] == ((m.1.b >> 24) & 0xFF)
        as u8);
    assert(from_le32(b[4 + l], b[5 + l], b[6 + l], b[7 + l]) == m.1.r);
    assert(from_le32(b[8 + l], b[9 + l], b[10 + l], b[11 + l]) == m.1.g);
    assert(from_le32(b[12 + l], b[13 + l], b[14 + l], b[15 + l]) == m.1.b);
    assert(b.skip(16 + l) =~= t);
    let m2: EntryModel = (m.0, m.1);
    assert(dec_entry(b) == Some((m2, t)));
    assert(m2 == m);
}

/// Parsing the encoding of a run of entries yields that run.
proof fn lemma_dec_entries_of_enc(ms: Seq<EntryModel>)
    requires
        forall|i: int| 0 <= i < ms.len() ==> entry_encodable(#[trigger] ms[i]),
    ensures
        dec_entries(enc_entries(ms), ms.len()) == Some(ms),
    decreases ms.len(),
{
    if ms.len() == 0 {
        assert(enc_entries(ms).len() == 0);
    } else {
        let rest = ms.drop_first();
        lemma_dec_entry_of_enc(ms[0], enc_entries(rest));
        lemma_dec_entries_of_enc(rest);
        assert(seq![ms[0]] + rest =~= ms);
    }
}

/// The codec round trip: decoding the encoding of any encodable mapping
/// yields that mapping, entry for entry and in order.
pub proof fn lemma_cache_roundtrip(ms: Seq<EntryModel>)
    requires
        mapping_encodable(ms),
    ensures
        dec(enc(ms)) == Some(ms),
{
    let b = enc(ms);
    let nw = ms.len() as u32;
    lemma_le32_roundtrip(nw, 0, 0, 0, 0);
    assert(b[0] == (nw & 0xFF) as u8 && b[1] == ((nw >> 8) & 0xFF) as u8 && b[2] == ((nw
        >> 16) & 0xFF) as u8 && b[3] == ((nw >> 24) & 0xFF) as u8);
    assert(from_le32(b[0], b[1], b[2], b[3]) == nw);
    assert(b.skip(4) =~= enc_entries(ms));
    lemma_dec_entries_of_enc(ms);
}

/// An accepted entry is the encoding of what was parsed: the parser admits
/// no byte string an encoder would not produce.
proof fn lemma_enc_of_dec_entry(b: Seq<u8>)
    requires
        dec_entry(b) is Some,
    ensures
        entry_encodable(dec_entry(b)->Some_0.0),
        enc_entry(dec_entry(b)->Some_0.0) + dec_entry(b)->Some_0.1 == b,
        dec_entry(b)->Some_0.1.len() < b.len(),
{
    let lw = from_le32(b[0], b[1], b[2], b[3]);
    let li = lw as int;
    let m = dec_entry(b)->Some_0.0;
    let rest = dec_entry(b)->Some_0.1;
    let cr = from_le32(b[4 + li], b[5 + li], b[6 + li], b[7 + li]);
    let cg = from_le32(b[8 + li], b[9 + li], b[10 + li], b[11 + li]);
    let cb = from_le32(b[12 + li], b[13 + li], b[14 + li], b[15 + li]);
    lemma_le32_roundtrip(0, b[0], b[1], b[2], b[3]);
    lemma_le32_roundtrip(0, b[4 + li], b[5 + li], b[6 + li], b[7 + li]);
    lemma_le32_roundtrip(0, b[8 + li], b[9 + li], b[10 + li], b[11 + li]);
    lemma_le32_roundtrip(0, b[12 + li], b[13 + li], b[14 + li], b[15 + li]);
    assert(m.0 == b.subrange(4, 4 + li));
    assert(m.0.len() == li);
    assert(m.0.len() as u32 == lw);
    assert(le32(lw) =~= seq![b[0], b[1], b[2], b[3]]);
    assert(le32(cr) =~= seq![b[4 + li], b[5 + li], b[6 + li], b[7 + li]]);
    assert(le32(cg) =~= seq![b[8 + li], b[9 + li], b[10 + li], b[11 + li]]);
    assert(le32(cb) =~= seq![b[12 + li], b[13 + li], b[14 + li], b[15 + li]]);
    assert(rest =~= b.skip(16 + li));
    assert(enc_entry(m) + rest =~= b);
}

/// An accepted run of entries is the encoding of what was parsed.
proof fn lemma_enc_of_dec_entries(b: Seq<u8>, n: nat)
    requires
        dec_entries(b, n) is Some,
    ensures
        dec_entries(b, n)->Some_0.len() == n,
        forall|i: int| 0 <= i < n ==> entry_encodable(#[trigger] dec_entries(b, n)->Some_0[i]),
        enc_entries(dec_entries(b, n)->Some_0) == b,
    decreases n,
{
    if n == 0 {
        assert(enc_entries(Seq::<EntryModel>::empty()) =~= b);
    } else {
        let m = dec_entry(b)->Some_0.0;
        let rest = dec_entry(b)->Some_0.1;
        lemma_enc_of_dec_entry(b);
        lemma_enc_of_dec_entries(rest, (n - 1) as nat);
        let tail = dec_entries(rest, (n - 1) as nat)->Some_0;
        let ms = dec_entries(b, n)->Some_0;
        assert(ms == seq![m] + tail);
        assert(ms[0] == m);
        assert(ms.drop_first() =~= tail);
        assert(enc_entries(ms) == enc_entry(m) + enc_entries(tail));
        assert(enc_entry(m) + enc_entries(tail) =~= b);
    }
}

/// The cache format is canonical: a byte string the decoder accepts is
/// exactly the encoding of the mapping it returns, so each mapping has one
/// byte form and everything else is rejected as corrupt.
#[verifier::rlimit(60)]
pub proof fn lemma_cache_canonical(b: Seq<u8>)
    requires
        dec(b) is Some,
    ensures
        mapping_encodable(dec(b)->Some_0),
        enc(dec(b)->Some_0) == b,
{
    let nw = from_le32(b[0], b[1], b[2], b[3]);
    let ms = dec(b)->Some_0;
    lemma_enc_of_dec_entries(b.skip(4), nw as nat);
    assert(ms == dec_entries(b.skip(4), nw as nat)->Some_0);
    assert(ms.len() == nw);
    assert(ms.len() as u32 == nw);
    lemma_le32_roundtrip(0, b[0], b[1], b[2], b[3]);
    assert(le32(nw) =~= seq![b[0], b[1], b[2], b[3]]);
    assert(enc(ms) == le32(nw) + enc_entries(ms));
    assert(le32(nw) + b.skip(4) =~= b);
}

/// Whether some identity occurs twice.
pub(crate) fn find_duplicate(entries: &Vec<CacheEntry>) -> (r: bool)
    ensures
        r <==> !distinct_identities(models_of(entries@)),
{
    let n = entries.len();
    let mut i: usize = 0;
    while i < n
        invariant
            i <= n,
            n == entries@.len(),
            forall|p: int, q: int| 0 <= p < q < i ==> models_of(entries@)[p].0 != models_of(
                entries@,
            )[q].0,
        decreases n - i,
    {
        let mut j: usize = 0;
        while j < i
            invariant
                j <= i < n,
                n == entries@.len(),
                forall|q: int| 0 <= q < j ==> models_of(entries@)[q].0 != models_of(
                    entries@,
                )[i as int].0,
            decreases i - j,
        {
            if bytes_eq(&entries[j].identity, &entries[i].identity) {
                proof {
                    assert(models_of(entries@)[j as int].0 == models_of(entries@)[
                        i as int].0);
                }
                return true;
            }
            j = j + 1;
        }
        i = i + 1;
    }
    false
}

} // verus!
