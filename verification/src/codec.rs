use crate::structs::{Hash256, HASH_SIZE};
use vstd::bytes::*;
use vstd::prelude::*;
use vstd::slice::*;
use vstd::string::*;
use vstd::utf8::*;

verus! {

/// A value with a canonical serialization: the bytes that are hashed,
/// encrypted and stored for it.
pub trait Encode {
    /// The canonical serialization of the value.
    spec fn canon(&self) -> Seq<u8>;

    /// Serializes the value.
    fn to_bytes(&self) -> (bytes: Vec<u8>)
        ensures
            bytes@ == self.canon(),
    ;
}

/// A value that can be read back from its canonical serialization.
pub trait Decode: Encode + Sized {
    /// Whether `bytes` is the serialization of a value.
    spec fn well_formed(bytes: Seq<u8>) -> bool;

    /// Reads a value: it succeeds exactly on a well-formed serialization, and
    /// the value it returns is one that serializes to `bytes`.
    fn from_bytes(bytes: &[u8]) -> (r: Option<Self>)
        ensures
            r is Some <==> Self::well_formed(bytes@),
            r matches Some(v) ==> v.canon() == bytes@,
    ;

    /// What a value serializes to is well-formed, if it is short enough to
    /// be held in memory.
    proof fn lemma_canon_well_formed(&self)
        requires
            self.canon().len() <= usize::MAX,
        ensures
            Self::well_formed(self.canon()),
    ;
}

/// A byte string is its own serialization.
impl Encode for Vec<u8> {
    open spec fn canon(&self) -> Seq<u8> {
        self@
    }

    fn to_bytes(&self) -> (bytes: Vec<u8>) {
        slice_to_vec(self.as_slice())
    }
}

impl Decode for Vec<u8> {
    open spec fn well_formed(bytes: Seq<u8>) -> bool {
        true
    }

    fn from_bytes(bytes: &[u8]) -> (r: Option<Self>) {
        Some(slice_to_vec(bytes))
    }

    proof fn lemma_canon_well_formed(&self) {
    }
}

/// A 32-bit number, least significant byte first.
pub open spec fn le32(x: u32) -> Seq<u8> {
    spec_u32_to_le_bytes(x)
}

/// A 64-bit number, least significant byte first.
pub open spec fn le64(x: u64) -> Seq<u8> {
    spec_u64_to_le_bytes(x)
}

/// A signed 64-bit number in two's complement, least significant byte first.
pub open spec fn le64_signed(x: i64) -> Seq<u8> {
    spec_u64_to_le_bytes(x as u64)
}

/// A byte string behind its length.
pub open spec fn sized(bytes: Seq<u8>) -> Seq<u8> {
    le64(bytes.len() as u64) + bytes
}

/// The 32-bit number that stands at `pos`.
pub open spec fn u32_at(bytes: Seq<u8>, pos: int) -> u32 {
    spec_u32_from_le_bytes(bytes.subrange(pos, pos + 4))
}

/// The 64-bit number that stands at `pos`.
pub open spec fn u64_at(bytes: Seq<u8>, pos: int) -> u64 {
    spec_u64_from_le_bytes(bytes.subrange(pos, pos + 8))
}

/// A number that was written at `pos` is read there again.
pub proof fn lemma_u64_at(before: Seq<u8>, x: u64, after: Seq<u8>)
    ensures
        u64_at(before + le64(x) + after, before.len() as int) == x,
        le64(x).len() == 8,
{
    lemma_auto_spec_u64_to_from_le_bytes();
    let all = before + le64(x) + after;
    assert(all.subrange(before.len() as int, before.len() as int + 8) =~= le64(x));
}

/// A number that was written at `pos` is read there again.
pub proof fn lemma_u32_at(before: Seq<u8>, x: u32, after: Seq<u8>)
    ensures
        u32_at(before + le32(x) + after, before.len() as int) == x,
        le32(x).len() == 4,
{
    lemma_auto_spec_u32_to_from_le_bytes();
    let all = before + le32(x) + after;
    assert(all.subrange(before.len() as int, before.len() as int + 4) =~= le32(x));
}

/// Appends a 32-bit number.
pub fn put_u32(out: &mut Vec<u8>, x: u32)
    ensures
        final(out)@ == old(out)@ + le32(x),
{
    let b = u32_to_le_bytes(x);
    out.extend_from_slice(b.as_slice());
}

/// Appends a 64-bit number.
pub fn put_u64(out: &mut Vec<u8>, x: u64)
    ensures
        final(out)@ == old(out)@ + le64(x),
{
    let b = u64_to_le_bytes(x);
    out.extend_from_slice(b.as_slice());
}

/// Appends a signed 64-bit number.
pub fn put_i64(out: &mut Vec<u8>, x: i64)
    ensures
        final(out)@ == old(out)@ + le64_signed(x),
{
    put_u64(out, x as u64)
}

/// Appends a byte string behind its length.
pub fn put_sized(out: &mut Vec<u8>, bytes: &[u8])
    ensures
        final(out)@ == old(out)@ + sized(bytes@),
{
    put_u64(out, bytes.len() as u64);
    out.extend_from_slice(bytes);
    assert(final(out)@ =~= old(out)@ + sized(bytes@));
}

/// Reads the 32-bit number at `pos`, if the bytes reach that far.
pub fn read_u32(bytes: &[u8], pos: usize) -> (r: Option<u32>)
    ensures
        r is Some <==> pos + 4 <= bytes@.len(),
        r matches Some(x) ==> x == u32_at(bytes@, pos as int) && le32(x) == bytes@.subrange(
            pos as int,
            pos + 4,
        ),
{
    if bytes.len() < 4 || pos > bytes.len() - 4 {
        return None;
    }
    let x = u32_from_le_bytes(slice_subrange(bytes, pos, pos + 4));
    proof {
        lemma_auto_spec_u32_to_from_le_bytes();
    }
    Some(x)
}

/// Reads the 64-bit number at `pos`, if the bytes reach that far.
pub fn read_u64(bytes: &[u8], pos: usize) -> (r: Option<u64>)
    ensures
        r is Some <==> pos + 8 <= bytes@.len(),
        r matches Some(x) ==> x == u64_at(bytes@, pos as int) && le64(x) == bytes@.subrange(
            pos as int,
            pos + 8,
        ),
{
    if bytes.len() < 8 || pos > bytes.len() - 8 {
        return None;
    }
    let x = u64_from_le_bytes(slice_subrange(bytes, pos, pos + 8));
    proof {
        lemma_auto_spec_u64_to_from_le_bytes();
    }
    Some(x)
}

/// `String::from_utf8` of std: the text of `bytes`, where they are valid
/// UTF-8.
#[verifier::external_body]
pub(crate) fn string_from_utf8(bytes: Vec<u8>) -> (r: Option<String>)
    ensures
        r is Some <==> valid_utf8(bytes@),
        r matches Some(text) ==> text@ == decode_utf8(bytes@),
{
    match String::from_utf8(bytes) {
        Ok(text) => Some(text),
        Err(_) => None,
    }
}

/// A text as a byte string behind its length.
pub open spec fn sized_text(text: Seq<char>) -> Seq<u8> {
    sized(encode_utf8(text))
}

/// Appends a text behind its length in bytes.
pub fn put_text(out: &mut Vec<u8>, text: &str)
    ensures
        final(out)@ == old(out)@ + sized_text(text@),
{
    put_sized(out, text.as_bytes());
}

/// Reads the text that fills `bytes` from `pos` to the end, where those
/// bytes are valid UTF-8.
pub fn read_text(bytes: &[u8], pos: usize) -> (r: Option<String>)
    requires
        pos <= bytes@.len(),
    ensures
        r is Some <==> valid_utf8(bytes@.subrange(pos as int, bytes@.len() as int)),
        r matches Some(text) ==> encode_utf8(text@) == bytes@.subrange(
            pos as int,
            bytes@.len() as int,
        ) && text@ == decode_utf8(bytes@.subrange(pos as int, bytes@.len() as int)),
{
    let tail = slice_to_vec(slice_subrange(bytes, pos, bytes.len()));
    proof {
        if valid_utf8(tail@) {
            decode_utf8_encode_utf8(tail@);
        }
    }
    string_from_utf8(tail)
}

/// Whether a byte string behind its length stands at `pos`.
pub open spec fn has_sized(bytes: Seq<u8>, pos: int) -> bool {
    &&& 0 <= pos
    &&& pos + 8 <= bytes.len()
    &&& pos + 8 + u64_at(bytes, pos) <= bytes.len()
}

/// Where the byte string that stands at `pos` ends.
pub open spec fn sized_end(bytes: Seq<u8>, pos: int) -> int {
    pos + 8 + u64_at(bytes, pos)
}

/// Reads the byte string that stands behind its length at `pos`, and tells
/// where it ends.
pub fn read_sized(bytes: &[u8], pos: usize) -> (r: Option<(Vec<u8>, usize)>)
    ensures
        r is Some <==> has_sized(bytes@, pos as int),
        r matches Some((value, end)) ==> end == sized_end(bytes@, pos as int) && sized(value@)
            == bytes@.subrange(pos as int, end as int) && value@.len() == u64_at(
            bytes@,
            pos as int,
        ),
{
    let total = bytes.len();
    let declared = match read_u64(bytes, pos) {
        Some(n) => n,
        None => {
            return None;
        },
    };
    let start = pos + 8;
    if declared > (total - start) as u64 {
        return None;
    }
    let end = start + declared as usize;
    let value = slice_to_vec(slice_subrange(bytes, start, end));
    assert(sized(value@) =~= bytes@.subrange(pos as int, end as int));
    Some((value, end))
}

/// The serialization of a list of hashes, one after the other.
pub open spec fn hashes_flat(hashes: Seq<Hash256>) -> Seq<u8>
    decreases hashes.len(),
{
    if hashes.len() == 0 {
        Seq::empty()
    } else {
        hashes_flat(hashes.drop_last()) + hashes.last()@
    }
}

/// The serialization of a list of hashes: their number, then the hashes.
pub open spec fn hash_list(hashes: Seq<Hash256>) -> Seq<u8> {
    le64(hashes.len() as u64) + hashes_flat(hashes)
}

/// A list of hashes takes 32 bytes for each.
pub proof fn lemma_hashes_flat_len(hashes: Seq<Hash256>)
    ensures
        hashes_flat(hashes).len() == HASH_SIZE * hashes.len(),
    decreases hashes.len(),
{
    if hashes.len() > 0 {
        lemma_hashes_flat_len(hashes.drop_last());
    }
}

/// Appends a list of hashes behind their number.
pub fn put_hash_list(out: &mut Vec<u8>, hashes: &Vec<Hash256>)
    ensures
        final(out)@ == old(out)@ + hash_list(hashes@),
{
    put_u64(out, hashes.len() as u64);
    let mut i: usize = 0;
    while i < hashes.len()
        invariant
            i <= hashes@.len(),
            out@ == old(out)@ + le64(hashes@.len() as u64) + hashes_flat(hashes@.take(i as int)),
        decreases hashes@.len() - i,
    {
        out.extend_from_slice(hashes[i].0.as_slice());
        proof {
            let next = hashes@.take(i + 1);
            assert(next.drop_last() =~= hashes@.take(i as int));
            assert(out@ =~= old(out)@ + le64(hashes@.len() as u64) + hashes_flat(next));
        }
        i += 1;
    }
    assert(hashes@.take(i as int) =~= hashes@);
    assert(final(out)@ =~= old(out)@ + hash_list(hashes@));
}

/// Whether a list of hashes behind their number stands at `pos`.
pub open spec fn has_hash_list(bytes: Seq<u8>, pos: int) -> bool {
    &&& 0 <= pos
    &&& pos + 8 <= bytes.len()
    &&& pos + 8 + HASH_SIZE * u64_at(bytes, pos) <= bytes.len()
}

/// Where the list of hashes that stands at `pos` ends.
pub open spec fn hash_list_end(bytes: Seq<u8>, pos: int) -> int {
    pos + 8 + HASH_SIZE * u64_at(bytes, pos)
}

/// Reads the list of hashes that stands behind their number at `pos`, and
/// tells where it ends.
pub fn read_hash_list(bytes: &[u8], pos: usize) -> (r: Option<(Vec<Hash256>, usize)>)
    ensures
        r is Some <==> has_hash_list(bytes@, pos as int),
        r matches Some((hashes, end)) ==> end == hash_list_end(bytes@, pos as int) && hash_list(
            hashes@,
        ) == bytes@.subrange(pos as int, end as int) && hashes@.len() == u64_at(
            bytes@,
            pos as int,
        ),
{
    let total = bytes.len();
    let declared = match read_u64(bytes, pos) {
        Some(n) => n,
        None => {
            return None;
        },
    };
    let start = pos + 8;
    if declared > ((total - start) / HASH_SIZE) as u64 {
        return None;
    }
    let count = declared as usize;
    let mut hashes: Vec<Hash256> = Vec::new();
    let mut i: usize = 0;
    while i < count
        invariant
            i <= count,
            bytes@.len() == total,
            start + HASH_SIZE * count <= bytes@.len(),
            hashes@.len() == i,
            hashes_flat(hashes@) == bytes@.subrange(start as int, start + HASH_SIZE * i),
        decreases count - i,
    {
        let at = start + HASH_SIZE * i;
        let hash = match Hash256::from_slice(slice_subrange(bytes, at, at + HASH_SIZE)) {
            Some(hash) => hash,
            None => {
                return None;
            },
        };
        let ghost before = hashes@;
        hashes.push(hash);
        proof {
            assert(hashes@.drop_last() =~= before);
            assert(hashes_flat(hashes@) =~= bytes@.subrange(
                start as int,
                start + HASH_SIZE * (i + 1),
            ));
        }
        i += 1;
    }
    let end = start + HASH_SIZE * count;
    assert(hash_list(hashes@) =~= bytes@.subrange(pos as int, end as int));
    Some((hashes, end))
}

/// A byte string that was written behind its length at a position is found
/// there again.
pub proof fn lemma_sized_at(before: Seq<u8>, value: Seq<u8>, after: Seq<u8>)
    requires
        value.len() <= u64::MAX,
    ensures
        sized(value).len() == 8 + value.len(),
        has_sized(before + sized(value) + after, before.len() as int),
        sized_end(before + sized(value) + after, before.len() as int) == before.len() + 8
            + value.len(),
{
    let all = before + sized(value) + after;
    lemma_u64_at(before, value.len() as u64, value + after);
    assert(all =~= before + le64(value.len() as u64) + (value + after));
}

/// A list of hashes that was written behind its number at a position is
/// found there again.
pub proof fn lemma_hash_list_at(before: Seq<u8>, hashes: Seq<Hash256>, after: Seq<u8>)
    requires
        hashes.len() <= u64::MAX,
    ensures
        hash_list(hashes).len() == 8 + HASH_SIZE * hashes.len(),
        has_hash_list(before + hash_list(hashes) + after, before.len() as int),
        hash_list_end(before + hash_list(hashes) + after, before.len() as int) == before.len() + 8
            + HASH_SIZE * hashes.len(),
{
    let all = before + hash_list(hashes) + after;
    lemma_hashes_flat_len(hashes);
    lemma_u64_at(before, hashes.len() as u64, hashes_flat(hashes) + after);
    assert(all =~= before + le64(hashes.len() as u64) + (hashes_flat(hashes) + after));
}

/// The serialization of a list of texts, each behind its length, one after
/// the other.
pub open spec fn texts_flat(texts: Seq<Seq<char>>) -> Seq<u8>
    decreases texts.len(),
{
    if texts.len() == 0 {
        Seq::empty()
    } else {
        texts_flat(texts.drop_last()) + sized_text(texts.last())
    }
}

/// The serialization of a list of texts: their number, then the texts.
pub open spec fn text_list(texts: Seq<Seq<char>>) -> Seq<u8> {
    le64(texts.len() as u64) + texts_flat(texts)
}

/// Appends a list of texts behind their number.
pub fn put_text_list(out: &mut Vec<u8>, texts: &Vec<String>)
    ensures
        final(out)@ == old(out)@ + text_list(texts.deep_view()),
{
    put_u64(out, texts.len() as u64);
    let ghost all = texts.deep_view();
    let mut i: usize = 0;
    while i < texts.len()
        invariant
            i <= texts@.len(),
            all == texts.deep_view(),
            all.len() == texts@.len(),
            out@ == old(out)@ + le64(texts@.len() as u64) + texts_flat(all.take(i as int)),
        decreases texts@.len() - i,
    {
        put_text(out, texts[i].as_str());
        proof {
            let next = all.take(i + 1);
            assert(next.drop_last() =~= all.take(i as int));
            assert(next.last() == texts@[i as int]@);
            assert(out@ =~= old(out)@ + le64(texts@.len() as u64) + texts_flat(next));
        }
        i += 1;
    }
    assert(all.take(i as int) =~= all);
    assert(final(out)@ =~= old(out)@ + text_list(all));
}

/// Whether a text behind its length stands at `pos`.
pub open spec fn has_sized_text(bytes: Seq<u8>, pos: int) -> bool {
    &&& has_sized(bytes, pos)
    &&& valid_utf8(bytes.subrange(pos + 8, sized_end(bytes, pos)))
}

/// Reads the text that stands behind its length at `pos`, and tells where it
/// ends.
pub fn read_sized_text(bytes: &[u8], pos: usize) -> (r: Option<(String, usize)>)
    ensures
        r is Some <==> has_sized_text(bytes@, pos as int),
        r matches Some((text, end)) ==> end == sized_end(bytes@, pos as int) && sized_text(text@)
            == bytes@.subrange(pos as int, end as int),
{
    let (raw, end) = match read_sized(bytes, pos) {
        Some(x) => x,
        None => {
            return None;
        },
    };
    proof {
        let field = bytes@.subrange(pos as int + 8, end as int);
        lemma_auto_spec_u64_to_from_le_bytes();
        assert(sized(raw@).subrange(8, sized(raw@).len() as int) =~= raw@);
        assert(bytes@.subrange(pos as int, end as int).subrange(8, end - pos) =~= field);
        assert(raw@ == field);
        if valid_utf8(raw@) {
            decode_utf8_encode_utf8(raw@);
        }
    }
    match string_from_utf8(raw) {
        Some(text) => Some((text, end)),
        None => None,
    }
}

/// A text that was written behind its length at a position is found there
/// again.
pub proof fn lemma_sized_text_at(before: Seq<u8>, text: Seq<char>, after: Seq<u8>)
    requires
        encode_utf8(text).len() <= u64::MAX,
    ensures
        has_sized_text(before + sized_text(text) + after, before.len() as int),
        sized_end(before + sized_text(text) + after, before.len() as int) == before.len() + 8
            + encode_utf8(text).len(),
        sized_text(text).len() == 8 + encode_utf8(text).len(),
{
    let raw = encode_utf8(text);
    let all = before + sized_text(text) + after;
    lemma_sized_at(before, raw, after);
    encode_utf8_valid_utf8(text);
    assert(all.subrange(before.len() as int + 8, before.len() as int + 8 + raw.len()) =~= raw);
}

/// Two byte strings that are equal and begin with parts of the same length
/// have the same parts.
pub proof fn lemma_cut(a1: Seq<u8>, r1: Seq<u8>, a2: Seq<u8>, r2: Seq<u8>)
    requires
        a1 + r1 == a2 + r2,
        a1.len() == a2.len(),
    ensures
        a1 == a2,
        r1 == r2,
{
    let all = a1 + r1;
    let n = a1.len() as int;
    assert(a1 =~= all.subrange(0, n));
    assert(a2 =~= (a2 + r2).subrange(0, n));
    assert(r1 =~= all.subrange(n, all.len() as int));
    assert(r2 =~= (a2 + r2).subrange(n, all.len() as int));
}

/// Byte strings that begin with a 64-bit number and are equal begin with
/// the same number and go on in the same way.
pub proof fn lemma_le64_cut(x1: u64, r1: Seq<u8>, x2: u64, r2: Seq<u8>)
    requires
        le64(x1) + r1 == le64(x2) + r2,
    ensures
        x1 == x2,
        r1 == r2,
{
    lemma_u64_at(Seq::empty(), x1, Seq::empty());
    lemma_u64_at(Seq::empty(), x2, Seq::empty());
    lemma_cut(le64(x1), r1, le64(x2), r2);
    lemma_auto_spec_u64_to_from_le_bytes();
}

/// Byte strings that begin with a 32-bit number and are equal begin with
/// the same number and go on in the same way.
pub proof fn lemma_le32_cut(x1: u32, r1: Seq<u8>, x2: u32, r2: Seq<u8>)
    requires
        le32(x1) + r1 == le32(x2) + r2,
    ensures
        x1 == x2,
        r1 == r2,
{
    lemma_u32_at(Seq::empty(), x1, Seq::empty());
    lemma_u32_at(Seq::empty(), x2, Seq::empty());
    lemma_cut(le32(x1), r1, le32(x2), r2);
    lemma_auto_spec_u32_to_from_le_bytes();
}

/// Byte strings that begin with a text behind its length and are equal
/// begin with the same text and go on in the same way.
pub proof fn lemma_sized_text_cut(t1: Seq<char>, r1: Seq<u8>, t2: Seq<char>, r2: Seq<u8>)
    requires
        encode_utf8(t1).len() <= u64::MAX,
        encode_utf8(t2).len() <= u64::MAX,
        sized_text(t1) + r1 == sized_text(t2) + r2,
    ensures
        t1 == t2,
        r1 == r2,
{
    let u1 = encode_utf8(t1);
    let u2 = encode_utf8(t2);
    assert(sized_text(t1) + r1 =~= le64(u1.len() as u64) + (u1 + r1));
    assert(sized_text(t2) + r2 =~= le64(u2.len() as u64) + (u2 + r2));
    lemma_le64_cut(u1.len() as u64, u1 + r1, u2.len() as u64, u2 + r2);
    lemma_cut(u1, r1, u2, r2);
    encode_utf8_decode_utf8(t1);
    encode_utf8_decode_utf8(t2);
}

/// The serialization of texts one after the other begins with the first
/// text.
pub proof fn lemma_texts_flat_front(texts: Seq<Seq<char>>)
    requires
        texts.len() > 0,
    ensures
        texts_flat(texts) == sized_text(texts[0]) + texts_flat(texts.drop_first()),
    decreases texts.len(),
{
    if texts.len() == 1 {
        assert(texts.drop_last() =~= Seq::<Seq<char>>::empty());
        assert(texts.drop_first() =~= Seq::<Seq<char>>::empty());
        assert(texts_flat(texts.drop_last()) =~= Seq::<u8>::empty());
        assert(texts_flat(texts) =~= sized_text(texts[0]) + texts_flat(texts.drop_first()));
    } else {
        let front = texts.drop_last();
        let back = texts.drop_first();
        lemma_texts_flat_front(front);
        assert(front.drop_first() =~= back.drop_last());
        assert(back.last() == texts.last());
        assert(front[0] == texts[0]);
        assert(texts_flat(back) == texts_flat(back.drop_last()) + sized_text(back.last()));
        assert(texts_flat(texts) =~= sized_text(texts[0]) + texts_flat(back));
    }
}

/// Whether each of the texts is short enough for its length to be written.
pub open spec fn texts_fit(texts: Seq<Seq<char>>) -> bool {
    forall|i: int| 0 <= i < texts.len() ==> encode_utf8(#[trigger] texts[i]).len() <= u64::MAX
}

/// Byte strings that begin with as many texts, each behind its length, and
/// are equal begin with the same texts and go on in the same way.
pub proof fn lemma_texts_flat_cut(
    l1: Seq<Seq<char>>,
    r1: Seq<u8>,
    l2: Seq<Seq<char>>,
    r2: Seq<u8>,
)
    requires
        l1.len() == l2.len(),
        texts_fit(l1),
        texts_fit(l2),
        texts_flat(l1) + r1 == texts_flat(l2) + r2,
    ensures
        l1 == l2,
        r1 == r2,
    decreases l1.len(),
{
    if l1.len() == 0 {
        assert(l1 =~= l2);
        assert(texts_flat(l1) + r1 =~= r1);
        assert(texts_flat(l2) + r2 =~= r2);
    } else {
        let f1 = l1.drop_first();
        let f2 = l2.drop_first();
        lemma_texts_flat_front(l1);
        lemma_texts_flat_front(l2);
        assert(texts_flat(l1) + r1 =~= sized_text(l1[0]) + (texts_flat(f1) + r1));
        assert(texts_flat(l2) + r2 =~= sized_text(l2[0]) + (texts_flat(f2) + r2));
        lemma_sized_text_cut(l1[0], texts_flat(f1) + r1, l2[0], texts_flat(f2) + r2);
        assert forall|i: int| 0 <= i < f1.len() implies encode_utf8(#[trigger] f1[i]).len()
            <= u64::MAX by {
            assert(f1[i] == l1[i + 1]);
        }
        assert forall|i: int| 0 <= i < f2.len() implies encode_utf8(#[trigger] f2[i]).len()
            <= u64::MAX by {
            assert(f2[i] == l2[i + 1]);
        }
        lemma_texts_flat_cut(f1, r1, f2, r2);
        assert(l1 =~= seq![l1[0]] + f1);
        assert(l2 =~= seq![l2[0]] + f2);
    }
}

/// Byte strings that begin with a list of texts and are equal begin with
/// the same list and go on in the same way.
pub proof fn lemma_text_list_cut(l1: Seq<Seq<char>>, r1: Seq<u8>, l2: Seq<Seq<char>>, r2: Seq<u8>)
    requires
        l1.len() <= u64::MAX,
        l2.len() <= u64::MAX,
        texts_fit(l1),
        texts_fit(l2),
        text_list(l1) + r1 == text_list(l2) + r2,
    ensures
        l1 == l2,
        r1 == r2,
{
    assert(text_list(l1) + r1 =~= le64(l1.len() as u64) + (texts_flat(l1) + r1));
    assert(text_list(l2) + r2 =~= le64(l2.len() as u64) + (texts_flat(l2) + r2));
    lemma_le64_cut(l1.len() as u64, texts_flat(l1) + r1, l2.len() as u64, texts_flat(l2) + r2);
    lemma_texts_flat_cut(l1, r1, l2, r2);
}

} // verus!
