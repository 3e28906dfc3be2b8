//! The framing of the record store. A record is the header byte, one byte
//! that holds the length of the tag, the tag, four little-endian bytes that
//! hold the length of the payload with its footer counted in, the payload
//! and the footer byte. The store is its records, one after another.

use crate::bytes::{
    get_u32_le, lemma_u32_le_bytes_roundtrip, lemma_u32_le_roundtrip, mk_u32_le, u32_from_le,
    u32_to_le,
};
use crate::entry::{all_wf, Entry, EntryView};
use crate::text::{append_bytes, copy_range};
use vstd::prelude::*;

verus! {

/// The byte that begins a record.
pub const HEADER: u8 = 0x7E;

/// The byte that ends a record.
pub const FOOTER: u8 = 0x7B;

/// Why a buffer is no record store. Nothing is decoded from such a buffer.
#[derive(Debug, Clone, Copy, PartialEq, Eq, Structural)]
pub enum FormatError {
    /// The byte at `position`, where a record begins, is not the header.
    InvalidHeader { position: usize },
    /// The byte at `position`, the last that the stored length counts, is
    /// not the footer. A stored length of zero counts no byte: it is
    /// reported at the last byte of the length itself.
    InvalidFooter { position: usize },
    /// The buffer ends inside the record that begins at `position`.
    UnexpectedEnd { position: usize },
}

/// The record that begins at `pos`, and where the next one begins.
pub open spec fn parse_record(buf: Seq<u8>, pos: int) -> Result<(EntryView, int), FormatError>
    recommends
        0 <= pos < buf.len(),
{
    if buf[pos] != HEADER {
        Err(FormatError::InvalidHeader { position: pos as usize })
    } else if pos + 2 > buf.len() {
        Err(FormatError::UnexpectedEnd { position: pos as usize })
    } else {
        let length_at = pos + 2 + buf[pos + 1];
        if length_at + 4 > buf.len() {
            Err(FormatError::UnexpectedEnd { position: pos as usize })
        } else {
            let data_at = length_at + 4;
            let footer_at = data_at + u32_from_le(buf.subrange(length_at, data_at)) - 1;
            if footer_at >= buf.len() {
                Err(FormatError::UnexpectedEnd { position: pos as usize })
            } else if buf[footer_at] != FOOTER {
                Err(FormatError::InvalidFooter { position: footer_at as usize })
            } else {
                Ok(
                    (
                        EntryView {
                            tag: buf.subrange(pos + 2, length_at),
                            data: buf.subrange(data_at, footer_at),
                        },
                        footer_at + 1,
                    ),
                )
            }
        }
    }
}

/// The records from `pos` to the end of the buffer, or the first error.
pub open spec fn decode_from(buf: Seq<u8>, pos: int) -> Result<Seq<EntryView>, FormatError>
    recommends
        0 <= pos,
    decreases buf.len() - pos,
{
    if pos < 0 || pos >= buf.len() {
        Ok(Seq::empty())
    } else {
        match parse_record(buf, pos) {
            Err(e) => Err(e),
            Ok((entry, next)) => match decode_from(buf, next) {
                Err(e) => Err(e),
                Ok(rest) => Ok(seq![entry] + rest),
            },
        }
    }
}

/// The records that `buf` holds, or the first error in it.
pub open spec fn decode(buf: Seq<u8>) -> Result<Seq<EntryView>, FormatError> {
    decode_from(buf, 0)
}

/// The bytes of one record.
pub open spec fn encode_record(e: EntryView) -> Seq<u8> {
    seq![HEADER, e.tag.len() as u8] + e.tag + u32_to_le((e.data.len() + 1) as nat) + e.data
        + seq![FOOTER]
}

/// The bytes of the records, one after another.
pub open spec fn encode(entries: Seq<EntryView>) -> Seq<u8>
    decreases entries.len(),
{
    if entries.len() == 0 {
        Seq::empty()
    } else {
        encode_record(entries[0]) + encode(entries.skip(1))
    }
}

/// The views of decoded records, as `decode` gives them.
pub open spec fn decoded(res: Result<Vec<Entry>, FormatError>) -> Result<
    Seq<EntryView>,
    FormatError,
> {
    match res {
        Ok(entries) => Ok(entries.deep_view()),
        Err(e) => Err(e),
    }
}

/// `done`, followed by what the rest of a buffer decodes to.
pub open spec fn followed_by(
    done: Seq<EntryView>,
    rest: Result<Seq<EntryView>, FormatError>,
) -> Result<Seq<EntryView>, FormatError> {
    match rest {
        Ok(more) => Ok(done + more),
        Err(e) => Err(e),
    }
}

/// A record that was parsed is well formed, lies inside the buffer, and its
/// bytes are those between its beginning and the next record's.
pub proof fn lemma_parse_record(buf: Seq<u8>, pos: int)
    requires
        0 <= pos < buf.len(),
        parse_record(buf, pos) is Ok,
    ensures
        ({
            let (entry, next) = parse_record(buf, pos)->Ok_0;
            &&& pos < next <= buf.len()
            &&& entry.wf()
            &&& encode_record(entry) == buf.subrange(pos, next)
        }),
{
    let (entry, next) = parse_record(buf, pos)->Ok_0;
    let length_at = pos + 2 + buf[pos + 1];
    let data_at = length_at + 4;
    let field = buf.subrange(length_at, data_at);
    let stored = u32_from_le(field);
    lemma_u32_le_bytes_roundtrip(field);
    assert(stored >= 1) by {
        if stored == 0 {
            assert(field[3] == 0);
            assert(buf[data_at - 1] == field[3]);
        }
    }
    assert(entry.data.len() + 1 == stored);
    assert(encode_record(entry) =~= buf.subrange(pos, next));
}

/// The bytes of a well-formed record, wherever they stand in a buffer, are
/// parsed as that record.
pub proof fn lemma_parse_encoded(before: Seq<u8>, e: EntryView, after: Seq<u8>)
    requires
        e.wf(),
    ensures
        parse_record(before + encode_record(e) + after, before.len() as int) == Ok::<
            (EntryView, int),
            FormatError,
        >((e, (before.len() + encode_record(e).len()) as int)),
{
    let buf = before + encode_record(e) + after;
    let pos = before.len() as int;
    let rec = encode_record(e);
    let n = (e.data.len() + 1) as nat;
    lemma_u32_le_roundtrip(n);
    assert(rec.len() == 2 + e.tag.len() + 4 + e.data.len() + 1);
    assert forall|k: int| 0 <= k < rec.len() implies buf[pos + k] == rec[k] by {}
    assert(buf[pos] == rec[0]);
    assert(buf[pos + 1] == rec[1]);
    let length_at = pos + 2 + e.tag.len();
    let data_at = length_at + 4;
    assert(buf.subrange(length_at, data_at) =~= u32_to_le(n)) by {
        assert forall|k: int| 0 <= k < 4 implies buf.subrange(length_at, data_at)[k] == u32_to_le(
            n,
        )[k] by {
            assert(buf[pos + (2 + e.tag.len() + k)] == rec[2 + e.tag.len() + k]);
        }
    }
    let footer_at = data_at + n - 1;
    assert(buf[pos + (rec.len() - 1)] == rec[rec.len() - 1]);
    assert(buf.subrange(pos + 2, length_at) =~= e.tag) by {
        assert forall|k: int| 0 <= k < e.tag.len() implies buf.subrange(pos + 2, length_at)[k]
            == e.tag[k] by {
            assert(buf[pos + (2 + k)] == rec[2 + k]);
        }
    }
    assert(buf.subrange(data_at, footer_at) =~= e.data) by {
        assert forall|k: int| 0 <= k < e.data.len() implies buf.subrange(data_at, footer_at)[k]
            == e.data[k] by {
            assert(buf[pos + (2 + e.tag.len() + 4 + k)] == rec[2 + e.tag.len() + 4 + k]);
        }
    }
}

/// Records that were decoded are well formed, and encoding them gives back
/// the bytes they were decoded from.
pub proof fn lemma_decode_from(buf: Seq<u8>, pos: int)
    requires
        0 <= pos <= buf.len(),
        decode_from(buf, pos) is Ok,
    ensures
        all_wf(decode_from(buf, pos)->Ok_0),
        encode(decode_from(buf, pos)->Ok_0) == buf.subrange(pos, buf.len() as int),
    decreases buf.len() - pos,
{
    let entries = decode_from(buf, pos)->Ok_0;
    if pos < buf.len() {
        let (entry, next) = parse_record(buf, pos)->Ok_0;
        lemma_parse_record(buf, pos);
        lemma_decode_from(buf, next);
        let rest = decode_from(buf, next)->Ok_0;
        assert(entries == seq![entry] + rest);
        assert(entries.skip(1) =~= rest);
        assert(encode(entries) =~= buf.subrange(pos, buf.len() as int));
    } else {
        assert(encode(entries) =~= buf.subrange(pos, buf.len() as int));
    }
}

/// Encoding the records that a buffer decodes to gives back the buffer.
pub proof fn lemma_decode_encode(buf: Seq<u8>)
    requires
        decode(buf) is Ok,
    ensures
        encode(decode(buf)->Ok_0) == buf,
{
    lemma_decode_from(buf, 0);
    assert(buf.subrange(0, buf.len() as int) =~= buf);
}

/// The records that a buffer decodes to are well formed.
pub proof fn lemma_decoded_wf(buf: Seq<u8>)
    requires
        decode(buf) is Ok,
    ensures
        all_wf(decode(buf)->Ok_0),
{
    lemma_decode_from(buf, 0);
}

/// The records after the first of well-formed records are well formed.
proof fn lemma_all_wf_skip(entries: Seq<EntryView>)
    requires
        all_wf(entries),
        entries.len() > 0,
    ensures
        entries[0].wf(),
        all_wf(entries.skip(1)),
{
    let rest = entries.skip(1);
    assert forall|i: int| 0 <= i < rest.len() implies (#[trigger] rest[i]).wf() by {
        assert(rest[i] == entries[i + 1]);
    }
}

/// Well-formed records that stand encoded at the end of a buffer are decoded
/// from there as they are.
pub proof fn lemma_decode_encoded_from(before: Seq<u8>, entries: Seq<EntryView>)
    requires
        all_wf(entries),
    ensures
        decode_from(before + encode(entries), before.len() as int) == Ok::<
            Seq<EntryView>,
            FormatError,
        >(entries),
    decreases entries.len(),
{
    let buf = before + encode(entries);
    let pos = before.len() as int;
    if entries.len() == 0 {
        assert(encode(entries).len() == 0);
        assert(decode_from(buf, pos) == Ok::<Seq<EntryView>, FormatError>(Seq::empty()));
        assert(entries =~= Seq::<EntryView>::empty());
    } else {
        let first = entries[0];
        let rest = entries.skip(1);
        let middle = before + encode_record(first);
        lemma_all_wf_skip(entries);
        assert(buf == middle + encode(rest)) by {
            assert(encode(entries) == encode_record(first) + encode(rest));
            assert(buf =~= middle + encode(rest));
        }
        let next = middle.len() as int;
        assert(parse_record(buf, pos) == Ok::<(EntryView, int), FormatError>((first, next))) by {
            lemma_parse_encoded(before, first, encode(rest));
        }
        assert(decode_from(buf, next) == Ok::<Seq<EntryView>, FormatError>(rest)) by {
            lemma_decode_encoded_from(middle, rest);
        }
        assert(pos < buf.len()) by {
            assert(encode_record(first).len() > 0);
        }
        assert(decode_from(buf, pos) == Ok::<Seq<EntryView>, FormatError>(seq![first] + rest));
        assert(seq![first] + rest =~= entries);
    }
}

/// Decoding the bytes that well-formed records encode to gives back the
/// records.
pub proof fn lemma_encode_decode(entries: Seq<EntryView>)
    requires
        all_wf(entries),
    ensures
        decode(encode(entries)) == Ok::<Seq<EntryView>, FormatError>(entries),
{
    lemma_decode_encoded_from(Seq::empty(), entries);
    assert(Seq::<u8>::empty() + encode(entries) =~= encode(entries));
}

/// Encoding adds the bytes of a record at the end for a record at the end.
pub proof fn lemma_encode_push(entries: Seq<EntryView>, e: EntryView)
    ensures
        encode(entries.push(e)) == encode(entries) + encode_record(e),
    decreases entries.len(),
{
    if entries.len() == 0 {
        assert(entries.push(e).skip(1) =~= Seq::<EntryView>::empty());
        assert(encode(entries.push(e).skip(1)) =~= Seq::<u8>::empty());
        assert(encode(entries.push(e)) =~= encode(entries) + encode_record(e));
    } else {
        lemma_encode_push(entries.skip(1), e);
        assert(entries.push(e).skip(1) =~= entries.skip(1).push(e));
        assert(encode(entries.push(e)) =~= encode(entries) + encode_record(e));
    }
}

/// Reads `len` bytes of text from `buf` at `*idx` and moves `*idx` past them.
pub fn get_string(buf: &Vec<u8>, idx: &mut usize, len: u32) -> (res: Vec<u8>)
    requires
        *old(idx) + len <= buf.len(),
    ensures
        res@ == buf@.subrange(*old(idx) as int, *old(idx) + len),
        *final(idx) == *old(idx) + len,
{
    let from: usize = *idx;
    let to: usize = from + len as usize;
    *idx = to;
    copy_range(buf.as_slice(), from, to)
}

/// Reads the record that begins at `pos`.
fn read_entry(buf: &Vec<u8>, pos: usize) -> (res: Result<(Entry, usize), FormatError>)
    requires
        pos < buf.len(),
    ensures
        match res {
            Ok((entry, next)) => parse_record(buf@, pos as int) == Ok::<
                (EntryView, int),
                FormatError,
            >((entry@, next as int)),
            Err(e) => parse_record(buf@, pos as int) == Err::<(EntryView, int), FormatError>(e),
        },
{
    let n: usize = buf.len();
    if buf[pos] != HEADER {
        return Err(FormatError::InvalidHeader { position: pos });
    }
    if n - pos < 2 {
        return Err(FormatError::UnexpectedEnd { position: pos });
    }
    let tag_length: u8 = buf[pos + 1];
    if n - pos - 2 < tag_length as usize || n - pos - 2 - (tag_length as usize) < 4 {
        return Err(FormatError::UnexpectedEnd { position: pos });
    }
    let mut i: usize = pos + 2;
    let tag = get_string(buf, &mut i, tag_length as u32);
    let ghost length_at = i as int;
    let data_length: u32 = get_u32_le(buf, &mut i);
    let ghost field = buf@.subrange(length_at, length_at + 4);
    if data_length == 0 {
        proof {
            lemma_u32_le_bytes_roundtrip(field);
            assert(field[3] == 0);
            assert(buf@[i - 1] == field[3]);
        }
        return Err(FormatError::InvalidFooter { position: i - 1 });
    }
    if n - i < data_length as usize {
        return Err(FormatError::UnexpectedEnd { position: pos });
    }
    let data = get_string(buf, &mut i, data_length - 1);
    if buf[i] != FOOTER {
        return Err(FormatError::InvalidFooter { position: i });
    }
    Ok((Entry { tag, data }, i + 1))
}

/// Decodes a record store. The records come in the order in which they
/// stand in the buffer; a buffer that is malformed anywhere gives the first
/// error and no record.
pub fn generate_entries(file_contents: Vec<u8>) -> (res: Result<Vec<Entry>, FormatError>)
    ensures
        decoded(res) == decode(file_contents@),
        res matches Ok(entries) ==> all_wf(entries.deep_view()),
{
    let mut result: Vec<Entry> = Vec::new();
    let mut i: usize = 0;
    assert(followed_by(result.deep_view(), decode_from(file_contents@, 0)) == decode(
        file_contents@,
    )) by {
        if decode(file_contents@) is Ok {
            assert(result.deep_view() + decode(file_contents@)->Ok_0 =~= decode(
                file_contents@,
            )->Ok_0);
        }
    }
    while i < file_contents.len()
        invariant
            i <= file_contents.len(),
            followed_by(result.deep_view(), decode_from(file_contents@, i as int)) == decode(
                file_contents@,
            ),
        decreases file_contents.len() - i,
    {
        let ghost done = result.deep_view();
        match read_entry(&file_contents, i) {
            Err(e) => {
                return Err(e);
            },
            Ok((entry, next)) => {
                proof {
                    lemma_parse_record(file_contents@, i as int);
                    let rest = decode_from(file_contents@, next as int);
                    if rest is Ok {
                        assert(done + (seq![entry@] + rest->Ok_0) =~= done.push(entry@)
                            + rest->Ok_0);
                    }
                }
                result.push(entry);
                assert(result.deep_view() =~= done.push(entry@));
                i = next;
            },
        }
    }
    proof {
        assert(result.deep_view() + Seq::<EntryView>::empty() =~= result.deep_view());
        lemma_decoded_wf(file_contents@);
    }
    Ok(result)
}

/// Appends the bytes of one record to `out`.
fn encode_entry(out: &mut Vec<u8>, e: &Entry)
    requires
        e@.wf(),
    ensures
        final(out)@ == old(out)@ + encode_record(e@),
{
    out.push(HEADER);
    out.push(e.tag.len() as u8);
    append_bytes(out, e.tag.as_slice());
    let stored: usize = e.data.len() + 1;
    let field = mk_u32_le(&stored);
    append_bytes(out, field.as_slice());
    append_bytes(out, e.data.as_slice());
    out.push(FOOTER);
    assert(out@ =~= old(out)@ + encode_record(e@));
}

/// Encodes records as a record store.
pub fn encode_entries(entries: &Vec<Entry>) -> (res: Vec<u8>)
    requires
        all_wf(entries.deep_view()),
    ensures
        res@ == encode(entries.deep_view()),
{
    let mut res: Vec<u8> = Vec::new();
    let mut i: usize = 0;
    while i < entries.len()
        invariant
            i <= entries.len(),
            all_wf(entries.deep_view()),
            res@ == encode(entries.deep_view().subrange(0, i as int)),
        decreases entries.len() - i,
    {
        proof {
            let done = entries.deep_view().subrange(0, i as int);
            lemma_encode_push(done, entries[i as int]@);
            assert(done.push(entries[i as int]@) =~= entries.deep_view().subrange(0, i + 1));
            assert(entries.deep_view()[i as int].wf());
        }
        encode_entry(&mut res, &entries[i]);
        i += 1;
    }
    assert(entries.deep_view().subrange(0, entries.len() as int) =~= entries.deep_view());
    res
}

} // verus!
