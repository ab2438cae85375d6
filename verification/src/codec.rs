//! The line format of digest records: `lzjd:<name>:<digest text>`.
//!
//! A line is read by its bytes. It begins with the five bytes of `lzjd:`;
//! the name starts behind them and ends before the last `:` of the line, so
//! a name may itself hold a `:`.

use crate::digest::digest_entries;
use crate::digest::digest_from_text;
use crate::digest::digest_to_text;
use crate::digest::entries_of_text;
use crate::digest::is_base64_char;
use crate::digest::is_base64_text;
use crate::digest::record_views;
use crate::digest::text_of_entries;
use crate::digest::DigestRecord;
use crate::digest::RecordView;
use crate::error::Error;
use crate::error::ParseFault;
use crate::score::score_of;
use crate::text::trim_text;
use crate::text::trimmed;
use malwaredb_lzjd::LZDict;
use malwaredb_lzjd::LZJDError;
use vstd::prelude::*;
use vstd::string::StringExecFns;
use vstd::string::StringSliceAdditionalSpecFns;
use vstd::utf8::decode_utf8;
use vstd::utf8::encode_utf8;
use vstd::utf8::encode_utf8_decode_utf8;
use vstd::utf8::encode_utf8_first_scalar;
use vstd::utf8::encode_utf8_valid_utf8;
use vstd::utf8::is_char_boundary;
use vstd::utf8::is_ascii_chars;
use vstd::utf8::is_ascii_chars_encode_utf8;
use vstd::utf8::is_char_boundary_iff_not_is_continuation_byte;
use vstd::utf8::valid_utf8;

verus! {

/// The number of bytes in front of the name.
pub const PREFIX_LEN: usize = 5;

/// The byte `:`.
pub const SEPARATOR: u8 = 58;

/// The text `lzjd:`.
pub open spec fn prefix() -> Seq<char> {
    seq!['l', 'z', 'j', 'd', ':']
}

/// The bytes of `lzjd:`.
pub open spec fn prefix_bytes() -> Seq<u8> {
    seq![108u8, 122u8, 106u8, 100u8, 58u8]
}

/// Whether a line, given by its bytes, begins with `lzjd:`.
pub open spec fn has_prefix(bytes: Seq<u8>) -> bool {
    bytes.len() >= PREFIX_LEN && bytes.subrange(0, PREFIX_LEN as int) == prefix_bytes()
}

/// The line for a name and the text of a digest.
pub open spec fn record_line(name: Seq<char>, payload: Seq<char>) -> Seq<char> {
    prefix() + name + seq![':'] + payload
}

/// Where the name ends: the index of the last `:` among the bytes of a
/// line, if the line begins with `lzjd:` and that `:` lies behind at least
/// one byte of a name.
pub open spec fn name_end(bytes: Seq<u8>) -> Option<int> {
    match bytes.index_of_last(SEPARATOR) {
        Some(at) => if at > PREFIX_LEN && has_prefix(bytes) {
            Some(at)
        } else {
            None
        },
        None => None,
    }
}

/// The name and the digest text of a line, or `None` where the line has no
/// name.
pub open spec fn split_text(line: Seq<char>) -> Option<(Seq<char>, Seq<char>)> {
    let bytes = encode_utf8(line);
    match name_end(bytes) {
        Some(at) => Some(
            (
                decode_utf8(bytes.subrange(PREFIX_LEN as int, at)),
                decode_utf8(bytes.subrange(at + 1, bytes.len() as int)),
            ),
        ),
        None => None,
    }
}

/// The record that a line stands for, or the reason why it stands for none.
pub open spec fn decode_text(line: Seq<char>) -> Result<RecordView, ParseFault> {
    match split_text(line) {
        None => Err(ParseFault::Name),
        Some((name, payload)) => match entries_of_text(payload) {
            None => Err(ParseFault::Payload),
            Some(entries) => Ok(RecordView { name, entries }),
        },
    }
}

/// What it means that a line is read back as the record it was written for:
/// the line splits into the record's name and the text of its digest, it
/// stands for a record of that name whose digest is what `malwaredb_lzjd`
/// reads from that text, and trimming leaves the line as it is.
pub open spec fn is_read_back(line: Seq<char>, record: RecordView) -> bool {
    &&& trimmed(line) == line
    &&& split_text(line) == Some((record.name, text_of_entries(record.entries)))
    &&& decode_text(line) matches Ok(read)
    &&& read.name == record.name
    &&& Some(read.entries) == entries_of_text(text_of_entries(record.entries))
}

/// The texts of a list of lines.
pub open spec fn line_views(lines: Seq<String>) -> Seq<Seq<char>> {
    lines.map_values(|line: String| line@)
}

/// The records that a list of lines stands for. Each line is trimmed; a line
/// that is then empty is skipped; the first line that stands for no record
/// fails the whole list.
pub open spec fn decode_all(lines: Seq<Seq<char>>) -> Result<Seq<RecordView>, Error>
    decreases lines.len(),
{
    if lines.len() == 0 {
        Ok(Seq::empty())
    } else {
        let inner = trimmed(lines.last());
        match decode_all(lines.drop_last()) {
            Err(e) => Err(e),
            Ok(records) => if inner.len() == 0 {
                Ok(records)
            } else {
                match decode_text(inner) {
                    Ok(record) => Ok(records.push(record)),
                    Err(fault) => Err(Error::Parse { line: lines.len() as usize, fault }),
                }
            },
        }
    }
}

// Writing and reading.

/// Writes the line for a name and the text of a digest, without a line
/// terminator.
pub fn encode_line(name: &str, payload: &str) -> (line: String)
    ensures
        line@ == record_line(name@, payload@),
{
    proof {
        reveal_strlit("lzjd:");
        reveal_strlit(":");
    }
    let mut line = String::from_str("lzjd:");
    line.append(name);
    line.append(":");
    line.append(payload);
    assert(line@ =~= record_line(name@, payload@));
    line
}

/// Writes the line of a record, without a line terminator.
///
/// The text of the digest is made of base64 characters, so it holds no line
/// break. The line is read back by [`decode_line`] as a record of the same
/// name, with the digest that `malwaredb_lzjd` reads from the text that it
/// wrote; trimming does not change the line.
pub fn encode_record(record: &DigestRecord) -> (line: String)
    ensures
        line@ == record_line(record@.name, text_of_entries(record@.entries)),
        is_base64_text(text_of_entries(record@.entries)),
        is_read_back(line@, record@),
{
    let name = record.name();
    let payload = digest_to_text(record.digest());
    let line = encode_line(name.as_str(), payload.as_str());
    proof {
        lemma_split_of_record_line(name@, payload@);
        lemma_record_line_is_trimmed(name@, payload@);
    }
    line
}

/// Writes the lines of a list of records, one for each record and in the
/// order of the records.
///
/// The text of each digest is made of base64 characters, so it holds no
/// line break. The lines are read back by [`decode_lines`] as records of the
/// same names, in the same order.
pub fn encode_records(records: &Vec<DigestRecord>) -> (lines: Vec<String>)
    ensures
        lines.len() == records.len(),
        forall|i: int|
            0 <= i < records.len() ==> (#[trigger] lines[i])@ == record_line(
                records[i]@.name,
                text_of_entries(records[i]@.entries),
            ),
        forall|i: int|
            0 <= i < records.len() ==> is_base64_text(
                text_of_entries((#[trigger] records[i])@.entries),
            ),
        decode_all(line_views(lines@)) matches Ok(read) && read.len() == records.len()
            && forall|i: int|
            0 <= i < records.len() ==> read[i].name == (#[trigger] records[i])@.name && Some(
                read[i].entries,
            ) == entries_of_text(text_of_entries(records[i]@.entries)),
{
    let mut lines: Vec<String> = Vec::new();
    let mut i: usize = 0;
    assert(line_views(lines@) =~= Seq::<Seq<char>>::empty());
    while i < records.len()
        invariant
            i <= records.len(),
            lines.len() == i,
            forall|k: int|
                0 <= k < i ==> (#[trigger] lines[k])@ == record_line(
                    records[k]@.name,
                    text_of_entries(records[k]@.entries),
                ),
            forall|k: int|
                0 <= k < i ==> is_base64_text(text_of_entries((#[trigger] records[k])@.entries)),
            decode_all(line_views(lines@)) matches Ok(read) && read.len() == i && forall|k: int|
                0 <= k < i ==> read[k].name == (#[trigger] records[k])@.name && Some(
                    read[k].entries,
                ) == entries_of_text(text_of_entries(records[k]@.entries)),
        decreases records.len() - i,
    {
        let ghost before = line_views(lines@);
        let line = encode_record(&records[i]);
        lines.push(line);
        proof {
            assert(line_views(lines@).drop_last() =~= before);
            assert(line_views(lines@).last() == line@);
            lemma_record_line_len(
                records[i as int]@.name,
                text_of_entries(records[i as int]@.entries),
            );
        }
        i += 1;
    }
    lines
}

/// Whether a line, given by its bytes, begins with `lzjd:`.
fn begins_with_prefix(bytes: &[u8]) -> (begins: bool)
    ensures
        begins == has_prefix(bytes@),
{
    if bytes.len() < PREFIX_LEN {
        return false;
    }
    let begins = bytes[0] == 108 && bytes[1] == 122 && bytes[2] == 106 && bytes[3] == 100
        && bytes[4] == 58;
    proof {
        let head = bytes@.subrange(0, PREFIX_LEN as int);
        assert(head[0] == bytes@[0] && head[1] == bytes@[1] && head[2] == bytes@[2] && head[3]
            == bytes@[3] && head[4] == bytes@[4]);
        if begins {
            assert(head =~= prefix_bytes());
        }
    }
    begins
}

/// Splits a line into its name and its digest text.
pub fn split_line(line: &str) -> (parts: Option<(&str, &str)>)
    ensures
        match parts {
            Some((name, payload)) => split_text(line@) == Some((name@, payload@)),
            None => split_text(line@) is None,
        },
{
    let bytes = line.as_bytes();
    let ghost all = encode_utf8(line@);
    proof {
        encode_utf8_valid_utf8(line@);
        all.index_of_last_ensures(SEPARATOR);
    }
    let mut at = bytes.len();
    while at > 0 && bytes[at - 1] != SEPARATOR
        invariant
            at <= bytes.len(),
            bytes@ == all,
            forall|j: int| at <= j < all.len() ==> all[j] != SEPARATOR,
        decreases at,
    {
        at -= 1;
    }
    if at == 0 {
        return None;
    }
    let colon = at - 1;
    assert(all.index_of_last(SEPARATOR) == Some(colon as int));
    if colon <= PREFIX_LEN || !begins_with_prefix(bytes) {
        return None;
    }
    proof {
        is_char_boundary_iff_not_is_continuation_byte(all, colon as int);
        assert forall|i: int| 0 <= i < PREFIX_LEN implies all[i] <= 0x7f by {
            assert(all[i] == all.subrange(0, PREFIX_LEN as int)[i]);
        }
        lemma_ascii_run_ends_at_boundary(all, PREFIX_LEN as int);
    }
    let (head, tail) = line.split_at(colon);
    proof {
        encode_utf8_valid_utf8(tail@);
        encode_utf8_valid_utf8(head@);
        reveal_with_fuel(is_char_boundary, 2);
        reveal_with_fuel(valid_utf8, 2);
        assert(tail.spec_bytes()[0] == SEPARATOR);
        is_char_boundary_iff_not_is_continuation_byte(all, PREFIX_LEN as int);
        is_char_boundary_iff_not_is_continuation_byte(head.spec_bytes(), PREFIX_LEN as int);
        assert(head.spec_bytes()[PREFIX_LEN as int] == all[PREFIX_LEN as int]);
    }
    let (_, payload) = tail.split_at(1);
    let (_, name) = head.split_at(PREFIX_LEN);
    proof {
        encode_utf8_decode_utf8(name@);
        encode_utf8_decode_utf8(payload@);
        assert(name.spec_bytes() =~= all.subrange(PREFIX_LEN as int, colon as int));
        assert(payload.spec_bytes() =~= all.subrange(colon + 1, all.len() as int));
    }
    Some((name, payload))
}

/// Makes a record of a name and of what `malwaredb_lzjd` made of the digest
/// text.
pub fn record_from_parts(name: &str, parsed: Result<LZDict, LZJDError>) -> (record: Result<
    DigestRecord,
    ParseFault,
>)
    ensures
        name@.len() == 0 ==> record == Err::<DigestRecord, ParseFault>(ParseFault::Name),
        name@.len() > 0 ==> match parsed {
            Ok(digest) => record matches Ok(r) && r@ == (RecordView {
                name: name@,
                entries: digest_entries(digest),
            }),
            Err(_) => record == Err::<DigestRecord, ParseFault>(ParseFault::Payload),
        },
{
    if name.is_empty() {
        return Err(ParseFault::Name);
    }
    match parsed {
        Ok(digest) => {
            match DigestRecord::new(digest, name.to_owned()) {
                Some(record) => Ok(record),
                None => Err(ParseFault::Name),
            }
        },
        Err(_) => Err(ParseFault::Payload),
    }
}

/// Reads a record from a line that has no white space at its ends.
pub fn decode_line(line: &str) -> (record: Result<DigestRecord, ParseFault>)
    ensures
        match record {
            Ok(r) => decode_text(line@) == Ok::<RecordView, ParseFault>(r@),
            Err(fault) => decode_text(line@) == Err::<RecordView, ParseFault>(fault),
        },
{
    match split_line(line) {
        None => Err(ParseFault::Name),
        Some((name, payload)) => {
            proof {
                lemma_split_text_name(line@);
            }
            record_from_parts(name, digest_from_text(payload))
        },
    }
}

/// Reads the records of a list of lines. Lines that are empty or hold only
/// white space are skipped. The first line that is no record fails the whole
/// list, with that line's number, counted from 1.
pub fn decode_lines(lines: &Vec<String>) -> (records: Result<Vec<DigestRecord>, Error>)
    ensures
        match records {
            Ok(list) => decode_all(line_views(lines@)) == Ok::<Seq<RecordView>, Error>(
                record_views(list@),
            ),
            Err(e) => decode_all(line_views(lines@)) == Err::<Seq<RecordView>, Error>(e),
        },
{
    let ghost texts = line_views(lines@);
    let mut list: Vec<DigestRecord> = Vec::new();
    let mut i: usize = 0;
    assert(texts.take(0) =~= Seq::<Seq<char>>::empty());
    assert(record_views(list@) =~= Seq::<RecordView>::empty());
    while i < lines.len()
        invariant
            i <= lines.len(),
            texts == line_views(lines@),
            decode_all(texts.take(i as int)) == Ok::<Seq<RecordView>, Error>(record_views(list@)),
        decreases lines.len() - i,
    {
        let inner = trim_text(lines[i].as_str());
        let ghost before = record_views(list@);
        proof {
            assert(texts.take(i + 1).drop_last() =~= texts.take(i as int));
            assert(texts.take(i + 1).last() == lines@[i as int]@);
        }
        if !inner.is_empty() {
            match decode_line(inner) {
                Ok(record) => {
                    list.push(record);
                    assert(record_views(list@) =~= before.push(record@));
                },
                Err(fault) => {
                    proof {
                        lemma_decode_all_stays_failed(texts, i + 1);
                    }
                    return Err(Error::Parse { line: i + 1, fault });
                },
            }
        }
        i += 1;
    }
    assert(texts.take(i as int) =~= texts);
    Ok(list)
}

// What holds of the format.

/// A line that was written for a name of at least one character and a
/// base64 text splits into that name and that text.
pub proof fn lemma_split_of_record_line(name: Seq<char>, payload: Seq<char>)
    requires
        name.len() > 0,
        is_base64_text(payload),
    ensures
        split_text(record_line(name, payload)) == Some((name, payload)),
{
    let line = record_line(name, payload);
    let bytes = encode_utf8(line);
    let head = encode_utf8(prefix());
    let middle = encode_utf8(name);
    let colon = encode_utf8(seq![':']);
    let tail = encode_utf8(payload);
    lemma_encode_utf8_add(prefix() + name + seq![':'], payload);
    lemma_encode_utf8_add(prefix() + name, seq![':']);
    lemma_encode_utf8_add(prefix(), name);
    assert(bytes == head + middle + colon + tail);
    assert(is_ascii_chars(prefix()));
    assert(is_ascii_chars(seq![':']));
    assert(is_ascii_chars(payload));
    is_ascii_chars_encode_utf8(prefix());
    is_ascii_chars_encode_utf8(seq![':']);
    is_ascii_chars_encode_utf8(payload);
    encode_utf8_first_scalar(name);
    encode_utf8_valid_utf8(line);
    let at: int = (head.len() + middle.len()) as int;
    lemma_prefix_bytes();
    assert(bytes.subrange(0, 5) =~= head);
    assert(head.len() == 5);
    assert(middle.len() > 0);
    assert(colon.len() == 1);
    assert(seq![':'][0] == ':');
    assert(bytes[at] == SEPARATOR);
    assert forall|j: int| at < j < bytes.len() implies bytes[j] != SEPARATOR by {
        assert(bytes[j] == tail[j - at - 1]);
        assert(is_base64_char(payload[j - at - 1]));
    }
    bytes.index_of_last_ensures(SEPARATOR);
    assert(bytes.index_of_last(SEPARATOR) == Some(at));
    assert(name_end(bytes) == Some(at));
    assert(bytes.subrange(5, at) =~= middle);
    assert(bytes.subrange(at + 1, bytes.len() as int) =~= tail);
    encode_utf8_decode_utf8(name);
    encode_utf8_decode_utf8(payload);
}

/// A line with the prefix, no name and a base64 text stands for no record.
pub proof fn lemma_empty_name_is_refused(payload: Seq<char>)
    requires
        is_base64_text(payload),
    ensures
        decode_text(record_line(Seq::empty(), payload)) == Err::<RecordView, ParseFault>(
            ParseFault::Name,
        ),
{
    let name = Seq::<char>::empty();
    let line = record_line(name, payload);
    let bytes = encode_utf8(line);
    let head = encode_utf8(prefix());
    let colon = encode_utf8(seq![':']);
    let tail = encode_utf8(payload);
    lemma_encode_utf8_add(prefix() + name + seq![':'], payload);
    lemma_encode_utf8_add(prefix() + name, seq![':']);
    assert(prefix() + name =~= prefix());
    assert(bytes == head + colon + tail);
    assert(is_ascii_chars(prefix()));
    assert(is_ascii_chars(seq![':']));
    assert(is_ascii_chars(payload));
    is_ascii_chars_encode_utf8(prefix());
    is_ascii_chars_encode_utf8(seq![':']);
    is_ascii_chars_encode_utf8(payload);
    assert(seq![':'][0] == ':');
    assert(bytes[5] == SEPARATOR);
    assert forall|j: int| 5 < j < bytes.len() implies bytes[j] != SEPARATOR by {
        assert(bytes[j] == tail[j - 6]);
        assert(is_base64_char(payload[j - 6]));
    }
    bytes.index_of_last_ensures(SEPARATOR);
}

/// Whether `malwaredb_lzjd` reads from the text that it writes for these
/// hashes the hashes themselves.
pub open spec fn survives(entries: Seq<i32>) -> bool {
    &&& is_base64_text(text_of_entries(entries))
    &&& entries_of_text(text_of_entries(entries)) == Some(entries)
}

/// Where a digest is read from its text as it was written, the record read
/// from the line of a record is that record; and if the digest has a hash,
/// the two score 100.
pub proof fn lemma_round_trip(record: RecordView)
    requires
        record.name.len() > 0,
        survives(record.entries),
    ensures
        decode_text(record_line(record.name, text_of_entries(record.entries))) == Ok::<
            RecordView,
            ParseFault,
        >(record),
        record.entries.len() > 0 ==> score_of(
            decode_text(record_line(record.name, text_of_entries(record.entries)))->Ok_0,
            record,
        ) == 100,
{
    lemma_split_of_record_line(record.name, text_of_entries(record.entries));
}

/// Where every digest is read from its text as it was written, the records
/// read from the lines of a list of records are those records, in their
/// order; so whatever is computed from the records read is what is computed
/// from the records written.
pub proof fn lemma_round_trip_of_a_list(records: Seq<RecordView>, lines: Seq<Seq<char>>)
    requires
        lines.len() == records.len(),
        forall|i: int|
            0 <= i < records.len() ==> {
                &&& (#[trigger] records[i]).name.len() > 0
                &&& survives(records[i].entries)
                &&& lines[i] == record_line(records[i].name, text_of_entries(records[i].entries))
            },
    ensures
        decode_all(lines) == Ok::<Seq<RecordView>, Error>(records),
    decreases lines.len(),
{
    if lines.len() == 0 {
        assert(records =~= Seq::<RecordView>::empty());
    } else {
        let last = records.last();
        let text = text_of_entries(last.entries);
        assert forall|i: int| 0 <= i < records.drop_last().len() implies {
            &&& (#[trigger] records.drop_last()[i]).name.len() > 0
            &&& survives(records.drop_last()[i].entries)
            &&& lines.drop_last()[i] == record_line(
                records.drop_last()[i].name,
                text_of_entries(records.drop_last()[i].entries),
            )
        } by {
            assert(records.drop_last()[i] == records[i]);
        }
        lemma_round_trip_of_a_list(records.drop_last(), lines.drop_last());
        assert(lines.last() == record_line(last.name, text));
        lemma_round_trip(last);
        lemma_record_line_is_trimmed(last.name, text);
        lemma_record_line_len(last.name, text);
        assert(records.drop_last().push(last) =~= records);
    }
}

/// A line that does not begin with `lzjd:` stands for no record.
pub proof fn lemma_missing_prefix_is_refused(line: Seq<char>)
    requires
        !has_prefix(encode_utf8(line)),
    ensures
        decode_text(line) == Err::<RecordView, ParseFault>(ParseFault::Name),
{
}

/// A text of base64 characters holds no line break.
pub proof fn lemma_base64_text_has_no_line_break(text: Seq<char>)
    requires
        is_base64_text(text),
    ensures
        !text.contains('\n'),
        !text.contains('\r'),
{
    if text.contains('\n') {
        let i = choose|i: int| 0 <= i < text.len() && text[i] == '\n';
        assert(is_base64_char(text[i]));
    }
    if text.contains('\r') {
        let i = choose|i: int| 0 <= i < text.len() && text[i] == '\r';
        assert(is_base64_char(text[i]));
    }
}

/// A line that has no `:` behind its first five bytes stands for no record.
pub proof fn lemma_no_separator_is_refused(line: Seq<char>)
    requires
        forall|i: int|
            PREFIX_LEN <= i < encode_utf8(line).len() ==> encode_utf8(line)[i] != SEPARATOR,
    ensures
        decode_text(line) == Err::<RecordView, ParseFault>(ParseFault::Name),
{
    encode_utf8(line).index_of_last_ensures(SEPARATOR);
}

/// A line that is not blank and stands for no record.
pub open spec fn is_malformed(line: Seq<char>) -> bool {
    trimmed(line).len() > 0 && decode_text(trimmed(line)) is Err
}

/// One malformed line fails the whole list. A list of lines is read exactly
/// if none of its lines is malformed; otherwise the error names the first
/// malformed line and says what is wrong with it.
pub proof fn lemma_decode_all_fails_fast(lines: Seq<Seq<char>>)
    ensures
        decode_all(lines) is Ok <==> forall|k: int|
            0 <= k < lines.len() ==> !is_malformed(#[trigger] lines[k]),
        decode_all(lines) matches Err(e) ==> exists|k: int|
            {
                &&& 0 <= k < lines.len()
                &&& #[trigger] is_malformed(lines[k])
                &&& forall|j: int| 0 <= j < k ==> !is_malformed(#[trigger] lines[j])
                &&& e == Error::Parse {
                    line: (k + 1) as usize,
                    fault: decode_text(trimmed(lines[k]))->Err_0,
                }
            },
    decreases lines.len(),
{
    if lines.len() > 0 {
        let rest = lines.drop_last();
        lemma_decode_all_fails_fast(rest);
        assert forall|k: int| 0 <= k < rest.len() implies rest[k] == lines[k] by {}
        match decode_all(rest) {
            Err(e) => {
                let k = choose|k: int|
                    {
                        &&& 0 <= k < rest.len()
                        &&& #[trigger] is_malformed(rest[k])
                        &&& forall|j: int| 0 <= j < k ==> !is_malformed(#[trigger] rest[j])
                        &&& e == Error::Parse {
                            line: (k + 1) as usize,
                            fault: decode_text(trimmed(rest[k]))->Err_0,
                        }
                    };
                assert(is_malformed(lines[k]));
                assert forall|j: int| 0 <= j < k implies !is_malformed(#[trigger] lines[j]) by {
                    assert(lines[j] == rest[j]);
                }
            },
            Ok(_) => {
                assert forall|j: int| 0 <= j < rest.len() implies !is_malformed(
                    #[trigger] lines[j],
                ) by {
                    assert(lines[j] == rest[j]);
                }
                if is_malformed(lines.last()) {
                    let k = lines.len() - 1;
                    assert(is_malformed(lines[k]));
                } else {
                    assert forall|k: int| 0 <= k < lines.len() implies !is_malformed(
                        #[trigger] lines[k],
                    ) by {
                        if k < rest.len() {
                            assert(lines[k] == rest[k]);
                        }
                    }
                }
            },
        }
    }
}

/// The lines that are not blank: those that hold more than white space.
pub open spec fn is_not_blank() -> spec_fn(Seq<char>) -> bool {
    |line: Seq<char>| trimmed(line).len() > 0
}

/// The record that a line stands for once it is trimmed.
pub open spec fn record_of() -> spec_fn(Seq<char>) -> RecordView {
    |line: Seq<char>| decode_text(trimmed(line))->Ok_0
}

/// Where a list of lines is read, the records are those of the lines that
/// are not blank, in the order of the lines.
pub proof fn lemma_decode_all_reads_in_order(lines: Seq<Seq<char>>)
    ensures
        decode_all(lines) matches Ok(records) ==> records == lines.filter(
            is_not_blank(),
        ).map_values(record_of()),
    decreases lines.len(),
{
    reveal(Seq::filter);
    if lines.len() == 0 {
        assert(lines.filter(is_not_blank()).map_values(record_of()) =~= Seq::<RecordView>::empty());
    } else {
        let rest = lines.drop_last();
        lemma_decode_all_reads_in_order(rest);
        if decode_all(lines) is Ok && trimmed(lines.last()).len() > 0 {
            let kept = rest.filter(is_not_blank());
            assert(kept.push(lines.last()).map_values(record_of()) =~= kept.map_values(
                record_of(),
            ).push(record_of()(lines.last())));
        }
    }
}

// Lemmas that the proofs above rest on.

/// A line that splits has a name of at least one character.
proof fn lemma_split_text_name(line: Seq<char>)
    ensures
        split_text(line) matches Some((name, _)) ==> name.len() > 0,
{
    let bytes = encode_utf8(line);
    if let Some(at) = name_end(bytes) {
        bytes.index_of_last_ensures(SEPARATOR);
        let part = bytes.subrange(PREFIX_LEN as int, at);
        assert(part.len() > 0);
        encode_utf8_valid_utf8(line);
        is_char_boundary_iff_not_is_continuation_byte(bytes, at);
        assert forall|i: int| 0 <= i < PREFIX_LEN implies bytes[i] <= 0x7f by {
            assert(bytes[i] == bytes.subrange(0, PREFIX_LEN as int)[i]);
        }
        lemma_ascii_run_ends_at_boundary(bytes, PREFIX_LEN as int);
        lemma_boundaries_cut_valid_text(bytes, PREFIX_LEN as int, at);
        assert(decode_utf8(part).len() > 0);
    }
}

/// Behind a run of one-byte characters at the start of a valid text lies a
/// character boundary.
proof fn lemma_ascii_run_ends_at_boundary(bytes: Seq<u8>, run: int)
    requires
        valid_utf8(bytes),
        0 <= run <= bytes.len(),
        forall|i: int| 0 <= i < run ==> bytes[i] <= 0x7f,
    ensures
        is_char_boundary(bytes, run),
    decreases run,
{
    if run > 0 {
        let rest = bytes.subrange(1, bytes.len() as int);
        assert(bytes[0] <= 0x7f);
        assert(vstd::utf8::pop_first_scalar(bytes) == rest);
        assert forall|i: int| 0 <= i < run - 1 implies rest[i] <= 0x7f by {
            assert(rest[i] == bytes[i + 1]);
        }
        lemma_ascii_run_ends_at_boundary(rest, run - 1);
    }
}

/// The bytes of the text `lzjd:`.
proof fn lemma_prefix_bytes()
    ensures
        encode_utf8(prefix()) == prefix_bytes(),
{
    assert(is_ascii_chars(prefix()));
    is_ascii_chars_encode_utf8(prefix());
    assert(encode_utf8(prefix()) =~= prefix_bytes());
}

/// Between two character boundaries of a valid text lies a valid text.
proof fn lemma_boundaries_cut_valid_text(bytes: Seq<u8>, from: int, to: int)
    requires
        valid_utf8(bytes),
        0 <= from <= to <= bytes.len(),
        is_char_boundary(bytes, from),
        is_char_boundary(bytes, to),
    ensures
        valid_utf8(bytes.subrange(from, to)),
{
    vstd::utf8::valid_utf8_split(bytes, to);
    let head = bytes.subrange(0, to);
    if from < to {
        is_char_boundary_iff_not_is_continuation_byte(bytes, from);
        is_char_boundary_iff_not_is_continuation_byte(head, from);
        assert(head[from] == bytes[from]);
    } else {
        vstd::utf8::is_char_boundary_start_end_of_seq(head);
    }
    vstd::utf8::valid_utf8_split(head, from);
    assert(head.subrange(from, head.len() as int) =~= bytes.subrange(from, to));
}

/// Once a list of lines has failed, longer lists fail in the same way.
proof fn lemma_decode_all_stays_failed(lines: Seq<Seq<char>>, n: int)
    requires
        0 <= n <= lines.len(),
        decode_all(lines.take(n)) is Err,
    ensures
        decode_all(lines) == decode_all(lines.take(n)),
    decreases lines.len() - n,
{
    if n < lines.len() {
        assert(lines.take(n + 1).drop_last() =~= lines.take(n));
        lemma_decode_all_stays_failed(lines, n + 1);
    } else {
        assert(lines.take(n) =~= lines);
    }
}

/// The bytes of two texts in a row are the bytes of the first and then
/// those of the second.
proof fn lemma_encode_utf8_add(a: Seq<char>, b: Seq<char>)
    ensures
        encode_utf8(a + b) == encode_utf8(a) + encode_utf8(b),
    decreases a.len(),
{
    if a.len() == 0 {
        assert(a + b =~= b);
        assert(encode_utf8(a) + encode_utf8(b) =~= encode_utf8(b));
    } else {
        lemma_encode_utf8_add(a.drop_first(), b);
        assert((a + b).drop_first() =~= a.drop_first() + b);
        assert(encode_utf8(a + b) =~= encode_utf8(a) + encode_utf8(b));
    }
}

/// A line that was written for a record is its own trimmed form.
proof fn lemma_record_line_is_trimmed(name: Seq<char>, payload: Seq<char>)
    requires
        is_base64_text(payload),
    ensures
        trimmed(record_line(name, payload)) == record_line(name, payload),
{
    let line = record_line(name, payload);
    assert(line.first() == 'l');
    if payload.len() > 0 {
        assert(line.last() == payload.last());
        assert(is_base64_char(payload.last()));
    } else {
        assert(line.last() == ':');
    }
    crate::text::lemma_trimmed_is_identity(line);
}

/// A line that was written for a record is not empty.
proof fn lemma_record_line_len(name: Seq<char>, payload: Seq<char>)
    ensures
        record_line(name, payload).len() > 0,
{
}

} // verus!
