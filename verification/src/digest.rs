//! Digests and the records that carry them.
//!
//! A digest is an `LZDict` of the `malwaredb_lzjd` crate. This library never
//! looks inside one: it names what a digest holds, carries it through, and
//! hands it to that crate to be written as text, read back from text, or
//! compared with another.

use crate::score::is_fraction;
use crate::score::is_nan;
use crate::score::ONE;
use malwaredb_lzjd::LZDict;
use malwaredb_lzjd::LZJDError;
use vstd::prelude::*;

verus! {

/// A digest of `malwaredb_lzjd`. Nothing is known of what is inside but
/// what the functions below say.
#[verifier::external_type_specification]
#[verifier::external_body]
pub struct ExLZDict(malwaredb_lzjd::LZDict);

/// The error of `malwaredb_lzjd`. It is only told from success.
#[verifier::external_type_specification]
#[verifier::external_body]
pub struct ExLZJDError(malwaredb_lzjd::LZJDError);

/// The hashes that a digest holds, in the order in which it holds them.
pub uninterp spec fn digest_entries(digest: LZDict) -> Seq<i32>;

/// The text that `malwaredb_lzjd` writes for a digest with the given hashes.
pub uninterp spec fn text_of_entries(entries: Seq<i32>) -> Seq<char>;

/// The hashes that `malwaredb_lzjd` reads from a text, or `None` where it
/// refuses the text.
pub uninterp spec fn entries_of_text(text: Seq<char>) -> Option<Seq<i32>>;

/// The similarity that `malwaredb_lzjd` gives two digests with the given
/// hashes, of which at least one has a hash: the bits of the double that it
/// returns.
pub uninterp spec fn similarity_of(a: Seq<i32>, b: Seq<i32>) -> u64;

/// The characters of the standard base64 alphabet, padding included.
pub open spec fn is_base64_char(c: char) -> bool {
    ||| 'A' <= c <= 'Z'
    ||| 'a' <= c <= 'z'
    ||| '0' <= c <= '9'
    ||| c == '+'
    ||| c == '/'
    ||| c == '='
}

/// Every character of the text belongs to the base64 alphabet.
pub open spec fn is_base64_text(text: Seq<char>) -> bool {
    forall|i: int| 0 <= i < text.len() ==> is_base64_char(#[trigger] text[i])
}

/// Calls `LZDict`'s `Display` impl through `to_string`.
///
/// Trusted: the text is a function of the digest's hashes alone, it is made
/// of base64 characters only (the crate encodes with base64's standard
/// engine), and `LZDict::from_base64_string` accepts it.
#[verifier::external_body]
pub(crate) fn digest_to_text(digest: &LZDict) -> (text: String)
    ensures
        text@ == text_of_entries(digest_entries(*digest)),
        is_base64_text(text@),
        entries_of_text(text@) is Some,
{
    digest.to_string()
}

/// Calls `LZDict::from_base64_string`.
///
/// Trusted: whether the text is accepted, and the hashes of the digest that
/// comes back, are a function of the text alone.
#[verifier::external_body]
pub(crate) fn digest_from_text(text: &str) -> (parsed: Result<LZDict, LZJDError>)
    ensures
        match parsed {
            Ok(digest) => entries_of_text(text@) == Some(digest_entries(digest)),
            Err(_) => entries_of_text(text@) is None,
        },
{
    LZDict::from_base64_string(text)
}

/// Calls `LZDict::similarity` and takes the bits of the double that comes
/// back.
///
/// Trusted: the similarity is the quotient of two counts, the hashes that
/// the digests share and the hashes of both together, of which the first is
/// not the greater. So it is a number between 0 and 1, or no number; it is
/// no number exactly where neither digest has a hash, and nothing is said
/// then of its bits. Otherwise it is a function of the hashes of the two
/// digests alone, and it is 1 where the two hold the same hashes.
#[verifier::external_body]
pub(crate) fn similarity_bits(a: &LZDict, b: &LZDict) -> (bits: u64)
    ensures
        is_fraction(bits) || is_nan(bits),
        is_nan(bits) <==> (digest_entries(*a).len() == 0 && digest_entries(*b).len() == 0),
        !is_nan(bits) ==> bits == similarity_of(digest_entries(*a), digest_entries(*b)),
        !is_nan(bits) && digest_entries(*a) == digest_entries(*b) ==> bits == ONE,
{
    a.similarity(b).to_bits()
}

/// What a record is, mathematically: its name and the hashes of its digest.
pub struct RecordView {
    pub name: Seq<char>,
    pub entries: Seq<i32>,
}

/// The views of a list of records.
pub open spec fn record_views(records: Seq<DigestRecord>) -> Seq<RecordView> {
    records.map_values(|r: DigestRecord| r@)
}

/// A digest together with the name of what it was computed from.
#[derive(Debug)]
pub struct DigestRecord {
    digest: LZDict,
    name: String,
}

impl View for DigestRecord {
    type V = RecordView;

    closed spec fn view(&self) -> RecordView {
        RecordView { name: self.name@, entries: digest_entries(self.digest) }
    }
}

impl DigestRecord {
    /// A record's name is never empty.
    #[verifier::type_invariant]
    closed spec fn named(&self) -> bool {
        self.name@.len() > 0
    }

    /// Pairs a digest with a name. An empty name gives `None`.
    pub fn new(digest: LZDict, name: String) -> (record: Option<DigestRecord>)
        ensures
            name@.len() == 0 <==> record is None,
            record matches Some(r) ==> r@ == (RecordView {
                name: name@,
                entries: digest_entries(digest),
            }),
    {
        if name.as_str().is_empty() {
            None
        } else {
            Some(DigestRecord { digest, name })
        }
    }

    /// The name of what the digest was computed from.
    pub fn name(&self) -> (name: &String)
        ensures
            name@ == self@.name,
            name@.len() > 0,
    {
        proof {
            use_type_invariant(self);
        }
        &self.name
    }

    /// The digest.
    pub fn digest(&self) -> (digest: &LZDict)
        ensures
            digest_entries(*digest) == self@.entries,
    {
        &self.digest
    }
}

} // verus!
