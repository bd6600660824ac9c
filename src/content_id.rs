//! Content identifiers, read and written through the `cid` crate.
use vstd::prelude::*;
use std::str::FromStr;

verus! {

/// The binary form of the CID that `Cid::from_str` reads from a text, if it reads one.
pub uninterp spec fn cid_from_text(s: Seq<char>) -> Option<Seq<u8>>;

/// The binary form of the CID that `Cid::try_from` reads from a prefix of the bytes,
/// if it reads one.
pub uninterp spec fn cid_from_bytes(b: Seq<u8>) -> Option<Seq<u8>>;

/// The canonical text form that `Cid`'s `Display` gives.
pub uninterp spec fn cid_text(b: Seq<u8>) -> Seq<char>;

/// A byte sequence is a CID in binary form when reading it gives back exactly itself.
pub open spec fn cid_valid(b: Seq<u8>) -> bool {
    cid_from_bytes(b) == Some(b)
}

/// Relies on `Cid::from_str` to parse a CID text, and `Cid::to_bytes` to give its
/// binary form; reading that binary form back yields the same CID.
#[verifier::external_body]
fn parse_cid_text(s: &str) -> (r: Option<Vec<u8>>)
    ensures
        r matches Some(b) ==> cid_from_text(s@) == Some(b@) && cid_valid(b@),
        r is None ==> cid_from_text(s@) is None,
{
    cid::Cid::from_str(s).ok().map(|c| c.to_bytes())
}

/// Relies on `Cid::try_from(&[u8])` to read a CID from the front of the bytes, and
/// `Cid::to_bytes` to give its binary form.
#[verifier::external_body]
fn read_cid_bytes(b: &[u8]) -> (r: Option<Vec<u8>>)
    ensures
        r matches Some(c) ==> cid_from_bytes(b@) == Some(c@),
        r is None ==> cid_from_bytes(b@) is None,
{
    cid::Cid::try_from(b).ok().map(|c| c.to_bytes())
}

/// Relies on `Cid::try_from(&[u8])`, which succeeds on a valid binary form, and on
/// `Cid`'s `Display`, whose text `Cid::from_str` parses back to the same CID.
#[verifier::external_body]
fn render_cid(b: &[u8]) -> (r: String)
    requires
        cid_valid(b@),
    ensures
        r@ == cid_text(b@),
        cid_from_text(r@) == Some(b@),
{
    cid::Cid::try_from(b).map(|c| c.to_string()).unwrap_or_default()
}

/// A content identifier, held in its binary form.
#[derive(Debug, PartialEq)]
pub struct ContentId {
    bytes: Vec<u8>,
}

impl View for ContentId {
    type V = Seq<u8>;

    closed spec fn view(&self) -> Seq<u8> {
        self.bytes@
    }
}

impl ContentId {
    #[verifier::type_invariant]
    pub open spec fn inv(self) -> bool {
        cid_valid(self@)
    }

    /// Parses the text form of a CID.
    pub fn parse(s: &str) -> (r: Option<ContentId>)
        ensures
            r matches Some(c) ==> cid_from_text(s@) == Some(c@),
            r is None ==> cid_from_text(s@) is None,
    {
        match parse_cid_text(s) {
            Some(b) => Some(ContentId { bytes: b }),
            None => None,
        }
    }

    /// Takes bytes that are exactly one CID in binary form.
    pub fn from_bytes(b: &[u8]) -> (r: Option<ContentId>)
        ensures
            r matches Some(c) ==> c@ == b@,
            r is None <==> !cid_valid(b@),
    {
        match read_cid_bytes(b) {
            Some(c) => {
                if bytes_eq(c.as_slice(), b) {
                    Some(ContentId { bytes: c })
                } else {
                    None
                }
            },
            None => None,
        }
    }

    /// The binary form.
    pub fn as_bytes(&self) -> (r: &[u8])
        ensures
            r@ == self@,
    {
        self.bytes.as_slice()
    }

    /// The canonical text form.
    pub fn to_text(&self) -> (r: String)
        ensures
            r@ == cid_text(self@),
            cid_from_text(r@) == Some(self@),
    {
        proof {
            use_type_invariant(self);
        }
        render_cid(self.bytes.as_slice())
    }
}

/// Whether two byte slices are equal.
pub fn bytes_eq(a: &[u8], b: &[u8]) -> (r: bool)
    ensures
        r == (a@ == b@),
{
    if a.len() != b.len() {
        return false;
    }
    let mut i: usize = 0;
    while i < a.len()
        invariant
            a@.len() == b@.len(),
            i <= a@.len(),
            a@.subrange(0, i as int) == b@.subrange(0, i as int),
        decreases a@.len() - i,
    {
        if a[i] != b[i] {
            assert(a@[i as int] != b@[i as int]);
            return false;
        }
        assert(a@.subrange(0, i + 1) =~= a@.subrange(0, i as int).push(a@[i as int]));
        assert(b@.subrange(0, i + 1) =~= b@.subrange(0, i as int).push(b@[i as int]));
        i += 1;
    }
    assert(a@ =~= a@.subrange(0, i as int));
    assert(b@ =~= b@.subrange(0, i as int));
    true
}

} // verus!
