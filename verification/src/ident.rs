//! Opaque protocol identifiers: validated, immutable string-like values.
//!
//! An identifier is an opaque piece of text with no structure beyond its
//! validity: it is non-empty and made of visible ASCII characters.  It comes
//! in two ownership forms, a borrowed view over externally owned text and an
//! owned buffer, behind one shared validation and comparison contract.

use vstd::prelude::*;
use vstd::string::StringSliceAdditionalSpecFns;

verus! {

/// Why a piece of text was rejected as identifier content.
#[derive(Clone, Copy, PartialEq, Eq, Structural, Debug)]
pub enum ValidationError {
    /// The text was empty.
    Empty,
    /// The byte at `position` is not visible ASCII.
    InvalidCharacter { position: usize },
}

/// A byte is acceptable identifier content when it is visible ASCII.
pub open spec fn valid_id_byte(b: u8) -> bool {
    0x21 <= b && b <= 0x7e
}

/// Valid identifier text: non-empty, every byte visible ASCII.
pub open spec fn valid_id_bytes(s: Seq<u8>) -> bool {
    s.len() > 0 && forall|i: int| 0 <= i < s.len() ==> valid_id_byte(s[i])
}

/// Index of the first byte that is not acceptable identifier content.
pub open spec fn first_invalid(s: Seq<u8>) -> int
    decreases s.len(),
{
    if s.len() == 0 {
        0
    } else if !valid_id_byte(s[0]) {
        0
    } else {
        1 + first_invalid(s.skip(1))
    }
}

/// The outcome of identifier validation, as a function of the text alone.
pub open spec fn spec_validate(s: Seq<u8>) -> Result<(), ValidationError> {
    if s.len() == 0 {
        Err(ValidationError::Empty)
    } else if valid_id_bytes(s) {
        Ok(())
    } else {
        Err(ValidationError::InvalidCharacter { position: first_invalid(s) as usize })
    }
}

proof fn lemma_first_invalid(s: Seq<u8>)
    requires
        !(forall|i: int| 0 <= i < s.len() ==> valid_id_byte(s[i])),
    ensures
        0 <= first_invalid(s) < s.len(),
        !valid_id_byte(s[first_invalid(s)]),
        forall|i: int| 0 <= i < first_invalid(s) ==> valid_id_byte(s[i]),
    decreases s.len(),
{
    if s.len() > 0 && valid_id_byte(s[0]) {
        assert(!(forall|i: int| 0 <= i < s.skip(1).len() ==> valid_id_byte(s.skip(1)[i]))) by {
            let j = choose|i: int| 0 <= i < s.len() && !valid_id_byte(s[i]);
            assert(s.skip(1)[j - 1] == s[j]);
        }
        lemma_first_invalid(s.skip(1));
        assert forall|i: int| 0 <= i < first_invalid(s) implies valid_id_byte(s[i]) by {
            if i > 0 {
                assert(s.skip(1)[i - 1] == s[i]);
            }
        }
        assert(s.skip(1)[first_invalid(s.skip(1))] == s[first_invalid(s)]);
    }
}

/// Check a byte string against the identifier validity rule.
///
/// Returns `Ok` exactly on valid identifier text; otherwise the error names
/// the reason, with the position of the first offending byte.
pub fn validate_bytes(s: &[u8]) -> (r: Result<(), ValidationError>)
    ensures
        r == spec_validate(s@),
        r is Ok <==> valid_id_bytes(s@),
{
    if s.len() == 0 {
        return Err(ValidationError::Empty);
    }
    let mut i: usize = 0;
    while i < s.len()
        invariant
            0 <= i <= s@.len(),
            forall|j: int| 0 <= j < i ==> valid_id_byte(s@[j]),
        decreases s@.len() - i,
    {
        let b = s[i];
        if !(0x21 <= b && b <= 0x7e) {
            proof {
                lemma_first_invalid(s@);
                assert(first_invalid(s@) == i);
            }
            return Err(ValidationError::InvalidCharacter { position: i });
        }
        i = i + 1;
    }
    Ok(())
}

/// Storage for identifier text: a view over externally owned text, or an
/// owned buffer.
pub enum IdStorage<'a> {
    Borrowed(&'a str),
    Owned(String),
}

/// A device identifier: an opaque, validated character sequence.
///
/// Two identifiers are equal exactly when their text is equal, regardless of
/// which ownership form each one uses.
pub struct DeviceId<'a> {
    text: IdStorage<'a>,
}

impl<'a> View for DeviceId<'a> {
    type V = Seq<u8>;

    closed spec fn view(&self) -> Seq<u8> {
        match self.text {
            IdStorage::Borrowed(s) => s.spec_bytes(),
            IdStorage::Owned(ref s) => vstd::utf8::encode_utf8(s@),
        }
    }
}

impl<'a> DeviceId<'a> {
    /// Every identifier satisfies the validity rule, in either ownership form.
    pub open spec fn wf(&self) -> bool {
        valid_id_bytes(self@)
    }

    /// Whether this identifier owns its storage.
    pub closed spec fn spec_is_owned(&self) -> bool {
        self.text is Owned
    }

    /// Parse identifier text into a borrowed identifier.
    ///
    /// Succeeds exactly on valid text; the identifier's content is the input
    /// text, unchanged.  Never produces a partially valid instance.
    pub fn parse(text: &'a str) -> (r: Result<DeviceId<'a>, ValidationError>)
        ensures
            r is Ok <==> valid_id_bytes(text.spec_bytes()),
            r is Ok ==> r->Ok_0@ == text.spec_bytes() && r->Ok_0.wf()
                && !r->Ok_0.spec_is_owned(),
            r is Err ==> Err::<(), ValidationError>(r->Err_0) == spec_validate(
                text.spec_bytes(),
            ),
    {
        match validate_bytes(text.as_bytes()) {
            Ok(()) => Ok(DeviceId { text: IdStorage::Borrowed(text) }),
            Err(e) => Err(e),
        }
    }

    /// Parse identifier text into an owned identifier.
    pub fn parse_owned(text: String) -> (r: Result<DeviceId<'static>, ValidationError>)
        ensures
            r is Ok <==> valid_id_bytes(vstd::utf8::encode_utf8(text@)),
            r is Ok ==> r->Ok_0@ == vstd::utf8::encode_utf8(text@) && r->Ok_0.wf()
                && r->Ok_0.spec_is_owned(),
            r is Err ==> Err::<(), ValidationError>(r->Err_0) == spec_validate(
                vstd::utf8::encode_utf8(text@),
            ),
    {
        match validate_bytes(text.as_str().as_bytes()) {
            Ok(()) => Ok(DeviceId { text: IdStorage::Owned(text) }),
            Err(e) => Err(e),
        }
    }

    /// A zero-copy view of the identifier's text.
    pub fn as_str(&self) -> (r: &str)
        ensures
            r.spec_bytes() == self@,
    {
        match &self.text {
            IdStorage::Borrowed(s) => s,
            IdStorage::Owned(s) => s.as_str(),
        }
    }

    /// Convert into an identifier with independent storage; the content is
    /// unchanged.
    pub fn into_owned(self) -> (r: DeviceId<'static>)
        ensures
            r@ == self@,
            r.spec_is_owned(),
    {
        match self.text {
            IdStorage::Borrowed(s) => DeviceId { text: IdStorage::Owned(s.to_owned()) },
            IdStorage::Owned(s) => DeviceId { text: IdStorage::Owned(s) },
        }
    }
}

/// Byte-wise equality of two byte strings.
pub fn bytes_eq(a: &[u8], b: &[u8]) -> (r: bool)
    ensures
        r <==> a@ == b@,
{
    if a.len() != b.len() {
        assert(a@ != b@) by {
            assert(a@.len() != b@.len());
        }
        return false;
    }
    let mut i: usize = 0;
    while i < a.len()
        invariant
            0 <= i <= a@.len(),
            a@.len() == b@.len(),
            forall|j: int| 0 <= j < i ==> a@[j] == b@[j],
        decreases a@.len() - i,
    {
        if a[i] != b[i] {
            return false;
        }
        i = i + 1;
    }
    proof {
        assert(a@ =~= b@);
    }
    true
}

impl<'a> PartialEq for DeviceId<'a> {
    /// Identifiers compare by their text alone, so a borrowed and an owned
    /// identifier with identical text are equal.
    fn eq(&self, other: &DeviceId<'a>) -> (r: bool) {
        bytes_eq(self.as_str().as_bytes(), other.as_str().as_bytes())
    }
}

impl<'a> vstd::std_specs::cmp::PartialEqSpecImpl for DeviceId<'a> {
    open spec fn obeys_eq_spec() -> bool {
        true
    }

    open spec fn eq_spec(&self, other: &DeviceId<'a>) -> bool {
        self@ == other@
    }
}

/// Bytes of the identifier generation alphabet: ASCII letters and digits.
pub open spec fn alnum_byte(b: u8) -> bool {
    (0x61 <= b && b <= 0x7a) || (0x41 <= b && b <= 0x5a) || (0x30 <= b && b <= 0x39)
}

/// Relies on rand::random_range: a value drawn from `0..bound` lies below
/// the bound; the range is non-empty because `bound > 0`.
#[verifier::external_body]
fn random_below(bound: usize) -> (r: usize)
    requires
        bound > 0,
    ensures
        r < bound,
{
    rand::random_range(0..bound)
}

/// The alphabet byte at an index below 62.
fn alphabet_byte(k: usize) -> (r: u8)
    requires
        k < 62,
    ensures
        alnum_byte(r),
{
    if k < 26 {
        0x61 + (k as u8)
    } else if k < 52 {
        0x41 + ((k - 26) as u8)
    } else {
        0x30 + ((k - 52) as u8)
    }
}

/// Relies on String::from_utf8: bytes below 0x80 are valid UTF-8, one
/// character per byte, so the string's UTF-8 encoding is the input itself.
#[verifier::external_body]
fn ascii_bytes_to_string(v: Vec<u8>) -> (r: String)
    requires
        forall|i: int| 0 <= i < v@.len() ==> v@[i] < 0x80,
    ensures
        vstd::utf8::encode_utf8(r@) == v@,
{
    String::from_utf8(v).unwrap()
}

impl DeviceId<'_> {
    /// Generate a random owned identifier of the given length from the
    /// letter-and-digit alphabet.  It never fails; the length must leave the
    /// identifier non-empty.
    pub fn generate_random(length: usize) -> (r: DeviceId<'static>)
        requires
            length >= 1,
        ensures
            r@.len() == length,
            r.wf(),
            r.spec_is_owned(),
            forall|i: int| 0 <= i < r@.len() ==> alnum_byte(#[trigger] r@[i]),
    {
        let mut v: Vec<u8> = Vec::new();
        let mut i: usize = 0;
        while i < length
            invariant
                0 <= i <= length,
                v@.len() == i,
                forall|j: int| 0 <= j < i ==> alnum_byte(#[trigger] v@[j]),
            decreases length - i,
        {
            let k = random_below(62);
            v.push(alphabet_byte(k));
            i = i + 1;
        }
        let s = ascii_bytes_to_string(v);
        DeviceId { text: IdStorage::Owned(s) }
    }

    /// Generate a random identifier, suitable for assignment to a new
    /// device: eight characters of the letter-and-digit alphabet.
    pub fn new() -> (r: DeviceId<'static>)
        ensures
            r@.len() == 8,
            r.wf(),
            r.spec_is_owned(),
            forall|i: int| 0 <= i < r@.len() ==> alnum_byte(#[trigger] r@[i]),
    {
        DeviceId::generate_random(8)
    }
}

/// Generate a random device identifier, suitable for assignment to a new
/// device.
pub fn generate() -> (r: DeviceId<'static>)
    ensures
        r@.len() == 8,
        r.wf(),
        r.spec_is_owned(),
        forall|i: int| 0 <= i < r@.len() ==> alnum_byte(#[trigger] r@[i]),
{
    DeviceId::new()
}

/// Identifier validation is deterministic: its outcome is a function of the
/// text alone, success comes exactly on valid text, and a successful parse
/// keeps the text unchanged (see the `ensures` of `parse`), so identical
/// input always yields an identical outcome and identical content.
pub proof fn lemma_parse_deterministic(s: Seq<u8>)
    ensures
        spec_validate(s) is Ok <==> valid_id_bytes(s),
        valid_id_bytes(s) ==> spec_validate(s) == Ok::<(), ValidationError>(()),
{
}


} // verus!
