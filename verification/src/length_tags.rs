//! The standard FIX length fields: each gives the byte length of the data
//! field that follows it, whose value may contain SOH.
use vstd::prelude::*;

verus! {

/// The standard length tags, in ascending order: SecureDataLen(90),
/// SignatureLength(93), RawDataLength(95), XmlDataLen(212), the Encoded*Len
/// fields (348 to 364, 445, 618, 621), SecurityXMLLen(1184),
/// DerivativeEncodedIssuerLen(1277), DerivativeSecurityXMLLen(1282),
/// EncodedMktSegmDescLen(1397), EncryptedPasswordLen(1401) and
/// EncryptedNewPasswordLen(1403).
pub open spec fn standard() -> Seq<u32> {
    seq![
        90u32, 93, 95, 212, 348, 350, 352, 354, 356, 358, 360, 362, 364, 445, 618, 621, 1184, 1277,
        1282, 1397, 1401, 1403,
    ]
}

/// The standard length tags, in ascending order.
pub fn standard_tags() -> (tags: Vec<u32>)
    ensures
        tags@ == standard(),
{
    let mut tags: Vec<u32> = Vec::new();
    tags.push(90);
    tags.push(93);
    tags.push(95);
    tags.push(212);
    tags.push(348);
    tags.push(350);
    tags.push(352);
    tags.push(354);
    tags.push(356);
    tags.push(358);
    tags.push(360);
    tags.push(362);
    tags.push(364);
    tags.push(445);
    tags.push(618);
    tags.push(621);
    tags.push(1184);
    tags.push(1277);
    tags.push(1282);
    tags.push(1397);
    tags.push(1401);
    tags.push(1403);
    assert(tags@ =~= standard());
    tags
}

} // verus!
