//! Secure images: payloads behind a chain of certificates that states their
//! digest.

use vstd::prelude::*;

use crate::bytes;
use crate::erofs::inode;
use crate::formats::certificate;
use crate::formats::certificate::{
    CertificateModel, ExtensionModel, SecImageCertificate, SecImageExtension,
    SecImageExtensionValue, ValueModel,
};
use crate::formats::der;
use crate::text;

verus! {

pub const HEADER_SIZE: usize = 0x2000;

pub const CERTIFICATE_COUNT: usize = 3;

pub const BLOCK_ALIGN: usize = 0x1000;

pub const MAX_HEADER_SCAN: usize = 0x1_0000;

pub const MAX_STAGES: usize = 4;

/// Why data is no secure image.
#[derive(Debug, Clone, Copy, PartialEq, Eq, Structural)]
pub enum SecImageError {
    TooSmall,
    Window,
    Certificate,
    EmptyCertificate,
    NotSelfIssued,
    IssuerMismatch,
    DuplicateExtension,
    MissingExtension,
    WrongExtension,
    InvalidName,
    NameMismatch,
    EmptyPayload,
    InvalidDigest,
    PayloadOverflow,
    PayloadBeyondFile,
    NoStages,
    LengthMismatch,
}

// ---------------------------------------------------------------------------
// Certificate chains
// ---------------------------------------------------------------------------

/// The certificates of a chain from `index` on, the first of which stands at
/// `offset`, and where the chain ends. The first one is issued by its own
/// subject, every other one by the subject of the one before it.
pub open spec fn chain_from(
    data: Seq<u8>,
    offset: int,
    window_end: int,
    index: int,
    issuer: Option<Seq<char>>,
) -> Result<(Seq<CertificateModel>, int), SecImageError>
    decreases CERTIFICATE_COUNT - index,
{
    if index >= CERTIFICATE_COUNT {
        Ok((seq![], offset))
    } else {
        match certificate::certificate_in(data.subrange(offset, window_end)) {
            None => Err(SecImageError::Certificate),
            Some(c) => {
                let size = window_end - offset - c.remaining;
                if size <= 0 {
                    Err(SecImageError::EmptyCertificate)
                } else if index == 0 && c.issuer != c.subject {
                    Err(SecImageError::NotSelfIssued)
                } else if issuer matches Some(wanted) && c.issuer != wanted {
                    Err(SecImageError::IssuerMismatch)
                } else {
                    match certificate::summary_of(c, index, offset, size) {
                        None => Err(SecImageError::DuplicateExtension),
                        Some(summary) => match chain_from(
                            data,
                            offset + size,
                            window_end,
                            index + 1,
                            Some(c.subject),
                        ) {
                            Err(error) => Err(error),
                            Ok((rest, end)) => Ok((seq![summary] + rest, end)),
                        },
                    }
                }
            },
        }
    }
}

/// The chain of certificates in a window of the data.
#[verifier::opaque]
pub open spec fn chain_of(data: Seq<u8>, base: int, window_end: int) -> Result<
    (Seq<CertificateModel>, int),
    SecImageError,
> {
    if window_end > data.len() {
        Err(SecImageError::Window)
    } else {
        chain_from(data, base, window_end, 0, None)
    }
}

fn read_chain(data: &[u8], base: usize, window_end: usize) -> (chain: Result<
    (Vec<SecImageCertificate>, usize),
    SecImageError,
>)
    requires
        base <= window_end,
    ensures
        match chain {
            Ok((list, end)) => chain_of(data@, base as int, window_end as int) == Ok::<
                (Seq<CertificateModel>, int),
                SecImageError,
            >((certificate::certificate_models(list@), end as int)) && base <= end <= window_end
                && list@.len() == 3,
            Err(error) => chain_of(data@, base as int, window_end as int) == Err::<
                (Seq<CertificateModel>, int),
                SecImageError,
            >(error),
        },
{
    reveal(chain_of);
    if window_end > data.len() {
        return Err(SecImageError::Window);
    }
    let ghost wanted = chain_from(data@, base as int, window_end as int, 0, None);
    let mut list: Vec<SecImageCertificate> = Vec::new();
    let mut issuer: Option<String> = None;
    let mut offset: usize = base;
    let mut index: usize = 0;
    assert(certificate::certificate_models(list@) =~= Seq::<CertificateModel>::empty());
    assert(with_before(certificate::certificate_models(list@), wanted) == wanted) by {
        if let Ok((rest, end)) = wanted {
            assert(Seq::<CertificateModel>::empty() + rest =~= rest);
        }
    }
    while index < CERTIFICATE_COUNT
        invariant
            index <= CERTIFICATE_COUNT,
            base <= offset <= window_end <= data@.len(),
            list@.len() == index,
            wanted == chain_of(data@, base as int, window_end as int),
            wanted == with_before(
                certificate::certificate_models(list@),
                chain_from(
                    data@,
                    offset as int,
                    window_end as int,
                    index as int,
                    crate::oeminfo::payload::text_of(issuer),
                ),
            ),
        decreases CERTIFICATE_COUNT - index,
    {
        let input = &data[offset..window_end];
        assert(input@ =~= data@.subrange(offset as int, window_end as int));
        let c = match certificate::read_certificate(input) {
            Some(c) => c,
            None => {
                return Err(SecImageError::Certificate);
            },
        };
        if c.remaining >= window_end - offset {
            return Err(SecImageError::EmptyCertificate);
        }
        let size: usize = window_end - offset - c.remaining;
        if index == 0 && !text::same_text(c.issuer.as_str(), c.subject.as_str()) {
            return Err(SecImageError::NotSelfIssued);
        }
        if let Some(wanted_issuer) = &issuer {
            if !text::same_text(c.issuer.as_str(), wanted_issuer.as_str()) {
                return Err(SecImageError::IssuerMismatch);
            }
        }
        let summary = match certificate::summarize_certificate(&c, index, offset, size) {
            Some(summary) => summary,
            None => {
                return Err(SecImageError::DuplicateExtension);
            },
        };
        let ghost before = certificate::certificate_models(list@);
        let ghost model = summary@;
        list.push(summary);
        issuer = Some(c.subject);
        offset += size;
        index += 1;
        proof {
            let next = chain_from(
                data@,
                offset as int,
                window_end as int,
                index as int,
                crate::oeminfo::payload::text_of(issuer),
            );
            let now = certificate::certificate_models(list@);
            assert(now =~= before.push(model));
            if let Ok((rest, end)) = next {
                assert(before + (seq![model] + rest) =~= now + rest);
            }
            assert(wanted == with_before(now, next));
        }
    }
    assert(certificate::certificate_models(list@) + Seq::<CertificateModel>::empty()
        =~= certificate::certificate_models(list@));
    Ok((list, offset))
}

/// A chain with certificates before it.
spec fn with_before(
    before: Seq<CertificateModel>,
    chain: Result<(Seq<CertificateModel>, int), SecImageError>,
) -> Result<(Seq<CertificateModel>, int), SecImageError> {
    match chain {
        Err(error) => Err(error),
        Ok((rest, end)) => Ok((before + rest, end)),
    }
}

/// The certificates that stand one behind the other from `offset` on, at most
/// three.
pub open spec fn inner_from(data: Seq<u8>, offset: int, limit: int, index: int) -> Seq<
    CertificateModel,
>
    decreases CERTIFICATE_COUNT - index,
{
    if index >= CERTIFICATE_COUNT || offset >= limit {
        seq![]
    } else {
        match certificate::certificate_in(data.subrange(offset, limit)) {
            None => seq![],
            Some(c) => {
                let size = limit - offset - c.remaining;
                match certificate::summary_of(c, index, offset, size) {
                    Some(summary) if size > 0 => seq![summary] + inner_from(
                        data,
                        offset + size,
                        limit,
                        index + 1,
                    ),
                    _ => seq![],
                }
            },
        }
    }
}

pub fn scan_inner_certificates(data: &[u8], start: usize, limit: usize) -> (list: Vec<
    SecImageCertificate,
>)
    requires
        limit <= data@.len(),
    ensures
        certificate::certificate_models(list@) == inner_from(data@, start as int, limit as int, 0),
        forall|i: int|
            0 <= i < list@.len() ==> (#[trigger] list@[i]).offset + list@[i].size <= limit,
{
    let ghost all = inner_from(data@, start as int, limit as int, 0);
    let mut list: Vec<SecImageCertificate> = Vec::new();
    let mut offset: usize = start;
    assert(certificate::certificate_models(list@) + all =~= all);
    while offset < limit && list.len() < CERTIFICATE_COUNT
        invariant_except_break
            certificate::certificate_models(list@) + inner_from(
                data@,
                offset as int,
                limit as int,
                list@.len() as int,
            ) == all,
        invariant
            limit <= data@.len(),
            list@.len() <= CERTIFICATE_COUNT,
            forall|i: int|
                0 <= i < list@.len() ==> (#[trigger] list@[i]).offset + list@[i].size <= limit,
        ensures
            certificate::certificate_models(list@) == all,
        decreases CERTIFICATE_COUNT - list@.len(),
    {
        let ghost before = certificate::certificate_models(list@);
        let input = &data[offset..limit];
        assert(input@ =~= data@.subrange(offset as int, limit as int));
        let c = match certificate::read_certificate(input) {
            Some(c) => c,
            None => {
                assert(before + Seq::<CertificateModel>::empty() =~= before);
                break ;
            },
        };
        if c.remaining >= limit - offset {
            assert(before + Seq::<CertificateModel>::empty() =~= before);
            break ;
        }
        let size: usize = limit - offset - c.remaining;
        let summary = match certificate::summarize_certificate(&c, list.len(), offset, size) {
            Some(summary) => summary,
            None => {
                assert(before + Seq::<CertificateModel>::empty() =~= before);
                break ;
            },
        };
        let ghost model = summary@;
        list.push(summary);
        offset += size;
        proof {
            let now = certificate::certificate_models(list@);
            assert(now =~= before.push(model));
            let rest = inner_from(data@, offset as int, limit as int, list@.len() as int);
            assert(before + (seq![model] + rest) =~= now + rest);
            if offset >= limit || list@.len() >= CERTIFICATE_COUNT {
                assert(now + Seq::<CertificateModel>::empty() =~= now);
            }
        }
    }
    list
}

// ---------------------------------------------------------------------------
// What the last certificate of a chain states
// ---------------------------------------------------------------------------

/// What a chain states of its payload.
struct LeafMetadata {
    image_name: String,
    partition_name: String,
    payload_size: u64,
    secondary_size: Option<u64>,
    payload_sha256: Vec<u8>,
}

#[verifier::ext_equal]
pub struct LeafModel {
    pub image_name: Seq<char>,
    pub partition_name: Seq<char>,
    pub payload_size: u64,
    pub secondary_size: Option<u64>,
    pub payload_sha256: Seq<u8>,
}

impl LeafMetadata {
    spec fn model(&self) -> LeafModel {
        LeafModel {
            image_name: self.image_name@,
            partition_name: self.partition_name@,
            payload_size: self.payload_size,
            secondary_size: self.secondary_size,
            payload_sha256: self.payload_sha256@,
        }
    }
}

/// The first extension with an identifier.
pub open spec fn extension_of(list: Seq<ExtensionModel>, oid: Seq<char>, from: int) -> Option<
    ExtensionModel,
>
    decreases list.len() - from,
{
    if from < 0 || from >= list.len() {
        None
    } else if list[from].oid == oid {
        Some(list[from])
    } else {
        extension_of(list, oid, from + 1)
    }
}

/// The text of an extension.
pub open spec fn text_in(value: ValueModel) -> Option<Seq<char>> {
    match value {
        ValueModel::Octets { hex, text } => text,
        _ => None,
    }
}

/// The text of the extension that has to be there.
pub open spec fn required_text(list: Seq<ExtensionModel>, oid: Seq<char>) -> Result<
    Seq<char>,
    SecImageError,
> {
    match extension_of(list, oid, 0) {
        None => Err(SecImageError::MissingExtension),
        Some(e) => match text_in(e.value) {
            None => Err(SecImageError::WrongExtension),
            Some(found) => Ok(found),
        },
    }
}

/// The number of an extension that may be there.
pub open spec fn optional_integer(list: Seq<ExtensionModel>, oid: Seq<char>) -> Result<
    Option<u64>,
    SecImageError,
> {
    match extension_of(list, oid, 0) {
        None => Ok(None),
        Some(e) => match e.value {
            ValueModel::Integer { value } => Ok(Some(value)),
            _ => Err(SecImageError::WrongExtension),
        },
    }
}

/// The octets of the extension that has to be there.
pub open spec fn required_octets(list: Seq<ExtensionModel>, oid: Seq<char>) -> Result<
    Seq<u8>,
    SecImageError,
> {
    match extension_of(list, oid, 0) {
        None => Err(SecImageError::MissingExtension),
        Some(e) => match e.value {
            ValueModel::Octets { hex, text } => if der::is_hex(hex) {
                Ok(der::hex_bytes(hex))
            } else {
                Err(SecImageError::WrongExtension)
            },
            _ => Err(SecImageError::WrongExtension),
        },
    }
}

/// True for names of one to 64 letters, digits, and the signs `_`, `-` and `.`.
pub open spec fn is_name(name: Seq<char>) -> bool {
    0 < name.len() <= 64 && forall|i: int|
        0 <= i < name.len() ==> text::is_ascii_alphanumeric(#[trigger] name[i]) || name[i] == '_'
            || name[i] == '-' || name[i] == '.'
}

/// The last number of an identifier.
pub open spec fn last_arc(oid: Seq<char>) -> Seq<char> {
    text::split(oid, '.').last()
}

/// What is wrong with the names among the first `n` extensions: each one that
/// states a name states the same one.
pub open spec fn names_error(
    list: Seq<ExtensionModel>,
    image: Seq<char>,
    partition: Seq<char>,
    n: int,
) -> Option<SecImageError>
    decreases n,
{
    if n <= 0 {
        None
    } else {
        match names_error(list, image, partition, n - 1) {
            Some(error) => Some(error),
            None => {
                let e = list[n - 1];
                let expected = if last_arc(e.oid) == "8"@ {
                    Some(image)
                } else if last_arc(e.oid) == "14"@ {
                    Some(partition)
                } else {
                    None
                };
                match expected {
                    None => None,
                    Some(name) => match text_in(e.value) {
                        None => Some(SecImageError::WrongExtension),
                        Some(found) => if found == name {
                            None
                        } else {
                            Some(SecImageError::NameMismatch)
                        },
                    },
                }
            },
        }
    }
}

/// What is wrong with the names of the first `n` certificates.
pub open spec fn chain_names_error(
    list: Seq<CertificateModel>,
    image: Seq<char>,
    partition: Seq<char>,
    n: int,
) -> Option<SecImageError>
    decreases n,
{
    if n <= 0 {
        None
    } else {
        match chain_names_error(list, image, partition, n - 1) {
            Some(error) => Some(error),
            None => {
                let extensions = list[n - 1].proprietary_extensions;
                names_error(extensions, image, partition, extensions.len() as int)
            },
        }
    }
}

/// What a chain of three certificates states of its payload.
#[verifier::opaque]
pub open spec fn leaf_of(list: Seq<CertificateModel>) -> Result<LeafModel, SecImageError> {
    let leaf = list[CERTIFICATE_COUNT - 1].proprietary_extensions;
    match (required_text(leaf, "2.20.2.8"@), required_text(leaf, "2.20.2.14"@)) {
        (Err(error), _) => Err(error),
        (_, Err(error)) => Err(error),
        (Ok(image), Ok(partition)) => if !is_name(image) || !is_name(partition) {
            Err(SecImageError::InvalidName)
        } else {
            match chain_names_error(list, image, partition, list.len() as int) {
                Some(error) => Err(error),
                None => sizes_of(leaf, image, partition),
            }
        },
    }
}

/// The rest of what the last certificate states: the size of the payload, a
/// second size, and the digest.
pub open spec fn sizes_of(leaf: Seq<ExtensionModel>, image: Seq<char>, partition: Seq<char>) -> Result<
    LeafModel,
    SecImageError,
> {
    match optional_integer(leaf, "2.20.2.67"@) {
        Err(error) => Err(error),
        Ok(None) => Err(SecImageError::MissingExtension),
        Ok(Some(payload_size)) => if payload_size == 0 {
            Err(SecImageError::EmptyPayload)
        } else {
            match optional_integer(leaf, "2.20.2.69"@) {
                Err(error) => Err(error),
                Ok(secondary_size) => match required_octets(leaf, "2.20.2.65"@) {
                    Err(error) => Err(error),
                    Ok(digest) => if digest.len() != 32 {
                        Err(SecImageError::InvalidDigest)
                    } else {
                        Ok(
                            LeafModel {
                                image_name: image,
                                partition_name: partition,
                                payload_size,
                                secondary_size,
                                payload_sha256: digest,
                            },
                        )
                    },
                },
            }
        },
    }
}

fn find_extension(list: &Vec<SecImageExtension>, oid: &str) -> (found: Option<usize>)
    ensures
        match found {
            Some(i) => i < list@.len() && extension_of(
                certificate::extension_models(list@),
                oid@,
                0,
            ) == Some(list@[i as int]@),
            None => extension_of(certificate::extension_models(list@), oid@, 0) is None,
        },
{
    let ghost all = certificate::extension_models(list@);
    let mut i: usize = 0;
    while i < list.len()
        invariant
            i <= list@.len(),
            all == certificate::extension_models(list@),
            extension_of(all, oid@, 0) == extension_of(all, oid@, i as int),
        decreases list@.len() - i,
    {
        assert(all[i as int] == list@[i as int]@);
        if text::same_text(list[i].oid.as_str(), oid) {
            return Some(i);
        }
        i += 1;
    }
    None
}

fn extension_text(value: &SecImageExtensionValue) -> (found: Option<&String>)
    ensures
        match found {
            Some(chars) => text_in(value@) == Some(chars@),
            None => text_in(value@) is None,
        },
{
    match value {
        SecImageExtensionValue::Octets { hex, text } => match text {
            Some(found) => Some(found),
            None => None,
        },
        _ => None,
    }
}

fn read_text(list: &Vec<SecImageExtension>, oid: &str) -> (found: Result<String, SecImageError>)
    ensures
        match found {
            Ok(chars) => required_text(certificate::extension_models(list@), oid@) == Ok::<
                Seq<char>,
                SecImageError,
            >(chars@),
            Err(error) => required_text(certificate::extension_models(list@), oid@) == Err::<
                Seq<char>,
                SecImageError,
            >(error),
        },
{
    match find_extension(list, oid) {
        None => Err(SecImageError::MissingExtension),
        Some(i) => match extension_text(&list[i].value) {
            None => Err(SecImageError::WrongExtension),
            Some(found) => Ok(found.clone()),
        },
    }
}

fn read_integer(list: &Vec<SecImageExtension>, oid: &str) -> (found: Result<
    Option<u64>,
    SecImageError,
>)
    ensures
        found == optional_integer(certificate::extension_models(list@), oid@),
{
    match find_extension(list, oid) {
        None => Ok(None),
        Some(i) => match &list[i].value {
            SecImageExtensionValue::Integer { value } => Ok(Some(*value)),
            _ => Err(SecImageError::WrongExtension),
        },
    }
}

fn read_octets(list: &Vec<SecImageExtension>, oid: &str) -> (found: Result<
    Vec<u8>,
    SecImageError,
>)
    ensures
        match found {
            Ok(data) => required_octets(certificate::extension_models(list@), oid@) == Ok::<
                Seq<u8>,
                SecImageError,
            >(data@),
            Err(error) => required_octets(certificate::extension_models(list@), oid@) == Err::<
                Seq<u8>,
                SecImageError,
            >(error),
        },
{
    match find_extension(list, oid) {
        None => Err(SecImageError::MissingExtension),
        Some(i) => match &list[i].value {
            SecImageExtensionValue::Octets { hex, text } => match der::decode_hex(hex.as_str()) {
                Some(data) => Ok(data),
                None => Err(SecImageError::WrongExtension),
            },
            _ => Err(SecImageError::WrongExtension),
        },
    }
}

pub fn validate_name(name: &str) -> (valid: bool)
    ensures
        valid == is_name(name@),
{
    let chars = text::chars_of(name);
    if chars.len() == 0 || chars.len() > 64 {
        return false;
    }
    let mut i: usize = 0;
    while i < chars.len()
        invariant
            i <= chars@.len(),
            chars@ == name@,
            0 < chars@.len() <= 64,
            forall|k: int|
                0 <= k < i ==> text::is_ascii_alphanumeric(#[trigger] name@[k]) || name@[k] == '_'
                    || name@[k] == '-' || name@[k] == '.',
        decreases chars@.len() - i,
    {
        let c = chars[i];
        if !text::ascii_alphanumeric(c) && c != '_' && c != '-' && c != '.' {
            assert(!text::is_ascii_alphanumeric(name@[i as int]));
            return false;
        }
        i += 1;
    }
    true
}

fn check_names(list: &Vec<SecImageExtension>, image: &str, partition: &str) -> (wrong: Option<
    SecImageError,
>)
    ensures
        wrong == names_error(
            certificate::extension_models(list@),
            image@,
            partition@,
            list@.len() as int,
        ),
{
    let ghost all = certificate::extension_models(list@);
    let mut n: usize = 0;
    while n < list.len()
        invariant
            n <= list@.len(),
            all == certificate::extension_models(list@),
            names_error(all, image@, partition@, n as int) is None,
        decreases list@.len() - n,
    {
        let e = &list[n];
        assert(all[n as int] == e@);
        let oid = text::chars_of(e.oid.as_str());
        let parts = text::split_char(oid.as_slice(), '.');
        let last = &parts[parts.len() - 1];
        assert(text::pieces(parts@).last() == parts@.last()@);
        let mut expected: Option<&str> = None;
        if text::is_text(last.as_slice(), "8") {
            expected = Some(image);
        } else if text::is_text(last.as_slice(), "14") {
            expected = Some(partition);
        }
        if let Some(name) = expected {
            let wrong = match extension_text(&e.value) {
                None => Some(SecImageError::WrongExtension),
                Some(found) => if text::same_text(found.as_str(), name) {
                    None
                } else {
                    Some(SecImageError::NameMismatch)
                },
            };
            if let Some(error) = wrong {
                proof {
                    lemma_names_fail(all, image@, partition@, n + 1, all.len() as int);
                }
                return Some(error);
            }
        }
        n += 1;
    }
    None
}

proof fn lemma_names_fail(
    list: Seq<ExtensionModel>,
    image: Seq<char>,
    partition: Seq<char>,
    n: int,
    m: int,
)
    requires
        0 <= n <= m,
        names_error(list, image, partition, n) is Some,
    ensures
        names_error(list, image, partition, m) == names_error(list, image, partition, n),
    decreases m,
{
    if n < m {
        lemma_names_fail(list, image, partition, n, m - 1);
    }
}

proof fn lemma_chain_names_fail(
    list: Seq<CertificateModel>,
    image: Seq<char>,
    partition: Seq<char>,
    n: int,
    m: int,
)
    requires
        0 <= n <= m,
        chain_names_error(list, image, partition, n) is Some,
    ensures
        chain_names_error(list, image, partition, m) == chain_names_error(
            list,
            image,
            partition,
            n,
        ),
    decreases m,
{
    if n < m {
        lemma_chain_names_fail(list, image, partition, n, m - 1);
    }
}

fn read_leaf(list: &Vec<SecImageCertificate>) -> (leaf: Result<LeafMetadata, SecImageError>)
    requires
        list@.len() == 3,
    ensures
        match leaf {
            Ok(found) => leaf_of(certificate::certificate_models(list@)) == Ok::<
                LeafModel,
                SecImageError,
            >(found.model()) && found.payload_size > 0,
            Err(error) => leaf_of(certificate::certificate_models(list@)) == Err::<
                LeafModel,
                SecImageError,
            >(error),
        },
{
    reveal(leaf_of);
    let ghost all = certificate::certificate_models(list@);
    let leaf = &list[2].proprietary_extensions;
    assert(all[2] == list@[2]@);
    let image_name = match read_text(leaf, "2.20.2.8") {
        Ok(name) => name,
        Err(error) => {
            return Err(error);
        },
    };
    let partition_name = match read_text(leaf, "2.20.2.14") {
        Ok(name) => name,
        Err(error) => {
            return Err(error);
        },
    };
    if !validate_name(image_name.as_str()) || !validate_name(partition_name.as_str()) {
        return Err(SecImageError::InvalidName);
    }
    let ghost image = image_name@;
    let ghost partition = partition_name@;
    let mut n: usize = 0;
    while n < list.len()
        invariant
            n <= list@.len(),
            list@.len() == 3,
            all == certificate::certificate_models(list@),
            image == image_name@,
            partition == partition_name@,
            is_name(image) && is_name(partition),
            required_text(all[2].proprietary_extensions, "2.20.2.8"@) == Ok::<
                Seq<char>,
                SecImageError,
            >(image),
            required_text(all[2].proprietary_extensions, "2.20.2.14"@) == Ok::<
                Seq<char>,
                SecImageError,
            >(partition),
            chain_names_error(all, image, partition, n as int) is None,
        decreases list@.len() - n,
    {
        assert(all[n as int] == list@[n as int]@);
        if let Some(error) = check_names(
            &list[n].proprietary_extensions,
            image_name.as_str(),
            partition_name.as_str(),
        ) {
            proof {
                reveal(leaf_of);
                lemma_chain_names_fail(all, image, partition, n + 1, 3);
            }
            return Err(error);
        }
        n += 1;
    }
    let payload_size: u64 = match read_integer(leaf, "2.20.2.67") {
        Ok(Some(size)) => size,
        Ok(None) => {
            return Err(SecImageError::MissingExtension);
        },
        Err(error) => {
            return Err(error);
        },
    };
    if payload_size == 0 {
        return Err(SecImageError::EmptyPayload);
    }
    let secondary_size: Option<u64> = match read_integer(leaf, "2.20.2.69") {
        Ok(size) => size,
        Err(error) => {
            return Err(error);
        },
    };
    let payload_sha256 = match read_octets(leaf, "2.20.2.65") {
        Ok(digest) => digest,
        Err(error) => {
            return Err(error);
        },
    };
    if payload_sha256.len() != 32 {
        return Err(SecImageError::InvalidDigest);
    }
    Ok(LeafMetadata { image_name, partition_name, payload_size, secondary_size, payload_sha256 })
}

/// What the chain at the start of the data states of its payload.
pub open spec fn metadata_of(data: Seq<u8>) -> Result<LeafModel, SecImageError> {
    match chain_of(data, 0, HEADER_SIZE as int) {
        Err(error) => Err(error),
        Ok((list, end)) => leaf_of(list),
    }
}

fn probe_metadata(data: &[u8]) -> (leaf: Result<LeafMetadata, SecImageError>)
    ensures
        match leaf {
            Ok(found) => metadata_of(data@) == Ok::<LeafModel, SecImageError>(found.model()),
            Err(error) => metadata_of(data@) == Err::<LeafModel, SecImageError>(error),
        },
{
    match read_chain(data, 0, HEADER_SIZE) {
        Ok((list, end)) => read_leaf(&list),
        Err(error) => Err(error),
    }
}

/// True when data starts with the chain of a secure image.
pub fn probe(data: &[u8]) -> (is: bool)
    ensures
        is == (metadata_of(data@) is Ok),
{
    probe_metadata(data).is_ok()
}

/// How much of a file is enough to tell whether it is a secure image.
pub fn probe_length(file_size: u64) -> (length: u64)
    ensures
        length == if file_size < 0x1_2000 {
            file_size
        } else {
            0x1_2000
        },
{
    if file_size < 0x1_2000 {
        file_size
    } else {
        0x1_2000
    }
}

/// True when a file that starts with `head` is a secure image, and as long as
/// it has to be.
pub fn probe_image(head: &[u8], file_size: u64) -> (is: bool)
    ensures
        is == (file_size >= HEADER_SIZE && (metadata_of(head@) matches Ok(leaf) && HEADER_SIZE
            + leaf.payload_size <= file_size)),
{
    if file_size < 0x2000 {
        return false;
    }
    match probe_metadata(head) {
        Ok(leaf) => 0x2000 + leaf.payload_size as u128 <= file_size as u128,
        Err(_) => false,
    }
}

// ---------------------------------------------------------------------------
// Stages
// ---------------------------------------------------------------------------

/// A chain of certificates, and the payload that it authenticates.
#[derive(Debug)]
pub struct SecImageStage {
    pub image_name: String,
    pub partition_name: String,
    pub certificate_group_offset: u64,
    pub certificate_chain_size: u64,
    pub inner_certificates: Vec<SecImageCertificate>,
    pub certificates: Vec<SecImageCertificate>,
    pub payload_offset: u64,
    pub payload_size: u64,
    pub secondary_size: Option<u64>,
    /// True when the payload is all that stands before the chain.
    pub authenticates_prefix: bool,
    pub declared_payload_sha256: String,
    pub actual_payload_sha256: String,
    pub payload_hash_valid: bool,
}

#[verifier::ext_equal]
pub struct StageModel {
    pub image_name: Seq<char>,
    pub partition_name: Seq<char>,
    pub certificate_group_offset: int,
    pub certificate_chain_size: int,
    pub inner_certificates: Seq<CertificateModel>,
    pub certificates: Seq<CertificateModel>,
    pub payload_offset: int,
    pub payload_size: int,
    pub secondary_size: Option<u64>,
    pub authenticates_prefix: bool,
    pub declared_payload_sha256: Seq<char>,
    pub actual_payload_sha256: Seq<char>,
    pub payload_hash_valid: bool,
}

impl View for SecImageStage {
    type V = StageModel;

    open spec fn view(&self) -> StageModel {
        StageModel {
            image_name: self.image_name@,
            partition_name: self.partition_name@,
            certificate_group_offset: self.certificate_group_offset as int,
            certificate_chain_size: self.certificate_chain_size as int,
            inner_certificates: certificate::certificate_models(self.inner_certificates@),
            certificates: certificate::certificate_models(self.certificates@),
            payload_offset: self.payload_offset as int,
            payload_size: self.payload_size as int,
            secondary_size: self.secondary_size,
            authenticates_prefix: self.authenticates_prefix,
            declared_payload_sha256: self.declared_payload_sha256@,
            actual_payload_sha256: self.actual_payload_sha256@,
            payload_hash_valid: self.payload_hash_valid,
        }
    }
}

pub open spec fn stage_models(list: Seq<SecImageStage>) -> Seq<StageModel> {
    list.map_values(|s: SecImageStage| s@)
}

impl SecImageStage {
    /// Where the payload ends, if that is a position in memory.
    pub fn payload_end(&self) -> (end: Option<usize>)
        ensures
            match end {
                Some(found) => found == self.payload_offset + self.payload_size,
                None => self.payload_offset + self.payload_size > usize::MAX,
            },
    {
        let end: u128 = self.payload_offset as u128 + self.payload_size as u128;
        if end > usize::MAX as u128 {
            None
        } else {
            Some(end as usize)
        }
    }
}

/// The next multiple of a block from `value` on.
pub open spec fn aligned(value: int) -> int {
    let up = (value + BLOCK_ALIGN - 1) / BLOCK_ALIGN as int * BLOCK_ALIGN;
    if value + BLOCK_ALIGN - 1 > usize::MAX {
        usize::MAX as int
    } else {
        up
    }
}

fn align_up(value: usize) -> (up: usize)
    ensures
        up == aligned(value as int),
        up >= value,
{
    if value > usize::MAX - 0xfff {
        return usize::MAX;
    }
    (value + 0xfff) / 0x1000 * 0x1000
}

/// The first place from `at` on, a block apart and not behind `end`, at which
/// `size` bytes have the digest.
pub open spec fn found_at(data: Seq<u8>, digest: Seq<u8>, size: int, at: int, end: int) -> Option<int>
    decreases end - at + BLOCK_ALIGN,
{
    if at > end {
        None
    } else if at + size <= data.len() && inode::sha256_of(data.subrange(at, at + size)) == digest {
        Some(at)
    } else {
        found_at(data, digest, size, at + BLOCK_ALIGN, end)
    }
}

/// Where the payload starts if no digest tells: behind the inner certificates.
pub open spec fn structural_end(inner: Seq<CertificateModel>, first: int) -> int {
    if inner.len() == 0 {
        first
    } else {
        aligned(inner.last().offset + inner.last().size)
    }
}

pub open spec fn least(a: int, b: int) -> int {
    if a < b {
        a
    } else {
        b
    }
}

/// The stage of a chain whose payload stands behind it.
pub open spec fn stage_behind(
    data: Seq<u8>,
    group: int,
    certificates: Seq<CertificateModel>,
    chain_end: int,
    leaf: LeafModel,
) -> Result<StageModel, SecImageError> {
    let first = group + HEADER_SIZE;
    let inner = inner_from(data, first, least(first + MAX_HEADER_SCAN, data.len() as int), 0);
    let last = structural_end(inner, first);
    let found = found_at(
        data,
        leaf.payload_sha256,
        leaf.payload_size as int,
        first,
        least(last, data.len() as int),
    );
    let offset = match found {
        Some(at) => at,
        None => last,
    };
    let end = offset + leaf.payload_size;
    if end > data.len() {
        Err(SecImageError::PayloadBeyondFile)
    } else {
        Ok(
            StageModel {
                image_name: leaf.image_name,
                partition_name: leaf.partition_name,
                certificate_group_offset: group,
                certificate_chain_size: chain_end - group,
                inner_certificates: if offset > first {
                    inner
                } else {
                    seq![]
                },
                certificates,
                payload_offset: offset,
                payload_size: leaf.payload_size as int,
                secondary_size: leaf.secondary_size,
                authenticates_prefix: false,
                declared_payload_sha256: der::lower_hex(leaf.payload_sha256),
                actual_payload_sha256: der::lower_hex(
                    inode::sha256_of(data.subrange(offset, end)),
                ),
                payload_hash_valid: found is Some,
            },
        )
    }
}

/// The stage of a chain that authenticates all that stands before it.
pub open spec fn stage_before(
    data: Seq<u8>,
    group: int,
    certificates: Seq<CertificateModel>,
    chain_end: int,
    leaf: LeafModel,
) -> StageModel {
    StageModel {
        image_name: leaf.image_name,
        partition_name: leaf.partition_name,
        certificate_group_offset: group,
        certificate_chain_size: chain_end - group,
        inner_certificates: seq![],
        certificates,
        payload_offset: 0,
        payload_size: leaf.payload_size as int,
        secondary_size: leaf.secondary_size,
        authenticates_prefix: true,
        declared_payload_sha256: der::lower_hex(leaf.payload_sha256),
        actual_payload_sha256: der::lower_hex(inode::sha256_of(data.take(group))),
        payload_hash_valid: true,
    }
}

/// The stage whose chain stands at `group`.
#[verifier::opaque]
pub open spec fn stage_of(data: Seq<u8>, group: int) -> Result<StageModel, SecImageError> {
    match chain_of(data, group, group + HEADER_SIZE) {
        Err(error) => Err(error),
        Ok((certificates, chain_end)) => match leaf_of(certificates) {
            Err(error) => Err(error),
            Ok(leaf) => if leaf.payload_size == group && inode::sha256_of(data.take(group))
                == leaf.payload_sha256 {
                Ok(stage_before(data, group, certificates, chain_end, leaf))
            } else {
                stage_behind(data, group, certificates, chain_end, leaf)
            },
        },
    }
}

fn find_payload(data: &[u8], digest: &[u8], size: u64, first: usize, end: usize) -> (found: Option<
    usize,
>)
    requires
        first <= data@.len(),
        end <= data@.len(),
    ensures
        match found {
            Some(at) => found_at(data@, digest@, size as int, first as int, end as int) == Some(
                at as int,
            ) && first <= at <= end,
            None => found_at(data@, digest@, size as int, first as int, end as int) is None,
        },
{
    let mut at: usize = first;
    while at <= end
        invariant
            end <= data@.len(),
            first <= at,
            found_at(data@, digest@, size as int, first as int, end as int) == found_at(
                data@,
                digest@,
                size as int,
                at as int,
                end as int,
            ),
        decreases end - at + 0x1000,
    {
        assert(data.len() <= usize::MAX);
        if at as u128 + size as u128 <= data.len() as u128 {
            let part = &data[at..at + size as usize];
            let actual = inode::sha256(part);
            if bytes::same_bytes(actual.as_slice(), digest) {
                return Some(at);
            }
        }
        if at > usize::MAX - 0x1000 {
            assert(found_at(data@, digest@, size as int, at + 0x1000, end as int) is None);
            return None;
        }
        at += 0x1000;
    }
    None
}

/// What a stage that was read has.
pub open spec fn is_stage(s: StageModel, data: Seq<u8>, group: int) -> bool {
    &&& s.payload_offset >= 0
    &&& s.payload_size > 0
    &&& s.payload_offset + s.payload_size <= data.len()
    &&& 0 <= s.certificate_chain_size <= HEADER_SIZE
    &&& s.certificate_group_offset == group
}

/// Reads the stage whose chain stands at `group`.
pub fn parse_stage(data: &[u8], group: usize) -> (stage: Result<SecImageStage, SecImageError>)
    ensures
        match stage {
            Ok(found) => stage_of(data@, group as int) == Ok::<StageModel, SecImageError>(found@)
                && is_stage(found@, data@, group as int),
            Err(error) => stage_of(data@, group as int) == Err::<StageModel, SecImageError>(error),
        },
{
    reveal(stage_of);
    assert(data.len() <= usize::MAX);
    if group > data.len() || data.len() - group < HEADER_SIZE {
        reveal(chain_of);
        return Err(SecImageError::Window);
    }
    let first: usize = group + HEADER_SIZE;
    let (certificates, chain_end) = match read_chain(data, group, first) {
        Ok(chain) => chain,
        Err(error) => {
            return Err(error);
        },
    };
    let leaf = match read_leaf(&certificates) {
        Ok(leaf) => leaf,
        Err(error) => {
            return Err(error);
        },
    };
    let declared = der::encode(leaf.payload_sha256.as_slice());
    if leaf.payload_size == group as u64 {
        assert(data@.subrange(0, group as int) =~= data@.take(group as int));
        let actual = inode::sha256(&data[0..group]);
        if bytes::same_bytes(actual.as_slice(), leaf.payload_sha256.as_slice()) {
            let inner: Vec<SecImageCertificate> = Vec::new();
            assert(certificate::certificate_models(inner@) =~= Seq::<CertificateModel>::empty());
            return Ok(
                SecImageStage {
                    image_name: leaf.image_name,
                    partition_name: leaf.partition_name,
                    certificate_group_offset: group as u64,
                    certificate_chain_size: (chain_end - group) as u64,
                    inner_certificates: inner,
                    certificates,
                    payload_offset: 0,
                    payload_size: leaf.payload_size,
                    secondary_size: leaf.secondary_size,
                    authenticates_prefix: true,
                    declared_payload_sha256: declared,
                    actual_payload_sha256: der::encode(actual.as_slice()),
                    payload_hash_valid: true,
                },
            );
        }
    }
    locate_payload(data, group, certificates, chain_end, leaf)
}

/// Finds the payload behind a chain.
fn locate_payload(
    data: &[u8],
    group: usize,
    certificates: Vec<SecImageCertificate>,
    chain_end: usize,
    leaf: LeafMetadata,
) -> (stage: Result<SecImageStage, SecImageError>)
    requires
        group + HEADER_SIZE <= data@.len(),
        group <= chain_end <= group + HEADER_SIZE,
        leaf.payload_size > 0,
    ensures
        ({
            let wanted = stage_behind(
                data@,
                group as int,
                certificate::certificate_models(certificates@),
                chain_end as int,
                leaf.model(),
            );
            match stage {
                Ok(found) => wanted == Ok::<StageModel, SecImageError>(found@) && is_stage(
                    found@,
                    data@,
                    group as int,
                ),
                Err(error) => wanted == Err::<StageModel, SecImageError>(error),
            }
        }),
{
    assert(data.len() <= usize::MAX);
    let first: usize = group + HEADER_SIZE;
    let declared = der::encode(leaf.payload_sha256.as_slice());
    let limit: usize = if data.len() - first < MAX_HEADER_SCAN {
        data.len()
    } else {
        first + MAX_HEADER_SCAN
    };
    let mut inner = scan_inner_certificates(data, first, limit);
    let ghost all = certificate::certificate_models(inner@);
    let last: usize = if inner.len() == 0 {
        first
    } else {
        let c = &inner[inner.len() - 1];
        assert(certificate::certificate_models(inner@).last() == c@);
        align_up((c.offset + c.size) as usize)
    };
    assert(last == structural_end(certificate::certificate_models(inner@), first as int));
    let end: usize = if last < data.len() {
        last
    } else {
        data.len()
    };
    let found = find_payload(
        data,
        leaf.payload_sha256.as_slice(),
        leaf.payload_size,
        first,
        end,
    );
    let valid = found.is_some();
    let offset: usize = match found {
        Some(at) => at,
        None => last,
    };
    if offset as u128 + leaf.payload_size as u128 > data.len() as u128 {
        return Err(SecImageError::PayloadBeyondFile);
    }
    let payload = &data[offset..offset + leaf.payload_size as usize];
    let actual = inode::sha256(payload);
    if offset <= first {
        inner = Vec::new();
        assert(certificate::certificate_models(inner@) =~= Seq::<CertificateModel>::empty());
    }
    Ok(
        SecImageStage {
            image_name: leaf.image_name,
            partition_name: leaf.partition_name,
            certificate_group_offset: group as u64,
            certificate_chain_size: (chain_end - group) as u64,
            inner_certificates: inner,
            certificates,
            payload_offset: offset as u64,
            payload_size: leaf.payload_size,
            secondary_size: leaf.secondary_size,
            authenticates_prefix: false,
            declared_payload_sha256: declared,
            actual_payload_sha256: der::encode(actual.as_slice()),
            payload_hash_valid: valid,
        },
    )
}

// ---------------------------------------------------------------------------
// Images
// ---------------------------------------------------------------------------

/// What is said of a chain whose payload has another digest.
pub open spec fn ignored_warning(offset: int) -> Seq<char> {
    "ignoring certificate group at 0x"@ + text::hexadecimal(offset as nat)
        + ": its payload SHA-256 does not match"@
}

/// The next stage from `offset` on that has its digest, and what is said of
/// those before it that have not.
pub open spec fn next_from(data: Seq<u8>, offset: int) -> (Option<StageModel>, Seq<Seq<char>>)
    decreases data.len() - offset,
{
    if offset < 0 || offset + HEADER_SIZE > data.len() {
        (None, seq![])
    } else {
        let rest = next_from(data, offset + BLOCK_ALIGN);
        if data[offset] != 0x30 {
            rest
        } else {
            match stage_of(data, offset) {
                Err(_) => rest,
                Ok(stage) => if stage.payload_hash_valid {
                    (Some(stage), seq![])
                } else {
                    (rest.0, seq![ignored_warning(offset)] + rest.1)
                },
            }
        }
    }
}

fn scan_next_stage(data: &[u8], from: usize, warnings: &mut Vec<String>) -> (next: Option<
    SecImageStage,
>)
    ensures
        ({
            let wanted = next_from(data@, aligned(from as int));
            &&& text::texts(final(warnings)@) == text::texts(old(warnings)@) + wanted.1
            &&& match next {
                Some(stage) => wanted.0 == Some(stage@) && is_stage(
                    stage@,
                    data@,
                    stage@.certificate_group_offset,
                ) && stage@.payload_hash_valid,
                None => wanted.0 is None,
            }
        }),
{
    let mut offset: usize = align_up(from);
    let ghost wanted = next_from(data@, offset as int);
    let ghost before = text::texts(warnings@);
    assert(before + wanted.1 == text::texts(warnings@) + wanted.1);
    while offset <= data.len() && data.len() - offset >= HEADER_SIZE
        invariant
            before == text::texts(old(warnings)@),
            wanted == next_from(data@, aligned(from as int)),
            next_from(data@, offset as int).0 == wanted.0,
            before + wanted.1 == text::texts(warnings@) + next_from(data@, offset as int).1,
        decreases data@.len() - offset,
    {
        assert(data.len() <= usize::MAX);
        let ghost rest = next_from(data@, offset + BLOCK_ALIGN);
        if data[offset] == 0x30 {
            match parse_stage(data, offset) {
                Ok(stage) => {
                    if stage.payload_hash_valid {
                        assert(text::texts(warnings@) + Seq::<Seq<char>>::empty()
                            =~= text::texts(warnings@));
                        return Some(stage);
                    }
                    let mut message: Vec<char> = Vec::new();
                    text::append_text(&mut message, "ignoring certificate group at 0x");
                    text::push_hexadecimal(&mut message, offset as u64);
                    text::append_text(&mut message, ": its payload SHA-256 does not match");
                    assert(message@ =~= ignored_warning(offset as int));
                    let ghost said = text::texts(warnings@);
                    warnings.push(text::string_of(message.as_slice()));
                    assert(text::texts(warnings@) =~= said.push(ignored_warning(offset as int)));
                    assert(said + (seq![ignored_warning(offset as int)] + rest.1) =~= text::texts(
                        warnings@,
                    ) + rest.1);
                },
                Err(_) => {},
            }
        }
        offset += BLOCK_ALIGN;
    }
    assert(text::texts(warnings@) + Seq::<Seq<char>>::empty() =~= text::texts(warnings@));
    None
}

/// The stages of an image, and what is said on the way: each stage starts behind
/// the payload of the one before it. One that authenticates what stands before
/// it is the last.
pub open spec fn stages_from(
    data: Seq<u8>,
    stages: Seq<StageModel>,
    scan_from: int,
    warnings: Seq<Seq<char>>,
) -> (Seq<StageModel>, Seq<Seq<char>>)
    decreases MAX_STAGES - stages.len(),
{
    if stages.len() >= MAX_STAGES {
        (stages, warnings)
    } else {
        let (next, said) = next_from(data, aligned(scan_from));
        match next {
            None => (stages, warnings + said),
            Some(stage) => {
                let end = stage.payload_offset + stage.payload_size;
                if stage.authenticates_prefix {
                    (stages.push(stage), warnings + said)
                } else if end <= scan_from {
                    (stages, warnings + said)
                } else {
                    stages_from(data, stages.push(stage), end, warnings + said)
                }
            },
        }
    }
}

/// How many of the first `n` bytes from `from` on are not zero.
pub open spec fn nonzero(data: Seq<u8>, from: int, to: int) -> nat
    decreases to - from,
{
    if from >= to {
        0
    } else {
        nonzero(data, from, to - 1) + if data[to - 1] != 0 {
            1nat
        } else {
            0nat
        }
    }
}

/// How many bytes between the chain and the payload are set. The last four may
/// state the size of the payload in words.
pub open spec fn padding_set(data: Seq<u8>, stage: StageModel) -> nat {
    let end = HEADER_SIZE - 4;
    nonzero(data, stage.certificate_chain_size, end) + if bytes::le32(data, end) * 4
        == stage.payload_size {
        0
    } else {
        nonzero(data, end, HEADER_SIZE as int)
    }
}

pub open spec fn padding_warning(count: nat) -> Seq<char> {
    text::decimal(count)
        + " non-zero byte(s) occur between the certificate chain and payload"@
}

pub open spec fn stage_warning(number: int) -> Seq<char> {
    "stage "@ + text::decimal(number as nat)
        + " payload SHA-256 does not match leaf certificate OID 2.20.2.65"@
}

/// What is said of the digests of the first `n` stages.
pub open spec fn stage_warnings(stages: Seq<StageModel>, n: int) -> Seq<Seq<char>>
    decreases n,
{
    if n <= 0 {
        seq![]
    } else if stages[n - 1].payload_hash_valid {
        stage_warnings(stages, n - 1)
    } else {
        stage_warnings(stages, n - 1).push(stage_warning(n))
    }
}

/// What is said of an image.
pub open spec fn all_warnings(data: Seq<u8>, stages: Seq<StageModel>, said: Seq<Seq<char>>) -> Seq<
    Seq<char>,
> {
    let primary = stages[0];
    let first = if padding_set(data, primary) != 0 {
        said.push(padding_warning(padding_set(data, primary)))
    } else {
        said
    };
    let second = if primary.payload_hash_valid {
        first
    } else {
        first.push("payload SHA-256 does not match leaf certificate OID 2.20.2.65"@)
    };
    let third = if primary.secondary_size matches Some(size) && size != primary.payload_size {
        second.push("leaf certificate OIDs 2.20.2.67 and 2.20.2.69 contain different sizes"@)
    } else {
        second
    };
    third + stage_warnings(stages, stages.len() as int)
}

/// A secure image.
#[derive(Debug)]
pub struct SecImageInfo {
    pub image_name: String,
    pub partition_name: String,
    pub file_size: u64,
    pub header_size: u64,
    pub certificate_chain_size: u64,
    pub header_padding_size: u64,
    pub payload_offset: u64,
    pub payload_size: u64,
    pub secondary_size: Option<u64>,
    pub trailing_size: u64,
    pub declared_payload_sha256: String,
    pub actual_payload_sha256: String,
    pub payload_hash_valid: bool,
    pub stages: Vec<SecImageStage>,
    pub inner_certificates: Vec<SecImageCertificate>,
    pub warnings: Vec<String>,
}

#[verifier::ext_equal]
pub struct InfoModel {
    pub image_name: Seq<char>,
    pub partition_name: Seq<char>,
    pub file_size: int,
    pub header_size: int,
    pub certificate_chain_size: int,
    pub header_padding_size: int,
    pub payload_offset: int,
    pub payload_size: int,
    pub secondary_size: Option<u64>,
    pub trailing_size: int,
    pub declared_payload_sha256: Seq<char>,
    pub actual_payload_sha256: Seq<char>,
    pub payload_hash_valid: bool,
    pub stages: Seq<StageModel>,
    pub inner_certificates: Seq<CertificateModel>,
    pub warnings: Seq<Seq<char>>,
}

impl View for SecImageInfo {
    type V = InfoModel;

    open spec fn view(&self) -> InfoModel {
        InfoModel {
            image_name: self.image_name@,
            partition_name: self.partition_name@,
            file_size: self.file_size as int,
            header_size: self.header_size as int,
            certificate_chain_size: self.certificate_chain_size as int,
            header_padding_size: self.header_padding_size as int,
            payload_offset: self.payload_offset as int,
            payload_size: self.payload_size as int,
            secondary_size: self.secondary_size,
            trailing_size: self.trailing_size as int,
            declared_payload_sha256: self.declared_payload_sha256@,
            actual_payload_sha256: self.actual_payload_sha256@,
            payload_hash_valid: self.payload_hash_valid,
            stages: stage_models(self.stages@),
            inner_certificates: certificate::certificate_models(self.inner_certificates@),
            warnings: text::texts(self.warnings@),
        }
    }
}

/// True when every stage has the digest that it declares.
pub open spec fn all_valid(stages: Seq<StageModel>) -> bool {
    forall|i: int| 0 <= i < stages.len() ==> (#[trigger] stages[i]).payload_hash_valid
}

/// What a secure image holds.
pub open spec fn image_of(data: Seq<u8>) -> Result<InfoModel, SecImageError> {
    if data.len() < HEADER_SIZE {
        Err(SecImageError::TooSmall)
    } else {
        match stage_of(data, 0) {
            Err(error) => Err(error),
            Ok(primary) => {
                let (stages, said) = stages_from(
                    data,
                    seq![primary],
                    primary.payload_offset + primary.payload_size,
                    seq![],
                );
                Ok(info_of(data, primary, stages, said))
            },
        }
    }
}

/// What the stages say of an image as a whole.
pub open spec fn info_of(
    data: Seq<u8>,
    primary: StageModel,
    stages: Seq<StageModel>,
    said: Seq<Seq<char>>,
) -> InfoModel {
    InfoModel {
        image_name: primary.image_name,
        partition_name: primary.partition_name,
        file_size: data.len() as int,
        header_size: HEADER_SIZE as int,
        certificate_chain_size: primary.certificate_chain_size,
        header_padding_size: HEADER_SIZE - primary.certificate_chain_size,
        payload_offset: primary.payload_offset,
        payload_size: primary.payload_size,
        secondary_size: primary.secondary_size,
        trailing_size: data.len() - (stages.last().payload_offset + stages.last().payload_size),
        declared_payload_sha256: primary.declared_payload_sha256,
        actual_payload_sha256: primary.actual_payload_sha256,
        payload_hash_valid: all_valid(stages),
        stages,
        inner_certificates: primary.inner_certificates,
        warnings: all_warnings(data, stages, said),
    }
}

fn count_nonzero(data: &[u8], from: usize, to: usize) -> (count: usize)
    requires
        to <= data@.len(),
    ensures
        count == nonzero(data@, from as int, to as int),
        count <= to,
{
    let mut count: usize = 0;
    if from >= to {
        return 0;
    }
    let mut i: usize = from;
    while i < to
        invariant
            from <= i <= to <= data@.len(),
            count <= i - from,
            count == nonzero(data@, from as int, i as int),
        decreases to - i,
    {
        if data[i] != 0 {
            count += 1;
        }
        i += 1;
    }
    count
}

fn collect_stages(data: &[u8], first: SecImageStage) -> (collected: (
    Vec<SecImageStage>,
    Vec<String>,
))
    requires
        is_stage(first@, data@, 0),
    ensures
        stages_from(data@, seq![first@], first@.payload_offset + first@.payload_size, seq![]) == (
            stage_models(collected.0@),
            text::texts(collected.1@),
        ),
        collected.0@.len() > 0,
        collected.0@[0]@ == first@,
        forall|i: int|
            0 <= i < collected.0@.len() ==> is_stage(
                (#[trigger] collected.0@[i])@,
                data@,
                collected.0@[i]@.certificate_group_offset,
            ),
{
    assert(data.len() <= usize::MAX);
    let mut scan_from: usize = (first.payload_offset + first.payload_size) as usize;
    let ghost wanted = stages_from(data@, seq![first@], scan_from as int, seq![]);
    let ghost primary = first@;
    let mut stages: Vec<SecImageStage> = Vec::new();
    stages.push(first);
    let mut warnings: Vec<String> = Vec::new();
    assert(stage_models(stages@) =~= seq![primary]);
    assert(text::texts(warnings@) =~= Seq::<Seq<char>>::empty());
    let mut done = false;
    while stages.len() < MAX_STAGES && !done
        invariant
            1 <= stages@.len() <= MAX_STAGES,
            data@.len() <= usize::MAX,
            stages@[0]@ == primary,
            forall|i: int|
                0 <= i < stages@.len() ==> is_stage(
                    (#[trigger] stages@[i])@,
                    data@,
                    stages@[i]@.certificate_group_offset,
                ),
            done ==> wanted == (stage_models(stages@), text::texts(warnings@)),
            !done ==> wanted == stages_from(
                data@,
                stage_models(stages@),
                scan_from as int,
                text::texts(warnings@),
            ),
        decreases
                MAX_STAGES - stages@.len() + if done {
                    0int
                } else {
                    1
                },
    {
        let ghost before = stage_models(stages@);
        assert(before.len() == stages@.len());
        match scan_next_stage(data, scan_from, &mut warnings) {
            None => {
                done = true;
            },
            Some(next) => {
                let ghost model = next@;
                let end: usize = (next.payload_offset + next.payload_size) as usize;
                if next.authenticates_prefix {
                    stages.push(next);
                    assert(stage_models(stages@) =~= before.push(model));
                    done = true;
                } else if end <= scan_from {
                    done = true;
                } else {
                    scan_from = end;
                    stages.push(next);
                    assert(stage_models(stages@) =~= before.push(model));
                }
            },
        }
    }
    assert(stage_models(stages@).len() == stages@.len());
    (stages, warnings)
}

fn add_warnings(data: &[u8], stages: &Vec<SecImageStage>, warnings: &mut Vec<String>)
    requires
        data@.len() >= HEADER_SIZE,
        stages@.len() > 0,
        stages@.len() <= MAX_STAGES,
        0 <= stages@[0]@.certificate_chain_size <= HEADER_SIZE,
    ensures
        text::texts(final(warnings)@) == all_warnings(
            data@,
            stage_models(stages@),
            text::texts(old(warnings)@),
        ),
{
    let ghost all = stage_models(stages@);
    let ghost said = text::texts(warnings@);
    let primary = &stages[0];
    assert(all[0] == primary@);
    let end: usize = HEADER_SIZE - 4;
    let mut count: usize = count_nonzero(data, primary.certificate_chain_size as usize, end);
    let marker: u32 = bytes::read_u32(data, end);
    if (marker as u64) * 4 != primary.payload_size {
        count += count_nonzero(data, end, HEADER_SIZE);
    }
    assert(count == padding_set(data@, all[0]));
    if count != 0 {
        let mut message: Vec<char> = Vec::new();
        text::push_decimal(&mut message, count as u64);
        text::append_text(
            &mut message,
            " non-zero byte(s) occur between the certificate chain and payload",
        );
        assert(message@ =~= padding_warning(count as nat));
        warnings.push(text::string_of(message.as_slice()));
        assert(text::texts(warnings@) =~= said.push(padding_warning(count as nat)));
    }
    let ghost first = text::texts(warnings@);
    if !primary.payload_hash_valid {
        let chars = text::chars_of("payload SHA-256 does not match leaf certificate OID 2.20.2.65");
        warnings.push(text::string_of(chars.as_slice()));
        assert(text::texts(warnings@) =~= first.push(
            "payload SHA-256 does not match leaf certificate OID 2.20.2.65"@,
        ));
    }
    let ghost second = text::texts(warnings@);
    if let Some(size) = primary.secondary_size {
        if size != primary.payload_size {
            let chars = text::chars_of(
                "leaf certificate OIDs 2.20.2.67 and 2.20.2.69 contain different sizes",
            );
            warnings.push(text::string_of(chars.as_slice()));
            assert(text::texts(warnings@) =~= second.push(
                "leaf certificate OIDs 2.20.2.67 and 2.20.2.69 contain different sizes"@,
            ));
        }
    }
    let ghost third = text::texts(warnings@);
    let mut n: usize = 0;
    assert(third + stage_warnings(all, 0) =~= third);
    while n < stages.len()
        invariant
            n <= stages@.len() <= MAX_STAGES,
            all == stage_models(stages@),
            text::texts(warnings@) == third + stage_warnings(all, n as int),
        decreases stages@.len() - n,
    {
        assert(all[n as int] == stages@[n as int]@);
        let ghost before = text::texts(warnings@);
        if !stages[n].payload_hash_valid {
            let mut message: Vec<char> = Vec::new();
            text::append_text(&mut message, "stage ");
            text::push_decimal(&mut message, n as u64 + 1);
            text::append_text(
                &mut message,
                " payload SHA-256 does not match leaf certificate OID 2.20.2.65",
            );
            assert(message@ =~= stage_warning(n + 1));
            warnings.push(text::string_of(message.as_slice()));
            assert(text::texts(warnings@) =~= before.push(stage_warning(n + 1)));
            assert(text::texts(warnings@) =~= third + stage_warnings(all, n + 1));
        }
        n += 1;
    }
}

fn are_valid(stages: &Vec<SecImageStage>) -> (valid: bool)
    ensures
        valid == all_valid(stage_models(stages@)),
{
    let ghost all = stage_models(stages@);
    let mut n: usize = 0;
    while n < stages.len()
        invariant
            n <= stages@.len(),
            all == stage_models(stages@),
            forall|i: int| 0 <= i < n ==> (#[trigger] all[i]).payload_hash_valid,
        decreases stages@.len() - n,
    {
        assert(all[n as int] == stages@[n as int]@);
        if !stages[n].payload_hash_valid {
            assert(!all[n as int].payload_hash_valid);
            return false;
        }
        n += 1;
    }
    assert(all.len() == stages@.len());
    true
}

impl SecImageInfo {
    /// Parses a secure image.
    pub fn from_bytes(data: &[u8]) -> (info: Result<SecImageInfo, SecImageError>)
        ensures
            match info {
                Ok(found) => image_of(data@) == Ok::<InfoModel, SecImageError>(found@),
                Err(error) => image_of(data@) == Err::<InfoModel, SecImageError>(error),
            },
    {
        if data.len() < HEADER_SIZE {
            return Err(SecImageError::TooSmall);
        }
        let first = match parse_stage(data, 0) {
            Ok(first) => first,
            Err(error) => {
                return Err(error);
            },
        };
        let ghost primary_model = first@;
        let (stages, mut warnings) = collect_stages(data, first);
        let ghost said = text::texts(warnings@);
        let ghost all = stage_models(stages@);
        proof {
            lemma_stage_count(
                data@,
                seq![primary_model],
                primary_model.payload_offset + primary_model.payload_size,
                seq![],
            );
            assert(all.len() == stages@.len());
            assert(all[0] == stages@[0]@);
            assert(all.last() == stages@.last()@);
        }
        add_warnings(data, &stages, &mut warnings);
        let valid = are_valid(&stages);
        let last = &stages[stages.len() - 1];
        let trailing: u64 = data.len() as u64 - (last.payload_offset + last.payload_size);
        let primary = &stages[0];
        let info = SecImageInfo {
            image_name: primary.image_name.clone(),
            partition_name: primary.partition_name.clone(),
            file_size: data.len() as u64,
            header_size: HEADER_SIZE as u64,
            certificate_chain_size: primary.certificate_chain_size,
            header_padding_size: HEADER_SIZE as u64 - primary.certificate_chain_size,
            payload_offset: primary.payload_offset,
            payload_size: primary.payload_size,
            secondary_size: primary.secondary_size,
            trailing_size: trailing,
            declared_payload_sha256: primary.declared_payload_sha256.clone(),
            actual_payload_sha256: primary.actual_payload_sha256.clone(),
            payload_hash_valid: valid,
            inner_certificates: certificate::copy_certificates(&primary.inner_certificates),
            stages,
            warnings,
        };
        assert(info@ == info_of(data@, primary_model, all, said));
        Ok(info)
    }

    /// The payload of the first stage.
    pub fn payload<'a>(&self, data: &'a [u8]) -> (payload: Result<&'a [u8], SecImageError>)
        ensures
            self.is_payload(0, data@, payload),
    {
        self.stage_payload(0, data)
    }

    /// True when `payload` is that of a stage, or of the first stage where there
    /// is no such stage.
    pub open spec fn is_payload(
        &self,
        index: int,
        data: Seq<u8>,
        payload: Result<&[u8], SecImageError>,
    ) -> bool {
        let stage = if index < self.stages@.len() {
            self.stages@[index]
        } else {
            self.stages@[0]
        };
        let end = stage.payload_offset + stage.payload_size;
        match payload {
            Err(error) => if self.stages@.len() == 0 {
                error == SecImageError::NoStages
            } else if data.len() != self.file_size {
                error == SecImageError::LengthMismatch
            } else if end > usize::MAX {
                error == SecImageError::PayloadOverflow
            } else {
                error == SecImageError::PayloadBeyondFile && end > data.len()
            },
            Ok(found) => {
                &&& self.stages@.len() > 0
                &&& data.len() == self.file_size
                &&& end <= data.len()
                &&& found@ == data.subrange(stage.payload_offset as int, end)
            },
        }
    }

    /// The payload of a stage, or of the first stage where there is no such
    /// stage.
    pub fn stage_payload<'a>(&self, index: usize, data: &'a [u8]) -> (payload: Result<
        &'a [u8],
        SecImageError,
    >)
        ensures
            self.is_payload(index as int, data@, payload),
    {
        if self.stages.len() == 0 {
            return Err(SecImageError::NoStages);
        }
        let stage = if index < self.stages.len() {
            &self.stages[index]
        } else {
            &self.stages[0]
        };
        if data.len() as u64 != self.file_size {
            return Err(SecImageError::LengthMismatch);
        }
        let end: usize = match stage.payload_end() {
            Some(end) => end,
            None => {
                return Err(SecImageError::PayloadOverflow);
            },
        };
        if end > data.len() {
            return Err(SecImageError::PayloadBeyondFile);
        }
        Ok(&data[stage.payload_offset as usize..end])
    }
}

/// An image has at most four stages.
proof fn lemma_stage_count(
    data: Seq<u8>,
    stages: Seq<StageModel>,
    scan_from: int,
    warnings: Seq<Seq<char>>,
)
    requires
        stages.len() <= MAX_STAGES,
    ensures
        stages_from(data, stages, scan_from, warnings).0.len() <= MAX_STAGES,
    decreases MAX_STAGES - stages.len(),
{
    if stages.len() < MAX_STAGES {
        let (next, said) = next_from(data, aligned(scan_from));
        if let Some(stage) = next {
            let end = stage.payload_offset + stage.payload_size;
            if !stage.authenticates_prefix && end > scan_from {
                lemma_stage_count(data, stages.push(stage), end, warnings + said);
            }
        }
    }
}

/// A stage is only called valid where its payload has the digest that its
/// certificates declare.
pub proof fn law_valid_stages_have_their_digest(data: Seq<u8>, group: int)
    requires
        stage_of(data, group) is Ok,
        stage_of(data, group)->Ok_0.payload_hash_valid,
    ensures
        ({
            let stage = stage_of(data, group)->Ok_0;
            stage.actual_payload_sha256 == stage.declared_payload_sha256
        }),
{
    reveal(stage_of);
    let (certificates, chain_end) = chain_of(data, group, group + HEADER_SIZE)->Ok_0;
    let leaf = leaf_of(certificates)->Ok_0;
    let first = group + HEADER_SIZE;
    let inner = inner_from(data, first, least(first + MAX_HEADER_SCAN, data.len() as int), 0);
    let last = structural_end(inner, first);
    if !stage_of(data, group)->Ok_0.authenticates_prefix {
        lemma_found(
            data,
            leaf.payload_sha256,
            leaf.payload_size as int,
            first,
            least(last, data.len() as int),
        );
    }
}

proof fn lemma_found(data: Seq<u8>, digest: Seq<u8>, size: int, at: int, end: int)
    requires
        found_at(data, digest, size, at, end) is Some,
    ensures
        ({
            let found = found_at(data, digest, size, at, end)->0;
            inode::sha256_of(data.subrange(found, found + size)) == digest
        }),
    decreases end - at + BLOCK_ALIGN,
{
    if !(at + size <= data.len() && inode::sha256_of(data.subrange(at, at + size)) == digest) {
        lemma_found(data, digest, size, at + BLOCK_ALIGN, end);
    }
}

proof fn lemma_inner_bounds(data: Seq<u8>, offset: int, limit: int, index: int)
    requires
        0 <= offset,
    ensures
        forall|i: int|
            0 <= i < inner_from(data, offset, limit, index).len() ==> (#[trigger] inner_from(
                data,
                offset,
                limit,
                index,
            )[i]).offset >= 0 && inner_from(data, offset, limit, index)[i].size >= 0,
    decreases CERTIFICATE_COUNT - index,
{
    let all = inner_from(data, offset, limit, index);
    if all.len() > 0 {
        let c = certificate::certificate_in(data.subrange(offset, limit))->0;
        let size = limit - offset - c.remaining;
        let rest = inner_from(data, offset + size, limit, index + 1);
        lemma_inner_bounds(data, offset + size, limit, index + 1);
        let summary = certificate::summary_of(c, index, offset, size)->0;
        assert(all == seq![summary] + rest);
        assert forall|i: int| 0 <= i < all.len() implies (#[trigger] all[i]).offset >= 0
            && all[i].size >= 0 by {
            if i > 0 {
                assert(all[i] == rest[i - 1]);
            }
        }
    }
}

proof fn lemma_found_bounds(data: Seq<u8>, digest: Seq<u8>, size: int, at: int, end: int)
    requires
        found_at(data, digest, size, at, end) is Some,
    ensures
        at <= found_at(data, digest, size, at, end)->0,
    decreases end - at + BLOCK_ALIGN,
{
    if !(at + size <= data.len() && inode::sha256_of(data.subrange(at, at + size)) == digest) {
        lemma_found_bounds(data, digest, size, at + BLOCK_ALIGN, end);
    }
}

/// The payload of a stage is a part of the data.
proof fn lemma_stage_bounds(data: Seq<u8>, group: int)
    requires
        group >= 0,
        stage_of(data, group) is Ok,
    ensures
        ({
            let s = stage_of(data, group)->Ok_0;
            0 <= s.payload_offset && 0 < s.payload_size && s.payload_offset + s.payload_size
                <= data.len()
        }),
{
    reveal(stage_of);
    reveal(chain_of);
    reveal(leaf_of);
    let (certificates, chain_end) = chain_of(data, group, group + HEADER_SIZE)->Ok_0;
    let leaf = leaf_of(certificates)->Ok_0;
    let first = group + HEADER_SIZE;
    let limit = least(first + MAX_HEADER_SCAN, data.len() as int);
    let inner = inner_from(data, first, limit, 0);
    lemma_inner_bounds(data, first, limit, 0);
    if inner.len() > 0 {
        let c = inner[inner.len() - 1];
        assert(c.offset >= 0 && c.size >= 0);
    }
    let last = structural_end(inner, first);
    assert(last >= 0);
    let end = least(last, data.len() as int);
    if found_at(data, leaf.payload_sha256, leaf.payload_size as int, first, end) is Some {
        lemma_found_bounds(data, leaf.payload_sha256, leaf.payload_size as int, first, end);
    }
}

proof fn lemma_next_bounds(data: Seq<u8>, offset: int)
    requires
        next_from(data, offset).0 is Some,
    ensures
        ({
            let s = next_from(data, offset).0->0;
            0 <= s.payload_offset && 0 < s.payload_size && s.payload_offset + s.payload_size
                <= data.len()
        }),
    decreases data.len() - offset,
{
    let taken = data[offset] == 0x30 && stage_of(data, offset) is Ok && stage_of(
        data,
        offset,
    )->Ok_0.payload_hash_valid;
    if taken {
        lemma_stage_bounds(data, offset);
    } else {
        lemma_next_bounds(data, offset + BLOCK_ALIGN);
    }
}

/// True when the payloads of the stages are parts of the data.
pub open spec fn lie_within(stages: Seq<StageModel>, data: Seq<u8>) -> bool {
    forall|i: int|
        0 <= i < stages.len() ==> 0 <= (#[trigger] stages[i]).payload_offset && 0
            < stages[i].payload_size && stages[i].payload_offset + stages[i].payload_size
            <= data.len()
}

proof fn lemma_stages_bounds(
    data: Seq<u8>,
    stages: Seq<StageModel>,
    scan_from: int,
    warnings: Seq<Seq<char>>,
)
    requires
        lie_within(stages, data),
    ensures
        lie_within(stages_from(data, stages, scan_from, warnings).0, data),
        stages_from(data, stages, scan_from, warnings).0.len() >= stages.len(),
    decreases MAX_STAGES - stages.len(),
{
    if stages.len() < MAX_STAGES {
        let (next, said) = next_from(data, aligned(scan_from));
        if let Some(stage) = next {
            lemma_next_bounds(data, aligned(scan_from));
            let end = stage.payload_offset + stage.payload_size;
            assert(lie_within(stages.push(stage), data));
            if !stage.authenticates_prefix && end > scan_from {
                lemma_stages_bounds(data, stages.push(stage), end, warnings + said);
            }
        }
    }
}

/// Every image that is read has one to four stages, and the payload of each is
/// a part of the same data: it can be taken out.
pub proof fn law_payloads_lie_in_the_image(data: Seq<u8>)
    requires
        image_of(data) is Ok,
    ensures
        ({
            let info = image_of(data)->Ok_0;
            &&& info.file_size == data.len()
            &&& 1 <= info.stages.len() <= MAX_STAGES
            &&& lie_within(info.stages, data)
        }),
{
    let primary = stage_of(data, 0)->Ok_0;
    lemma_stage_bounds(data, 0);
    let end = primary.payload_offset + primary.payload_size;
    assert(lie_within(seq![primary], data));
    lemma_stages_bounds(data, seq![primary], end, seq![]);
    lemma_stage_count(data, seq![primary], end, seq![]);
}

/// A chain depends on the bytes of its window alone.
proof fn lemma_chain_window(
    data: Seq<u8>,
    other: Seq<u8>,
    offset: int,
    window_end: int,
    index: int,
    issuer: Option<Seq<char>>,
)
    requires
        0 <= offset <= window_end <= data.len(),
        window_end <= other.len(),
        data.take(window_end) == other.take(window_end),
    ensures
        chain_from(data, offset, window_end, index, issuer) == chain_from(
            other,
            offset,
            window_end,
            index,
            issuer,
        ),
    decreases CERTIFICATE_COUNT - index,
{
    if index < CERTIFICATE_COUNT {
        assert(data.subrange(offset, window_end) =~= data.take(window_end).subrange(
            offset,
            window_end,
        ));
        assert(other.subrange(offset, window_end) =~= other.take(window_end).subrange(
            offset,
            window_end,
        ));
        if let Some(c) = certificate::certificate_in(data.subrange(offset, window_end)) {
            let size = window_end - offset - c.remaining;
            if size > 0 {
                lemma_chain_window(
                    data,
                    other,
                    offset + size,
                    window_end,
                    index + 1,
                    Some(c.subject),
                );
            }
        }
    }
}

/// Every image that can be read is recognised, and nothing shorter than a header
/// is. The first header's length of the data decides.
pub proof fn law_the_header_is_recognised(data: Seq<u8>)
    ensures
        image_of(data) is Ok ==> metadata_of(data) is Ok,
        data.len() < HEADER_SIZE ==> metadata_of(data) is Err,
        data.len() >= HEADER_SIZE ==> metadata_of(data) == metadata_of(
            data.take(HEADER_SIZE as int),
        ),
{
    reveal(chain_of);
    reveal(stage_of);
    if data.len() >= HEADER_SIZE {
        let head = data.take(HEADER_SIZE as int);
        assert(head.take(HEADER_SIZE as int) =~= head);
        lemma_chain_window(data, head, 0, HEADER_SIZE as int, 0, None);
    }
}

// ---------------------------------------------------------------------------
// Laws on digests and chains
// ---------------------------------------------------------------------------

/// True when `size` bytes at a place have the digest.
pub open spec fn has_digest_at(data: Seq<u8>, digest: Seq<u8>, size: int, at: int) -> bool {
    at + size <= data.len() && inode::sha256_of(data.subrange(at, at + size)) == digest
}

proof fn lemma_first_place(data: Seq<u8>, digest: Seq<u8>, size: int, at: int, end: int, p: int)
    requires
        at <= p <= end,
        (p - at) % 0x1000 == 0,
        has_digest_at(data, digest, size, p),
    ensures
        found_at(data, digest, size, at, end) is Some,
        found_at(data, digest, size, at, end)->0 <= p,
    decreases end - at + BLOCK_ALIGN,
{
    if !has_digest_at(data, digest, size, at) {
        assert(p != at);
        assert(p - at >= 0x1000);
        lemma_first_place(data, digest, size, at + BLOCK_ALIGN, end, p);
    }
}

proof fn lemma_found_place(data: Seq<u8>, digest: Seq<u8>, size: int, at: int, end: int)
    requires
        found_at(data, digest, size, at, end) is Some,
    ensures
        ({
            let p = found_at(data, digest, size, at, end)->0;
            &&& at <= p <= end
            &&& (p - at) % 0x1000 == 0
            &&& has_digest_at(data, digest, size, p)
        }),
    decreases end - at + BLOCK_ALIGN,
{
    if !has_digest_at(data, digest, size, at) {
        lemma_found_place(data, digest, size, at + BLOCK_ALIGN, end);
    }
}

/// Two sequences are the same where they are written in the same digits.
proof fn lemma_same_hex(a: Seq<u8>, b: Seq<u8>)
    requires
        der::lower_hex(a) == der::lower_hex(b),
    ensures
        a == b,
{
    der::law_hexadecimal_reads_back(a);
    der::law_hexadecimal_reads_back(b);
}

/// Where the certificates that stand behind the header of a chain end.
proof fn lemma_structural_end(data: Seq<u8>, first: int)
    requires
        0 <= first <= data.len(),
        first % 0x1000 == 0,
        data.len() + 0x1000 <= usize::MAX,
    ensures
        ({
            let inner = inner_from(data, first, least(first + 0x1_0000, data.len() as int), 0);
            let last = structural_end(inner, first);
            &&& last % 0x1000 == 0
            &&& inner.len() == 0 ==> last == first
            &&& inner.len() > 0 ==> {
                let behind = inner.last().offset + inner.last().size;
                &&& first <= behind <= data.len()
                &&& behind <= last < behind + 0x1000
            }
        }),
{
    let limit = least(first + 0x1_0000, data.len() as int);
    let inner = inner_from(data, first, limit, 0);
    if inner.len() > 0 {
        lemma_inner_end(data, first, limit, 0);
        let behind = inner.last().offset + inner.last().size;
        assert(behind + 0xfff <= usize::MAX);
    }
}

proof fn lemma_inner_end(data: Seq<u8>, offset: int, limit: int, index: int)
    requires
        0 <= offset,
        inner_from(data, offset, limit, index).len() > 0,
    ensures
        ({
            let last = inner_from(data, offset, limit, index).last();
            offset <= last.offset && last.offset + last.size <= limit && last.size > 0
        }),
    decreases CERTIFICATE_COUNT - index,
{
    let all = inner_from(data, offset, limit, index);
    let c = certificate::certificate_in(data.subrange(offset, limit))->0;
    let size = limit - offset - c.remaining;
    let rest = inner_from(data, offset + size, limit, index + 1);
    let summary = certificate::summary_of(c, index, offset, size)->0;
    assert(all == seq![summary] + rest);
    if rest.len() > 0 {
        lemma_inner_end(data, offset + size, limit, index + 1);
        assert(all.last() == rest.last());
    } else {
        assert(all =~= seq![summary]);
    }
}

/// Whether a stage is valid is decided by its digest: it is valid exactly where
/// the bytes of its payload have the digest that its certificates declare. The
/// digest that is reported is that of those bytes.
#[verifier::rlimit(40)]
pub proof fn law_digests_decide_validity(data: Seq<u8>, group: int)
    requires
        group >= 0,
        group % 0x1000 == 0,
        data.len() + 0x1000 <= usize::MAX,
        stage_of(data, group) is Ok,
    ensures
        ({
            let s = stage_of(data, group)->Ok_0;
            &&& s.payload_hash_valid <==> s.actual_payload_sha256 == s.declared_payload_sha256
            &&& s.actual_payload_sha256 == der::lower_hex(
                inode::sha256_of(
                    data.subrange(s.payload_offset, s.payload_offset + s.payload_size),
                ),
            )
            &&& s.certificate_group_offset == group
            &&& !s.authenticates_prefix ==> s.payload_offset >= group + 0x2000
            &&& s.authenticates_prefix ==> s.payload_offset == 0 && s.payload_size == group
        }),
{
    reveal(stage_of);
    reveal(chain_of);
    lemma_stage_bounds(data, group);
    let s = stage_of(data, group)->Ok_0;
    let (certificates, chain_end) = chain_of(data, group, group + HEADER_SIZE)->Ok_0;
    let leaf = leaf_of(certificates)->Ok_0;
    let digest = leaf.payload_sha256;
    let size = leaf.payload_size as int;
    let first = group + HEADER_SIZE;
    if s.authenticates_prefix {
        assert(data.take(group) =~= data.subrange(0, group));
    } else {
        lemma_structural_end(data, first);
        let inner = inner_from(data, first, least(first + MAX_HEADER_SCAN, data.len() as int), 0);
        let last = structural_end(inner, first);
        let end = least(last, data.len() as int);
        let found = found_at(data, digest, size, first, end);
        if found is Some {
            lemma_found_place(data, digest, size, first, end);
        } else if s.actual_payload_sha256 == s.declared_payload_sha256 {
            lemma_same_hex(inode::sha256_of(data.subrange(last, last + size)), digest);
            lemma_first_place(data, digest, size, first, end, last);
        }
    }
}

/// A payload is found by its digest. Where the chain of a stage can be read, and
/// the bytes at some whole block behind the header, up to the end of the inner
/// certificates, have the digest that the chain declares, the stage is there and
/// is valid; its payload starts at that place or at an earlier one that has the
/// digest too.
#[verifier::rlimit(40)]
pub proof fn law_payloads_are_found_by_their_digest(
    data: Seq<u8>,
    group: int,
    certificates: Seq<CertificateModel>,
    chain_end: int,
    leaf: LeafModel,
    p: int,
)
    requires
        group >= 0,
        group % 0x1000 == 0,
        data.len() + 0x1000 <= usize::MAX,
        chain_of(data, group, group + 0x2000) == Ok::<
            (Seq<CertificateModel>, int),
            SecImageError,
        >((certificates, chain_end)),
        leaf_of(certificates) == Ok::<LeafModel, SecImageError>(leaf),
        p % 0x1000 == 0,
        p >= group + 0x2000,
        ({
            let first = group + 0x2000;
            let inner = inner_from(data, first, least(first + 0x1_0000, data.len() as int), 0);
            p == first || inner.len() > 0 && p < inner.last().offset + inner.last().size + 0x1000
        }),
        p + leaf.payload_size <= data.len(),
        inode::sha256_of(data.subrange(p, p + leaf.payload_size)) == leaf.payload_sha256,
    ensures
        stage_of(data, group) is Ok,
        ({
            let s = stage_of(data, group)->Ok_0;
            &&& s.payload_hash_valid
            &&& s.payload_size == leaf.payload_size
            &&& s.declared_payload_sha256 == der::lower_hex(leaf.payload_sha256)
            &&& s.actual_payload_sha256 == s.declared_payload_sha256
            &&& !s.authenticates_prefix ==> group + 0x2000 <= s.payload_offset <= p
                && s.payload_offset % 0x1000 == 0 && inode::sha256_of(
                data.subrange(s.payload_offset, s.payload_offset + s.payload_size),
            ) == leaf.payload_sha256
        }),
{
    reveal(stage_of);
    reveal(chain_of);
    let digest = leaf.payload_sha256;
    let size = leaf.payload_size as int;
    let first = group + HEADER_SIZE;
    lemma_structural_end(data, first);
    let inner = inner_from(data, first, least(first + MAX_HEADER_SCAN, data.len() as int), 0);
    let last = structural_end(inner, first);
    let end = least(last, data.len() as int);
    assert(p <= last);
    lemma_first_place(data, digest, size, first, end, p);
    lemma_found_place(data, digest, size, first, end);
    assert(data.take(group) =~= data.subrange(0, group));
}

/// True when certificates follow each other: they stand one behind the other
/// from `base` on up to `end`, the first one is issued by its own subject, and
/// every other one by the subject of the one before it.
pub open spec fn is_linked(list: Seq<CertificateModel>, base: int, end: int) -> bool {
    &&& list.len() == 3
    &&& list[0].offset == base
    &&& list[0].issuer == list[0].subject
    &&& list[1].offset == list[0].offset + list[0].size
    &&& list[1].issuer == list[0].subject
    &&& list[2].offset == list[1].offset + list[1].size
    &&& list[2].issuer == list[1].subject
    &&& end == list[2].offset + list[2].size
    &&& list[0].size > 0 && list[1].size > 0 && list[2].size > 0
    &&& list[0].chain_index == 0 && list[1].chain_index == 1 && list[2].chain_index == 2
}

/// True when a certificate is the one that stands at its offset.
pub open spec fn is_read_from(data: Seq<u8>, window_end: int, c: CertificateModel) -> bool {
    certificate::certificate_in(data.subrange(c.offset, window_end)) matches Some(raw) && {
        &&& c.offset + c.size + raw.remaining == window_end
        &&& c.subject == raw.subject
        &&& c.issuer == raw.issuer
        &&& c.serial_hex == raw.serial_hex
        &&& c.not_before == raw.not_before
        &&& c.not_after == raw.not_after
        &&& c.signature_algorithm_oid == raw.signature_algorithm_oid
        &&& forall|i: int, j: int|
            0 <= i < j < raw.extensions.len() ==> (#[trigger] raw.extensions[i]).oid
                != (#[trigger] raw.extensions[j]).oid
    }
}

/// A chain that is read has three certificates that follow each other, within
/// their window, and each is the one that stands at its place.
pub proof fn law_chains_are_linked(data: Seq<u8>, base: int, window_end: int)
    requires
        chain_of(data, base, window_end) is Ok,
    ensures
        ({
            let (list, end) = chain_of(data, base, window_end)->Ok_0;
            &&& is_linked(list, base, end)
            &&& end <= window_end <= data.len()
            &&& forall|i: int| 0 <= i < 3 ==> is_read_from(data, window_end, #[trigger] list[i])
        }),
{
    reveal(chain_of);
    reveal_with_fuel(chain_from, 4);
    let (list, end) = chain_of(data, base, window_end)->Ok_0;
    let a = certificate::certificate_in(data.subrange(base, window_end))->0;
    let x = window_end - base - a.remaining;
    let first = certificate::summary_of(a, 0, base, x)->0;
    let at = base + x;
    let b = certificate::certificate_in(data.subrange(at, window_end))->0;
    let y = window_end - at - b.remaining;
    let second = certificate::summary_of(b, 1, at, y)->0;
    let on = at + y;
    let c = certificate::certificate_in(data.subrange(on, window_end))->0;
    let z = window_end - on - c.remaining;
    let third = certificate::summary_of(c, 2, on, z)->0;
    assert(chain_from(data, on + z, window_end, 3, Some(c.subject)) == Ok::<
        (Seq<CertificateModel>, int),
        SecImageError,
    >((seq![], on + z)));
    assert(seq![third] + Seq::<CertificateModel>::empty() =~= seq![third]);
    assert(chain_from(data, on, window_end, 2, Some(b.subject)) == Ok::<
        (Seq<CertificateModel>, int),
        SecImageError,
    >((seq![third], on + z)));
    assert(seq![second] + seq![third] =~= seq![second, third]);
    assert(seq![first] + seq![second, third] =~= seq![first, second, third]);
    assert(list =~= seq![first, second, third]);
    assert(is_read_from(data, window_end, first));
    assert(is_read_from(data, window_end, second));
    assert(is_read_from(data, window_end, third));
}

/// True when the first extension of a list with an identifier is number `i`.
pub open spec fn is_first_of(list: Seq<ExtensionModel>, oid: Seq<char>, i: int) -> bool {
    &&& 0 <= i < list.len()
    &&& list[i].oid == oid
    &&& forall|k: int| 0 <= k < i ==> (#[trigger] list[k]).oid != oid
}

proof fn lemma_extension(list: Seq<ExtensionModel>, oid: Seq<char>, from: int) -> (i: int)
    requires
        0 <= from,
        extension_of(list, oid, from) is Some,
        forall|k: int| 0 <= k < from ==> (#[trigger] list[k]).oid != oid,
    ensures
        is_first_of(list, oid, i),
        extension_of(list, oid, from) == Some(list[i]),
    decreases list.len() - from,
{
    if list[from].oid == oid {
        from
    } else {
        lemma_extension(list, oid, from + 1)
    }
}

proof fn lemma_no_extension(list: Seq<ExtensionModel>, oid: Seq<char>, from: int, i: int)
    requires
        0 <= from <= i < list.len(),
        extension_of(list, oid, from) is None,
    ensures
        list[i].oid != oid,
    decreases list.len() - from,
{
    if from < i {
        lemma_no_extension(list, oid, from + 1, i);
    }
}

/// True when extension `oid` states a text.
pub open spec fn states_text(list: Seq<ExtensionModel>, oid: Seq<char>, said: Seq<char>) -> bool {
    exists|i: int|
        #[trigger] is_first_of(list, oid, i) && (list[i].value matches ValueModel::Octets {
            hex,
            text,
        } && text == Some(said))
}

/// True when extension `oid` states octets.
pub open spec fn states_octets(list: Seq<ExtensionModel>, oid: Seq<char>, said: Seq<u8>) -> bool {
    exists|i: int|
        #[trigger] is_first_of(list, oid, i) && (list[i].value matches ValueModel::Octets {
            hex,
            text,
        } && der::is_hex(hex) && der::hex_bytes(hex) == said)
}

/// True when extension `oid` states a number.
pub open spec fn states_number(list: Seq<ExtensionModel>, oid: Seq<char>, said: u64) -> bool {
    exists|i: int|
        #[trigger] is_first_of(list, oid, i) && list[i].value == (ValueModel::Integer {
            value: said,
        })
}

/// What is known of a payload is what the last of the three certificates states
/// in its extensions: the names of the image and of the partition, the size of
/// the payload, which is not zero, perhaps a second size, and a digest of 32
/// bytes.
pub proof fn law_leaves_declare_their_payload(list: Seq<CertificateModel>)
    requires
        list.len() == 3,
        leaf_of(list) is Ok,
    ensures
        ({
            let leaf = leaf_of(list)->Ok_0;
            let said = list[2].proprietary_extensions;
            &&& states_text(said, "2.20.2.8"@, leaf.image_name)
            &&& states_text(said, "2.20.2.14"@, leaf.partition_name)
            &&& states_number(said, "2.20.2.67"@, leaf.payload_size)
            &&& leaf.payload_size > 0
            &&& leaf.secondary_size matches Some(size) ==> states_number(said, "2.20.2.69"@, size)
            &&& leaf.secondary_size is None ==> forall|i: int|
                0 <= i < said.len() ==> (#[trigger] said[i]).oid != "2.20.2.69"@
            &&& states_octets(said, "2.20.2.65"@, leaf.payload_sha256)
            &&& leaf.payload_sha256.len() == 32
        }),
{
    reveal(leaf_of);
    let leaf = leaf_of(list)->Ok_0;
    let said = list[2].proprietary_extensions;
    let a = lemma_extension(said, "2.20.2.8"@, 0);
    let b = lemma_extension(said, "2.20.2.14"@, 0);
    let c = lemma_extension(said, "2.20.2.67"@, 0);
    let d = lemma_extension(said, "2.20.2.65"@, 0);
    assert(is_first_of(said, "2.20.2.8"@, a));
    assert(is_first_of(said, "2.20.2.14"@, b));
    assert(is_first_of(said, "2.20.2.67"@, c));
    assert(is_first_of(said, "2.20.2.65"@, d));
    if leaf.secondary_size is Some {
        let e = lemma_extension(said, "2.20.2.69"@, 0);
        assert(is_first_of(said, "2.20.2.69"@, e));
    } else {
        assert forall|i: int| 0 <= i < said.len() implies (#[trigger] said[i]).oid
            != "2.20.2.69"@ by {
            lemma_no_extension(said, "2.20.2.69"@, 0, i);
        }
    }
}

/// True when a valid stage starts with its chain at a place.
pub open spec fn starts_valid_stage(data: Seq<u8>, at: int) -> bool {
    &&& at + 0x2000 <= data.len()
    &&& data[at] == 0x30
    &&& stage_of(data, at) is Ok
    &&& stage_of(data, at)->Ok_0.payload_hash_valid
}

/// True when a stage is the first valid one that starts at a whole block from
/// `from` on.
pub open spec fn is_next_stage(data: Seq<u8>, from: int, s: StageModel) -> bool {
    let group = s.certificate_group_offset;
    &&& from <= group
    &&& group % 0x1000 == 0
    &&& starts_valid_stage(data, group)
    &&& stage_of(data, group) == Ok::<StageModel, SecImageError>(s)
    &&& forall|q: int|
        from <= q < group && q % 0x1000 == 0 ==> !(#[trigger] starts_valid_stage(data, q))
}

proof fn lemma_next_stage(data: Seq<u8>, offset: int)
    requires
        0 <= offset,
        offset % 0x1000 == 0,
    ensures
        match next_from(data, offset).0 {
            Some(s) => is_next_stage(data, offset, s),
            None => forall|q: int|
                offset <= q && q % 0x1000 == 0 ==> !(#[trigger] starts_valid_stage(data, q)),
        },
    decreases data.len() - offset,
{
    if offset + HEADER_SIZE <= data.len() {
        lemma_next_stage(data, offset + BLOCK_ALIGN);
        if starts_valid_stage(data, offset) {
            lemma_stage_group(data, offset);
        } else {
            assert forall|q: int|
                offset <= q < offset + BLOCK_ALIGN && q % 0x1000 == 0 implies !(
            #[trigger] starts_valid_stage(data, q)) by {
                assert(q == offset);
            }
        }
    }
}

proof fn lemma_stage_group(data: Seq<u8>, group: int)
    requires
        stage_of(data, group) is Ok,
    ensures
        stage_of(data, group)->Ok_0.certificate_group_offset == group,
{
    reveal(stage_of);
}

/// Where the payload of a stage ends.
pub open spec fn end_of(s: StageModel) -> int {
    s.payload_offset + s.payload_size
}

/// True when every stage but the first is the next one behind the payload of the
/// one before it.
pub open spec fn are_in_order(data: Seq<u8>, stages: Seq<StageModel>) -> bool {
    forall|i: int|
        1 <= i < stages.len() ==> is_next_stage(
            data,
            end_of(stages[i - 1]),
            #[trigger] stages[i],
        )
}

proof fn lemma_aligned_from(data: Seq<u8>, from: int)
    requires
        0 <= from <= data.len(),
        data.len() + 0x1000 <= usize::MAX,
    ensures
        aligned(from) % 0x1000 == 0,
        from <= aligned(from) < from + 0x1000,
{
}

proof fn lemma_stages_in_order(
    data: Seq<u8>,
    stages: Seq<StageModel>,
    scan_from: int,
    warnings: Seq<Seq<char>>,
)
    requires
        data.len() + 0x1000 <= usize::MAX,
        stages.len() > 0,
        lie_within(stages, data),
        scan_from == end_of(stages.last()),
        are_in_order(data, stages),
    ensures
        are_in_order(data, stages_from(data, stages, scan_from, warnings).0),
        stages_from(data, stages, scan_from, warnings).0.len() >= stages.len(),
        stages_from(data, stages, scan_from, warnings).0[0] == stages[0],
    decreases MAX_STAGES - stages.len(),
{
    if stages.len() < MAX_STAGES {
        let from = aligned(scan_from);
        lemma_aligned_from(data, scan_from);
        lemma_next_stage(data, from);
        let (next, said) = next_from(data, from);
        if let Some(stage) = next {
            lemma_next_bounds(data, from);
            let more = stages.push(stage);
            assert(lie_within(more, data));
            assert(are_in_order(data, more)) by {
                assert forall|i: int| 1 <= i < more.len() implies is_next_stage(
                    data,
                    end_of(more[i - 1]),
                    #[trigger] more[i],
                ) by {
                    if i < stages.len() {
                        assert(more[i] == stages[i]);
                        assert(more[i - 1] == stages[i - 1]);
                    } else {
                        assert(more[i - 1] == stages.last());
                        assert forall|q: int|
                            scan_from <= q < stage.certificate_group_offset && q % 0x1000
                                == 0 implies !(#[trigger] starts_valid_stage(data, q)) by {
                            assert(q >= from);
                        }
                    }
                }
            }
            if !stage.authenticates_prefix && end_of(stage) > scan_from {
                lemma_stages_in_order(data, more, end_of(stage), warnings + said);
            }
        }
    }
}

/// The stages of an image: the first one starts the data, and each other one is
/// the first valid one at a whole block behind the payload of the one before it.
/// The image as a whole is valid exactly where the payload of every stage has
/// the digest that is declared for it. What is said of the image is what its
/// first stage says; the header has 0x2000 bytes, and what is left behind the
/// last payload is counted.
pub proof fn law_images_are_their_stages(data: Seq<u8>)
    requires
        data.len() + 0x1000 <= usize::MAX,
        image_of(data) is Ok,
    ensures
        ({
            let info = image_of(data)->Ok_0;
            let first = info.stages[0];
            &&& stage_of(data, 0) == Ok::<StageModel, SecImageError>(first)
            &&& info.stages.len() > 0
            &&& are_in_order(data, info.stages)
            &&& info.payload_hash_valid <==> first.actual_payload_sha256
                == first.declared_payload_sha256
            &&& info.image_name == first.image_name
            &&& info.partition_name == first.partition_name
            &&& info.payload_offset == first.payload_offset
            &&& info.payload_size == first.payload_size
            &&& info.secondary_size == first.secondary_size
            &&& info.declared_payload_sha256 == first.declared_payload_sha256
            &&& info.actual_payload_sha256 == first.actual_payload_sha256
            &&& info.inner_certificates == first.inner_certificates
            &&& info.header_size == 0x2000
            &&& info.certificate_chain_size == first.certificate_chain_size
            &&& info.certificate_chain_size + info.header_padding_size == 0x2000
            &&& end_of(info.stages.last()) + info.trailing_size == data.len()
            &&& info.file_size == data.len()
        }),
{
    let primary = stage_of(data, 0)->Ok_0;
    let info = image_of(data)->Ok_0;
    lemma_stage_bounds(data, 0);
    lemma_stages_in_order(data, seq![primary], end_of(primary), seq![]);
    lemma_stages_bounds(data, seq![primary], end_of(primary), seq![]);
    law_digests_decide_validity(data, 0);
    if primary.payload_hash_valid {
        assert forall|i: int| 0 <= i < info.stages.len() implies (
        #[trigger] info.stages[i]).payload_hash_valid by {
            if i > 0 {
                assert(is_next_stage(data, end_of(info.stages[i - 1]), info.stages[i]));
            }
        }
    }
}

/// True when a text is among those that are said.
pub open spec fn is_said(warnings: Seq<Seq<char>>, text: Seq<char>) -> bool {
    exists|i: int| 0 <= i < warnings.len() && #[trigger] warnings[i] == text
}

/// What is wrong with an image is said of it: that its first payload does not
/// have its digest, where it does not, and otherwise that its two sizes differ,
/// where they do.
pub proof fn law_wrong_digests_are_said(data: Seq<u8>)
    requires
        data.len() + 0x1000 <= usize::MAX,
        image_of(data) is Ok,
    ensures
        ({
            let info = image_of(data)->Ok_0;
            let first = info.stages[0];
            &&& !info.payload_hash_valid ==> info.warnings.len() > 0 && info.warnings.last()
                == "stage 1 payload SHA-256 does not match leaf certificate OID 2.20.2.65"@
                && is_said(
                info.warnings,
                "payload SHA-256 does not match leaf certificate OID 2.20.2.65"@,
            )
            &&& info.payload_hash_valid && (first.secondary_size matches Some(size) && size
                != first.payload_size) ==> info.warnings.len() > 0 && info.warnings.last()
                == "leaf certificate OIDs 2.20.2.67 and 2.20.2.69 contain different sizes"@
        }),
{
    law_images_are_their_stages(data);
    let info = image_of(data)->Ok_0;
    let first = info.stages[0];
    let n = info.stages.len() as int;
    assert forall|i: int| 1 <= i < n implies (#[trigger] info.stages[i]).payload_hash_valid by {
        assert(is_next_stage(data, end_of(info.stages[i - 1]), info.stages[i]));
    }
    lemma_one_warning(info.stages, n);
    reveal_strlit("stage ");
    reveal_strlit(" payload SHA-256 does not match leaf certificate OID 2.20.2.65");
    reveal_strlit("stage 1 payload SHA-256 does not match leaf certificate OID 2.20.2.65");
    let one = stage_warning(1);
    assert(one =~= "stage 1 payload SHA-256 does not match leaf certificate OID 2.20.2.65"@);
    let tail = stage_warnings(info.stages, n);
    let said = info.warnings.take(info.warnings.len() - tail.len());
    let (stages, before) = stages_from(data, seq![first], end_of(first), seq![]);
    let padded = if padding_set(data, first) != 0 {
        before.push(padding_warning(padding_set(data, first)))
    } else {
        before
    };
    let wrong = "payload SHA-256 does not match leaf certificate OID 2.20.2.65"@;
    if !first.payload_hash_valid {
        assert(info.warnings.last() == one);
        let at = padded.len() as int;
        assert(info.warnings[at] == wrong);
    } else {
        assert(info.warnings =~= said);
    }
}

/// Where only the first stage can be wrong, that is all that is said of stages.
proof fn lemma_one_warning(stages: Seq<StageModel>, n: int)
    requires
        1 <= n <= stages.len(),
        forall|i: int| 1 <= i < n ==> (#[trigger] stages[i]).payload_hash_valid,
    ensures
        stage_warnings(stages, n) == if stages[0].payload_hash_valid {
            Seq::<Seq<char>>::empty()
        } else {
            seq![stage_warning(1)]
        },
    decreases n,
{
    if n > 1 {
        lemma_one_warning(stages, n - 1);
    } else {
        reveal_with_fuel(stage_warnings, 2);
        assert(stage_warnings(stages, 1) =~= if stages[0].payload_hash_valid {
            Seq::<Seq<char>>::empty()
        } else {
            seq![stage_warning(1)]
        });
    }
}

/// What is odd about an image is said in order, behind what was said of chains that
/// were passed over: bytes that are set before the payload, a wrong digest, two sizes
/// that differ, and a wrong digest of every stage.
pub proof fn law_oddities_are_said(
    data: Seq<u8>,
    stages: Seq<StageModel>,
    said: Seq<Seq<char>>,
)
    requires
        stages.len() > 0,
    ensures
        ({
            let all = all_warnings(data, stages, said);
            let primary = stages[0];
            let set = padding_set(data, primary);
            let differ = primary.secondary_size is Some && primary.secondary_size->0
                != primary.payload_size;
            let count = said.len() + (if set > 0 {
                1int
            } else {
                0int
            }) + (if primary.payload_hash_valid {
                0int
            } else {
                1int
            }) + (if differ {
                1int
            } else {
                0int
            });
            &&& all.len() == count + stage_warnings(stages, stages.len() as int).len()
            &&& all.take(said.len() as int) == said
            &&& set > 0 ==> all[said.len() as int] == text::decimal(set)
                + " non-zero byte(s) occur between the certificate chain and payload"@
            &&& all.skip(count) == stage_warnings(stages, stages.len() as int)
            &&& differ ==> all[count - 1]
                == "leaf certificate OIDs 2.20.2.67 and 2.20.2.69 contain different sizes"@
            &&& !differ && !primary.payload_hash_valid ==> all[count - 1]
                == "payload SHA-256 does not match leaf certificate OID 2.20.2.65"@
        }),
{
    let all = all_warnings(data, stages, said);
    let primary = stages[0];
    let tail = stage_warnings(stages, stages.len() as int);
    assert(all.take(said.len() as int) =~= said);
    assert(all.skip(all.len() - tail.len()) =~= tail);
}

/// A stage with a wrong digest is named by its number, counted from 1, and one with
/// the right digest is not.
pub proof fn law_stages_with_wrong_digests_are_named(stages: Seq<StageModel>, n: int)
    requires
        0 < n <= stages.len(),
    ensures
        stages[n - 1].payload_hash_valid ==> stage_warnings(stages, n) == stage_warnings(
            stages,
            n - 1,
        ),
        !stages[n - 1].payload_hash_valid ==> stage_warnings(stages, n) == stage_warnings(
            stages,
            n - 1,
        ).push(
            "stage "@ + text::decimal(n as nat)
                + " payload SHA-256 does not match leaf certificate OID 2.20.2.65"@,
        ),
{
}

/// Bytes that are set are counted, each once.
pub proof fn law_set_bytes_are_counted(data: Seq<u8>, from: int, to: int)
    requires
        from <= to,
    ensures
        nonzero(data, from, from) == 0,
        nonzero(data, from, to + 1) == nonzero(data, from, to) + if data[to] != 0 {
            1int
        } else {
            0int
        },
{
}

/// The names that extensions state agree: every one whose identifier ends with 8 or
/// 14 states the name of the image or of the partition.
pub proof fn law_stated_names_agree(
    list: Seq<ExtensionModel>,
    image: Seq<char>,
    partition: Seq<char>,
    n: int,
)
    requires
        0 <= n <= list.len(),
    ensures
        names_error(list, image, partition, n) is None <==> forall|i: int|
            #![trigger list[i]]
            0 <= i < n ==> (last_arc(list[i].oid) == "8"@ ==> text_in(list[i].value) == Some(image))
                && (last_arc(list[i].oid) == "14"@ ==> text_in(list[i].value) == Some(partition)),
    decreases n,
{
    reveal_strlit("8");
    reveal_strlit("14");
    assert("8"@.len() == 1 && "14"@.len() == 2);
    if n > 0 {
        law_stated_names_agree(list, image, partition, n - 1);
        let e = list[n - 1];
    }
}

} // verus!
