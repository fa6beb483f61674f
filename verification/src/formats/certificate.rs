//! The certificates of secure images.

use vstd::prelude::*;

use crate::formats::der;
use crate::oeminfo::payload::text_of;
use crate::text;

verus! {

// ---------------------------------------------------------------------------
// Parsed certificates
// ---------------------------------------------------------------------------

/// An extension of a certificate, with its value as it is encoded.
#[derive(Debug)]
pub struct RawExtension {
    pub oid: String,
    pub critical: bool,
    pub value: Vec<u8>,
}

/// What is read of a certificate, and how many bytes are left behind it.
#[derive(Debug)]
pub struct RawCertificate {
    pub remaining: usize,
    pub subject: String,
    pub issuer: String,
    pub serial_hex: String,
    pub not_before: String,
    pub not_after: String,
    pub signature_algorithm_oid: String,
    pub extensions: Vec<RawExtension>,
}

#[verifier::ext_equal]
pub struct RawExtensionModel {
    pub oid: Seq<char>,
    pub critical: bool,
    pub value: Seq<u8>,
}

#[verifier::ext_equal]
pub struct RawModel {
    pub remaining: nat,
    pub subject: Seq<char>,
    pub issuer: Seq<char>,
    pub serial_hex: Seq<char>,
    pub not_before: Seq<char>,
    pub not_after: Seq<char>,
    pub signature_algorithm_oid: Seq<char>,
    pub extensions: Seq<RawExtensionModel>,
}

impl View for RawExtension {
    type V = RawExtensionModel;

    open spec fn view(&self) -> RawExtensionModel {
        RawExtensionModel { oid: self.oid@, critical: self.critical, value: self.value@ }
    }
}

pub open spec fn raw_extensions(list: Seq<RawExtension>) -> Seq<RawExtensionModel> {
    list.map_values(|e: RawExtension| e@)
}

impl View for RawCertificate {
    type V = RawModel;

    open spec fn view(&self) -> RawModel {
        RawModel {
            remaining: self.remaining as nat,
            subject: self.subject@,
            issuer: self.issuer@,
            serial_hex: self.serial_hex@,
            not_before: self.not_before@,
            not_after: self.not_after@,
            signature_algorithm_oid: self.signature_algorithm_oid@,
            extensions: raw_extensions(self.extensions@),
        }
    }
}

/// The certificate that bytes start with.
pub uninterp spec fn certificate_in(data: Seq<u8>) -> Option<RawModel>;

/// `x509_parser::parse_x509_certificate`. What it reads, or that it reads none,
/// has a name. Names, times and identifiers are taken as the texts that the
/// parser gives for them.
#[verifier::external_body]
fn parse_certificate(data: &[u8]) -> (parsed: Option<RawCertificate>)
    ensures
        match parsed {
            Some(found) => certificate_in(data@) == Some(found@),
            None => certificate_in(data@) is None,
        },
{
    let (rest, c) = x509_parser::parse_x509_certificate(data).ok()?;
    let (from, to) = (c.validity().not_before, c.validity().not_after);
    let extensions = c.extensions().iter().map(|e| RawExtension { oid: e.oid.to_id_string(), critical: e.critical, value: e.value.to_vec() });
    Some(RawCertificate {
        remaining: rest.len(),
        subject: c.subject().to_string(),
        issuer: c.issuer().to_string(),
        serial_hex: c.raw_serial_as_string(),
        not_before: from.to_rfc2822().unwrap_or_else(|_| from.to_string()),
        not_after: to.to_rfc2822().unwrap_or_else(|_| to.to_string()),
        signature_algorithm_oid: c.signature_algorithm.algorithm.to_id_string(),
        extensions: extensions.collect(),
    })
}

/// Reads the certificate that bytes start with.
pub fn read_certificate(data: &[u8]) -> (parsed: Option<RawCertificate>)
    ensures
        match parsed {
            Some(found) => certificate_in(data@) == Some(found@),
            None => certificate_in(data@) is None,
        },
{
    parse_certificate(data)
}

// ---------------------------------------------------------------------------
// Summaries
// ---------------------------------------------------------------------------

/// The value of an extension.
#[derive(Debug)]
pub enum SecImageExtensionValue {
    Integer { value: u64 },
    Octets { hex: String, text: Option<String> },
    Der { hex: String },
}

#[verifier::ext_equal]
pub enum ValueModel {
    Integer { value: u64 },
    Octets { hex: Seq<char>, text: Option<Seq<char>> },
    Der { hex: Seq<char> },
}

impl View for SecImageExtensionValue {
    type V = ValueModel;

    open spec fn view(&self) -> ValueModel {
        match self {
            SecImageExtensionValue::Integer { value } => ValueModel::Integer { value: *value },
            SecImageExtensionValue::Octets { hex, text } => ValueModel::Octets {
                hex: hex@,
                text: text_of(*text),
            },
            SecImageExtensionValue::Der { hex } => ValueModel::Der { hex: hex@ },
        }
    }
}

#[derive(Debug)]
pub struct SecImageExtension {
    pub oid: String,
    pub critical: bool,
    pub value: SecImageExtensionValue,
}

#[verifier::ext_equal]
pub struct ExtensionModel {
    pub oid: Seq<char>,
    pub critical: bool,
    pub value: ValueModel,
}

impl View for SecImageExtension {
    type V = ExtensionModel;

    open spec fn view(&self) -> ExtensionModel {
        ExtensionModel { oid: self.oid@, critical: self.critical, value: self.value@ }
    }
}

pub open spec fn extension_models(list: Seq<SecImageExtension>) -> Seq<ExtensionModel> {
    list.map_values(|e: SecImageExtension| e@)
}

/// A certificate of a secure image.
#[derive(Debug)]
pub struct SecImageCertificate {
    pub chain_index: usize,
    pub offset: u64,
    pub size: u64,
    pub subject: String,
    pub issuer: String,
    pub serial_hex: String,
    pub not_before: String,
    pub not_after: String,
    pub signature_algorithm_oid: String,
    pub proprietary_extensions: Vec<SecImageExtension>,
}

#[verifier::ext_equal]
pub struct CertificateModel {
    pub chain_index: int,
    pub offset: int,
    pub size: int,
    pub subject: Seq<char>,
    pub issuer: Seq<char>,
    pub serial_hex: Seq<char>,
    pub not_before: Seq<char>,
    pub not_after: Seq<char>,
    pub signature_algorithm_oid: Seq<char>,
    pub proprietary_extensions: Seq<ExtensionModel>,
}

impl View for SecImageCertificate {
    type V = CertificateModel;

    open spec fn view(&self) -> CertificateModel {
        CertificateModel {
            chain_index: self.chain_index as int,
            offset: self.offset as int,
            size: self.size as int,
            subject: self.subject@,
            issuer: self.issuer@,
            serial_hex: self.serial_hex@,
            not_before: self.not_before@,
            not_after: self.not_after@,
            signature_algorithm_oid: self.signature_algorithm_oid@,
            proprietary_extensions: extension_models(self.proprietary_extensions@),
        }
    }
}

pub open spec fn certificate_models(list: Seq<SecImageCertificate>) -> Seq<CertificateModel> {
    list.map_values(|c: SecImageCertificate| c@)
}

/// The value of an extension: a number, octets, or anything else as it is
/// encoded.
pub open spec fn value_of(raw: Seq<u8>) -> ValueModel {
    let other = ValueModel::Der { hex: der::lower_hex(raw) };
    match der::der_value(raw) {
        None => other,
        Some((tag, content)) => if tag == 2 {
            match der::unsigned_of(content) {
                Some(value) => ValueModel::Integer { value },
                None => other,
            }
        } else if tag == 4 {
            ValueModel::Octets { hex: der::lower_hex(content), text: der::printable(content) }
        } else {
            other
        },
    }
}

pub fn decode_extension_value(raw: &[u8]) -> (value: SecImageExtensionValue)
    ensures
        value@ == value_of(raw@),
{
    match der::single_der_value(raw) {
        None => SecImageExtensionValue::Der { hex: der::encode(raw) },
        Some((tag, content)) => {
            if tag == 2 {
                match der::decode_unsigned_integer(content) {
                    Some(value) => SecImageExtensionValue::Integer { value },
                    None => SecImageExtensionValue::Der { hex: der::encode(raw) },
                }
            } else if tag == 4 {
                SecImageExtensionValue::Octets {
                    hex: der::encode(content),
                    text: der::printable_text(content),
                }
            } else {
                SecImageExtensionValue::Der { hex: der::encode(raw) }
            }
        },
    }
}

/// True when two extensions have one identifier.
pub open spec fn has_duplicate(list: Seq<RawExtensionModel>) -> bool {
    exists|i: int, j: int|
        0 <= i < j < list.len() && (#[trigger] list[i]).oid == (#[trigger] list[j]).oid
}

/// The extensions of the vendor among the first `n`.
pub open spec fn proprietary(list: Seq<RawExtensionModel>, n: int) -> Seq<ExtensionModel>
    decreases n,
{
    if n <= 0 {
        seq![]
    } else {
        let e = list[n - 1];
        let before = proprietary(list, n - 1);
        if text::begins_with(e.oid, "2.20."@) {
            before.push(
                ExtensionModel { oid: e.oid, critical: e.critical, value: value_of(e.value) },
            )
        } else {
            before
        }
    }
}

/// What is known of a certificate at an offset; nothing where two of its
/// extensions have one identifier.
pub open spec fn summary_of(c: RawModel, chain_index: int, offset: int, size: int) -> Option<
    CertificateModel,
> {
    if has_duplicate(c.extensions) {
        None
    } else {
        Some(
            CertificateModel {
                chain_index,
                offset,
                size,
                subject: c.subject,
                issuer: c.issuer,
                serial_hex: c.serial_hex,
                not_before: c.not_before,
                not_after: c.not_after,
                signature_algorithm_oid: c.signature_algorithm_oid,
                proprietary_extensions: proprietary(c.extensions, c.extensions.len() as int),
            },
        )
    }
}

fn find_duplicate(list: &Vec<RawExtension>) -> (found: bool)
    ensures
        found == has_duplicate(raw_extensions(list@)),
{
    let ghost all = raw_extensions(list@);
    let mut j: usize = 0;
    while j < list.len()
        invariant
            j <= list@.len(),
            all == raw_extensions(list@),
            forall|a: int, b: int|
                0 <= a < b < j ==> (#[trigger] all[a]).oid != (#[trigger] all[b]).oid,
        decreases list@.len() - j,
    {
        let mut i: usize = 0;
        while i < j
            invariant
                i <= j < list@.len(),
                all == raw_extensions(list@),
                forall|a: int| 0 <= a < i ==> (#[trigger] all[a]).oid != all[j as int].oid,
            decreases j - i,
        {
            assert(all[i as int] == list@[i as int]@ && all[j as int] == list@[j as int]@);
            if text::same_text(list[i].oid.as_str(), list[j].oid.as_str()) {
                return true;
            }
            i += 1;
        }
        j += 1;
    }
    assert(all.len() == list@.len());
    false
}

/// Summarizes a certificate that was read at an offset.
pub fn summarize_certificate(
    c: &RawCertificate,
    chain_index: usize,
    offset: usize,
    size: usize,
) -> (summary: Option<SecImageCertificate>)
    ensures
        match summary {
            Some(found) => summary_of(c@, chain_index as int, offset as int, size as int) == Some(
                found@,
            ),
            None => summary_of(c@, chain_index as int, offset as int, size as int) is None,
        },
{
    if find_duplicate(&c.extensions) {
        return None;
    }
    let ghost all = raw_extensions(c.extensions@);
    let mut list: Vec<SecImageExtension> = Vec::new();
    let mut n: usize = 0;
    assert(extension_models(list@) =~= Seq::<ExtensionModel>::empty());
    while n < c.extensions.len()
        invariant
            n <= c.extensions@.len(),
            all == raw_extensions(c.extensions@),
            extension_models(list@) == proprietary(all, n as int),
        decreases c.extensions@.len() - n,
    {
        let e = &c.extensions[n];
        assert(all[n as int] == e@);
        let oid = text::chars_of(e.oid.as_str());
        if text::starts(oid.as_slice(), "2.20.") {
            let ghost before = extension_models(list@);
            let extension = SecImageExtension {
                oid: e.oid.clone(),
                critical: e.critical,
                value: decode_extension_value(e.value.as_slice()),
            };
            let ghost model = extension@;
            list.push(extension);
            assert(extension_models(list@) =~= before.push(model));
        }
        n += 1;
    }
    Some(
        SecImageCertificate {
            chain_index,
            offset: offset as u64,
            size: size as u64,
            subject: c.subject.clone(),
            issuer: c.issuer.clone(),
            serial_hex: c.serial_hex.clone(),
            not_before: c.not_before.clone(),
            not_after: c.not_after.clone(),
            signature_algorithm_oid: c.signature_algorithm_oid.clone(),
            proprietary_extensions: list,
        },
    )
}

fn copy_text(value: &Option<String>) -> (copy: Option<String>)
    ensures
        text_of(copy) == text_of(*value),
{
    match value {
        Some(text) => Some(text.clone()),
        None => None,
    }
}

fn copy_extension(e: &SecImageExtension) -> (copy: SecImageExtension)
    ensures
        copy@ == e@,
{
    SecImageExtension {
        oid: e.oid.clone(),
        critical: e.critical,
        value: match &e.value {
            SecImageExtensionValue::Integer { value } => SecImageExtensionValue::Integer {
                value: *value,
            },
            SecImageExtensionValue::Octets { hex, text } => SecImageExtensionValue::Octets {
                hex: hex.clone(),
                text: copy_text(text),
            },
            SecImageExtensionValue::Der { hex } => SecImageExtensionValue::Der {
                hex: hex.clone(),
            },
        },
    }
}

fn copy_certificate(c: &SecImageCertificate) -> (copy: SecImageCertificate)
    ensures
        copy@ == c@,
{
    let mut list: Vec<SecImageExtension> = Vec::new();
    let mut n: usize = 0;
    while n < c.proprietary_extensions.len()
        invariant
            n <= c.proprietary_extensions@.len(),
            list@.len() == n,
            forall|i: int|
                0 <= i < n ==> (#[trigger] list@[i])@ == c.proprietary_extensions@[i]@,
        decreases c.proprietary_extensions@.len() - n,
    {
        list.push(copy_extension(&c.proprietary_extensions[n]));
        n += 1;
    }
    assert(extension_models(list@) =~= extension_models(c.proprietary_extensions@));
    SecImageCertificate {
        chain_index: c.chain_index,
        offset: c.offset,
        size: c.size,
        subject: c.subject.clone(),
        issuer: c.issuer.clone(),
        serial_hex: c.serial_hex.clone(),
        not_before: c.not_before.clone(),
        not_after: c.not_after.clone(),
        signature_algorithm_oid: c.signature_algorithm_oid.clone(),
        proprietary_extensions: list,
    }
}

/// The same certificates once more.
pub fn copy_certificates(list: &Vec<SecImageCertificate>) -> (copy: Vec<SecImageCertificate>)
    ensures
        certificate_models(copy@) == certificate_models(list@),
{
    let mut copy: Vec<SecImageCertificate> = Vec::new();
    let mut n: usize = 0;
    while n < list.len()
        invariant
            n <= list@.len(),
            copy@.len() == n,
            forall|i: int| 0 <= i < n ==> (#[trigger] copy@[i])@ == list@[i]@,
        decreases list@.len() - n,
    {
        copy.push(copy_certificate(&list[n]));
        n += 1;
    }
    assert(certificate_models(copy@) =~= certificate_models(list@));
    copy
}

/// The value of an extension is a number where it is encoded as an integer that can
/// be read, octets with their text where it is encoded as an octet string, and else
/// its encoding.
pub proof fn law_extension_values(raw: Seq<u8>)
    ensures
        match der::der_value(raw) {
            Some((tag, content)) => {
                &&& tag == 2 && der::unsigned_of(content) is Some ==> value_of(raw) == (
                ValueModel::Integer { value: der::unsigned_of(content)->0 })
                &&& tag == 4 ==> value_of(raw) == (ValueModel::Octets {
                    hex: der::lower_hex(content),
                    text: der::printable(content),
                })
                &&& tag != 4 && (tag != 2 || der::unsigned_of(content) is None) ==> value_of(raw)
                    == (ValueModel::Der { hex: der::lower_hex(raw) })
            },
            None => value_of(raw) == (ValueModel::Der { hex: der::lower_hex(raw) }),
        },
{
}

/// The extensions of the vendor are those whose identifier starts with `2.20.`: each
/// of them is among those that are kept, with its value, in their order.
pub proof fn law_vendor_extensions_are_kept(list: Seq<RawExtensionModel>, e: RawExtensionModel)
    ensures
        ({
            let before = proprietary(list, list.len() as int);
            let after = proprietary(list.push(e), list.len() as int + 1);
            let vendor = e.oid.len() >= 5 && e.oid.take(5) == seq!['2', '.', '2', '0', '.'];
            &&& vendor ==> after == before.push(
                ExtensionModel { oid: e.oid, critical: e.critical, value: value_of(e.value) },
            )
            &&& !vendor ==> after == before
        }),
        proprietary(seq![], 0).len() == 0,
{
    reveal_strlit("2.20.");
    assert("2.20."@ =~= seq!['2', '.', '2', '0', '.']);
    lemma_proprietary_prefix(list, e, list.len() as int);
}

proof fn lemma_proprietary_prefix(list: Seq<RawExtensionModel>, e: RawExtensionModel, n: int)
    requires
        n <= list.len(),
    ensures
        proprietary(list.push(e), n) == proprietary(list, n),
    decreases n,
{
    if n > 0 {
        lemma_proprietary_prefix(list, e, n - 1);
    }
}

/// A certificate is told with its place and its own fields, each as it is, unless
/// two of its extensions have one identifier.
pub proof fn law_certificates_are_told(c: RawModel, chain_index: int, offset: int, size: int)
    ensures
        summary_of(c, chain_index, offset, size) is Some <==> forall|i: int, j: int|
            0 <= i < j < c.extensions.len() ==> (#[trigger] c.extensions[i]).oid != (
            #[trigger] c.extensions[j]).oid,
        summary_of(c, chain_index, offset, size) matches Some(s) ==> {
            &&& s.chain_index == chain_index && s.offset == offset && s.size == size
            &&& s.subject == c.subject && s.issuer == c.issuer && s.serial_hex == c.serial_hex
            &&& s.not_before == c.not_before && s.not_after == c.not_after
            &&& s.signature_algorithm_oid == c.signature_algorithm_oid
            &&& s.proprietary_extensions == proprietary(c.extensions, c.extensions.len() as int)
        },
{
}

} // verus!
