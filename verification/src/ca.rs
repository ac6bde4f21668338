//! A local certificate authority, and the certificates that it issues.

use vstd::prelude::*;

use rcgen::{BasicConstraints, DnType, IsCa};
use rcgen::{ExtendedKeyUsagePurpose as Eku, KeyUsagePurpose as Ku};
use rustls::pki_types::CertificateDer;

use crate::dns::{cert_eligible, certifiable};
use crate::paths::{join_path, joined_path};
use crate::proxy::RouteResolver;
use crate::query::{at_or_below, law_wildcard_takes_in_its_domain_and_all_below};
use crate::strmap::StrMap;
use crate::text::{finishes_with, is_ascii_text};

verus! {

/// The file that holds the authority's certificate.
pub const CA_CERT_FILE: &'static str = "ca-cert.pem";

/// The file that holds the authority's key.
pub const CA_KEY_FILE: &'static str = "ca-key.pem";

/// The file that holds the authority's certificate for everyone to read.
pub const TRUST_CERT_FILE: &'static str = "cert.pem";

/// The file that holds all certificates to trust.
pub const TRUST_BUNDLE_FILE: &'static str = "bundle.pem";

/// Where the authority's certificate is kept.
pub fn ca_cert_path(dir: &str) -> (r: String)
    ensures
        r@ == joined_path(dir@, CA_CERT_FILE@),
{
    join_path(dir, CA_CERT_FILE)
}

/// Where the authority's key is kept.
pub fn ca_key_path(dir: &str) -> (r: String)
    ensures
        r@ == joined_path(dir@, CA_KEY_FILE@),
{
    join_path(dir, CA_KEY_FILE)
}

/// Why there is no certificate.
#[derive(Debug, Clone, Copy, PartialEq, Eq, Structural)]
pub enum CaError {
    /// The authority's key cannot be read.
    CaKey,
    /// The text holds no certificate.
    NoCertificate,
    /// The text's certificate cannot be read.
    BadCertificate,
    /// No key pair could be made for the authority.
    CaKeyGeneration,
    /// The contents of the authority's certificate are not acceptable.
    CaParameters,
    /// The authority's certificate could not be signed.
    CaSignature,
    /// The authority's certificate cannot be read as an issuer's.
    Issuer,
    /// No key pair could be made for a host.
    LeafKeyGeneration,
    /// The contents of a host's certificate are not acceptable.
    LeafParameters,
    /// A host's certificate could not be signed.
    LeafSignature,
}

impl CaError {
    /// What the error says to a person.
    pub open spec fn spec_message(self) -> Seq<char> {
        match self {
            CaError::CaKey => "failed to parse persisted CA private key"@,
            CaError::NoCertificate => "PEM contains no certificate"@,
            CaError::BadCertificate => "failed to parse PEM certificate"@,
            CaError::CaKeyGeneration => "failed to generate CA key pair"@,
            CaError::CaParameters => "failed to construct CA cert params"@,
            CaError::CaSignature => "failed to self-sign CA certificate"@,
            CaError::Issuer => "failed to build issuer from CA certificate"@,
            CaError::LeafKeyGeneration => "failed to generate leaf key pair"@,
            CaError::LeafParameters => "failed to construct leaf cert params"@,
            CaError::LeafSignature => "failed to sign leaf certificate"@,
        }
    }

    /// What the error says to a person.
    pub fn message(&self) -> (r: String)
        ensures
            r@ == self.spec_message(),
    {
        match self {
            CaError::CaKey => "failed to parse persisted CA private key".to_owned(),
            CaError::NoCertificate => "PEM contains no certificate".to_owned(),
            CaError::BadCertificate => "failed to parse PEM certificate".to_owned(),
            CaError::CaKeyGeneration => "failed to generate CA key pair".to_owned(),
            CaError::CaParameters => "failed to construct CA cert params".to_owned(),
            CaError::CaSignature => "failed to self-sign CA certificate".to_owned(),
            CaError::Issuer => "failed to build issuer from CA certificate".to_owned(),
            CaError::LeafKeyGeneration => "failed to generate leaf key pair".to_owned(),
            CaError::LeafParameters => "failed to construct leaf cert params".to_owned(),
            CaError::LeafSignature => "failed to sign leaf certificate".to_owned(),
        }
    }
}

/// What `rcgen` reports when it fails.
#[verifier::external_type_specification]
#[verifier::external_body]
pub struct ExRcgenError(rcgen::Error);

/// The contents of a certificate, as `rcgen` takes them.
#[verifier::external_type_specification]
#[verifier::external_body]
pub struct ExCertificateParams(rcgen::CertificateParams);

/// What a key may be used for.
#[derive(Debug, Clone, Copy, PartialEq, Eq, Structural)]
pub enum KeyUsage {
    KeyCertSign,
    CrlSign,
    DigitalSignature,
    KeyEncipherment,
}

/// What else a certificate may be used for.
#[derive(Debug, Clone, Copy, PartialEq, Eq, Structural)]
pub enum ExtendedKeyUsage {
    ServerAuth,
}

/// Whether a certificate may sign others.
#[derive(Debug, Clone, Copy, PartialEq, Eq, Structural)]
pub enum Standing {
    /// It may sign any other.
    UnconstrainedAuthority,
    /// It says that it may sign none.
    NoAuthority,
}

/// What a certificate is to say.
pub struct CertRequest {
    /// The host names that it is for.
    pub names: Vec<String>,
    pub common_name: String,
    pub organization: Option<String>,
    /// Whether it may sign other certificates.
    pub standing: Standing,
    /// Whether it names the key that signed it.
    pub authority_key_identifier: bool,
    pub key_usages: Vec<KeyUsage>,
    pub extended_key_usages: Vec<ExtendedKeyUsage>,
}

/// What a certificate is to say.
pub struct CertRequestView {
    pub names: Seq<Seq<char>>,
    pub common_name: Seq<char>,
    pub organization: Option<Seq<char>>,
    pub standing: Standing,
    pub authority_key_identifier: bool,
    pub key_usages: Set<KeyUsage>,
    pub extended_key_usages: Seq<ExtendedKeyUsage>,
}

impl View for CertRequest {
    type V = CertRequestView;

    open spec fn view(&self) -> CertRequestView {
        CertRequestView {
            names: self.names.deep_view(),
            common_name: self.common_name@,
            organization: self.organization.deep_view(),
            standing: self.standing,
            authority_key_identifier: self.authority_key_identifier,
            key_usages: self.key_usages@.to_set(),
            extended_key_usages: self.extended_key_usages@,
        }
    }
}

impl CertRequestView {
    /// Whether every name is one of ASCII characters.
    pub open spec fn ascii_names(self) -> bool {
        forall|i: int| 0 <= i < self.names.len() ==> is_ascii_text(#[trigger] self.names[i])
    }

    /// Whether no name can be an address with more than one spelling.
    pub open spec fn plain_names(self) -> bool {
        forall|i: int| 0 <= i < self.names.len() ==> !(#[trigger] self.names[i]).contains(':')
    }

    /// The same with other names.
    pub open spec fn with_names(self, names: Seq<Seq<char>>) -> CertRequestView {
        CertRequestView { names, ..self }
    }

    /// What the authority's own certificate says.
    pub open spec fn of_authority() -> CertRequestView {
        CertRequestView {
            names: Seq::empty(),
            common_name: "fghj local CA"@,
            organization: Some("fghj"@),
            standing: Standing::UnconstrainedAuthority,
            authority_key_identifier: false,
            key_usages: set![KeyUsage::KeyCertSign, KeyUsage::CrlSign],
            extended_key_usages: Seq::empty(),
        }
    }

    /// What the certificate of a host says.
    pub open spec fn of_host(name: Seq<char>) -> CertRequestView {
        CertRequestView {
            names: seq![name],
            common_name: name,
            organization: None,
            standing: Standing::NoAuthority,
            authority_key_identifier: true,
            key_usages: set![KeyUsage::DigitalSignature, KeyUsage::KeyEncipherment],
            extended_key_usages: seq![ExtendedKeyUsage::ServerAuth],
        }
    }
}

fn two_usages(a: KeyUsage, b: KeyUsage) -> (r: Vec<KeyUsage>)
    ensures
        r@.to_set() == set![a, b],
{
    let mut r: Vec<KeyUsage> = Vec::new();
    r.push(a);
    r.push(b);
    proof {
        assert(r@ =~= seq![a, b]);
        assert forall|u: KeyUsage| r@.to_set().contains(u) <==> set![a, b].contains(u) by {
            assert(r@[0] == a && r@[1] == b);
        }
        assert(r@.to_set() =~= set![a, b]);
    }
    r
}

/// What the authority's own certificate says.
pub fn ca_request() -> (r: CertRequest)
    ensures
        r@ == CertRequestView::of_authority(),
{
    let r = CertRequest {
        names: Vec::new(),
        common_name: "fghj local CA".to_owned(),
        organization: Some("fghj".to_owned()),
        standing: Standing::UnconstrainedAuthority,
        authority_key_identifier: false,
        key_usages: two_usages(KeyUsage::KeyCertSign, KeyUsage::CrlSign),
        extended_key_usages: Vec::new(),
    };
    proof {
        assert(r@.names =~= Seq::empty());
        assert(r@.extended_key_usages =~= Seq::empty());
    }
    r
}

/// What the certificate of a host says.
pub fn leaf_request(name: &str) -> (r: CertRequest)
    ensures
        r@ == CertRequestView::of_host(name@),
{
    let mut names: Vec<String> = Vec::new();
    names.push(name.to_owned());
    let mut extended_key_usages: Vec<ExtendedKeyUsage> = Vec::new();
    extended_key_usages.push(ExtendedKeyUsage::ServerAuth);
    proof {
        assert(names.deep_view() =~= seq![name@]);
        assert(extended_key_usages@ =~= seq![ExtendedKeyUsage::ServerAuth]);
    }
    CertRequest {
        names,
        common_name: name.to_owned(),
        organization: None,
        standing: Standing::NoAuthority,
        authority_key_identifier: true,
        key_usages: two_usages(KeyUsage::DigitalSignature, KeyUsage::KeyEncipherment),
        extended_key_usages,
    }
}

/// What `rcgen::CertificateParams` holds, each name by its text.
pub uninterp spec fn contents(params: rcgen::CertificateParams) -> CertRequestView;

/// The text of a name as `rcgen::CertificateParams::new` keeps it: of an address that
/// of the address, in the one spelling that std writes; of any other name the name.
pub uninterp spec fn kept_name(name: Seq<char>) -> Seq<char>;

/// The contents of a certificate in the form that `rcgen` takes, by
/// `rcgen::CertificateParams::new` and its public fields: accepted exactly if every
/// name is one of ASCII characters, and then kept as they are but for the names. A
/// name is kept by what `IpAddr::from_str` makes of it. Only an address of version 6
/// has several spellings, and each holds a colon: a name without one is kept as it is.
#[verifier::external_body]
fn certificate_params(q: &CertRequest) -> (r: Result<rcgen::CertificateParams, rcgen::Error>)
    ensures
        r.is_ok() == q@.ascii_names(),
        r matches Ok(params) ==> contents(params) == q@.with_names(
            q@.names.map_values(|n: Seq<char>| kept_name(n)),
        ),
        r matches Ok(params) ==> q@.plain_names() ==> contents(params) == q@,
{
    let mut p = rcgen::CertificateParams::new(q.names.clone())?;
    p.distinguished_name.push(DnType::CommonName, &q.common_name);
    q.organization.iter().for_each(|o| p.distinguished_name.push(DnType::OrganizationName, o));
    p.is_ca = match q.standing {
        Standing::UnconstrainedAuthority => IsCa::Ca(BasicConstraints::Unconstrained),
        Standing::NoAuthority => IsCa::ExplicitNoCa,
    };
    p.use_authority_key_identifier_extension = q.authority_key_identifier;
    p.key_usages = q.key_usages.iter().map(|u| match u {
        KeyUsage::KeyCertSign => Ku::KeyCertSign, KeyUsage::CrlSign => Ku::CrlSign,
        KeyUsage::DigitalSignature => Ku::DigitalSignature,
        KeyUsage::KeyEncipherment => Ku::KeyEncipherment,
    }).collect();
    p.extended_key_usages = q.extended_key_usages.iter().map(|u| match u { ExtendedKeyUsage::ServerAuth => Eku::ServerAuth }).collect();
    Ok(p)
}

/// The private key that a PEM text holds, in DER form, as `rcgen::KeyPair` reads
/// and writes it; `None` if it reads none.
pub uninterp spec fn key_bytes(pem: Seq<char>) -> Option<Seq<u8>>;

/// `rcgen::KeyPair::from_pem`, and of what it reads `serialize_der`, which depends
/// on the text alone. Reading asks the system for random numbers, so that it may
/// fail for any text is not excluded.
#[verifier::external_body]
fn parse_key(pem: &str) -> (r: Result<Vec<u8>, rcgen::Error>)
    ensures
        r matches Ok(der) ==> key_bytes(pem@) == Some(der@),
{
    Ok(rcgen::KeyPair::from_pem(pem)?.serialize_der())
}

/// `rcgen::KeyPair::generate`, written down by `serialize_pem`. The key is random;
/// the text is one that `rcgen::KeyPair::from_pem` reads.
#[verifier::external_body]
fn generate_key() -> (r: Result<String, rcgen::Error>)
    ensures
        r matches Ok(pem) ==> key_bytes(pem@) is Some,
{
    Ok(rcgen::KeyPair::generate()?.serialize_pem())
}

/// The first certificate in a PEM text, in DER form, as `rustls_pemfile::certs`
/// reads it: `None` if there is none, `Some(None)` if the text cannot be read up to
/// there.
pub uninterp spec fn first_certificate(pem: Seq<char>) -> Option<Option<Seq<u8>>>;

/// The first item of `rustls_pemfile::certs`, which depends on the text alone.
#[verifier::external_body]
fn find_certificate(pem: &str) -> (r: Option<Option<Vec<u8>>>)
    ensures
        r.deep_view() == first_certificate(pem@),
{
    let mut reader = pem.as_bytes();
    let first = rustls_pemfile::certs(&mut reader).next();
    first.map(|found| found.ok().map(|der| der.to_vec()))
}

/// The public key of the private key that a PEM text holds, as
/// `rcgen::KeyPair::subject_public_key_info` gives it.
pub uninterp spec fn public_key(pem: Seq<char>) -> Seq<u8>;

/// What a certificate says, and whose it is.
pub struct CertificateView {
    pub says: CertRequestView,
    /// The public key that the certificate is for.
    pub key: Seq<u8>,
}

/// What a certificate in DER form says, and whose it is, as X.509 has it.
pub uninterp spec fn certificate_of(der: Seq<u8>) -> CertificateView;

/// Whether the signature of a certificate in DER form verifies with a public key.
pub uninterp spec fn verifies(der: Seq<u8>, key: Seq<u8>) -> bool;

/// Whether a certificate in DER form names as its issuer the subject that
/// `rcgen::Issuer::from_ca_cert_der` reads in another.
pub uninterp spec fn names_issuer(der: Seq<u8>, issuer_der: Seq<u8>) -> bool;

/// A signed certificate.
struct SignedCert {
    pem: String,
    der: Vec<u8>,
}

/// `rcgen::CertificateParams::self_signed` with a key in PEM form: a certificate
/// with the given contents, for that key and signed with it. The signature is
/// random, so the bytes are not stated, nor when signing fails. The PEM form is
/// that of the DER form, so that `rustls_pemfile::certs` reads the one from the
/// other.
#[verifier::external_body]
fn sign_self(params: &rcgen::CertificateParams, key_pem: &str) -> (r: Result<
    SignedCert,
    rcgen::Error,
>)
    ensures
        r matches Ok(cert) ==> {
            &&& first_certificate(cert.pem@) == Some(Some(cert.der@))
            &&& certificate_of(cert.der@) == (CertificateView {
                says: contents(*params),
                key: public_key(key_pem@),
            })
            &&& verifies(cert.der@, public_key(key_pem@))
        },
{
    let cert = params.self_signed(&rcgen::KeyPair::from_pem(key_pem)?)?;
    Ok(SignedCert { pem: cert.pem(), der: cert.der().to_vec() })
}

/// Whether `rcgen::Issuer::from_ca_cert_der` reads a certificate.
pub uninterp spec fn reads_as_issuer(der: Seq<u8>) -> bool;

/// `rcgen::Issuer::from_ca_cert_der` with a key that `rcgen::KeyPair::from_pem`
/// reads: succeeds only if both can be read. Reading a key asks the system for random
/// numbers, so that it may fail for any text is not excluded.
#[verifier::external_body]
fn check_issuer(issuer_der: &[u8], issuer_key_pem: &str) -> (r: Result<(), rcgen::Error>)
    ensures
        r.is_ok() ==> key_bytes(issuer_key_pem@) is Some && reads_as_issuer(issuer_der@),
{
    let issuer_key = rcgen::KeyPair::from_pem(issuer_key_pem)?;
    rcgen::Issuer::from_ca_cert_der(&CertificateDer::from(issuer_der), issuer_key).map(|_| ())
}

/// An attribute of the subject of a certificate: its type, and its value with the
/// number of the value's tag.
pub struct SubjectAttribute {
    pub oid: Vec<u64>,
    pub tag: u32,
    pub value: Vec<u8>,
}

/// An attribute of the subject of a certificate.
pub struct SubjectAttributeView {
    pub oid: Seq<u64>,
    pub tag: u32,
    pub value: Seq<u8>,
}

impl View for SubjectAttribute {
    type V = SubjectAttributeView;

    open spec fn view(&self) -> SubjectAttributeView {
        SubjectAttributeView { oid: self.oid@, tag: self.tag, value: self.value@ }
    }
}

impl DeepView for SubjectAttribute {
    type V = SubjectAttributeView;

    open spec fn deep_view(&self) -> SubjectAttributeView {
        self@
    }
}

/// The attributes of the subject of a certificate, as
/// `x509_parser::parse_x509_certificate` reads them; `None` if it reads no
/// certificate, or a number in a type is too large.
pub uninterp spec fn subject_of(der: Seq<u8>) -> Option<Seq<SubjectAttributeView>>;

/// `x509_parser::parse_x509_certificate`, and of what it reads the attributes of the
/// subject, which depend on the bytes alone.
#[verifier::external_body]
fn subject_attributes(der: &[u8]) -> (r: Option<Vec<SubjectAttribute>>)
    ensures
        r.deep_view() == subject_of(der@),
{
    let (_, x509) = x509_parser::parse_x509_certificate(der).ok()?;
    let attributes = x509.subject().iter_attributes().map(|a| {
        let value = a.attr_value();
        let oid = a.attr_type().iter()?.collect();
        Some(SubjectAttribute { oid, tag: value.header.tag().0, value: value.data.to_vec() })
    });
    attributes.collect()
}

/// Whether the type of an attribute can be written: at least two numbers, of which
/// the first two lie in the ranges that a type's encoding has room for.
pub open spec fn writable_type(oid: Seq<u64>) -> bool {
    &&& oid.len() >= 2
    &&& oid[0] < 3
    &&& oid[0] < 2 ==> oid[1] < 40
    &&& oid[1] < 18446744073709551535
}

/// The number of the tag of a value of printable characters.
pub const PRINTABLE_TAG: u32 = 19;

/// Whether a byte can be written in a value of printable characters: a space, a
/// letter, an equals sign, or what lies from the apostrophe to the colon, but no
/// asterisk.
pub open spec fn writable_printable(b: u8) -> bool {
    ||| b == 32
    ||| 39 <= b <= 58 && b != 42
    ||| b == 61
    ||| 65 <= b <= 90
    ||| 97 <= b <= 122
}

/// Whether an attribute can be written into the certificates that its holder issues.
pub open spec fn writable_attribute(a: SubjectAttributeView) -> bool {
    &&& writable_type(a.oid)
    &&& a.tag == PRINTABLE_TAG ==> forall|i: int|
        0 <= i < a.value.len() ==> writable_printable(#[trigger] a.value[i])
}

/// Whether all attributes of a subject can be written into the certificates that it
/// issues.
pub open spec fn writable_subject(attributes: Seq<SubjectAttributeView>) -> bool {
    forall|i: int| 0 <= i < attributes.len() ==> writable_attribute(#[trigger] attributes[i])
}

/// Whether the subject of a certificate can be written into those that it issues.
pub open spec fn names_writable_subject(der: Seq<u8>) -> bool {
    subject_of(der) matches Some(attributes) && writable_subject(attributes)
}

fn can_write_attribute(a: &SubjectAttribute) -> (r: bool)
    ensures
        r == writable_attribute(a@),
{
    if a.oid.len() < 2 || a.oid[0] >= 3 || (a.oid[0] < 2 && a.oid[1] >= 40) || a.oid[1]
        >= 18446744073709551535 {
        return false;
    }
    if a.tag != PRINTABLE_TAG {
        return true;
    }
    let mut i: usize = 0;
    while i < a.value.len()
        invariant
            i <= a.value@.len(),
            a.tag == PRINTABLE_TAG,
            writable_type(a@.oid),
            forall|j: int| 0 <= j < i ==> writable_printable(#[trigger] a.value@[j]),
        decreases a.value@.len() - i,
    {
        let b: u8 = a.value[i];
        if !(b == 32 || (39 <= b && b <= 58 && b != 42) || b == 61 || (65 <= b && b <= 90) || (97
            <= b && b <= 122)) {
            proof {
                assert(!writable_printable(a@.value[i as int]));
            }
            return false;
        }
        i += 1;
    }
    true
}

/// Whether all attributes of a subject can be written into the certificates that it
/// issues.
pub fn can_write_subject(attributes: &Vec<SubjectAttribute>) -> (r: bool)
    ensures
        r == writable_subject(attributes.deep_view()),
{
    let mut i: usize = 0;
    while i < attributes.len()
        invariant
            i <= attributes@.len(),
            forall|j: int|
                0 <= j < i ==> writable_attribute(#[trigger] attributes.deep_view()[j]),
        decreases attributes@.len() - i,
    {
        proof {
            assert(attributes.deep_view()[i as int] == attributes@[i as int]@);
        }
        if !can_write_attribute(&attributes[i]) {
            return false;
        }
        i += 1;
    }
    true
}

/// `rcgen::CertificateParams::signed_by`: a certificate with the given contents,
/// for one key and signed with another, whose own certificate names the issuer.
/// The signature is random, so the bytes are not stated, nor when signing fails.
/// An issuer's subject that cannot be written is left out: writing it panics.
#[verifier::external_body]
fn sign_by(
    params: &rcgen::CertificateParams,
    key_pem: &str,
    issuer_der: &[u8],
    issuer_key_pem: &str,
) -> (r: Result<Vec<u8>, rcgen::Error>)
    requires
        names_writable_subject(issuer_der@),
    ensures
        r matches Ok(der) ==> {
            &&& certificate_of(der@) == (CertificateView {
                says: contents(*params),
                key: public_key(key_pem@),
            })
            &&& verifies(der@, public_key(issuer_key_pem@))
            &&& names_issuer(der@, issuer_der@)
        },
{
    let issuer_key = rcgen::KeyPair::from_pem(issuer_key_pem)?;
    let issuer = rcgen::Issuer::from_ca_cert_der(&CertificateDer::from(issuer_der), issuer_key)?;
    let cert = params.signed_by(&rcgen::KeyPair::from_pem(key_pem)?, &issuer)?;
    Ok(cert.der().to_vec())
}

/// The certificate that was found in a text, or why there is none.
pub fn certificate_found(found: Option<Option<Vec<u8>>>) -> (r: Result<Vec<u8>, CaError>)
    ensures
        match found {
            Some(Some(der)) => r == Ok::<Vec<u8>, CaError>(der),
            Some(None) => r == Err::<Vec<u8>, CaError>(CaError::BadCertificate),
            None => r == Err::<Vec<u8>, CaError>(CaError::NoCertificate),
        },
{
    match found {
        Some(Some(der)) => Ok(der),
        Some(None) => Err(CaError::BadCertificate),
        None => Err(CaError::NoCertificate),
    }
}

/// The first certificate of a PEM text in DER form.
pub fn pem_to_der(pem: &str) -> (r: Result<Vec<u8>, CaError>)
    ensures
        match first_certificate(pem@) {
            Some(Some(der)) => r matches Ok(d) && d@ == der,
            Some(None) => r == Err::<Vec<u8>, CaError>(CaError::BadCertificate),
            None => r == Err::<Vec<u8>, CaError>(CaError::NoCertificate),
        },
{
    certificate_found(find_certificate(pem))
}

/// A certificate authority: its key and its certificate.
pub struct LoadedCa {
    pub key_pem: String,
    pub cert_pem: String,
    pub cert_der: Vec<u8>,
}

/// A certificate authority: its key and its certificate.
pub struct LoadedCaView {
    pub key_pem: Seq<char>,
    pub cert_pem: Seq<char>,
    pub cert_der: Seq<u8>,
}

impl View for LoadedCa {
    type V = LoadedCaView;

    open spec fn view(&self) -> LoadedCaView {
        LoadedCaView {
            key_pem: self.key_pem@,
            cert_pem: self.cert_pem@,
            cert_der: self.cert_der@,
        }
    }
}

impl LoadedCaView {
    /// Whether the certificate is the authority's own: for its key, signed with it,
    /// and saying what an authority's certificate says.
    pub open spec fn genuine(self) -> bool {
        &&& certificate_of(self.cert_der) == (CertificateView {
            says: CertRequestView::of_authority(),
            key: public_key(self.key_pem),
        })
        &&& verifies(self.cert_der, public_key(self.key_pem))
    }

    /// Whether the key can be read, and the certificate's two forms agree.
    pub open spec fn readable(self) -> bool {
        key_bytes(self.key_pem) is Some && first_certificate(self.cert_pem) == Some(
            Some(self.cert_der),
        )
    }
}

/// The authority that two stored texts stand for, given whether the key was read.
pub open spec fn loaded(key_read: bool, cert_pem: Seq<char>, key_pem: Seq<char>) -> Result<
    LoadedCaView,
    CaError,
> {
    if !key_read {
        Err(CaError::CaKey)
    } else {
        match first_certificate(cert_pem) {
            Some(Some(cert_der)) => Ok(LoadedCaView { key_pem, cert_pem, cert_der }),
            Some(None) => Err(CaError::BadCertificate),
            None => Err(CaError::NoCertificate),
        }
    }
}

/// The authority that two stored texts stand for, given whether the key was read.
pub fn authority_of(key_read: bool, cert_pem: String, key_pem: String) -> (r: Result<
    LoadedCa,
    CaError,
>)
    ensures
        match r {
            Ok(ca) => loaded(key_read, cert_pem@, key_pem@) == Ok::<LoadedCaView, CaError>(ca@),
            Err(e) => loaded(key_read, cert_pem@, key_pem@) == Err::<LoadedCaView, CaError>(e),
        },
{
    if !key_read {
        return Err(CaError::CaKey);
    }
    match pem_to_der(cert_pem.as_str()) {
        Ok(cert_der) => Ok(LoadedCa { key_pem, cert_pem, cert_der }),
        Err(e) => Err(e),
    }
}

/// The authority that two stored texts stand for. Whether a key is read rests on the
/// system too; none is read from a text that holds none.
pub fn load_ca(cert_pem: String, key_pem: String) -> (r: Result<LoadedCa, CaError>)
    ensures
        match r {
            Ok(ca) => loaded(true, cert_pem@, key_pem@) == Ok::<LoadedCaView, CaError>(ca@)
                && ca@.readable(),
            Err(e) => e == CaError::CaKey || (key_bytes(key_pem@) is Some && loaded(
                true,
                cert_pem@,
                key_pem@,
            ) == Err::<LoadedCaView, CaError>(e)),
        },
{
    let key_read = parse_key(key_pem.as_str()).is_ok();
    authority_of(key_read, cert_pem, key_pem)
}

/// A new authority, with a random key. It can be read back from its two texts.
pub fn generate_ca() -> (r: Result<LoadedCa, CaError>)
    ensures
        match r {
            Ok(ca) => ca@.genuine() && ca@.readable() && loaded(true, ca@.cert_pem, ca@.key_pem)
                == Ok::<LoadedCaView, CaError>(ca@),
            Err(e) => e == CaError::CaKeyGeneration || e == CaError::CaSignature,
        },
{
    let key_pem = match generate_key() {
        Ok(key) => key,
        Err(_) => {
            return Err(CaError::CaKeyGeneration);
        },
    };
    let params = match certificate_params(&ca_request()) {
        Ok(params) => params,
        Err(_) => {
            return Err(CaError::CaParameters);
        },
    };
    match sign_self(&params, key_pem.as_str()) {
        Ok(cert) => Ok(LoadedCa { key_pem, cert_pem: cert.pem, cert_der: cert.der }),
        Err(_) => Err(CaError::CaSignature),
    }
}

/// An authority whose texts are stored is read back as it was, whenever its key is
/// read.
pub proof fn law_stored_authority_reads_back(ca: LoadedCaView)
    requires
        ca.readable(),
    ensures
        loaded(true, ca.cert_pem, ca.key_pem) == Ok::<LoadedCaView, CaError>(ca),
{
}

/// A certificate of a host with its key, both in DER form.
#[derive(Debug)]
pub struct LeafCert {
    pub cert_der: Vec<u8>,
    pub key_der: Vec<u8>,
}

/// A certificate of a host with its key.
pub struct LeafCertView {
    pub cert_der: Seq<u8>,
    pub key_der: Seq<u8>,
}

impl View for LeafCert {
    type V = LeafCertView;

    open spec fn view(&self) -> LeafCertView {
        LeafCertView { cert_der: self.cert_der@, key_der: self.key_der@ }
    }
}

impl DeepView for LeafCert {
    type V = LeafCertView;

    open spec fn deep_view(&self) -> LeafCertView {
        self@
    }
}

impl Clone for LeafCert {
    fn clone(&self) -> (r: Self)
        ensures
            r@ == self@,
    {
        let r = LeafCert { cert_der: self.cert_der.clone(), key_der: self.key_der.clone() };
        proof {
            assert(r.cert_der@ =~= self.cert_der@);
            assert(r.key_der@ =~= self.key_der@);
        }
        r
    }
}

/// Whether a certificate is one for a name, with the key that is kept beside it,
/// issued and signed by an authority. The name stands in it as it is kept.
pub open spec fn is_leaf_for(leaf: LeafCertView, name: Seq<char>, ca: LoadedCaView) -> bool {
    &&& !name.contains(':') ==> kept_name(name) == name
    &&& exists|pem: Seq<char>|
        {
            &&& #[trigger] key_bytes(pem) == Some(leaf.key_der)
            &&& certificate_of(leaf.cert_der) == (CertificateView {
                says: CertRequestView::of_host(name).with_names(seq![kept_name(name)]),
                key: public_key(pem),
            })
            &&& verifies(leaf.cert_der, public_key(ca.key_pem))
            &&& names_issuer(leaf.cert_der, ca.cert_der)
        }
}

/// A new certificate for a name, with a random key of its own, signed by the
/// authority. The authority's key must be readable, and its certificate one whose
/// subject can be written into others; the name must be one of ASCII characters.
pub fn issue(ca: &LoadedCa, name: &str) -> (r: Result<LeafCert, CaError>)
    ensures
        !(key_bytes(ca@.key_pem) is Some && reads_as_issuer(ca@.cert_der)
            && names_writable_subject(ca@.cert_der)) ==> r == Err::<LeafCert, CaError>(
            CaError::Issuer,
        ),
        r == Err::<LeafCert, CaError>(CaError::LeafParameters) ==> !is_ascii_text(name@),
        !is_ascii_text(name@) ==> r is Err,
        match r {
            Ok(leaf) => is_leaf_for(leaf@, name@, ca@),
            Err(e) => e == CaError::Issuer || e == CaError::LeafKeyGeneration || e
                == CaError::LeafParameters || e == CaError::LeafSignature,
        },
{
    match check_issuer(ca.cert_der.as_slice(), ca.key_pem.as_str()) {
        Ok(_) => {},
        Err(_) => {
            return Err(CaError::Issuer);
        },
    }
    match subject_attributes(ca.cert_der.as_slice()) {
        Some(attributes) => {
            if !can_write_subject(&attributes) {
                return Err(CaError::Issuer);
            }
        },
        None => {
            return Err(CaError::Issuer);
        },
    }
    let key_pem = match generate_key() {
        Ok(key) => key,
        Err(_) => {
            return Err(CaError::LeafKeyGeneration);
        },
    };
    let key_der = match parse_key(key_pem.as_str()) {
        Ok(der) => der,
        Err(_) => {
            return Err(CaError::LeafKeyGeneration);
        },
    };
    proof {
        let q = CertRequestView::of_host(name@);
        assert(q.names[0] == name@);
        assert(q.ascii_names() <==> is_ascii_text(name@));
    }
    let params = match certificate_params(&leaf_request(name)) {
        Ok(params) => params,
        Err(_) => {
            return Err(CaError::LeafParameters);
        },
    };
    match sign_by(&params, key_pem.as_str(), ca.cert_der.as_slice(), ca.key_pem.as_str()) {
        Ok(cert_der) => {
            let leaf = LeafCert { cert_der, key_der };
            proof {
                assert(key_bytes(key_pem@) == Some(leaf@.key_der));
                let q = CertRequestView::of_host(name@);
                let kept = q.names.map_values(|n: Seq<char>| kept_name(n));
                assert(kept =~= seq![kept_name(name@)]);
                if !name@.contains(':') {
                    assert(q.plain_names());
                    assert(q.with_names(kept).names[0] == q.names[0]);
                }
            }
            Ok(leaf)
        },
        Err(_) => Err(CaError::LeafSignature),
    }
}

/// A certificate that a genuine authority signed verifies with the key of the
/// authority's certificate, and is no authority's itself.
pub proof fn law_issued_certificates_chain_to_the_authority(
    ca: LoadedCaView,
    leaf: LeafCertView,
    name: Seq<char>,
)
    requires
        ca.genuine(),
        is_leaf_for(leaf, name, ca),
    ensures
        verifies(leaf.cert_der, certificate_of(ca.cert_der).key),
        names_issuer(leaf.cert_der, ca.cert_der),
        certificate_of(ca.cert_der).says.standing == Standing::UnconstrainedAuthority,
        certificate_of(leaf.cert_der).says.standing == Standing::NoAuthority,
        certificate_of(leaf.cert_der).says.names == seq![kept_name(name)],
        !name.contains(':') ==> certificate_of(leaf.cert_der).says.names == seq![name],
{
}

/// Issues certificates on demand, and remembers them.
pub struct DynamicCertResolver {
    ca: LoadedCa,
    cache: StrMap<LeafCert>,
}

/// An authority and the certificates that it has issued.
pub struct DynamicCertResolverView {
    pub ca: LoadedCaView,
    pub cache: Map<Seq<char>, LeafCertView>,
}

impl View for DynamicCertResolver {
    type V = DynamicCertResolverView;

    closed spec fn view(&self) -> DynamicCertResolverView {
        DynamicCertResolverView { ca: self.ca@, cache: self.cache@ }
    }
}

/// What a resolver does for a name.
#[derive(Debug, Clone, Copy, PartialEq, Eq, Structural)]
pub enum CertStep {
    /// The name has no certificate.
    Refuse,
    /// It has one already.
    Reuse,
    /// One is to be issued.
    Issue,
}

/// What a resolver does for a name: one that may have no certificate is refused,
/// and none is issued twice.
pub open spec fn cert_step(name: Seq<char>, routed: bool, cached: bool) -> CertStep {
    if !certifiable(name, routed) {
        CertStep::Refuse
    } else if cached {
        CertStep::Reuse
    } else {
        CertStep::Issue
    }
}

impl DynamicCertResolver {
    /// A resolver that has issued nothing yet.
    pub fn new(ca: LoadedCa) -> (r: Self)
        ensures
            r@ == (DynamicCertResolverView { ca: ca@, cache: Map::empty() }),
    {
        DynamicCertResolver { ca, cache: StrMap::new() }
    }

    /// Records a certificate that was issued for a name; a failure records
    /// nothing.
    pub fn record(&mut self, name: &str, issued: Result<LeafCert, CaError>) -> (r: Option<LeafCert>)
        ensures
            final(self)@.ca == old(self)@.ca,
            match issued {
                Ok(leaf) => r.deep_view() == Some(leaf@) && final(self)@.cache
                    == old(self)@.cache.insert(name@, leaf@),
                Err(_) => r is None && final(self)@ == old(self)@,
            },
    {
        match issued {
            Ok(leaf) => {
                self.cache.insert(name.to_owned(), leaf.clone());
                Some(leaf)
            },
            Err(_) => None,
        }
    }

    /// The certificate for a name, issued if there is none yet; none for a name
    /// that may have no certificate, or if it could not be issued.
    pub fn resolve_for<R: RouteResolver>(&mut self, name: &str, routes: &R) -> (r: Option<LeafCert>)
        ensures
            final(self)@.ca == old(self)@.ca,
            match cert_step(
                name@,
                routes.routed(name@) is Some,
                old(self)@.cache.contains_key(name@),
            ) {
                CertStep::Refuse => r is None && final(self)@ == old(self)@,
                CertStep::Reuse => r.deep_view() == Some(old(self)@.cache[name@]) && final(self)@
                    == old(self)@,
                CertStep::Issue => match r {
                    Some(leaf) => final(self)@.cache == old(self)@.cache.insert(name@, leaf@)
                        && is_leaf_for(leaf@, name@, old(self)@.ca),
                    None => final(self)@ == old(self)@,
                },
            },
    {
        let routed = routes.resolve(name).is_some();
        if !cert_eligible(name, routed) {
            return None;
        }
        match self.cache.get(name) {
            Some(leaf) => {
                return Some(leaf.clone());
            },
            None => {},
        }
        let issued = issue(&self.ca, name);
        self.record(name, issued)
    }
}

/// A PEM text with line feeds at its line ends, as `pem::encode_config` writes it.
pub uninterp spec fn pem_text(tag: Seq<char>, data: Seq<u8>) -> Seq<char>;

/// `pem::encode_config` with `pem::LineEnding::LF`: depends on the tag and the data
/// alone.
#[verifier::external_body]
fn encode_pem(tag: &str, data: &[u8]) -> (r: String)
    ensures
        r@ == pem_text(tag@, data@),
{
    let config = pem::EncodeConfig::new().set_line_ending(pem::LineEnding::LF);
    pem::encode_config(&pem::Pem::new(tag, data), config)
}

/// The certificates to trust: those of the system, and then the authority's own.
pub open spec fn bundle_text(roots: Seq<Seq<u8>>, cert_pem: Seq<char>) -> Seq<char> {
    encoded_roots(roots) + cert_pem
}

/// Certificates one after another.
pub open spec fn encoded_roots(roots: Seq<Seq<u8>>) -> Seq<char>
    decreases roots.len(),
{
    if roots.len() == 0 {
        Seq::empty()
    } else {
        encoded_roots(roots.drop_last()) + pem_text("CERTIFICATE"@, roots.last())
    }
}

/// The certificates to trust, given those of the system.
pub fn trust_bundle(roots: &Vec<Vec<u8>>, cert_pem: &str) -> (r: String)
    ensures
        r@ == bundle_text(roots.deep_view(), cert_pem@),
        finishes_with(r@, cert_pem@),
{
    let ghost rs = roots.deep_view();
    let mut bundle = String::new();
    let mut i: usize = 0;
    proof {
        assert(bundle@ =~= encoded_roots(rs.take(0)));
    }
    while i < roots.len()
        invariant
            i <= roots@.len(),
            rs == roots.deep_view(),
            bundle@ == encoded_roots(rs.take(i as int)),
        decreases roots@.len() - i,
    {
        proof {
            assert(rs.take(i + 1).drop_last() =~= rs.take(i as int));
            assert(rs.take(i + 1).last() == rs[i as int]);
            assert(rs[i as int] =~= roots@[i as int]@);
        }
        bundle.append(encode_pem("CERTIFICATE", roots[i].as_slice()).as_str());
        i += 1;
    }
    let ghost front = bundle@;
    bundle.append(cert_pem);
    proof {
        assert(rs.take(rs.len() as int) =~= rs);
        assert(bundle@.skip(bundle@.len() - cert_pem@.len()) =~= cert_pem@);
    }
    bundle
}

/// The authority's certificate is for no host and may sign certificates and
/// revocations; a host's is for this host alone, serves TLS and signs nothing.
pub proof fn law_certificates_say_what_they_are_for(name: Seq<char>)
    ensures
        ({
            let ca = CertRequestView::of_authority();
            &&& ca.names.len() == 0
            &&& ca.common_name == "fghj local CA"@
            &&& ca.organization == Some("fghj"@)
            &&& ca.standing == Standing::UnconstrainedAuthority
            &&& !ca.authority_key_identifier
            &&& forall|u: KeyUsage|
                ca.key_usages.contains(u) <==> u == KeyUsage::KeyCertSign || u == KeyUsage::CrlSign
            &&& ca.extended_key_usages.len() == 0
        }),
        ({
            let leaf = CertRequestView::of_host(name);
            &&& leaf.names.len() == 1 && leaf.names[0] == name
            &&& leaf.common_name == name
            &&& leaf.organization is None
            &&& leaf.standing == Standing::NoAuthority
            &&& leaf.authority_key_identifier
            &&& forall|u: KeyUsage|
                leaf.key_usages.contains(u) <==> u == KeyUsage::DigitalSignature || u
                    == KeyUsage::KeyEncipherment
            &&& leaf.extended_key_usages.len() == 1 && leaf.extended_key_usages[0]
                == ExtendedKeyUsage::ServerAuth
        }),
{
}

/// An authority is read from a key and a certificate, each of which can be missing
/// or unreadable; what is read is what was given.
pub proof fn law_authority_needs_key_and_certificate(cert_pem: Seq<char>, key_pem: Seq<char>)
    ensures
        loaded(false, cert_pem, key_pem) == Err::<LoadedCaView, CaError>(CaError::CaKey),
        match first_certificate(cert_pem) {
            None => loaded(true, cert_pem, key_pem) == Err::<LoadedCaView, CaError>(
                CaError::NoCertificate,
            ),
            Some(None) => loaded(true, cert_pem, key_pem) == Err::<LoadedCaView, CaError>(
                CaError::BadCertificate,
            ),
            Some(Some(der)) => loaded(true, cert_pem, key_pem) matches Ok(ca) && ca.key_pem
                == key_pem && ca.cert_pem == cert_pem && ca.cert_der == der,
        },
{
}

/// Names of the zone get a certificate, and of the names that no public domain can
/// have, those that are routed and not raw; no other name does. One is issued once.
pub proof fn law_certificates_are_for_names_that_are_served(
    name: Seq<char>,
    routed: bool,
    cached: bool,
)
    ensures
        ({
            let reserved = at_or_below(name, "local"@) || at_or_below(name, "test"@) || at_or_below(
                name,
                "internal"@,
            ) || at_or_below(name, "localhost"@);
            let served = at_or_below(name, "fghj.internal"@) || (reserved && routed
                && !at_or_below(name, "fghj.raw.internal"@));
            &&& !served ==> cert_step(name, routed, cached) is Refuse
            &&& served && cached ==> cert_step(name, routed, cached) is Reuse
            &&& served && !cached ==> cert_step(name, routed, cached) is Issue
        }),
{
    law_wildcard_takes_in_its_domain_and_all_below(name, "local"@);
    law_wildcard_takes_in_its_domain_and_all_below(name, "test"@);
    law_wildcard_takes_in_its_domain_and_all_below(name, "internal"@);
    law_wildcard_takes_in_its_domain_and_all_below(name, "localhost"@);
    law_wildcard_takes_in_its_domain_and_all_below(name, "fghj.internal"@);
    law_wildcard_takes_in_its_domain_and_all_below(name, "fghj.raw.internal"@);
}

/// A bundle holds every root in order, each as a certificate, and the authority's
/// own certificate behind them.
pub proof fn law_bundle_holds_every_root(
    root: Seq<u8>,
    roots: Seq<Seq<u8>>,
    cert_pem: Seq<char>,
)
    ensures
        bundle_text(Seq::empty(), cert_pem) == cert_pem,
        bundle_text(seq![root] + roots, cert_pem) == pem_text("CERTIFICATE"@, root) + bundle_text(
            roots,
            cert_pem,
        ),
    decreases roots.len(),
{
    reveal_with_fuel(encoded_roots, 2);
    let all = seq![root] + roots;
    assert(bundle_text(Seq::empty(), cert_pem) =~= cert_pem);
    if roots.len() == 0 {
        assert(all.drop_last() =~= Seq::empty());
        assert(bundle_text(all, cert_pem) =~= pem_text("CERTIFICATE"@, root) + bundle_text(
            roots,
            cert_pem,
        ));
    } else {
        law_bundle_holds_every_root(root, roots.drop_last(), cert_pem);
        assert(all.drop_last() =~= seq![root] + roots.drop_last());
        assert(all.last() == roots.last());
        let head = pem_text("CERTIFICATE"@, root);
        let front = encoded_roots(roots.drop_last());
        assert(encoded_roots(all.drop_last()) =~= head + front) by {
            let longer = bundle_text(all.drop_last(), cert_pem);
            let n = longer.len() - cert_pem.len();
            assert(longer.take(n) =~= encoded_roots(all.drop_last()));
            assert(longer.take(n) =~= head + front);
        }
        assert(bundle_text(all, cert_pem) =~= head + bundle_text(roots, cert_pem));
    }
}

/// Every failure of the authority is told apart from the others.
pub proof fn law_failures_are_told_apart(a: CaError, b: CaError)
    ensures
        a != b ==> a.spec_message() != b.spec_message(),
{
    reveal_strlit("failed to parse persisted CA private key");
    reveal_strlit("PEM contains no certificate");
    reveal_strlit("failed to parse PEM certificate");
    reveal_strlit("failed to generate CA key pair");
    reveal_strlit("failed to construct CA cert params");
    reveal_strlit("failed to self-sign CA certificate");
    reveal_strlit("failed to build issuer from CA certificate");
    reveal_strlit("failed to generate leaf key pair");
    reveal_strlit("failed to construct leaf cert params");
    reveal_strlit("failed to sign leaf certificate");
    let s = a.spec_message();
    let t = b.spec_message();
    if s == t {
        assert(s.len() == t.len());
        assert(s[0] == t[0] && s[10] == t[10] && s[19] == t[19] && s[22] == t[22]);
    }
}

} // verus!
