use fghj::ca::{
    authority_of, ca_cert_path, ca_key_path, can_write_subject, certificate_found, generate_ca,
    issue, load_ca, pem_to_der, trust_bundle, CaError, DynamicCertResolver, LoadedCa,
    SubjectAttribute, CA_CERT_FILE, CA_KEY_FILE,
};
use fghj::sidecar::{FileRoutes, RouteFileEntry};
use x509_parser::extensions::ParsedExtension;
use x509_parser::prelude::{FromDer, X509Certificate};

fn routes(hosts: &[&str]) -> FileRoutes {
    FileRoutes {
        own_ip: 0,
        routes: hosts
            .iter()
            .map(|h| RouteFileEntry {
                lookup: h.to_string(),
                wildcard: false,
                connect_host: "127.0.0.1".to_string(),
                connect_port: 8080,
            })
            .collect(),
    }
}

#[test]
fn generates_and_reloads_a_ca_round_trip() {
    let first = generate_ca().unwrap();
    let second = load_ca(first.cert_pem.clone(), first.key_pem.clone()).unwrap();
    assert_eq!(first.cert_pem, second.cert_pem);
    assert_eq!(first.cert_der, second.cert_der);
    assert_ne!(generate_ca().unwrap().cert_pem, first.cert_pem);
}

#[test]
fn a_stored_authority_that_cannot_be_read_is_reported() {
    let ca = generate_ca().unwrap();
    let err = |cert: &str, key: &str| load_ca(cert.to_string(), key.to_string()).err().unwrap();
    assert_eq!(err(&ca.cert_pem, "no key"), CaError::CaKey);
    assert_eq!(err("no certificate", &ca.key_pem), CaError::NoCertificate);
    let torn = "-----BEGIN CERTIFICATE-----\n!!!!\n-----END CERTIFICATE-----\n";
    assert_eq!(err(torn, &ca.key_pem), CaError::BadCertificate);
    assert_eq!(CaError::CaKey.message(), "failed to parse persisted CA private key");
    assert_eq!(CaError::NoCertificate.message(), "PEM contains no certificate");
    assert_eq!(CaError::BadCertificate.message(), "failed to parse PEM certificate");
    assert_eq!(pem_to_der(&ca.cert_pem).unwrap(), ca.cert_der);
    assert_eq!(certificate_found(Some(Some(vec![1]))), Ok(vec![1]));
    assert_eq!(certificate_found(Some(None)), Err(CaError::BadCertificate));
    assert_eq!(certificate_found(None), Err(CaError::NoCertificate));
}

#[test]
fn the_trust_bundle_ends_with_the_authority_and_holds_no_key() {
    let ca = generate_ca().unwrap();
    let other = generate_ca().unwrap();
    let bundle = trust_bundle(&vec![other.cert_der.clone()], &ca.cert_pem);
    assert!(
        bundle.ends_with(&ca.cert_pem),
        "fghj's own CA cert must be present (and last) in the merged bundle"
    );
    assert!(
        !bundle.contains("PRIVATE KEY"),
        "bundle.pem must never contain key material"
    );
    assert!(bundle.starts_with("-----BEGIN CERTIFICATE-----\n"));
    assert!(!bundle[..bundle.len() - ca.cert_pem.len()].contains('\r'));
    assert_eq!(pem_to_der(&bundle).unwrap(), other.cert_der);
    assert_eq!(trust_bundle(&vec![], &ca.cert_pem), ca.cert_pem);
}

#[test]
fn resolver_issues_cert_for_in_zone_name_and_rejects_out_of_zone() {
    let mut resolver = DynamicCertResolver::new(generate_ca().unwrap());
    let none = routes(&[]);
    assert!(resolver.resolve_for("cart.fghj.internal", &none).is_some());
    assert!(resolver.resolve_for("evil.com", &none).is_none());
}

#[test]
fn resolver_issues_cert_for_a_routed_reserved_alias_but_not_an_unrouted_one() {
    let mut resolver = DynamicCertResolver::new(generate_ca().unwrap());
    let routes = routes(&["aikido.local"]);
    assert!(
        resolver.resolve_for("aikido.local", &routes).is_some(),
        "a reserved-TLD alias that's actually routed must get a cert"
    );
    assert!(
        resolver.resolve_for("other.local", &routes).is_none(),
        "a reserved-TLD-shaped name nothing declared/routed must never get a cert"
    );
}

#[test]
fn resolver_never_issues_a_cert_for_a_non_reserved_alias_even_if_routed() {
    let mut resolver = DynamicCertResolver::new(generate_ca().unwrap());
    assert!(
        resolver.resolve_for("demo.example.com", &routes(&["demo.example.com"])).is_none(),
        "a real, non-reserved-TLD hostname must never get a cert from fghj's local CA, routed or not"
    );
}

#[test]
fn resolver_caches_repeated_lookups_for_the_same_name() {
    let mut resolver = DynamicCertResolver::new(generate_ca().unwrap());
    let none = routes(&[]);
    let a = resolver.resolve_for("cart.fghj.internal", &none).unwrap();
    let b = resolver.resolve_for("cart.fghj.internal", &none).unwrap();
    assert_eq!(a.cert_der, b.cert_der, "second lookup should hit the cache");
    assert_eq!(a.key_der, b.key_der);
    let c = resolver.resolve_for("other.fghj.internal", &none).unwrap();
    assert_ne!(a.cert_der, c.cert_der);
}

#[test]
fn a_failure_to_issue_is_not_remembered() {
    let mut resolver = DynamicCertResolver::new(generate_ca().unwrap());
    assert!(resolver.record("cart.fghj.internal", Err(CaError::LeafSignature)).is_none());
    assert!(resolver.resolve_for("cart.fghj.internal", &routes(&[])).is_some());
}

#[test]
fn issued_leaf_cert_chains_to_the_ca() {
    let ca = generate_ca().unwrap();
    let ca_cert_der = ca.cert_der.clone();
    let mut resolver = DynamicCertResolver::new(ca);

    let leaf_cert = resolver.resolve_for("cart.fghj.internal", &routes(&[])).unwrap();

    let (_, leaf) = X509Certificate::from_der(&leaf_cert.cert_der).unwrap();
    let (_, ca_cert) = X509Certificate::from_der(&ca_cert_der).unwrap();
    assert!(
        leaf.verify_signature(Some(ca_cert.public_key())).is_ok(),
        "leaf certificate signature must verify against the CA's public key"
    );
    assert!(ca_cert.verify_signature(None).is_ok());
    assert_eq!(leaf.issuer(), ca_cert.subject());
}

fn subject_key_identifier(cert: &X509Certificate) -> Vec<u8> {
    cert.iter_extensions()
        .find_map(|ext| match ext.parsed_extension() {
            ParsedExtension::SubjectKeyIdentifier(id) => Some(id.0.to_vec()),
            _ => None,
        })
        .expect("cert must carry a SubjectKeyIdentifier")
}

#[test]
fn issued_leaf_cert_carries_aki_ski_and_basic_constraints() {
    let ca = generate_ca().unwrap();
    let leaf_cert = issue(&ca, "cart.fghj.internal").unwrap();

    let (_, leaf) = X509Certificate::from_der(&leaf_cert.cert_der).unwrap();
    let (_, ca_cert) = X509Certificate::from_der(&ca.cert_der).unwrap();

    let ca_ski = subject_key_identifier(&ca_cert);
    let leaf_aki = leaf
        .iter_extensions()
        .find_map(|ext| match ext.parsed_extension() {
            ParsedExtension::AuthorityKeyIdentifier(aki) => {
                aki.key_identifier.as_ref().map(|id| id.0.to_vec())
            }
            _ => None,
        })
        .expect("leaf cert must carry an AuthorityKeyIdentifier");
    assert_eq!(
        leaf_aki, ca_ski,
        "leaf's AuthorityKeyIdentifier must match the CA's SubjectKeyIdentifier"
    );
    subject_key_identifier(&leaf);

    let constraints = leaf.basic_constraints().unwrap().unwrap();
    assert!(!constraints.value.ca);
    assert!(ca_cert.basic_constraints().unwrap().unwrap().value.ca);
}

#[test]
fn certificates_say_what_was_asked_for() {
    let ca = generate_ca().unwrap();
    let leaf_cert = issue(&ca, "cart.fghj.internal").unwrap();
    let (_, leaf) = X509Certificate::from_der(&leaf_cert.cert_der).unwrap();
    let (_, ca_cert) = X509Certificate::from_der(&ca.cert_der).unwrap();

    let common_name = |cert: &X509Certificate| {
        cert.subject().iter_common_name().next().unwrap().as_str().unwrap().to_string()
    };
    assert_eq!(common_name(&leaf), "cart.fghj.internal");
    assert_eq!(common_name(&ca_cert), "fghj local CA");
    let organization = ca_cert.subject().iter_organization().next().unwrap();
    assert_eq!(organization.as_str().unwrap(), "fghj");

    let names = leaf.subject_alternative_name().unwrap().unwrap();
    assert_eq!(format!("{:?}", names.value.general_names), "[DNSName(\"cart.fghj.internal\")]");

    let leaf_usage = leaf.key_usage().unwrap().unwrap().value;
    assert!(leaf_usage.digital_signature() && leaf_usage.key_encipherment());
    assert!(!leaf_usage.key_cert_sign());
    let ca_usage = ca_cert.key_usage().unwrap().unwrap().value;
    assert!(ca_usage.key_cert_sign() && ca_usage.crl_sign());
    assert!(!ca_usage.digital_signature());
    assert!(leaf.extended_key_usage().unwrap().unwrap().value.server_auth);
    assert!(ca_cert.extended_key_usage().unwrap().is_none());
}

#[test]
fn an_authority_that_cannot_issue_is_reported() {
    let mut ca = generate_ca().unwrap();
    ca.cert_der = vec![1, 2, 3];
    assert_eq!(issue(&ca, "cart.fghj.internal").err(), Some(CaError::Issuer));
    assert_eq!(CaError::Issuer.message(), "failed to build issuer from CA certificate");
    let ca = generate_ca().unwrap();
    assert_eq!(issue(&ca, "gr\u{fc}n.fghj.internal").err(), Some(CaError::LeafParameters));
}

#[test]
fn the_authority_is_kept_in_two_files() {
    assert_eq!(ca_cert_path("/var/lib/fghjd/ca"), format!("/var/lib/fghjd/ca/{CA_CERT_FILE}"));
    assert_eq!(ca_key_path("/var/lib/fghjd/ca"), format!("/var/lib/fghjd/ca/{CA_KEY_FILE}"));
}

#[test]
fn every_failure_has_words() {
    for (error, words) in [
        (CaError::CaKeyGeneration, "failed to generate CA key pair"),
        (CaError::CaParameters, "failed to construct CA cert params"),
        (CaError::CaSignature, "failed to self-sign CA certificate"),
        (CaError::LeafKeyGeneration, "failed to generate leaf key pair"),
        (CaError::LeafParameters, "failed to construct leaf cert params"),
        (CaError::LeafSignature, "failed to sign leaf certificate"),
    ] {
        assert_eq!(error.message(), words);
    }
}

fn replaced(bytes: &[u8], from: &[u8], to: &[u8]) -> Vec<u8> {
    let mut out = bytes.to_vec();
    let mut found = 0;
    for i in 0..out.len() - from.len() {
        if &out[i..i + from.len()] == from {
            out[i..i + from.len()].copy_from_slice(to);
            found += 1;
        }
    }
    assert!(found > 0);
    out
}

#[test]
fn an_authority_whose_subject_cannot_be_written_cannot_issue() {
    let ca = generate_ca().unwrap();
    let issued_by = |from: &[u8], to: &[u8]| {
        let cert_der = replaced(&ca.cert_der, from, to);
        let other = LoadedCa {
            cert_pem: ca.cert_pem.clone(),
            key_pem: ca.key_pem.clone(),
            cert_der,
        };
        issue(&other, "cart.fghj.internal").err()
    };
    let common_name = [0x06, 0x03, 0x55, 0x04, 0x03];
    assert_eq!(
        issued_by(&common_name, &[0x06, 0x03, 0x78, 0x04, 0x03]),
        Some(CaError::Issuer),
        "an attribute type outside the three known arcs"
    );
    assert_eq!(
        issued_by(b"\x0c\x0dfghj local CA", b"\x13\x0dfghj local C?"),
        Some(CaError::Issuer),
        "a question mark in a printable text"
    );
    assert_eq!(issued_by(b"\x0c\x0dfghj local CA", b"\x13\x0dfghj local CA"), None);
}

#[test]
fn a_subject_is_tested_by_the_types_and_texts_of_its_attributes() {
    let attribute = |oid: &[u64], tag: u32, value: &[u8]| SubjectAttribute {
        oid: oid.to_vec(),
        tag,
        value: value.to_vec(),
    };
    let utf8 = 12;
    let printable = 19;
    assert!(can_write_subject(&vec![]));
    assert!(can_write_subject(&vec![attribute(&[2, 5, 4, 3], utf8, b"what?")]));
    assert!(can_write_subject(&vec![attribute(&[2, 5, 4, 3], printable, b"Shop CA (1)")]));
    assert!(!can_write_subject(&vec![attribute(&[2, 5, 4, 3], printable, b"what?")]));
    assert!(can_write_subject(&vec![attribute(&[2, 40, 4, 3], utf8, b"CA")]));
    for unwritable in [&[3, 0, 4, 3][..], &[1, 40, 4, 3], &[2]] {
        assert!(!can_write_subject(&vec![
            attribute(&[2, 5, 4, 3], utf8, b"CA"),
            attribute(unwritable, utf8, b"CA"),
        ]));
    }
}

#[test]
fn a_key_that_cannot_be_read_makes_no_authority() {
    let ca = generate_ca().unwrap();
    let made = |key_read: bool| authority_of(key_read, ca.cert_pem.clone(), ca.key_pem.clone());
    assert_eq!(made(false).err(), Some(CaError::CaKey));
    assert_eq!(made(true).unwrap().cert_der, ca.cert_der);
}

#[test]
fn a_raw_name_has_no_certificate() {
    let mut resolver = DynamicCertResolver::new(generate_ca().unwrap());
    let raw = "minio.ws.fghj.raw.internal";
    assert!(resolver.resolve_for(raw, &routes(&[raw])).is_none());
}

#[test]
fn an_address_is_kept_in_one_spelling_and_any_other_name_as_it_is() {
    let ca = generate_ca().unwrap();
    let names = |name: &str| {
        let leaf = issue(&ca, name).unwrap();
        let (_, cert) = X509Certificate::from_der(&leaf.cert_der).unwrap();
        let names = cert.subject_alternative_name().unwrap().unwrap();
        let common = cert.subject().iter_common_name().next().unwrap().as_str().unwrap();
        assert_eq!(common, name);
        format!("{:?}", names.value.general_names)
    };
    assert_eq!(names("::1"), names("0:0:0:0:0:0:0:1"));
    assert_ne!(names("::1"), names("::2"));
    assert!(names("::1").starts_with("[IPAddress("));
    assert_eq!(names("10.222.0.1"), "[IPAddress([10, 222, 0, 1])]");
    assert_eq!(names("a:b"), "[DNSName(\"a:b\")]");
}
