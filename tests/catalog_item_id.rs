use reclock::{
    CastContext, CatalogItemId, GlobalId, ParseIdError, SupportedVersion, UnexpectedVersion,
};

#[test]
fn namespaces() {
    let s = CatalogItemId::System(1);
    let u = CatalogItemId::User(2);
    let t = CatalogItemId::Transient(3);
    assert!(s.is_system() && !s.is_user() && !s.is_transient());
    assert!(!u.is_system() && u.is_user() && !u.is_transient());
    assert!(!t.is_system() && !t.is_user() && t.is_transient());
}

#[test]
fn to_global_id_keeps_namespace_and_number() {
    assert_eq!(CatalogItemId::System(7).to_global_id(), GlobalId::System(7));
    assert_eq!(CatalogItemId::User(u64::MAX).to_global_id(), GlobalId::User(u64::MAX));
    assert_eq!(CatalogItemId::Transient(0).to_global_id(), GlobalId::Transient(0));
}

#[test]
fn cast_context_order() {
    assert!(CastContext::Implicit < CastContext::Assignment);
    assert!(CastContext::Assignment < CastContext::Explicit);
    assert!(CastContext::Explicit < CastContext::Coerced);
}

#[test]
fn proptest_catalog_item_id_roundtrips() {
    let numbers = [0u64, 1, 9, 10, 42, 999, 1000, 123456789, u64::MAX - 1, u64::MAX];
    for &n in &numbers {
        for og in [CatalogItemId::System(n), CatalogItemId::User(n), CatalogItemId::Transient(n)] {
            let s = og.to_string();
            let rnd: CatalogItemId = CatalogItemId::parse(&s).unwrap();
            assert_eq!(og, rnd);
        }
    }
}

#[test]
fn to_string_writes_namespace_and_decimal() {
    assert_eq!(CatalogItemId::System(1).to_string(), "s1");
    assert_eq!(CatalogItemId::User(0).to_string(), "u0");
    assert_eq!(CatalogItemId::Transient(18446744073709551615).to_string(), "t18446744073709551615");
}

#[test]
fn parse_accepts_ids() {
    assert_eq!(CatalogItemId::parse("s1"), Ok(CatalogItemId::System(1)));
    assert_eq!(CatalogItemId::parse("u42"), Ok(CatalogItemId::User(42)));
    assert_eq!(CatalogItemId::parse("t007"), Ok(CatalogItemId::Transient(7)));
    assert_eq!(CatalogItemId::parse("u+5"), Ok(CatalogItemId::User(5)));
}

#[test]
fn parse_rejects_malformed() {
    assert_eq!(CatalogItemId::parse(""), Err(ParseIdError::Malformed));
    assert_eq!(CatalogItemId::parse("s"), Err(ParseIdError::Malformed));
    assert_eq!(CatalogItemId::parse("x12"), Err(ParseIdError::Malformed));
    assert_eq!(CatalogItemId::parse("é1"), Err(ParseIdError::Malformed));
}

#[test]
fn parse_rejects_bad_numbers() {
    assert_eq!(CatalogItemId::parse("s-1"), Err(ParseIdError::InvalidNumber));
    assert_eq!(CatalogItemId::parse("u+"), Err(ParseIdError::InvalidNumber));
    assert_eq!(CatalogItemId::parse("t1a"), Err(ParseIdError::InvalidNumber));
    assert_eq!(CatalogItemId::parse("s18446744073709551616"), Err(ParseIdError::InvalidNumber));
    assert_eq!(CatalogItemId::parse("x-1"), Err(ParseIdError::InvalidNumber));
}

#[test]
fn supported_versions() {
    assert_eq!(
        SupportedVersion::from_api_version("materialize.cloud/v1alpha1"),
        Ok(SupportedVersion::V1alpha1)
    );
    assert_eq!(
        SupportedVersion::from_api_version("materialize.cloud/v1alpha2"),
        Ok(SupportedVersion::V1alpha2)
    );
    assert_eq!(SupportedVersion::from_api_version("materialize.cloud/v1alpha3"), Err(UnexpectedVersion));
    assert_eq!(SupportedVersion::from_api_version(""), Err(UnexpectedVersion));
    assert_eq!(SupportedVersion::from_api_version("materialize.cloud/v1alpha1 "), Err(UnexpectedVersion));
}
