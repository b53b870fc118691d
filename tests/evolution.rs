use json_validator::evolution::{validate_evolving_collections, CatalogType, DraftSpecRow};
use json_validator::pattern::Pattern;

fn row(name: &str, draft_type: Option<CatalogType>, live: Option<u64>) -> DraftSpecRow {
    DraftSpecRow { catalog_name: name.to_string(), draft_type, live_spec_id: live }
}

fn req(name: &str, new_name: Option<&str>) -> (String, Option<String>) {
    (name.to_string(), new_name.map(|s| s.to_string()))
}

fn names() -> Pattern {
    Pattern::new("^[a-z]+(/[a-z]+)*$").unwrap()
}

#[test]
fn evolution_accepts_published_collections() {
    let rows = vec![row("acme/a", Some(CatalogType::Collection), Some(1)), row("acme/m", Some(CatalogType::Materialization), None)];
    assert!(validate_evolving_collections(&rows, &vec![req("acme/a", Some("acme/b"))], &names()).is_ok());
    assert!(validate_evolving_collections(&rows, &vec![req("acme/a", None)], &names()).is_ok());
}

#[test]
fn evolution_rejects_bad_requests() {
    let ok = row("acme/a", Some(CatalogType::Collection), Some(1));
    assert_eq!(
        validate_evolving_collections(&vec![row("acme/a", Some(CatalogType::Collection), Some(1))], &vec![req("acme/a", Some("Bad Name"))], &names()),
        Err("requested collection name 'Bad Name' is invalid".to_string())
    );
    assert_eq!(
        validate_evolving_collections(&vec![row("acme/a", None, Some(1))], &vec![req("acme/a", None)], &names()),
        Err("cannot re-create collection 'acme/a' which was already deleted in the draft".to_string())
    );
    assert_eq!(
        validate_evolving_collections(&vec![row("acme/a", Some(CatalogType::Collection), None)], &vec![req("acme/a", None)], &names()),
        Err("cannot re-create collection 'acme/a' because it has never been published".to_string())
    );
    assert_eq!(
        validate_evolving_collections(&vec![ok], &vec![req("acme/a", None), req("acme/x", None), req("acme/y", None)], &names()),
        Err("the collections: acme/x, acme/y are not present in the draft".to_string())
    );
}
