use zellij_overview::geo::GeoDb;
use zellij_overview::Frame;

#[test]
fn frame_joins_rows_with_newlines() {
    let frame = Frame { lines: vec!["ab".to_string(), "".to_string(), "c".to_string()] };
    assert_eq!(frame.joined(), "ab\n\nc");
    assert_eq!(Frame { lines: vec![] }.joined(), "");
}

#[test]
fn geo_db_looks_up_fragments_of_its_name() {
    let db = GeoDb::new("feature/geo-db".to_string(), 12);
    assert_eq!(db.hits(), 12);
    assert!(db.lookup("geo"));
    assert!(db.lookup(""));
    assert!(!db.lookup("gep"));
}
