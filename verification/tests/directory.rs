use licenses_core::{License, LicenseDao, LicenseTable};

const CUSTOMER: &str = "00000000-0000-0000-0000-000000000000";
const VESSEL: &str = "00000000-0000-0000-0000-000000000001";
const OTHER_VESSEL: &str = "00000000-0000-0000-0000-000000000002";

fn dao_with_limit(page_limit: usize) -> LicenseDao {
    LicenseDao::new(LicenseTable::new(page_limit), "Licenses".to_string())
}

fn license(key: &str, count: Option<u8>, expires_at: Option<&str>) -> License {
    License {
        customer_id: CUSTOMER.to_string(),
        vessel_id: VESSEL.to_string(),
        license_key: key.to_string(),
        count,
        expires_at: expires_at.map(|s| s.to_string()),
    }
}

#[test]
fn dao_keeps_table_name() {
    let dao = dao_with_limit(10);
    assert_eq!("Licenses", dao.table_name());
}

#[test]
fn round_trip_preserves_offset() {
    let mut dao = dao_with_limit(10);
    dao.create_license(license("tides.2023", Some(6), Some("2015-07-02T03:20:00+02:00")))
        .unwrap();
    let found = dao
        .get_license(CUSTOMER, VESSEL, "tides.2023")
        .unwrap()
        .unwrap();
    assert_eq!(CUSTOMER, found.customer_id);
    assert_eq!(VESSEL, found.vessel_id);
    assert_eq!("tides.2023", found.license_key);
    assert_eq!(Some(6), found.count);
    assert_eq!(Some("2015-07-02T03:20:00+02:00".to_string()), found.expires_at);
}

#[test]
fn get_license_unexisting() {
    let mut dao = dao_with_limit(10);
    dao.create_license(license("tides.2023", Some(2), None)).unwrap();
    let missing = dao.get_license(CUSTOMER, VESSEL, "dummy").unwrap();
    assert!(missing.is_none());
}

#[test]
fn delete_license_unexisting() {
    let mut dao = dao_with_limit(10);
    let result = dao.delete_license(CUSTOMER, VESSEL, "dummy");
    assert!(result.is_ok());
}

#[test]
fn create_overwrites_in_full() {
    let mut dao = dao_with_limit(10);
    dao.create_license(license("weather.2022", Some(2), None)).unwrap();
    dao.create_license(license("weather.2022", None, Some("2011-01-30T14:58:00+01:00")))
        .unwrap();
    let found = dao
        .get_license(CUSTOMER, VESSEL, "weather.2022")
        .unwrap()
        .unwrap();
    assert!(found.count.is_none());
    assert_eq!(Some("2011-01-30T14:58:00+01:00".to_string()), found.expires_at);

    let page = dao.list_licenses(CUSTOMER, VESSEL, None).unwrap();
    assert_eq!(1, page.items.len());
}

#[test]
fn list_returns_ascending_order() {
    let mut dao = dao_with_limit(10);
    dao.create_license(license("b", None, None)).unwrap();
    dao.create_license(license("c", None, None)).unwrap();
    dao.create_license(license("a", None, None)).unwrap();
    let page = dao.list_licenses(CUSTOMER, VESSEL, None).unwrap();
    assert_eq!(3, page.items.len());
    assert_eq!("a", page.items[0].license_key);
    assert_eq!("b", page.items[1].license_key);
    assert_eq!("c", page.items[2].license_key);
    assert!(page.last_evaluated_key.is_none());
}

#[test]
fn list_resumes_after_cursor() {
    let mut dao = dao_with_limit(10);
    dao.create_license(license("a", None, None)).unwrap();
    dao.create_license(license("b", None, None)).unwrap();
    dao.create_license(license("c", None, None)).unwrap();
    let page = dao
        .list_licenses(CUSTOMER, VESSEL, Some("a".to_string()))
        .unwrap();
    assert_eq!(2, page.items.len());
    assert_eq!("b", page.items[0].license_key);
    assert_eq!("c", page.items[1].license_key);
    assert!(page.last_evaluated_key.is_none());
}

#[test]
fn list_pages_at_store_limit() {
    let mut dao = dao_with_limit(2);
    dao.create_license(license("a", None, None)).unwrap();
    dao.create_license(license("b", None, None)).unwrap();
    dao.create_license(license("c", None, None)).unwrap();

    let first = dao.list_licenses(CUSTOMER, VESSEL, None).unwrap();
    assert_eq!(2, first.items.len());
    assert_eq!("a", first.items[0].license_key);
    assert_eq!("b", first.items[1].license_key);
    assert_eq!(Some("b".to_string()), first.last_evaluated_key);

    let second = dao
        .list_licenses(CUSTOMER, VESSEL, first.last_evaluated_key)
        .unwrap();
    assert_eq!(1, second.items.len());
    assert_eq!("c", second.items[0].license_key);
    assert!(second.last_evaluated_key.is_none());
}

#[test]
fn list_licenses_unexisting() {
    let mut dao = dao_with_limit(10);
    dao.create_license(license("tides.2023", Some(2), None)).unwrap();
    let page = dao.list_licenses(VESSEL, OTHER_VESSEL, None).unwrap();
    assert!(page.items.is_empty());
    assert!(page.last_evaluated_key.is_none());
}

#[test]
fn partitions_are_isolated() {
    let mut dao = dao_with_limit(10);
    dao.create_license(license("tides.2023", Some(2), None)).unwrap();
    let mut other = license("weather.2022", None, None);
    other.vessel_id = OTHER_VESSEL.to_string();
    dao.create_license(other).unwrap();

    let page = dao.list_licenses(CUSTOMER, VESSEL, None).unwrap();
    assert_eq!(1, page.items.len());
    assert_eq!("tides.2023", page.items[0].license_key);
    assert!(dao.get_license(CUSTOMER, OTHER_VESSEL, "tides.2023").unwrap().is_none());
}

#[test]
fn cursor_carries_no_partition() {
    // Preserved behavior: the cursor holds only the sort key, so a cursor
    // obtained under one partition silently resumes within the partition
    // freshly derived for the present call.
    let mut dao = dao_with_limit(10);
    dao.create_license(license("a", None, None)).unwrap();
    dao.create_license(license("b", None, None)).unwrap();
    let mut foreign = license("c", None, None);
    foreign.vessel_id = OTHER_VESSEL.to_string();
    dao.create_license(foreign).unwrap();

    let page = dao
        .list_licenses(CUSTOMER, OTHER_VESSEL, Some("a".to_string()))
        .unwrap();
    assert_eq!(1, page.items.len());
    assert_eq!("c", page.items[0].license_key);
}

#[test]
fn example_scenario() {
    let mut dao = dao_with_limit(10);
    dao.create_license(license("a", Some(2), None)).unwrap();
    dao.create_license(license("b", None, Some("2011-01-30T14:58:00+01:00")))
        .unwrap();

    let both = dao.list_licenses(CUSTOMER, VESSEL, None).unwrap();
    assert_eq!(2, both.items.len());
    assert_eq!("a", both.items[0].license_key);
    assert_eq!("b", both.items[1].license_key);

    let rest = dao
        .list_licenses(CUSTOMER, VESSEL, Some("a".to_string()))
        .unwrap();
    assert_eq!(1, rest.items.len());
    assert_eq!("b", rest.items[0].license_key);

    let a = dao.get_license(CUSTOMER, VESSEL, "a").unwrap().unwrap();
    assert_eq!(Some(2), a.count);
    assert!(a.expires_at.is_none());

    dao.delete_license(CUSTOMER, VESSEL, "a").unwrap();
    assert!(dao.get_license(CUSTOMER, VESSEL, "a").unwrap().is_none());
}
