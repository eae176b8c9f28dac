use united_links::LinkRange;
use united_links::LinksConstants;

#[test]
fn default_reserves_top_of_id_space() {
    let c = LinksConstants::new();
    assert_eq!(c.index_part, 0);
    assert_eq!(c.source_part, 1);
    assert_eq!(c.target_part, 2);
    assert_eq!(c.null, 0);
    assert_eq!(c.continue_code, 4294967295);
    assert_eq!(c.break_code, 4294967294);
    assert_eq!(c.skip_code, 4294967293);
    assert_eq!(c.any, 4294967292);
    assert_eq!(c.itself, 4294967291);
    assert_eq!(c.internal_range.0, 1);
    assert_eq!(c.internal_range.1, 4294967289);
    assert!(c.external_range.is_none());
}

#[test]
fn via_external_splits_the_id_space() {
    let c = LinksConstants::via_external(2, true);
    let half: u32 = u32::MAX / 2;
    assert_eq!(c.continue_code, half);
    assert_eq!(c.break_code, half - 1);
    assert_eq!(c.skip_code, half - 2);
    assert_eq!(c.any, half - 3);
    assert_eq!(c.itself, half - 4);
    assert_eq!(c.internal_range.0, 1);
    assert_eq!(c.internal_range.1, half - 6);
    let ext = c.external_range.unwrap();
    assert_eq!(ext.0, half);
    assert_eq!(ext.1, u32::MAX);
}

#[test]
fn via_external_disabled_matches_default() {
    let c = LinksConstants::via_external(2, false);
    let d = LinksConstants::new();
    assert_eq!(c.continue_code, d.continue_code);
    assert_eq!(c.any, d.any);
    assert_eq!(c.internal_range.0, d.internal_range.0);
    assert_eq!(c.internal_range.1, d.internal_range.1);
    assert!(c.external_range.is_none());
}

#[test]
fn via_only_external_uses_conventional_target_part() {
    let c = LinksConstants::via_only_external(true);
    assert_eq!(c.target_part, 2);
    assert!(c.external_range.is_some());
    let d = LinksConstants::via_only_external(false);
    assert_eq!(d.target_part, 2);
    assert!(d.external_range.is_none());
}

#[test]
fn full_new_derives_sentinels_from_internal_end() {
    let c = LinksConstants::full_new(2, LinkRange(1, 100), None);
    assert_eq!(c.continue_code, 100);
    assert_eq!(c.break_code, 99);
    assert_eq!(c.skip_code, 98);
    assert_eq!(c.any, 97);
    assert_eq!(c.itself, 96);
    assert_eq!(c.internal_range.0, 1);
    assert_eq!(c.internal_range.1, 94);
    assert!(c.external_range.is_none());
}

#[test]
fn via_ranges_keeps_explicit_ranges() {
    let c = LinksConstants::via_ranges(LinkRange(1, 50), Some(LinkRange(1000, 2000)));
    assert_eq!(c.target_part, 2);
    assert_eq!(c.continue_code, 50);
    assert_eq!(c.internal_range.1, 44);
    let ext = c.external_range.unwrap();
    assert_eq!(ext.0, 1000);
    assert_eq!(ext.1, 2000);
}

#[test]
fn clone_copies_every_field() {
    let c = LinksConstants::via_external(2, true);
    let d = c.clone();
    assert_eq!(c.index_part, d.index_part);
    assert_eq!(c.source_part, d.source_part);
    assert_eq!(c.target_part, d.target_part);
    assert_eq!(c.null, d.null);
    assert_eq!(c.continue_code, d.continue_code);
    assert_eq!(c.break_code, d.break_code);
    assert_eq!(c.skip_code, d.skip_code);
    assert_eq!(c.any, d.any);
    assert_eq!(c.itself, d.itself);
    assert_eq!(c.internal_range.0, d.internal_range.0);
    assert_eq!(c.internal_range.1, d.internal_range.1);
    assert_eq!(c.external_range.unwrap().0, d.external_range.unwrap().0);
    assert_eq!(c.external_range.unwrap().1, d.external_range.unwrap().1);
}
