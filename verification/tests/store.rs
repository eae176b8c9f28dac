use united_links::Link;
use united_links::LinkRange;
use united_links::LinksConstants;
use united_links::StoreError;
use united_links::UnitedLinks;
use united_links::Visitor;

/// Records every visited link and answers a fixed code, switching to a
/// second code from the `stop_after`-th visit on.
struct Recorder {
    visited: Vec<Link>,
    stop_after: Option<usize>,
    go_code: u32,
    stop_code: u32,
}

impl Visitor for Recorder {
    fn visit(&mut self, link: Link) -> u32 {
        self.visited.push(link);
        if self.stop_after.is_some() && self.visited.len() >= self.stop_after.unwrap() {
            self.stop_code
        } else {
            self.go_code
        }
    }
}

fn recorder(go_code: u32) -> Recorder {
    Recorder { visited: Vec::new(), stop_after: None, go_code, stop_code: go_code }
}

#[test]
fn create_returns_one_and_self_loop() {
    let mut s = UnitedLinks::new(None).unwrap();
    assert_eq!(s.create().unwrap(), 1);
    let all = s.search(None);
    assert_eq!(all, vec![Link::new(1, 1, 1)]);
    let c = s.constants();
    let mut v = recorder(c.continue_code);
    let (r, _) = s.each(&mut v, None);
    assert_eq!(r, c.continue_code);
    assert_eq!(v.visited, vec![Link::new(1, 1, 1)]);
}

#[test]
fn update_references_counts() {
    let mut s = UnitedLinks::new(None).unwrap();
    let any = s.constants().any;
    assert_eq!(s.create().unwrap(), 1);
    assert_eq!(s.create().unwrap(), 2);
    assert_eq!(s.update(2, 1, 1).unwrap(), 2);
    assert_eq!(s.count(Some(Link::new(any, 1, 1))), 2);
    assert_eq!(s.count(Some(Link::new(any, 1, any))), 2);
    assert_eq!(s.count(Some(Link::new(any, any, 1))), 2);
}

#[test]
fn delete_then_recreate_reuses_id() {
    let mut s = UnitedLinks::new(None).unwrap();
    s.create().unwrap();
    s.create().unwrap();
    s.update(2, 1, 1).unwrap();
    assert_eq!(s.delete(1).unwrap(), 1);
    assert_eq!(s.count(None), 1);
    assert_eq!(s.create().unwrap(), 1);
    let any = s.constants().any;
    let one = s.search(Some(Link::new(1, any, any)));
    assert_eq!(one, vec![Link::new(1, 1, 1)]);
}

#[test]
fn early_termination_visits_three_in_order() {
    let mut s = UnitedLinks::new(None).unwrap();
    for _ in 0..5 {
        s.create().unwrap();
    }
    let c = s.constants();
    let mut v = Recorder {
        visited: Vec::new(),
        stop_after: Some(3),
        go_code: c.continue_code,
        stop_code: c.break_code,
    };
    let (r, _) = s.each(&mut v, None);
    assert_eq!(r, c.break_code);
    let ids: Vec<u32> = v.visited.iter().map(|l| l.id).collect();
    assert_eq!(ids, vec![1, 2, 3]);
}

#[test]
fn invalid_reference_leaves_store_unchanged() {
    let mut s = UnitedLinks::new(None).unwrap();
    s.create().unwrap();
    assert_eq!(s.update(1, 99, 0), Err(StoreError::InvalidReference));
    assert_eq!(s.count(None), 1);
    assert_eq!(s.search(None), vec![Link::new(1, 1, 1)]);
}

#[test]
fn skip_code_continues_enumeration() {
    let mut s = UnitedLinks::new(None).unwrap();
    s.create().unwrap();
    s.create().unwrap();
    let c = s.constants();
    let mut v = recorder(c.skip_code);
    let (r, _) = s.each(&mut v, None);
    assert_eq!(r, c.continue_code);
    assert_eq!(v.visited.len(), 2);
}

#[test]
fn unknown_code_halts_enumeration() {
    let mut s = UnitedLinks::new(None).unwrap();
    s.create().unwrap();
    s.create().unwrap();
    let c = s.constants();
    let mut v = recorder(7);
    let (r, _) = s.each(&mut v, None);
    assert_eq!(r, c.break_code);
    assert_eq!(v.visited.len(), 1);
}

#[test]
fn delete_missing_is_not_found() {
    let mut s = UnitedLinks::new(None).unwrap();
    assert_eq!(s.delete(7), Err(StoreError::NotFound));
    s.create().unwrap();
    s.delete(1).unwrap();
    assert_eq!(s.delete(1), Err(StoreError::NotFound));
}

#[test]
fn update_missing_is_not_found() {
    let mut s = UnitedLinks::new(None).unwrap();
    assert_eq!(s.update(3, 0, 0), Err(StoreError::NotFound));
}

#[test]
fn update_itself_sentinel_stores_own_id() {
    let mut s = UnitedLinks::new(None).unwrap();
    let itself = s.constants().itself;
    s.create().unwrap();
    assert_eq!(s.update(1, itself, 0).unwrap(), 1);
    assert_eq!(s.search(None), vec![Link::new(1, 1, 0)]);
}

#[test]
fn external_range_ids_are_legal_endpoints() {
    let mut s = UnitedLinks::new(Some(LinksConstants::via_only_external(true))).unwrap();
    let c = s.constants();
    let ext = c.external_range.unwrap().0 + 5;
    s.create().unwrap();
    assert_eq!(s.update(1, ext, ext).unwrap(), 1);
    assert_eq!(s.count(Some(Link::new(c.any, ext, c.any))), 1);
    assert_eq!(s.count(Some(Link::new(c.any, c.any, ext))), 1);
    assert_eq!(s.search(None), vec![Link::new(1, ext, ext)]);
}

#[test]
fn free_list_reuses_most_recent_first() {
    let mut s = UnitedLinks::new(None).unwrap();
    s.create().unwrap();
    s.create().unwrap();
    s.create().unwrap();
    s.delete(1).unwrap();
    s.delete(3).unwrap();
    assert_eq!(s.create().unwrap(), 3);
    assert_eq!(s.create().unwrap(), 1);
    assert_eq!(s.create().unwrap(), 4);
}

#[test]
fn create_fails_when_internal_range_exhausted() {
    let c = LinksConstants::full_new(2, LinkRange(1, 7), None);
    assert_eq!(c.internal_range.1, 1);
    let mut s = UnitedLinks::new(Some(c)).unwrap();
    assert_eq!(s.create().unwrap(), 1);
    assert_eq!(s.create(), Err(StoreError::OutOfMemory));
    assert_eq!(s.count(None), 1);
    s.delete(1).unwrap();
    assert_eq!(s.create().unwrap(), 1);
}

#[test]
fn count_matches_bucket_sizes() {
    let mut s = UnitedLinks::new(None).unwrap();
    let any = s.constants().any;
    for _ in 0..4 {
        s.create().unwrap();
    }
    s.update(2, 1, 3).unwrap();
    s.update(4, 1, 3).unwrap();
    assert_eq!(s.count(Some(Link::new(any, 1, any))), 3);
    assert_eq!(s.count(Some(Link::new(any, any, 3))), 3);
    assert_eq!(s.count(Some(Link::new(any, 1, 3))), 2);
    assert_eq!(s.count(Some(Link::new(any, 2, any))), 0);
}

#[test]
fn count_tracks_creates_and_deletes() {
    let mut s = UnitedLinks::new(None).unwrap();
    let mut created: u32 = 0;
    let mut deleted: u32 = 0;
    assert_eq!(s.count(None), 0);
    for _ in 0..6 {
        s.create().unwrap();
        created += 1;
        assert_eq!(s.count(None), created - deleted);
    }
    s.update(5, 2, 3).unwrap();
    assert_eq!(s.count(None), created - deleted);
    for id in [2, 4, 5] {
        s.delete(id).unwrap();
        deleted += 1;
        assert_eq!(s.count(None), created - deleted);
    }
    s.create().unwrap();
    created += 1;
    assert_eq!(s.count(None), created - deleted);
}

#[test]
fn repeated_query_is_stable() {
    let mut s = UnitedLinks::new(None).unwrap();
    let any = s.constants().any;
    for _ in 0..5 {
        s.create().unwrap();
    }
    s.update(3, 1, 2).unwrap();
    s.update(5, 1, 4).unwrap();
    let q = Some(Link::new(any, 1, any));
    let first = s.search(q);
    let second = s.search(q);
    assert_eq!(first, second);
    let ids: Vec<u32> = first.iter().map(|l| l.id).collect();
    assert_eq!(ids, vec![1, 3, 5]);
}

#[test]
fn pinned_id_query_visits_exactly_one() {
    let mut s = UnitedLinks::new(None).unwrap();
    let any = s.constants().any;
    for _ in 0..4 {
        s.create().unwrap();
    }
    s.update(2, 1, 3).unwrap();
    for id in [1u32, 2, 3, 4] {
        let found = s.search(Some(Link::new(id, any, any)));
        assert_eq!(found.len(), 1);
        assert_eq!(found[0].id, id);
    }
    let c = s.constants();
    let mut v = recorder(c.continue_code);
    let (r, _) = s.each(&mut v, Some(Link::new(2, any, any)));
    assert_eq!(r, c.continue_code);
    assert_eq!(v.visited, vec![Link::new(2, 1, 3)]);
}

#[test]
fn update_then_query_by_new_source_finds_it() {
    let mut s = UnitedLinks::new(None).unwrap();
    let any = s.constants().any;
    for _ in 0..3 {
        s.create().unwrap();
    }
    s.update(3, 1, 2).unwrap();
    let found = s.search(Some(Link::new(any, 1, any)));
    assert!(found.contains(&Link::new(3, 1, 2)));
    let gone = s.search(Some(Link::new(any, 3, any)));
    assert!(!gone.iter().any(|l| l.id == 3));
}

#[test]
fn pinned_id_query_respects_endpoint_filters() {
    let mut s = UnitedLinks::new(None).unwrap();
    let any = s.constants().any;
    s.create().unwrap();
    s.create().unwrap();
    s.update(2, 1, 1).unwrap();
    assert_eq!(s.count(Some(Link::new(2, 1, 1))), 1);
    assert_eq!(s.count(Some(Link::new(2, 2, any))), 0);
    assert_eq!(s.count(Some(Link::new(3, any, any))), 0);
}

#[test]
fn each_on_empty_store_continues() {
    let mut s = UnitedLinks::new(None).unwrap();
    let c = s.constants();
    let mut v = recorder(c.continue_code);
    assert_eq!(s.each(&mut v, None).0, c.continue_code);
    assert!(v.visited.is_empty());
    assert_eq!(s.count(None), 0);
}

#[test]
fn store_keeps_the_given_constants() {
    let c = LinksConstants::full_new(3, LinkRange(1, 1000), Some(LinkRange(5000, 6000)));
    let mut s = UnitedLinks::new(Some(c)).unwrap();
    let d = s.constants();
    assert_eq!(d.target_part, 3);
    assert_eq!(d.continue_code, 1000);
    assert_eq!(d.any, 997);
    assert_eq!(d.internal_range.1, 994);
    assert_eq!(d.external_range.unwrap().0, 5000);
}

#[test]
fn explicit_all_wildcard_query_equals_absent_query() {
    let mut s = UnitedLinks::new(None).unwrap();
    let any = s.constants().any;
    for _ in 0..3 {
        s.create().unwrap();
    }
    s.delete(2).unwrap();
    assert_eq!(s.count(Some(Link::new(any, any, any))), s.count(None));
    assert_eq!(s.search(Some(Link::new(any, any, any))), s.search(None));
}

#[test]
fn update_moves_target_index_entry() {
    let mut s = UnitedLinks::new(None).unwrap();
    let any = s.constants().any;
    s.create().unwrap();
    s.create().unwrap();
    s.update(2, 2, 1).unwrap();
    assert_eq!(s.count(Some(Link::new(any, any, 1))), 2);
    assert_eq!(s.count(Some(Link::new(any, any, 2))), 0);
    s.update(2, 2, 2).unwrap();
    assert_eq!(s.count(Some(Link::new(any, any, 1))), 1);
    assert_eq!(s.count(Some(Link::new(any, any, 2))), 1);
}

#[test]
fn duplicate_contents_are_kept_apart() {
    let mut s = UnitedLinks::new(None).unwrap();
    let any = s.constants().any;
    for _ in 0..3 {
        s.create().unwrap();
    }
    s.update(2, 1, 1).unwrap();
    s.update(3, 1, 1).unwrap();
    let same = s.search(Some(Link::new(any, 1, 1)));
    let ids: Vec<u32> = same.iter().map(|l| l.id).collect();
    assert_eq!(ids, vec![1, 2, 3]);
}
