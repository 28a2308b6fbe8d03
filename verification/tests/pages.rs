use geodatafusion_parquet::page::{PageInfo, PageSet};
use std::cmp::Ordering;

fn page(row_group_id: usize, page_id: usize) -> PageInfo {
    PageInfo { row_group_id, page_id }
}

#[test]
fn pages_order_by_group_then_page() {
    assert_eq!(page(1, 2).cmp(&page(1, 2)), Ordering::Equal);
    assert_eq!(page(0, 9).cmp(&page(1, 0)), Ordering::Less);
    assert_eq!(page(1, 0).cmp(&page(0, 9)), Ordering::Greater);
    assert_eq!(page(1, 0).cmp(&page(1, 1)), Ordering::Less);
    assert_eq!(page(1, 1).partial_cmp(&page(1, 0)), Some(Ordering::Greater));
    assert!(page(0, 3) < page(0, 4));
}

#[test]
fn derived_order_agrees() {
    for a in 0..3 {
        for b in 0..3 {
            for c in 0..3 {
                for d in 0..3 {
                    let (x, y) = (page(a, b), page(c, d));
                    assert_eq!(Ord::cmp(&x, &y), x.cmp(&y));
                    assert_eq!(x.is_before(&y), x.cmp(&y) == Ordering::Less);
                }
            }
        }
    }
}

#[test]
fn set_holds_each_page_once() {
    let mut set = PageSet::new();
    assert!(set.is_empty());
    for p in [page(2, 0), page(0, 5), page(0, 1), page(2, 0), page(1, 7), page(0, 1)] {
        set.insert(p);
    }
    assert!(!set.is_empty());
    assert_eq!(set.len(), 4);
    assert!(set.contains(&page(0, 1)));
    assert!(set.contains(&page(0, 5)));
    assert!(set.contains(&page(1, 7)));
    assert!(set.contains(&page(2, 0)));
    assert!(!set.contains(&page(0, 0)));
    assert!(!set.contains(&page(5, 1)));
    assert!(!set.contains(&page(2, 1)));
}
