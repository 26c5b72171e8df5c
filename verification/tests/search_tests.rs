//! Search logic: merging, the ban-word filter, sorting and query URLs.

use ygege::search::{
    build_query_url, filter_banned, get_category_pair, merge_best, merge_categories,
    sort_torrents, Category, Order, Sort, Torrent,
};

fn torrent(id: usize, name: &str, seed: usize) -> Torrent {
    Torrent {
        category_id: 2145,
        name: name.to_string(),
        id,
        comments_count: 0,
        age_stamp: 0,
        size: 0,
        completed: 0,
        seed,
        leech: 0,
        info_url: String::new(),
        link: String::new(),
    }
}

fn ids(ts: &[Torrent]) -> Vec<usize> {
    let mut v: Vec<usize> = ts.iter().map(|t| t.id).collect();
    v.sort();
    v
}

#[test]
fn merge_best_returns_first_plenty_set() {
    // a yields six results, over the plenty threshold; b and c stay small
    let a: Vec<Torrent> = (1..=6).map(|i| torrent(i, "a", i)).collect();
    let b: Vec<Torrent> = (10..=12).map(|i| torrent(i, "b", i)).collect();
    let c: Vec<Torrent> = Vec::new();
    // whatever order the sets arrive in, the six-result set wins
    let orders: Vec<Vec<Vec<Torrent>>> = vec![
        vec![copy_set(&a), copy_set(&b), copy_set(&c)],
        vec![copy_set(&b), copy_set(&a), copy_set(&c)],
        vec![copy_set(&c), copy_set(&b), copy_set(&a)],
    ];
    for sets in orders {
        let merged = merge_best(sets, Sort::Seed, Order::Ascending);
        assert_eq!(ids(&merged), vec![1, 2, 3, 4, 5, 6]);
    }
}

fn copy_set(v: &[Torrent]) -> Vec<Torrent> {
    v.iter().map(|t| torrent(t.id, t.name.as_str(), t.seed)).collect()
}

#[test]
fn merge_best_unions_sufficient_sets() {
    // two sets reach the sufficient bar of five; they merge with ids deduplicated
    let a: Vec<Torrent> = (1..=5).map(|i| torrent(i, "a", i)).collect();
    let b: Vec<Torrent> = (4..=8).map(|i| torrent(i, "b", i)).collect();
    let c: Vec<Torrent> = vec![torrent(99, "c", 1)];
    let merged = merge_best(vec![a, b, c], Sort::Seed, Order::Ascending);
    assert_eq!(ids(&merged), vec![1, 2, 3, 4, 5, 6, 7, 8]);
}

#[test]
fn merge_best_falls_back_to_first_non_empty() {
    // nothing reaches the sufficient bar: the first non-empty set is taken
    let a: Vec<Torrent> = Vec::new();
    let b: Vec<Torrent> = vec![torrent(7, "b", 2), torrent(8, "b", 1)];
    let c: Vec<Torrent> = vec![torrent(9, "c", 3)];
    let merged = merge_best(vec![a, b, c], Sort::Seed, Order::Ascending);
    assert_eq!(ids(&merged), vec![7, 8]);
}

#[test]
fn merge_best_of_nothing_is_empty() {
    let merged = merge_best(vec![Vec::new(), Vec::new()], Sort::Seed, Order::Ascending);
    assert!(merged.is_empty());
}

#[test]
fn merge_categories_always_unions() {
    // category fan-out merges every set, even one over the plenty bar
    let a: Vec<Torrent> = (1..=6).map(|i| torrent(i, "a", i)).collect();
    let b: Vec<Torrent> = vec![torrent(6, "b", 6), torrent(7, "b", 7)];
    let merged = merge_categories(vec![a, b], Sort::Seed, Order::Ascending);
    assert_eq!(ids(&merged), vec![1, 2, 3, 4, 5, 6, 7]);
}

#[test]
fn ban_filter_is_case_insensitive() {
    let ts = vec![
        torrent(1, "Great Movie CAM rip", 1),
        torrent(2, "Great Movie BluRay", 2),
        torrent(3, "Other cAm thing", 3),
    ];
    let words = vec!["cam".to_string()];
    let kept = filter_banned(ts, &words);
    assert_eq!(ids(&kept), vec![2]);
}

#[test]
fn empty_ban_list_is_a_no_op() {
    let ts = vec![torrent(1, "anything", 1), torrent(2, "at all", 2)];
    let words: Vec<String> = Vec::new();
    let kept = filter_banned(ts, &words);
    assert_eq!(kept.len(), 2);
    assert_eq!(ids(&kept), vec![1, 2]);
}

#[test]
fn sort_orders_by_field_and_direction() {
    let mut ts = vec![torrent(1, "bb", 3), torrent(2, "aa", 1), torrent(3, "cc", 2)];
    sort_torrents(&mut ts, Sort::Seed, Order::Ascending);
    let seeds: Vec<usize> = ts.iter().map(|t| t.seed).collect();
    assert_eq!(seeds, vec![1, 2, 3]);
    sort_torrents(&mut ts, Sort::Seed, Order::Descending);
    let seeds: Vec<usize> = ts.iter().map(|t| t.seed).collect();
    assert_eq!(seeds, vec![3, 2, 1]);
    sort_torrents(&mut ts, Sort::Name, Order::Ascending);
    let names: Vec<String> = ts.iter().map(|t| t.name.clone()).collect();
    assert_eq!(names, vec!["aa".to_string(), "bb".to_string(), "cc".to_string()]);
}

#[test]
fn query_url_carries_every_parameter() {
    let cats = vec![Category {
        id: 2145,
        name: "Films".to_string(),
        sub_categories: vec![Category {
            id: 2183,
            name: "Animation".to_string(),
            sub_categories: Vec::new(),
        }],
    }];
    let url = build_query_url(
        "example.org",
        Some("Vaiana"),
        Some(2),
        Some(2183),
        None,
        Some(Sort::Name),
        Some(Order::Ascending),
        &cats,
    );
    assert_eq!(
        url,
        "https://example.org/engine/search?name=Vaiana&page=2&category=2145&sub_category=2183&sort=name&order=asc&do=search"
    );
}

#[test]
fn query_url_minimal() {
    let cats: Vec<Category> = Vec::new();
    let url = build_query_url("example.org", None, None, None, None, None, None, &cats);
    assert_eq!(url, "https://example.org/engine/search?name=&do=search");
}

#[test]
fn category_pair_resolution() {
    let cats = vec![Category {
        id: 2145,
        name: "Films".to_string(),
        sub_categories: vec![Category {
            id: 2183,
            name: "Animation".to_string(),
            sub_categories: Vec::new(),
        }],
    }];
    let top = get_category_pair(&cats, 2145).expect("top level");
    assert_eq!(top.0, "2145");
    assert_eq!(top.1, "all");
    let sub = get_category_pair(&cats, 2183).expect("sub level");
    assert_eq!(sub.0, "2145");
    assert_eq!(sub.1, "2183");
    assert!(get_category_pair(&cats, 9999).is_none());
}

#[test]
fn sort_and_order_words_round_trip() {
    assert_eq!(Sort::PublishDate.as_str(), "publish_date");
    assert_eq!(Order::Descending.as_str(), "desc");
    assert!(matches!(Sort::from_str("seed"), Some(Sort::Seed)));
    assert!(matches!(Order::from_str("asc"), Some(Order::Ascending)));
    assert!(Sort::from_str("sideways").is_none());
    assert!(Order::from_str("up").is_none());
}

#[test]
fn torrent_urls() {
    let t = torrent(123, "x", 0);
    assert_eq!(t.get_url("example.org"), "https://example.org/engine/download_torrent?id=123");
    assert_eq!(t.get_download_url(), "/torrent/123");
}
