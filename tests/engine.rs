use sarychdb::auth::{AuthService, CreateDbRequest, CreateUserRequest, Database, User};
use sarychdb::cache::{
    cache_search_results, clear_search_cache, get_cached_search, invalidate_cache_for_path,
    CacheEntry, SearchCache,
};
use sarychdb::document::{Document, Entry, Number};
use sarychdb::matcher::{has_key, matches_filters, search_in_json_value};
use sarychdb::order::{compare_values, float_order};
use sarychdb::paging::total_pages;
use sarychdb::pipeline::{BrowseMode, DatabaseManager};
use sarychdb::search::{
    centralized_search, parallel_search, sequential_search, smart_search, split_nodes,
};
use std::cmp::Ordering;

fn num(x: i64) -> Document {
    Document::Number(Number { text: x.to_string(), bits: (x as f64).to_bits() })
}

fn float(x: f64, text: &str) -> Document {
    Document::Number(Number { text: text.to_string(), bits: x.to_bits() })
}

fn text(s: &str) -> Document {
    Document::Text(s.to_string())
}

fn obj(fields: Vec<(&str, Document)>) -> Document {
    Document::Object(
        fields
            .into_iter()
            .map(|(k, v)| Entry { key: k.to_string(), value: v })
            .collect(),
    )
}

fn field<'a>(d: &'a Document, k: &str) -> Option<&'a Document> {
    match d {
        Document::Object(fs) => fs.iter().find(|e| e.key == k).map(|e| &e.value),
        _ => None,
    }
}

fn text_of(d: &Document, k: &str) -> String {
    match field(d, k) {
        Some(Document::Text(s)) => s.clone(),
        _ => panic!("no text field {}", k),
    }
}

fn same(a: &Document, b: &Document) -> bool {
    sarychdb::matcher::doc_equals(a, b)
}

fn same_all(a: &[Document], b: &[Document]) -> bool {
    a.len() == b.len() && a.iter().zip(b.iter()).all(|(x, y)| same(x, y))
}

fn numbered(n: i64) -> Vec<Document> {
    (0..n).map(|i| obj(vec![("n", num(i)), ("name", text(&format!("item{}", i)))])).collect()
}

fn n_of(d: &Document) -> String {
    match field(d, "n") {
        Some(Document::Number(x)) => x.text.clone(),
        _ => panic!("no n"),
    }
}

#[test]
fn partition_concatenation_reproduces_input() {
    for p in 1..8usize {
        let docs = numbered(10);
        let nodes = split_nodes(numbered(10), p);
        assert_eq!(nodes.len(), p);
        let flat: Vec<Document> = nodes.iter().flat_map(|n| n.iter().map(|d| d.copy())).collect();
        assert!(same_all(&flat, &docs));
        let sizes: Vec<usize> = nodes.iter().map(|n| n.len()).collect();
        let max = *sizes.iter().max().unwrap();
        let min = *sizes.iter().min().unwrap();
        assert!(max - min <= 1);
    }
}

#[test]
fn partition_sizes_are_balanced() {
    let nodes = split_nodes(numbered(10), 4);
    let sizes: Vec<usize> = nodes.iter().map(|n| n.len()).collect();
    assert_eq!(sizes, vec![3, 3, 2, 2]);
}

#[test]
fn partition_of_empty_and_more_nodes_than_documents() {
    let nodes = split_nodes(Vec::new(), 3);
    assert_eq!(nodes.len(), 3);
    assert!(nodes.iter().all(|n| n.is_empty()));
    let nodes = split_nodes(numbered(2), 5);
    assert_eq!(nodes.len(), 5);
    assert_eq!(nodes.iter().map(|n| n.len()).sum::<usize>(), 2);
}

#[test]
fn partition_with_zero_uses_thread_count() {
    let nodes = split_nodes(numbered(7), 0);
    assert!(nodes.len() >= 1);
    assert_eq!(nodes.iter().map(|n| n.len()).sum::<usize>(), 7);
}

#[test]
fn strategies_agree() {
    let nodes = split_nodes(numbered(25), 4);
    for q in ["item1", "2", "zzz", "item"] {
        let c = centralized_search(&nodes, q);
        let s = sequential_search(&nodes, q);
        let p = parallel_search(&nodes, q);
        let m = smart_search(&nodes, q);
        assert!(same_all(&c, &s));
        assert!(same_all(&c, &p));
        assert!(same_all(&c, &m));
    }
    let found = sequential_search(&nodes, "item1");
    let names: Vec<String> = found.iter().map(|d| text_of(d, "name")).collect();
    let expected: Vec<String> = (0..25).filter(|i| format!("item{}", i).contains("item1")).map(|i| format!("item{}", i)).collect();
    assert_eq!(names, expected);
}

#[test]
fn smart_search_large_collection() {
    let nodes = split_nodes(numbered(1200), 3);
    let s = smart_search(&nodes, "item119");
    assert_eq!(s.len(), 11);
    assert!(same_all(&s, &sequential_search(&nodes, "item119")));
}

#[test]
fn structural_match_descends_and_renders_scalars() {
    let d = obj(vec![
        ("a", Document::Array(vec![Document::Null, obj(vec![("deep", text("needle"))])])),
        ("b", Document::Bool(true)),
        ("c", float(2.5, "2.5")),
    ]);
    assert!(search_in_json_value(&d, "needle"));
    assert!(search_in_json_value(&d, "eedl"));
    assert!(search_in_json_value(&d, "tru"));
    assert!(search_in_json_value(&d, ".5"));
    assert!(!search_in_json_value(&d, "deep"));
    assert!(!search_in_json_value(&d, "fals"));
    assert!(!search_in_json_value(&Document::Null, ""));
    assert!(search_in_json_value(&text("abc"), ""));
}

#[test]
fn key_presence_mode() {
    let d = obj(vec![("a", Document::Null)]);
    assert!(has_key(&d, "a"));
    assert!(!has_key(&d, "b"));
    assert!(!has_key(&Document::Array(vec![d.copy()]), "a"));
}

#[test]
fn cache_round_trip_and_expiry() {
    let mut cache = SearchCache::new();
    let results = vec![obj(vec![("a", num(1))]), text("x")];
    cache_search_results(&mut cache, "users/u/db.json", "q", results.iter().map(|d| d.copy()).collect(), 300, 1000);
    let hit = get_cached_search(&cache, "users/u/db.json", "q", 1000).expect("cached");
    assert!(same_all(&hit, &results));
    assert!(get_cached_search(&cache, "users/u/db.json", "q", 1299).is_some());
    assert!(get_cached_search(&cache, "users/u/db.json", "q", 1300).is_none());
    assert!(get_cached_search(&cache, "users/u/db.json", "other", 1000).is_none());
}

#[test]
fn cache_store_overwrites_same_key() {
    let mut cache = SearchCache::new();
    cache_search_results(&mut cache, "p", "q", vec![text("old")], 300, 10);
    cache_search_results(&mut cache, "p", "q", vec![text("new")], 300, 20);
    assert_eq!(cache.entry_count(), 1);
    let hit = get_cached_search(&cache, "p", "q", 25).unwrap();
    assert!(same_all(&hit, &[text("new")]));
}

#[test]
fn cache_sweeps_expired_entries_past_threshold() {
    let mut cache = SearchCache::new();
    for i in 0..100 {
        cache_search_results(&mut cache, "p", &format!("q{}", i), vec![], 5, 0);
    }
    assert_eq!(cache.entry_count(), 100);
    cache_search_results(&mut cache, "p", "fresh", vec![], 300, 10);
    assert_eq!(cache.entry_count(), 1);
    assert!(get_cached_search(&cache, "p", "fresh", 10).is_some());
}

#[test]
fn cache_invalidation_and_clear() {
    let mut cache = SearchCache::new();
    cache_search_results(&mut cache, "a", "q1", vec![], 300, 0);
    cache_search_results(&mut cache, "a", "q2", vec![], 300, 0);
    cache_search_results(&mut cache, "b", "q1", vec![], 300, 0);
    invalidate_cache_for_path(&mut cache, "a");
    assert!(get_cached_search(&cache, "a", "q1", 1).is_none());
    assert!(get_cached_search(&cache, "a", "q2", 1).is_none());
    assert!(get_cached_search(&cache, "b", "q1", 1).is_some());
    clear_search_cache(&mut cache);
    assert_eq!(cache.entry_count(), 0);
}

#[test]
fn cache_entry_validity() {
    let e = CacheEntry { collection: "p".to_string(), query: "q".to_string(), results: vec![], timestamp: 100, ttl_seconds: 10 };
    assert!(e.is_valid(100));
    assert!(e.is_valid(109));
    assert!(!e.is_valid(110));
    assert!(e.is_valid(50));
}

#[test]
fn write_invalidates_cached_search() {
    let mut mgr = DatabaseManager::new();
    let data = vec![obj(vec![("name", text("alpha"))])];
    let first = mgr.search_records("u", "db", data.iter().map(|d| d.copy()).collect(), Some("alp"), None, 100);
    assert_eq!(first.len(), 1);
    // a cached search answers from the cache even if the data changed
    let stale = mgr.search_records("u", "db", vec![], Some("alp"), None, 101);
    assert_eq!(stale.len(), 1);
    let mut live = data;
    mgr.insert_record_with("u", "db", &mut live, obj(vec![("name", text("alpine"))]), "id-1", "t0");
    let fresh = mgr.search_records("u", "db", live.iter().map(|d| d.copy()).collect(), Some("alp"), None, 102);
    assert_eq!(fresh.len(), 2);
    mgr.delete_records("u", "db", &mut live, "alpine");
    let after_delete = mgr.search_records("u", "db", live.iter().map(|d| d.copy()).collect(), Some("alp"), None, 103);
    assert_eq!(after_delete.len(), 1);
    mgr.update_records_at("u", "db", &mut live, "alpha", obj(vec![("name", text("beta"))]), None, "t1");
    let after_update = mgr.search_records("u", "db", live.iter().map(|d| d.copy()).collect(), Some("alp"), None, 104);
    assert_eq!(after_update.len(), 0);
}

#[test]
fn search_modes() {
    let mut mgr = DatabaseManager::new();
    let data = vec![obj(vec![("k", text("v1"))]), obj(vec![("other", text("k"))]), text("k")];
    let all = mgr.search_records("u", "db", data.iter().map(|d| d.copy()).collect(), None, None, 0);
    assert_eq!(all.len(), 3);
    let empty_q = mgr.search_records("u", "db", data.iter().map(|d| d.copy()).collect(), Some(""), None, 0);
    assert_eq!(empty_q.len(), 3);
    let by_key = mgr.search_records("u", "db", data.iter().map(|d| d.copy()).collect(), Some("k"), Some("key"), 0);
    assert_eq!(by_key.len(), 1);
    let by_value = mgr.search_records("u", "db", data.iter().map(|d| d.copy()).collect(), Some("k"), Some("value"), 0);
    assert_eq!(by_value.len(), 2);
}

#[test]
fn collection_cache_read_through() {
    let mut mgr = DatabaseManager::new();
    assert!(mgr.cached_collection("u", "db", 0).is_none());
    mgr.remember_collection("u", "db", &numbered(3), 0);
    assert_eq!(mgr.cached_collection("u", "db", 299).unwrap().len(), 3);
    assert!(mgr.cached_collection("u", "db", 300).is_none());
    mgr.invalidate_cache("u", "db");
    assert!(mgr.cached_collection("u", "db", 1).is_none());
}

#[test]
fn db_path_format() {
    assert_eq!(DatabaseManager::get_db_path("alice", "notes"), "users/alice/notes.json");
}

#[test]
fn browse_page_two_of_five() {
    let mgr = DatabaseManager::new();
    let data = numbered(12);
    let b = mgr.browse_records(&data, Some(2), Some(5)).unwrap();
    let ns: Vec<String> = b.data.iter().map(n_of).collect();
    assert_eq!(ns, vec!["5", "6", "7", "8", "9"]);
    assert_eq!(b.mode, BrowseMode::Paginated);
    assert_eq!(b.total_pages, Some(3));
    assert_eq!(b.has_next, Some(true));
    assert_eq!(b.has_prev, Some(true));
    assert_eq!(b.returned, 5);
    assert_eq!(b.total_records, 12);
}

#[test]
fn browse_limit_only() {
    let mgr = DatabaseManager::new();
    let data = numbered(12);
    let b = mgr.browse_records(&data, None, Some(3)).unwrap();
    let ns: Vec<String> = b.data.iter().map(n_of).collect();
    assert_eq!(ns, vec!["0", "1", "2"]);
    assert_eq!(b.mode, BrowseMode::LimitOnly);
    assert_eq!(b.total_pages, None);
}

#[test]
fn browse_page_without_limit_is_an_error() {
    let mgr = DatabaseManager::new();
    assert!(mgr.browse_records(&numbered(12), Some(1), None).is_err());
}

#[test]
fn browse_defaults_and_clamping() {
    let mgr = DatabaseManager::new();
    let data = numbered(12);
    let b = mgr.browse_records(&data, None, None).unwrap();
    assert_eq!(b.data.len(), 10);
    assert_eq!(b.mode, BrowseMode::Default);
    assert_eq!(b.page, Some(1));
    assert_eq!(b.total_pages, Some(2));
    assert_eq!(b.has_next, Some(true));
    let z = mgr.browse_records(&data, Some(0), Some(5)).unwrap();
    assert_eq!(z.page, Some(1));
    assert_eq!(z.has_prev, Some(false));
    let far = mgr.browse_records(&data, Some(9), Some(5)).unwrap();
    assert!(far.data.is_empty());
    assert_eq!(far.has_next, Some(false));
}

#[test]
fn list_filter_then_sort_descending() {
    let mgr = DatabaseManager::new();
    let data = vec![
        obj(vec![("a", num(1)), ("b", text("x"))]),
        obj(vec![("a", num(2)), ("b", text("y"))]),
        obj(vec![("a", num(1)), ("b", text("z"))]),
    ];
    let filter = obj(vec![("a", num(1))]);
    let plain = mgr.list_records(&data, None, None, None, None, Some(&filter));
    let bs: Vec<String> = plain.data.iter().map(|d| text_of(d, "b")).collect();
    assert_eq!(bs, vec!["x", "z"]);
    assert_eq!(plain.filtered_records, 2);
    assert_eq!(plain.total_records, 3);
    let sorted = mgr.list_records(&data, None, None, Some("b"), Some("desc"), Some(&filter));
    let bs: Vec<String> = sorted.data.iter().map(|d| text_of(d, "b")).collect();
    assert_eq!(bs, vec!["z", "x"]);
    assert_eq!(sorted.sort_order, "desc");
    assert_eq!(sorted.sort_field.as_deref(), Some("b"));
}

#[test]
fn list_sort_rules_and_paging() {
    let mgr = DatabaseManager::new();
    let data = vec![
        obj(vec![("k", float(2.5, "2.5"))]),
        obj(vec![("other", num(0))]),
        obj(vec![("k", num(-3))]),
        obj(vec![("k", num(10))]),
    ];
    let r = mgr.list_records(&data, Some(1), Some(10), Some("k"), None, None);
    assert_eq!(r.sort_order, "asc");
    assert!(field(&r.data[0], "k").is_none());
    let ks: Vec<String> = r.data[1..].iter().map(|d| match field(d, "k") {
        Some(Document::Number(n)) => n.text.clone(),
        _ => panic!(),
    }).collect();
    assert_eq!(ks, vec!["-3", "2.5", "10"]);
    let second_page = mgr.list_records(&data, Some(2), Some(3), None, None, None);
    assert_eq!(second_page.data.len(), 1);
    assert_eq!(second_page.total_pages, 2);
    assert!(second_page.has_prev);
    assert!(!second_page.has_next);
    let past = mgr.list_records(&data, Some(7), Some(3), None, None, None);
    assert!(past.data.is_empty());
}

#[test]
fn list_filter_any_of_and_missing_field() {
    let mgr = DatabaseManager::new();
    let data = vec![obj(vec![("c", text("red"))]), obj(vec![("c", text("blue"))]), obj(vec![("d", text("red"))])];
    let filter = obj(vec![("c", Document::Array(vec![text("red"), text("green")]))]);
    let r = mgr.list_records(&data, None, None, None, None, Some(&filter));
    assert_eq!(r.filtered_records, 1);
    assert!(matches_filters(&data[0], match &filter { Document::Object(f) => f, _ => unreachable!() }));
    assert!(!matches_filters(&data[2], match &filter { Document::Object(f) => f, _ => unreachable!() }));
}

#[test]
fn stable_sort_keeps_order_of_equal_keys() {
    let mgr = DatabaseManager::new();
    let data = vec![
        obj(vec![("g", num(1)), ("t", text("first"))]),
        obj(vec![("g", num(0)), ("t", text("zero"))]),
        obj(vec![("g", num(1)), ("t", text("second"))]),
    ];
    let r = mgr.list_records(&data, None, None, Some("g"), None, None);
    let ts: Vec<String> = r.data.iter().map(|d| text_of(d, "t")).collect();
    assert_eq!(ts, vec!["zero", "first", "second"]);
}

#[test]
fn comparator_rules() {
    let a = obj(vec![("f", text("apple"))]);
    let b = obj(vec![("f", text("banana"))]);
    assert_eq!(compare_values(&a, &b, "f", "asc"), Ordering::Less);
    assert_eq!(compare_values(&a, &b, "f", "desc"), Ordering::Greater);
    let t = obj(vec![("f", Document::Bool(true))]);
    let f = obj(vec![("f", Document::Bool(false))]);
    assert_eq!(compare_values(&f, &t, "f", "asc"), Ordering::Less);
    let missing = obj(vec![]);
    assert_eq!(compare_values(&missing, &a, "f", "asc"), Ordering::Less);
    assert_eq!(compare_values(&a, &t, "f", "asc"), Ordering::Equal);
    assert_eq!(float_order((-0.0f64).to_bits(), 0.0f64.to_bits()), Ordering::Equal);
    assert_eq!(float_order((-1.5f64).to_bits(), (-0.5f64).to_bits()), Ordering::Less);
    assert_eq!(float_order(f64::NAN.to_bits(), 1.0f64.to_bits()), Ordering::Equal);
}

#[test]
fn update_by_id_touches_one_document() {
    let mut mgr = DatabaseManager::new();
    let mut data = vec![
        obj(vec![("_id", text("A")), ("v", text("same"))]),
        obj(vec![("_id", text("B")), ("v", text("same"))]),
    ];
    let n = mgr.update_records_at("u", "db", &mut data, "", obj(vec![("v", text("new")), ("w", num(1))]), Some("B"), "T");
    assert_eq!(n, 1);
    assert_eq!(text_of(&data[0], "v"), "same");
    assert_eq!(text_of(&data[1], "v"), "new");
    assert_eq!(text_of(&data[1], "_updated_at"), "T");
    assert_eq!(text_of(&data[1], "_id"), "B");
    assert!(field(&data[1], "w").is_some());
    let n = mgr.update_records_at("u", "db", &mut data, "", obj(vec![("v", text("x"))]), Some("missing"), "T");
    assert_eq!(n, 0);
}

#[test]
fn update_by_query_touches_all_matches() {
    let mut mgr = DatabaseManager::new();
    let mut data = vec![
        obj(vec![("_id", text("A")), ("v", text("same"))]),
        obj(vec![("_id", text("B")), ("v", text("same"))]),
        obj(vec![("_id", text("C")), ("v", text("other"))]),
    ];
    let n = mgr.update_records_at("u", "db", &mut data, "same", obj(vec![("v", text("new"))]), None, "T");
    assert_eq!(n, 2);
    assert_eq!(text_of(&data[0], "v"), "new");
    assert_eq!(text_of(&data[1], "v"), "new");
    assert_eq!(text_of(&data[2], "v"), "other");
    let n = mgr.update_records("u", "db", &mut data, "other", text("not a mapping"), None);
    assert_eq!(n, 0);
}

#[test]
fn delete_is_idempotent() {
    let mut mgr = DatabaseManager::new();
    let mut data = numbered(5);
    let n = mgr.delete_records("u", "db", &mut data, "item3");
    assert_eq!(n, 1);
    assert_eq!(data.len(), 4);
    let before: Vec<Document> = data.iter().map(|d| d.copy()).collect();
    let n = mgr.delete_records("u", "db", &mut data, "item3");
    assert_eq!(n, 0);
    assert!(same_all(&before, &data));
}

#[test]
fn insert_stamps_mapping_documents_only() {
    let mut mgr = DatabaseManager::new();
    let mut data = Vec::new();
    mgr.insert_record_with("u", "db", &mut data, obj(vec![("x", num(1)), ("_id", text("user"))]), "ID", "NOW");
    assert_eq!(text_of(&data[0], "_id"), "ID");
    assert_eq!(text_of(&data[0], "_created_at"), "NOW");
    mgr.insert_record_with("u", "db", &mut data, text("plain"), "ID2", "NOW");
    assert!(same(&data[1], &text("plain")));
    mgr.insert_record("u", "db", &mut data, obj(vec![]));
    let id = text_of(&data[2], "_id");
    assert_eq!(id.len(), 36);
    assert!(!text_of(&data[2], "_created_at").is_empty());
}

#[test]
fn page_count_rounds_up() {
    assert_eq!(total_pages(12, 5), 3);
    assert_eq!(total_pages(10, 5), 2);
    assert_eq!(total_pages(0, 5), 0);
    assert_eq!(total_pages(7, 0), 0);
}

fn user(name: &str, password: &str, dbs: &[&str]) -> User {
    User {
        user: name.to_string(),
        password: bcrypt::hash(password, 4).unwrap(),
        db: dbs.iter().map(|d| Database { namedb: d.to_string() }).collect(),
    }
}

#[test]
fn authentication_and_ownership() {
    let svc = AuthService::with_users(vec![user("ann", "pw", &["notes"])]);
    assert_eq!(svc.authenticate("ann", "pw"), Ok(true));
    assert_eq!(svc.authenticate("ann", "bad"), Ok(false));
    assert_eq!(svc.authenticate("bob", "pw"), Ok(false));
    assert_eq!(svc.user_has_database("ann", "pw", "notes"), Ok(true));
    assert_eq!(svc.user_has_database("ann", "pw", "other"), Ok(false));
    assert_eq!(svc.user_has_database("ann", "bad", "notes"), Err("Invalid credentials".to_string()));
    let dbs = svc.get_user_databases("ann", "pw").unwrap();
    assert_eq!(dbs.len(), 1);
    assert_eq!(dbs[0].namedb, "notes");
    let broken = AuthService::with_users(vec![User { user: "c".to_string(), password: "nohash".to_string(), db: vec![] }]);
    assert!(broken.authenticate("c", "pw").is_err());
}

#[test]
fn creating_users_and_databases() {
    let mut svc = AuthService::new();
    let ok = svc.create_user(CreateUserRequest { username: "dan".to_string(), password: "pw".to_string() });
    assert_eq!(ok, Ok("User 'dan' created successfully with folder at: users/dan".to_string()));
    assert_eq!(svc.users.len(), 1);
    assert!(svc.create_user(CreateUserRequest { username: "dan".to_string(), password: "x".to_string() }).is_err());
    assert!(svc.create_user(CreateUserRequest { username: "a b".to_string(), password: "x".to_string() }).is_err());
    assert!(svc.create_user(CreateUserRequest { username: "".to_string(), password: "x".to_string() }).is_err());
    let req = |db: &str| CreateDbRequest { username: "dan".to_string(), password: "pw".to_string(), db_name: db.to_string() };
    assert_eq!(svc.create_database(req("notes"), false), Ok("Database 'notes' created successfully at: users/dan/notes.json".to_string()));
    assert_eq!(svc.create_database(req("notes"), false), Err("Database already exists for this user".to_string()));
    assert_eq!(svc.create_database(req("a/b"), false), Err("Invalid database name. Cannot contain spaces or special characters".to_string()));
    assert_eq!(svc.create_database(req("more"), true), Err("File with that name already exists in user folder".to_string()));
    let bad = CreateDbRequest { username: "dan".to_string(), password: "wrong".to_string(), db_name: "x".to_string() };
    assert_eq!(svc.create_database(bad, false), Err("Invalid credentials".to_string()));
    assert_eq!(svc.user_has_database("dan", "pw", "notes"), Ok(true));
}
