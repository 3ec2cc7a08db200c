use std::marker::PhantomData;

use misery_cache::config::{default_cache_path, CACHE_PATH_SETTING};
use misery_cache::entry::CacheWrapper;
use misery_cache::store::MiseryHandler;

#[derive(Debug, Clone, Hash, Eq, PartialEq)]
pub struct StringId<T> {
    id: String,
    _mark: PhantomData<T>,
}

impl<T> StringId<T> {
    pub fn new<I>(id: I) -> StringId<T>
    where
        I: Into<String>,
    {
        Self { id: id.into(), _mark: PhantomData }
    }
}

#[derive(Debug, Clone, Hash, Eq, PartialEq)]
pub struct HandlingData {
    id: StringId<HandlingData>,
    data_1: String,
    data_2: i32,
}

impl HandlingData {
    fn new<I, S>(id: I, str_data: S, int_data: i32) -> HandlingData
    where
        I: Into<String>,
        S: Into<String>,
    {
        Self { id: StringId::<Self>::new(id), data_1: str_data.into(), data_2: int_data }
    }
}

type Id = StringId<HandlingData>;
type Handler = MiseryHandler<Id, HandlingData>;

fn entry(id: &str, data: &str, n: i32) -> CacheWrapper<Id, HandlingData> {
    CacheWrapper::new(Id::new(id), HandlingData::new(id, data, n))
}

fn six_entries() -> Vec<CacheWrapper<Id, HandlingData>> {
    vec![
        entry("abc", "test_1", 123),
        entry("def", "test_2", 456),
        entry("ghi", "test_3", 789),
        entry("jkm", "test_4", 321),
        entry("nop", "test_5", 654),
        entry("qrs", "test_6", 987),
    ]
}

fn sorted_keys(items: &[CacheWrapper<Id, HandlingData>]) -> Vec<String> {
    let mut keys: Vec<String> = items.iter().map(|e| e.as_ref_key().id.clone()).collect();
    keys.sort();
    keys
}

#[test]
fn usage_test() {
    let external_cache = {
        let mut external_cache = Handler::from_decoded("./test/usage_test.json".to_string(), None);
        let vec = vec![
            entry("abc", "test_1", 123),
            entry("def", "test_2", 456),
            entry("ghi", "test_3", 789),
            entry("jkm", "test_4", 321),
            entry("nop", "test_5", 654),
        ];
        for cache in vec {
            external_cache.push(cache);
        }

        let find_test_1 = external_cache.find_value(&Id::new("abc"));
        assert_eq!(find_test_1, Some(HandlingData::new("abc", "test_1", 123)));

        external_cache.remove(&Id::new("def"));
        let removed_test_2 = external_cache.find_value(&Id::new("def"));
        assert_eq!(removed_test_2, None);

        let overwrite_test_3 = external_cache.find(&Id::new("ghi"));
        let overwrite_test_3 = overwrite_test_3
            .unwrap()
            .rebase_value(HandlingData::new("ghi", "test_3_overwrite", 777));
        external_cache.remove(&Id::new("ghi"));
        external_cache.push(overwrite_test_3.to_owned());
        let test_3 = external_cache.find_value(&Id::new("ghi"));
        assert_eq!(test_3, Some(HandlingData::new("ghi", "test_3_overwrite", 777)));
        external_cache
    };
    assert_eq!(external_cache.path(), "./test/usage_test.json");
}

#[test]
fn thread_safe_test() {
    let vec = six_entries();
    let mut handler = Handler::from_decoded("./test/thread_safe_test.json".to_string(), None);
    // Arrival order differs from the listing order.
    for i in [3usize, 0, 5, 1, 4, 2] {
        handler.push(vec[i].to_owned());
    }
    let items = handler.all_items();
    assert_eq!(items.len(), 6);
    assert_eq!(sorted_keys(&items), vec!["abc", "def", "ghi", "jkm", "nop", "qrs"]);
    assert_eq!(handler.path(), "./test/thread_safe_test.json");
}

#[test]
fn all_method_test() {
    let written = {
        let mut handler = Handler::from_decoded("./test/all_method_test.json".to_string(), None);
        for cache in six_entries() {
            handler.push(cache);
        }
        handler.all_items()
    };
    let handler = Handler::from_decoded("./test/all_method_test.json".to_string(), Some(written));
    let items = handler.all_items();
    assert_eq!(items.len(), 6);
    for e in six_entries() {
        assert!(items.contains(&e));
        assert_eq!(handler.find(e.as_ref_key()), Some(e.clone()));
    }
}

#[test]
fn replace_twice_keeps_one_entry() {
    let mut h: MiseryHandler<u32, String> = MiseryHandler::from_decoded("p".to_string(), None);
    h.push(CacheWrapper::new(7, "seven".to_string()));
    h.push(CacheWrapper::new(8, "eight".to_string()));
    h.abs(CacheWrapper::new(7, "v1".to_string()));
    h.abs(CacheWrapper::new(7, "v2".to_string()));
    assert_eq!(h.find_value(&7), Some("v2".to_string()));
    let items = h.all_items();
    assert_eq!(items.iter().filter(|e| *e.as_ref_key() == 7).count(), 1);
    assert_eq!(items.len(), 2);
    assert_eq!(h.find_value(&8), Some("eight".to_string()));
}

#[test]
fn replace_on_absent_key_inserts() {
    let mut h: MiseryHandler<u32, u32> = MiseryHandler::from_decoded("p".to_string(), None);
    h.abs(CacheWrapper::new(1, 10));
    assert_eq!(h.find(&1), Some(CacheWrapper::new(1, 10)));
    assert_eq!(h.all_items().len(), 1);
}

#[test]
fn remove_is_absence_and_idempotent() {
    let mut h: MiseryHandler<u32, u32> = MiseryHandler::from_decoded("p".to_string(), None);
    h.push(CacheWrapper::new(1, 10));
    h.push(CacheWrapper::new(2, 20));
    h.remove(&1);
    assert_eq!(h.find(&1), None);
    let after_first = h.all_items();
    h.remove(&1);
    assert_eq!(h.all_items(), after_first);
    assert_eq!(after_first, vec![CacheWrapper::new(2, 20)]);
    h.remove(&99);
    assert_eq!(h.all_items(), after_first);
}

#[test]
fn push_keeps_both_values_of_a_key() {
    let mut h: MiseryHandler<u32, u32> = MiseryHandler::from_decoded("p".to_string(), None);
    h.push(CacheWrapper::new(1, 10));
    h.push(CacheWrapper::new(1, 20));
    h.push(CacheWrapper::new(1, 10));
    assert_eq!(h.all_items(), vec![CacheWrapper::new(1, 10), CacheWrapper::new(1, 20)]);
    assert_eq!(h.find_value(&1), Some(10));
    h.abs(CacheWrapper::new(1, 30));
    assert_eq!(h.all_items(), vec![CacheWrapper::new(1, 30)]);
}

#[test]
fn remove_takes_every_entry_of_the_key() {
    let mut h: MiseryHandler<u32, u32> = MiseryHandler::from_decoded("p".to_string(), None);
    h.push(CacheWrapper::new(1, 10));
    h.push(CacheWrapper::new(2, 20));
    h.push(CacheWrapper::new(1, 11));
    h.remove(&1);
    assert_eq!(h.all_items(), vec![CacheWrapper::new(2, 20)]);
    assert_eq!(h.find_value(&1), None);
}

#[test]
fn scenario_push_find_remove_reopen() {
    let written = {
        let mut h: MiseryHandler<String, u32> = MiseryHandler::from_decoded("p".to_string(), None);
        assert!(h.all_items().is_empty());
        h.push(CacheWrapper::new("abc".to_string(), 123));
        h.push(CacheWrapper::new("def".to_string(), 456));
        assert_eq!(h.find_value(&"abc".to_string()), Some(123));
        h.remove(&"def".to_string());
        assert_eq!(h.find_value(&"def".to_string()), None);
        h.all_items()
    };
    let h: MiseryHandler<String, u32> = MiseryHandler::from_decoded("p".to_string(), Some(written));
    assert_eq!(h.all_items(), vec![CacheWrapper::new("abc".to_string(), 123)]);
}

#[test]
fn undecodable_file_loads_empty() {
    let h: MiseryHandler<u32, u32> = MiseryHandler::from_decoded("corrupt.json".to_string(), None);
    assert!(h.all_items().is_empty());
    assert_eq!(h.find(&1), None);
    assert_eq!(h.path(), "corrupt.json");
}

#[test]
fn decoded_exact_duplicates_dropped() {
    let decoded = vec![
        CacheWrapper::new(1u32, 10u32),
        CacheWrapper::new(2, 20),
        CacheWrapper::new(1, 11),
        CacheWrapper::new(2, 20),
    ];
    let h = MiseryHandler::from_decoded("p".to_string(), Some(decoded));
    assert_eq!(
        h.all_items(),
        vec![CacheWrapper::new(1, 10), CacheWrapper::new(2, 20), CacheWrapper::new(1, 11)]
    );
    assert_eq!(h.find_value(&1), Some(10));
}

#[test]
fn distinct_pushes_all_land() {
    let mut h: MiseryHandler<u32, u32> = MiseryHandler::from_decoded("p".to_string(), None);
    for k in [5u32, 1, 4, 2, 3] {
        h.push(CacheWrapper::new(k, k * 100));
    }
    let items = h.all_items();
    assert_eq!(items.len(), 5);
    for k in 1u32..=5 {
        assert!(items.contains(&CacheWrapper::new(k, k * 100)));
    }
}

#[test]
fn entry_accessors_and_rebase() {
    let e = CacheWrapper::new("k".to_string(), 3u8);
    assert_eq!(e.key(), "k".to_string());
    assert_eq!(e.value(), 3);
    assert_eq!(e.as_ref_key(), "k");
    assert_eq!(*e.as_ref_value(), 3);
    let f = e.clone().rebase_key("m".to_string());
    assert_eq!(f, CacheWrapper::new("m".to_string(), 3));
    let g = e.clone().rebase_value(9);
    assert_eq!(g, CacheWrapper::new("k".to_string(), 9));
    assert_eq!(e.duplicate(), e);
}

#[test]
fn default_path_falls_back() {
    assert_eq!(default_cache_path(None), "./.cache.json");
    assert_eq!(default_cache_path(Some("/tmp/x.json".to_string())), "/tmp/x.json");
    assert_eq!(CACHE_PATH_SETTING, "CACHE_DEFAULT");
}
