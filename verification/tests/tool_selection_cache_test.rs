use std::time::Duration;

use m_desk_new::json::{JsonValue, JsonNumber};
use m_desk_new::tool_selection_cache::ToolSelectionCache;

fn ttl(secs: u64) -> u64 {
    Duration::from_secs(secs).as_nanos() as u64
}

fn empty_args() -> JsonValue {
    JsonValue::Object(Vec::new())
}

fn conf(c: f64) -> u64 {
    c.to_bits()
}

#[test]
fn test_cache_hit_miss() {
    let mut cache = ToolSelectionCache::new(ttl(5), 10);
    let query = "Test query";

    assert!(cache.get(query).is_none());

    cache.add(query, "test_tool_1", conf(0.8), &empty_args());

    let cached = cache.get(query);
    assert!(cached.is_some());
    let (tool_name, confidence, _) = cached.unwrap();
    assert_eq!(tool_name, "test_tool_1");
    assert_eq!(f64::from_bits(confidence), 0.8);
}

#[test]
fn test_cache_expiration() {
    let mut cache = ToolSelectionCache::new(ttl(1), 10);
    let query = "Test query";
    let start: u64 = 1_000;

    cache.add_at(query, "test_tool_1", conf(0.8), &empty_args(), start);

    // right away: a hit
    assert!(cache.get_at(query, start).is_some());

    // two seconds after its last use: a miss
    assert!(cache.get_at(query, start + ttl(2)).is_none());
}

#[test]
fn test_cache_invalidation() {
    let mut cache = ToolSelectionCache::new(ttl(60), 10);

    cache.add("query1", "test_tool_1", conf(0.8), &empty_args());
    cache.add("query2", "test_tool_1", conf(0.8), &empty_args());

    assert!(cache.get("query1").is_some());
    assert!(cache.get("query2").is_some());

    cache.clear();

    assert!(cache.get("query1").is_none());
    assert!(cache.get("query2").is_none());
}

#[test]
fn test_cache_stats() {
    let mut cache = ToolSelectionCache::new(ttl(60), 10);

    let stats = cache.stats();
    assert_eq!(stats.total_entries, 0);
    assert_eq!(stats.max_entries, 10);
    assert_eq!(stats.ttl_seconds, 60);

    cache.add("query1", "test_tool_1", conf(0.8), &empty_args());
    cache.add("query2", "test_tool_1", conf(0.8), &empty_args());

    let stats = cache.stats();
    assert_eq!(stats.total_entries, 2);
}

#[test]
fn test_tool_removal() {
    let mut cache = ToolSelectionCache::new(ttl(60), 10);

    cache.add("query1", "test_tool_1", conf(0.8), &empty_args());
    cache.add("query2", "test_tool_2", conf(0.8), &empty_args());

    assert!(cache.get("query1").is_some());
    assert!(cache.get("query2").is_some());

    cache.remove_tool_entries("test_tool_1");

    assert!(cache.get("query1").is_none());
    assert!(cache.get("query2").is_some());
}

#[test]
fn test_max_entries() {
    let mut cache = ToolSelectionCache::new(ttl(60), 2);

    cache.add("query1", "test_tool_1", conf(0.8), &empty_args());
    cache.get("query1");

    cache.add("query2", "test_tool_2", conf(0.8), &empty_args());
    cache.add("query3", "test_tool_3", conf(0.8), &empty_args());

    assert!(cache.get("query2").is_some());
    assert!(cache.get("query3").is_some());
    assert!(cache.get("query1").is_none());
}

#[test]
fn queries_are_normalized_before_lookup() {
    let mut cache = ToolSelectionCache::new(ttl(60), 10);
    assert_eq!(cache.normalize_query("  Find   THE\tFile \n"), "find the file");
    cache.add_at("Read the  FILE", "file_reader", conf(0.5), &empty_args(), 10);
    let hit = cache.get_at("read the file", 20).unwrap();
    assert_eq!(hit.0, "file_reader");
    assert_eq!(f64::from_bits(hit.1), 0.5);
}

#[test]
fn a_read_gives_back_the_arguments_written() {
    let mut cache = ToolSelectionCache::new(ttl(60), 10);
    let args = JsonValue::Array(vec![JsonValue::Number(JsonNumber::PosInt(3)), JsonValue::Bool(true)]);
    cache.add_at("q", "tool", conf(0.25), &args, 5);
    let (tool, c, got) = cache.get_at("q", 6).unwrap();
    assert_eq!(tool, "tool");
    assert_eq!(c, conf(0.25));
    assert_eq!(got, args);
}

#[test]
fn use_extends_the_life_of_an_entry() {
    let mut cache = ToolSelectionCache::new(ttl(1), 10);
    cache.add_at("q", "tool", conf(0.9), &empty_args(), 0);
    // used within the time to live: the clock of the entry restarts
    assert!(cache.get_at("q", ttl(1)).is_some());
    assert!(cache.get_at("q", ttl(2)).is_some());
    // an expired entry is dropped for good
    assert!(cache.get_at("q", ttl(4)).is_none());
    assert_eq!(cache.stats().total_entries, 0);
}

#[test]
fn adding_an_existing_query_replaces_it_without_eviction() {
    let mut cache = ToolSelectionCache::new(ttl(60), 2);
    cache.add_at("a", "t1", conf(0.1), &empty_args(), 1);
    cache.add_at("b", "t2", conf(0.2), &empty_args(), 2);
    cache.add_at("a", "t3", conf(0.3), &empty_args(), 3);
    assert_eq!(cache.stats().total_entries, 2);
    assert_eq!(cache.get_at("a", 4).unwrap().0, "t3");
    assert_eq!(cache.get_at("b", 4).unwrap().0, "t2");
}

#[test]
fn usage_is_counted_in_the_stats() {
    let mut cache = ToolSelectionCache::new(ttl(60), 10);
    cache.add_at("a", "t1", conf(0.1), &empty_args(), 1);
    cache.add_at("b", "t2", conf(0.2), &empty_args(), 1);
    cache.get_at("a", 2);
    cache.get_at("a", 3);
    // one use each on insertion, two more lookups of "a"
    assert_eq!(cache.stats().total_usage, 4);
}

#[test]
fn a_cache_without_room_keeps_nothing() {
    let mut cache = ToolSelectionCache::new(ttl(60), 0);
    cache.add_at("a", "t1", conf(0.1), &empty_args(), 1);
    assert_eq!(cache.stats().total_entries, 1);
    cache.add_at("b", "t2", conf(0.1), &empty_args(), 2);
    assert_eq!(cache.stats().total_entries, 1);
    assert!(cache.get_at("a", 3).is_none());
    assert!(cache.get_at("b", 3).is_some());
}

#[test]
fn a_selection_survives_operations_on_other_keys() {
    let mut cache = ToolSelectionCache::new(ttl(5), 3);
    let t0: u64 = 1_000;
    let args = JsonValue::Object(vec![("path".to_string(), JsonValue::String("/tmp".to_string()))]);
    cache.add_at("List  Files", "list_dir", conf(0.9), &args, t0);
    cache.add_at("read file", "read_file", conf(0.7), &empty_args(), t0 + 1);
    assert!(cache.get_at("read file", t0 + 2).is_some());
    cache.add_at("search", "grep", conf(0.5), &empty_args(), t0 + 3);
    cache.remove_tool_entries("read_file");
    cache.add_at("write file", "write_file", conf(0.6), &empty_args(), t0 + 4);
    let found = cache.get_at(" list files ", t0 + 5);
    assert_eq!(found, Some(("list_dir".to_string(), conf(0.9), args)));
}
