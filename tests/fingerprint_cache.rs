use cuenv_tasks::cache::{encode_meta, entry_dir, lookup, parse_meta, stale_entries, CacheMeta};
use cuenv_tasks::dispatch::{unit_action, UnitAction};
use cuenv_tasks::fingerprint::{content_digest, input_digest, decimal_string, env_value, fingerprint, preimage_text, record_text, refers_to, chars_of, InputFile};
use cuenv_tasks::order::{less_than, sorted_unique};
use cuenv_tasks::task::TaskConfig;

fn cached_task(command: &str) -> TaskConfig {
    let mut t = TaskConfig::with_command(command.to_string());
    t.inputs = Some(vec!["f.txt".to_string()]);
    t.cache = Some(true);
    t
}

fn file(path: &str, size: u64, digest: &str) -> InputFile {
    InputFile { path: path.to_string(), size, digest: digest.to_string() }
}

fn env(pairs: &[(&str, &str)]) -> Vec<(String, String)> {
    pairs.iter().map(|(a, b)| (a.to_string(), b.to_string())).collect()
}

fn key(t: &TaskConfig, e: &Vec<(String, String)>, files: &Vec<InputFile>) -> String {
    fingerprint(&"t".to_string(), t, e, files, &"/work".to_string())
}

#[test]
fn decimal_digits() {
    assert_eq!(decimal_string(0), "0");
    assert_eq!(decimal_string(7), "7");
    assert_eq!(decimal_string(1234567890), "1234567890");
    assert_eq!(decimal_string(u64::MAX), u64::MAX.to_string());
}

#[test]
fn sorting_texts() {
    assert!(less_than("a", "b"));
    assert!(less_than("a", "ab"));
    assert!(!less_than("b", "ab"));
    assert!(!less_than("x", "x"));
    let v = vec!["b".to_string(), "a".to_string(), "b".to_string(), "".to_string()];
    assert_eq!(sorted_unique(&v), vec!["", "a", "b"]);
}

#[test]
fn variable_references() {
    let text = chars_of("echo $HOME ${USER}x $PATHX $");
    assert!(refers_to(&text, &chars_of("HOME")));
    assert!(refers_to(&text, &chars_of("USER")));
    assert!(refers_to(&text, &chars_of("PATHX")));
    assert!(!refers_to(&text, &chars_of("PATH")));
    assert!(!refers_to(&text, &chars_of("echo")));
    assert!(!refers_to(&text, &chars_of("")));
}

#[test]
fn preimage_layout() {
    let t = TaskConfig::with_command("echo $A".to_string());
    let text = preimage_text(&"t".to_string(), &t, &env(&[("A", "1"), ("B", "2")]), &vec![], &"/w".to_string());
    assert_eq!(text, "1:t+7:echo $A------0#1#1:A1:12:/w");
}

#[test]
fn preimage_sorts_lists_and_files() {
    let mut t = TaskConfig::with_command("c".to_string());
    t.inputs = Some(vec!["b".to_string(), "a".to_string(), "b".to_string()]);
    t.timeout = Some(30);
    let files = vec![file("b", 2, "d2"), file("a", 10, "d1")];
    let text = preimage_text(&"n".to_string(), &t, &vec![], &files, &"/w".to_string());
    assert_eq!(text, "1:n+1:c---+2#1:a1:b-+2:302#1:a2:102:d11:b1:22:d20#2:/w");
}

#[test]
fn same_inputs_same_fingerprint() {
    let t = cached_task("touch out");
    let files = vec![file("f.txt", 5, "abc")];
    let e = env(&[("HOME", "/root")]);
    let k1 = key(&t, &e, &files);
    let k2 = key(&t, &e, &files);
    assert_eq!(k1, k2);
    assert_eq!(k1.len(), 64);
    assert!(k1.chars().all(|c| c.is_ascii_hexdigit()));
}

#[test]
fn changed_input_changes_fingerprint() {
    let t = cached_task("touch out");
    let e = env(&[]);
    let k1 = key(&t, &e, &vec![file("f.txt", 5, "abc")]);
    let k2 = key(&t, &e, &vec![file("f.txt", 5, "abd")]);
    let k3 = key(&t, &e, &vec![file("f.txt", 6, "abc")]);
    assert_ne!(k1, k2);
    assert_ne!(k1, k3);
}

#[test]
fn unreferenced_variable_ignored() {
    let t = cached_task("echo $NAME");
    let files = vec![file("f.txt", 5, "abc")];
    let k1 = key(&t, &env(&[("NAME", "x")]), &files);
    let k2 = key(&t, &env(&[("NAME", "x"), ("OTHER", "y")]), &files);
    let k3 = key(&t, &env(&[("NAME", "z")]), &files);
    assert_eq!(k1, k2);
    assert_ne!(k1, k3);
}

#[test]
fn explicit_cache_key_used() {
    let mut t = cached_task("x");
    t.cache_key = Some("pinned".to_string());
    assert_eq!(key(&t, &vec![], &vec![]), "pinned");
}

#[test]
fn lookups_take_last() {
    let e = env(&[("A", "1"), ("A", "2")]);
    assert_eq!(env_value(&e, &"A".to_string()), "2");
    assert_eq!(env_value(&e, &"B".to_string()), "");
    let files = vec![file("p", 1, "x"), file("p", 3, "y")];
    assert_eq!(record_text(&files, &"p".to_string()), "1:31:y");
    assert_eq!(record_text(&files, &"q".to_string()), "-");
}

fn meta(code: i32, digest: &str) -> CacheMeta {
    CacheMeta { exit_code: code, task_name: "t".to_string(), timestamp: 1700000000, input_digest: digest.to_string() }
}

#[test]
fn meta_round_trip() {
    for code in [0, 1, -1, 255, i32::MIN, i32::MAX] {
        let m = meta(code, "d1");
        let text = encode_meta(&m);
        let back = parse_meta(&text).unwrap();
        assert_eq!(back.exit_code, code);
        assert_eq!(back.task_name, "t");
        assert_eq!(back.timestamp, 1700000000);
        assert_eq!(back.input_digest, "d1");
    }
    assert_eq!(encode_meta(&meta(-1, "d")), "1:t1:d10:17000000002:-1");
}

#[test]
fn malformed_meta_is_miss() {
    assert!(parse_meta(&"".to_string()).is_none());
    assert!(parse_meta(&"1:t1:d".to_string()).is_none());
    assert!(parse_meta(&"1:t1:d1:x1:0".to_string()).is_none());
    assert!(parse_meta(&"1:t1:d1:51:0extra".to_string()).is_none());
    assert!(lookup(&None, &"d".to_string()).is_none());
    assert!(parse_meta(&"1:t1:d2:051:0".to_string()).is_none());
    assert!(parse_meta(&"1:t1:d1:52:-0".to_string()).is_none());
    assert!(parse_meta(&"01:t1:d1:51:0".to_string()).is_none());
    assert!(parse_meta(&"1:t1:d1:51:0".to_string()).is_some());
    let stored = encode_meta(&meta(0, "old"));
    assert!(lookup(&Some(stored.clone()), &"new".to_string()).is_none());
    assert_eq!(lookup(&Some(stored), &"old".to_string()).unwrap().input_digest, "old");
}

#[test]
fn cache_hit_second_run() {
    let t = cached_task("touch out");
    let files = vec![file("f.txt", 5, "abc")];
    let k1 = key(&t, &vec![], &files);
    let stored = encode_meta(&meta(0, &k1));
    let k2 = key(&t, &vec![], &files);
    assert_eq!(k1, k2);
    let hit = lookup(&Some(stored), &k2);
    assert!(hit.is_some());
    assert_eq!(hit.unwrap().exit_code, 0);
    assert!(matches!(unit_action(&t, true), UnitAction::UseCached));
}

#[test]
fn cache_miss_after_input_change() {
    let t = cached_task("touch out");
    let k1 = key(&t, &vec![], &vec![file("f.txt", 5, "abc")]);
    let stored = encode_meta(&meta(0, &k1));
    let k2 = key(&t, &vec![], &vec![file("f.txt", 5, "changed")]);
    assert_ne!(k1, k2);
    assert!(lookup(&Some(stored), &k2).is_none());
    assert!(matches!(unit_action(&t, false), UnitAction::Run));
}

#[test]
fn entry_layout() {
    assert_eq!(entry_dir(&"/cache".to_string(), &"abcdef".to_string()), "/cache/ab/cdef");
    assert_eq!(entry_dir(&"/cache".to_string(), &"a".to_string()), "/cache/a/");
}

#[test]
fn stale_by_age_and_size() {
    let entries = vec![(100, 10), (900, 10), (500, 10), (950, 10)];
    assert_eq!(stale_entries(&entries, 1000, 600, 1000), vec![true, false, false, false]);
    assert_eq!(stale_entries(&entries, 1000, 600, 15), vec![true, true, true, false]);
    assert_eq!(stale_entries(&entries, 1000, 600, 25), vec![true, false, true, false]);
    assert_eq!(stale_entries(&entries, 1000, 10_000, 0), vec![true, true, true, true]);
    assert!(stale_entries(&vec![], 0, 0, 0).is_empty());
}

#[test]
fn content_and_input_digests() {
    assert_eq!(content_digest(b"abc"), "ba7816bf8f01cfea414140de5dae2223b00361a396177a9cb410ff61f20015ad");
    let a = input_digest(&vec![file("f.txt", 3, "x")]);
    let b = input_digest(&vec![file("f.txt", 3, "y")]);
    assert_eq!(a.len(), 64);
    assert_ne!(a, b);
    assert_eq!(input_digest(&vec![file("a", 1, "p"), file("b", 2, "q")]), input_digest(&vec![file("b", 2, "q"), file("a", 1, "p")]));
}
