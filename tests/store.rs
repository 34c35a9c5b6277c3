use git_status_tracker::retry::{OpenRetry, OpenStep, MAX_OPEN_ATTEMPTS};
use git_status_tracker::store::{put_status, status_lines, Database, PutError};
use git_status_tracker::codec::ParseError;

fn fresh_db(name: &str) -> Database {
    let nanos = std::time::SystemTime::now()
        .duration_since(std::time::UNIX_EPOCH)
        .unwrap()
        .as_nanos();
    let path = format!("/tmp/git_status_tracker_{}_{}", name, nanos);
    Database::new(&path).unwrap()
}

#[test]
fn put_then_get_gives_lines() {
    let mut db = fresh_db("put_get");
    put_status(&mut db, "/home/u/proj", "main", "2 M|1 ??").unwrap();
    let s = db.get("/home/u/proj").unwrap();
    let (branch, states) = status_lines(&s);
    assert_eq!(branch, "main");
    assert_eq!(states, "1 ?? | 2 M ");
    assert_eq!(s.path, "/home/u/proj");
}

#[test]
fn put_with_trailing_separator_gets_same_record() {
    let mut db = fresh_db("trailing");
    put_status(&mut db, "/home/u/proj/", "main", "2 M|1 ??").unwrap();
    let s = db.get("/home/u/proj").unwrap();
    let (branch, states) = status_lines(&s);
    assert_eq!(branch, "main");
    assert_eq!(states, "1 ?? | 2 M ");
    let t = db.get("/home/u/proj/").unwrap();
    assert_eq!(status_lines(&t), (branch, states));
}

#[test]
fn get_unknown_is_empty() {
    let db = fresh_db("unknown");
    let s = db.get("/unknown").unwrap();
    let (branch, states) = status_lines(&s);
    assert_eq!(branch, "");
    assert_eq!(states, "");
    assert_eq!(s.path, "/unknown");
}

#[test]
fn second_put_overwrites() {
    let mut db = fresh_db("overwrite");
    put_status(&mut db, "/p", "main", "2 M|1 ??").unwrap();
    put_status(&mut db, "/p/", " dev ", "5 A").unwrap();
    let s = db.get("/p").unwrap();
    assert_eq!(status_lines(&s), ("dev".to_string(), "5 A ".to_string()));
    assert_eq!(s.git_status.get("M"), None);
}

#[test]
fn list_after_two_puts_has_two_records() {
    let mut db = fresh_db("list");
    put_status(&mut db, "/a", "main", "1 M").unwrap();
    put_status(&mut db, "/b", "dev", "").unwrap();
    let all = db.list().unwrap();
    assert_eq!(all.len(), 2);
    let mut paths: Vec<String> = all.iter().map(|s| s.path.clone()).collect();
    paths.sort();
    assert_eq!(paths, vec!["/a".to_string(), "/b".to_string()]);
}

#[test]
fn put_malformed_status_stores_nothing() {
    let mut db = fresh_db("malformed");
    match put_status(&mut db, "/p", "main", "X M") {
        Err(PutError::Parse(e)) => assert_eq!(e, ParseError::InvalidCount),
        other => panic!("unexpected {:?}", other),
    }
    assert_eq!(db.list().unwrap().len(), 0);
}

#[test]
fn open_gives_up_after_bound() {
    let mut r = OpenRetry::new(MAX_OPEN_ATTEMPTS);
    let mut attempts = 0;
    loop {
        attempts += 1;
        if r.after_failure() == OpenStep::GiveUp {
            break;
        }
    }
    assert_eq!(attempts, 10);
}

#[test]
fn put_trims_whole_raw_status() {
    let mut db = fresh_db("trim_raw");
    put_status(&mut db, "/t", "main", "\t1 M\tX|2 A\n").unwrap();
    let s = db.get("/t").unwrap();
    assert_eq!(status_lines(&s).1, "2 A | 1 M\tX ");
}

#[test]
fn open_attempt_on_free_store_keeps_count() {
    let nanos = std::time::SystemTime::now()
        .duration_since(std::time::UNIX_EPOCH)
        .unwrap()
        .as_nanos();
    let path = format!("/tmp/git_status_tracker_open_{}", nanos);
    let mut r = OpenRetry::new(MAX_OPEN_ATTEMPTS);
    assert!(Database::open_attempt(&path, &mut r).is_ok());
    assert_eq!(r.attempts, 0);
}
