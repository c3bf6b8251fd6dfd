use agent_mem_db::{AgentMemDBDisk, DiskOptions, Episode};

// These tests drive the disk store's verified core directly: the lines
// it hands out for appending stand in for the log file, and the
// documents the checkpoint plan produces stand in for the files the
// caller writes.

fn make_episode(dim: usize, reward: i64) -> Episode {
    let mut ep = Episode::new("test_task", vec![100; dim], reward);
    ep.metadata = Some("{}".to_string());
    ep
}

fn store(db: &mut AgentMemDBDisk, log: &mut Vec<String>, ep: Episode) {
    let line = db.prepare_store(&ep).unwrap();
    log.push(line);
    db.apply_store(ep);
}

#[test]
fn test_disk_open_create_store_query() {
    let dim = 8;
    let (mut db, _meta) = AgentMemDBDisk::fresh(&DiskOptions::hnsw(dim, 20000));
    let mut log: Vec<String> = Vec::new();
    let ep = make_episode(dim, 700);
    let id = ep.id;
    store(&mut db, &mut log, ep);

    let query = vec![100; dim];
    let results = db.query_similar(&query, 500, 1).unwrap();
    assert_eq!(results.len(), 1);
    assert_eq!(results[0].id, id);
}

#[test]
fn test_disk_reload_persists() {
    let dim = 8;
    let (mut db, _meta) = AgentMemDBDisk::fresh(&DiskOptions::hnsw(dim, 20000));
    let mut log: Vec<String> = Vec::new();
    store(&mut db, &mut log, make_episode(dim, 900));
    drop(db);

    // reopen: replay the appended log lines
    let db2 = AgentMemDBDisk::replay(dim, false, 20000, false, &log).unwrap();
    let results = db2.query_similar(&vec![100; dim], 500, 5).unwrap();
    assert_eq!(results.len(), 1);
    assert!(results[0].reward >= 500);
}

#[test]
fn test_disk_prune_older_than() {
    let dim = 8;
    let (mut db, _meta) = AgentMemDBDisk::fresh(&DiskOptions::hnsw(dim, 20000));
    let mut log: Vec<String> = Vec::new();
    store(&mut db, &mut log, Episode::with_timestamp("old", vec![100; dim], 900, 1000));
    store(&mut db, &mut log, Episode::with_timestamp("new", vec![100; dim], 800, 3000));
    let (removed, rewritten) = db.prune_older_than(2000);
    assert_eq!(removed, 1);
    let log = rewritten.expect("log was compacted");
    drop(db);

    let db2 = AgentMemDBDisk::replay(dim, false, 20000, false, &log).unwrap();
    let results = db2.query_similar(&vec![100; dim], 0, 5).unwrap();
    assert_eq!(results.len(), 1);
    assert_eq!(results[0].task_id, "new");
}

#[test]
fn test_disk_prune_keep_newest() {
    let dim = 8;
    let (mut db, _meta) = AgentMemDBDisk::fresh(&DiskOptions::hnsw(dim, 20000));
    let mut log: Vec<String> = Vec::new();
    store(&mut db, &mut log, Episode::with_timestamp("a", vec![100; dim], 900, 1000));
    store(&mut db, &mut log, Episode::with_timestamp("b", vec![100; dim], 800, 2000));
    store(&mut db, &mut log, Episode::with_timestamp("c", vec![100; dim], 700, 3000));
    let (removed, rewritten) = db.prune_keep_newest(2);
    assert_eq!(removed, 1);
    let log = rewritten.expect("log was compacted");
    drop(db);

    let db2 = AgentMemDBDisk::replay(dim, false, 20000, false, &log).unwrap();
    let results = db2.query_similar(&vec![100; dim], 0, 5).unwrap();
    assert_eq!(results.len(), 2);
    let task_ids: Vec<&str> = results.iter().map(|e| e.task_id.as_str()).collect();
    assert!(task_ids.contains(&"b"));
    assert!(task_ids.contains(&"c"));
    assert!(!task_ids.contains(&"a"));
}

#[test]
fn test_disk_prune_keep_highest_reward() {
    let dim = 8;
    let (mut db, _meta) = AgentMemDBDisk::fresh(&DiskOptions::hnsw(dim, 20000));
    let mut log: Vec<String> = Vec::new();
    store(&mut db, &mut log, Episode::new("a", vec![100; dim], 300));
    store(&mut db, &mut log, Episode::new("b", vec![100; dim], 900));
    store(&mut db, &mut log, Episode::new("c", vec![100; dim], 500));
    let (removed, rewritten) = db.prune_keep_highest_reward(2);
    assert_eq!(removed, 1);
    let log = rewritten.expect("log was compacted");
    drop(db);

    let db2 = AgentMemDBDisk::replay(dim, false, 20000, false, &log).unwrap();
    let results = db2.query_similar(&vec![100; dim], 0, 5).unwrap();
    assert_eq!(results.len(), 2);
    let rewards: Vec<i64> = results.iter().map(|e| e.reward).collect();
    assert!(rewards.contains(&900));
    assert!(rewards.contains(&500));
    assert!(!rewards.contains(&300));
}

#[test]
fn test_disk_checkpoint_fast_restart() {
    let dim = 8;
    let (mut db, _meta) = AgentMemDBDisk::fresh(&DiskOptions::exact_with_checkpoint(dim));
    let mut log: Vec<String> = Vec::new();
    store(&mut db, &mut log, make_episode(dim, 700));
    store(&mut db, &mut log, make_episode(dim, 800));
    let (cp, _meta2) = db.checkpoint_plan(log.len()).expect("checkpoint written");
    drop(db);

    // reopen from the checkpoint, skipping replay
    let db2 = AgentMemDBDisk::from_checkpoint(dim, 0, true, &cp).unwrap();
    let results = db2.query_similar(&vec![100; dim], 500, 5).unwrap();
    assert_eq!(results.len(), 2);
    assert!(results.iter().all(|e| e.reward >= 500));
}

#[test]
fn test_disk_checkpoint_defers_on_count_mismatch() {
    let dim = 4;
    let (mut db, _meta) = AgentMemDBDisk::fresh(&DiskOptions::exact_with_checkpoint(dim));
    let mut log: Vec<String> = Vec::new();
    store(&mut db, &mut log, make_episode(dim, 100));
    // the log claims a different line count: the checkpoint defers
    assert!(db.checkpoint_plan(log.len() + 1).is_none());
    // and the bounded backend or disabled option never checkpoints
    let (db3, _m) = AgentMemDBDisk::fresh(&DiskOptions::hnsw(dim, 10));
    assert!(db3.checkpoint_plan(0).is_none());
}

#[test]
fn test_disk_checkpoint_reopen_checkpoint_unchanged() {
    // checkpoint, reopen from it, checkpoint again: same snapshot bytes
    let dim = 4;
    let (mut db, _meta) = AgentMemDBDisk::fresh(&DiskOptions::exact_with_checkpoint(dim));
    let mut log: Vec<String> = Vec::new();
    store(&mut db, &mut log, make_episode(dim, 100));
    store(&mut db, &mut log, make_episode(dim, 200));
    let (cp1, _m1) = db.checkpoint_plan(log.len()).unwrap();
    let db2 = AgentMemDBDisk::from_checkpoint(dim, 0, true, &cp1).unwrap();
    let (cp2, _m2) = db2.checkpoint_plan(log.len()).unwrap();
    assert_eq!(cp1, cp2);
}

#[test]
fn test_disk_replay_id_set_preserved() {
    // the in-memory episode-id set after reopen equals the set before
    let dim = 5;
    let (mut db, _meta) = AgentMemDBDisk::fresh(&DiskOptions::exact(dim));
    let mut log: Vec<String> = Vec::new();
    let mut ids: Vec<u128> = Vec::new();
    for k in 0..6i64 {
        let ep = Episode::with_timestamp("t", vec![k as i32; dim], k * 10, 1000 + k);
        ids.push(ep.id);
        store(&mut db, &mut log, ep);
    }
    drop(db);
    let db2 = AgentMemDBDisk::replay(dim, true, 0, false, &log).unwrap();
    let results = db2.query_similar(&vec![0; dim], -1000, 10).unwrap();
    assert_eq!(results.len(), 6);
    for ep in &results {
        assert!(ids.contains(&ep.id));
    }
}

#[test]
fn test_disk_replay_rejects_corrupt_line() {
    let dim = 3;
    let log = vec!["this is not an episode".to_string()];
    assert!(AgentMemDBDisk::replay(dim, true, 0, false, &log).is_err());
}

#[test]
fn test_disk_capacity_enforced() {
    let dim = 2;
    let (mut db, _meta) = AgentMemDBDisk::fresh(&DiskOptions::hnsw(dim, 1));
    let mut log: Vec<String> = Vec::new();
    store(&mut db, &mut log, make_episode(dim, 100));
    // a second insert exceeds the configured capacity
    assert!(db.prepare_store(&make_episode(dim, 200)).is_err());
}

#[test]
fn test_disk_prune_compacts_to_survivors() {
    // three timestamped episodes; prune away all but the newest: the
    // compacted log holds exactly one line and replaying it yields the
    // surviving episode, with no checkpoint plan outstanding
    let dim = 8;
    let (mut db, _meta) = AgentMemDBDisk::fresh(&DiskOptions::exact(dim));
    let mut log: Vec<String> = Vec::new();
    store(&mut db, &mut log, Episode::with_timestamp("e1", vec![100; dim], 100, 1000));
    store(&mut db, &mut log, Episode::with_timestamp("e2", vec![100; dim], 200, 2000));
    store(&mut db, &mut log, Episode::with_timestamp("e3", vec![100; dim], 300, 3000));
    let (removed, rewritten) = db.prune_older_than(2500);
    assert_eq!(removed, 2);
    let log = rewritten.expect("log was compacted");
    assert_eq!(log.len(), 1);
    let db2 = AgentMemDBDisk::replay(dim, true, 0, false, &log).unwrap();
    let results = db2.query_similar(&vec![100; dim], 0, 5).unwrap();
    assert_eq!(results.len(), 1);
    assert_eq!(results[0].timestamp, Some(3000));
}
