use agent_mem_db::{episode_from_line, episode_to_line, AgentMemDB, Episode, EpisodeStep};

fn make_episode(dim: usize, reward: i64) -> Episode {
    let mut ep = Episode::new("persist_test", vec![200; dim], reward);
    ep.metadata = Some("{\"test\":true}".to_string());
    ep
}

fn assert_episodes_equal(a: &Episode, b: &Episode) {
    assert_eq!(a.id, b.id);
    assert_eq!(a.task_id, b.task_id);
    assert_eq!(a.state_embedding, b.state_embedding);
    assert_eq!(a.reward, b.reward);
    assert_eq!(a.metadata, b.metadata);
    assert_eq!(a.timestamp, b.timestamp);
    assert_eq!(a.tags, b.tags);
    assert_eq!(a.source, b.source);
    assert_eq!(a.user_id, b.user_id);
    match (&a.steps, &b.steps) {
        (None, None) => {},
        (Some(x), Some(y)) => {
            assert_eq!(x.len(), y.len());
            for i in 0..x.len() {
                assert_eq!(x[i].index, y[i].index);
                assert_eq!(x[i].action, y[i].action);
                assert_eq!(x[i].observation, y[i].observation);
                assert_eq!(x[i].step_reward, y[i].step_reward);
            }
        },
        _ => panic!("steps differ"),
    }
}

#[test]
fn test_save_and_load_roundtrip() {
    let dim = 8;
    let mut db = AgentMemDB::new(dim);
    let ep1 = make_episode(dim, 600);
    let ep2 = make_episode(dim, 900);
    db.store_episode(ep1.clone()).unwrap();
    db.store_episode(ep2.clone()).unwrap();
    let query = vec![200; dim];
    let orig_results = db.query_similar(&query, 500, 2).unwrap();
    let saved = db.to_json();
    let db2 = AgentMemDB::from_json(&saved, false).unwrap();
    let loaded_results = db2.query_similar(&query, 500, 2).unwrap();
    assert_eq!(orig_results.len(), loaded_results.len());
    let orig_ids: Vec<u128> = orig_results.iter().map(|ep| ep.id).collect();
    for ep in &loaded_results {
        assert!(orig_ids.contains(&ep.id));
    }
}

#[test]
fn test_load_corrupted_text() {
    let res = AgentMemDB::from_json("not a valid save document", false);
    assert!(res.is_err());
}

#[test]
fn test_save_load_save_byte_equal() {
    // save, load, save again: the two save documents are byte-identical
    let dim = 4;
    let mut db = AgentMemDB::new_exact(dim);
    let mut ep = Episode::with_timestamp("round \"trip\"\n", vec![-5, 0, 7, 2_000_000], -250, 77);
    ep.tags = Some(vec!["a\ttag".to_string(), "".to_string()]);
    ep.source = Some("api".to_string());
    ep.steps = Some(vec![EpisodeStep {
        index: 3,
        action: "move\\north".to_string(),
        observation: "saw a \u{1F980} crab".to_string(),
        step_reward: -1,
    }]);
    db.store_episode(ep).unwrap();
    db.store_episode(make_episode(dim, 450)).unwrap();
    let first = db.to_json();
    let reloaded = AgentMemDB::from_json(&first, true).unwrap();
    let second = reloaded.to_json();
    assert_eq!(first, second);
}

#[test]
fn test_episode_line_roundtrip() {
    let mut ep = Episode::with_user_id("task with spaces", vec![1, -2, 3], 0, "user-1");
    ep.metadata = Some("{\"k\":[1,2]}".to_string());
    ep.timestamp = Some(-42);
    ep.tags = Some(vec!["quote\"inside".to_string(), "bs\\inside".to_string()]);
    ep.steps = Some(vec![
        EpisodeStep {
            index: 0,
            action: "a".to_string(),
            observation: "o".to_string(),
            step_reward: 5,
        },
        EpisodeStep {
            index: 1,
            action: "control\u{1}char".to_string(),
            observation: "".to_string(),
            step_reward: -5,
        },
    ]);
    let line = episode_to_line(&ep);
    let back = episode_from_line(&line).expect("own line parses");
    assert_episodes_equal(&ep, &back);
    // and the re-encoded line is byte-identical
    assert_eq!(episode_to_line(&back), line);
}

#[test]
fn test_episode_line_rejects_garbage() {
    assert!(episode_from_line("").is_none());
    assert!(episode_from_line("{\"id\":oops").is_none());
    assert!(episode_from_line("not json at all").is_none());
}

#[test]
fn test_exact_query_set_preserved_by_save_load() {
    // exact backend: after save and load, the same query returns the
    // same episode ids
    let dim = 3;
    let mut db = AgentMemDB::new_exact(dim);
    for k in 0..10i64 {
        let emb = vec![k as i32 * 10, 5, -k as i32];
        db.store_episode(Episode::new("t", emb, k * 100 - 500)).unwrap();
    }
    let query = vec![25, 5, -3];
    let before = db.query_similar(&query, -1000, 4).unwrap();
    let saved = db.to_json();
    let db2 = AgentMemDB::from_json(&saved, true).unwrap();
    let after = db2.query_similar(&query, -1000, 4).unwrap();
    assert_eq!(before.len(), after.len());
    let before_ids: Vec<u128> = before.iter().map(|e| e.id).collect();
    let after_ids: Vec<u128> = after.iter().map(|e| e.id).collect();
    for id in &before_ids {
        assert!(after_ids.contains(id));
    }
}
