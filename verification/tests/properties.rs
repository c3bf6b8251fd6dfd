use agent_mem_db::{AgentMemDB, Episode, QueryOptions};

fn ep_with(dim: usize, reward: i64, ts: i64) -> Episode {
    Episode::with_timestamp("p", vec![10; dim], reward, ts)
}

#[test]
fn test_counts_track_stored_episodes() {
    // storing n valid episodes leaves exactly n behind
    let dim = 4;
    let mut db = AgentMemDB::new_exact(dim);
    for k in 0..7i64 {
        db.store_episode(ep_with(dim, k, 1000 + k)).unwrap();
    }
    let all = db.query_similar(&vec![10; dim], -100, 100).unwrap();
    assert_eq!(all.len(), 7);
}

#[test]
fn test_result_never_exceeds_top_k() {
    let dim = 4;
    let mut db = AgentMemDB::new_exact(dim);
    for k in 0..9i64 {
        db.store_episode(ep_with(dim, 50, 1000 + k)).unwrap();
    }
    for top_k in 0..5 {
        let r = db.query_similar(&vec![10; dim], 0, top_k).unwrap();
        assert!(r.len() <= top_k);
    }
}

#[test]
fn test_results_satisfy_filters() {
    let dim = 4;
    let mut db = AgentMemDB::new_exact(dim);
    db.store_episode(Episode::with_source("a", vec![10; dim], 100, "api")).unwrap();
    db.store_episode(Episode::with_source("b", vec![10; dim], 900, "cli")).unwrap();
    db.store_episode(Episode::with_tags("c", vec![10; dim], 900, vec!["x".to_string()])).unwrap();
    let opts = QueryOptions::new(500, 10).source("cli");
    let r = db.query_similar_with_options(&vec![10; dim], opts).unwrap();
    for ep in &r {
        assert!(ep.reward >= 500);
        assert_eq!(ep.source.as_deref(), Some("cli"));
    }
    assert_eq!(r.len(), 1);
}

#[test]
fn test_top_k_zero_returns_empty() {
    let dim = 4;
    let mut db = AgentMemDB::new_exact(dim);
    db.store_episode(ep_with(dim, 10, 1)).unwrap();
    let r = db.query_similar(&vec![10; dim], -100, 0).unwrap();
    assert!(r.is_empty());
}

#[test]
fn test_empty_store_returns_empty() {
    let dim = 4;
    let db = AgentMemDB::new_exact(dim);
    let r = db.query_similar(&vec![10; dim], -100, 5).unwrap();
    assert!(r.is_empty());
    let db2 = AgentMemDB::new(dim);
    let r2 = db2.query_similar(&vec![10; dim], -100, 5).unwrap();
    assert!(r2.is_empty());
}

#[test]
fn test_unsatisfiable_filters_empty_not_error() {
    let dim = 4;
    let mut db = AgentMemDB::new_exact(dim);
    db.store_episode(ep_with(dim, 100, 1000)).unwrap();
    // time window that excludes everything, plus a tag nothing has
    let opts = QueryOptions::new(0, 5)
        .tags_any(vec!["missing".to_string()])
        .time_after(5000)
        .time_before(4000);
    let r = db.query_similar_with_options(&vec![10; dim], opts).unwrap();
    assert!(r.is_empty());
}

#[test]
fn test_min_reward_above_everything_empty() {
    let dim = 4;
    let mut db = AgentMemDB::new_exact(dim);
    db.store_episode(ep_with(dim, 100, 1)).unwrap();
    db.store_episode(ep_with(dim, 900, 2)).unwrap();
    let r = db.query_similar(&vec![10; dim], 901, 5).unwrap();
    assert!(r.is_empty());
}

#[test]
fn test_wrong_dimension_leaves_state_unchanged() {
    let dim = 4;
    let mut db = AgentMemDB::new_exact(dim);
    db.store_episode(ep_with(dim, 100, 1)).unwrap();
    assert!(db.store_episode(ep_with(dim + 2, 200, 2)).is_err());
    let r = db.query_similar(&vec![10; dim], -100, 10).unwrap();
    assert_eq!(r.len(), 1);
    assert_eq!(r[0].reward, 100);
}

#[test]
fn test_prune_keep_newest_noop_when_large_enough() {
    let dim = 4;
    let mut db = AgentMemDB::new_exact(dim);
    for k in 0..3i64 {
        db.store_episode(ep_with(dim, k, 1000 + k)).unwrap();
    }
    assert_eq!(db.prune_keep_newest(3), 0);
    assert_eq!(db.prune_keep_newest(10), 0);
    let r = db.query_similar(&vec![10; dim], -100, 10).unwrap();
    assert_eq!(r.len(), 3);
}

#[test]
fn test_prune_keep_newest_idempotent() {
    let dim = 4;
    let mut db = AgentMemDB::new_exact(dim);
    for k in 0..6i64 {
        db.store_episode(ep_with(dim, k, 1000 + k)).unwrap();
    }
    let removed_once = db.prune_keep_newest(2);
    assert_eq!(removed_once, 4);
    let after_once: Vec<i64> = db
        .query_similar(&vec![10; dim], -100, 10)
        .unwrap()
        .iter()
        .map(|e| e.timestamp.unwrap())
        .collect();
    let removed_twice = db.prune_keep_newest(2);
    assert_eq!(removed_twice, 0);
    let after_twice: Vec<i64> = db
        .query_similar(&vec![10; dim], -100, 10)
        .unwrap()
        .iter()
        .map(|e| e.timestamp.unwrap())
        .collect();
    assert_eq!(after_once, after_twice);
    assert!(after_once.contains(&1004));
    assert!(after_once.contains(&1005));
}

#[test]
fn test_prune_survivors_satisfy_predicate() {
    let dim = 4;
    let mut db = AgentMemDB::new_exact(dim);
    for k in 0..6i64 {
        db.store_episode(ep_with(dim, k * 10, 1000 + k)).unwrap();
    }
    let before = 6;
    let removed = db.prune_older_than(1003);
    let survivors = db.query_similar(&vec![10; dim], -100, 10).unwrap();
    assert!(survivors.len() <= before);
    assert_eq!(removed + survivors.len(), before);
    for ep in &survivors {
        assert!(ep.timestamp.unwrap() >= 1003);
    }
}

#[test]
fn test_nearest_neighbour_ordering() {
    // dim=8 scenario: two distinct embeddings, the closer one first
    let dim = 2;
    let mut db = AgentMemDB::new_exact(dim);
    db.store_episode(Episode::new("near", vec![10, 10], 0)).unwrap();
    db.store_episode(Episode::new("far", vec![100, 100], 0)).unwrap();
    let r = db.query_similar(&vec![12, 12], -100, 2).unwrap();
    assert_eq!(r.len(), 2);
    assert_eq!(r[0].task_id, "near");
    assert_eq!(r[1].task_id, "far");
}

#[test]
fn test_batch_store_fail_fast() {
    let dim = 3;
    let mut db = AgentMemDB::new_exact(dim);
    let good = Episode::new("g", vec![1; dim], 5);
    let bad = Episode::new("b", vec![1; dim + 1], 5);
    let never = Episode::new("n", vec![1; dim], 5);
    assert!(db.store_episodes(vec![good, bad, never]).is_err());
    // the episode before the failure is present, the one after is not
    let r = db.query_similar(&vec![1; dim], -100, 10).unwrap();
    assert_eq!(r.len(), 1);
    assert_eq!(r[0].task_id, "g");
}

#[test]
fn test_query_batch_matches_single_queries() {
    let dim = 3;
    let mut db = AgentMemDB::new_exact(dim);
    for k in 0..4i64 {
        db.store_episode(ep_with(dim, k, k)).unwrap();
    }
    let queries = vec![vec![10; dim], vec![0; dim]];
    let batched = db.query_similar_batch(&queries, -100, 2).unwrap();
    assert_eq!(batched.len(), 2);
    for (q, expected) in queries.iter().zip(batched.iter()) {
        let single = db.query_similar(q, -100, 2).unwrap();
        assert_eq!(single.len(), expected.len());
        for (a, b) in single.iter().zip(expected.iter()) {
            assert_eq!(a.id, b.id);
        }
    }
}

#[test]
fn test_capacity_failure_leaves_state() {
    let dim = 2;
    let mut db = AgentMemDB::new_with_max_elements(dim, 2);
    db.store_episode(ep_with(dim, 1, 1)).unwrap();
    db.store_episode(ep_with(dim, 2, 2)).unwrap();
    assert!(db.store_episode(ep_with(dim, 3, 3)).is_err());
    let r = db.query_similar(&vec![10; dim], -100, 10).unwrap();
    assert_eq!(r.len(), 2);
}

#[test]
fn test_error_messages() {
    let e = agent_mem_db::AgentMemError::DimensionMismatch { expected: 8, got: 9 };
    assert_eq!(e.message(), "Embedding dimension mismatch: expected 8, got 9");
    let e = agent_mem_db::AgentMemError::HnswError("boom".to_string());
    assert_eq!(e.message(), "HNSW or IO error: boom");
    let e = agent_mem_db::AgentMemError::NotFound;
    assert_eq!(e.message(), "Episode not found");
}

#[test]
fn test_episode_line_shape() {
    // the log line is the documented JSON object, with the id in
    // canonical hyphenated UUID form
    let mut ep = agent_mem_db::Episode::new("t", vec![1, 2], -3);
    ep.id = 0x0123456789abcdef0123456789abcdefu128;
    let line = agent_mem_db::episode_to_line(&ep);
    assert_eq!(
        line,
        "{\"id\":\"01234567-89ab-cdef-0123-456789abcdef\",\"task_id\":\"t\",\
         \"state_embedding\":[1,2],\"reward\":-3,\"metadata\":null,\"steps\":null,\
         \"timestamp\":null,\"tags\":null,\"source\":null,\"user_id\":null}"
    );
}
