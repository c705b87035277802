use offline_store::queue::{SyncJob, SyncQueue};

#[test]
fn sequential_adds_yield_strictly_increasing_ids() {
    let mut q = SyncQueue::new();
    let mut last = 0u64;
    for i in 0..5u64 {
        let id = q.add("op", "{}", None, None, i);
        assert!(id > last);
        last = id;
    }
    let listed = q.list(5);
    assert_eq!(listed.len(), 5);
    for w in listed.windows(2) {
        assert!(w[0].id < w[1].id);
    }
}

#[test]
fn list_is_ascending_and_bounded_by_limit() {
    let mut q = SyncQueue::new();
    for i in 0..4u64 {
        q.add("op", "{}", None, None, i);
    }
    let two = q.list(2);
    assert_eq!(two.iter().map(|j| j.id).collect::<Vec<_>>(), vec![1, 2]);
    let all = q.list(100);
    assert_eq!(all.iter().map(|j| j.id).collect::<Vec<_>>(), vec![1, 2, 3, 4]);
    assert_eq!(q.count(), 4);
}

#[test]
fn delete_removes_id_and_count_is_exact() {
    let mut q = SyncQueue::new();
    for i in 0..3u64 {
        q.add("op", "{}", None, None, i);
    }
    assert!(q.delete(2));
    assert!(!q.delete(2)); // already gone
    let ids: Vec<u64> = q.list(10).iter().map(|j| j.id).collect();
    assert!(!ids.contains(&2));
    assert_eq!(q.count(), 2);
}

#[test]
fn scenario_add_three_delete_middle() {
    let mut q = SyncQueue::new();
    assert_eq!(q.add("a", "{}", None, None, 1), 1);
    assert_eq!(q.add("b", "{}", None, None, 2), 2);
    assert_eq!(q.add("c", "{}", None, None, 3), 3);
    assert!(q.delete(2));
    let ids: Vec<u64> = q.list(10).iter().map(|j| j.id).collect();
    assert_eq!(ids, vec![1, 3]);
    assert_eq!(q.count(), 2);
}

#[test]
fn method_and_params_default_when_unspecified() {
    let mut q = SyncQueue::new();
    q.add("op", "{\"x\":1}", None, None, 9);
    q.add("op2", "{}", Some("PUT"), Some("{\"p\":2}"), 10);
    let jobs = q.list_default();
    assert_eq!(jobs[0].method, "POST");
    assert_eq!(jobs[0].params, "{}");
    assert_eq!(jobs[0].payload, "{\"x\":1}");
    assert_eq!(jobs[0].action, "op");
    assert_eq!(jobs[0].created_at, 9);
    assert_eq!(jobs[1].method, "PUT");
    assert_eq!(jobs[1].params, "{\"p\":2}");
}

#[test]
fn clear_empties_but_never_reuses_ids() {
    let mut q = SyncQueue::new();
    q.add("a", "{}", None, None, 1);
    q.add("b", "{}", None, None, 2);
    q.clear();
    assert_eq!(q.count(), 0);
    assert!(q.list(10).is_empty());
    let id = q.add("c", "{}", None, None, 3);
    assert_eq!(id, 3); // ids continue, none is reused
}

#[test]
fn peek_next_id_matches_what_add_assigns() {
    let mut q = SyncQueue::new();
    assert_eq!(q.peek_next_id(), 1);
    let id = q.add("a", "{}", None, None, 0);
    assert_eq!(id, 1);
    assert_eq!(q.peek_next_id(), 2);
}

#[test]
fn from_rows_restores_a_saved_queue() {
    let rows = vec![
        SyncJob {
            id: 2,
            action: "a".to_string(),
            method: "POST".to_string(),
            params: "{}".to_string(),
            payload: "{}".to_string(),
            created_at: 5,
        },
        SyncJob {
            id: 7,
            action: "b".to_string(),
            method: "PUT".to_string(),
            params: "{}".to_string(),
            payload: "{}".to_string(),
            created_at: 6,
        },
    ];
    let mut q = SyncQueue::from_rows(rows, 9).expect("a state the queue can reach");
    assert_eq!(q.count(), 2);
    let ids: Vec<u64> = q.list(10).iter().map(|j| j.id).collect();
    assert_eq!(ids, vec![2, 7]);
    assert_eq!(q.add("c", "{}", None, None, 7), 9);
}

#[test]
fn from_rows_rejects_states_the_queue_cannot_reach() {
    let job = |id: u64| SyncJob {
        id,
        action: "a".to_string(),
        method: "POST".to_string(),
        params: "{}".to_string(),
        payload: "{}".to_string(),
        created_at: 0,
    };
    assert!(SyncQueue::from_rows(vec![job(3), job(2)], 9).is_none()); // not ascending
    assert!(SyncQueue::from_rows(vec![job(3), job(3)], 9).is_none()); // duplicate id
    assert!(SyncQueue::from_rows(vec![job(3)], 3).is_none()); // id not below next
    assert!(SyncQueue::from_rows(vec![], 0).is_none()); // next id below 1
}
