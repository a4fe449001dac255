use shutup::{HookId, Registry, ShutUp};

fn runtime() -> tokio::runtime::Runtime {
    tokio::runtime::Builder::new_current_thread().build().unwrap()
}

#[test]
fn fresh_handle_is_open_and_shut_handle_is_off() {
    let mut reg = Registry::new();
    let h = ShutUp::new(&mut reg);
    assert!(!h.off(&reg));
    let ran = h.shut(&mut reg);
    assert!(ran.is_empty());
    assert!(h.off(&reg));
}

#[test]
fn new_handles_hang_under_the_process_root() {
    let mut reg = Registry::new();
    let a = ShutUp::new(&mut reg);
    let b = ShutUp::new(&mut reg);
    assert_eq!(a.id, 1);
    assert_eq!(b.id, 2);
    assert_eq!(reg.len(), 3);
    ShutUp::process_root().shut(&mut reg);
    assert!(a.off(&reg));
    assert!(b.off(&reg));
}

#[test]
fn root_shut_reaches_all_children() {
    let mut reg = Registry::new();
    let r = ShutUp::root(&mut reg);
    let c1 = r.child(&mut reg);
    let c2 = r.child(&mut reg);
    let c3 = r.child(&mut reg);
    r.shut(&mut reg);
    assert!(c1.off(&reg) && c2.off(&reg) && c3.off(&reg));
    assert!(r.off(&reg));
}

#[test]
fn shut_propagates_through_depth() {
    let mut reg = Registry::new();
    let p = ShutUp::root(&mut reg);
    let mut chain = vec![p];
    for _ in 0..10 {
        let last = *chain.last().unwrap();
        chain.push(last.child(&mut reg));
    }
    p.shut(&mut reg);
    assert!(chain.iter().all(|h| h.off(&reg)));
}

#[test]
fn child_shut_does_not_reach_parent_or_sibling() {
    let mut reg = Registry::new();
    let p = ShutUp::root(&mut reg);
    let c1 = p.child(&mut reg);
    let c2 = p.child(&mut reg);
    assert!(!p.register_hook(&mut reg, 1));
    c1.shut(&mut reg);
    assert!(c1.off(&reg));
    assert!(!p.off(&reg));
    assert!(!c2.off(&reg));
}

#[test]
fn hook_runs_once_over_two_shuts() {
    let mut reg = Registry::new();
    let h = ShutUp::root(&mut reg);
    let mut log: Vec<&str> = Vec::new();
    let id: HookId = 42;
    assert!(!h.register_hook(&mut reg, id));
    for ran in [h.shut(&mut reg), h.shut(&mut reg)] {
        for hook in ran {
            if hook == id {
                log.push("ran");
            }
        }
    }
    assert_eq!(log, vec!["ran"]);
}

#[test]
fn hooks_run_children_first_then_own_in_order() {
    let mut reg = Registry::new();
    let p = ShutUp::root(&mut reg);
    let c = p.child(&mut reg);
    let g = c.child(&mut reg);
    p.register_hook(&mut reg, 10);
    p.register_hook(&mut reg, 11);
    c.register_hook(&mut reg, 20);
    g.register_hook(&mut reg, 30);
    assert_eq!(p.shut(&mut reg), vec![30, 20, 10, 11]);
}

#[test]
fn hooks_of_unrelated_handle_do_not_run() {
    let mut reg = Registry::new();
    let h = ShutUp::root(&mut reg);
    let other = ShutUp::root(&mut reg);
    let c = h.child(&mut reg);
    h.register_hook(&mut reg, 1);
    c.register_hook(&mut reg, 2);
    assert!(other.shut(&mut reg).is_empty());
    assert_eq!(c.shut(&mut reg), vec![2]);
    assert!(!h.off(&reg));
    assert_eq!(h.shut(&mut reg), vec![1]);
}

#[test]
fn hook_registered_after_shut_runs_at_once() {
    let mut reg = Registry::new();
    let h = ShutUp::root(&mut reg);
    h.shut(&mut reg);
    assert!(h.register_hook(&mut reg, 5));
    assert!(h.shut(&mut reg).is_empty());
}

#[test]
fn adopted_handle_is_shut_by_parent() {
    let mut reg = Registry::new();
    let p = ShutUp::root(&mut reg);
    let x = ShutUp::root(&mut reg);
    p.adopt(&mut reg, &x);
    assert!(!x.off(&reg));
    p.shut(&mut reg);
    assert!(x.off(&reg));
}

#[test]
fn handle_adopted_twice_is_shut_once() {
    let mut reg = Registry::new();
    let pa = ShutUp::root(&mut reg);
    let pb = ShutUp::root(&mut reg);
    let x = ShutUp::root(&mut reg);
    pa.adopt(&mut reg, &x);
    pb.adopt(&mut reg, &x);
    x.register_hook(&mut reg, 9);
    assert_eq!(pa.shut(&mut reg), vec![9]);
    assert!(x.off(&reg));
    assert!(!pb.off(&reg));
    assert!(pb.shut(&mut reg).is_empty());
    assert!(x.off(&reg));
}

#[test]
fn diamond_shuts_shared_child_once() {
    let mut reg = Registry::new();
    let top = ShutUp::root(&mut reg);
    let l = top.child(&mut reg);
    let r = top.child(&mut reg);
    let bottom = l.child(&mut reg);
    r.adopt(&mut reg, &bottom);
    bottom.register_hook(&mut reg, 3);
    assert_eq!(top.shut(&mut reg), vec![3]);
}

#[test]
fn five_waiters_all_complete_after_shut() {
    let rt = runtime();
    let mut reg = Registry::new();
    let h = ShutUp::new(&mut reg);
    let mut rxs = Vec::new();
    for _ in 0..5 {
        rxs.push(h.wait(&mut reg).unwrap());
    }
    for rx in rxs.iter_mut() {
        assert!(rx.try_recv().is_err());
    }
    let tasks: Vec<_> = rxs
        .into_iter()
        .map(|mut rx| rt.spawn(async move { rx.recv().await.is_ok() }))
        .collect();
    h.shut(&mut reg);
    let done = rt.block_on(async move {
        let mut n = 0;
        for t in tasks {
            if t.await.unwrap() {
                n += 1;
            }
        }
        n
    });
    assert_eq!(done, 5);
}

#[test]
fn waiter_is_not_released_by_another_handle() {
    let mut reg = Registry::new();
    let h = ShutUp::root(&mut reg);
    let other = ShutUp::root(&mut reg);
    let mut rx = h.wait(&mut reg).unwrap();
    other.shut(&mut reg);
    assert!(rx.try_recv().is_err());
    h.shut(&mut reg);
    assert!(rx.try_recv().is_ok());
}

#[test]
fn child_waiter_is_released_by_parent_shut() {
    let mut reg = Registry::new();
    let p = ShutUp::root(&mut reg);
    let c = p.child(&mut reg);
    let mut rx = c.wait(&mut reg).unwrap();
    p.shut(&mut reg);
    assert!(rx.try_recv().is_ok());
}

#[test]
fn wait_after_shut_resolves_immediately() {
    let mut reg = Registry::new();
    let h = ShutUp::root(&mut reg);
    h.shut(&mut reg);
    assert!(h.wait(&mut reg).is_none());
}

#[test]
fn wait_counts_listeners_only_while_open() {
    let mut reg = Registry::new();
    let h = ShutUp::root(&mut reg);
    assert_eq!(reg.listener_count(h.id), 0);
    let _a = h.wait(&mut reg).unwrap();
    let _b = h.wait(&mut reg).unwrap();
    assert_eq!(reg.listener_count(h.id), 2);
    h.shut(&mut reg);
    assert!(h.wait(&mut reg).is_none());
    assert_eq!(reg.listener_count(h.id), 2);
}

#[test]
fn fresh_registry_holds_only_the_process_root() {
    let mut reg = Registry::new();
    assert_eq!(reg.len(), 1);
    let root = ShutUp::process_root();
    assert_eq!(root.id, 0);
    assert!(!root.off(&reg));
    let h = ShutUp::root(&mut reg);
    assert_eq!(h.id, 1);
    root.shut(&mut reg);
    assert!(!h.off(&reg));
}

#[test]
fn each_registration_runs_once() {
    let mut reg = Registry::new();
    let h = ShutUp::root(&mut reg);
    let c = h.child(&mut reg);
    h.register_hook(&mut reg, 7);
    h.register_hook(&mut reg, 7);
    c.register_hook(&mut reg, 7);
    let ran = h.shut(&mut reg);
    assert_eq!(ran, vec![7, 7, 7]);
    assert!(h.shut(&mut reg).is_empty());
    assert!(c.shut(&mut reg).is_empty());
}
