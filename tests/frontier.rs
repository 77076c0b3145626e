use lazyscan::frontier::{
    domain_key, init_queue, Drain, FileQueue, Frontier, MemoryDrain, MemoryQueue, Queue,
    QueueError,
};

fn s(x: &str) -> String {
    x.to_string()
}

fn drain_all(d: &mut MemoryDrain) -> Vec<String> {
    let mut out = Vec::new();
    while let Some(u) = d.pop() {
        out.push(u);
    }
    out
}

#[test]
fn domain_key_is_first_three_segments() {
    assert_eq!(domain_key("http://a.com/x/y"), "http:a.com");
    assert_eq!(domain_key("https://b.org:8080/"), "https:b.org:8080");
    assert_eq!(domain_key("http://a.com"), "http:a.com");
    assert_eq!(domain_key("http:/a.com/"), "http:a.com");
    assert_eq!(domain_key("a/b"), "ab");
    assert_eq!(domain_key("plain"), "plain");
    assert_eq!(domain_key(""), "");
}

#[test]
fn segments_joined_alike_share_a_key() {
    let mut q = MemoryQueue::new(vec![]);
    q.push(s("ab"));
    q.push(s("a/b"));
    q.push(s("http://a.com"));
    q.push(s("http:/a.com/"));
    let mut d = q.drain().ok().unwrap();
    assert_eq!(d.len(), 2);
    let mut got = drain_all(&mut d);
    got.sort();
    assert_eq!(got, vec![s("ab"), s("http://a.com")]);
}

#[test]
fn same_domain_pushed_twice_keeps_first() {
    let mut q = MemoryQueue::new(vec![]);
    q.push(s("http://a.com/1"));
    q.push(s("http://a.com/2"));
    q.push(s("http://b.com/1"));
    let mut d = q.drain().ok().unwrap();
    assert_eq!(d.len(), 2);
    let mut got = drain_all(&mut d);
    got.sort();
    assert_eq!(got, vec![s("http://a.com/1"), s("http://b.com/1")]);
}

#[test]
fn seeds_are_deduplicated_by_domain() {
    let mut q = MemoryQueue::new(vec![s("http://a.com/x"), s("http://a.com/y"), s("http://c.com")]);
    let mut d = q.drain().ok().unwrap();
    assert_eq!(d.len(), 2);
    let mut got = drain_all(&mut d);
    got.sort();
    assert_eq!(got, vec![s("http://a.com/x"), s("http://c.com")]);
}

#[test]
fn domain_seen_in_an_earlier_layer_stays_seen() {
    let mut q = MemoryQueue::new(vec![s("http://a.com/x")]);
    let _ = q.drain().ok().unwrap();
    q.extend(vec![s("http://a.com/z"), s("http://d.com/")]);
    let mut d = q.drain().ok().unwrap();
    assert_eq!(drain_all(&mut d), vec![s("http://d.com/")]);
}

#[test]
fn drain_hands_out_each_url_once_then_none() {
    let mut q = MemoryQueue::new(vec![s("http://a.com"), s("http://b.com"), s("http://c.com")]);
    let mut d = q.drain().ok().unwrap();
    let l = d.len();
    assert_eq!(l, 3);
    let mut got = Vec::new();
    for _ in 0..l {
        got.push(d.pop().unwrap());
    }
    assert_eq!(d.pop(), None);
    assert_eq!(d.len(), 3);
    assert_eq!(got, vec![s("http://c.com"), s("http://b.com"), s("http://a.com")]);
}

#[test]
fn empty_frontier_drain_fails_with_empty() {
    let mut q = MemoryQueue::new(vec![]);
    assert_eq!(q.drain().err(), Some(QueueError::Empty));
    let mut q2 = MemoryQueue::new(vec![s("http://a.com")]);
    assert!(q2.drain().is_ok());
    assert_eq!(q2.drain().err(), Some(QueueError::Empty));
}

#[test]
fn urls_found_during_a_layer_go_to_the_next_drain() {
    let mut q = MemoryQueue::new(vec![s("http://a.com"), s("http://b.com")]);
    let mut layer = q.drain().ok().unwrap();
    let first = layer.pop().unwrap();
    q.extend(vec![s("http://c.com/1"), s("http://a.com/2")]);
    let second = layer.pop().unwrap();
    assert_eq!(layer.pop(), None);
    let mut both = vec![first, second];
    both.sort();
    assert_eq!(both, vec![s("http://a.com"), s("http://b.com")]);
    let mut next = q.drain().ok().unwrap();
    assert_eq!(drain_all(&mut next), vec![s("http://c.com/1")]);
}

#[test]
fn single_domain_crawl_ends_after_one_layer() {
    let mut q = MemoryQueue::new(vec![s("http://a.com/"), s("http://a.com/b")]);
    let mut d = q.drain().ok().unwrap();
    assert_eq!(d.len(), 1);
    let url = d.pop().unwrap();
    assert_eq!(url, "http://a.com/");
    q.extend(vec![s("http://a.com/x"), s("http://a.com/y")]);
    assert_eq!(q.drain().err(), Some(QueueError::Empty));
}

#[test]
fn memory_drain_reports_its_original_size() {
    let mut d = MemoryDrain::new(vec![s("x"), s("y")]);
    assert_eq!(d.len(), 2);
    assert_eq!(d.pop(), Some(s("y")));
    assert_eq!(d.len(), 2);
    assert_eq!(d.pop(), Some(s("x")));
    assert_eq!(d.pop(), None);
}

#[test]
fn file_log_gets_one_line_per_admitted_url() {
    let (mut f, seed_log) = FileQueue::new(vec![s("http://a.com/1"), s("http://a.com/2")]);
    assert_eq!(seed_log, "http://a.com/1\n");
    assert_eq!(f.lines(), 1);
    let (text, n) = f.extend(vec![s("http://b.com"), s("http://a.com/3"), s("http://c.com/q")]);
    assert_eq!(text, "http://b.com\nhttp://c.com/q\n");
    assert_eq!(n, 2);
    assert_eq!(f.lines(), 1);
    f.record(n);
    assert_eq!(f.drain(), Ok(3));
    assert_eq!(f.drain(), Err(QueueError::Empty));
    let (text, n) = f.extend(vec![s("http://b.com/again"), s(""), s("ab"), s("a/b")]);
    assert_eq!(text, "\nab\n");
    assert_eq!(n, 2);
    f.record(n);
    assert_eq!(f.drain(), Ok(2));
}

#[test]
fn init_queue_ignores_case_of_backing_name() {
    match init_queue("MeMoRy", vec![s("http://a.com")]) {
        Ok(Frontier::Memory(mut q)) => {
            let d = q.drain().ok().unwrap();
            assert_eq!(d.len(), 1);
        }
        _ => panic!("expected a memory frontier"),
    }
    match init_queue("FILE", vec![s("http://a.com")]) {
        Ok(Frontier::File(_, log)) => assert_eq!(log, "http://a.com\n"),
        _ => panic!("expected a file frontier"),
    }
}

#[test]
fn init_queue_rejects_unknown_backing() {
    assert!(matches!(init_queue("disk", vec![]), Err(QueueError::UnknownBacking)));
}
