use netidx::path::Path;
use netidx::protocol::{Referral, ToRead, ToWrite};
use netidx::router::Router;

fn referral(p: &str, ttl: u64) -> Referral {
    Referral { path: Path::new(p), ttl, addrs: vec!["127.0.0.1:4564".to_string()] }
}

fn target(r: &mut Router, p: &str, now: u64) -> Option<String> {
    let batch = vec![ToRead::Resolve(Path::new(p))];
    let routes = r.route_batch(&batch, now);
    assert_eq!(routes.len(), 1);
    routes[0].0.as_ref().map(|p| p.as_str().to_string())
}

#[test]
fn longest_prefix_wins() {
    let mut r = Router::new();
    r.add_referral(referral("/a", 60), 0);
    r.add_referral(referral("/a/b", 60), 0);
    assert_eq!(target(&mut r, "/a/b/c", 1), Some("/a/b".to_string()));
    assert_eq!(target(&mut r, "/a/c", 1), Some("/a".to_string()));
    assert_eq!(target(&mut r, "/d", 1), None);
    assert_eq!(target(&mut r, "/a/b", 1), Some("/a/b".to_string()));
}

#[test]
fn prefix_must_end_at_a_component() {
    let mut r = Router::new();
    r.add_referral(referral("/foo", 60), 0);
    assert_eq!(target(&mut r, "/foobar", 1), None);
    assert_eq!(target(&mut r, "/foo/bar", 1), Some("/foo".to_string()));
    assert_eq!(target(&mut r, "/foo\\/bar", 1), None);
}

#[test]
fn root_referral_owns_everything() {
    let mut r = Router::new();
    r.add_referral(referral("/", 60), 0);
    assert_eq!(target(&mut r, "/x/y", 1), Some("/".to_string()));
}

#[test]
fn expired_entry_is_evicted() {
    let mut r = Router::new();
    r.add_referral(referral("/a", 0), 1000);
    assert!(r.get_referral(&Path::new("/a")).is_some());
    assert_eq!(target(&mut r, "/a/b", 1001), None);
    assert!(r.get_referral(&Path::new("/a")).is_none());
}

#[test]
fn ttl_is_in_seconds() {
    let mut r = Router::new();
    r.add_referral(referral("/a", 2), 1000);
    assert_eq!(target(&mut r, "/a", 2999), Some("/a".to_string()));
    assert_eq!(target(&mut r, "/a", 3000), None);
}

#[test]
fn huge_ttl_does_not_overflow() {
    let mut r = Router::new();
    r.add_referral(referral("/a", u64::MAX), u64::MAX - 1);
    assert_eq!(target(&mut r, "/a", u64::MAX - 1), Some("/a".to_string()));
}

#[test]
fn add_referral_replaces() {
    let mut r = Router::new();
    r.add_referral(referral("/a", 60), 0);
    r.add_referral(Referral { path: Path::new("/a"), ttl: 5, addrs: vec![] }, 0);
    let got = r.get_referral(&Path::new("/a")).unwrap();
    assert_eq!(got.ttl, 5);
    assert!(got.addrs.is_empty());
}

#[test]
fn sub_batch_keeps_order() {
    let mut r = Router::new();
    r.add_referral(referral("/b", 60), 0);
    let batch = vec![
        ToRead::Resolve(Path::new("/b/0")),
        ToRead::List(Path::new("/b/1")),
        ToRead::Table(Path::new("/b/2")),
    ];
    let routes = r.route_batch(&batch, 1);
    assert_eq!(routes.len(), 1);
    assert_eq!(routes[0].0, Some(Path::new("/b")));
    assert_eq!(
        routes[0].1,
        vec![(0, batch[0].clone()), (1, batch[1].clone()), (2, batch[2].clone())]
    );
}

#[test]
fn mixed_batch_is_split() {
    let mut r = Router::new();
    r.add_referral(referral("/x", 60), 0);
    let batch = vec![
        ToWrite::Publish(Path::new("/a")),
        ToWrite::Publish(Path::new("/x/1")),
        ToWrite::Clear,
        ToWrite::Unpublish(Path::new("/x/2")),
        ToWrite::Heartbeat,
    ];
    let routes = r.route_batch(&batch, 1);
    assert_eq!(routes.len(), 2);
    assert_eq!(routes[0].0, None);
    let ids: Vec<usize> = routes[0].1.iter().map(|(i, _)| *i).collect();
    assert_eq!(ids, vec![0, 2, 4]);
    assert_eq!(routes[1].0, Some(Path::new("/x")));
    let ids: Vec<usize> = routes[1].1.iter().map(|(i, _)| *i).collect();
    assert_eq!(ids, vec![1, 3]);
}

#[test]
fn escaped_separator_is_no_boundary() {
    let mut r = Router::new();
    r.add_referral(referral("/a\\/", 60), 0);
    assert_eq!(Path::new("/a\\/").as_str(), "/a\\/");
    assert_eq!(target(&mut r, "/a\\/b", 1), None);
    let mut r = Router::new();
    r.add_referral(referral("/a\\/", 0), 0);
    assert_eq!(target(&mut r, "/a\\/b", 5), None);
    assert!(r.get_referral(&Path::new("/a\\/")).is_some());
}
