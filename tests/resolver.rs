use netidx::path::Path;
use netidx::protocol::{FromRead, FromWrite, Referral, Resolved, ToPath, ToRead, ToReferral, ToWrite};
use netidx::resolver::{
    conclude, expect_cleared, expect_replies, listing, resolutions, Error, Multiplexer, Round,
    Step, MAX_REFERRALS,
};

/// Runs sends against fake backends, as a driver of the multiplexer would.
fn send<T, F, B>(mux: &mut Multiplexer, batch: &Vec<T>, now: u64, mut backend: B) -> Result<Vec<F>, Error>
where
    T: ToPath + Clone,
    F: ToReferral,
    B: FnMut(&Option<Path>, Vec<(usize, T)>) -> Result<Vec<(usize, F)>, Error>,
{
    let mut referrals: usize = 0;
    loop {
        let plan = mux.plan(batch, now);
        let mut replies = Vec::new();
        for (key, sub) in plan.routes {
            replies.push(backend(&key, sub)?);
        }
        let mut round = Round::new();
        for r in replies {
            mux.absorb(&mut round, r, now);
        }
        match conclude(round, batch.len(), referrals)? {
            Step::Done(v) => return Ok(v),
            Step::Again(k) => referrals = k,
        }
    }
}

fn resolved(name: &str) -> Resolved {
    Resolved { addrs: vec![name.to_string()] }
}

fn referral(p: &str) -> Referral {
    Referral { path: Path::new(p), ttl: 60, addrs: vec!["10.0.0.1:4564".to_string()] }
}

fn path_of(op: &ToRead) -> String {
    match op {
        ToRead::List(p) | ToRead::Table(p) | ToRead::Resolve(p) => p.as_str().to_string(),
    }
}

/// Answers each operation with a resolution named after its path.
fn echo(sub: Vec<(usize, ToRead)>) -> Vec<(usize, FromRead)> {
    sub.iter().map(|(i, op)| (*i, FromRead::Resolved(resolved(&path_of(op))))).collect()
}

#[test]
fn no_referrals() {
    let mut mux = Multiplexer::new();
    let batch = vec![ToRead::Resolve(Path::new("/a")), ToRead::Resolve(Path::new("/b"))];
    let r = send(&mut mux, &batch, 0, |key: &Option<Path>, sub: Vec<(usize, ToRead)>| {
        assert!(key.is_none());
        Ok(vec![(0, FromRead::Resolved(resolved("A"))), (1, FromRead::Resolved(resolved("B")))]
            .into_iter()
            .filter(|(i, _)| sub.iter().any(|(j, _)| j == i))
            .collect())
    });
    assert_eq!(r, Ok(vec![FromRead::Resolved(resolved("A")), FromRead::Resolved(resolved("B"))]));
}

#[test]
fn single_referral_followed() {
    let mut mux = Multiplexer::new();
    let batch = vec![ToRead::Resolve(Path::new("/x/1"))];
    let r = send(&mut mux, &batch, 0, |key: &Option<Path>, sub: Vec<(usize, ToRead)>| {
        match key {
            None => Ok(vec![(0, FromRead::Referral(referral("/x")))]),
            Some(p) => {
                assert_eq!(p.as_str(), "/x");
                assert_eq!(sub.len(), 1);
                Ok(vec![(0, FromRead::Resolved(resolved("X1")))])
            }
        }
    });
    assert_eq!(r, Ok(vec![FromRead::Resolved(resolved("X1"))]));
    assert!(mux.referral(&Path::new("/x")).is_some());
}

#[test]
fn mixed_fan_out_preserves_order() {
    let mut mux = Multiplexer::new();
    let mut seed = Round::<FromRead>::new();
    mux.absorb(&mut seed, vec![(0, FromRead::Referral(referral("/x")))], 0);
    let batch = vec![
        ToRead::Resolve(Path::new("/a")),
        ToRead::Resolve(Path::new("/x/1")),
        ToRead::Resolve(Path::new("/b")),
        ToRead::Resolve(Path::new("/x/2")),
    ];
    let r = send(&mut mux, &batch, 1, |key: &Option<Path>, sub: Vec<(usize, ToRead)>| {
        let ids: Vec<usize> = sub.iter().map(|(i, _)| *i).collect();
        match key {
            None => assert_eq!(ids, vec![0, 2]),
            Some(_) => assert_eq!(ids, vec![1, 3]),
        }
        // answer in reverse, to show that the order of replies does not matter
        let mut out = echo(sub);
        out.reverse();
        Ok(out)
    });
    assert_eq!(
        r,
        Ok(vec![
            FromRead::Resolved(resolved("/a")),
            FromRead::Resolved(resolved("/x/1")),
            FromRead::Resolved(resolved("/b")),
            FromRead::Resolved(resolved("/x/2")),
        ])
    );
}

#[test]
fn referral_depth_is_bounded() {
    let mut mux = Multiplexer::new();
    let batch = vec![ToRead::Resolve(Path::new("/x/1"))];
    let mut rounds = 0;
    let r: Result<Vec<FromRead>, Error> =
        send(&mut mux, &batch, 0, |_key: &Option<Path>, sub: Vec<(usize, ToRead)>| {
            rounds += 1;
            Ok(sub.iter().map(|(i, _)| (*i, FromRead::Referral(referral("/x")))).collect())
        });
    assert_eq!(r, Err(Error::ReferralDepth { max: MAX_REFERRALS }));
    assert_eq!(rounds, MAX_REFERRALS + 1);
}

#[test]
fn conclude_counts_referral_rounds() {
    let round = Round::<FromRead> { finished: Vec::new(), referral: true };
    assert!(matches!(conclude(round, 1, 0), Ok(Step::Again(1))));
    let round = Round::<FromRead> { finished: Vec::new(), referral: true };
    assert!(matches!(conclude(round, 1, MAX_REFERRALS - 1), Ok(Step::Again(k)) if k == MAX_REFERRALS));
    let round = Round::<FromRead> { finished: Vec::new(), referral: true };
    assert!(matches!(conclude(round, 1, MAX_REFERRALS), Err(Error::ReferralDepth { max: MAX_REFERRALS })));
}

#[test]
fn transport_error_fails_the_send() {
    let mut mux = Multiplexer::new();
    let batch = vec![ToRead::Resolve(Path::new("/a"))];
    let r: Result<Vec<FromRead>, Error> =
        send(&mut mux, &batch, 0, |_key: &Option<Path>, _sub: Vec<(usize, ToRead)>| {
            Err(Error::Transport("connection refused".to_string()))
        });
    assert_eq!(r, Err(Error::Transport("connection refused".to_string())));
}

#[test]
fn bad_reply_indices_fail_the_send() {
    let mut mux = Multiplexer::new();
    let batch = vec![ToRead::Resolve(Path::new("/a")), ToRead::Resolve(Path::new("/b"))];
    // a duplicate index
    let r = send(&mut mux, &batch, 0, |_key: &Option<Path>, _sub: Vec<(usize, ToRead)>| {
        Ok(vec![(0, FromRead::Resolved(resolved("A"))), (0, FromRead::Resolved(resolved("B")))])
    });
    assert_eq!(r, Err(Error::ReplyIndex { index: 0 }));
    // a missing index
    let r = send(&mut mux, &batch, 0, |_key: &Option<Path>, _sub: Vec<(usize, ToRead)>| {
        Ok(vec![(0, FromRead::Resolved(resolved("A")))])
    });
    assert_eq!(r, Err(Error::ReplyIndex { index: 1 }));
    // an index out of range
    let r = send(&mut mux, &batch, 0, |_key: &Option<Path>, _sub: Vec<(usize, ToRead)>| {
        Ok(vec![(1, FromRead::Resolved(resolved("B"))), (7, FromRead::Resolved(resolved("A")))])
    });
    assert_eq!(r, Err(Error::ReplyIndex { index: 7 }));
}

#[test]
fn connections_are_opened_once() {
    let mut mux = Multiplexer::new();
    let mut seed = Round::<FromRead>::new();
    mux.absorb(&mut seed, vec![(0, FromRead::Referral(referral("/x")))], 0);
    let batch = vec![ToRead::Resolve(Path::new("/x/1"))];
    let plan = mux.plan(&batch, 1);
    assert!(!plan.reset);
    assert_eq!(plan.open, vec![true]);
    let plan = mux.plan(&batch, 2);
    assert_eq!(plan.open, vec![false]);
}

#[test]
fn connections_are_dropped_past_the_bound() {
    let mut mux = Multiplexer::new();
    let mut seed = Round::<FromRead>::new();
    let refs: Vec<(usize, FromRead)> =
        (0..=MAX_REFERRALS).map(|i| (i, FromRead::Referral(referral(&format!("/r{}", i))))).collect();
    mux.absorb(&mut seed, refs, 0);
    let batch: Vec<ToRead> =
        (0..=MAX_REFERRALS).map(|i| ToRead::Resolve(Path::new(&format!("/r{}/a", i)))).collect();
    let plan = mux.plan(&batch, 1);
    assert!(!plan.reset);
    assert_eq!(plan.routes.len(), MAX_REFERRALS + 1);
    assert!(plan.open.iter().all(|o| *o));
    let plan = mux.plan(&batch, 2);
    assert!(plan.reset);
    assert!(plan.open.iter().all(|o| *o));
}

#[test]
fn write_protocol_check() {
    let mut mux = Multiplexer::new();
    let batch = vec![ToWrite::Publish(Path::new("/a")), ToWrite::Publish(Path::new("/b"))];
    let r = send(&mut mux, &batch, 0, |_key: &Option<Path>, _sub: Vec<(usize, ToWrite)>| {
        Ok(vec![(0, FromWrite::Published), (1, FromWrite::Published)])
    })
    .unwrap();
    assert_eq!(expect_replies(&batch, r, &FromWrite::Published), Ok(()));
    let r = send(&mut mux, &batch, 0, |_key: &Option<Path>, _sub: Vec<(usize, ToWrite)>| {
        Ok(vec![(0, FromWrite::Published), (1, FromWrite::Unpublished)])
    })
    .unwrap();
    assert_eq!(
        expect_replies(&batch, r.clone(), &FromWrite::Published),
        Err(Error::UnexpectedWrite {
            index: 1,
            request: ToWrite::Publish(Path::new("/b")),
            reply: FromWrite::Unpublished
        })
    );
    assert_eq!(
        expect_replies(&batch[..1].to_vec(), r, &FromWrite::Published),
        Err(Error::ReplyCount { got: 2, expected: 1 })
    );
}

#[test]
fn clear_expects_unpublished() {
    assert_eq!(expect_cleared(vec![FromWrite::Unpublished]), Ok(()));
    assert_eq!(
        expect_cleared(vec![FromWrite::Published]),
        Err(Error::UnexpectedWrite { index: 0, request: ToWrite::Clear, reply: FromWrite::Published })
    );
    assert_eq!(expect_cleared(vec![]), Err(Error::ReplyCount { got: 0, expected: 1 }));
}

#[test]
fn list_length_mismatch() {
    let mut mux = Multiplexer::new();
    let batch = vec![ToRead::List(Path::new("/a"))];
    let empty = send(&mut mux, &batch, 0, |_key: &Option<Path>, _sub: Vec<(usize, ToRead)>| {
        Ok(Vec::<(usize, FromRead)>::new())
    })
    .and_then(listing);
    assert_eq!(empty, Err(Error::ReplyIndex { index: 0 }));
    let two = send(&mut mux, &batch, 0, |_key: &Option<Path>, _sub: Vec<(usize, ToRead)>| {
        Ok(vec![(0, FromRead::List(vec![])), (1, FromRead::List(vec![]))])
    })
    .and_then(listing);
    assert_eq!(two, Err(Error::ReplyIndex { index: 1 }));
    assert_eq!(listing(vec![]), Err(Error::ReplyCount { got: 0, expected: 1 }));
    assert_eq!(
        listing(vec![FromRead::List(vec![]), FromRead::List(vec![])]),
        Err(Error::ReplyCount { got: 2, expected: 1 })
    );
    assert_eq!(listing(vec![FromRead::List(vec![Path::new("/a/b")])]), Ok(vec![Path::new("/a/b")]));
    assert_eq!(
        listing(vec![FromRead::Resolved(resolved("A"))]),
        Err(Error::UnexpectedRead { index: 0, reply: FromRead::Resolved(resolved("A")) })
    );
}

#[test]
fn resolutions_check_kind_and_count() {
    let ok = resolutions(
        vec![FromRead::Resolved(resolved("A")), FromRead::Resolved(resolved("B"))],
        2,
    );
    assert_eq!(ok, Ok(vec![resolved("A"), resolved("B")]));
    let bad = resolutions(
        vec![FromRead::Resolved(resolved("A")), FromRead::Error("denied".to_string())],
        2,
    );
    assert_eq!(
        bad,
        Err(Error::UnexpectedRead { index: 1, reply: FromRead::Error("denied".to_string()) })
    );
    let short = resolutions(vec![FromRead::Resolved(resolved("A"))], 2);
    assert_eq!(short, Err(Error::ReplyCount { got: 1, expected: 2 }));
}

#[test]
fn referral_replies_split_off() {
    let r = FromRead::Referral(referral("/x"));
    assert!(r.referral().is_ok());
    let r = FromWrite::Published;
    assert_eq!(r.referral(), Err(FromWrite::Published));
    assert_eq!(ToWrite::Clear.path(), None);
    assert_eq!(ToWrite::Publish(Path::new("/a")).path(), Some(&Path::new("/a")));
}

#[test]
fn empty_batch_needs_no_backend() {
    let mut mux = Multiplexer::new();
    let batch: Vec<ToRead> = Vec::new();
    let r = send(&mut mux, &batch, 0, |_key: &Option<Path>, _sub: Vec<(usize, ToRead)>| {
        panic!("no backend is asked for an empty batch")
    });
    assert_eq!(r, Ok(Vec::<FromRead>::new()));
}
