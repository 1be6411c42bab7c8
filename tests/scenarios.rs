use multi_stream_synchronizer::{sync, Config, ConfigError, Feedback, InputMessage, Phase, Step};

const X: u64 = 0;
const Y: u64 = 1;
const Z: u64 = 2;

fn ms(v: u64) -> u64 {
    v * 1_000_000
}

fn msg(v: u64) -> InputMessage {
    InputMessage { timestamp: ms(v) }
}

fn config(window_ms: u64, buf_size: usize) -> Config {
    Config {
        window_size: ms(window_ms),
        start_time: None,
        buf_size,
    }
}

/// Runs the synchronizer over `input`, then ends the input; returns each
/// group as (key, milliseconds) pairs, and the commit timestamp after each.
fn run(keys: &[u64], cfg: Config, input: &[(u64, u64)]) -> (Vec<Vec<(u64, u64)>>, Vec<u64>) {
    let (mut s, _rx) = sync::<InputMessage>(&keys.to_vec(), cfg).unwrap();
    let mut groups = Vec::new();
    let mut commits = Vec::new();
    let mut it = input.iter();
    loop {
        let group = match s.next_step() {
            Step::Emit(g) => Some(g),
            Step::NeedInput => match it.next() {
                Some(&(k, t)) => s.feed(k, msg(t)),
                None => {
                    s.end_input();
                    None
                }
            },
            Step::Finished => break,
        };
        if let Some(g) = group {
            groups.push(g.into_iter().map(|(k, m)| (k, m.timestamp / 1_000_000)).collect());
            commits.push(s.inner().commit_ts().unwrap() / 1_000_000);
        }
    }
    assert_eq!(s.current_phase(), Phase::Done);
    (groups, commits)
}

#[test]
fn simple_pair() {
    let input = [(X, 1001), (Y, 998), (X, 1999), (Y, 2003), (X, 3000), (Y, 3002)];
    let (groups, commits) = run(&[X, Y], config(500, 16), &input);
    assert_eq!(
        groups,
        vec![
            vec![(X, 1001), (Y, 998)],
            vec![(X, 1999), (Y, 2003)],
            vec![(X, 3000), (Y, 3002)],
        ]
    );
    assert_eq!(commits, vec![998, 1999, 3000]);
}

#[test]
fn closest_candidate_selection() {
    // X@1000 and X@1200 lie equally far from the anchor 1100; the earlier
    // candidate is kept on a tie.
    let input = [(X, 1000), (X, 1200), (X, 1600), (Y, 1100), (Y, 1550), (Y, 1700)];
    let (groups, commits) = run(&[X, Y], config(500, 16), &input);
    assert_eq!(
        groups,
        vec![vec![(X, 1000), (Y, 1100)], vec![(X, 1600), (Y, 1550)]]
    );
    assert_eq!(commits, vec![1000, 1550]);
}

#[test]
fn late_message_rejection() {
    let input = [(X, 2000), (Y, 2100), (X, 1500), (X, 2500), (Y, 2600)];
    let (groups, _) = run(&[X, Y], config(500, 16), &input);
    assert_eq!(
        groups,
        vec![vec![(X, 2000), (Y, 2100)], vec![(X, 2500), (Y, 2600)]]
    );
}

#[test]
fn late_message_is_handed_back_by_state() {
    let (mut s, _rx) = sync::<InputMessage>(&vec![X, Y], config(500, 16)).unwrap();
    assert!(s.feed(X, msg(2000)).is_none());
    assert!(s.feed(Y, msg(2100)).is_none());
    assert!(s.feed(X, msg(1500)).is_none());
    let xb = s.inner().buffer(0).unwrap();
    assert_eq!(xb.len(), 1);
    assert_eq!(xb.front_ts(), Some(ms(2000)));
}

#[test]
fn unknown_key_dropped() {
    let (mut s, rx) = sync::<InputMessage>(&vec![X, Y], config(500, 16)).unwrap();
    assert!(s.feed(X, msg(1000)).is_none());
    assert!(s.feed(Z, msg(1234)).is_none());
    let fb: Feedback = rx.borrow().clone();
    assert_eq!(fb.accepted_keys, vec![X, Y]);
    assert_eq!(fb.commit_timestamp, None);
    assert_eq!(fb.accepted_max_timestamp, None);
    assert_eq!(s.inner().buffer(0).unwrap().len(), 1);
    assert_eq!(s.inner().buffer(1).unwrap().len(), 0);
    assert!(s.inner().buffer(2).is_none());

    let input = [(X, 1001), (Z, 1234), (Y, 998), (X, 1999), (Y, 2003), (X, 3000), (Y, 3002)];
    let (groups, _) = run(&[X, Y], config(500, 16), &input);
    assert_eq!(groups.len(), 3);
    for g in groups {
        assert_eq!(g.len(), 2);
        assert!(g.iter().all(|&(k, _)| k != Z));
    }
}

#[test]
fn watermark_enforcement() {
    let (mut s, rx) = sync::<InputMessage>(&vec![X, Y], config(500, 16)).unwrap();
    assert!(s.feed(X, msg(2000)).is_none());
    assert!(s.feed(Y, msg(1950)).is_none());
    assert!(s.feed(X, msg(2600)).is_none());
    assert!(s.feed(Y, msg(2500)).is_none());
    // Ready and not full: the next message runs the matcher.
    assert!(matches!(s.next_step(), Step::NeedInput));
    let g = s.feed(Y, msg(2550)).unwrap();
    let g: Vec<(u64, u64)> = g.into_iter().map(|(k, m)| (k, m.timestamp)).collect();
    assert_eq!(g, vec![(X, ms(2000)), (Y, ms(1950))]);
    assert_eq!(s.inner().commit_ts(), Some(ms(1950)));
    assert_eq!(rx.borrow().commit_timestamp, Some(ms(1950)));

    let mut state = s;
    let before = state.inner().buffer(0).unwrap().len();
    assert!(state.feed(X, msg(1950)).is_none());
    assert!(state.feed(X, msg(1900)).is_none());
    assert_eq!(state.inner().buffer(0).unwrap().len(), before);
}

#[test]
fn stall_and_force() {
    let (mut s, _rx) = sync::<InputMessage>(&vec![X, Y], config(100, 2)).unwrap();
    for (k, t) in [(X, 1000), (X, 1200), (Y, 5000), (Y, 5200)] {
        assert!(matches!(s.next_step(), Step::NeedInput));
        assert!(s.feed(k, msg(t)).is_none());
    }
    // Every buffer is full and no group forms: the earliest message goes.
    assert!(matches!(s.next_step(), Step::NeedInput));
    let xb = s.inner().buffer(0).unwrap();
    assert_eq!(xb.len(), 1);
    assert_eq!(xb.front_ts(), Some(ms(1200)));
    assert_eq!(s.inner().buffer(1).unwrap().len(), 2);

    let input = [(X, 1000), (X, 1200), (Y, 5000), (Y, 5200)];
    let (groups, _) = run(&[X, Y], config(100, 2), &input);
    assert!(groups.is_empty());
}

#[test]
fn construction_errors() {
    let e = sync::<InputMessage>(&vec![X, Y], config(500, 1)).err().unwrap();
    assert_eq!(e, ConfigError::BufSizeTooSmall);
    let e = sync::<InputMessage>(&vec![X, Y], config(0, 16)).err().unwrap();
    assert_eq!(e, ConfigError::ZeroWindow);
    let e = sync::<InputMessage>(&vec![], config(500, 16)).err().unwrap();
    assert_eq!(e, ConfigError::NoKeys);
    let e = sync::<InputMessage>(&vec![], config(0, 1)).err().unwrap();
    assert_eq!(e, ConfigError::BufSizeTooSmall);
}

#[test]
fn initial_feedback_and_duplicate_keys() {
    let cfg = Config {
        window_size: ms(500),
        start_time: Some(ms(700)),
        buf_size: 2,
    };
    let (mut s, rx) = sync::<InputMessage>(&vec![Y, X, Y], cfg).unwrap();
    let fb = rx.borrow().clone();
    assert_eq!(fb.accepted_keys, vec![Y, X]);
    assert_eq!(fb.commit_timestamp, Some(ms(700)));
    assert_eq!(fb.accepted_max_timestamp, None);
    // At or before the start time: refused.
    assert!(s.feed(X, msg(700)).is_none());
    assert_eq!(s.inner().buffer(1).unwrap().len(), 0);
    assert!(s.feed(X, msg(701)).is_none());
    assert!(s.feed(X, msg(800)).is_none());
    assert_eq!(s.inner().buffer(1).unwrap().len(), 1 + 1);
    // X is saturated: only Y is still accepted.
    assert_eq!(rx.borrow().accepted_keys, vec![Y]);
}

#[test]
fn error_then_drain() {
    let (mut s, _rx) = sync::<InputMessage>(&vec![X, Y], config(500, 16)).unwrap();
    assert!(s.feed(X, msg(3000)).is_none());
    assert!(s.feed(Y, msg(3002)).is_none());
    s.end_input();
    assert_eq!(s.current_phase(), Phase::Draining);
    match s.next_step() {
        Step::Emit(g) => {
            let g: Vec<(u64, u64)> = g.into_iter().map(|(k, m)| (k, m.timestamp)).collect();
            assert_eq!(g, vec![(X, ms(3000)), (Y, ms(3002))]);
        }
        _ => panic!("expected a group"),
    }
    assert!(matches!(s.next_step(), Step::Finished));
    assert!(matches!(s.next_step(), Step::Finished));
    assert!(s.feed(X, msg(4000)).is_none());
    assert_eq!(s.inner().buffer(0).unwrap().len(), 0);
}

#[test]
fn groups_keep_their_invariants_on_a_long_run() {
    // A fixed pseudo-random interleaving of three streams, with some
    // messages out of order.
    let keys = [X, Y, Z];
    let mut seed: u64 = 0x2545_f491;
    let mut next_ts = [1000u64, 1003, 997];
    let mut input = Vec::new();
    for _ in 0..600 {
        seed = seed.wrapping_mul(6364136223846793005).wrapping_add(1442695040888963407);
        let k = ((seed >> 33) % 3) as usize;
        let jitter = (seed >> 40) % 40;
        let t = if (seed >> 20) % 17 == 0 {
            next_ts[k].saturating_sub(200)
        } else {
            next_ts[k] += 90 + jitter;
            next_ts[k]
        };
        input.push((keys[k], t));
    }
    let window = 50;
    let (groups, commits) = run(&keys, config(window, 4), &input);
    assert!(!groups.is_empty());
    let mut prev: Option<u64> = None;
    for (g, c) in groups.iter().zip(commits.iter()) {
        assert_eq!(g.iter().map(|&(k, _)| k).collect::<Vec<_>>(), keys.to_vec());
        let lo = g.iter().map(|&(_, t)| t).min().unwrap();
        let hi = g.iter().map(|&(_, t)| t).max().unwrap();
        assert!(hi - lo <= 2 * window);
        assert_eq!(*c, lo);
        if let Some(p) = prev {
            assert!(p <= *c);
            assert!(g.iter().all(|&(_, t)| t > p));
        }
        prev = Some(*c);
    }
}
