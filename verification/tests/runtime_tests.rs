//! Tests of the subscriber runtime decisions: single flight, durable
//! resubscription, publisher choice, the connection state machine, the
//! resolver router, paths, globs and configuration.
use netidx::connection::{ConnState, FrameAction, FromPublisher, TickOutcome};
use netidx::event::Event;
use netidx::path::Path;
use netidx::resolver::{route_batch, Router};
use netidx::subscriber::{choose_addr, DurTable, DvState, DvWrites, SubPlan, SubTable};
use netidx::value::Value;

#[test]
fn single_flight_subscription() {
    // two concurrent batches ask for the same path: the resolver is
    // contacted once, the second caller waits on the first
    let mut t = SubTable::new();
    let p = b"/t/p".to_vec();
    assert_eq!(t.plan(&p), SubPlan::Resolve);
    assert_eq!(t.plan(&p), SubPlan::WaitOther);
    assert_eq!(t.plan(&p), SubPlan::WaitOther);
    t.settle(&p, true);
    // now the live subscription is shared
    assert_eq!(t.plan(&p), SubPlan::Existing);
    // a failure clears the slot so a later call retries
    let q = b"/t/q".to_vec();
    assert_eq!(t.plan(&q), SubPlan::Resolve);
    t.settle(&q, false);
    assert_eq!(t.plan(&q), SubPlan::Resolve);
}

#[test]
fn durable_resubscribe_cycle() {
    // a durable subscription registered while no publisher exists is
    // gathered on the next pass, and moves to alive when the attempt
    // succeeds
    let mut t = DurTable::new();
    let p = b"/t/x".to_vec();
    t.register(&p, 0);
    let (picked, max_tries) = t.gather(0);
    assert_eq!(picked.len(), 1);
    assert_eq!(max_tries, 1);
    // the batch timeout formula: 30 + max(10, len/10000) * tries
    assert_eq!(DurTable::batch_timeout(1, 1), 40);
    assert_eq!(DurTable::batch_timeout(100_000, 3), 60);
    // a failure backs off; the entry is due again once the time comes
    t.settle(picked[0], false, 0, 1);
    let (none_yet, _) = t.gather(0);
    assert_eq!(none_yet.len(), 0);
    let (again, _) = t.gather(5);
    assert_eq!(again.len(), 1);
    // success: alive
    t.settle(again[0], true, 5, 0);
    let (idle, _) = t.gather(100);
    assert_eq!(idle.len(), 0);
}

#[test]
fn publisher_choice_prefers_existing_and_avoids_failed() {
    // prefer a publisher we already have a connection to
    let connected = vec![false, true, false];
    let failed = vec![false, false, false];
    assert_eq!(choose_addr(&connected, &failed, true, 7), Some(1));
    // otherwise avoid recently failed candidates
    let connected2 = vec![false, false, false];
    let failed2 = vec![true, false, true];
    assert_eq!(choose_addr(&connected2, &failed2, false, 0), Some(1));
    // when everything failed recently, pick among them anyway
    let all_failed = vec![true, true];
    let r = choose_addr(&connected2[..2].to_vec(), &all_failed, false, 3).unwrap();
    assert!(r < 2);
    assert_eq!(choose_addr(&vec![], &vec![], false, 0), None);
}

#[test]
fn connection_echo_streams_in_order() {
    // one hundred echoes on a live subscription are all delivered, in
    // order, as on a healthy link
    let mut c = ConnState::new();
    c.pending = 1;
    match c.on_frame(&FromPublisher::Subscribed(7, Event::Update(Value::U64(0))), false) {
        FrameAction::Deliver(7) => {}
        other => panic!("expected delivery of the grant, got {:?}", other),
    }
    for i in 0..100u64 {
        let a = c.on_frame(&FromPublisher::Update(7, Event::Update(Value::U64(i))), true);
        assert_eq!(a, FrameAction::Deliver(7));
    }
    // ticks during the exchange keep the link alive
    assert_eq!(c.tick(), TickOutcome::Carry);
    // an update for an unknown id is answered with an unsubscribe
    let a = c.on_frame(&FromPublisher::Update(9, Event::Unsubscribed), false);
    assert_eq!(a, FrameAction::SendUnsubscribe(9));
}

#[test]
fn hung_publisher_is_detected() {
    // a connection with outstanding work and two silent periods is
    // declared hung; an idle one is closed quietly after two periods
    let mut hung = ConnState::new();
    hung.pending = 1;
    hung.msg_recvd = false;
    assert_eq!(hung.tick(), TickOutcome::HungPublisher);
    let mut idle = ConnState::new();
    assert_eq!(idle.tick(), TickOutcome::Carry);
    assert_eq!(idle.tick(), TickOutcome::CloseIdle);
    // a live link with traffic carries on and resets the silence
    let mut live = ConnState::new();
    live.live = 1;
    live.note_msg();
    assert_eq!(live.tick(), TickOutcome::Carry);
    assert!(!live.msg_recvd);
    assert_eq!(live.tick(), TickOutcome::HungPublisher);
}

#[test]
fn router_routes_by_longest_ancestor_with_lazy_expiry() {
    let mut r = Router::new();
    r.add_referral(Path::from_string("/a"), 100, 1);
    r.add_referral(Path::from_string("/a/b"), 100, 2);
    r.add_referral(Path::from_string("/a/b/c"), 0, 3); // expired at now=50
    let p = Path::from_string("/a/b/c/d");
    // the longest ancestor is /a/b/c; it has expired, so the request
    // falls back to the default cluster rather than a shorter entry
    assert_eq!(r.route(&p, 50), None);
    // no cached ancestor at all: the default cluster too
    assert_eq!(r.route(&Path::from_string("/z"), 50), None);
    // requests without a path go to the default bucket
    let routed = route_batch(&r, &vec![Some(p), None], 50);
    assert_eq!(routed, vec![None, None]);
    // gc drops the expired entry; now /a/b is the longest ancestor
    r.gc(50);
    assert_eq!(r.route(&Path::from_string("/a/b/c/d"), 50), Some(2));
    // caching again for a known base replaces the entry
    r.add_referral(Path::from_string("/a/b"), 200, 9);
    assert_eq!(r.route(&Path::from_string("/a/b/x"), 50), Some(9));
    assert!(!r.over_limit());
}

#[test]
fn path_operations() {
    let p = Path::from_string("/a/b/c");
    assert!(p.is_absolute());
    assert!(p.is_wf());
    assert!(!Path::from_string("a/b").is_absolute());
    assert!(!Path::from_string("/a//b").is_wf());
    assert_eq!(p.basename(), Some(b"c".to_vec()));
    assert_eq!(Path::from_string("/").basename(), None);
    let parent = Path::from_string("/a/b");
    assert!(parent.is_parent(&p));
    assert!(!p.is_parent(&parent));
    assert!(Path::from_string("/").is_parent(&p));
    // /a/bx is not under /a/b
    assert!(!parent.is_parent(&Path::from_string("/a/bx")));
    let joined = parent.append(&b"c".to_vec());
    assert_eq!(joined.bytes(), p.bytes());
}

#[test]
fn subtree_needs_a_whole_recursive_component() {
    // stars inside a character class make a one-level glob, not a
    // subtree glob
    assert!(!netidx::glob::is_subtree_glob(&b"/a/[**]".to_vec()));
    assert!(netidx::glob::is_subtree_glob(&b"/a/**".to_vec()));
    assert!(netidx::glob::is_subtree_glob(&b"/**/f".to_vec()));
    assert!(!netidx::glob::is_subtree_glob(&b"/a/x**y".to_vec()));
}

#[test]
fn durable_next_wake_is_earliest_retry() {
    let mut t = DurTable::new();
    t.register(&b"/t/a".to_vec(), 7);
    t.register(&b"/t/b".to_vec(), 3);
    // registering a known path again changes nothing
    t.register(&b"/t/a".to_vec(), 99);
    assert_eq!(t.next_wake(), Some(3));
    let (picked, _) = t.gather(10);
    assert_eq!(picked.len(), 2);
    // everything is in flight: nothing to wake for
    assert_eq!(t.next_wake(), None);
}

#[test]
fn glob_base_and_kind() {
    // the base of a glob is its longest literal prefix
    let raw = b"/solar/{stats,settings}/*".to_vec();
    let n = netidx::glob::glob_base_len(&raw);
    assert_eq!(&raw[..n], b"/solar");
    assert!(!netidx::glob::is_subtree_glob(&raw));
    let rec = b"/s*/s*/**".to_vec();
    assert!(netidx::glob::is_subtree_glob(&rec));
    assert_eq!(netidx::glob::glob_base_len(&rec), 1);
    // a fully literal path is its own base
    let lit = b"/a/b".to_vec();
    assert_eq!(netidx::glob::glob_base_len(&lit), 4);
    // matching through the glob crate
    assert_eq!(netidx::glob::glob_match("/t/*", "/t/x"), Some(true));
    assert_eq!(netidx::glob::glob_match("/t/*", "/t/x/y"), Some(false));
    assert_eq!(netidx::glob::glob_match("/t/**", "/t/x/y"), Some(true));
    assert_eq!(netidx::glob::glob_match("/t/[", "/t/x"), None);
}

#[test]
fn domain_names_reverse_for_identity_lookup() {
    let mut name = b"marketdata.architect.com".to_vec();
    netidx::config::Tls::reverse_domain_name(&mut name);
    assert_eq!(name, b"com.architect.marketdata.".to_vec());
    let mut single = b"localhost".to_vec();
    netidx::config::Tls::reverse_domain_name(&mut single);
    assert_eq!(single, b"localhost.".to_vec());
    assert_eq!(
        netidx::config::DefaultAuthMech::default(),
        netidx::config::DefaultAuthMech::Krb5
    );
}

#[test]
fn tls_default_identity_lookup() {
    let id = netidx::config::TlsIdentity {
        trusted: String::from("ca.pem"),
        name: String::from("server"),
        certificate: String::from("cert.pem"),
        private_key: String::from("key.pem"),
    };
    let tls = netidx::config::Tls {
        default_identity: String::from("com.example."),
        identities: vec![(String::from("com.example."), id)],
        askpass: None,
    };
    assert!(tls.default_identity().is_some());
    let empty = netidx::config::Tls {
        default_identity: String::from("com.other."),
        identities: vec![],
        askpass: None,
    };
    assert!(empty.default_identity().is_none());
}

#[test]
fn referral_depth_is_bounded() {
    let mut rounds: usize = 0;
    let mut gave_up = false;
    for _ in 0..200 {
        if netidx::resolver::referral_step(&mut rounds) {
            gave_up = true;
            break;
        }
    }
    assert!(gave_up);
    assert_eq!(rounds, netidx::resolver::MAX_REFERRALS + 1);
}

#[test]
fn durable_state_is_plain_data() {
    let d = DvState::Dead { tries: 2, next_try: 7 };
    match d {
        DvState::Dead { tries, next_try } => {
            assert_eq!(tries, 2);
            assert_eq!(next_try, 7);
        }
        _ => panic!("wrong state"),
    }
}

#[test]
fn change_trackers_coalesce_under_a_common_ancestor() {
    let bases = vec![
        Path::from_string("/solar"),
        Path::from_string("/solar/stats"),
        Path::from_string("/market"),
    ];
    let out = netidx::recorder::coalesce_trackers(&bases);
    // /solar/stats shares /solar's tracker
    assert_eq!(out.len(), 2);
    assert_eq!(out[0].bytes(), Path::from_string("/solar").bytes());
    assert_eq!(out[1].bytes(), Path::from_string("/market").bytes());
}

#[test]
fn durable_writes_queue_while_dead_and_replay_in_order() {
    let mut q = DvWrites::new();
    // dead: writes wait
    assert!(!q.write(false, Value::U64(1)));
    assert!(!q.write(false, Value::U64(2)));
    assert_eq!(q.queued_writes(), 2);
    // alive: writes go out at once, the queue is untouched
    assert!(q.write(true, Value::U64(9)));
    assert_eq!(q.queued_writes(), 2);
    // resubscription replays the queue in submission order
    let replay = q.take_queued();
    assert_eq!(replay.len(), 2);
    assert!(replay[0].eq_val(&Value::U64(1)));
    assert!(replay[1].eq_val(&Value::U64(2)));
    assert_eq!(q.queued_writes(), 0);
    assert!(!q.write(false, Value::U64(3)));
    q.clear_queued_writes();
    assert_eq!(q.queued_writes(), 0);
}
