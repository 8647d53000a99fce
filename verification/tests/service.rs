use quotdd::limiter::RateLimits;
use quotdd::service::handle_connection;
use quotdd::service::step;
use quotdd::service::Action;
use quotdd::service::Event;

fn quotes() -> Vec<String> {
    vec![
        "Quickness is the essence of the war. ~ Sun Tsu".to_string(),
        "Pretend inferiority and encourage his arrogance. ~ Sun Tsu".to_string(),
        "meow. ~ wffl".to_string(),
    ]
}

fn is_quote_line(line: &str, quotes: &[String]) -> bool {
    quotes.iter().any(|q| line == format!("{}\n", q))
}

#[test]
fn admitted_connection_gets_one_quote_line() {
    let mut limits = RateLimits::new();
    let qs = quotes();
    let line = handle_connection(&mut limits, 3, &qs).expect("first connection is admitted");
    assert!(is_quote_line(&line, &qs));
}

#[test]
fn eleventh_connection_is_rejected() {
    let mut limits = RateLimits::new();
    let qs = quotes();
    for _ in 0..10 {
        let r = handle_connection(&mut limits, 8, &qs);
        assert!(matches!(r, Some(line) if is_quote_line(&line, &qs)));
    }
    assert!(handle_connection(&mut limits, 8, &qs).is_none());
}

#[test]
fn single_quote_corpus_always_picks_it() {
    let mut limits = RateLimits::new();
    let qs = vec!["meow. ~ wffl".to_string()];
    let line = handle_connection(&mut limits, 1, &qs).unwrap();
    assert_eq!(line, "meow. ~ wffl\n");
}

#[test]
fn step_incoming_sends_or_closes() {
    let mut limits = RateLimits::new();
    let qs = quotes();
    for _ in 0..10 {
        match step(&mut limits, Event::Incoming { addr: 4 }, &qs) {
            Action::Send { line } => assert!(is_quote_line(&line, &qs)),
            _ => panic!("the first ten connections must be admitted"),
        }
    }
    assert!(matches!(step(&mut limits, Event::Incoming { addr: 4 }, &qs), Action::Close));
}

#[test]
fn step_tick_decays() {
    let mut limits = RateLimits::new();
    let qs = quotes();
    for _ in 0..3 {
        step(&mut limits, Event::Incoming { addr: 6 }, &qs);
    }
    assert_eq!(limits.counter_of(6), 3);
    assert!(matches!(step(&mut limits, Event::Tick, &qs), Action::Decayed));
    assert_eq!(limits.counter_of(6), 0);
}
