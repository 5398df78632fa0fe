use clipsync::discovery::{Discovery, ProbeStep, Session, CANDIDATE_COUNT};

#[test]
fn discovery_starts_with_ambient_session() {
    let (d, step) = Discovery::start();
    assert_eq!(step, ProbeStep::Probe(Session::Ambient));
    assert!(!d.is_finished());
}

#[test]
fn discovery_ambient_success_needs_no_numbered_session() {
    let (mut d, _) = Discovery::start();
    assert_eq!(d.on_probe(true), ProbeStep::Found(Session::Ambient));
    assert!(d.is_finished());
}

#[test]
fn discovery_finds_first_working_index() {
    let (mut d, mut step) = Discovery::start();
    let mut probes = Vec::new();
    loop {
        match step {
            ProbeStep::Probe(s) => {
                probes.push(s);
                let works = matches!(s, Session::Numbered(k) if k >= 3);
                step = d.on_probe(works);
            }
            _ => break,
        }
    }
    assert_eq!(step, ProbeStep::Found(Session::Numbered(3)));
    assert_eq!(
        probes,
        vec![
            Session::Ambient,
            Session::Numbered(0),
            Session::Numbered(1),
            Session::Numbered(2),
            Session::Numbered(3)
        ]
    );
    assert!(d.is_finished());
}

#[test]
fn discovery_exhausts_after_every_candidate() {
    let (mut d, mut step) = Discovery::start();
    let mut probes = Vec::new();
    while let ProbeStep::Probe(s) = step {
        probes.push(s);
        step = d.on_probe(false);
    }
    assert_eq!(step, ProbeStep::Exhausted);
    assert_eq!(probes.len(), CANDIDATE_COUNT);
    assert_eq!(probes[1], Session::Numbered(0));
    assert_eq!(probes[CANDIDATE_COUNT - 1], Session::Numbered(254));
    assert!(d.is_finished());
}

#[test]
fn session_number() {
    assert_eq!(Session::Ambient.number(), None);
    assert_eq!(Session::Numbered(7).number(), Some(7));
}
