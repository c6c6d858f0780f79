use rust_express::connection::{step, Action, Event, Phase, READ_LIMIT};

const PHASES: [Phase; 6] = [
    Phase::Accepted,
    Phase::Reading,
    Phase::Parsed,
    Phase::Dispatching,
    Phase::Writing,
    Phase::Closed,
];

const EVENTS: [Event; 6] = [
    Event::Opened,
    Event::Data,
    Event::Decoded,
    Event::Answered,
    Event::Written,
    Event::Failed,
];

#[test]
fn read_limit_is_one_buffer() {
    assert_eq!(READ_LIMIT, 4096);
}

#[test]
fn a_connection_without_failure_goes_through_every_state() {
    assert_eq!(step(Phase::Accepted, Event::Opened), (Phase::Reading, Action::Read));
    assert_eq!(step(Phase::Reading, Event::Data), (Phase::Parsed, Action::Decode));
    assert_eq!(step(Phase::Parsed, Event::Decoded), (Phase::Dispatching, Action::Dispatch));
    assert_eq!(step(Phase::Dispatching, Event::Answered), (Phase::Writing, Action::Write));
    assert_eq!(step(Phase::Writing, Event::Written), (Phase::Closed, Action::Close));
}

#[test]
fn a_failure_closes_the_connection() {
    for phase in PHASES {
        if phase != Phase::Closed {
            assert_eq!(step(phase, Event::Failed), (Phase::Closed, Action::Close));
        }
    }
}

#[test]
fn an_unexpected_event_closes_the_connection() {
    assert_eq!(step(Phase::Accepted, Event::Data), (Phase::Closed, Action::Close));
    assert_eq!(step(Phase::Reading, Event::Written), (Phase::Closed, Action::Close));
    assert_eq!(step(Phase::Parsed, Event::Opened), (Phase::Closed, Action::Close));
    assert_eq!(step(Phase::Dispatching, Event::Decoded), (Phase::Closed, Action::Close));
    assert_eq!(step(Phase::Writing, Event::Answered), (Phase::Closed, Action::Close));
}

#[test]
fn a_closed_connection_stays_closed() {
    for event in EVENTS {
        assert_eq!(step(Phase::Closed, event), (Phase::Closed, Action::Nothing));
    }
}

#[test]
fn every_run_closes_once_within_five_events() {
    for start in EVENTS {
        for second in EVENTS {
            for third in EVENTS {
                for fourth in EVENTS {
                    for fifth in EVENTS {
                        let mut phase = Phase::Accepted;
                        let mut closes = 0;
                        for event in [start, second, third, fourth, fifth] {
                            let (next, action) = step(phase, event);
                            if action == Action::Close {
                                closes += 1;
                            }
                            phase = next;
                        }
                        assert_eq!(phase, Phase::Closed);
                        assert_eq!(closes, 1);
                    }
                }
            }
        }
    }
}
