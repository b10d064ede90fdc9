//! Unit tests of the domain model, the mailbox, the wire shapes and the
//! distribution tables.

use monitor::comm::Comm;
use monitor::config::{check_qos, check_unit_map, ConfigMqttUnit, ConfigServeGroup, ConfigWplace};
use monitor::conn::{DtoRecord, DtoUpdate};
use monitor::dataflow::{Data, Group, Record, Unit, Update, Value};
use monitor::dist::{Dist, SubAction, SubEvent, SubState};
use monitor::mailbox::{Mailbox, MailboxOut};
use monitor::repo::records_from_rows;
use monitor::server_model::{handle_min_max, ErrorServer};
use monitor::session::Token;
use monitor::user::Login;
use monitor::wplace::{help_wplace_make, Name};

#[test]
fn update_serialization_round_trips() {
    let (t, b) = Update::Offline.to_ser();
    assert_eq!(t, 0);
    assert!(b.is_none());
    assert!(matches!(Update::from_ser(0, None), Update::Offline));

    let (t, b) = Update::Online.to_ser();
    assert_eq!(t, 1);
    assert!(b.is_none());
    assert!(matches!(Update::from_ser(1, None), Update::Online));

    let v = Update::Value {
        value: Value::new(b"ab".to_vec()),
    };
    let (t, b) = v.to_ser();
    assert_eq!(t, 2);
    let bytes = b.unwrap().to_vec();
    assert_eq!(bytes, b"ab".to_vec());
    match Update::from_ser(2, Some(bytes)) {
        Update::Value { value } => assert_eq!(value.as_bytes(), b"ab"),
        _ => panic!("expected a value"),
    }
    // An unknown code with no payload decodes to the empty value.
    match Update::from_ser(9, None) {
        Update::Value { value } => assert_eq!(value.as_bytes(), b""),
        _ => panic!("expected a value"),
    }
}

#[test]
fn base64_encoding_is_the_standard_one() {
    assert_eq!(Value::new(b"x".to_vec()).into_base64(), "eA==");
    assert_eq!(Value::new(b"".to_vec()).into_base64(), "");
    match DtoUpdate::new(Update::Value {
        value: Value::new(b"hi".to_vec()),
    }) {
        DtoUpdate::Value { v } => assert_eq!(v, "aGk="),
        _ => panic!("expected a value dto"),
    }
}

#[test]
fn dto_record_carries_the_record() {
    let d = DtoRecord::new(
        Group::new("g".to_string()),
        Unit::new("u".to_string()),
        Record {
            is_saved: true,
            id: 9,
            time: 33,
            val: Update::Online,
        },
    );
    assert_eq!(d.id, 9);
    assert_eq!(d.time, 33);
    assert_eq!(d.group, "g");
    assert_eq!(d.unit, "u");
    assert!(matches!(d.update, DtoUpdate::Online));
}

#[test]
fn stored_rows_decode_to_saved_records() {
    let rows = vec![
        (0u64, 5i64, 1u8, None),
        (1u64, 6i64, 2u8, Some(b"z".to_vec())),
    ];
    let records = records_from_rows(rows);
    assert_eq!(records.len(), 2);
    assert!(records[0].is_saved);
    assert_eq!(records[0].id, 0);
    assert_eq!(records[0].time, 5);
    assert!(matches!(records[0].val, Update::Online));
    match &records[1].val {
        Update::Value { value } => assert_eq!(value.as_bytes(), b"z"),
        _ => panic!("expected a value"),
    }
}

#[test]
fn mailbox_delivers_by_priority() {
    let mut mb = Mailbox::new();
    assert!(mb.on_tick().is_none());
    assert!(mb.on_pong(4).is_none());
    assert!(mb
        .on_data(Data::Single {
            group: Group::new("g".to_string()),
            unit: Unit::new("u".to_string()),
            update: Record {
                is_saved: true,
                id: 1,
                time: 0,
                val: Update::Online,
            },
        })
        .is_none());
    assert!(matches!(mb.on_req(), Some(MailboxOut::Tick)));
    assert!(matches!(mb.on_req(), Some(MailboxOut::Pong(4))));
    match mb.on_req() {
        Some(MailboxOut::Data(g, u, r)) => {
            assert_eq!(g.to_str(), "g");
            assert_eq!(u.to_str(), "u");
            assert_eq!(r.id, 1);
        }
        _ => panic!("expected the single buffered record"),
    }
    assert!(mb.on_req().is_none());
    // The parked consumer is woken by the next signal.
    assert!(matches!(mb.on_tick(), Some(MailboxOut::Tick)));
}

#[test]
fn two_unread_pongs_close_the_mailbox() {
    let mut mb = Mailbox::new();
    assert!(mb.on_pong(1).is_none());
    assert!(mb.on_pong(2).is_none());
    assert!(mb.is_closed());
    assert!(matches!(mb.on_req(), Some(MailboxOut::Close)));
}

#[test]
fn close_wakes_a_parked_consumer() {
    let mut mb = Mailbox::new();
    assert!(mb.on_req().is_none());
    assert!(matches!(mb.on_close(), Some(MailboxOut::Close)));
    assert!(mb.is_closed());
}

#[test]
fn tokens_normalize_and_reject() {
    let t = Token::new();
    assert_eq!(t.to_string().len(), 26);
    let up = Token::from_str("01CAH7NXGRDJNE9B1NY7PQGYV7").unwrap();
    let low = Token::from_str("01cah7nxgrdjne9b1ny7pqgyv7").unwrap();
    assert_eq!(up.to_string(), low.to_string());
    assert!(Token::from_str("not a token").is_err());
}

#[test]
fn history_range_is_checked() {
    assert_eq!(handle_min_max(0, 99), Ok((0, 99)));
    assert_eq!(handle_min_max(5, 5), Ok((5, 5)));
    assert_eq!(handle_min_max(0, 100), Err(ErrorServer::BadRequest));
    assert_eq!(handle_min_max(7, 3), Err(ErrorServer::BadRequest));
}

#[test]
fn error_kinds_map_to_status_codes() {
    assert_eq!(ErrorServer::Unauthorized.status(), 401);
    assert_eq!(ErrorServer::BadRequest.status(), 400);
    assert_eq!(ErrorServer::InternalServerError.status(), 500);
    assert_eq!(ErrorServer::NotFound.status(), 404);
}

#[test]
fn config_checks() {
    assert!(check_qos(0) && check_qos(2) && !check_qos(3));
    let good = vec![(
        "u".to_string(),
        ConfigMqttUnit {
            topic: "t".to_string(),
            qos: 0,
            count_min: 2,
            count_max: 5,
        },
    )];
    assert!(check_unit_map(&good));
    let bad = vec![(
        "u".to_string(),
        ConfigMqttUnit {
            topic: "t".to_string(),
            qos: 0,
            count_min: 5,
            count_max: 5,
        },
    )];
    assert!(!check_unit_map(&bad));
}

fn dist_config() -> Vec<(String, ConfigServeGroup)> {
    vec![(
        "g".to_string(),
        ConfigServeGroup {
            units: vec![(
                "u".to_string(),
                ConfigMqttUnit {
                    topic: "top/ic".to_string(),
                    qos: 1,
                    count_min: 2,
                    count_max: 5,
                },
            )],
        },
    )]
}

#[test]
fn dist_routes_by_topic() {
    let dist = Dist::new(&dist_config());
    match dist.serve_data(0, &"top/ic".to_string(), b"m".to_vec()) {
        Some(Data::Single {
            group,
            unit,
            update,
        }) => {
            assert_eq!(group.to_str(), "g");
            assert_eq!(unit.to_str(), "u");
            match update {
                Update::Value { value } => assert_eq!(value.as_bytes(), b"m"),
                _ => panic!("expected a value"),
            }
        }
        _ => panic!("expected routed data"),
    }
    assert!(dist
        .serve_data(0, &"unknown".to_string(), b"m".to_vec())
        .is_none());
    assert!(dist.serve_data(9, &"top/ic".to_string(), b"m".to_vec()).is_none());
}

#[test]
fn dist_fills_a_group_with_a_status() {
    let dist = Dist::new(&dist_config());
    match dist.serve_broker_fill(0, &Update::Offline) {
        Some(Data::Multi { vec }) => {
            assert_eq!(vec.len(), 1);
            assert_eq!(vec[0].0.to_str(), "g");
            assert_eq!(vec[0].1.len(), 1);
            assert_eq!(vec[0].1[0].0.to_str(), "u");
            assert!(matches!(vec[0].1[0].1, Update::Offline));
        }
        _ => panic!("expected a fill"),
    }
    assert!(dist.serve_broker_fill(3, &Update::Online).is_none());
}

#[test]
fn broker_link_state_machine() {
    let mut sub = SubState::new();
    let acts = sub.on_event(SubEvent::Publish {
        topic: "t".to_string(),
        payload: b"p".to_vec(),
    });
    assert_eq!(acts.len(), 2);
    assert!(matches!(acts[0], SubAction::SendOnline));
    assert!(matches!(acts[1], SubAction::SendData { .. }));
    let acts = sub.on_event(SubEvent::Publish {
        topic: "t".to_string(),
        payload: b"p".to_vec(),
    });
    assert_eq!(acts.len(), 1);
    let acts = sub.on_event(SubEvent::Disconnect);
    assert_eq!(acts.len(), 1);
    assert!(matches!(acts[0], SubAction::SendOffline));
    let acts = sub.on_event(SubEvent::ConnError);
    assert_eq!(acts.len(), 0);
    let acts = sub.on_event(SubEvent::OtherIncoming);
    assert_eq!(acts.len(), 1);
    assert!(matches!(acts[0], SubAction::SendOnline));
}

#[test]
fn unit_check_follows_the_workspace() {
    let mut comm = Comm::new(60_000);
    let login = Login::new("alice".to_string());
    let wp = help_wplace_make(
        Name::new("W".to_string()),
        ConfigWplace {
            groups: vec![("g".to_string(), vec!["u".to_string()])],
        },
    );
    let (_, token) = comm
        .serve_http_sess_make(login.clone(), Some(wp), 0)
        .expect("a session");
    let g = Group::new("g".to_string());
    let u = Unit::new("u".to_string());
    let other = Unit::new("other".to_string());
    assert!(comm.serve_http_unit_check(&login, &token, &g, &u, 1).is_ok());
    assert!(comm
        .serve_http_unit_check(&login, &token, &g, &other, 1)
        .is_err());
    let wrong = Token::new();
    assert!(comm.serve_http_unit_check(&login, &wrong, &g, &u, 1).is_err());
    let got = comm.serve_http_wplace_get(&login, &token, 1).unwrap();
    assert_eq!(got.len(), 1);
    assert_eq!(got[0].0.to_str(), "g");
    assert_eq!(got[0].1.len(), 1);
    assert_eq!(got[0].1[0].to_str(), "u");
}

#[test]
fn sess_make_without_workspace_requires_one() {
    let mut comm = Comm::new(60_000);
    let login = Login::new("carol".to_string());
    match comm.serve_http_sess_make(login, None, 0) {
        Err(l) => assert_eq!(l.as_str(), "carol"),
        Ok(_) => panic!("a new login without a workspace must be refused"),
    }
}

#[test]
fn path_prefix_check() {
    assert!(monitor::server_model::path_within(b"/srv/users/alice.json", b"/srv/users"));
    assert!(monitor::server_model::path_within(b"/srv/users", b"/srv/users"));
    assert!(!monitor::server_model::path_within(b"/srv/users-evil/x", b"/srv/users"));
    assert!(!monitor::server_model::path_within(b"/etc/passwd", b"/srv/users"));
}

#[test]
fn workspace_file_pairs_are_exactly_authorized() {
    let wp = help_wplace_make(
        Name::new("W".to_string()),
        ConfigWplace {
            groups: vec![
                ("g1".to_string(), vec!["a".to_string(), "b".to_string()]),
                ("g2".to_string(), vec!["c".to_string()]),
            ],
        },
    );
    let g1 = Group::new("g1".to_string());
    let g2 = Group::new("g2".to_string());
    assert!(wp.check_unit(&g1, &Unit::new("a".to_string())));
    assert!(wp.check_unit(&g1, &Unit::new("b".to_string())));
    assert!(wp.check_unit(&g2, &Unit::new("c".to_string())));
    assert!(!wp.check_unit(&g1, &Unit::new("c".to_string())));
    assert!(!wp.check_unit(&g2, &Unit::new("a".to_string())));
}

#[test]
fn ws_add_needs_a_live_session() {
    let mut comm = Comm::new(60_000);
    let login = Login::new("dave".to_string());
    let token = Token::new();
    assert!(comm.serve_http_ws_add(&login, &token).is_err());
    let wp = help_wplace_make(
        Name::new("W".to_string()),
        ConfigWplace {
            groups: vec![("g".to_string(), vec!["u".to_string()])],
        },
    );
    let (_, minted) = comm
        .serve_http_sess_make(login.clone(), Some(wp), 0)
        .expect("a session");
    // A stale token is refused; the minted one attaches.
    assert!(comm.serve_http_ws_add(&login, &token).is_err());
    assert!(comm.serve_http_ws_add(&login, &minted).is_ok());
}
