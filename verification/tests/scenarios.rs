//! End-to-end scenarios over the verified core, with the real store.

use monitor::comm::Comm;
use monitor::config::{ConfigMqttUnit, ConfigServeGroup, ConfigWplace};
use monitor::conn::ConnState;
use monitor::dataflow::{Data, Group, Record, Unit, Update, Value};
use monitor::db::{ingest_batch, Records};
use monitor::mailbox::{Mailbox, MailboxOut};
use monitor::repo::Repo;
use monitor::session::Token;
use monitor::user::Login;
use monitor::wplace::{help_wplace_make, Name};

fn test_config() -> Vec<(String, ConfigServeGroup)> {
    vec![(
        "g".to_string(),
        ConfigServeGroup {
            units: vec![(
                "u".to_string(),
                ConfigMqttUnit {
                    topic: "t".to_string(),
                    qos: 0,
                    count_min: 2,
                    count_max: 5,
                },
            )],
        },
    )]
}

fn value_data(bytes: &[u8]) -> Data<Update> {
    Data::Single {
        group: Group::new("g".to_string()),
        unit: Unit::new("u".to_string()),
        update: Update::Value {
            value: Value::new(bytes.to_vec()),
        },
    }
}

#[test]
fn single_ingest_assigns_id_zero_and_broadcasts() {
    let conn = rusqlite::Connection::open_in_memory().unwrap();
    let cfg = test_config();
    let mut repo = Repo::new(&conn, &cfg).unwrap();
    let out = ingest_batch(&conn, &mut repo, vec![value_data(b"x")]);
    match out {
        Records::Single(Data::Single {
            group,
            unit,
            update,
        }) => {
            assert_eq!(group.to_str(), "g");
            assert_eq!(unit.to_str(), "u");
            assert_eq!(update.id, 0);
            assert!(update.is_saved);
            match &update.val {
                Update::Value { value } => assert_eq!(value.as_bytes(), b"x"),
                _ => panic!("expected a value update"),
            }
        }
        _ => panic!("expected a single broadcast"),
    }
}

#[test]
fn retention_trims_two_oldest_after_five_ingests() {
    let conn = rusqlite::Connection::open_in_memory().unwrap();
    let cfg = test_config();
    let mut repo = Repo::new(&conn, &cfg).unwrap();
    for i in 0..5u8 {
        let out = ingest_batch(&conn, &mut repo, vec![value_data(&[i])]);
        match out {
            Records::Single(Data::Single { update, .. }) => assert_eq!(update.id, i as u64),
            _ => panic!("expected a single broadcast"),
        }
    }
    let group = Group::new("g".to_string());
    let unit = Unit::new("u".to_string());
    let records = repo.data_get(&conn, &group, &unit, 0, 99).unwrap();
    let ids: Vec<u64> = records.iter().map(|r| r.id).collect();
    assert_eq!(ids, vec![2, 3, 4]);
    let last = repo.data_last(&vec![(group, vec![unit])]);
    assert_eq!(last.len(), 1);
    assert_eq!(last[0].1.len(), 1);
    let rec = last[0].1[0].1.as_ref().expect("a last record");
    assert_eq!(rec.id, 4);
}

fn rec(id: u64) -> Record<Update> {
    Record {
        is_saved: true,
        id,
        time: 0,
        val: Update::Online,
    }
}

#[test]
fn coalescing_keeps_the_latest_record_per_key() {
    let mut mb = Mailbox::new();
    let g = || Group::new("g".to_string());
    let data = |u: &str, r: Record<Update>| Data::Single {
        group: g(),
        unit: Unit::new(u.to_string()),
        update: r,
    };
    assert!(mb.on_data(data("u", rec(1))).is_none());
    assert!(mb.on_data(data("u", rec(2))).is_none());
    assert!(mb.on_data(data("v", rec(3))).is_none());
    match mb.on_req() {
        Some(MailboxOut::DataMap(kr)) => {
            let entries = kr.into_entries();
            assert_eq!(entries.len(), 2);
            for (group, unit, r) in &entries {
                assert_eq!(group.to_str(), "g");
                match unit.to_str() {
                    "u" => assert_eq!(r.id, 2),
                    "v" => assert_eq!(r.id, 3),
                    other => panic!("unexpected unit {}", other),
                }
            }
        }
        _ => panic!("expected a coalesced map"),
    }
}

#[test]
fn session_expires_after_grace_and_check_is_refused() {
    let mut comm = Comm::new(1000);
    let login = Login::new("alice".to_string());
    let wp = help_wplace_make(
        Name::new("W".to_string()),
        ConfigWplace {
            groups: vec![("g".to_string(), vec!["u".to_string()])],
        },
    );
    let (_, token) = comm
        .serve_http_sess_make(login.clone(), Some(wp), 0)
        .expect("a session");
    assert!(comm.serve_http_sess_check(&login, &token, 500).is_ok());
    // The check at 500 restarted the grace window: 1200 is still inside.
    let _ = comm.serve_sess_heartbeat(&login, &token, 1200);
    assert!(comm.serve_http_sess_check(&login, &token, 1200).is_ok());
    // No activity after 1200: the next heartbeat past 2200 closes it.
    let _ = comm.serve_sess_heartbeat(&login, &token, 2301);
    assert!(comm.serve_http_sess_check(&login, &token, 2301).is_err());
}

#[test]
fn fresh_session_expires_at_grace_boundary() {
    let mut comm = Comm::new(1000);
    let login = Login::new("bob".to_string());
    let wp = help_wplace_make(
        Name::new("W".to_string()),
        ConfigWplace {
            groups: vec![("g".to_string(), vec!["u".to_string()])],
        },
    );
    let (_, token) = comm
        .serve_http_sess_make(login.clone(), Some(wp), 0)
        .expect("a session");
    let _ = comm.serve_sess_heartbeat(&login, &token, 1001);
    assert!(comm.serve_http_sess_check(&login, &token, 1001).is_err());
}

fn make_online_user(comm: &mut Comm, login: &str, wname: &str) -> (Login, Token, u64) {
    let login = Login::new(login.to_string());
    let wp = help_wplace_make(
        Name::new(wname.to_string()),
        ConfigWplace {
            groups: vec![("g".to_string(), vec!["u".to_string()])],
        },
    );
    let (_, token) = comm
        .serve_http_sess_make(login.clone(), Some(wp), 0)
        .expect("a session");
    let (conn_id, snapshot) = comm.serve_http_ws_add(&login, &token).expect("a connection");
    assert_eq!(snapshot.len(), 1);
    assert_eq!(snapshot[0].0.to_str(), "g");
    (login, token, conn_id)
}

#[test]
fn two_workspaces_each_receive_one_delivery() {
    let mut comm = Comm::new(60_000);
    let (l1, _t1, _c1) = make_online_user(&mut comm, "alice", "W1");
    let (l2, _t2, _c2) = make_online_user(&mut comm, "bob", "W2");
    let data = Data::Single {
        group: Group::new("g".to_string()),
        unit: Unit::new("u".to_string()),
        update: rec(7),
    };
    let deliveries = comm.serve_db_data(&data);
    assert_eq!(deliveries.len(), 2);
    let mut saw_alice = 0;
    let mut saw_bob = 0;
    for d in &deliveries {
        if d.login.as_str() == l1.as_str() {
            saw_alice += 1;
        }
        if d.login.as_str() == l2.as_str() {
            saw_bob += 1;
        }
        match &d.data {
            Data::Single { group, unit, update } => {
                assert_eq!(group.to_str(), "g");
                assert_eq!(unit.to_str(), "u");
                assert_eq!(update.id, 7);
            }
            _ => panic!("expected single data"),
        }
    }
    assert_eq!(saw_alice, 1);
    assert_eq!(saw_bob, 1);
}

#[test]
fn fan_out_addresses_each_connection_exactly_once() {
    let mut comm = Comm::new(60_000);
    let (l1, t1, _c1) = make_online_user(&mut comm, "alice", "W1");
    let (_c1b, _snap) = comm.serve_http_ws_add(&l1, &t1).expect("a second connection");
    let (_l2, _t2, _c2) = make_online_user(&mut comm, "bob", "W2");
    let data = Data::Single {
        group: Group::new("g".to_string()),
        unit: Unit::new("u".to_string()),
        update: rec(3),
    };
    let deliveries = comm.serve_db_data(&data);
    assert_eq!(deliveries.len(), 3);
    for a in 0..deliveries.len() {
        for b in (a + 1)..deliveries.len() {
            let same = deliveries[a].login.as_str() == deliveries[b].login.as_str()
                && deliveries[a].token.as_name() == deliveries[b].token.as_name()
                && deliveries[a].conn_id == deliveries[b].conn_id;
            assert!(!same, "one address received two writes");
        }
    }
}

#[test]
fn unauthorized_unit_reaches_no_client() {
    let mut comm = Comm::new(60_000);
    let (_l1, _t1, _c1) = make_online_user(&mut comm, "alice", "W1");
    let data = Data::Single {
        group: Group::new("g".to_string()),
        unit: Unit::new("other".to_string()),
        update: rec(1),
    };
    assert_eq!(comm.serve_db_data(&data).len(), 0);
}

#[test]
fn heartbeat_mismatch_closes_connection_and_detaches_it() {
    // The connection pings with counter zero; the client never answers.
    let mut state = ConnState::new();
    assert!(state.on_tick().is_none());
    // A matching pong lets the next tick advance the counter instead.
    let mut healthy = ConnState::new();
    healthy.on_pong(0);
    assert_eq!(healthy.on_tick(), Some(1));
    // After the close, the routing actor drops the connection: the
    // session falls offline and later records reach nobody.
    let mut comm = Comm::new(60_000);
    let (login, token, conn_id) = make_online_user(&mut comm, "alice", "W1");
    let _ = comm.serve_conn_closed(&login, &token, conn_id, 10);
    let data = Data::Single {
        group: Group::new("g".to_string()),
        unit: Unit::new("u".to_string()),
        update: rec(1),
    };
    assert_eq!(comm.serve_db_data(&data).len(), 0);
}

#[test]
fn grouped_batch_is_bundled_per_connection() {
    let mut comm = Comm::new(60_000);
    let (_l1, _t1, _c1) = make_online_user(&mut comm, "alice", "W1");
    let data: Data<Record<Update>> = Data::Multi {
        vec: vec![(
            Group::new("g".to_string()),
            vec![
                (Unit::new("u".to_string()), rec(1)),
                (Unit::new("u".to_string()), rec(2)),
            ],
        )],
    };
    let deliveries = comm.serve_db_data(&data);
    assert_eq!(deliveries.len(), 1);
    match &deliveries[0].data {
        Data::Multi { vec } => {
            assert_eq!(vec.len(), 1);
            assert_eq!(vec[0].0.to_str(), "g");
            assert_eq!(vec[0].1.len(), 2);
            assert_eq!(vec[0].1[0].1.id, 1);
            assert_eq!(vec[0].1[1].1.id, 2);
        }
        _ => panic!("expected a bundle"),
    }
}
