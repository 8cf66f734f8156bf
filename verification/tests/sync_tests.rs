use atuin::api::AddHistoryRequest;
use atuin::record::HistoryRecord;
use atuin::server::ServerStore;
use atuin::store::ClientStore;
use atuin::sync::SyncClient;
use atuin::SyncError;

fn key() -> Vec<u8> {
    (0u8..32u8).collect()
}

fn record(id: &str, ts: u64, host: &str) -> HistoryRecord {
    HistoryRecord {
        id: id.to_string(),
        timestamp: ts,
        hostname: host.to_string(),
        command: format!("command {}", id),
        cwd: "/".to_string(),
        exit: 0,
        duration: 1,
    }
}

fn fill(store: &mut ClientStore, host: &str, prefix: &str, timestamps: &[u64]) {
    for (i, ts) in timestamps.iter().enumerate() {
        assert!(store.insert_if_absent(record(&format!("{}-{}", prefix, i), *ts, host)));
    }
}

#[test]
fn idempotent_upload() {
    let mut server = ServerStore::new();
    let req = AddHistoryRequest {
        id: "one".to_string(),
        timestamp: 5,
        data: "payload".to_string(),
        hostname: "laptop".to_string(),
    };
    server.add_history(req.clone());
    assert_eq!(server.count().count, 1);
    server.add_history(req.clone());
    assert_eq!(server.count().count, 1);
    let mut changed = req;
    changed.data = "other payload".to_string();
    server.add_history(changed);
    assert_eq!(server.count().count, 1);
}

#[test]
fn sync_convergence_two_hosts() {
    let mut server = ServerStore::new();
    let mut store_a = ClientStore::new();
    let mut store_b = ClientStore::new();
    fill(&mut store_a, "laptop", "a", &[10, 20, 30]);
    fill(&mut store_b, "desktop", "b", &[15, 25]);

    let mut client_a = SyncClient::new("laptop".to_string(), key());
    let mut client_b = SyncClient::new("desktop".to_string(), key());

    client_a.sync(&mut store_a, &mut server, false).unwrap();
    client_b.sync(&mut store_b, &mut server, false).unwrap();
    client_a.sync(&mut store_a, &mut server, false).unwrap();

    assert_eq!(store_a.count(), 5);
    assert_eq!(store_b.count(), 5);
    assert_eq!(server.count().count, 5);

    // Nothing a host uploaded comes back to it: its own records were already
    // present, so downloads added only the other host's records.
    let from_b_on_a = store_a.records_since(0, Some(&"laptop".to_string()));
    assert_eq!(from_b_on_a.len(), 2);
    let from_a_on_b = store_b.records_since(0, Some(&"desktop".to_string()));
    assert_eq!(from_a_on_b.len(), 3);
}

#[test]
fn checkpoint_monotonicity() {
    let mut server = ServerStore::new();
    let mut store_a = ClientStore::new();
    let mut store_b = ClientStore::new();
    fill(&mut store_a, "laptop", "a", &[100, 200]);
    let mut client_a = SyncClient::new("laptop".to_string(), key());
    let mut client_b = SyncClient::new("desktop".to_string(), key());

    let mut last = client_b.last_sync_timestamp();
    client_a.sync(&mut store_a, &mut server, false).unwrap();
    client_b.sync(&mut store_b, &mut server, false).unwrap();
    assert!(client_b.last_sync_timestamp() >= last);
    last = client_b.last_sync_timestamp();
    assert_eq!(last, 200);

    fill(&mut store_a, "laptop", "a2", &[300]);
    client_a.sync(&mut store_a, &mut server, false).unwrap();
    client_b.sync(&mut store_b, &mut server, false).unwrap();
    assert!(client_b.last_sync_timestamp() >= last);
    assert_eq!(client_b.last_sync_timestamp(), 300);

    // A forced run re-reads everything; ending on the same history it lands
    // on the same boundary.
    client_b.sync(&mut store_b, &mut server, true).unwrap();
    assert_eq!(client_b.last_sync_timestamp(), 300);
}

#[test]
fn page_exhaustion_three_round_trips() {
    let mut server = ServerStore::new();
    let mut store_other = ClientStore::new();
    let timestamps: Vec<u64> = (1..=250).collect();
    fill(&mut store_other, "other", "o", &timestamps);
    let mut client_other = SyncClient::new("other".to_string(), key());
    client_other.sync(&mut store_other, &mut server, false).unwrap();
    assert_eq!(server.count().count, 250);

    let mut store_me = ClientStore::new();
    let mut client_me = SyncClient::new("me".to_string(), key());
    let stats = client_me.sync(&mut store_me, &mut server, false).unwrap();
    assert_eq!(stats.pages, 3);
    assert_eq!(stats.downloaded, 250);
    assert_eq!(store_me.count(), 250);
}

#[test]
fn example_scenario_laptop_uploads_desktop_receives() {
    let mut server = ServerStore::new();
    let mut laptop_store = ClientStore::new();
    fill(&mut laptop_store, "laptop", "l", &[1, 2, 3, 4, 5]);
    let mut laptop = SyncClient::new("laptop".to_string(), key());
    laptop.sync(&mut laptop_store, &mut server, false).unwrap();
    assert_eq!(server.count().count, 5);

    let mut desktop_store = ClientStore::new();
    let mut desktop = SyncClient::new("desktop".to_string(), key());
    assert_eq!(desktop.last_sync_timestamp(), 0);
    desktop.sync(&mut desktop_store, &mut server, false).unwrap();

    assert_eq!(desktop_store.count(), 5);
    let own = desktop_store.records_since(0, Some(&"laptop".to_string()));
    assert_eq!(own.len(), 0, "no received record is attributed to the desktop itself");
    assert_eq!(desktop.last_sync_timestamp(), 5);
}

#[test]
fn malformed_server_data_is_a_protocol_error() {
    let mut server = ServerStore::new();
    server.add_history(AddHistoryRequest {
        id: "bad".to_string(),
        timestamp: 10,
        data: "@@ not a wire blob @@".to_string(),
        hostname: "other".to_string(),
    });
    let mut store = ClientStore::new();
    let mut client = SyncClient::new("me".to_string(), key());
    assert!(matches!(client.sync(&mut store, &mut server, false), Err(SyncError::Protocol)));
    // The failed run left both the checkpoint and the store alone.
    assert_eq!(client.last_sync_timestamp(), 0);
    assert_eq!(store.count(), 0);
}

#[test]
fn wrong_key_download_names_the_blob() {
    let mut server = ServerStore::new();
    let mut store_other = ClientStore::new();
    fill(&mut store_other, "other", "o", &[7]);
    let mut client_other = SyncClient::new("other".to_string(), key());
    client_other.sync(&mut store_other, &mut server, false).unwrap();

    let bad_key: Vec<u8> = (50u8..82u8).collect();
    let mut store = ClientStore::new();
    let mut client = SyncClient::new("me".to_string(), bad_key);
    match client.sync(&mut store, &mut server, false) {
        Err(SyncError::DownloadCrypto { id, timestamp, hostname, .. }) => {
            assert_eq!(id, "o-0");
            assert_eq!(timestamp, 7);
            assert_eq!(hostname, "other");
        },
        other => panic!("expected a download crypto failure, got {:?}", other),
    }
    // The failed run left both the checkpoint and the store alone.
    assert_eq!(client.last_sync_timestamp(), 0);
    assert_eq!(store.count(), 0);
}

#[test]
fn failed_run_leaves_store_untouched() {
    // One decryptable blob and one malformed blob share the page: the run
    // fails and not even the good record is kept.
    let mut server = ServerStore::new();
    let mut store_other = ClientStore::new();
    fill(&mut store_other, "other", "o", &[5]);
    let mut client_other = SyncClient::new("other".to_string(), key());
    client_other.sync(&mut store_other, &mut server, false).unwrap();
    server.add_history(AddHistoryRequest {
        id: "bad".to_string(),
        timestamp: 10,
        data: "@@ not a wire blob @@".to_string(),
        hostname: "other".to_string(),
    });

    let mut store = ClientStore::new();
    let mut client = SyncClient::new("me".to_string(), key());
    assert!(client.sync(&mut store, &mut server, false).is_err());
    assert_eq!(store.count(), 0);
    assert_eq!(client.last_sync_timestamp(), 0);

    // Once the bad blob is gone the same stores converge as usual.
    let mut clean = ServerStore::new();
    client_other.sync(&mut store_other, &mut clean, false).unwrap();
    client.sync(&mut store, &mut clean, false).unwrap();
    assert_eq!(store.count(), 1);
    assert_eq!(client.last_sync_timestamp(), 5);
}

#[test]
fn force_sync_redownloads_everything() {
    let mut server = ServerStore::new();
    let mut store_other = ClientStore::new();
    fill(&mut store_other, "other", "o", &[1, 2, 3]);
    let mut client_other = SyncClient::new("other".to_string(), key());
    client_other.sync(&mut store_other, &mut server, false).unwrap();

    let mut store = ClientStore::new();
    let mut client = SyncClient::new("me".to_string(), key());
    client.sync(&mut store, &mut server, false).unwrap();
    assert_eq!(store.count(), 3);

    // Everything is re-offered under force; idempotent inserts keep the
    // store duplicate-free.
    client.sync(&mut store, &mut server, true).unwrap();
    assert_eq!(store.count(), 3);
}

#[test]
fn local_store_dedups_on_id() {
    let mut store = ClientStore::new();
    assert!(store.insert_if_absent(record("same", 1, "laptop")));
    assert!(!store.insert_if_absent(record("same", 2, "desktop")));
    assert_eq!(store.count(), 1);
    assert_eq!(store.max_timestamp(), 1);
}
