//! Store transactions: identifier assignment, lookups, note editing,
//! scan ingestion and discovery.

use netvision::errors::StoreError;
use netvision::ingest::ScanPort;
use netvision::store::{Note, Port, Store};

fn port(number: u16, service: &str) -> Port {
    Port {
        service: service.to_string(),
        application: String::new(),
        protocol: "tcp".to_string(),
        number,
        state: "open".to_string(),
        notes: vec![Note::Empty],
    }
}

#[test]
fn workspace_ids_sequential() {
    let mut st = Store::empty();
    let first = st.add_workspace("Lab".to_string(), "10.0.0.0/24".to_string());
    assert_eq!(first, 1);
    let second = st.add_workspace("Office".to_string(), "192.168.0.0/24".to_string());
    assert_eq!(second, 2);
    assert_eq!(st.workspaces[0].id, 1);
    assert_eq!(st.workspaces[1].id, 2);
    assert_ne!(st.workspaces[0].id, st.workspaces[1].id);
}

#[test]
fn add_machine_assigns_id_and_empty_ports() {
    let mut st = Store::empty();
    st.add_workspace("Lab".to_string(), "10.0.0.0/24".to_string());
    let id = st
        .add_machine(1, "host1".to_string(), "10.0.0.5".to_string())
        .expect("workspace exists");
    assert_eq!(id, 1);
    let m = st.find_machine(1, 1).expect("machine exists");
    assert_eq!(m.hostname, "host1");
    assert_eq!(m.ip, "10.0.0.5");
    assert_eq!(m.icon, "PC");
    assert!(m.ports.is_empty());
}

#[test]
fn add_machine_to_missing_workspace_fails() {
    let mut st = Store::empty();
    let err = st
        .add_machine(1, "host1".to_string(), "10.0.0.5".to_string())
        .unwrap_err();
    assert_eq!(err, StoreError::WorkspaceNotFound { workspace_id: 1 });
    assert_eq!(err.message(), "Workspace '1' not found");
}

#[test]
fn find_port_returns_the_matching_port() {
    let mut st = Store::empty();
    st.add_workspace("Lab".to_string(), "10.0.0.0/24".to_string());
    st.add_machine(1, "host1".to_string(), "10.0.0.5".to_string())
        .unwrap();
    st.replace_ports(1, 1, vec![port(22, "ssh"), port(80, "http")])
        .unwrap();
    let p = st.find_port(1, 1, 80).expect("port 80 present");
    assert_eq!(p.number, 80);
    assert_eq!(p.service, "http");
    let q = st.find_port(1, 1, 22).expect("port 22 present");
    assert_eq!(q.service, "ssh");
    assert!(st.find_port(1, 1, 443).is_none());
    assert!(st.find_port(1, 2, 80).is_none());
    assert!(st.find_port(2, 1, 80).is_none());
}

#[test]
fn empty_scan_clears_ports() {
    let mut st = Store::empty();
    st.add_workspace("Lab".to_string(), "10.0.0.0/24".to_string());
    st.add_machine(1, "host1".to_string(), "10.0.0.5".to_string())
        .unwrap();
    st.replace_ports(1, 1, vec![port(22, "ssh")]).unwrap();
    assert!(netvision::ingest::str_contains("N/A", "N/A"));
    st.ingest_empty_scan(1, 1).unwrap();
    let m = st.find_machine(1, 1).unwrap();
    assert!(m.ports.is_empty());
}

#[test]
fn scan_response_maps_to_ports_and_findings() {
    let mut st = Store::empty();
    st.add_workspace("Lab".to_string(), "10.0.0.0/24".to_string());
    st.add_machine(1, "host1".to_string(), "10.0.0.5".to_string())
        .unwrap();
    let descs = vec![ScanPort {
        service: "http".to_string(),
        application: "nginx".to_string(),
        protocol: "tcp".to_string(),
        number: 80,
        state: "open".to_string(),
        data: None,
        details: Some(vec!["Server: nginx".to_string()]),
    }];
    let count = st.ingest_scan_ports(1, 1, &descs).unwrap();
    assert_eq!(count, 1);
    let m = st.find_machine(1, 1).unwrap();
    assert_eq!(m.ports.len(), 1);
    let p = &m.ports[0];
    assert_eq!(p.number, 80);
    assert_eq!(p.service, "http");
    assert_eq!(p.application, "nginx");
    assert_eq!(
        p.notes,
        vec![Note::ScanFindings(vec!["Server: nginx".to_string()])]
    );
}

#[test]
fn scan_without_details_yields_placeholder_note() {
    let mut st = Store::empty();
    st.add_workspace("Lab".to_string(), "10.0.0.0/24".to_string());
    st.add_machine(1, "h".to_string(), "10.0.0.5".to_string()).unwrap();
    let descs = vec![ScanPort {
        service: "ssh".to_string(),
        application: String::new(),
        protocol: "tcp".to_string(),
        number: 22,
        state: "open".to_string(),
        data: None,
        details: Some(vec![]),
    }];
    st.ingest_scan_ports(1, 1, &descs).unwrap();
    let p = st.find_port(1, 1, 22).unwrap();
    assert_eq!(p.notes, vec![Note::Empty]);
}

#[test]
fn second_scan_replaces_first() {
    let mut st = Store::empty();
    st.add_workspace("Lab".to_string(), "10.0.0.0/24".to_string());
    st.add_machine(1, "host1".to_string(), "10.0.0.5".to_string())
        .unwrap();
    st.replace_ports(1, 1, vec![port(22, "ssh"), port(80, "http")])
        .unwrap();
    st.replace_ports(1, 1, vec![port(443, "https")]).unwrap();
    let m = st.find_machine(1, 1).unwrap();
    assert_eq!(m.ports.len(), 1);
    assert_eq!(m.ports[0].number, 443);
    assert!(st.find_port(1, 1, 22).is_none());
    assert!(st.find_port(1, 1, 80).is_none());
}

#[test]
fn duplicate_scan_numbers_are_rejected() {
    let mut st = Store::empty();
    st.add_workspace("Lab".to_string(), "10.0.0.0/24".to_string());
    st.add_machine(1, "h".to_string(), "10.0.0.5".to_string()).unwrap();
    let one = ScanPort {
        service: "a".to_string(),
        application: String::new(),
        protocol: "tcp".to_string(),
        number: 80,
        state: "open".to_string(),
        data: None,
        details: None,
    };
    let before = st.clone();
    let err = st.ingest_scan_ports(1, 1, &vec![one.clone(), one]).unwrap_err();
    assert_eq!(err, StoreError::MalformedScanResponse);
    assert_eq!(err.message(), "Failed to parse scan response");
    assert_eq!(st, before);
}

#[test]
fn note_index_out_of_bounds_leaves_store_unchanged() {
    let mut st = Store::empty();
    st.add_workspace("Lab".to_string(), "10.0.0.0/24".to_string());
    st.add_machine(1, "h".to_string(), "10.0.0.5".to_string()).unwrap();
    st.replace_ports(1, 1, vec![port(80, "http")]).unwrap();
    let before = st.clone();
    let err = st
        .update_note_content(1, 1, 80, 1, "new".to_string())
        .unwrap_err();
    assert_eq!(
        err,
        StoreError::NoteIndexOutOfBounds { note_index: 1, note_count: 1 }
    );
    assert_eq!(err.message(), "Note index out of bounds");
    assert_eq!(st, before);
}

#[test]
fn scan_findings_note_is_not_editable() {
    let mut st = Store::empty();
    st.add_workspace("Lab".to_string(), "10.0.0.0/24".to_string());
    st.add_machine(1, "host1".to_string(), "10.0.0.5".to_string())
        .unwrap();
    let descs = vec![ScanPort {
        service: "http".to_string(),
        application: "nginx".to_string(),
        protocol: "tcp".to_string(),
        number: 80,
        state: "open".to_string(),
        data: None,
        details: Some(vec!["Server: nginx".to_string()]),
    }];
    st.ingest_scan_ports(1, 1, &descs).unwrap();
    let before = st.clone();
    let err = st
        .update_note_content(1, 1, 80, 0, "edited".to_string())
        .unwrap_err();
    assert_eq!(err, StoreError::NoteNotEditable { note_index: 0 });
    assert_eq!(st, before);
}

#[test]
fn pentest_observation_content_is_editable_in_place() {
    let mut st = Store::empty();
    st.add_workspace("Lab".to_string(), "10.0.0.0/24".to_string());
    st.add_machine(1, "h".to_string(), "10.0.0.5".to_string()).unwrap();
    st.replace_ports(1, 1, vec![port(80, "http")]).unwrap();
    let notes = vec![
        Note::Empty,
        Note::PentestObservation {
            stage: "Enumeration".to_string(),
            content: "first pass".to_string(),
            timestamp: "2024-01-01".to_string(),
        },
    ];
    st.set_port_notes(1, 1, 80, notes).unwrap();
    st.update_note_content(1, 1, 80, 1, "second pass".to_string())
        .unwrap();
    let p = st.find_port(1, 1, 80).unwrap();
    assert_eq!(
        p.notes[1],
        Note::PentestObservation {
            stage: "Enumeration".to_string(),
            content: "second pass".to_string(),
            timestamp: "2024-01-01".to_string(),
        }
    );
    assert_eq!(p.notes[0], Note::Empty);
}

#[test]
fn update_note_on_missing_port_names_the_chain() {
    let mut st = Store::empty();
    st.add_workspace("Lab".to_string(), "10.0.0.0/24".to_string());
    st.add_machine(1, "h".to_string(), "10.0.0.5".to_string()).unwrap();
    let err = st
        .update_note_content(1, 1, 8080, 0, "x".to_string())
        .unwrap_err();
    assert_eq!(
        err,
        StoreError::PortNotFound { workspace_id: 1, machine_id: 1, port_number: 8080 }
    );
    assert_eq!(
        err.message(),
        "Port '8080' not found in machine '1' in workspace '1'"
    );
    let err2 = st.set_port_notes(1, 5, 80, vec![]).unwrap_err();
    assert_eq!(
        err2,
        StoreError::MachineNotFound { workspace_id: 1, machine_id: 5 }
    );
    assert_eq!(err2.message(), "Machine '5' not found in workspace '1'");
}

#[test]
fn discovered_hosts_continue_sequentially() {
    let mut st = Store::empty();
    st.add_workspace("Lab".to_string(), "10.0.0.0/24".to_string());
    st.add_machine(1, "host1".to_string(), "10.0.0.5".to_string())
        .unwrap();
    let hosts = vec!["10.0.0.7".to_string(), "10.0.0.9".to_string()];
    let added = st.add_discovered_hosts(1, &hosts).unwrap();
    assert_eq!(added, 2);
    let w = st.find_workspace(1).unwrap();
    assert_eq!(w.machines.len(), 3);
    assert_eq!(w.machines[1].id, 2);
    assert_eq!(w.machines[1].hostname, "Host_10.0.0.7");
    assert_eq!(w.machines[1].ip, "10.0.0.7");
    assert_eq!(w.machines[2].id, 3);
    assert_eq!(w.machines[2].hostname, "Host_10.0.0.9");
    assert!(w.machines[2].ports.is_empty());
}

#[test]
fn sentinel_detection_scans_the_whole_text() {
    assert!(netvision::ingest::str_contains(
        "Scan completed: N/A",
        "N/A"
    ));
    assert!(!netvision::ingest::str_contains("[]", "N/A"));
    assert!(!netvision::ingest::str_contains("N-A N/B", "N/A"));
}
