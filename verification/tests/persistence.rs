//! The persisted document: canonical rendering, strict loading, the
//! round trip, and the serialized snapshots and collaborator
//! payloads.

use netvision::store::{Note, Port, Store};

fn rich_store() -> Store {
    let mut st = Store::empty();
    st.add_workspace("Lab \"A\"\\".to_string(), "10.0.0.0/24".to_string());
    st.add_machine(1, "host1".to_string(), "10.0.0.5".to_string())
        .unwrap();
    let ports = vec![Port {
        service: "http".to_string(),
        application: "nginx".to_string(),
        protocol: "tcp".to_string(),
        number: 80,
        state: "open".to_string(),
        notes: vec![
            Note::ScanFindings(vec!["Server: nginx".to_string(), "tab\there".to_string()]),
            Note::Credentials {
                name: Some("admin".to_string()),
                hash: None,
                password: Some("pw".to_string()),
            },
            Note::PentestObservation {
                stage: "Enumeration".to_string(),
                content: "line1\nline2".to_string(),
                timestamp: "2024-01-01".to_string(),
            },
            Note::Empty,
        ],
    }];
    st.replace_ports(1, 1, ports).unwrap();
    st
}

#[test]
fn save_of_empty_store_is_canonical() {
    let st = Store::empty();
    assert_eq!(st.save(), "{\"name\":\"Default\",\"data\":[]}");
}

#[test]
fn save_renders_the_whole_hierarchy() {
    let mut st = Store::empty();
    st.add_workspace("Lab".to_string(), "10.0.0.0/24".to_string());
    st.add_machine(1, "host1".to_string(), "10.0.0.5".to_string())
        .unwrap();
    st.replace_ports(
        1,
        1,
        vec![Port {
            service: "http".to_string(),
            application: "nginx".to_string(),
            protocol: "tcp".to_string(),
            number: 80,
            state: "open".to_string(),
            notes: vec![Note::ScanFindings(vec!["Server: nginx".to_string()]), Note::Empty],
        }],
    )
    .unwrap();
    let expected = "{\"name\":\"Default\",\"data\":[{\"id\":1,\"name\":\"Lab\",\"ip_range\":\"10.0.0.0/24\",\"machines\":[{\"id\":1,\"hostname\":\"host1\",\"icon\":\"PC\",\"ip\":\"10.0.0.5\",\"ports\":[{\"service\":\"http\",\"application\":\"nginx\",\"protocol\":\"tcp\",\"number\":80,\"state\":\"open\",\"notes\":[{\"ScanFindings\":[\"Server: nginx\"]},\"Empty\"]}]}]}]}";
    assert_eq!(st.save(), expected);
}

#[test]
fn save_escapes_string_content() {
    let mut st = Store::empty();
    st.add_workspace("a\"b\\c\nd\te\rf".to_string(), "r".to_string());
    let text = st.save();
    assert!(text.contains("a\\\"b\\\\c\\nd\\te\\rf"));
}

#[test]
fn load_reads_back_what_save_wrote() {
    let st = rich_store();
    let text = st.save();
    let reloaded = Store::load(&text).expect("canonical document loads");
    assert_eq!(reloaded, st);
    assert_eq!(reloaded.save(), text);
}

#[test]
fn save_after_load_is_a_no_op_on_content() {
    let text = rich_store().save();
    let written = netvision::parse::save_after_load(&text).expect("document loads");
    assert_eq!(written, text);
}

#[test]
fn load_rejects_unreadable_documents() {
    assert!(Store::load("").is_none());
    assert!(Store::load("garbage").is_none());
    assert!(Store::load("{\"name\":\"D\",\"data\":[]} ").is_none());
    assert!(Store::load("{ \"name\": \"D\", \"data\": [] }").is_none());
    assert!(Store::load("{\"name\":\"D\",\"data\":[]").is_none());
}

#[test]
fn load_rejects_broken_identifiers() {
    let with_wrong_id =
        "{\"name\":\"D\",\"data\":[{\"id\":2,\"name\":\"W\",\"ip_range\":\"r\",\"machines\":[]}]}";
    assert!(Store::load(with_wrong_id).is_none());
    let with_duplicate_ports = "{\"name\":\"D\",\"data\":[{\"id\":1,\"name\":\"W\",\"ip_range\":\"r\",\"machines\":[{\"id\":1,\"hostname\":\"h\",\"icon\":\"PC\",\"ip\":\"i\",\"ports\":[{\"service\":\"a\",\"application\":\"\",\"protocol\":\"t\",\"number\":80,\"state\":\"o\",\"notes\":[]},{\"service\":\"b\",\"application\":\"\",\"protocol\":\"t\",\"number\":80,\"state\":\"o\",\"notes\":[]}]}]}]}";
    assert!(Store::load(with_duplicate_ports).is_none());
}

#[test]
fn load_accepts_a_hand_written_canonical_document() {
    let text = "{\"name\":\"D\",\"data\":[{\"id\":1,\"name\":\"W\",\"ip_range\":\"r\",\"machines\":[{\"id\":1,\"hostname\":\"h\",\"icon\":\"PC\",\"ip\":\"i\",\"ports\":[{\"service\":\"s\",\"application\":\"\",\"protocol\":\"t\",\"number\":65535,\"state\":\"o\",\"notes\":[{\"Credentials\":{\"name\":null,\"hash\":\"ab\",\"password\":null}}]}]}]}]}";
    let st = Store::load(text).expect("canonical document loads");
    let p = st.find_port(1, 1, 65535).expect("port present");
    assert_eq!(
        p.notes[0],
        Note::Credentials { name: None, hash: Some("ab".to_string()), password: None }
    );
    assert_eq!(st.save(), text);
}

#[test]
fn workspace_snapshots_serialize_entities() {
    let mut st = Store::empty();
    st.add_workspace("Lab".to_string(), "10.0.0.0/24".to_string());
    assert_eq!(
        st.workspaces_json(),
        "[{\"id\":1,\"name\":\"Lab\",\"ip_range\":\"10.0.0.0/24\",\"machines\":[]}]"
    );
    assert_eq!(
        st.workspace_json(1).unwrap(),
        "{\"id\":1,\"name\":\"Lab\",\"ip_range\":\"10.0.0.0/24\",\"machines\":[]}"
    );
    assert_eq!(
        st.workspace_json(2).unwrap_err().message(),
        "Workspace '2' not found"
    );
    assert_eq!(st.machines_json(1).unwrap(), "[]");
    assert_eq!(
        st.machines_json(9).unwrap_err().message(),
        "Workspace '9' not found"
    );
    st.add_machine(1, "h".to_string(), "10.0.0.5".to_string()).unwrap();
    assert_eq!(
        st.machines_json(1).unwrap(),
        "[{\"id\":1,\"hostname\":\"h\",\"icon\":\"PC\",\"ip\":\"10.0.0.5\",\"ports\":[]}]"
    );
    assert_eq!(st.ports_json(1, 1).unwrap(), "[]");
    assert_eq!(
        st.ports_json(1, 2).unwrap_err().message(),
        "Machine '2' not found in workspace '1'"
    );
    assert_eq!(
        st.ports_json(3, 1).unwrap_err().message(),
        "Workspace '3' not found"
    );
}

#[test]
fn question_context_lists_the_chain_and_notes() {
    let mut st = Store::empty();
    st.add_workspace("Lab".to_string(), "10.0.0.0/24".to_string());
    st.add_machine(1, "host1".to_string(), "10.0.0.5".to_string())
        .unwrap();
    st.replace_ports(
        1,
        1,
        vec![Port {
            service: "http".to_string(),
            application: "nginx".to_string(),
            protocol: "tcp".to_string(),
            number: 80,
            state: "open".to_string(),
            notes: vec![
                Note::ScanFindings(vec!["Server: nginx".to_string()]),
                Note::Credentials {
                    name: Some("admin".to_string()),
                    hash: None,
                    password: None,
                },
                Note::PentestObservation {
                    stage: "Enumeration".to_string(),
                    content: "weak auth".to_string(),
                    timestamp: "2024-01-01".to_string(),
                },
                Note::Empty,
            ],
        }],
    )
    .unwrap();
    let expected = "Workspace: Lab\nMachine: host1 (10.0.0.5)\nPort 80/tcp - http (nginx)\nNmap Scan Results:\n- Server: nginx\nCredentials Found:\n- Username: admin\nPentest Note (Enumeration - 2024-01-01):\nweak auth\n";
    assert_eq!(st.question_context(1, Some(1), Some(80)), expected);
    assert_eq!(st.question_context(1, None, None), "Workspace: Lab\n");
    assert_eq!(
        st.question_context(1, Some(1), None),
        "Workspace: Lab\nMachine: host1 (10.0.0.5)\n"
    );
    assert_eq!(st.question_context(7, Some(1), Some(80)), "");
}

#[test]
fn question_payload_carries_context_and_question() {
    let payload = netvision::commands::build_question_payload("ctx", "why?");
    let preamble = "You are an expert penetration tester and security analyst. Focus on identifying vulnerabilities, potential attack vectors, and security implications. Be direct and concise. Provide practical security insights based on this context:\n\n";
    let full = format!("{}ctx\n\nQuestion: why?", preamble);
    let expected = format!("{{\"question\":\"{}\"}}", full.replace('\n', "\\n"));
    assert_eq!(payload, expected);
}

#[test]
fn analysis_payload_quotes_the_port_and_findings() {
    let mut st = Store::empty();
    st.add_workspace("Lab".to_string(), "10.0.0.0/24".to_string());
    st.add_machine(1, "host1".to_string(), "10.0.0.5".to_string())
        .unwrap();
    st.replace_ports(
        1,
        1,
        vec![Port {
            service: "http".to_string(),
            application: "nginx".to_string(),
            protocol: "tcp".to_string(),
            number: 80,
            state: "open".to_string(),
            notes: vec![
                Note::ScanFindings(vec!["a".to_string(), "b".to_string()]),
                Note::Empty,
                Note::ScanFindings(vec!["c".to_string()]),
            ],
        }],
    )
    .unwrap();
    let payload = st.build_analysis_payload(1, 1, 80).unwrap();
    let inner = "Analyze this port for security vulnerabilities:\nService: http\nPort: 80\nProtocol: tcp\nState: open\nApplication: nginx\n\nScan Results:\na\nb\nc";
    let question = format!(
        "Security analysis of port scan.\nFormat in Markdown:\n1. Critical Vulnerabilities\n2. Exploitation Methods\n3. Security Recommendations\n\n{{\"text\":\"{}\"}}",
        inner.replace('\n', "\\n")
    );
    let expected = format!(
        "{{\"question\":\"{}\"}}",
        question.replace('\\', "\\\\").replace('"', "\\\"").replace('\n', "\\n")
    );
    assert_eq!(payload, expected);
    let err = st.build_analysis_payload(1, 1, 81).unwrap_err();
    assert_eq!(
        err.message(),
        "Port '81' not found in machine '1' in workspace '1'"
    );
}

#[test]
fn machine_and_port_snapshots() {
    let mut st = Store::empty();
    st.add_workspace("Lab".to_string(), "10.0.0.0/24".to_string());
    st.add_machine(1, "h".to_string(), "10.0.0.5".to_string()).unwrap();
    st.replace_ports(
        1,
        1,
        vec![Port {
            service: "ssh".to_string(),
            application: "openssh".to_string(),
            protocol: "tcp".to_string(),
            number: 22,
            state: "open".to_string(),
            notes: vec![Note::Empty],
        }],
    )
    .unwrap();
    assert_eq!(
        st.machine_json(1, 1).unwrap(),
        "{\"id\":1,\"hostname\":\"h\",\"icon\":\"PC\",\"ip\":\"10.0.0.5\",\"ports\":[{\"service\":\"ssh\",\"application\":\"openssh\",\"protocol\":\"tcp\",\"number\":22,\"state\":\"open\",\"notes\":[\"Empty\"]}]}"
    );
    assert_eq!(
        st.port_json(1, 1, 22).unwrap(),
        "{\"service\":\"ssh\",\"application\":\"openssh\",\"protocol\":\"tcp\",\"number\":22,\"state\":\"open\",\"notes\":[\"Empty\"]}"
    );
    assert_eq!(
        st.machine_json(1, 2).unwrap_err().message(),
        "Machine '2' not found in workspace '1'"
    );
    assert_eq!(
        st.port_json(1, 1, 23).unwrap_err().message(),
        "Port '23' not found in machine '1' in workspace '1'"
    );
}

#[test]
fn numbers_parse_only_in_canonical_form() {
    let doc = |number: &str| -> String {
        format!(
            "{{\"name\":\"D\",\"data\":[{{\"id\":1,\"name\":\"W\",\"ip_range\":\"r\",\"machines\":[{{\"id\":1,\"hostname\":\"h\",\"icon\":\"PC\",\"ip\":\"i\",\"ports\":[{{\"service\":\"s\",\"application\":\"\",\"protocol\":\"t\",\"number\":{},\"state\":\"o\",\"notes\":[]}}]}}]}}]}}",
            number
        )
    };
    let zero = Store::load(&doc("0")).expect("port number zero is canonical");
    assert!(zero.find_port(1, 1, 0).is_some());
    assert!(Store::load(&doc("007")).is_none());
    assert!(Store::load(&doc("65536")).is_none());
    assert!(Store::load(&doc("-1")).is_none());
}

#[test]
fn load_after_save_returns_the_same_store() {
    let st = rich_store();
    let t = netvision::parse::load_after_save(&st).expect("saved store loads");
    assert_eq!(t, st);
    let via_load = Store::load(&st.save()).expect("saved store loads");
    assert_eq!(via_load, st);
}
