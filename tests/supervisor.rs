use std::sync::{Arc, Mutex};

use sidecar_supervisor::decimal::push_decimal;
use sidecar_supervisor::handshake::Handshake;
use sidecar_supervisor::supervisor::{port_script, Supervisor, DEFAULT_PORT};

#[test]
fn effective_port_is_discovered_one() {
    let s = Supervisor::new(Some(4455), 7u32);
    assert_eq!(s.effective_port(), 4455);
}

#[test]
fn effective_port_falls_back_to_default() {
    let s = Supervisor::new(None, 7u32);
    assert_eq!(s.effective_port(), 3001);
    assert_eq!(DEFAULT_PORT, 3001);
}

#[test]
fn port_script_sets_the_global() {
    assert_eq!(port_script(4455), "window.PYTHON_SERVER_PORT = 4455;");
    assert_eq!(port_script(0), "window.PYTHON_SERVER_PORT = 0;");
    assert_eq!(port_script(65535), "window.PYTHON_SERVER_PORT = 65535;");
}

#[test]
fn push_decimal_appends_digits() {
    for n in [0u16, 7, 10, 99, 100, 3001, 65535] {
        let mut s = String::from("p=");
        push_decimal(&mut s, n);
        assert_eq!(s, format!("p={}", n));
    }
}

#[test]
fn publish_happens_once() {
    let mut s = Supervisor::new(Some(5173), ());
    assert!(!s.is_published());
    assert_eq!(s.publish(), Some("window.PYTHON_SERVER_PORT = 5173;".to_string()));
    assert!(s.is_published());
    assert_eq!(s.publish(), None);
    assert_eq!(s.effective_port(), 5173);
}

#[test]
fn shutdown_twice_is_a_no_op_the_second_time() {
    let mut s = Supervisor::new(Some(8000), 42u32);
    assert!(s.is_running());
    assert_eq!(s.shutdown(), Some(42));
    assert!(!s.is_running());
    assert_eq!(s.shutdown(), None);
    assert!(!s.is_running());
    assert_eq!(s.effective_port(), 8000);
}

#[test]
fn shutdown_from_several_handlers_signals_once() {
    let shared = Arc::new(Mutex::new(Supervisor::new(Some(8000), 42u32)));
    let mut signals: Vec<u32> = Vec::new();
    let handlers: Vec<Arc<Mutex<Supervisor<u32>>>> = (0..4).map(|_| Arc::clone(&shared)).collect();
    for h in &handlers {
        if let Some(handle) = h.lock().unwrap().shutdown() {
            signals.push(handle);
        }
    }
    assert_eq!(signals, vec![42]);
    assert!(!shared.lock().unwrap().is_running());
}

#[test]
fn end_to_end_worker_announces_port() {
    let mut h = Handshake::new();
    let output = ["Initializing...", "Server starting on port 4455"];
    let mut read = 0;
    for line in output {
        read += 1;
        if !h.feed(line) {
            break;
        }
    }
    assert_eq!(read, 2);
    let mut s = Supervisor::new(h.port(), "worker");
    assert_eq!(s.effective_port(), 4455);
    let mut published = Vec::new();
    while let Some(script) = s.publish() {
        published.push(script);
    }
    assert_eq!(published, vec!["window.PYTHON_SERVER_PORT = 4455;".to_string()]);
    assert!(s.is_running());
    assert_eq!(s.shutdown(), Some("worker"));
    assert!(!s.is_running());
}
