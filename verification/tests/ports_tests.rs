use dockrs::ports::get_port_bindings;
use dockrs::ports::render_port_spec;
use dockrs::Error;

fn strings(items: &[&str]) -> Vec<String> {
    items.iter().map(|s| s.to_string()).collect()
}

#[test]
fn test_get_port_binding() {
    let input = strings(&["80", "443:8080", "127.0.0.1:80:8080"]);

    let bindings = get_port_bindings(&input).unwrap();

    assert_eq!(bindings.entries.len(), 2);

    let bare = &bindings.entries[0];
    assert_eq!(bare.container_port, "80");
    assert!(bare.bindings.is_empty());

    let published = &bindings.entries[1];
    assert_eq!(published.container_port, "8080");
    assert_eq!(published.bindings.len(), 2);
    assert_eq!(published.bindings[0].host_ip, None);
    assert_eq!(published.bindings[0].host_port, Some("443".to_string()));
    assert_eq!(published.bindings[1].host_ip, Some("127.0.0.1".to_string()));
    assert_eq!(published.bindings[1].host_port, Some("80".to_string()));
}

#[test]
fn test_get_port_binding_ipv6() {
    let input = strings(&["[::]:443:8080"]);

    let bindings = get_port_bindings(&input).unwrap();

    assert_eq!(bindings.entries.len(), 1);
    let entry = &bindings.entries[0];
    assert_eq!(entry.container_port, "8080");
    assert_eq!(entry.bindings.len(), 1);
    assert_eq!(entry.bindings[0].host_ip, Some("[::]".to_string()));
    assert_eq!(entry.bindings[0].host_port, Some("443".to_string()));
}

#[test]
fn test_port_spec_bare_port() {
    let spec = get_port_bindings(&strings(&["80"])).unwrap();

    assert_eq!(spec.entries.len(), 1);
    assert_eq!(spec.entries[0].container_port, "80");
    assert!(spec.entries[0].bindings.is_empty());
}

#[test]
fn test_port_spec_host_port() {
    let spec = get_port_bindings(&strings(&["443:8080"])).unwrap();

    assert_eq!(spec.entries.len(), 1);
    assert_eq!(spec.entries[0].container_port, "8080");
    assert_eq!(spec.entries[0].bindings.len(), 1);
    assert_eq!(spec.entries[0].bindings[0].host_ip, None);
    assert_eq!(spec.entries[0].bindings[0].host_port, Some("443".to_string()));
}

#[test]
fn test_port_spec_host_ip_and_port() {
    let spec = get_port_bindings(&strings(&["127.0.0.1:80:8080"])).unwrap();

    assert_eq!(spec.entries.len(), 1);
    assert_eq!(spec.entries[0].container_port, "8080");
    assert_eq!(spec.entries[0].bindings.len(), 1);
    assert_eq!(
        spec.entries[0].bindings[0].host_ip,
        Some("127.0.0.1".to_string())
    );
    assert_eq!(spec.entries[0].bindings[0].host_port, Some("80".to_string()));
}

#[test]
fn test_port_spec_too_many_fields_rejected() {
    let result = get_port_bindings(&strings(&["10.0.0.1:5:80:8080"]));

    match result {
        Err(Error::InvalidPortSpec(s)) => assert_eq!(s, "10.0.0.1:5:80:8080"),
        other => panic!("expected InvalidPortSpec, got {:?}", other),
    }
}

#[test]
fn test_port_spec_unbracketed_ipv6_rejected() {
    let result = get_port_bindings(&strings(&["::1:443:8080"]));

    assert!(matches!(result, Err(Error::InvalidPortSpec(_))));
}

#[test]
fn test_port_spec_first_offending_string_reported() {
    let input = strings(&["80", "a:b:c:d", "1:2:3:4"]);

    match get_port_bindings(&input) {
        Err(Error::InvalidPortSpec(s)) => assert_eq!(s, "a:b:c:d"),
        other => panic!("expected InvalidPortSpec, got {:?}", other),
    }
}

#[test]
fn test_port_spec_accumulates_bindings_in_order() {
    let input = strings(&["443:8080", "127.0.0.1:80:8080", "[::]:9000:8080"]);

    let spec = get_port_bindings(&input).unwrap();

    assert_eq!(spec.entries.len(), 1);
    let entry = &spec.entries[0];
    assert_eq!(entry.bindings.len(), 3);
    assert_eq!(entry.bindings[0].host_port, Some("443".to_string()));
    assert_eq!(entry.bindings[1].host_port, Some("80".to_string()));
    assert_eq!(entry.bindings[2].host_port, Some("9000".to_string()));
}

#[test]
fn test_render_port_spec() {
    let input = strings(&["80", "443:8080", "127.0.0.1:80:8080"]);

    let spec = get_port_bindings(&input).unwrap();
    let rendered = render_port_spec(&spec);

    assert_eq!(rendered, strings(&["80", "443:8080", "127.0.0.1:80:8080"]));
}

#[test]
fn test_port_spec_round_trip() {
    let input = strings(&["80", "443:8080", "127.0.0.1:80:8080", "[::]:443:8080"]);

    let spec = get_port_bindings(&input).unwrap();
    let rendered = render_port_spec(&spec);
    let reparsed = get_port_bindings(&rendered).unwrap();

    assert_eq!(reparsed.entries.len(), spec.entries.len());
    for (a, b) in spec.entries.iter().zip(reparsed.entries.iter()) {
        assert_eq!(a.container_port, b.container_port);
        assert_eq!(a.bindings.len(), b.bindings.len());
        for (x, y) in a.bindings.iter().zip(b.bindings.iter()) {
            assert_eq!(x.host_ip, y.host_ip);
            assert_eq!(x.host_port, y.host_port);
        }
    }
}
