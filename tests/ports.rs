use excalidocker::ports::extract_host_container_ports;

#[test]
fn test_check_port_parsing() {
    // - "3000"                 # container port (3000), assigned to random host port
    let (host_port, container_port) = extract_host_container_ports("3000");
    assert_eq!(host_port, "3000");
    assert_eq!(container_port, "3000");

    // - "3001-3005"            # container port range (3001-3005), assigned to random host ports
    let (host_port, container_port) = extract_host_container_ports("3001-3005");
    assert_eq!(host_port, "3001-3005");
    assert_eq!(container_port, "3001-3005");

    // - "8001:8001"            # container port (8001), assigned to given host port (8001)
    let (host_port, container_port) = extract_host_container_ports("8001:8001");
    assert_eq!(host_port, "8001");
    assert_eq!(container_port, "8001");

    // - "9090-9091:8080-8081"  # container port range (8080-8081), assigned to given host port range (9090-9091)
    let (host_port, container_port) = extract_host_container_ports("9090-9091:8080-8081");
    assert_eq!(host_port, "9090-9091");
    assert_eq!(container_port, "8080-8081");

    // - "127.0.0.1:8002:8002"  # container port (8002), assigned to given host port (8002) and bind to 127.0.0.1
    let (host_port, container_port) = extract_host_container_ports("127.0.0.1:8002:8002");
    assert_eq!(host_port, "127.0.0.1:8002");
    assert_eq!(container_port, "8002");

    // - "6060:6060/udp"        # container port (6060) restricted to UDP protocol, assigned to given host (6060)
    let (host_port, container_port) = extract_host_container_ports("6060:6060/udp");
    assert_eq!(host_port, "6060");
    assert_eq!(container_port, "6060/udp");
}

#[test]
fn port_without_colon_keeps_whole_text_on_both_sides() {
    let (host, container) = extract_host_container_ports("");
    assert_eq!(host, "");
    assert_eq!(container, "");
    let (host, container) = extract_host_container_ports("53/udp");
    assert_eq!(host, "53/udp");
    assert_eq!(container, "53/udp");
}

#[test]
fn port_with_ipv6_bind_address_splits_at_last_colon() {
    let (host, container) = extract_host_container_ports("::1:8080:80");
    assert_eq!(host, "::1:8080");
    assert_eq!(container, "80");
}

#[test]
fn port_with_trailing_colon_has_empty_container_label() {
    let (host, container) = extract_host_container_ports("8080:");
    assert_eq!(host, "8080");
    assert_eq!(container, "");
}
