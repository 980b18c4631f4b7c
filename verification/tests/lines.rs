use dd_ng::lines::{
    ctrl_line, read_line, rendezvous_socket_name, rendezvous_socket_path, write_line,
    UnexpectedEof,
};

#[test]
fn a_line_ends_in_a_line_feed() {
    let mut out = String::from("before ");
    write_line(&mut out, "{\"type\":\"Ready\"}");
    assert_eq!(out, "before {\"type\":\"Ready\"}\n");
}

#[test]
fn a_line_is_read_without_its_end() {
    assert_eq!(read_line("abc\n"), Ok("abc".to_string()));
    assert_eq!(read_line("abc\r\n"), Ok("abc".to_string()));
    assert_eq!(read_line("abc"), Ok("abc".to_string()));
    assert_eq!(read_line("abc\r"), Ok("abc\r".to_string()));
    assert_eq!(read_line("abc\r\r\n"), Ok("abc\r".to_string()));
    assert_eq!(read_line("\n"), Ok(String::new()));
    assert_eq!(read_line("\r\n"), Ok(String::new()));
    assert_eq!(read_line(""), Err(UnexpectedEof));
    assert_eq!(UnexpectedEof.text(), "unexpected EOF");
}

#[test]
fn what_is_written_is_read_back() {
    for s in ["", "x", "{\"type\":\"Done\",\"bytes\":5}", "grüße \u{1F600}", " \r x"] {
        let mut out = String::new();
        write_line(&mut out, s);
        assert_eq!(read_line(&out), Ok(s.to_string()));
    }
}

#[test]
fn control_lines_lose_trailing_space() {
    assert_eq!(ctrl_line(""), None);
    assert_eq!(ctrl_line("\n"), Some(String::new()));
    assert_eq!(ctrl_line(" {} \t\r\n"), Some(" {}".to_string()));
    assert_eq!(ctrl_line("{}\u{3000}"), Some("{}".to_string()));
}

#[test]
fn socket_names_hold_the_token() {
    assert_eq!(rendezvous_socket_name("00ff"), "dd-ng.00ff.sock");
    assert_ne!(rendezvous_socket_name("00ff"), rendezvous_socket_name("00fe"));
}

#[test]
fn sockets_are_in_the_runtime_directory() {
    assert_eq!(rendezvous_socket_path(None, "ab12"), "/tmp/dd-ng.ab12.sock");
    for dir in ["/run/user/1000", "/run/user/1000/", "rel", "/", ""] {
        let path = std::path::PathBuf::from(dir).join("dd-ng.ab12.sock");
        assert_eq!(rendezvous_socket_path(Some(dir), "ab12"), path.to_str().unwrap());
        assert_ne!(
            rendezvous_socket_path(Some(dir), "ab12"),
            rendezvous_socket_path(Some(dir), "ab13")
        );
    }
}
