use dd_ng::ssh::{
    ctrl_args, data_args, default_ssh_opts, format_cmd, parse_remote, shell_quote, ssh_write_err,
    RemoteError, SshCtx,
};

fn pair(a: &str, b: &str) -> Result<(String, String), RemoteError> {
    Ok((a.to_string(), b.to_string()))
}

#[test]
fn remotes_are_split_at_the_first_colon() {
    assert_eq!(parse_remote("user@host:/path"), pair("user@host", "/path"));
    assert_eq!(parse_remote("host:/a:b"), pair("host", "/a:b"));
    assert_eq!(parse_remote("host:rel"), pair("host", "rel"));
    assert_eq!(parse_remote("host"), Err(RemoteError::NoColon));
    assert_eq!(parse_remote(""), Err(RemoteError::NoColon));
    assert_eq!(parse_remote(":/path"), Err(RemoteError::Empty));
    assert_eq!(parse_remote("host:"), Err(RemoteError::Empty));
    assert_eq!(parse_remote(":"), Err(RemoteError::Empty));
    assert_eq!(RemoteError::NoColon.text(), "remote spec must be [user@]host:/path");
    assert_eq!(RemoteError::Empty.text(), "bad remote spec");
}

fn ctx(no_defaults: bool, verbose: u8) -> SshCtx {
    SshCtx {
        ssh_bin: "ssh".to_string(),
        remote_bin: "dd-ng".to_string(),
        host: "me@there".to_string(),
        extra: vec!["-p".to_string(), "2222".to_string()],
        no_defaults,
        verbose,
    }
}

#[test]
fn commands_are_built_in_order() {
    assert_eq!(
        ctx(true, 0).cmd(&ctrl_args()),
        vec!["ssh", "-p", "2222", "me@there", "dd-ng", "recv-ctrl"]
    );
    assert_eq!(
        ctx(false, 0).cmd(&data_args("ab12", 7)),
        vec![
            "ssh",
            "-o",
            "ControlMaster=no",
            "-o",
            "ControlPath=none",
            "-o",
            "Compression=no",
            "-o",
            "ServerAliveInterval=30",
            "-o",
            "ServerAliveCountMax=6",
            "-p",
            "2222",
            "me@there",
            "dd-ng",
            "recv-data",
            "--token",
            "ab12",
            "--id",
            "7"
        ]
    );
    assert_eq!(default_ssh_opts().len(), 10);
}

#[test]
fn commands_are_shown_from_the_second_level() {
    assert!(!ctx(false, 0).shows_commands());
    assert!(!ctx(false, 1).shows_commands());
    assert!(ctx(false, 2).shows_commands());
    assert!(ctx(false, 3).shows_commands());
}

#[test]
fn words_are_quoted_where_they_must_be() {
    assert_eq!(shell_quote(""), "''");
    assert_eq!(shell_quote("user@host:/a,b.c-d_e+f=g%h"), "user@host:/a,b.c-d_e+f=g%h");
    assert_eq!(shell_quote("a b"), "'a b'");
    assert_eq!(shell_quote("$HOME"), "'$HOME'");
    assert_eq!(shell_quote("it's"), "'it'\\''s'");
    assert_eq!(shell_quote("ü"), "'ü'");
    assert_eq!(shell_quote("'"), "''\\'''");
}

#[test]
fn a_command_is_one_line() {
    let argv: Vec<String> = vec!["ssh".to_string(), "-o".to_string(), "X=a b".to_string()];
    assert_eq!(format_cmd(&argv), "ssh -o 'X=a b'");
    assert_eq!(format_cmd(&vec![]), "");
    assert_eq!(format_cmd(&vec!["one".to_string()]), "one");
}

#[test]
fn write_errors_name_the_stream() {
    assert_eq!(
        ssh_write_err(12, "Broken pipe (os error 32)"),
        "stream 12: ssh write failed (Broken pipe (os error 32)). sshd may be throttling \
         (MaxStartups / fail2ban); try --stream-delay-ms 300 or lower -n."
    );
}
