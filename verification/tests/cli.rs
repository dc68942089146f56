use panda::cli::{Cmd, CmdStart, CmdStartSingleNode, CliError, ConnConfig, ErrorKind, Opts};

fn parse(input: &str) -> anyhow::Result<Result<Opts, CliError>> {
    Ok(Opts::try_parse_from(shellwords::split(input)?))
}

#[test]
fn test_parse_start_cli_args() -> anyhow::Result<()> {
    let opts = parse(
        "panda start --listen-addr=localhost:1234 --pg-addr=localhost:1235 --join localhost:2255,localhost:33445",
    )?
    .map_err(|e| anyhow::Error::msg(format!("{:?}", e)))?;
    assert_eq!(
        opts.cmd,
        Cmd::Start(CmdStart {
            conn: ConnConfig {
                listen_addr: "localhost:1234".to_owned(),
                pg_addr: "localhost:1235".to_owned()
            },
            join: vec!["localhost:2255".to_owned(), "localhost:33445".to_owned()],
        })
    );
    Ok(())
}

#[test]
fn test_parse_start_cli_args_missing_join_addr() -> anyhow::Result<()> {
    parse("panda start --listen-addr=localhost:1234")?.unwrap_err();
    Ok(())
}

#[test]
fn missing_join_is_reported_as_required() {
    let err = parse("panda start --listen-addr=localhost:1234").unwrap().unwrap_err();
    assert_eq!(err.kind, ErrorKind::MissingRequiredArgument);
    assert_eq!(err.arg, "--join");
}

#[test]
fn start_single_node_uses_default_addresses() {
    let opts = parse("panda start-single-node").unwrap().unwrap();
    assert_eq!(
        opts.cmd,
        Cmd::StartSingleNode(CmdStartSingleNode {
            conn: ConnConfig {
                listen_addr: "127.0.0.1:26629".to_owned(),
                pg_addr: "127.0.0.1:26630".to_owned(),
            },
        })
    );
}

#[test]
fn shell_takes_no_arguments() {
    assert_eq!(parse("panda shell").unwrap().unwrap().cmd, Cmd::Shell);
    let err = parse("panda shell extra").unwrap().unwrap_err();
    assert_eq!(err.kind, ErrorKind::UnexpectedArgument);
    assert_eq!(err.arg, "extra");
    let err = parse("panda shell --listen-addr x").unwrap().unwrap_err();
    assert_eq!(err.kind, ErrorKind::UnknownArgument);
    assert_eq!(err.arg, "--listen-addr");
}

#[test]
fn join_takes_separate_values_until_a_comma_or_an_option() {
    let opts = parse("panda start --join a b --pg-addr p").unwrap().unwrap();
    assert_eq!(
        opts.cmd,
        Cmd::Start(CmdStart {
            conn: ConnConfig { listen_addr: "127.0.0.1:26629".to_owned(), pg_addr: "p".to_owned() },
            join: vec!["a".to_owned(), "b".to_owned()],
        })
    );
    let err = parse("panda start --join a,b c").unwrap().unwrap_err();
    assert_eq!(err.kind, ErrorKind::UnexpectedArgument);
    assert_eq!(err.arg, "c");
}

#[test]
fn option_value_may_follow_as_the_next_argument() {
    let opts = parse("panda start --listen-addr l --join=x").unwrap().unwrap();
    assert_eq!(
        opts.cmd,
        Cmd::Start(CmdStart {
            conn: ConnConfig { listen_addr: "l".to_owned(), pg_addr: "127.0.0.1:26630".to_owned() },
            join: vec!["x".to_owned()],
        })
    );
}

#[test]
fn refusals_name_their_reason() {
    let kind = |s: &str| parse(s).unwrap().unwrap_err().kind;
    assert_eq!(kind("panda"), ErrorKind::MissingSubcommand);
    assert_eq!(kind("panda stop"), ErrorKind::InvalidSubcommand);
    assert_eq!(kind("panda --verbose"), ErrorKind::UnknownArgument);
    assert_eq!(kind("panda help"), ErrorKind::DisplayHelp);
    assert_eq!(kind("panda start -h"), ErrorKind::DisplayHelp);
    assert_eq!(kind("panda start --help=x"), ErrorKind::TooManyValues);
    assert_eq!(kind("panda start --join a --listen-addr"), ErrorKind::EmptyValue);
    assert_eq!(kind("panda start --join a --listen-addr x --listen-addr y"), ErrorKind::UnexpectedMultipleUsage);
    assert_eq!(kind("panda start-single-node --join a"), ErrorKind::UnknownArgument);
    assert_eq!(kind("panda start --join a -- b"), ErrorKind::UnexpectedArgument);
}

#[test]
fn start_written_with_equals_reads_back() {
    let opts = parse("panda start --listen-addr=a:1 --pg-addr=b:2 --join=x:3,y:4").unwrap().unwrap();
    assert_eq!(
        opts.cmd,
        Cmd::Start(CmdStart {
            conn: ConnConfig { listen_addr: "a:1".to_owned(), pg_addr: "b:2".to_owned() },
            join: vec!["x:3".to_owned(), "y:4".to_owned()],
        })
    );
}

#[test]
fn repeated_join_adds_up() {
    let opts = parse("panda start --join a --join b,c").unwrap().unwrap();
    assert_eq!(
        opts.cmd,
        Cmd::Start(CmdStart {
            conn: ConnConfig {
                listen_addr: "127.0.0.1:26629".to_owned(),
                pg_addr: "127.0.0.1:26630".to_owned(),
            },
            join: vec!["a".to_owned(), "b".to_owned(), "c".to_owned()],
        })
    );
}
