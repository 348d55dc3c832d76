use redis_lite::command::{
    handle, parse_command, prepare, reply_to_command, reply_to_query, Args, Command, CommandError,
};
use redis_lite::data::{Data, InMemoryData};
use redis_lite::info::{create_info, Info, ReplicaRole, Replication, Server};
use redis_lite::resp::{parse_input, RespOut};

fn primary() -> Info {
    Info::new(
        Server { tcp_port: 6379 },
        Replication {
            role: ReplicaRole::MASTER,
            master_replid: Some("8371b4fb1155b71f4a04d3e1bc3e18c4a990aeeb".to_string()),
            master_repl_offset: Some(0),
            master_host: None,
            master_port: None,
        },
    )
}

fn replica() -> Info {
    Info::new(
        Server { tcp_port: 6380 },
        Replication {
            role: ReplicaRole::SLAVE,
            master_replid: None,
            master_repl_offset: None,
            master_host: Some("localhost".to_string()),
            master_port: Some(6379),
        },
    )
}

fn run(data: &mut InMemoryData, info: &Info, bytes: &[u8], now: u64) -> Vec<u8> {
    let request = parse_input(bytes).expect("a well-formed request");
    let mut out = Vec::new();
    for response in handle(request, data, info, now) {
        out.extend(response.serialize());
    }
    out
}

#[test]
fn ping_answers_pong() {
    let mut data = InMemoryData::new();
    assert_eq!(run(&mut data, &primary(), b"*1\r\n$4\r\nPING\r\n", 0), b"+PONG\r\n");
}

#[test]
fn echo_answers_its_argument() {
    let mut data = InMemoryData::new();
    let out = run(&mut data, &primary(), b"*2\r\n$4\r\nECHO\r\n$3\r\nhey\r\n", 0);
    assert_eq!(out, b"$3\r\nhey\r\n");
}

#[test]
fn set_then_get() {
    let mut data = InMemoryData::new();
    let info = primary();
    assert_eq!(run(&mut data, &info, b"*3\r\n$3\r\nSET\r\n$1\r\nk\r\n$1\r\nv\r\n", 10), b"+OK\r\n");
    assert_eq!(run(&mut data, &info, b"*2\r\n$3\r\nGET\r\n$1\r\nk\r\n", 20), b"$1\r\nv\r\n");
}

#[test]
fn px_expires_entry() {
    let mut data = InMemoryData::new();
    let info = primary();
    let set = b"*5\r\n$3\r\nSET\r\n$1\r\nk\r\n$1\r\nv\r\n$2\r\nPX\r\n$2\r\n50\r\n";
    assert_eq!(run(&mut data, &info, set, 1000), b"+OK\r\n");
    assert_eq!(run(&mut data, &info, b"*2\r\n$3\r\nGET\r\n$1\r\nk\r\n", 1050), b"$1\r\nv\r\n");
    assert_eq!(run(&mut data, &info, b"*2\r\n$3\r\nGET\r\n$1\r\nk\r\n", 1200), b"_\r\n");
}

#[test]
fn psync_answers_fullresync_and_snapshot() {
    let mut data = InMemoryData::new();
    let info = create_info(6379, ReplicaRole::MASTER, None, None);
    let request = parse_input(b"*3\r\n$5\r\nPSYNC\r\n$1\r\n?\r\n$2\r\n-1\r\n").unwrap();
    let responses = handle(request, &mut data, &info, 0);
    assert_eq!(responses.len(), 2);
    match &responses[0] {
        RespOut::SimpleString(s) => {
            assert!(s.starts_with("FULLRESYNC "));
            let words: Vec<&str> = s.split_whitespace().collect();
            assert_eq!(words.len(), 3);
            assert_eq!(words[1].len(), 40);
            assert!(words[1].chars().all(|c| c.is_ascii_alphanumeric()));
            assert_eq!(words[2], "0");
        }
        _ => panic!("expected a simple string"),
    }
    assert!(matches!(&responses[1], RespOut::BulkString(_)));
}

#[test]
fn psync_on_a_replica_is_refused() {
    let mut data = InMemoryData::new();
    let out = run(&mut data, &replica(), b"*3\r\n$5\r\nPSYNC\r\n$1\r\n?\r\n$2\r\n-1\r\n", 0);
    assert_eq!(out, b"-ERR only a primary serves PSYNC\r\n");
}

#[test]
fn unknown_command_then_ping() {
    let mut data = InMemoryData::new();
    let info = primary();
    let out = run(&mut data, &info, b"*1\r\n$3\r\nfoo\r\n", 0);
    assert_eq!(out, b"-ERR unknown command: foo\r\n");
    assert_eq!(run(&mut data, &info, b"*1\r\n$4\r\nPING\r\n", 0), b"+PONG\r\n");
}

#[test]
fn command_names_ignore_ascii_case() {
    let mut data = InMemoryData::new();
    let info = primary();
    assert_eq!(run(&mut data, &info, b"*1\r\n$4\r\npInG\r\n", 0), b"+PONG\r\n");
    let set = b"*5\r\n$3\r\nset\r\n$1\r\nk\r\n$1\r\nv\r\n$2\r\npx\r\n$3\r\n100\r\n";
    assert_eq!(run(&mut data, &info, set, 0), b"+OK\r\n");
    assert_eq!(run(&mut data, &info, b"*2\r\n$3\r\nget\r\n$1\r\nk\r\n", 100), b"$1\r\nv\r\n");
    assert_eq!(run(&mut data, &info, b"*2\r\n$3\r\nget\r\n$1\r\nk\r\n", 101), b"_\r\n");
}

#[test]
fn missing_arguments_are_reported() {
    let mut data = InMemoryData::new();
    let info = primary();
    assert_eq!(run(&mut data, &info, b"*1\r\n$4\r\nECHO\r\n", 0), b"-ERR missing argument number 1\r\n");
    assert_eq!(run(&mut data, &info, b"*2\r\n$3\r\nSET\r\n$1\r\nk\r\n", 0), b"-ERR missing argument number 2\r\n");
    assert_eq!(run(&mut data, &info, b"*0\r\n", 0), b"-ERR missing argument number 0\r\n");
    let px = b"*4\r\n$3\r\nSET\r\n$1\r\nk\r\n$1\r\nv\r\n$2\r\nPX\r\n";
    assert_eq!(run(&mut data, &info, px, 0), b"-ERR missing argument number 4\r\n");
}

#[test]
fn failing_set_leaves_store_unchanged() {
    let mut data = InMemoryData::new();
    let info = primary();
    run(&mut data, &info, b"*3\r\n$3\r\nSET\r\n$1\r\nk\r\n$3\r\nold\r\n", 0);
    let bad_px = b"*5\r\n$3\r\nSET\r\n$1\r\nk\r\n$3\r\nnew\r\n$2\r\nPX\r\n$2\r\n-5\r\n";
    assert_eq!(run(&mut data, &info, bad_px, 0), b"-ERR not an unsigned integer: -5\r\n");
    let bad_option = b"*4\r\n$3\r\nSET\r\n$1\r\nk\r\n$3\r\nnew\r\n$2\r\nEX\r\n";
    assert_eq!(run(&mut data, &info, bad_option, 0), b"-ERR unknown option: EX\r\n");
    assert_eq!(data.get("k", 0), Some("old".to_string()));
}

#[test]
fn ping_and_echo_ignore_store() {
    let mut empty = InMemoryData::new();
    let mut full = InMemoryData::new();
    full.set("PING".to_string(), "x".to_string(), None, 0);
    let info = primary();
    let echo = b"*2\r\n$4\r\nECHO\r\n$4\r\nPING\r\n";
    assert_eq!(run(&mut empty, &info, echo, 0), run(&mut full, &info, echo, 0));
    let ping = b"*1\r\n$4\r\nPING\r\n";
    assert_eq!(run(&mut empty, &info, ping, 0), run(&mut full, &info, ping, 0));
    assert_eq!(empty.get("PING", 0), None);
    assert_eq!(full.get("PING", 0), Some("x".to_string()));
}

#[test]
fn info_without_names_covers_replication() {
    let mut data = InMemoryData::new();
    let info = primary();
    let all = run(&mut data, &info, b"*1\r\n$4\r\nINFO\r\n", 0);
    let one = run(&mut data, &info, b"*2\r\n$4\r\nINFO\r\n$11\r\nreplication\r\n", 0);
    assert_eq!(all, one);
    let text = "# replication\nrole:master\nmaster_replid:8371b4fb1155b71f4a04d3e1bc3e18c4a990aeeb\nmaster_repl_offset:0\n";
    assert_eq!(all, format!("${}\r\n{}\r\n", text.len(), text).into_bytes());
    let none = run(&mut data, &info, b"*2\r\n$4\r\nINFO\r\n$7\r\nunknown\r\n", 0);
    assert_eq!(none, b"$0\r\n\r\n");
    let twice = run(&mut data, &info, b"*3\r\n$4\r\nINFO\r\n$11\r\nreplication\r\n$11\r\nreplication\r\n", 0);
    let joined = format!("{}\n{}", text, text);
    assert_eq!(twice, format!("${}\r\n{}\r\n", joined.len(), joined).into_bytes());
}

#[test]
fn replica_info_names_its_primary() {
    let info = replica();
    assert_eq!(
        info.get_all(),
        "# replication\nrole:slave\nmaster_host:localhost\nmaster_port:6379\n"
    );
    assert_eq!(info.replication.master_addr(), "localhost:6379");
    assert_eq!(info.get_section("memory"), None);
}

#[test]
fn replconf_answers_ok() {
    let mut data = InMemoryData::new();
    let out = run(&mut data, &primary(), b"*3\r\n$8\r\nREPLCONF\r\n$4\r\ncapa\r\n$6\r\npsync2\r\n", 0);
    assert_eq!(out, b"+OK\r\n");
}

#[test]
fn parse_command_reads_set_options() {
    let request = parse_input(b"*7\r\n$3\r\nSET\r\n$1\r\nk\r\n$1\r\nv\r\n$2\r\nPX\r\n$1\r\n5\r\n$2\r\nPx\r\n$2\r\n+9\r\n").unwrap();
    match parse_command(request) {
        Ok(Command::SetValue(k, v, px)) => {
            assert_eq!(k, "k");
            assert_eq!(v, "v");
            assert_eq!(px, Some(9));
        }
        _ => panic!("expected SET"),
    }
    let request = parse_input(b"*1\r\n$3\r\nfoo\r\n").unwrap();
    match parse_command(request) {
        Err(e) => {
            assert!(matches!(e, CommandError::UnknownCommand(_)));
            assert!(e.message().contains("unknown command"));
        }
        Ok(_) => panic!("expected a refusal"),
    }
}

#[test]
fn px_takes_the_full_u64_range() {
    let mut data = InMemoryData::new();
    let info = primary();
    let max = b"*5\r\n$3\r\nSET\r\n$1\r\nk\r\n$1\r\nv\r\n$2\r\nPX\r\n$20\r\n18446744073709551615\r\n";
    assert_eq!(run(&mut data, &info, max, 0), b"+OK\r\n");
    assert_eq!(run(&mut data, &info, b"*2\r\n$3\r\nGET\r\n$1\r\nk\r\n", u64::MAX), b"$1\r\nv\r\n");
    let over = b"*5\r\n$3\r\nSET\r\n$1\r\nk\r\n$1\r\nw\r\n$2\r\nPX\r\n$20\r\n18446744073709551616\r\n";
    assert_eq!(run(&mut data, &info, over, 0), b"-ERR not an unsigned integer: 18446744073709551616\r\n");
    assert_eq!(run(&mut data, &info, b"*2\r\n$3\r\nGET\r\n$1\r\nk\r\n", 1), b"$1\r\nv\r\n");
}

#[test]
fn extra_arguments_are_ignored() {
    let mut data = InMemoryData::new();
    let info = primary();
    assert_eq!(run(&mut data, &info, b"*2\r\n$4\r\nPING\r\n$1\r\nx\r\n", 0), b"+PONG\r\n");
    assert_eq!(run(&mut data, &info, b"*3\r\n$4\r\nECHO\r\n$1\r\na\r\n$1\r\nb\r\n", 0), b"$1\r\na\r\n");
}

#[test]
fn argument_cursor() {
    let mut args = Args::new(vec!["GET".to_string(), "k".to_string()]);
    assert!(args.has_next());
    assert_eq!(args.next().ok(), Some("GET".to_string()));
    assert_eq!(args.next().ok(), Some("k".to_string()));
    assert!(!args.has_next());
    assert!(matches!(args.next(), Err(CommandError::MissingArgument(2))));
}

fn reply(data: &mut InMemoryData, info: &Info, bytes: &[u8], now: u64, shared: bool) -> Vec<u8> {
    match prepare(bytes) {
        Err(response) => response.serialize(),
        Ok(command) => {
            if shared && !command.writes_store() {
                reply_to_query(command, &*data, info, now)
            } else {
                reply_to_command(command, data, info, now)
            }
        }
    }
}

#[test]
fn bytes_in_bytes_out() {
    let mut data = InMemoryData::new();
    let info = primary();
    assert_eq!(reply(&mut data, &info, b"*1\r\n$4\r\nPING\r\n", 0, true), b"+PONG\r\n");
    assert_eq!(reply(&mut data, &info, b"*1\n$4\r\nPING\r\n", 0, true), b"-ERR malformed frame\r\n");
    assert_eq!(reply(&mut data, &info, b"*1\r\n$3\r\nfoo\r\n", 0, true), b"-ERR unknown command: foo\r\n");
    let set = b"*3\r\n$3\r\nSET\r\n$1\r\nk\r\n$1\r\nv\r\n";
    assert_eq!(reply(&mut data, &info, set, 0, true), b"+OK\r\n");
    assert_eq!(reply(&mut data, &info, b"*2\r\n$3\r\nGET\r\n$1\r\nk\r\n", 1, true), b"$1\r\nv\r\n");
    assert_eq!(reply(&mut data, &info, b"*2\r\n$3\r\nGET\r\n$1\r\nk\r\n", 1, false), b"$1\r\nv\r\n");
    let psync = reply(&mut data, &info, b"*3\r\n$5\r\nPSYNC\r\n$1\r\n?\r\n$2\r\n-1\r\n", 0, true);
    assert!(psync.starts_with(b"+FULLRESYNC 8371b4fb1155b71f4a04d3e1bc3e18c4a990aeeb 0\r\n$"));
    let refused = reply(&mut data, &replica(), b"*3\r\n$5\r\nPSYNC\r\n$1\r\n?\r\n$2\r\n-1\r\n", 0, true);
    assert_eq!(refused, b"-ERR only a primary serves PSYNC\r\n");
}
