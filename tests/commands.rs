use bytes::BytesMut;
use simple_redis::{
    extract_args, resp_ok, validate_command, Backend, BulkString, Command, CommandError,
    CommandExecutor, Echo, Get, HGet, HGetAll, HMGet, HSet, RespArray, RespEncoder, RespFrame,
    RespNull, SAdd, SIsMember, SetCommand,
};

fn bulk(s: &[u8]) -> RespFrame {
    RespFrame::BulkString(BulkString::new(s.to_vec()))
}

fn decode_array(s: &str) -> RespArray {
    let mut buf = BytesMut::from(s);
    match RespFrame::decode(&mut buf) {
        Ok(RespFrame::Array(a)) => a,
        other => panic!("not an array: {:?}", other),
    }
}

#[test]
fn test_echo_command() {
    let frame = decode_array("*2\r\n$4\r\necho\r\n$5\r\nhello\r\n");
    let cmd = Echo::try_from(frame).unwrap();
    assert_eq!(cmd.message, "hello");
}

#[test]
fn test_hget_try_from() {
    let frame = decode_array("*3\r\n$4\r\nhget\r\n$3\r\nmap\r\n$5\r\nhello\r\n");
    let hget = HGet::try_from(frame).unwrap();
    assert_eq!(hget.key, "map");
    assert_eq!(hget.field, "hello");
}

#[test]
fn test_hset_try_from() {
    let frame = decode_array("*4\r\n$4\r\nhset\r\n$3\r\nmap\r\n$5\r\nhello\r\n$5\r\nworld\r\n");
    let hset = HSet::try_from(frame).unwrap();
    assert_eq!(hset.key, "map");
    assert_eq!(hset.field, "hello");
    assert_eq!(hset.value, bulk(b"world"));
}

#[test]
fn test_hgetall_try_from() {
    let frame = decode_array("*2\r\n$7\r\nhgetall\r\n$3\r\nmap\r\n");
    let hgetall = HGetAll::try_from(frame).unwrap();
    assert_eq!(hgetall.key, "map");
}

#[test]
fn test_hset_hget_hgetall_commands() {
    let mut backend = Backend::new();
    let cmd = HSet {
        key: "map".to_string(),
        field: "hello".to_string(),
        value: bulk(b"world"),
    };
    let result = cmd.execute(&mut backend);
    assert_eq!(result, resp_ok());

    let cmd = HSet {
        key: "map".to_string(),
        field: "hello1".to_string(),
        value: bulk(b"world1"),
    };
    cmd.execute(&mut backend);

    let cmd = HGet {
        key: "map".to_string(),
        field: "hello".to_string(),
    };
    let result = cmd.execute(&mut backend);
    assert_eq!(result, bulk(b"world"));

    let cmd = HGetAll {
        key: "map".to_string(),
        sort: true,
    };
    let result = cmd.execute(&mut backend);
    let expected = RespArray::new(vec![
        bulk(b"hello"),
        bulk(b"world"),
        bulk(b"hello1"),
        bulk(b"world1"),
    ]);
    assert_eq!(result, RespFrame::Array(expected));
}

#[test]
fn test_hmget_try_from() {
    let frame = decode_array("*4\r\n$5\r\nhmget\r\n$3\r\nmap\r\n$5\r\nhello\r\n$5\r\nworld\r\n");
    let hmget = HMGet::try_from(frame).unwrap();
    assert_eq!(hmget.key, "map");
    assert_eq!(hmget.fields, vec!["hello", "world"]);
}

#[test]
fn test_hmget_command() {
    let mut backend = Backend::new();
    let cmd = HSet {
        key: "map".to_string(),
        field: "field".to_string(),
        value: bulk(b"hello"),
    };
    cmd.execute(&mut backend);

    let cmd = HSet {
        key: "map".to_string(),
        field: "field2".to_string(),
        value: bulk(b"world"),
    };
    cmd.execute(&mut backend);

    let cmd = HMGet {
        key: "map".to_string(),
        fields: vec![
            "field".to_string(),
            "field2".to_string(),
            "field3".to_string(),
        ],
    };

    let result = cmd.execute(&mut backend);
    let expected = RespArray::new(vec![
        bulk(b"hello"),
        bulk(b"world"),
        RespFrame::Null(RespNull),
    ]);

    assert_eq!(result, RespFrame::Array(expected));
}

#[test]
fn test_get_try_from() {
    let frame = decode_array("*2\r\n$3\r\nget\r\n$5\r\nhello\r\n");
    let get = Get::try_from(frame).unwrap();
    assert_eq!(get.key, "hello");
}

#[test]
fn test_set_try_from() {
    let frame = decode_array("*3\r\n$3\r\nset\r\n$5\r\nhello\r\n$5\r\nworld\r\n");
    let set = SetCommand::try_from(frame).unwrap();
    assert_eq!(set.key, "hello");
    assert_eq!(set.value, bulk(b"world"));
}

#[test]
fn test_set_get_command() {
    let mut backend = Backend::new();
    let cmd = SetCommand {
        key: "hello".to_string(),
        value: bulk(b"world"),
    };
    let result = cmd.execute(&mut backend);
    assert_eq!(result, resp_ok());

    let cmd = Get {
        key: "hello".to_string(),
    };
    let result = cmd.execute(&mut backend);
    assert_eq!(result, bulk(b"world"));
}

#[test]
fn test_command() {
    let mut buf = BytesMut::new();
    buf.extend_from_slice(b"*2\r\n$3\r\nget\r\n$5\r\nhello\r\n");
    let frame = RespFrame::decode(&mut buf).unwrap();
    let cmd = Command::try_from(frame).unwrap();
    let mut backend = Backend::new();
    let ret = cmd.execute(&mut backend);
    assert_eq!(ret, RespFrame::Null(RespNull));
}

#[test]
fn test_sadd_try_from() {
    let frame = decode_array("*3\r\n$4\r\nsadd\r\n$5\r\nmyset\r\n$3\r\none\r\n");
    let cmd = SAdd::try_from(frame).unwrap();
    assert_eq!(cmd.key, "myset");
    assert_eq!(cmd.members.len(), 1);
}

#[test]
fn test_sismember_try_from() {
    let frame = decode_array("*3\r\n$9\r\nsismember\r\n$5\r\nmyset\r\n$3\r\none\r\n");
    let cmd = SIsMember::try_from(frame).unwrap();
    assert_eq!(cmd.key, "myset");
}

#[test]
fn test_sadd_command() {
    let mut backend = Backend::new();
    let cmd = SAdd {
        key: "myset".to_string(),
        members: vec![bulk(b"one")],
    };
    let ret = cmd.execute(&mut backend);
    assert_eq!(ret, resp_ok());
}

#[test]
fn test_sismember_command() {
    let mut backend = Backend::new();
    let cmd = SAdd {
        key: "myset".to_string(),
        members: vec![bulk(b"one")],
    };
    let ret = cmd.execute(&mut backend);
    assert_eq!(ret, resp_ok());

    let cmd = SIsMember {
        key: "myset".to_string(),
        member: bulk(b"one"),
    };
    let ret = cmd.execute(&mut backend);
    assert_eq!(ret, RespFrame::Integer(1));

    let cmd = SIsMember {
        key: "myset".to_string(),
        member: bulk(b"two"),
    };
    let ret = cmd.execute(&mut backend);
    assert_eq!(ret, RespFrame::Integer(0));
}

// ---- further cases

/// Decodes each request, runs it, and returns the encoded replies.
fn serve(backend: &mut Backend, input: &[u8]) -> Vec<Vec<u8>> {
    let mut buf = BytesMut::from(input);
    let mut replies = Vec::new();
    while !buf.is_empty() {
        let frame = RespFrame::decode(&mut buf).unwrap();
        let reply = match Command::try_from(frame) {
            Ok(cmd) => cmd.execute(backend),
            Err(e) => panic!("bad command: {:?}", e),
        };
        replies.push(reply.encode());
    }
    replies
}

#[test]
fn set_then_get_over_the_wire() {
    let mut backend = Backend::new();
    let replies = serve(
        &mut backend,
        b"*3\r\n$3\r\nset\r\n$5\r\nhello\r\n$5\r\nworld\r\n*2\r\n$3\r\nget\r\n$5\r\nhello\r\n",
    );
    assert_eq!(replies, vec![b"+OK\r\n".to_vec(), b"$5\r\nworld\r\n".to_vec()]);
}

#[test]
fn hash_scenario_over_the_wire() {
    let mut backend = Backend::new();
    let replies = serve(
        &mut backend,
        b"*4\r\n$4\r\nhset\r\n$3\r\nmap\r\n$5\r\nhello\r\n$5\r\nworld\r\n\
          *4\r\n$4\r\nhset\r\n$3\r\nmap\r\n$6\r\nhello1\r\n$6\r\nworld1\r\n\
          *2\r\n$7\r\nhgetall\r\n$3\r\nmap\r\n",
    );
    assert_eq!(
        replies,
        vec![
            b"+OK\r\n".to_vec(),
            b"+OK\r\n".to_vec(),
            b"*4\r\n$5\r\nhello\r\n$5\r\nworld\r\n$6\r\nhello1\r\n$6\r\nworld1\r\n".to_vec(),
        ]
    );
}

#[test]
fn command_names_ignore_case() {
    let frame = decode_array("*2\r\n$3\r\nGeT\r\n$5\r\nhello\r\n");
    assert!(matches!(Command::try_from_array(frame), Ok(Command::Get(_))));
}

#[test]
fn unknown_command_is_rejected() {
    let frame = decode_array("*2\r\n$4\r\nping\r\n$5\r\nhello\r\n");
    assert!(matches!(
        Command::try_from_array(frame),
        Err(CommandError::InvalidCommand(_))
    ));
    assert!(matches!(
        Command::try_from(RespFrame::Integer(1)),
        Err(CommandError::InvalidCommand(_))
    ));
}

#[test]
fn wrong_arity_is_rejected() {
    let frame = decode_array("*3\r\n$3\r\nget\r\n$1\r\na\r\n$1\r\nb\r\n");
    assert!(matches!(Get::try_from(frame), Err(CommandError::InvalidArguments(_))));
    let frame = decode_array("*2\r\n$5\r\nhmget\r\n$3\r\nmap\r\n");
    assert!(matches!(HMGet::try_from(frame), Err(CommandError::InvalidArguments(_))));
}

#[test]
fn non_text_key_is_rejected() {
    let frame = decode_array("*2\r\n$3\r\nget\r\n:+1\r\n");
    assert!(matches!(Get::try_from(frame), Err(CommandError::InvalidArguments(_))));
    let mut buf = BytesMut::from(&b"*2\r\n$3\r\nget\r\n$1\r\n\xff\r\n"[..]);
    let frame = match RespFrame::decode(&mut buf) {
        Ok(RespFrame::Array(a)) => a,
        other => panic!("not an array: {:?}", other),
    };
    assert!(matches!(Get::try_from(frame), Err(CommandError::Utf8Error(_))));
}

#[test]
fn hmget_field_must_be_bulk() {
    let frame = decode_array("*4\r\n$5\r\nhmget\r\n$3\r\nmap\r\n$1\r\na\r\n:+1\r\n");
    assert!(matches!(HMGet::try_from(frame), Err(CommandError::InvalidArguments(_))));
}

#[test]
fn echo_replies_with_message() {
    let mut backend = Backend::new();
    let cmd = Echo {
        message: "hi".to_string(),
    };
    assert_eq!(cmd.execute(&mut backend), bulk(b"hi"));
}

#[test]
fn misses_reply_null() {
    let mut backend = Backend::new();
    let get = Get {
        key: "nope".to_string(),
    };
    assert_eq!(get.execute(&mut backend), RespFrame::Null(RespNull));
    let hgetall = HGetAll {
        key: "nope".to_string(),
        sort: true,
    };
    assert_eq!(hgetall.execute(&mut backend), RespFrame::Null(RespNull));
    let sis = SIsMember {
        key: "nope".to_string(),
        member: bulk(b"x"),
    };
    assert_eq!(sis.execute(&mut backend), RespFrame::Integer(0));
}

#[test]
fn extract_args_skips_leading_frames() {
    let frame = decode_array("*3\r\n$3\r\nset\r\n$1\r\na\r\n$1\r\nb\r\n");
    assert_eq!(extract_args(frame, 1), Ok(vec![bulk(b"a"), bulk(b"b")]));
    let frame = decode_array("*1\r\n$3\r\nget\r\n");
    assert_eq!(extract_args(frame, 5), Ok(vec![]));
}

#[test]
fn validate_command_checks_arity_and_name() {
    let frame = decode_array("*2\r\n$3\r\nGET\r\n$1\r\na\r\n");
    assert_eq!(validate_command(&frame, b"get", 1, false), Ok(()));
    assert!(matches!(
        validate_command(&frame, b"set", 1, false),
        Err(CommandError::InvalidCommand(_))
    ));
    assert!(matches!(
        validate_command(&frame, b"get", 2, false),
        Err(CommandError::InvalidArguments(_))
    ));
}

#[test]
fn frame_handler_answers_bad_commands_with_an_error() {
    let mut backend = Backend::new();
    let frame = RespFrame::Array(RespArray::new(vec![bulk(b"ping")]));
    let reply = simple_redis::frame_handler(frame, &mut backend);
    assert_eq!(reply.encode(), b"-Invalid command: unknown command\r\n");
    let reply = simple_redis::frame_handler(RespFrame::Integer(3), &mut backend);
    assert_eq!(reply.encode(), b"-Invalid command: command must be an array\r\n");
}

#[test]
fn frame_handler_runs_commands() {
    let mut backend = Backend::new();
    let set = RespFrame::Array(RespArray::new(vec![bulk(b"SET"), bulk(b"k"), bulk(b"v")]));
    assert_eq!(simple_redis::frame_handler(set, &mut backend), resp_ok());
    let get = RespFrame::Array(RespArray::new(vec![bulk(b"get"), bulk(b"k")]));
    assert_eq!(simple_redis::frame_handler(get, &mut backend), bulk(b"v"));
}

#[test]
fn error_messages_read_as_text() {
    assert_eq!(
        CommandError::InvalidArguments("x".to_string()).message(),
        "Invalid command arguments: x"
    );
    assert_eq!(
        CommandError::RespError(simple_redis::RespError::InvalidFrameLength).message(),
        "Invalid frame length"
    );
    assert_eq!(simple_redis::RespError::Incomplete.message(), "Frame is incomplete");
}
