use raphdb::error::FrameError;
use raphdb::frame::Frame;

fn common_frames_and_bytes() -> Vec<(Frame, Vec<u8>)> {
    vec![
        (Frame::Simple(b"foo".to_vec()), b"+foo\r\n".to_vec()),
        (Frame::Error(b"foo".to_vec()), b"-foo\r\n".to_vec()),
        (Frame::Integer(10), b":10\r\n".to_vec()),
        (Frame::Null, b"$-1\r\n".to_vec()),
        (Frame::Bulk(b"foo".to_vec()), b"$3\r\nfoo\r\n".to_vec()),
    ]
}

fn common_frames() -> Vec<Frame> {
    common_frames_and_bytes().into_iter().map(|(f, _)| f).collect()
}

#[test]
fn frame_test_array() {
    let frame = Frame::array();
    let expected: Vec<Frame> = vec![];
    assert!(matches!(frame, Frame::Array(vec) if vec == expected));
}

#[test]
fn frame_test_push_bulk() {
    let mut frame = Frame::array();
    let bytes = b"Hello world".to_vec();
    frame.push_bulk(bytes.clone());

    let expected = vec![Frame::Bulk(bytes)];
    assert!(matches!(frame, Frame::Array(vec) if vec == expected));
}

#[test]
fn frame_test_push_int() {
    let mut frame = Frame::array();
    let integer: u64 = 10;
    frame.push_int(integer);

    let expected = vec![Frame::Integer(integer)];
    assert!(matches!(frame, Frame::Array(vec) if vec == expected));
}

#[test]
fn frame_test_create_bytes() {
    for (frame, expected_bytes) in common_frames_and_bytes().iter() {
        let bytes = frame.create_bytes();
        assert_eq!(&bytes, expected_bytes);
    }
}

#[test]
fn mod_test_array() {
    let frame = Frame::array();
    let expected: Vec<Frame> = vec![];
    assert!(matches!(frame, Frame::Array(vec) if vec == expected));
}

#[test]
fn mod_test_push_bulk() {
    let mut frame = Frame::array();
    let bytes = b"Hello world".to_vec();
    frame.push_bulk(bytes.clone());

    let expected = vec![Frame::Bulk(bytes)];
    assert!(matches!(frame, Frame::Array(vec) if vec == expected));
}

#[test]
fn mod_test_push_int() {
    let mut frame = Frame::array();
    let integer: u64 = 10;
    frame.push_int(integer);

    let expected = vec![Frame::Integer(integer)];
    assert!(matches!(frame, Frame::Array(vec) if vec == expected));
}

#[test]
fn mod_test_create_bytes() {
    let buffer = Frame::Simple(b"foo".to_vec()).create_bytes();
    assert_eq!(buffer, b"+foo\r\n".to_vec());

    let buffer = Frame::Error(b"foo".to_vec()).create_bytes();
    assert_eq!(buffer, b"-foo\r\n".to_vec());

    let buffer = Frame::Integer(10).create_bytes();
    assert_eq!(buffer, b":10\r\n".to_vec());

    let buffer = Frame::Null.create_bytes();
    assert_eq!(buffer, b"$-1\r\n".to_vec());

    let buffer = Frame::Bulk(b"foo".to_vec()).create_bytes();
    assert_eq!(buffer, b"$3\r\nfoo\r\n".to_vec());
}

#[test]
fn test_check() {
    for (frame, _) in common_frames_and_bytes() {
        let bytes = frame.create_bytes();
        let mut pos: usize = 0;
        assert!(Frame::check(&bytes, &mut pos).is_ok());
    }

    // Check for array frame
    let frames = common_frames();
    let mut bytes: Vec<u8> = Vec::new();
    bytes.push(b'*');
    bytes.extend_from_slice(frames.len().to_string().as_bytes());
    bytes.extend_from_slice(b"\r\n");
    for frame in frames.iter() {
        bytes.extend_from_slice(&frame.create_bytes());
    }
    let mut pos: usize = 0;
    assert!(Frame::check(&bytes, &mut pos).is_ok());

    // Check for array frame err
    let bytes = b"err".to_vec();
    let mut pos: usize = 0;
    assert!(Frame::check(&bytes, &mut pos).is_err());
}

#[test]
fn test_parse() {
    for (frame, _) in common_frames_and_bytes() {
        let bytes = frame.create_bytes();
        let mut pos: usize = 0;
        assert!(Frame::check(&bytes, &mut pos).is_ok());

        let mut pos: usize = 0;
        let parsed_frame = Frame::parse(&bytes, &mut pos);
        assert!(parsed_frame.is_ok());
        assert_eq!(parsed_frame.unwrap(), frame);
    }

    // Check for array frame
    let frames = common_frames();
    let mut bytes: Vec<u8> = Vec::new();
    bytes.push(b'*');
    bytes.extend_from_slice(frames.len().to_string().as_bytes());
    bytes.extend_from_slice(b"\r\n");
    for frame in frames.iter() {
        bytes.extend_from_slice(&frame.create_bytes());
    }
    let mut pos: usize = 0;
    assert!(Frame::check(&bytes, &mut pos).is_ok());
    let mut pos: usize = 0;
    let parsed_frame = Frame::parse(&bytes, &mut pos);
    assert!(parsed_frame.is_ok());
    assert_eq!(parsed_frame.unwrap(), Frame::Array(common_frames()));
}

#[test]
fn test_roundtrip_non_array() {
    for (frame, _) in common_frames_and_bytes() {
        let bytes = frame.create_bytes();
        let mut pos: usize = 0;
        let parsed = Frame::parse(&bytes, &mut pos).unwrap();
        assert_eq!(parsed, frame);
        assert_eq!(pos, bytes.len());
    }
}

#[test]
fn test_roundtrip_wire_array() {
    let mut frame = Frame::array();
    frame.push_bulk(b"foo".to_vec());
    frame.push_int(7);
    frame.push_bulk(b"with\nnewline".to_vec());
    let bytes = frame.wire_bytes();
    assert_eq!(&bytes, b"*3\r\n$3\r\nfoo\r\n:7\r\n$12\r\nwith\nnewline\r\n");

    let read = raphdb::connection::parse_frame(&bytes).unwrap();
    let (parsed, used) = read.unwrap();
    assert_eq!(used, bytes.len());
    assert_eq!(parsed, frame);
}

#[test]
fn test_check_prefix_incomplete() {
    let encodings: Vec<Vec<u8>> = vec![
        b"+foo\r\n".to_vec(),
        b"-bar\r\n".to_vec(),
        b":1234\r\n".to_vec(),
        b"$-1\r\n".to_vec(),
        b"$6\r\nabc,de\r\n".to_vec(),
        b"*2\r\n$3\r\nGET\r\n$3\r\nfoo\r\n".to_vec(),
    ];
    for enc in encodings {
        for cut in 0..enc.len() {
            let prefix = enc[..cut].to_vec();
            let mut pos: usize = 0;
            let res = Frame::check(&prefix, &mut pos);
            assert!(matches!(res, Err(FrameError::Incomplete)));
        }
        let mut pos: usize = 0;
        assert!(Frame::check(&enc, &mut pos).is_ok());
        assert_eq!(pos, enc.len());
    }
}

#[test]
fn test_parse_rejects_bad_utf8_text() {
    let bytes = b"+f\xffo\r\n".to_vec();
    let mut pos: usize = 0;
    assert!(Frame::check(&bytes, &mut pos).is_ok());
    let mut pos: usize = 0;
    let parsed = Frame::parse(&bytes, &mut pos);
    assert!(matches!(parsed, Err(FrameError::Other(_))));
}

#[test]
fn test_parse_decimal_overflow_is_malformed() {
    let bytes = b":99999999999999999999\r\n".to_vec();
    let mut pos: usize = 0;
    let res = Frame::check(&bytes, &mut pos);
    assert!(matches!(res, Err(FrameError::Other(_))));
}

#[test]
fn test_empty_array_roundtrip() {
    let frame = Frame::array();
    let bytes = frame.wire_bytes();
    assert_eq!(&bytes, b"*0\r\n");
    let mut pos: usize = 0;
    assert!(Frame::check(&bytes, &mut pos).is_ok());
    let mut pos: usize = 0;
    assert_eq!(Frame::parse(&bytes, &mut pos).unwrap(), frame);
}

#[test]
fn test_nested_array_parse() {
    // the decoder handles nesting even though the writer only emits
    // one level
    let bytes = b"*1\r\n*1\r\n:1\r\n".to_vec();
    let mut pos: usize = 0;
    assert!(Frame::check(&bytes, &mut pos).is_ok());
    let mut pos: usize = 0;
    let parsed = Frame::parse(&bytes, &mut pos).unwrap();
    assert_eq!(parsed, Frame::Array(vec![Frame::Array(vec![Frame::Integer(1)])]));
}

#[test]
fn test_parse_frame_incomplete_then_complete() {
    let buffer = b"$3\r\nba".to_vec();
    assert!(matches!(raphdb::connection::parse_frame(&buffer), Ok(None)));

    let buffer = b"$3\r\nbar\r\n".to_vec();
    let (frame, used) = raphdb::connection::parse_frame(&buffer).unwrap().unwrap();
    assert_eq!(frame, Frame::Bulk(b"bar".to_vec()));
    assert_eq!(used, buffer.len());
}
