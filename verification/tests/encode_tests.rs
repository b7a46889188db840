use annul::encode::frame_stream;
use annul::encode::output;
use annul::encode::EncodeError;
use annul::encode::Entry;
use annul::encode::Status;

fn leaf(path: &[u8], content: &[u8]) -> Entry {
    Entry {
        path: path.to_vec(),
        content: Some(content.to_vec()),
        status: Status::Unnecessary,
    }
}

fn expected_frame(ctag: u8, stag: u8, full_path: &[u8], data: &[u8]) -> Vec<u8> {
    let mut meta = vec![ctag, stag];
    meta.extend_from_slice(full_path);
    meta.push(0);
    let mut frame = Vec::new();
    frame.extend_from_slice(&(8 + meta.len() as u64 + data.len() as u64).to_le_bytes());
    frame.extend_from_slice(&(meta.len() as u64).to_le_bytes());
    frame.extend_from_slice(&meta);
    frame.extend_from_slice(data);
    frame
}

#[test]
fn single_leaf_frame_bytes() {
    let entries = vec![leaf(b"a", b"hi")];
    let prefix: Vec<u8> = Vec::new();
    let mut out = Vec::new();
    output(&entries, &prefix, &mut out);
    // content survives sanitization unchanged, so the content tag is 0
    assert_eq!(out, expected_frame(0, 3, b"a", b"hi"));
}

#[test]
fn frame_lengths_hold() {
    let entries = vec![leaf(b"name", b"some text")];
    let prefix: Vec<u8> = Vec::new();
    let mut out = Vec::new();
    output(&entries, &prefix, &mut out);
    let total = u64::from_le_bytes(out[0..8].try_into().unwrap());
    let meta_len = u64::from_le_bytes(out[8..16].try_into().unwrap());
    let data_len = out.len() as u64 - 16 - meta_len;
    assert_eq!(total, 8 + meta_len + data_len);
    assert_eq!(out.len() as u64, 8 + total);
}

#[test]
fn binary_content_gets_modified_tag() {
    // three consecutive binary bytes change the sanitized length
    let entries = vec![leaf(b"bin", b"hello\x01\x02\x03world")];
    let prefix: Vec<u8> = Vec::new();
    let mut out = Vec::new();
    output(&entries, &prefix, &mut out);
    assert_eq!(out, expected_frame(1, 3, b"bin", b"hello\0world"));
}

#[test]
fn siblings_sorted_by_path_bytes() {
    let entries = vec![leaf(b"zz", b"2"), leaf(b"aa", b"1"), leaf(b"mm", b"3")];
    let prefix: Vec<u8> = Vec::new();
    let mut out = Vec::new();
    output(&entries, &prefix, &mut out);
    let mut expected = expected_frame(0, 3, b"aa", b"1");
    expected.extend_from_slice(&expected_frame(0, 3, b"mm", b"3"));
    expected.extend_from_slice(&expected_frame(0, 3, b"zz", b"2"));
    assert_eq!(out, expected);
}

#[test]
fn children_follow_parent_depth_first() {
    let child = leaf(b"c", b"xyz1");
    let parent = Entry {
        path: b"d".to_vec(),
        content: None,
        status: Status::Success(vec![child]),
    };
    let entries = vec![parent, leaf(b"a", b"hi")];
    let prefix: Vec<u8> = Vec::new();
    let mut out = Vec::new();
    output(&entries, &prefix, &mut out);
    let mut expected = expected_frame(0, 3, b"a", b"hi");
    expected.extend_from_slice(&expected_frame(2, 8, b"d", b""));
    // the child's full path is the parent's path, a NUL, then its own
    expected.extend_from_slice(&expected_frame(0, 3, b"d\0c", b"xyz1"));
    assert_eq!(out, expected);
}

#[test]
fn status_tags_distinct() {
    let statuses = [
        Status::Unnecessary,
        Status::Unrecognised,
        Status::TooNested,
        Status::Unsupported,
        Status::Error,
        Status::Success(Vec::new()),
    ];
    let mut seen = Vec::new();
    for (i, status) in statuses.into_iter().enumerate() {
        let entries = vec![Entry { path: vec![b'p'], content: None, status }];
        let prefix: Vec<u8> = Vec::new();
        let mut out = Vec::new();
        output(&entries, &prefix, &mut out);
        let tag = out[17];
        assert_eq!(tag, 3 + i as u8);
        assert!(!seen.contains(&tag));
        seen.push(tag);
    }
}

#[test]
fn content_tags_distinct() {
    // kept length, changed length, no content
    let cases: [(Option<Vec<u8>>, u8); 3] = [
        (Some(b"text".to_vec()), 0),
        (Some(b"abcd\x01\x02\x03\x04\x05".to_vec()), 1),
        (None, 2),
    ];
    for (content, want) in cases {
        let entries = vec![Entry {
            path: vec![b'p'],
            content,
            status: Status::Unnecessary,
        }];
        let prefix: Vec<u8> = Vec::new();
        let mut out = Vec::new();
        output(&entries, &prefix, &mut out);
        assert_eq!(out[16], want);
    }
}

#[test]
fn deterministic_streams() {
    let build = || {
        vec![
            leaf(b"beta", b"same bytes"),
            Entry {
                path: b"alpha".to_vec(),
                content: None,
                status: Status::Success(vec![leaf(b"inner", b"deep")]),
            },
        ]
    };
    let prefix: Vec<u8> = Vec::new();
    let mut one = Vec::new();
    output(&build(), &prefix, &mut one);
    let mut two = Vec::new();
    output(&build(), &prefix, &mut two);
    assert_eq!(one, two);
}

#[test]
fn frame_stream_wants_expanded_archive() {
    let ok = frame_stream(&Status::Success(vec![leaf(b"f", b"data")]));
    let mut expected = Vec::new();
    expected.extend_from_slice(&expected_frame(0, 3, b"f", b"data"));
    assert_eq!(ok.unwrap(), expected);

    for status in [
        Status::Unnecessary,
        Status::Unrecognised,
        Status::TooNested,
        Status::Unsupported,
        Status::Error,
    ] {
        assert_eq!(frame_stream(&status), Err(EncodeError::NotArchive));
    }
}

#[test]
fn equal_paths_keep_given_order() {
    // sibling paths are unique in practice; the sort is still stable when
    // they are not, so the stream stays a function of the given tree
    let entries = vec![leaf(b"same", b"first"), leaf(b"same", b"second")];
    let prefix: Vec<u8> = Vec::new();
    let mut out = Vec::new();
    output(&entries, &prefix, &mut out);
    let mut expected = expected_frame(0, 3, b"same", b"first");
    expected.extend_from_slice(&expected_frame(0, 3, b"same", b"second"));
    assert_eq!(out, expected);
}

#[test]
fn deep_nesting_extends_prefix_per_level() {
    let inner = leaf(b"leaf", b"bottom");
    let mid = Entry {
        path: b"mid".to_vec(),
        content: None,
        status: Status::Success(vec![inner]),
    };
    let top = Entry {
        path: b"top".to_vec(),
        content: None,
        status: Status::Success(vec![mid]),
    };
    let entries = vec![top];
    let prefix: Vec<u8> = Vec::new();
    let mut out = Vec::new();
    output(&entries, &prefix, &mut out);
    let mut expected = expected_frame(2, 8, b"top", b"");
    expected.extend_from_slice(&expected_frame(2, 8, b"top\0mid", b""));
    expected.extend_from_slice(&expected_frame(0, 3, b"top\0mid\0leaf", b"bottom"));
    assert_eq!(out, expected);
}

#[test]
fn empty_sibling_set_yields_empty_stream() {
    let entries: Vec<Entry> = Vec::new();
    let prefix: Vec<u8> = Vec::new();
    let mut out = Vec::new();
    output(&entries, &prefix, &mut out);
    assert_eq!(out, Vec::<u8>::new());
    assert_eq!(frame_stream(&Status::Success(Vec::new())).unwrap(), Vec::<u8>::new());
}

#[test]
fn whole_stream_parses_as_frames() {
    let tree = vec![
        Entry {
            path: b"pkg".to_vec(),
            content: None,
            status: Status::Success(vec![
                leaf(b"a.txt", b"alpha"),
                leaf(b"b.bin", b"xx\x01\x02\x03\x04\x05yy"),
                Entry {
                    path: b"nested".to_vec(),
                    content: Some(b"inner archive".to_vec()),
                    status: Status::Success(vec![leaf(b"deep", b"bottom")]),
                },
            ]),
        },
        leaf(b"README", b"hello"),
    ];
    let prefix: Vec<u8> = Vec::new();
    let mut out = Vec::new();
    output(&tree, &prefix, &mut out);
    // walk the stream: every frame accounts for exactly its own bytes
    let mut at = 0usize;
    let mut frames = 0usize;
    while at < out.len() {
        let total = u64::from_le_bytes(out[at..at + 8].try_into().unwrap()) as usize;
        let meta_len = u64::from_le_bytes(out[at + 8..at + 16].try_into().unwrap()) as usize;
        assert!(total >= 8 + meta_len);
        assert!(at + 8 + total <= out.len());
        let data_len = total - 8 - meta_len;
        let meta = &out[at + 16..at + 16 + meta_len];
        assert!(meta[0] <= 2);
        assert!((3..=8).contains(&meta[1]));
        assert_eq!(meta[meta_len - 1], 0); // the path's closing NUL
        at += 8 + total;
        frames += 1;
        let _ = data_len;
    }
    assert_eq!(at, out.len());
    assert_eq!(frames, 6);
}
