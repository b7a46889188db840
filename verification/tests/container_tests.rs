use annul::container::build_container;
use annul::container::choose_dictionary;
use annul::container::output_name;
use annul::container::run_status;
use annul::container::ContainerError;
use annul::container::Dictionary;
use annul::encode::frame_stream;
use annul::encode::Entry;
use annul::encode::Status;

fn sample_tree() -> Status {
    Status::Success(vec![
        Entry {
            path: b"src".to_vec(),
            content: None,
            status: Status::Success(vec![Entry {
                path: b"main.c".to_vec(),
                content: Some(b"int main() { return 0; }\n".to_vec()),
                status: Status::Unnecessary,
            }]),
        },
        Entry {
            path: b"README".to_vec(),
            content: Some(b"read me\n".to_vec()),
            status: Status::Unnecessary,
        },
    ])
}

#[test]
fn container_round_trips_through_decompression() {
    let root = sample_tree();
    let dict: Vec<u8> = Vec::new();
    let frames = frame_stream(&root).unwrap();
    let blob = build_container(&root, &dict).unwrap();
    let mut decompressor = zstd::bulk::Decompressor::new().unwrap();
    let restored = decompressor.decompress(&blob, frames.len()).unwrap();
    assert_eq!(restored, frames);
}

#[test]
fn container_deterministic() {
    let dict: Vec<u8> = Vec::new();
    let one = build_container(&sample_tree(), &dict).unwrap();
    let two = build_container(&sample_tree(), &dict).unwrap();
    assert_eq!(one, two);
}

#[test]
fn container_refuses_unexpanded_top_level() {
    let dict: Vec<u8> = Vec::new();
    assert_eq!(
        build_container(&Status::Unrecognised, &dict),
        Err(ContainerError::NotArchive)
    );
    assert_eq!(
        build_container(&Status::Error, &dict),
        Err(ContainerError::NotArchive)
    );
}

#[test]
fn dictionary_chosen_by_name_pattern() {
    assert_eq!(
        choose_dictionary(b"pkg_1.0-1.diff.gz"),
        Dictionary::Diff
    );
    assert_eq!(
        choose_dictionary(b"pkg_1.0-1.debian.tar.xz"),
        Dictionary::Debian
    );
    assert_eq!(
        choose_dictionary(b"pkg_1.0.orig.tar.gz"),
        Dictionary::Orig
    );
    assert_eq!(choose_dictionary(b""), Dictionary::Orig);
    // the diff pattern wins when both occur
    assert_eq!(
        choose_dictionary(b"a.debian.diff.b"),
        Dictionary::Diff
    );
}

#[test]
fn output_name_appends_suffix() {
    assert_eq!(output_name(b"pkg_1.0.orig.tar.gz"), b"pkg_1.0.orig.tar.gz.annul".to_vec());
    assert_eq!(output_name(b""), b".annul".to_vec());
}

#[test]
fn partial_failure_reported_after_all_files() {
    // three constituent files; the second fails: the run still covers all
    // three outcomes and reports overall failure
    let outcomes = vec![true, false, true];
    assert!(!run_status(&outcomes));
    assert!(run_status(&vec![true, true, true]));
    assert!(run_status(&Vec::new()));
    assert!(!run_status(&vec![false]));
}
