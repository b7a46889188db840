//! Compression and publish wiring: chooses a static dictionary from the
//! source file's name pattern, wraps the frame stream in the streaming
//! compressor, and aggregates per-file outcomes of a multi-file run.

use vstd::prelude::*;

use crate::encode::encode_tree;
use crate::encode::entries_fit;
use crate::encode::frame_stream;
use crate::encode::Status;

verus! {

/// Which of the three static priming blobs seeds the compressor.
#[derive(Clone, Copy, Debug, PartialEq, Eq, Structural)]
pub enum Dictionary {
    Diff,
    Debian,
    Orig,
}

/// What building one container can report: the unpacker's top level was not
/// an expanded archive, or the compressor refused its input.
#[derive(Clone, Copy, Debug, PartialEq, Eq, Structural)]
pub enum ContainerError {
    NotArchive,
    Compression,
}

/// Whether `needle` occurs as a contiguous run inside `hay`.
pub open spec fn contains_seq(hay: Seq<u8>, needle: Seq<u8>) -> bool {
    exists|i: int|
        0 <= i <= hay.len() - needle.len() && #[trigger] hay.subrange(i, i + needle.len())
            == needle
}

/// The bytes of the pattern `.diff.`.
pub open spec fn diff_pattern() -> Seq<u8> {
    seq![0x2eu8, 0x64u8, 0x69u8, 0x66u8, 0x66u8, 0x2eu8]
}

/// The bytes of the pattern `.debian.`.
pub open spec fn debian_pattern() -> Seq<u8> {
    seq![0x2eu8, 0x64u8, 0x65u8, 0x62u8, 0x69u8, 0x61u8, 0x6eu8, 0x2eu8]
}

/// The dictionary a source file's name selects: `.diff.` names a diff,
/// `.debian.` a packaging tarball, anything else the original tarball.
pub open spec fn dict_spec(name: Seq<u8>) -> Dictionary {
    if contains_seq(name, diff_pattern()) {
        Dictionary::Diff
    } else if contains_seq(name, debian_pattern()) {
        Dictionary::Debian
    } else {
        Dictionary::Orig
    }
}

/// Whether `needle` occurs in `hay` starting exactly at `i`.
fn match_at(hay: &[u8], needle: &[u8], i: usize) -> (r: bool)
    requires
        i + needle@.len() <= hay@.len(),
    ensures
        r == (hay@.subrange(i as int, i + needle@.len()) == needle@),
{
    let hay_len = hay.len();
    let mut j: usize = 0;
    while j < needle.len()
        invariant
            j <= needle@.len(),
            i + needle@.len() <= hay@.len(),
            hay_len == hay@.len(),
            forall|k: int| 0 <= k < j ==> hay@[i + k] == needle@[k],
        decreases needle@.len() - j,
    {
        proof {
            assert(i + j < hay@.len());
        }
        if hay[i + j] != needle[j] {
            proof {
                assert(hay@.subrange(i as int, i + needle@.len())[j as int] != needle@[j as int]);
            }
            return false;
        }
        j = j + 1;
    }
    proof {
        assert(hay@.subrange(i as int, i + needle@.len()) =~= needle@);
    }
    true
}

/// Whether `needle` occurs anywhere in `hay`.
fn contains_sub(hay: &[u8], needle: &[u8]) -> (r: bool)
    ensures
        r == contains_seq(hay@, needle@),
{
    if needle.len() == 0 {
        proof {
            assert(hay@.subrange(0, 0 + needle@.len() as int) =~= needle@);
            assert(contains_seq(hay@, needle@));
        }
        return true;
    }
    if needle.len() > hay.len() {
        return false;
    }
    let bound = hay.len() - needle.len();
    let mut i: usize = 0;
    while i <= bound
        invariant
            1 <= needle@.len() <= hay@.len(),
            hay@.len() <= usize::MAX,
            bound == hay@.len() - needle@.len(),
            i <= bound + 1,
            forall|k: int|
                0 <= k < i ==> #[trigger] hay@.subrange(k, k + needle@.len()) != needle@,
        decreases bound + 1 - i,
    {
        if match_at(hay, needle, i) {
            proof {
                assert(contains_seq(hay@, needle@));
            }
            return true;
        }
        i = i + 1;
    }
    false
}

/// Chooses the compression dictionary from the source file's name.
pub fn choose_dictionary(name: &[u8]) -> (d: Dictionary)
    ensures
        d == dict_spec(name@),
{
    let diff: Vec<u8> = vec![0x2eu8, 0x64u8, 0x69u8, 0x66u8, 0x66u8, 0x2eu8];
    let debian: Vec<u8> = vec![0x2eu8, 0x64u8, 0x65u8, 0x62u8, 0x69u8, 0x61u8, 0x6eu8, 0x2eu8];
    proof {
        assert(diff@ =~= diff_pattern());
        assert(debian@ =~= debian_pattern());
    }
    if contains_sub(name, diff.as_slice()) {
        Dictionary::Diff
    } else if contains_sub(name, debian.as_slice()) {
        Dictionary::Debian
    } else {
        Dictionary::Orig
    }
}

/// What the compressor produces for a given dictionary, level and input; a
/// fixed function of the three, stated only by name.
pub uninterp spec fn zstd_frame(dict: Seq<u8>, level: i32, data: Seq<u8>) -> Seq<u8>;

/// Whether the compressor accepts a given dictionary, level and input; a
/// fixed function of the three, stated only by name.
pub uninterp spec fn zstd_ok(dict: Seq<u8>, level: i32, data: Seq<u8>) -> bool;

/// Relies on zstd's bulk Compressor (`with_dictionary`, then `compress`):
/// a one-shot, single-threaded compression whose acceptance and output both
/// depend on the dictionary, level and input bytes alone; its errors come
/// back as values.
#[verifier::external_body]
fn zstd_compress(dict: &Vec<u8>, level: i32, data: &Vec<u8>) -> (r: Option<Vec<u8>>)
    ensures
        r is Some <==> zstd_ok(dict@, level, data@),
        r matches Some(blob) ==> blob@ == zstd_frame(dict@, level, data@),
{
    let mut compressor = match zstd::bulk::Compressor::with_dictionary(level, dict.as_slice()) {
        Ok(c) => c,
        Err(_) => return None,
    };
    match compressor.compress(data.as_slice()) {
        Ok(blob) => Some(blob),
        Err(_) => None,
    }
}

/// Builds the compressed container for one unpacked source file: the full
/// frame stream of the entry tree, compressed at level 8 with the given
/// dictionary bytes. Succeeds on every expanded archive the compressor
/// accepts; refuses a top level that is not an expanded archive; reports the
/// compressor's refusal without inventing a blob.
pub fn build_container(root: &Status, dict: &Vec<u8>) -> (r: Result<Vec<u8>, ContainerError>)
    requires
        root matches Status::Success(es) ==> entries_fit(es@, 0),
    ensures
        match r {
            Result::Ok(blob) => root matches Status::Success(es) && blob@ == zstd_frame(
                dict@,
                8,
                encode_tree(es@, Seq::<u8>::empty()),
            ),
            Result::Err(err) => {
                &&& (err == ContainerError::NotArchive <==> !(root is Success))
                &&& (err == ContainerError::Compression <==> (root matches Status::Success(es)
                    && !zstd_ok(dict@, 8, encode_tree(es@, Seq::<u8>::empty()))))
            },
        },
        (root matches Status::Success(es) && zstd_ok(
            dict@,
            8,
            encode_tree(es@, Seq::<u8>::empty()),
        )) ==> r is Ok,
{
    match frame_stream(root) {
        Result::Ok(frames) => match zstd_compress(dict, 8, &frames) {
            Option::Some(blob) => Result::Ok(blob),
            Option::None => Result::Err(ContainerError::Compression),
        },
        Result::Err(_) => Result::Err(ContainerError::NotArchive),
    }
}

/// The bytes of the container suffix `.annul`.
pub open spec fn annul_suffix() -> Seq<u8> {
    seq![0x2eu8, 0x61u8, 0x6eu8, 0x6eu8, 0x75u8, 0x6cu8]
}

/// The published container's name: the source's final path segment with the
/// container suffix appended.
pub fn output_name(segment: &[u8]) -> (name: Vec<u8>)
    ensures
        name@ == segment@ + annul_suffix(),
{
    let mut name: Vec<u8> = Vec::new();
    let mut i: usize = 0;
    proof {
        assert(name@ =~= segment@.take(0));
    }
    while i < segment.len()
        invariant
            i <= segment@.len(),
            name@ == segment@.take(i as int),
        decreases segment@.len() - i,
    {
        name.push(segment[i]);
        proof {
            assert(name@ =~= segment@.take(i + 1));
        }
        i = i + 1;
    }
    proof {
        assert(name@ =~= segment@);
    }
    name.push(0x2eu8);
    name.push(0x61u8);
    name.push(0x6eu8);
    name.push(0x6eu8);
    name.push(0x75u8);
    name.push(0x6cu8);
    proof {
        assert(name@ =~= segment@ + annul_suffix());
    }
    name
}

/// Overall outcome of a multi-file run: success only when every constituent
/// file succeeded; every file's outcome is taken into account, so a failure
/// in one never hides the others.
pub fn run_status(outcomes: &Vec<bool>) -> (ok: bool)
    ensures
        ok <==> (forall|i: int| 0 <= i < outcomes@.len() ==> outcomes@[i]),
{
    let mut ok = true;
    let mut i: usize = 0;
    while i < outcomes.len()
        invariant
            i <= outcomes@.len(),
            ok <==> (forall|k: int| 0 <= k < i ==> outcomes@[k]),
        decreases outcomes@.len() - i,
    {
        if !outcomes[i] {
            ok = false;
        }
        i = i + 1;
    }
    ok
}

} // verus!
