//! Where things live in a `.git` directory: the path of a loose object, the
//! role of a file by its path, and the paths that a fetched file leads to.

use vstd::prelude::*;
use crate::parsing::{
    dedup, head_spec, hash_spec, heads_prefix, log_hashes, object_spec, parse_hash, parse_head,
    parse_log, parse_object, views, FormatError, GitObject,
};
use crate::text::{
    chars_equal, chars_of, is_hash, is_hash_chars, is_hex_char, is_zero_hash, prefix_matches,
    starts_with, string_of, zero_hash,
};

verus! {

pub open spec fn objects_prefix() -> Seq<char> {
    seq!['o', 'b', 'j', 'e', 'c', 't', 's', '/']
}

/// The path of a loose object: `objects/`, the first two digits of its
/// name, `/`, and the other 38.
pub open spec fn object_path(h: Seq<char>) -> Seq<char> {
    objects_prefix() + h.subrange(0, 2) + seq!['/'] + h.subrange(2, h.len() as int)
}

fn object_path_chars(h: &[char]) -> (r: Vec<char>)
    requires
        h@.len() == 40,
    ensures
        r@ == object_path(h@),
{
    let mut r: Vec<char> = vec!['o', 'b', 'j', 'e', 'c', 't', 's', '/'];
    assert(r@ =~= objects_prefix());
    r.push(h[0]);
    r.push(h[1]);
    r.push('/');
    let mut i: usize = 2;
    assert(r@ =~= objects_prefix() + h@.subrange(0, 2) + seq!['/'] + h@.subrange(2, 2));
    while i < 40
        invariant
            h@.len() == 40,
            2 <= i <= 40,
            r@ == objects_prefix() + h@.subrange(0, 2) + seq!['/'] + h@.subrange(2, i as int),
        decreases 40 - i,
    {
        r.push(h[i]);
        i = i + 1;
        assert(r@ =~= objects_prefix() + h@.subrange(0, 2) + seq!['/'] + h@.subrange(
            2,
            i as int,
        ));
    }
    r
}

/// The path of the loose object with the given name.
pub fn hash_to_url(hash: &str) -> (r: String)
    requires
        is_hash(hash@),
    ensures
        r@ == object_path(hash@),
{
    let h = chars_of(hash);
    let p = object_path_chars(h.as_slice());
    string_of(p.as_slice())
}

/// `objects/<2 hex digits>/<38 hex digits>`, and nothing around it.
pub open spec fn is_object_path(p: Seq<char>) -> bool {
    &&& p.len() == 49
    &&& starts_with(p, objects_prefix())
    &&& p[10] == '/'
    &&& forall|i: int| 8 <= i < 49 && i != 10 ==> is_hex_char(#[trigger] p[i])
}

fn is_object_path_chars(p: &[char]) -> (r: bool)
    ensures
        r == is_object_path(p@),
{
    let prefix: Vec<char> = vec!['o', 'b', 'j', 'e', 'c', 't', 's', '/'];
    assert(prefix@ =~= objects_prefix());
    if p.len() != 49 || !prefix_matches(p, prefix.as_slice()) || p[10] != '/' {
        return false;
    }
    let mut i: usize = 8;
    while i < 49
        invariant
            p@.len() == 49,
            8 <= i <= 49,
            forall|k: int| 8 <= k < i && k != 10 ==> is_hex_char(#[trigger] p@[k]),
        decreases 49 - i,
    {
        let u = p[i] as u32;
        if i != 10 && !((('0' as u32) <= u && u <= ('9' as u32)) || (('a' as u32) <= u && u <= (
        'f' as u32))) {
            assert(!is_hex_char(p@[i as int]));
            return false;
        }
        i = i + 1;
    }
    true
}

/// How a fetched file is read, by its path.
#[derive(Debug, Clone, Copy, PartialEq, Eq, Structural)]
pub enum FileRole {
    /// `HEAD` or `refs/remotes/origin/HEAD`: names a branch.
    Head,
    /// `refs/heads/...` or `ORIG_HEAD`: holds an object name.
    BranchRef,
    /// `logs/...`: a reflog.
    Log,
    /// `objects/xx/yyy...`: a loose object.
    Object,
    /// Anything else: kept, not read.
    Other,
}

pub open spec fn head_name() -> Seq<char> {
    seq!['H', 'E', 'A', 'D']
}

pub open spec fn remote_head_name() -> Seq<char> {
    seq![
        'r', 'e', 'f', 's', '/', 'r', 'e', 'm', 'o', 't', 'e', 's', '/', 'o', 'r', 'i', 'g', 'i',
        'n', '/', 'H', 'E', 'A', 'D',
    ]
}

pub open spec fn orig_head_name() -> Seq<char> {
    seq!['O', 'R', 'I', 'G', '_', 'H', 'E', 'A', 'D']
}

pub open spec fn logs_prefix() -> Seq<char> {
    seq!['l', 'o', 'g', 's', '/']
}

pub open spec fn role_of(p: Seq<char>) -> FileRole {
    if p == head_name() || p == remote_head_name() {
        FileRole::Head
    } else if starts_with(p, heads_prefix()) || p == orig_head_name() {
        FileRole::BranchRef
    } else if starts_with(p, logs_prefix()) {
        FileRole::Log
    } else if is_object_path(p) {
        FileRole::Object
    } else {
        FileRole::Other
    }
}

fn role_of_chars(p: &[char]) -> (r: FileRole)
    ensures
        r == role_of(p@),
{
    let head: Vec<char> = vec!['H', 'E', 'A', 'D'];
    let remote: Vec<char> = vec![
        'r', 'e', 'f', 's', '/', 'r', 'e', 'm', 'o', 't', 'e', 's', '/', 'o', 'r', 'i', 'g', 'i',
        'n', '/', 'H', 'E', 'A', 'D',
    ];
    let heads: Vec<char> = vec!['r', 'e', 'f', 's', '/', 'h', 'e', 'a', 'd', 's', '/'];
    let orig: Vec<char> = vec!['O', 'R', 'I', 'G', '_', 'H', 'E', 'A', 'D'];
    let logs: Vec<char> = vec!['l', 'o', 'g', 's', '/'];
    assert(head@ =~= head_name());
    assert(remote@ =~= remote_head_name());
    assert(heads@ =~= heads_prefix());
    assert(orig@ =~= orig_head_name());
    assert(logs@ =~= logs_prefix());
    if chars_equal(p, head.as_slice()) || chars_equal(p, remote.as_slice()) {
        FileRole::Head
    } else if prefix_matches(p, heads.as_slice()) || chars_equal(p, orig.as_slice()) {
        FileRole::BranchRef
    } else if prefix_matches(p, logs.as_slice()) {
        FileRole::Log
    } else if is_object_path_chars(p) {
        FileRole::Object
    } else {
        FileRole::Other
    }
}

/// Tells how the file at `path` is to be read.
pub fn file_role(path: &str) -> (r: FileRole)
    ensures
        r == role_of(path@),
{
    let p = chars_of(path);
    role_of_chars(p.as_slice())
}

/// The paths that a list of object names leads to: each one that is a
/// well-formed name and not the all-zero one, in order.
pub open spec fn object_paths(hs: Seq<Seq<char>>) -> Seq<Seq<char>>
    decreases hs.len(),
{
    if hs.len() == 0 {
        Seq::empty()
    } else {
        let h = hs.last();
        object_paths(hs.drop_last()) + if is_hash(h) && h != zero_hash() {
            seq![object_path(h)]
        } else {
            Seq::empty()
        }
    }
}

/// The paths that the file at `path` with content `content` leads to.
pub open spec fn candidates_of(path: Seq<char>, content: Seq<u8>) -> Result<
    Seq<Seq<char>>,
    FormatError,
> {
    match role_of(path) {
        FileRole::Head => match head_spec(content) {
            Ok(t) => Ok(seq![t]),
            Err(e) => Err(e),
        },
        FileRole::BranchRef => match hash_spec(content) {
            Ok(h) => Ok(object_paths(seq![h])),
            Err(e) => Err(e),
        },
        FileRole::Log => Ok(object_paths(dedup(log_hashes(content)))),
        FileRole::Object => match object_spec(content) {
            Ok(o) => Ok(object_paths(o.1)),
            Err(e) => Err(e),
        },
        FileRole::Other => Ok(Seq::empty()),
    }
}

fn paths_of(hs: &Vec<String>) -> (r: Vec<String>)
    ensures
        views(r@) == object_paths(views(hs@)),
{
    let mut r: Vec<String> = Vec::new();
    let mut i: usize = 0;
    assert(views(hs@).subrange(0, 0) =~= Seq::<Seq<char>>::empty());
    while i < hs.len()
        invariant
            i <= hs@.len(),
            views(r@) == object_paths(views(hs@).subrange(0, i as int)),
        decreases hs@.len() - i,
    {
        let h = chars_of(hs[i].as_str());
        let ghost old_views = views(r@);
        proof {
            let s = views(hs@).subrange(0, i + 1);
            assert(s.drop_last() =~= views(hs@).subrange(0, i as int));
            assert(s.last() == h@);
        }
        if is_hash_chars(h.as_slice()) && !is_zero_hash(h.as_slice()) {
            let p = object_path_chars(h.as_slice());
            r.push(string_of(p.as_slice()));
            assert(views(r@) =~= old_views + seq![object_path(h@)]);
        } else {
            assert(views(r@) =~= old_views + Seq::<Seq<char>>::empty());
        }
        i = i + 1;
    }
    assert(views(hs@).subrange(0, hs@.len() as int) =~= views(hs@));
    r
}

/// The paths to fetch next that a fetched file leads to: the branch that
/// `HEAD` names; the object that a branch ref holds; the objects of a
/// reflog; the tree and parents of a commit and the entries of a tree.
/// Object names that are malformed or all zero lead nowhere.
pub fn derive_candidates(path: &str, content: &[u8]) -> (r: Result<Vec<String>, FormatError>)
    ensures
        match r {
            Ok(v) => candidates_of(path@, content@) == Ok::<Seq<Seq<char>>, FormatError>(
                views(v@),
            ),
            Err(e) => candidates_of(path@, content@) == Err::<Seq<Seq<char>>, FormatError>(e),
        },
{
    match file_role(path) {
        FileRole::Head => match parse_head(content) {
            Ok(t) => {
                let r = vec![t];
                assert(views(r@) =~= seq![r@[0]@]);
                Ok(r)
            },
            Err(e) => Err(e),
        },
        FileRole::BranchRef => match parse_hash(content) {
            Ok(h) => {
                let hs = vec![h];
                assert(views(hs@) =~= seq![hs@[0]@]);
                Ok(paths_of(&hs))
            },
            Err(e) => Err(e),
        },
        FileRole::Log => match parse_log(content) {
            Ok(hs) => Ok(paths_of(&hs)),
            Err(e) => Err(e),
        },
        FileRole::Object => match parse_object(content) {
            Ok(GitObject::Blob) => {
                let r: Vec<String> = Vec::new();
                assert(views(r@) =~= object_paths(Seq::empty()));
                Ok(r)
            },
            Ok(GitObject::Tree(hs)) => Ok(paths_of(&hs)),
            Ok(GitObject::Commit(hs)) => Ok(paths_of(&hs)),
            Err(e) => Err(e),
        },
        FileRole::Other => {
            let r: Vec<String> = Vec::new();
            assert(views(r@) =~= Seq::<Seq<char>>::empty());
            Ok(r)
        },
    }
}

} // verus!
