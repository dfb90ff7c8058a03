use git_dumper::crawl::{seed_paths, Crawler, FetchOutcome, Frontier};
use git_dumper::paths::{derive_candidates, file_role, hash_to_url, FileRole};
use git_dumper::parsing::FormatError;
use miniz_oxide::deflate::compress_to_vec_zlib;
use std::collections::HashMap;

fn object(kind: &str, body: &[u8]) -> Vec<u8> {
    let mut payload = format!("{} {}\0", kind, body.len()).into_bytes();
    payload.extend_from_slice(body);
    compress_to_vec_zlib(&payload, 6)
}

fn raw(hex: &str) -> Vec<u8> {
    (0..hex.len() / 2)
        .map(|i| u8::from_str_radix(&hex[2 * i..2 * i + 2], 16).unwrap())
        .collect()
}

/// Runs a whole crawl against a fixed map of files; every other path is
/// not found. Returns the paths fetched, in order, and those stored.
fn run(files: &HashMap<String, Vec<u8>>, limit: usize) -> (Vec<String>, Vec<String>) {
    let mut crawler = Crawler::new(limit);
    let mut fetched = Vec::new();
    let mut stored = Vec::new();
    while !crawler.is_done() {
        let mut started = Vec::new();
        while let Some(path) = crawler.next_fetch() {
            started.push(path);
        }
        assert!(crawler.in_flight() <= limit);
        for path in started {
            fetched.push(path.clone());
            let outcome = match files.get(&path) {
                Some(bytes) => {
                    stored.push(path.clone());
                    FetchOutcome::Success(bytes.clone())
                }
                None => FetchOutcome::NotFound,
            };
            let _ = crawler.complete(&path, &outcome);
        }
    }
    (fetched, stored)
}

#[test]
fn object_path_of_hash() {
    assert_eq!(
        hash_to_url("af3d9c0123456789abcdef0123456789abcdef01"),
        "objects/af/3d9c0123456789abcdef0123456789abcdef01"
    );
}

#[test]
fn roles_by_path() {
    assert_eq!(file_role("HEAD"), FileRole::Head);
    assert_eq!(file_role("refs/remotes/origin/HEAD"), FileRole::Head);
    assert_eq!(file_role("refs/heads/main"), FileRole::BranchRef);
    assert_eq!(file_role("ORIG_HEAD"), FileRole::BranchRef);
    assert_eq!(file_role("logs/HEAD"), FileRole::Log);
    assert_eq!(file_role("objects/af/3d9c0123456789abcdef0123456789abcdef01"), FileRole::Object);
    assert_eq!(file_role("objects/info/packs"), FileRole::Other);
    assert_eq!(file_role("objects/af/3d9c0123456789abcdef0123456789abcdef01x"), FileRole::Other);
    assert_eq!(file_role("config"), FileRole::Other);
}

#[test]
fn candidates_from_files() {
    assert_eq!(
        derive_candidates("HEAD", b"ref: refs/heads/main\n"),
        Ok(vec!["refs/heads/main".to_string()])
    );
    let h = "0123456789abcdef0123456789abcdef01234567";
    assert_eq!(
        derive_candidates("refs/heads/main", format!("{h}\n").as_bytes()),
        Ok(vec![format!("objects/01/{}", &h[2..])])
    );
    assert_eq!(derive_candidates("ORIG_HEAD", "0".repeat(40).as_bytes()), Ok(vec![]));
    assert_eq!(derive_candidates("config", b"[core]\n"), Ok(vec![]));
    assert_eq!(derive_candidates("HEAD", b"garbage"), Err(FormatError::UnexpectedShape));
    let commit = object("commit", format!("tree {h}\nparent not-a-hash\n\nmsg\n").as_bytes());
    assert_eq!(
        derive_candidates("objects/aa/bbbbbbbbbbbbbbbbbbbbbbbbbbbbbbbbbbbbbb", &commit),
        Ok(vec![format!("objects/01/{}", &h[2..])])
    );
}

#[test]
fn claim_same_path_twice() {
    let mut frontier = Frontier::new();
    assert!(frontier.try_claim("objects/aa/bb"));
    assert!(!frontier.try_claim("objects/aa/bb"));
    assert!(frontier.contains("objects/aa/bb"));
}

#[test]
fn seeds_start_the_crawl() {
    let seeds = seed_paths();
    assert_eq!(seeds.len(), 12);
    let mut crawler = Crawler::new(100);
    assert_eq!(crawler.pending_count(), 12);
    for s in &seeds {
        assert!(crawler.is_claimed(s));
    }
    let mut out = Vec::new();
    while let Some(p) = crawler.next_fetch() {
        out.push(p);
    }
    assert_eq!(out, seeds);
}

#[test]
fn end_to_end_with_head_and_branch() {
    let h = "0123456789abcdef0123456789abcdef01234567";
    let mut files = HashMap::new();
    files.insert("HEAD".to_string(), b"ref: refs/heads/main\n".to_vec());
    files.insert("refs/heads/main".to_string(), format!("{h}\n").into_bytes());
    let (fetched, stored) = run(&files, 8);
    let mut expected: Vec<String> = seed_paths();
    expected.push("refs/heads/main".to_string());
    expected.push(format!("objects/01/{}", &h[2..]));
    let mut got = fetched.clone();
    got.sort();
    expected.sort();
    assert_eq!(got, expected);
    let mut stored = stored;
    stored.sort();
    assert_eq!(stored, vec!["HEAD".to_string(), "refs/heads/main".to_string()]);
}

#[test]
fn shared_object_fetched_once() {
    let blob = "1111111111111111111111111111111111111111";
    let tree = "2222222222222222222222222222222222222222";
    let parent = "3333333333333333333333333333333333333333";
    let commit = "4444444444444444444444444444444444444444";
    let path = |h: &str| format!("objects/{}/{}", &h[..2], &h[2..]);
    let mut tree_body = b"100644 f\0".to_vec();
    tree_body.extend_from_slice(&raw(blob));
    let mut files = HashMap::new();
    files.insert("ORIG_HEAD".to_string(), format!("{commit}\n").into_bytes());
    files.insert(
        path(commit),
        object("commit", format!("tree {tree}\nparent {parent}\n\nm\n").as_bytes()),
    );
    files.insert(path(tree), object("tree", &tree_body));
    // the parent names the blob as its tree
    files.insert(
        path(parent),
        object("commit", format!("tree {blob}\n\nm\n").as_bytes()),
    );
    files.insert(path(blob), object("blob", b"x"));
    let (fetched, _) = run(&files, 2);
    assert_eq!(fetched.iter().filter(|p| **p == path(blob)).count(), 1);
    assert_eq!(fetched.len(), 12 + 4);
}

#[test]
fn fetches_never_exceed_limit() {
    for limit in [1usize, 3, 8, 20] {
        let mut crawler = Crawler::new(limit);
        let mut running = 0usize;
        while crawler.next_fetch().is_some() {
            running += 1;
            assert!(running <= limit);
        }
        assert_eq!(running, limit.min(12));
        assert_eq!(crawler.in_flight(), running);
        assert_eq!(crawler.max_tasks(), limit);
        assert!(!crawler.is_done() || running == 0);
    }
}

#[test]
fn failed_fetch_leads_nowhere() {
    let mut crawler = Crawler::new(1);
    let p = crawler.next_fetch().unwrap();
    assert!(crawler.next_fetch().is_none());
    let r = crawler.complete(&p, &FetchOutcome::TransportFailure("reset".to_string()));
    assert_eq!(r, Ok(vec![]));
    assert_eq!(crawler.in_flight(), 0);
    assert_eq!(crawler.pending_count(), 11);
}
