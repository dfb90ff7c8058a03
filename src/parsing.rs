//! Parsers for the files of a `.git` directory: `HEAD`, a branch ref, a
//! reflog and a loose object. Each is a pure function of the file's bytes.

use vstd::prelude::*;
use vstd::hash_set::StringHashSet;
use vstd::utf8::{decode_utf8, valid_utf8};
use crate::text::{
    chars_equal, chars_of, decode_lossy, decode_utf8_strict, find, find_byte, find_char, hex_digits,
    hex_of, is_blank, is_blank_chars, is_hash, is_hash_chars, is_ws, is_ws_char, is_zero_hash,
    lemma_find_bounds, lossy_utf8, prefix_matches, starts_with, string_of, sub_chars, trim_end,
    trim_end_len, zero_hash,
};

verus! {

/// Why a file's content could not be used.
#[derive(Debug, Clone, Copy, PartialEq, Eq, Structural)]
pub enum FormatError {
    /// The text is not well-formed UTF-8.
    InvalidEncoding,
    /// The text does not have the shape the file calls for.
    UnexpectedShape,
    /// A ref path holds a `..` segment.
    PathTraversal,
    /// The zlib stream could not be inflated.
    DecompressionFailure,
    /// The object header has no NUL terminator.
    MalformedObject,
    /// The object type is none of `blob`, `tree` and `commit`.
    UnrecognizedType,
}

/// The views of a sequence of strings.
pub open spec fn views(v: Seq<String>) -> Seq<Seq<char>> {
    v.map_values(|s: String| s@)
}

pub open spec fn char_views(v: Seq<Vec<char>>) -> Seq<Seq<char>> {
    v.map_values(|s: Vec<char>| s@)
}

fn strings_of(v: &Vec<Vec<char>>) -> (r: Vec<String>)
    ensures
        views(r@) == char_views(v@),
{
    let mut r: Vec<String> = Vec::new();
    let mut i: usize = 0;
    while i < v.len()
        invariant
            i <= v@.len(),
            r@.len() == i,
            forall|k: int| 0 <= k < i ==> (#[trigger] r@[k])@ == v@[k]@,
        decreases v@.len() - i,
    {
        let s = string_of(v[i].as_slice());
        r.push(s);
        i = i + 1;
    }
    assert(views(r@) =~= char_views(v@));
    r
}

// ---------------------------------------------------------------- HEAD

pub open spec fn ref_prefix() -> Seq<char> {
    seq!['r', 'e', 'f', ':', ' ']
}

pub open spec fn heads_prefix() -> Seq<char> {
    seq!['r', 'e', 'f', 's', '/', 'h', 'e', 'a', 'd', 's', '/']
}

/// `refs/heads/` followed by a non-empty name without whitespace.
pub open spec fn is_branch_ref(t: Seq<char>) -> bool {
    &&& starts_with(t, heads_prefix())
    &&& t.len() > heads_prefix().len()
    &&& forall|i: int| heads_prefix().len() <= i < t.len() ==> !is_ws(#[trigger] t[i])
}

pub open spec fn is_sep(c: char) -> bool {
    c == '/' || c == '\\'
}

/// A `..` segment starts at index `i`, segments being split on `/` and `\`.
pub open spec fn parent_segment_at(t: Seq<char>, i: int) -> bool {
    &&& 0 <= i
    &&& i + 2 <= t.len()
    &&& t[i] == '.'
    &&& t[i + 1] == '.'
    &&& (i == 0 || is_sep(t[i - 1]))
    &&& (i + 2 == t.len() || is_sep(t[i + 2]))
}

pub open spec fn has_parent_segment(t: Seq<char>) -> bool {
    exists|i: int| parent_segment_at(t, i)
}

/// What the text of a `HEAD` file points to.
pub open spec fn head_target(cs: Seq<char>) -> Result<Seq<char>, FormatError> {
    if !starts_with(cs, ref_prefix()) {
        Err(FormatError::UnexpectedShape)
    } else {
        let t = trim_end(cs.subrange(5, cs.len() as int));
        if !is_branch_ref(t) {
            Err(FormatError::UnexpectedShape)
        } else if has_parent_segment(t) {
            Err(FormatError::PathTraversal)
        } else {
            Ok(t)
        }
    }
}

/// What a `HEAD` file's bytes point to.
pub open spec fn head_spec(b: Seq<u8>) -> Result<Seq<char>, FormatError> {
    if !valid_utf8(b) {
        Err(FormatError::InvalidEncoding)
    } else {
        head_target(decode_utf8(b))
    }
}

fn has_parent_segment_chars(t: &[char]) -> (r: bool)
    ensures
        r == has_parent_segment(t@),
{
    let n = t.len();
    if n < 2 {
        return false;
    }
    let mut i: usize = 0;
    while i < n - 1
        invariant
            n == t@.len(),
            n >= 2,
            i <= n - 1,
            forall|k: int| 0 <= k < i ==> !parent_segment_at(t@, k),
        decreases n - i,
    {
        if t[i] == '.' && t[i + 1] == '.' && (i == 0 || t[i - 1] == '/' || t[i - 1] == '\\') && (
        i + 2 == n || t[i + 2] == '/' || t[i + 2] == '\\') {
            assert(parent_segment_at(t@, i as int));
            return true;
        }
        i = i + 1;
    }
    assert forall|k: int| !parent_segment_at(t@, k) by {
        if 0 <= k && k < i {
        }
    }
    false
}

fn head_target_chars(cs: &[char]) -> (r: Result<Vec<char>, FormatError>)
    ensures
        match r {
            Ok(t) => head_target(cs@) == Ok::<Seq<char>, FormatError>(t@),
            Err(e) => head_target(cs@) == Err::<Seq<char>, FormatError>(e),
        },
{
    let prefix: Vec<char> = vec!['r', 'e', 'f', ':', ' '];
    assert(prefix@ =~= ref_prefix());
    if !prefix_matches(cs, prefix.as_slice()) {
        return Err(FormatError::UnexpectedShape);
    }
    let rest = sub_chars(cs, 5, cs.len());
    let n = trim_end_len(rest.as_slice());
    let t = sub_chars(rest.as_slice(), 0, n);
    let heads: Vec<char> = vec!['r', 'e', 'f', 's', '/', 'h', 'e', 'a', 'd', 's', '/'];
    assert(heads@ =~= heads_prefix());
    if !prefix_matches(t.as_slice(), heads.as_slice()) || t.len() <= 11 {
        return Err(FormatError::UnexpectedShape);
    }
    let mut i: usize = 11;
    while i < t.len()
        invariant
            11 <= i <= t@.len(),
            starts_with(cs@, ref_prefix()),
            starts_with(t@, heads_prefix()),
            t@ == trim_end(cs@.subrange(5, cs@.len() as int)),
            forall|k: int| 11 <= k < i ==> !is_ws(#[trigger] t@[k]),
        decreases t@.len() - i,
    {
        if is_ws_char(t[i]) {
            assert(is_ws(t@[i as int]));
            assert(heads_prefix().len() == 11);
            assert(!is_branch_ref(t@));
            return Err(FormatError::UnexpectedShape);
        }
        i = i + 1;
    }
    if has_parent_segment_chars(t.as_slice()) {
        return Err(FormatError::PathTraversal);
    }
    Ok(t)
}

/// Reads the branch that a `HEAD` file names: `ref: refs/heads/<name>`,
/// trailing whitespace ignored, `<name>` non-empty and free of whitespace.
/// A path with a `..` segment is refused, as it would reach outside the
/// mirrored directory.
pub fn parse_head(data: &[u8]) -> (r: Result<String, FormatError>)
    ensures
        match r {
            Ok(s) => head_spec(data@) == Ok::<Seq<char>, FormatError>(s@),
            Err(e) => head_spec(data@) == Err::<Seq<char>, FormatError>(e),
        },
{
    match decode_utf8_strict(data) {
        None => Err(FormatError::InvalidEncoding),
        Some(cs) => match head_target_chars(cs.as_slice()) {
            Ok(t) => Ok(string_of(t.as_slice())),
            Err(e) => Err(e),
        },
    }
}

// ---------------------------------------------------------------- refs

/// What the bytes of a branch ref hold: an object name, trailing
/// whitespace ignored.
pub open spec fn hash_spec(b: Seq<u8>) -> Result<Seq<char>, FormatError> {
    if !valid_utf8(b) {
        Err(FormatError::InvalidEncoding)
    } else if is_hash(trim_end(decode_utf8(b))) {
        Ok(trim_end(decode_utf8(b)))
    } else {
        Err(FormatError::UnexpectedShape)
    }
}

fn parse_hash_chars(data: &[u8]) -> (r: Result<Vec<char>, FormatError>)
    ensures
        match r {
            Ok(t) => hash_spec(data@) == Ok::<Seq<char>, FormatError>(t@),
            Err(e) => hash_spec(data@) == Err::<Seq<char>, FormatError>(e),
        },
{
    match decode_utf8_strict(data) {
        None => Err(FormatError::InvalidEncoding),
        Some(cs) => {
            let n = trim_end_len(cs.as_slice());
            let t = sub_chars(cs.as_slice(), 0, n);
            if is_hash_chars(t.as_slice()) {
                Ok(t)
            } else {
                Err(FormatError::UnexpectedShape)
            }
        },
    }
}

/// Reads the object name that a branch ref (or `ORIG_HEAD`) holds: exactly
/// 40 lowercase hex digits, trailing whitespace ignored.
pub fn parse_hash(data: &[u8]) -> (r: Result<String, FormatError>)
    ensures
        match r {
            Ok(s) => hash_spec(data@) == Ok::<Seq<char>, FormatError>(s@),
            Err(e) => hash_spec(data@) == Err::<Seq<char>, FormatError>(e),
        },
{
    match parse_hash_chars(data) {
        Ok(t) => Ok(string_of(t.as_slice())),
        Err(e) => Err(e),
    }
}

// ---------------------------------------------------------------- lines

/// Where the line that starts at `pos` ends, before its `\n` and before a
/// `\r` that precedes that `\n` (as `str::lines` splits).
pub open spec fn content_end(s: Seq<char>, pos: int) -> int {
    let e = find(s, '\n', pos);
    if e < s.len() && e > pos && s[e - 1] == '\r' {
        e - 1
    } else {
        e
    }
}

/// The line that starts at `pos`, without its line ending.
pub open spec fn line_at(s: Seq<char>, pos: int) -> Seq<char> {
    s.subrange(pos, content_end(s, pos))
}

/// Where the line after the one at `pos` starts; the length of `s` where
/// there is none.
pub open spec fn next_line(s: Seq<char>, pos: int) -> int {
    let e = find(s, '\n', pos);
    if e < s.len() {
        e + 1
    } else {
        s.len() as int
    }
}

proof fn lemma_next_line(s: Seq<char>, pos: int)
    requires
        0 <= pos < s.len(),
    ensures
        pos < next_line(s, pos) <= s.len(),
        pos <= content_end(s, pos) <= s.len(),
{
    lemma_find_bounds(s, '\n', pos);
}

/// Finds the line that starts at `pos`: where its content ends, and where the
/// next line starts.
fn line_bounds(s: &[char], pos: usize) -> (r: (usize, usize))
    requires
        pos < s@.len(),
    ensures
        r.0 == content_end(s@, pos as int),
        r.1 == next_line(s@, pos as int),
        pos <= r.0 <= s@.len(),
        pos < r.1 <= s@.len(),
{
    proof {
        lemma_next_line(s@, pos as int);
    }
    let e = find_char(s, '\n', pos);
    let ce = if e < s.len() && e > pos && s[e - 1] == '\r' {
        e - 1
    } else {
        e
    };
    let next = if e < s.len() {
        e + 1
    } else {
        s.len()
    };
    (ce, next)
}

// ---------------------------------------------------------------- reflogs

/// `h` as a lead, unless it is no object name or the all-zero one.
pub open spec fn lead(h: Seq<char>) -> Seq<Seq<char>> {
    if is_hash(h) && h != zero_hash() {
        seq![h]
    } else {
        Seq::empty()
    }
}

/// The leads of one reflog line: its first two space-delimited fields.
pub open spec fn log_line_hashes(line: Seq<char>) -> Seq<Seq<char>> {
    let j1 = find(line, ' ', 0);
    if j1 >= line.len() {
        Seq::empty()
    } else {
        let rest = line.subrange(j1 + 1, line.len() as int);
        let j2 = find(rest, ' ', 0);
        let h2 = if j2 < rest.len() {
            rest.subrange(0, j2)
        } else {
            Seq::empty()
        };
        lead(line.subrange(0, j1)) + lead(h2)
    }
}

/// The leads of the reflog lines from `pos` on, in order, repeats kept.
pub open spec fn log_from(s: Seq<char>, pos: int) -> Seq<Seq<char>>
    decreases s.len() - pos,
    via log_from_decreases
{
    if pos < 0 || pos >= s.len() {
        Seq::empty()
    } else {
        log_line_hashes(line_at(s, pos)) + log_from(s, next_line(s, pos))
    }
}

#[via_fn]
proof fn log_from_decreases(s: Seq<char>, pos: int) {
    if 0 <= pos < s.len() {
        lemma_next_line(s, pos);
    }
}

/// Each byte as the character of the same code.
pub open spec fn byte_chars(b: Seq<u8>) -> Seq<char> {
    b.map_values(|x: u8| x as char)
}

/// The leads of a reflog, in order, repeats kept.
pub open spec fn log_hashes(b: Seq<u8>) -> Seq<Seq<char>> {
    log_from(byte_chars(b), 0)
}

fn byte_chars_of(b: &[u8]) -> (r: Vec<char>)
    ensures
        r@ == byte_chars(b@),
{
    let mut r: Vec<char> = Vec::new();
    let mut i: usize = 0;
    while i < b.len()
        invariant
            i <= b@.len(),
            r@ == byte_chars(b@.subrange(0, i as int)),
        decreases b@.len() - i,
    {
        r.push(b[i] as char);
        i = i + 1;
        assert(r@ =~= byte_chars(b@.subrange(0, i as int)));
    }
    assert(b@.subrange(0, b@.len() as int) =~= b@);
    r
}

fn lead_of(h: Vec<char>, out: &mut Vec<Vec<char>>)
    ensures
        char_views(final(out)@) == char_views(old(out)@) + lead(h@),
{
    if is_hash_chars(h.as_slice()) && !is_zero_hash(h.as_slice()) {
        out.push(h);
        assert(char_views(final(out)@) =~= char_views(old(out)@) + lead(h@));
    } else {
        assert(char_views(final(out)@) =~= char_views(old(out)@) + lead(h@));
    }
}

fn log_line_leads(line: &[char]) -> (r: Vec<Vec<char>>)
    ensures
        char_views(r@) == log_line_hashes(line@),
{
    let mut r: Vec<Vec<char>> = Vec::new();
    let j1 = find_char(line, ' ', 0);
    if j1 >= line.len() {
        assert(char_views(r@) =~= Seq::<Seq<char>>::empty());
        return r;
    }
    proof {
        lemma_find_bounds(line@, ' ', 0);
    }
    let rest = sub_chars(line, j1 + 1, line.len());
    let j2 = find_char(rest.as_slice(), ' ', 0);
    proof {
        lemma_find_bounds(rest@, ' ', 0);
    }
    let h2 = if j2 < rest.len() {
        sub_chars(rest.as_slice(), 0, j2)
    } else {
        Vec::new()
    };
    assert(char_views(r@) =~= Seq::<Seq<char>>::empty());
    lead_of(sub_chars(line, 0, j1), &mut r);
    lead_of(h2, &mut r);
    assert(char_views(r@) =~= log_line_hashes(line@));
    r
}

/// `s` with each value kept at its first place only.
pub open spec fn dedup(s: Seq<Seq<char>>) -> Seq<Seq<char>>
    decreases s.len(),
{
    if s.len() == 0 {
        s
    } else {
        let d = dedup(s.drop_last());
        if d.contains(s.last()) {
            d
        } else {
            d.push(s.last())
        }
    }
}

/// What `dedup` keeps: each value of `s` once, and nothing else.
pub proof fn lemma_dedup(s: Seq<Seq<char>>)
    ensures
        dedup(s).no_duplicates(),
        forall|x: Seq<char>| dedup(s).contains(x) <==> s.contains(x),
    decreases s.len(),
{
    if s.len() > 0 {
        let p = s.drop_last();
        lemma_dedup(p);
        let d = dedup(p);
        assert forall|x: Seq<char>| dedup(s).contains(x) <==> s.contains(x) by {
            if p.contains(x) {
                let i = choose|i: int| 0 <= i < p.len() && p[i] == x;
                assert(s[i] == x);
            }
            if s.contains(x) {
                let i = choose|i: int| 0 <= i < s.len() && s[i] == x;
                if i < p.len() {
                    assert(p[i] == x);
                }
            }
            if !d.contains(s.last()) {
                let e = d.push(s.last());
                if d.contains(x) {
                    let i = choose|i: int| 0 <= i < d.len() && d[i] == x;
                    assert(e[i] == x);
                }
                if x == s.last() {
                    assert(e[d.len() as int] == x);
                }
                if e.contains(x) {
                    let i = choose|i: int| 0 <= i < e.len() && e[i] == x;
                    if i < d.len() {
                        assert(d[i] == x);
                    }
                }
            }
        }
    }
}

fn push_unique(out: &mut Vec<String>, seen: &mut StringHashSet, h: &[char])
    requires
        forall|x: Seq<char>| old(seen)@.contains(x) <==> views(old(out)@).contains(x),
    ensures
        forall|x: Seq<char>| final(seen)@.contains(x) <==> views(final(out)@).contains(x),
        views(final(out)@) == (if views(old(out)@).contains(h@) {
            views(old(out)@)
        } else {
            views(old(out)@).push(h@)
        }),
{
    let s = string_of(h);
    let key = s.clone();
    if seen.insert(key) {
        out.push(s);
        proof {
            let a = views(old(out)@);
            let b = views(out@);
            assert(b =~= a.push(h@));
            assert forall|x: Seq<char>| b.contains(x) <==> (a.contains(x) || x == h@) by {
                if a.contains(x) {
                    let i = choose|i: int| 0 <= i < a.len() && a[i] == x;
                    assert(b[i] == x);
                }
                if x == h@ {
                    assert(b[a.len() as int] == x);
                }
                if b.contains(x) {
                    let i = choose|i: int| 0 <= i < b.len() && b[i] == x;
                    if i < a.len() {
                        assert(a[i] == x);
                    }
                }
            }
        }
    }
}

/// Collects the object names that a reflog mentions: the first two
/// space-delimited fields of each line, where they are 40 lowercase hex
/// digits and not all zero. Lines of any other shape add nothing. Each name
/// comes once, in the order of its first mention.
pub fn parse_log(data: &[u8]) -> (r: Result<Vec<String>, FormatError>)
    ensures
        r matches Ok(v) && views(v@) == dedup(log_hashes(data@)),
{
    let s = byte_chars_of(data);
    let mut out: Vec<String> = Vec::new();
    let mut seen = StringHashSet::new();
    let ghost mut done: Seq<Seq<char>> = Seq::empty();
    let mut pos: usize = 0;
    assert(done + log_from(s@, 0) =~= log_from(s@, 0));
    assert(views(out@) =~= dedup(done));
    while pos < s.len()
        invariant
            pos <= s@.len(),
            s@ == byte_chars(data@),
            done + log_from(s@, pos as int) == log_from(s@, 0),
            views(out@) == dedup(done),
            forall|x: Seq<char>| seen@.contains(x) <==> views(out@).contains(x),
        decreases s@.len() - pos,
    {
        let (ce, next) = line_bounds(s.as_slice(), pos);
        let line = sub_chars(s.as_slice(), pos, ce);
        let hs = log_line_leads(line.as_slice());
        let ghost before = done;
        let mut k: usize = 0;
        assert(before + char_views(hs@).subrange(0, 0) =~= before);
        while k < hs.len()
            invariant
                k <= hs@.len(),
                views(out@) == dedup(before + char_views(hs@).subrange(0, k as int)),
                forall|x: Seq<char>| seen@.contains(x) <==> views(out@).contains(x),
            decreases hs@.len() - k,
        {
            push_unique(&mut out, &mut seen, hs[k].as_slice());
            proof {
                let a = before + char_views(hs@).subrange(0, k as int);
                let b = before + char_views(hs@).subrange(0, k + 1);
                assert(b.drop_last() =~= a);
                assert(b.last() == hs@[k as int]@);
            }
            k = k + 1;
        }
        proof {
            assert(char_views(hs@).subrange(0, hs@.len() as int) =~= char_views(hs@));
            done = before + char_views(hs@);
            assert(log_from(s@, pos as int) == log_line_hashes(line@) + log_from(s@, next as int));
            assert(done + log_from(s@, next as int) =~= before + log_from(s@, pos as int));
        }
        pos = next;
    }
    assert(done =~= log_from(s@, 0));
    Ok(out)
}

// ---------------------------------------------------------------- objects

fn hex_chars(data: &[u8]) -> (r: Vec<char>)
    ensures
        r@ == hex_of(data@),
{
    let digits: Vec<char> = vec![
        '0', '1', '2', '3', '4', '5', '6', '7', '8', '9', 'a', 'b', 'c', 'd', 'e', 'f',
    ];
    assert(digits@ =~= hex_digits());
    let mut r: Vec<char> = Vec::new();
    let mut i: usize = 0;
    assert(data@.subrange(0, 0) =~= Seq::<u8>::empty());
    while i < data.len()
        invariant
            i <= data@.len(),
            digits@ == hex_digits(),
            r@ == hex_of(data@.subrange(0, i as int)),
        decreases data@.len() - i,
    {
        let x = data[i];
        r.push(digits[(x / 16) as usize]);
        r.push(digits[(x % 16) as usize]);
        proof {
            let p = data@.subrange(0, i + 1);
            assert(p.drop_last() =~= data@.subrange(0, i as int));
            assert(p.last() == x);
        }
        i = i + 1;
        assert(r@ =~= hex_of(data@.subrange(0, i as int)));
    }
    assert(data@.subrange(0, data@.len() as int) =~= data@);
    r
}

/// Writes bytes as lowercase hex, two digits for each byte.
pub fn slice_to_hex(data: &[u8]) -> (r: String)
    ensures
        r@ == hex_of(data@),
{
    let h = hex_chars(data);
    string_of(h.as_slice())
}

/// The object names of the tree entries from `pos` on. Each entry is
/// `<mode> <name>\0` and then the name's 20 raw bytes; an entry cut short
/// gives the bytes that are there.
pub open spec fn tree_from(b: Seq<u8>, pos: int) -> Seq<Seq<char>>
    decreases b.len() - pos,
    via tree_from_decreases
{
    if pos < 0 || pos >= b.len() {
        Seq::empty()
    } else {
        let z = find(b, 0u8, pos);
        let start = if z < b.len() {
            z + 1
        } else {
            b.len() as int
        };
        let end = if start + 20 <= b.len() {
            start + 20
        } else {
            b.len() as int
        };
        seq![hex_of(b.subrange(start, end))] + tree_from(b, end)
    }
}

#[via_fn]
proof fn tree_from_decreases(b: Seq<u8>, pos: int) {
    if 0 <= pos < b.len() {
        lemma_find_bounds(b, 0u8, pos);
    }
}

/// The object names in a tree's body, in order.
pub open spec fn tree_hashes(body: Seq<u8>) -> Seq<Seq<char>> {
    tree_from(body, 0)
}

/// Lists the object names of a tree's body (what follows its header), in
/// the order of the entries.
pub fn parse_tree_body(body: &[u8]) -> (r: Vec<String>)
    ensures
        views(r@) == tree_hashes(body@),
{
    let mut out: Vec<Vec<char>> = Vec::new();
    let mut pos: usize = 0;
    assert(char_views(out@) + tree_from(body@, 0) =~= tree_from(body@, 0));
    while pos < body.len()
        invariant
            pos <= body@.len(),
            char_views(out@) + tree_from(body@, pos as int) == tree_from(body@, 0),
        decreases body@.len() - pos,
    {
        proof {
            lemma_find_bounds(body@, 0u8, pos as int);
        }
        let z = find_byte(body, 0u8, pos);
        let start = if z < body.len() {
            z + 1
        } else {
            body.len()
        };
        let end = if body.len() >= 20 && start <= body.len() - 20 {
            start + 20
        } else {
            body.len()
        };
        let raw = vstd::slice::slice_subrange(body, start, end);
        let h = hex_chars(raw);
        let ghost old_views = char_views(out@);
        out.push(h);
        assert(char_views(out@) =~= old_views.push(h@));
        assert(char_views(out@) + tree_from(body@, end as int) =~= old_views + tree_from(
            body@,
            pos as int,
        ));
        pos = end;
    }
    assert(char_views(out@) =~= tree_from(body@, 0));
    strings_of(&out)
}

pub open spec fn tree_word() -> Seq<char> {
    seq!['t', 'r', 'e', 'e']
}

pub open spec fn parent_word() -> Seq<char> {
    seq!['p', 'a', 'r', 'e', 'n', 't']
}

/// The object name that a commit header line gives: the rest of a line
/// whose first space-delimited word is `tree` or `parent`.
pub open spec fn header_hash(line: Seq<char>) -> Seq<Seq<char>> {
    let j = find(line, ' ', 0);
    if j < line.len() && (line.subrange(0, j) == tree_word() || line.subrange(0, j)
        == parent_word()) {
        seq![line.subrange(j + 1, line.len() as int)]
    } else {
        Seq::empty()
    }
}

/// The object names of the commit header lines from `pos` on, up to the
/// first blank line.
pub open spec fn commit_from(s: Seq<char>, pos: int) -> Seq<Seq<char>>
    decreases s.len() - pos,
    via commit_from_decreases
{
    if pos < 0 || pos >= s.len() {
        Seq::empty()
    } else if is_blank(line_at(s, pos)) {
        Seq::empty()
    } else {
        header_hash(line_at(s, pos)) + commit_from(s, next_line(s, pos))
    }
}

#[via_fn]
proof fn commit_from_decreases(s: Seq<char>, pos: int) {
    if 0 <= pos < s.len() {
        lemma_next_line(s, pos);
    }
}

/// The object names that a commit's text names in its headers: its tree
/// and its parents, in order. The message after the first blank line is
/// not read.
pub open spec fn commit_hashes(text: Seq<char>) -> Seq<Seq<char>> {
    commit_from(text, 0)
}

proof fn lemma_find_concat<T>(h: Seq<T>, t: Seq<T>, c: T, pos: int)
    requires
        0 <= pos <= h.len(),
        find(h, c, pos) < h.len(),
    ensures
        find(h + t, c, pos) == find(h, c, pos),
    decreases h.len() - pos,
{
    if h[pos] != c {
        lemma_find_concat(h, t, c, pos + 1);
    }
}

proof fn lemma_commit_prefix(h: Seq<char>, t: Seq<char>, pos: int)
    requires
        0 <= pos <= h.len(),
        h.len() == 0 || h.last() == '\n',
        commit_from(h + t, h.len() as int) == Seq::<Seq<char>>::empty(),
    ensures
        commit_from(h + t, pos) == commit_from(h, pos),
    decreases h.len() - pos,
{
    if pos < h.len() {
        lemma_find_bounds(h, '\n', pos);
        let e = find(h, '\n', pos);
        if e >= h.len() {
            assert(h[h.len() - 1] != '\n');
        }
        lemma_find_concat(h, t, '\n', pos);
        assert(line_at(h + t, pos) =~= line_at(h, pos));
        assert(next_line(h + t, pos) == next_line(h, pos));
        lemma_commit_prefix(h, t, e + 1);
    }
}

/// A commit's message never adds object names: whatever follows the blank
/// line after the headers, the names are those that the headers give.
pub proof fn lemma_message_ignored(headers: Seq<char>, message: Seq<char>)
    requires
        headers.len() == 0 || headers.last() == '\n',
    ensures
        commit_hashes(headers + seq!['\n'] + message) == commit_hashes(headers),
{
    let t = seq!['\n'] + message;
    let s = headers + t;
    assert(headers + seq!['\n'] + message =~= s);
    let n = headers.len() as int;
    assert(s[n] == '\n');
    assert(find(s, '\n', n) == n);
    assert(line_at(s, n) =~= Seq::<char>::empty());
    assert(commit_from(s, n) == Seq::<Seq<char>>::empty());
    lemma_commit_prefix(headers, t, 0);
}

fn header_hash_of(line: &[char], out: &mut Vec<Vec<char>>)
    ensures
        char_views(final(out)@) == char_views(old(out)@) + header_hash(line@),
{
    let j = find_char(line, ' ', 0);
    proof {
        lemma_find_bounds(line@, ' ', 0);
    }
    if j < line.len() {
        let key = sub_chars(line, 0, j);
        let tree: Vec<char> = vec!['t', 'r', 'e', 'e'];
        let parent: Vec<char> = vec!['p', 'a', 'r', 'e', 'n', 't'];
        assert(tree@ =~= tree_word());
        assert(parent@ =~= parent_word());
        if chars_equal(key.as_slice(), tree.as_slice()) || chars_equal(
            key.as_slice(),
            parent.as_slice(),
        ) {
            let h = sub_chars(line, j + 1, line.len());
            out.push(h);
        }
    }
    assert(char_views(final(out)@) =~= char_views(old(out)@) + header_hash(line@));
}

fn commit_leads(s: &[char]) -> (r: Vec<Vec<char>>)
    ensures
        char_views(r@) == commit_hashes(s@),
{
    let mut out: Vec<Vec<char>> = Vec::new();
    let mut pos: usize = 0;
    assert(char_views(out@) + commit_from(s@, 0) =~= commit_from(s@, 0));
    while pos < s.len()
        invariant
            pos <= s@.len(),
            char_views(out@) + commit_from(s@, pos as int) == commit_from(s@, 0),
        decreases s@.len() - pos,
    {
        let (ce, next) = line_bounds(s, pos);
        if is_blank_chars(s, pos, ce) {
            assert(char_views(out@) =~= commit_from(s@, 0));
            return out;
        }
        let line = sub_chars(s, pos, ce);
        let ghost old_views = char_views(out@);
        header_hash_of(line.as_slice(), &mut out);
        assert(char_views(out@) + commit_from(s@, next as int) =~= old_views + commit_from(
            s@,
            pos as int,
        ));
        pos = next;
    }
    assert(char_views(out@) =~= commit_from(s@, 0));
    out
}

/// Lists the object names that a commit's text gives in its `tree` and
/// `parent` header lines, in order, each the rest of its line as it stands.
/// Reading stops at the first blank line, so the message is never read.
pub fn parse_commit_text(text: &str) -> (r: Vec<String>)
    ensures
        views(r@) == commit_hashes(text@),
{
    let cs = chars_of(text);
    let hs = commit_leads(cs.as_slice());
    strings_of(&hs)
}

/// What a decompressed object's header says it is.
#[derive(Debug, Clone, Copy, PartialEq, Eq, Structural)]
pub enum ObjectKind {
    Blob,
    Tree,
    Commit,
}

/// A loose object, with the object names it leads to.
#[derive(Debug)]
pub enum GitObject {
    /// The names of the tree's entries, in order, repeats kept.
    Tree(Vec<String>),
    /// The names of the commit's tree and parents, in header order.
    Commit(Vec<String>),
    Blob,
}

pub open spec fn object_view(o: GitObject) -> (ObjectKind, Seq<Seq<char>>) {
    match o {
        GitObject::Tree(v) => (ObjectKind::Tree, views(v@)),
        GitObject::Commit(v) => (ObjectKind::Commit, views(v@)),
        GitObject::Blob => (ObjectKind::Blob, Seq::empty()),
    }
}

/// The kind that the first decompressed bytes of an object name.
pub open spec fn kind_of_header(p: Seq<u8>) -> Option<ObjectKind> {
    if starts_with(p, seq![98u8, 108u8, 111u8, 98u8]) {
        Some(ObjectKind::Blob)
    } else if starts_with(p, seq![116u8, 114u8, 101u8, 101u8]) {
        Some(ObjectKind::Tree)
    } else if starts_with(p, seq![99u8, 111u8, 109u8, 109u8, 105u8, 116u8]) {
        Some(ObjectKind::Commit)
    } else {
        None
    }
}

fn bytes_start_with(s: &[u8], p: &[u8]) -> (r: bool)
    ensures
        r == starts_with(s@, p@),
{
    if p.len() > s.len() {
        return false;
    }
    let mut i: usize = 0;
    while i < p.len()
        invariant
            p@.len() <= s@.len(),
            i <= p@.len(),
            forall|k: int| 0 <= k < i ==> s@[k] == p@[k],
        decreases p@.len() - i,
    {
        if s[i] != p[i] {
            assert(s@.subrange(0, p@.len() as int)[i as int] != p@[i as int]);
            return false;
        }
        i = i + 1;
    }
    assert(s@.subrange(0, p@.len() as int) =~= p@);
    true
}

/// Tells the kind of an object from the first bytes of its decompressed
/// header: `blob`, `tree` or `commit`.
pub fn object_kind(peek: &[u8]) -> (r: Option<ObjectKind>)
    ensures
        r == kind_of_header(peek@),
{
    let blob: Vec<u8> = vec![98u8, 108u8, 111u8, 98u8];
    let tree: Vec<u8> = vec![116u8, 114u8, 101u8, 101u8];
    let commit: Vec<u8> = vec![99u8, 111u8, 109u8, 109u8, 105u8, 116u8];
    assert(blob@ =~= seq![98u8, 108u8, 111u8, 98u8]);
    assert(tree@ =~= seq![116u8, 114u8, 101u8, 101u8]);
    assert(commit@ =~= seq![99u8, 111u8, 109u8, 109u8, 105u8, 116u8]);
    if bytes_start_with(peek, blob.as_slice()) {
        Some(ObjectKind::Blob)
    } else if bytes_start_with(peek, tree.as_slice()) {
        Some(ObjectKind::Tree)
    } else if bytes_start_with(peek, commit.as_slice()) {
        Some(ObjectKind::Commit)
    } else {
        None
    }
}

/// The body of a decompressed object: what follows the NUL that ends its
/// header.
pub open spec fn body_of(d: Seq<u8>) -> Result<Seq<u8>, FormatError> {
    let z = find(d, 0u8, 0);
    if z < d.len() {
        Ok(d.subrange(z + 1, d.len() as int))
    } else {
        Err(FormatError::MalformedObject)
    }
}

/// Splits a decompressed object after the NUL that ends its header and
/// returns the body.
pub fn split_object_at_zero(data: &[u8]) -> (r: Result<&[u8], FormatError>)
    ensures
        match r {
            Ok(b) => body_of(data@) == Ok::<Seq<u8>, FormatError>(b@),
            Err(e) => body_of(data@) == Err::<Seq<u8>, FormatError>(e),
        },
{
    let z = find_byte(data, 0u8, 0);
    proof {
        lemma_find_bounds(data@, 0u8, 0);
    }
    if z < data.len() {
        Ok(vstd::slice::slice_subrange(data, z + 1, data.len()))
    } else {
        Err(FormatError::MalformedObject)
    }
}

/// The first six bytes that inflating a zlib stream gives, or nothing where
/// the stream cannot be read that far.
pub uninterp spec fn zlib_peek(data: Seq<u8>) -> Option<Seq<u8>>;

/// All that inflating a zlib stream gives, or nothing where it fails.
pub uninterp spec fn zlib_inflate(data: Seq<u8>) -> Option<Seq<u8>>;

/// Relies on `miniz_oxide::inflate::decompress_slice_iter_to_slice`: it
/// inflates into a six-byte buffer and stops when the buffer is full
/// (`HasMoreOutput`) or the stream ends.
#[verifier::external_body]
fn peek_object_type(data: &[u8]) -> (r: Option<Vec<u8>>)
    ensures
        match r {
            Some(p) => zlib_peek(data@) == Some(p@),
            None => zlib_peek(data@) is None,
        },
{
    let mut array = [0u8; 6];
    let status = miniz_oxide::inflate::decompress_slice_iter_to_slice(
        &mut array,
        data.chunks(16),
        true,
        true,
    );
    match status {
        Ok(_) => Some(array.to_vec()),
        Err(miniz_oxide::inflate::TINFLStatus::HasMoreOutput) => Some(array.to_vec()),
        Err(_) => None,
    }
}

/// Relies on `miniz_oxide::inflate::decompress_to_vec_zlib`: the whole
/// stream inflated, or an error.
#[verifier::external_body]
fn inflate(data: &[u8]) -> (r: Option<Vec<u8>>)
    ensures
        match r {
            Some(v) => zlib_inflate(data@) == Some(v@),
            None => zlib_inflate(data@) is None,
        },
{
    match miniz_oxide::inflate::decompress_to_vec_zlib(data) {
        Ok(v) => Some(v),
        Err(_) => None,
    }
}

/// What a loose object's bytes hold: its kind and the names it leads to.
pub open spec fn object_spec(data: Seq<u8>) -> Result<(ObjectKind, Seq<Seq<char>>), FormatError> {
    match zlib_peek(data) {
        None => Err(FormatError::DecompressionFailure),
        Some(p) => match kind_of_header(p) {
            None => Err(FormatError::UnrecognizedType),
            Some(ObjectKind::Blob) => Ok((ObjectKind::Blob, Seq::empty())),
            Some(k) => match zlib_inflate(data) {
                None => Err(FormatError::DecompressionFailure),
                Some(d) => match body_of(d) {
                    Err(e) => Err(e),
                    Ok(body) => if k == ObjectKind::Tree {
                        Ok((k, tree_hashes(body)))
                    } else {
                        Ok((k, commit_hashes(lossy_utf8(body))))
                    },
                },
            },
        },
    }
}

/// Reads a loose object (a zlib stream). Only its first bytes are inflated
/// to learn its kind, so a blob is never inflated whole; a tree or a commit
/// is then inflated and its body read for object names.
pub fn parse_object(data: &[u8]) -> (r: Result<GitObject, FormatError>)
    ensures
        match r {
            Ok(o) => object_spec(data@) == Ok::<(ObjectKind, Seq<Seq<char>>), FormatError>(
                object_view(o),
            ),
            Err(e) => object_spec(data@) == Err::<(ObjectKind, Seq<Seq<char>>), FormatError>(e),
        },
{
    let peek = match peek_object_type(data) {
        Some(p) => p,
        None => return Err(FormatError::DecompressionFailure),
    };
    let kind = match object_kind(peek.as_slice()) {
        Some(k) => k,
        None => return Err(FormatError::UnrecognizedType),
    };
    if kind == ObjectKind::Blob {
        return Ok(GitObject::Blob);
    }
    let decompressed = match inflate(data) {
        Some(d) => d,
        None => return Err(FormatError::DecompressionFailure),
    };
    let body = match split_object_at_zero(decompressed.as_slice()) {
        Ok(b) => b,
        Err(e) => return Err(e),
    };
    if kind == ObjectKind::Tree {
        Ok(GitObject::Tree(parse_tree_body(body)))
    } else {
        let text = decode_lossy(body);
        let hs = commit_leads(text.as_slice());
        Ok(GitObject::Commit(strings_of(&hs)))
    }
}

} // verus!
