//! Rolled query logs: when to roll, what archives are called, which to drop and
//! how to read entries back.
use crate::deep::{
    contains, deep_chars, lemma_contains_concat, lemma_deep_push, lemma_filter, Dup, Same,
};
use crate::discovery::ascii_alphanumeric;
use crate::json::{json_parsed, parse, Json, JsonV};
use crate::order::{
    law_sorted_in_order, law_sorted_is_permutation, lemma_lex_total, lemma_permutation_contains,
    lemma_permutation_distinct, lemma_text_order, lex_before, sorted, stable_sort, Ranked,
};
use crate::text::{
    after_last, chars_of, decimal, ends_with, is_digit, law_after_last, lemma_decimal_digits,
    lemma_decimal_injective, lines, push_decimal, split, split_lines, starts_with, str_eq,
    string_of, tail_after_last, text_strict, Class,
};
use vstd::prelude::*;
use vstd::string::*;
use vstd::utf8::{
    decode_utf8, encode_utf8, encode_utf8_decode_utf8, encode_utf8_valid_utf8, valid_utf8,
};

verus! {

broadcast use deep_chars;

/// Size-based rolling of a query log. When the live file would grow past
/// `max_bytes` it becomes an archive next to it, and the oldest archives beyond
/// `keep` are deleted. Entries are never cut by rolling.
#[derive(Debug, Clone, Copy)]
pub struct Rotation {
    /// Roll when the live file would exceed this size. 0 = never roll.
    pub max_bytes: u64,
    /// Archives kept after rolling. 0 = keep all.
    pub keep: usize,
    /// Gzip archives.
    pub compress: bool,
}

/// Whether a live file of `size` bytes is rolled before a line of `len` bytes.
pub open spec fn rolls(r: Rotation, size: nat, len: nat) -> bool {
    r.max_bytes > 0 && size > 0 && size + len > r.max_bytes
}

impl Rotation {
    /// Whether to roll before a line of `len` bytes goes to a live file of `size`
    /// bytes. An empty file is never rolled.
    pub fn must_roll(&self, size: u64, len: usize) -> (r: bool)
        ensures
            r == (self.max_bytes > 0 && size > 0 && size + len > self.max_bytes),
            r == rolls(*self, size as nat, len as nat),
    {
        if self.max_bytes == 0 || size == 0 {
            return false;
        }
        size > self.max_bytes || len as u64 > self.max_bytes - size
    }
}

/// Naming scheme of the archives of a live file:
/// `{dir}/{stem}.{timestamp}{.ext}{.gz}`.
#[derive(Debug)]
pub struct ArchiveName {
    pub dir: String,
    pub live_name: String,
    pub stem: String,
    /// `.jsonl` (with the dot), or empty when the live file has no extension.
    pub ext: String,
}

/// What an [`ArchiveName`] stands for.
pub struct ArchiveV {
    pub dir: Seq<char>,
    pub live_name: Seq<char>,
    pub stem: Seq<char>,
    pub ext: Seq<char>,
}

impl View for ArchiveName {
    type V = ArchiveV;

    open spec fn view(&self) -> ArchiveV {
        ArchiveV {
            dir: self.dir@,
            live_name: self.live_name@,
            stem: self.stem@,
            ext: self.ext@,
        }
    }
}

/// A file name without its extension, and the extension: what follows the last
/// dot, unless that dot is the first character.
pub open spec fn name_parts(name: Seq<char>) -> (Seq<char>, Option<Seq<char>>) {
    match after_last(name, '.') {
        Some(t) if t.len() + 1 < name.len() => (name.take(name.len() - t.len() - 1), Some(t)),
        _ => (name, None),
    }
}

/// The naming scheme for a live file in a directory.
pub open spec fn named_after(dir: Option<Seq<char>>, name: Option<Seq<char>>) -> ArchiveV {
    let live_name = match name {
        Some(n) => n,
        None => Seq::empty(),
    };
    let (stem, ext) = name_parts(live_name);
    ArchiveV {
        dir: match dir {
            Some(d) if d.len() > 0 => d,
            _ => "."@,
        },
        live_name,
        stem,
        ext: match ext {
            Some(e) if e.len() > 0 => "."@ + e,
            _ => Seq::empty(),
        },
    }
}

/// A file name without its extension, and the extension.
fn split_name(name: &str) -> (r: (String, Option<String>))
    ensures
        (r.0@, r.1.deep_view()) == name_parts(name@),
{
    let v = chars_of(name);
    let n: usize = v.len();
    match tail_after_last(v.as_slice(), '.') {
        Some(t) => if t.len() < n && t.len() + 1 < n {
            let stem = vstd::slice::slice_subrange(v.as_slice(), 0, n - t.len() - 1);
            (string_of(stem), Some(string_of(t)))
        } else {
            (name.to_owned(), None)
        },
        None => (name.to_owned(), None),
    }
}

/// What follows the last slash of a path; all of it if there is none.
pub open spec fn last_segment(path: Seq<char>) -> Seq<char> {
    match after_last(path, '/') {
        Some(t) => t,
        None => path,
    }
}

/// Whether a text is an ordinary file name: letters, digits, hyphens, underscores
/// and dots, and not just one or two dots.
pub open spec fn is_ordinary(name: Seq<char>) -> bool {
    &&& name.len() > 0
    &&& name != seq!['.']
    &&& name != seq!['.', '.']
    &&& forall|i: int|
        0 <= i < name.len() ==> ascii_alphanumeric(#[trigger] name[i]) || name[i] == '-' || name[i]
            == '_' || name[i] == '.'
}

/// Whether a path is made of ordinary names with one slash between them, and maybe
/// one before them. Such a path has the same components on every platform.
pub open spec fn is_ordinary_path(path: Seq<char>) -> bool {
    let segments = split(path, Class::Only('/'));
    &&& is_ordinary(segments.last())
    &&& forall|i: int|
        0 <= i < segments.len() ==> is_ordinary(#[trigger] segments[i]) || (i == 0
            && segments[i].len() == 0)
}

/// A path without its last segment: what stands before the last slash, or that
/// slash where nothing does; nothing without a slash.
pub open spec fn parent_path(path: Seq<char>) -> Seq<char> {
    match after_last(path, '/') {
        Some(t) if t.len() + 1 < path.len() => path.take(path.len() - t.len() - 1),
        Some(_) => seq!['/'],
        None => Seq::empty(),
    }
}

/// Calls `Path::parent`, which gives the path without its final component. What
/// counts as a component depends on the platform, so nothing is stated of paths
/// that are not ordinary.
#[verifier::external_body]
fn path_parent(path: &str) -> (r: Option<String>)
    ensures
        is_ordinary_path(path@) ==> r.deep_view() == Some(parent_path(path@)),
{
    std::path::Path::new(path).parent().map(|d| d.to_string_lossy().into_owned())
}

/// Calls `Path::file_name`, which gives the final component. What counts as a
/// component depends on the platform, so nothing is stated of paths that are not
/// ordinary.
#[verifier::external_body]
fn path_file_name(path: &str) -> (r: Option<String>)
    ensures
        is_ordinary_path(path@) ==> r.deep_view() == Some(last_segment(path@)),
{
    std::path::Path::new(path).file_name().map(|n| n.to_string_lossy().into_owned())
}

/// The tag of the `n`-th attempt at a timestamp.
pub open spec fn attempt_tag(ts: Seq<char>, n: nat) -> Seq<char> {
    if n == 0 {
        ts
    } else {
        ts + "-"@ + decimal(n)
    }
}

/// The name of the archive with a tag.
pub open spec fn plain_name(a: ArchiveV, tag: Seq<char>) -> Seq<char> {
    a.stem + "."@ + tag + a.ext
}

/// The name of the compressed archive with a tag.
pub open spec fn gz_name(a: ArchiveV, tag: Seq<char>) -> Seq<char> {
    plain_name(a, tag) + ".gz"@
}

/// `s` without `suffix` at its end, if it has it.
pub open spec fn without_suffix(s: Seq<char>, suffix: Seq<char>) -> Option<Seq<char>> {
    if suffix.is_suffix_of(s) {
        Some(s.take(s.len() - suffix.len()))
    } else {
        None
    }
}

/// `s` without `prefix` at its start, if it has it.
pub open spec fn without_prefix(s: Seq<char>, prefix: Seq<char>) -> Option<Seq<char>> {
    if prefix.is_prefix_of(s) {
        Some(s.skip(prefix.len() as int))
    } else {
        None
    }
}

/// The tag of an archive's file name: what stands between the stem and the
/// extension, if it starts with a digit. The live file is no archive, nor is a
/// compressed file in the making.
pub open spec fn tag_in(a: ArchiveV, name: Seq<char>) -> Option<Seq<char>> {
    if name == a.live_name || ".gz.tmp"@.is_suffix_of(name) {
        None
    } else {
        match without_prefix(name, a.stem) {
            Some(after_stem) => match without_prefix(after_stem, "."@) {
                Some(rest) => {
                    let rest = match without_suffix(rest, ".gz"@) {
                        Some(r) => r,
                        None => rest,
                    };
                    match without_suffix(rest, a.ext) {
                        Some(tag) if tag.len() > 0 && is_digit(tag.first()) => Some(tag),
                        _ => None,
                    }
                },
                None => None,
            },
            None => None,
        }
    }
}

/// `s` without `suffix` at its end.
fn strip_suffix<'a>(s: &'a [char], suffix: &[char]) -> (r: Option<&'a [char]>)
    ensures
        match r {
            Some(t) => without_suffix(s@, suffix@) == Some(t@),
            None => without_suffix(s@, suffix@) is None,
        },
{
    if ends_with(s, suffix) {
        Some(vstd::slice::slice_subrange(s, 0, s.len() - suffix.len()))
    } else {
        None
    }
}

/// `s` without `prefix` at its start.
fn strip_prefix<'a>(s: &'a [char], prefix: &[char]) -> (r: Option<&'a [char]>)
    ensures
        match r {
            Some(t) => without_prefix(s@, prefix@) == Some(t@),
            None => without_prefix(s@, prefix@) is None,
        },
{
    if starts_with(s, prefix) {
        Some(vstd::slice::slice_subrange(s, prefix.len(), s.len()))
    } else {
        None
    }
}

/// Whether a file name is that of a compressed file.
pub open spec fn is_gz(name: Seq<char>) -> bool {
    name_parts(name).1 == Some("gz"@)
}

/// The file names with a tag.
pub open spec fn with_tag(a: ArchiveV, names: Seq<Seq<char>>, tag: Seq<char>, gz: bool) -> Seq<
    Seq<char>,
> {
    names.filter(|n: Seq<char>| tag_in(a, n) == Some(tag) && is_gz(n) == gz)
}

/// The tags of file names, each once.
pub open spec fn tags(a: ArchiveV, names: Seq<Seq<char>>) -> Seq<Seq<char>>
    decreases names.len(),
{
    if names.len() == 0 {
        Seq::empty()
    } else {
        let before = tags(a, names.drop_last());
        match tag_in(a, names.last()) {
            Some(t) if !before.contains(t) => before.push(t),
            _ => before,
        }
    }
}

/// The archives of one tag.
#[derive(Debug)]
pub struct Archive {
    pub tag: String,
    /// The plain file first: the compressed one may not be complete yet.
    pub files: Vec<String>,
}

impl DeepView for Archive {
    type V = (Seq<char>, Seq<Seq<char>>);

    open spec fn deep_view(&self) -> (Seq<char>, Seq<Seq<char>>) {
        (self.tag@, self.files.deep_view())
    }
}

/// The archives among file names, newest first, one for each tag.
pub open spec fn archives(a: ArchiveV, names: Seq<Seq<char>>) -> Seq<(Seq<char>, Seq<Seq<char>>)> {
    sorted::<String>(tags(a, names)).reverse().map_values(
        |t: Seq<char>| (t, with_tag(a, names, t, false) + with_tag(a, names, t, true)),
    )
}

/// The files of archives.
pub open spec fn files_of(archives: Seq<(Seq<char>, Seq<Seq<char>>)>) -> Seq<Seq<char>>
    decreases archives.len(),
{
    if archives.len() == 0 {
        Seq::empty()
    } else {
        files_of(archives.drop_last()) + archives.last().1
    }
}

/// The files of all archives but the newest `keep`.
pub open spec fn expired(a: ArchiveV, names: Seq<Seq<char>>, keep: nat) -> Seq<Seq<char>> {
    let all = archives(a, names);
    if keep >= all.len() {
        Seq::empty()
    } else {
        files_of(all.skip(keep as int))
    }
}

impl ArchiveName {
    /// The naming scheme for the live file at a path: its archives lie next to it.
    pub fn new(live: &str) -> (r: Self)
        ensures
            is_ordinary_path(live@) ==> r@ == named_after(
                Some(parent_path(live@)),
                Some(last_segment(live@)),
            ),
            exists|dir: Option<Seq<char>>, name: Option<Seq<char>>| r@ == named_after(dir, name),
    {
        ArchiveName::from_parts(path_parent(live), path_file_name(live))
    }

    /// The naming scheme for a live file in a directory.
    pub fn from_parts(dir: Option<String>, name: Option<String>) -> (r: Self)
        ensures
            r@ == named_after(dir.deep_view(), name.deep_view()),
    {
        let live_name = match name {
            Some(n) => n,
            None => String::new(),
        };
        let dir = match dir {
            Some(d) => if d.as_str().is_empty() {
                ".".to_owned()
            } else {
                d
            },
            None => ".".to_owned(),
        };
        let (stem, ext) = split_name(live_name.as_str());
        let ext = match ext {
            Some(e) => if e.as_str().is_empty() {
                String::new()
            } else {
                let mut s = ".".to_owned();
                s.append(e.as_str());
                s
            },
            None => String::new(),
        };
        ArchiveName { dir, live_name, stem, ext }
    }

    /// The names to try for a new archive at a timestamp, on the `n`-th attempt:
    /// plain and compressed. Neither may exist already.
    pub fn fresh_names(&self, ts: &str, n: u64) -> (r: (String, String))
        ensures
            r.0@ == plain_name(self@, attempt_tag(ts@, n as nat)),
            r.1@ == gz_name(self@, attempt_tag(ts@, n as nat)),
    {
        let mut tag = ts.to_owned();
        if n > 0 {
            tag.append("-");
            push_decimal(&mut tag, n);
        }
        let mut plain = self.stem.clone();
        plain.append(".");
        plain.append(tag.as_str());
        plain.append(self.ext.as_str());
        let mut gz = plain.clone();
        gz.append(".gz");
        (plain, gz)
    }

    /// Timestamp tag of an archive file name, if it is one of ours.
    pub fn tag_of(&self, name: &str) -> (r: Option<String>)
        ensures
            r.deep_view() == tag_in(self@, name@),
            ".gz.tmp"@.is_suffix_of(name@) ==> r is None,
    {
        let v = chars_of(name);
        let unfinished = chars_of(".gz.tmp");
        if str_eq(name, self.live_name.as_str()) || ends_with(v.as_slice(), unfinished.as_slice()) {
            return None;
        }
        let stem = chars_of(self.stem.as_str());
        let dot = chars_of(".");
        let gz = chars_of(".gz");
        let ext = chars_of(self.ext.as_str());
        let after_stem = match strip_prefix(v.as_slice(), stem.as_slice()) {
            Some(t) => t,
            None => {
                return None;
            },
        };
        let rest = match strip_prefix(after_stem, dot.as_slice()) {
            Some(t) => t,
            None => {
                return None;
            },
        };
        let rest = match strip_suffix(rest, gz.as_slice()) {
            Some(t) => t,
            None => rest,
        };
        match strip_suffix(rest, ext.as_slice()) {
            Some(tag) => if tag.len() > 0 && Class::Digit.contains(tag[0]) {
                Some(string_of(tag))
            } else {
                None
            },
            None => None,
        }
    }

    /// The file names with a tag.
    fn names_with_tag(&self, names: &Vec<String>, tag: &String, gz: bool) -> (r: Vec<String>)
        ensures
            r.deep_view() == with_tag(self@, names.deep_view(), tag@, gz),
    {
        let ghost all = names.deep_view();
        let ghost keep = |n: Seq<char>| tag_in(self@, n) == Some(tag@) && is_gz(n) == gz;
        let mut out: Vec<String> = Vec::new();
        let mut i: usize = 0;
        proof {
            reveal(Seq::filter);
            assert(out.deep_view() =~= all.take(0).filter(keep));
        }
        while i < names.len()
            invariant
                i <= names@.len(),
                all == names.deep_view(),
                keep == (|n: Seq<char>| tag_in(self@, n) == Some(tag@) && is_gz(n) == gz),
                out.deep_view() == all.take(i as int).filter(keep),
            decreases names@.len() - i,
        {
            proof {
                reveal(Seq::filter);
                assert(all.take(i + 1).drop_last() =~= all.take(i as int));
                assert(all.take(i + 1).last() == names@[i as int]@);
            }
            let tagged = match self.tag_of(names[i].as_str()) {
                Some(t) => t.same(tag),
                None => false,
            };
            if tagged && is_compressed(names[i].as_str()) == gz {
                let ghost before = out;
                let n = names[i].clone();
                out.push(n);
                proof {
                    lemma_deep_push(before, out, n);
                }
            }
            i = i + 1;
        }
        proof {
            assert(all.take(i as int) =~= all);
        }
        out
    }

    /// The archives among the file names of the directory, newest first, one for
    /// each tag. A tag can briefly have both the plain and the compressed file.
    pub fn list(&self, names: &Vec<String>) -> (r: Vec<Archive>)
        ensures
            r.deep_view() == archives(self@, names.deep_view()),
    {
        let ghost all = names.deep_view();
        let mut found: Vec<String> = Vec::new();
        let mut i: usize = 0;
        proof {
            assert(found.deep_view() =~= tags(self@, all.take(0)));
        }
        while i < names.len()
            invariant
                i <= names@.len(),
                all == names.deep_view(),
                found.deep_view() == tags(self@, all.take(i as int)),
            decreases names@.len() - i,
        {
            proof {
                assert(all.take(i + 1).drop_last() =~= all.take(i as int));
                assert(all.take(i + 1).last() == names@[i as int]@);
            }
            if let Some(t) = self.tag_of(names[i].as_str()) {
                crate::deep::push_new(&mut found, t);
            }
            i = i + 1;
        }
        proof {
            assert(all.take(i as int) =~= all);
        }
        let found = stable_sort(found);
        let ghost s = found.deep_view();
        let ghost wanted = archives(self@, all);
        let n: usize = found.len();
        let mut out: Vec<Archive> = Vec::new();
        let mut j: usize = 0;
        while j < n
            invariant
                j <= n,
                n == found@.len(),
                all == names.deep_view(),
                s == found.deep_view(),
                s == sorted::<String>(tags(self@, all)),
                wanted == archives(self@, all),
                out@.len() == j,
                forall|k: int| 0 <= k < j ==> out@[k].deep_view() == wanted[k],
            decreases n - j,
        {
            let tag = found[n - 1 - j].clone();
            let mut files = self.names_with_tag(names, &tag, false);
            let ghost plain = files.deep_view();
            let mut packed = self.names_with_tag(names, &tag, true);
            let ghost gz = packed.deep_view();
            files.append(&mut packed);
            proof {
                assert(files.deep_view() =~= plain + gz);
                assert(s.reverse()[j as int] == tag@);
            }
            out.push(Archive { tag, files });
            j = j + 1;
        }
        proof {
            assert(out.deep_view() =~= wanted);
        }
        out
    }

    /// The files to delete so that only the newest `keep` archives stay.
    pub fn prune(&self, names: &Vec<String>, keep: usize) -> (r: Vec<String>)
        ensures
            r.deep_view() == expired(self@, names.deep_view(), keep as nat),
    {
        let all = self.list(names);
        let ghost s = all.deep_view();
        let mut out: Vec<String> = Vec::new();
        if keep >= all.len() {
            proof {
                assert(out.deep_view() =~= Seq::empty());
            }
            return out;
        }
        let ghost old = s.skip(keep as int);
        let mut i: usize = keep;
        proof {
            assert(out.deep_view() =~= files_of(old.take(0)));
        }
        while i < all.len()
            invariant
                keep <= i <= all@.len(),
                s == all.deep_view(),
                old == s.skip(keep as int),
                out.deep_view() == files_of(old.take(i - keep)),
            decreases all@.len() - i,
        {
            let ghost before = out.deep_view();
            let mut more = all[i].files.dup();
            let ghost added = more.deep_view();
            out.append(&mut more);
            proof {
                assert(out.deep_view() =~= before + added);
                assert(old.take(i + 1 - keep).drop_last() =~= old.take(i - keep));
                assert(old.take(i + 1 - keep).last() == all@[i as int].deep_view());
            }
            i = i + 1;
        }
        proof {
            assert(old.take(i - keep) =~= old);
        }
        out
    }
}

/// Whether a file name is that of a compressed file.
pub fn is_compressed(name: &str) -> (r: bool)
    ensures
        r == is_gz(name@),
{
    match split_name(name).1 {
        Some(e) => str_eq(e.as_str(), "gz"),
        None => false,
    }
}

/// `out`, followed by the entries of lines from the last one back, up to `limit`
/// entries in all. Lines that are no JSON are skipped.
pub open spec fn recent(out: Seq<JsonV>, rows: Seq<Seq<char>>, limit: nat) -> Seq<JsonV>
    decreases rows.len(),
{
    if rows.len() == 0 || out.len() >= limit {
        out
    } else {
        match json_parsed(encode_utf8(rows.last())) {
            Some(v) => recent(out.push(v), rows.drop_last(), limit),
            None => recent(out, rows.drop_last(), limit),
        }
    }
}

/// Adds the entries of a log file, newest first, up to `limit` entries in all.
/// Lines that do not parse (e.g. one being written) are skipped.
pub fn take_recent(content: &str, out: &mut Vec<Json>, limit: usize)
    ensures
        final(out).deep_view() == recent(old(out).deep_view(), lines(content@), limit as nat),
{
    let v = chars_of(content);
    let rows = split_lines(v.as_slice());
    let ghost all = rows.deep_view();
    let ghost wanted = recent(out.deep_view(), all, limit as nat);
    let mut n: usize = rows.len();
    proof {
        assert(all.take(n as int) =~= all);
    }
    while n > 0 && out.len() < limit
        invariant
            n <= rows@.len(),
            all == rows.deep_view(),
            recent(out.deep_view(), all.take(n as int), limit as nat) == wanted,
        decreases n,
    {
        proof {
            assert(all.take(n as int).drop_last() =~= all.take(n - 1));
            assert(all.take(n as int).last() == rows@[n - 1]@);
        }
        let line = string_of(rows[n - 1].as_slice());
        if let Some(entry) = parse(line.as_str().as_bytes()) {
            let ghost before = *out;
            out.push(entry);
            proof {
                lemma_deep_push(before, *out, entry);
            }
        }
        n = n - 1;
    }
}

/// What follows a prefix is left without it.
proof fn lemma_without_prefix(a: Seq<char>, b: Seq<char>)
    ensures
        without_prefix(a + b, a) == Some(b),
{
    assert((a + b).subrange(0, a.len() as int) =~= a);
    assert((a + b).skip(a.len() as int) =~= b);
}

/// What comes before a suffix is left without it.
proof fn lemma_without_suffix(a: Seq<char>, b: Seq<char>)
    ensures
        without_suffix(a + b, b) == Some(a),
{
    assert((a + b).subrange(a.len() as int, (a + b).len() as int) =~= b);
    assert((a + b).take(a.len() as int) =~= a);
}

/// The name of a compressed file is not that of one in the making.
proof fn lemma_finished_name(plain: Seq<char>)
    ensures
        !".gz.tmp"@.is_suffix_of(plain + ".gz"@),
{
    reveal_strlit(".gz");
    reveal_strlit(".gz.tmp");
    let full = plain + ".gz"@;
    if ".gz.tmp"@.is_suffix_of(full) {
        let end = full.subrange(full.len() - 7, full.len() as int);
        assert(end[6] == full[full.len() - 1]);
        assert(full[full.len() - 1] == 'z');
    }
}

/// The name of a compressed archive leads back to its tag.
pub proof fn law_gz_name_has_tag(dir: Option<Seq<char>>, name: Option<Seq<char>>, tag: Seq<char>)
    requires
        tag.len() > 0,
        is_digit(tag.first()),
    ensures
        ({
            let a = named_after(dir, name);
            tag_in(a, gz_name(a, tag)) == Some(tag)
        }),
{
    let a = named_after(dir, name);
    let rest = (tag + a.ext) + ".gz"@;
    let full = gz_name(a, tag);
    assert(full =~= a.stem + ("."@ + rest));
    lemma_finished_name(plain_name(a, tag));
    assert(full != a.live_name) by {
        reveal_strlit(".");
        reveal_strlit(".gz");
        lemma_live_name_short(dir, name);
    }
    lemma_without_prefix(a.stem, "."@ + rest);
    lemma_without_prefix("."@, rest);
    lemma_without_suffix(tag + a.ext, ".gz"@);
    lemma_without_suffix(tag, a.ext);
}

/// The name of a plain archive leads back to its tag, unless it looks compressed or
/// like a compressed file in the making.
pub proof fn law_plain_name_has_tag(dir: Option<Seq<char>>, name: Option<Seq<char>>, tag: Seq<char>)
    requires
        tag.len() > 0,
        is_digit(tag.first()),
        !".gz"@.is_suffix_of(tag + named_after(dir, name).ext),
        !".gz.tmp"@.is_suffix_of(plain_name(named_after(dir, name), tag)),
    ensures
        ({
            let a = named_after(dir, name);
            tag_in(a, plain_name(a, tag)) == Some(tag)
        }),
{
    let a = named_after(dir, name);
    let rest = tag + a.ext;
    let full = plain_name(a, tag);
    assert(full =~= a.stem + ("."@ + rest));
    assert(full != a.live_name) by {
        reveal_strlit(".");
        lemma_live_name_short(dir, name);
    }
    lemma_without_prefix(a.stem, "."@ + rest);
    lemma_without_prefix("."@, rest);
    lemma_without_suffix(tag, a.ext);
}

/// A live file's name is at most one character longer than its stem and extension.
proof fn lemma_live_name_short(dir: Option<Seq<char>>, name: Option<Seq<char>>)
    ensures
        ({
            let a = named_after(dir, name);
            a.live_name.len() <= a.stem.len() + a.ext.len() + 1
        }),
{
    reveal_strlit(".");
}

/// The live file is never taken for an archive.
pub proof fn law_live_file_is_no_archive(a: ArchiveV)
    ensures
        tag_in(a, a.live_name) is None,
{
}

/// Reading entries back never gives more than were asked for, and what was read
/// first stays first.
pub proof fn law_recent_bounded(out: Seq<JsonV>, rows: Seq<Seq<char>>, limit: nat)
    ensures
        out.is_prefix_of(recent(out, rows, limit)),
        recent(out, rows, limit).len() <= if out.len() > limit {
            out.len()
        } else {
            limit
        },
    decreases rows.len(),
{
    if rows.len() > 0 && out.len() < limit {
        match json_parsed(encode_utf8(rows.last())) {
            Some(v) => {
                law_recent_bounded(out.push(v), rows.drop_last(), limit);
                let r = recent(out.push(v), rows.drop_last(), limit);
                assert(r.subrange(0, out.len() as int) =~= out) by {
                    assert(r.subrange(0, (out.len() + 1) as int) == out.push(v));
                    assert forall|i: int| 0 <= i < out.len() implies r[i] == out[i] by {
                        assert(r.subrange(0, (out.len() + 1) as int)[i] == out.push(v)[i]);
                    }
                }
            },
            None => law_recent_bounded(out, rows.drop_last(), limit),
        }
    }
}

/// The tags that are found are those of the file names, each once.
proof fn lemma_tags(a: ArchiveV, names: Seq<Seq<char>>)
    ensures
        tags(a, names).no_duplicates(),
        forall|t: Seq<char>| #[trigger]
            tags(a, names).contains(t) <==> exists|i: int|
                0 <= i < names.len() && tag_in(a, #[trigger] names[i]) == Some(t),
    decreases names.len(),
{
    if names.len() > 0 {
        let rest = names.drop_last();
        let before = tags(a, rest);
        let after = tags(a, names);
        lemma_tags(a, rest);
        assert(names[names.len() - 1] == names.last());
        assert forall|t: Seq<char>| #[trigger] after.contains(t) <==> exists|i: int|
            0 <= i < names.len() && tag_in(a, #[trigger] names[i]) == Some(t) by {
            if after.contains(t) {
                let k = choose|k: int| 0 <= k < after.len() && after[k] == t;
                if k < before.len() {
                    assert(before[k] == t);
                    assert(before.contains(t));
                    let i = choose|i: int|
                        0 <= i < rest.len() && tag_in(a, #[trigger] rest[i]) == Some(t);
                    assert(tag_in(a, names[i]) == Some(t));
                } else {
                    assert(tag_in(a, names[names.len() - 1]) == Some(t));
                }
            }
            if exists|i: int| 0 <= i < names.len() && tag_in(a, #[trigger] names[i]) == Some(t) {
                let i = choose|i: int|
                    0 <= i < names.len() && tag_in(a, #[trigger] names[i]) == Some(t);
                if i < rest.len() {
                    assert(tag_in(a, rest[i]) == Some(t));
                    assert(before.contains(t));
                    let k = choose|k: int| 0 <= k < before.len() && before[k] == t;
                    assert(after[k] == t);
                } else if before.contains(t) {
                    let k = choose|k: int| 0 <= k < before.len() && before[k] == t;
                    assert(after[k] == t);
                } else {
                    assert(after[before.len() as int] == t);
                }
            }
        }
    }
}

/// Archives are listed newest first, one for each tag: the tags decrease strictly.
pub proof fn law_archives_newest_first(a: ArchiveV, names: Seq<Seq<char>>, i: int, j: int)
    requires
        0 <= i < j < archives(a, names).len(),
    ensures
        lex_before(archives(a, names)[j].0, archives(a, names)[i].0),
{
    let found = tags(a, names);
    let s = sorted::<String>(found);
    lemma_tags(a, names);
    lemma_text_order();
    law_sorted_in_order::<String>(found);
    law_sorted_is_permutation::<String>(found);
    lemma_permutation_distinct(found, s);
    let n = s.len() as int;
    let (x, y) = (s[n - 1 - i], s[n - 1 - j]);
    assert(archives(a, names)[i].0 == x);
    assert(archives(a, names)[j].0 == y);
    assert(!String::before(x, y));
    assert(x != y);
    lemma_lex_total(x, y);
}

/// The live file is in no archive, so pruning never deletes it.
pub proof fn law_live_file_never_pruned(
    a: ArchiveV,
    names: Seq<Seq<char>>,
    tag: Seq<char>,
    gz: bool,
)
    ensures
        !with_tag(a, names, tag, gz).contains(a.live_name),
{
    lemma_filter(
        names,
        |n: Seq<char>| tag_in(a, n) == Some(tag) && is_gz(n) == gz,
        a.live_name,
    );
}

/// The bytes that a gzip file holds, as `flate2::read::GzDecoder` reads them;
/// nothing where it fails.
pub uninterp spec fn gz_unpacked(packed: Seq<u8>) -> Option<Seq<u8>>;

/// Reads all of a `flate2::read::GzDecoder`; the result depends on the bytes alone.
#[verifier::external_body]
fn gz_decode(packed: &[u8]) -> (r: Option<Vec<u8>>)
    ensures
        match r {
            Some(b) => gz_unpacked(packed@) == Some(b@),
            None => gz_unpacked(packed@) is None,
        },
{
    let mut out: Vec<u8> = Vec::new();
    let mut decoder = flate2::read::GzDecoder::new(packed);
    std::io::Read::read_to_end(&mut decoder, &mut out).ok().map(|_| out)
}

/// Writes all of `content` to a `flate2::write::GzEncoder` over a vector, which
/// cannot fail. The decoder gives the content back; what else the result holds is
/// left to the encoder.
#[verifier::external_body]
fn gz_encode(content: &[u8]) -> (r: Vec<u8>)
    ensures
        gz_unpacked(r@) == Some(content@),
{
    let level = flate2::Compression::default();
    let mut encoder = flate2::write::GzEncoder::new(Vec::new(), level);
    std::io::Write::write_all(&mut encoder, content).ok();
    encoder.finish().unwrap_or_default()
}

/// The compressed form of an archive.
pub fn compress_archive(content: &[u8]) -> (r: Vec<u8>)
    ensures
        gz_unpacked(r@) == Some(content@),
{
    gz_encode(content)
}

/// The text of an archive: that of a compressed one is unpacked first. Nothing if
/// it cannot be unpacked or is no UTF-8.
pub open spec fn archive_text(name: Seq<char>, bytes: Seq<u8>) -> Option<Seq<char>> {
    let plain = if is_gz(name) {
        gz_unpacked(bytes)
    } else {
        Some(bytes)
    };
    match plain {
        Some(b) if valid_utf8(b) => Some(decode_utf8(b)),
        _ => None,
    }
}

/// The text of an archive with the given file name and bytes.
pub fn read_archive(name: &str, bytes: Vec<u8>) -> (r: Option<String>)
    ensures
        r.deep_view() == archive_text(name@, bytes@),
{
    let plain = if is_compressed(name) {
        match gz_decode(bytes.as_slice()) {
            Some(b) => b,
            None => {
                return None;
            },
        }
    } else {
        bytes
    };
    text_strict(plain)
}

/// An archive reads back as what was written, compressed or not.
pub proof fn law_archive_reads_back(name: Seq<char>, text: Seq<char>, bytes: Seq<u8>)
    requires
        is_gz(name) ==> gz_unpacked(bytes) == Some(encode_utf8(text)),
        !is_gz(name) ==> bytes == encode_utf8(text),
    ensures
        archive_text(name, bytes) == Some(text),
{
    encode_utf8_valid_utf8(text);
    encode_utf8_decode_utf8(text);
}

/// The timestamp of a time in milliseconds since 1970, as `chrono` formats it with
/// `%Y%m%dT%H%M%S%.3fZ`; nothing where it is out of its range.
pub uninterp spec fn utc_stamp(millis: i64) -> Option<Seq<char>>;

/// Calls `chrono::DateTime::from_timestamp_millis` and formats the result, which
/// depends on the time alone. From 1970 to 9999 there is one: it has a fixed length,
/// starts with a digit of the year, and comes before that of any later time, since
/// year, month, day, hour, minute, second and millisecond follow each other with
/// leading zeros.
#[verifier::external_body]
fn format_stamp(millis: i64) -> (r: Option<String>)
    ensures
        r.deep_view() == utc_stamp(millis),
        0 <= millis <= 253402300799999 ==> match r {
            Some(s) => s@.len() == 20 && is_digit(s@.first()) && forall|later: i64|
                millis < later <= 253402300799999 ==> lex_before(
                    s@,
                    (#[trigger] utc_stamp(later))->0,
                ),
            None => false,
        },
{
    chrono::DateTime::<chrono::Utc>::from_timestamp_millis(millis).map(
        |t| t.format("%Y%m%dT%H%M%S%.3fZ").to_string(),
    )
}

impl ArchiveName {
    /// The names to try for a new archive at a time, on the `n`-th attempt: plain
    /// and compressed. Neither may exist already.
    pub fn fresh_path(&self, millis: i64, n: u64) -> (r: Option<(String, String)>)
        ensures
            match r {
                Some(names) => utc_stamp(millis) is Some && names.0@ == plain_name(
                    self@,
                    attempt_tag(utc_stamp(millis)->0, n as nat),
                ) && names.1@ == gz_name(self@, attempt_tag(utc_stamp(millis)->0, n as nat)),
                None => utc_stamp(millis) is None,
            },
            0 <= millis <= 253402300799999 ==> r is Some && is_digit(
                attempt_tag(utc_stamp(millis)->0, n as nat).first(),
            ) && (utc_stamp(millis)->0).len() == 20,
            0 <= millis ==> forall|later: i64|
                millis < later <= 253402300799999 ==> lex_before(
                    utc_stamp(millis)->0,
                    (#[trigger] utc_stamp(later))->0,
                ),
    {
        match format_stamp(millis) {
            Some(ts) => Some(self.fresh_names(ts.as_str(), n)),
            None => None,
        }
    }
}

/// Whether neither name of the `n`-th attempt at a timestamp is taken.
pub open spec fn is_free(a: ArchiveV, ts: Seq<char>, taken: Seq<Seq<char>>, n: nat) -> bool {
    !taken.contains(plain_name(a, attempt_tag(ts, n))) && !taken.contains(
        gz_name(a, attempt_tag(ts, n)),
    )
}

/// Whether the `n`-th attempt at a timestamp is the first with names that are not
/// taken.
pub open spec fn is_first_free(a: ArchiveV, ts: Seq<char>, taken: Seq<Seq<char>>, n: nat) -> bool {
    is_free(a, ts, taken, n) && forall|m: nat| m < n ==> !#[trigger] is_free(a, ts, taken, m)
}

/// Different attempts have different tags.
proof fn lemma_attempts_differ(ts: Seq<char>, n: nat, m: nat)
    requires
        attempt_tag(ts, n) == attempt_tag(ts, m),
    ensures
        n == m,
{
    reveal_strlit("-");
    let (x, y) = (attempt_tag(ts, n), attempt_tag(ts, m));
    lemma_decimal_digits(n);
    lemma_decimal_digits(m);
    if n > 0 && m > 0 {
        let k = ts.len() as int + 1;
        assert(x.skip(k) =~= decimal(n));
        assert(y.skip(k) =~= decimal(m));
        lemma_decimal_injective(n, m);
    }
}

/// How often `g` occurs in the plain name of an attempt does not depend on the
/// attempt.
proof fn lemma_letters(a: ArchiveV, ts: Seq<char>, n: nat)
    ensures
        plain_name(a, attempt_tag(ts, n)).to_multiset().count('g') == plain_name(
            a,
            ts,
        ).to_multiset().count('g'),
        gz_name(a, attempt_tag(ts, n)).to_multiset().count('g') == plain_name(
            a,
            ts,
        ).to_multiset().count('g') + 1,
{
    broadcast use vstd::seq_lib::group_to_multiset_ensures;

    reveal_strlit("-");
    reveal_strlit(".gz");
    let empty = Seq::<char>::empty();
    let x = if n == 0 {
        empty
    } else {
        "-"@ + decimal(n)
    };
    let front = a.stem + "."@ + ts;
    lemma_decimal_digits(n);
    assert(!x.contains('g')) by {
        if x.contains('g') {
            let k = choose|k: int| 0 <= k < x.len() && x[k] == 'g';
            if k > 0 {
                assert(x[k] == decimal(n)[k - 1]);
            }
        }
    }
    let plain = plain_name(a, attempt_tag(ts, n));
    assert(plain =~= (front + x) + a.ext);
    assert(plain_name(a, ts) =~= front + a.ext);
    vstd::seq_lib::lemma_multiset_commutative(front + x, a.ext);
    vstd::seq_lib::lemma_multiset_commutative(front, x);
    vstd::seq_lib::lemma_multiset_commutative(front, a.ext);
    vstd::seq_lib::lemma_multiset_commutative(plain, ".gz"@);
    assert(x.to_multiset().count('g') == 0);
    assert(".gz"@ =~= empty.push('.').push('g').push('z'));
    assert(".gz"@.to_multiset() =~= empty.to_multiset().insert('.').insert('g').insert('z'));
    assert(".gz"@.to_multiset().count('g') == 1);
}

/// Different attempts have different names.
proof fn lemma_names_differ(a: ArchiveV, ts: Seq<char>, n: nat, m: nat)
    requires
        n != m,
    ensures
        plain_name(a, attempt_tag(ts, n)) != plain_name(a, attempt_tag(ts, m)),
        gz_name(a, attempt_tag(ts, n)) != gz_name(a, attempt_tag(ts, m)),
        plain_name(a, attempt_tag(ts, n)) != gz_name(a, attempt_tag(ts, m)),
{
    let (t, u) = (attempt_tag(ts, n), attempt_tag(ts, m));
    let (p, q) = (plain_name(a, t), plain_name(a, u));
    let front = a.stem + "."@;
    lemma_letters(a, ts, n);
    lemma_letters(a, ts, m);
    if p == q {
        let (i, j) = (front.len() as int, p.len() - a.ext.len());
        assert(p.subrange(i, j) =~= t);
        assert(q.subrange(i, j) =~= u);
        lemma_attempts_differ(ts, n, m);
    }
    if gz_name(a, t) == gz_name(a, u) {
        lemma_without_suffix(p, ".gz"@);
        lemma_without_suffix(q, ".gz"@);
    }
}

/// Of one attempt more than names are taken, one is free.
proof fn lemma_some_free(a: ArchiveV, ts: Seq<char>, taken: Seq<Seq<char>>)
    ensures
        exists|n: nat| n <= taken.len() && #[trigger] is_free(a, ts, taken, n),
{
    if forall|n: nat| n <= taken.len() ==> !#[trigger] is_free(a, ts, taken, n) {
        // The name that stands in the way of each attempt.
        let blocking = Seq::new(
            taken.len() + 1,
            |i: int|
                if taken.contains(plain_name(a, attempt_tag(ts, i as nat))) {
                    plain_name(a, attempt_tag(ts, i as nat))
                } else {
                    gz_name(a, attempt_tag(ts, i as nat))
                },
        );
        assert forall|i: int, j: int|
            0 <= i < blocking.len() && 0 <= j < blocking.len() && i != j implies blocking[i]
            != blocking[j] by {
            lemma_names_differ(a, ts, i as nat, j as nat);
            lemma_names_differ(a, ts, j as nat, i as nat);
        }
        blocking.unique_seq_to_set();
        taken.lemma_cardinality_of_set();
        assert(blocking.to_set().subset_of(taken.to_set())) by {
            assert forall|x: Seq<char>| #[trigger] blocking.to_set().contains(x) implies
                taken.to_set().contains(x) by {
                let i = choose|i: int| 0 <= i < blocking.len() && blocking[i] == x;
                assert(!is_free(a, ts, taken, i as nat));
            }
        }
        vstd::seq_lib::seq_to_set_is_finite(taken);
        vstd::set_lib::lemma_len_subset(blocking.to_set(), taken.to_set());
    }
}

impl ArchiveName {
    /// The names for a new archive at a time, plain and compressed, given the names
    /// that are taken: those of the first attempt of which neither is. Nothing for a
    /// time that has no timestamp.
    pub fn unused_path(&self, millis: i64, taken: &Vec<String>) -> (r: Option<(String, String)>)
        ensures
            match r {
                Some(names) => utc_stamp(millis) is Some && exists|n: nat|
                    #[trigger] is_first_free(
                        self@,
                        utc_stamp(millis)->0,
                        taken.deep_view(),
                        n,
                    ) && names.0@ == plain_name(self@, attempt_tag(utc_stamp(millis)->0, n))
                        && names.1@ == gz_name(self@, attempt_tag(utc_stamp(millis)->0, n)),
                None => utc_stamp(millis) is None,
            },
            0 <= millis <= 253402300799999 ==> r is Some,
    {
        let ghost ts = utc_stamp(millis)->0;
        let ghost names = taken.deep_view();
        let last: u64 = taken.len() as u64;
        let mut n: u64 = 0;
        while n < last
            invariant
                n <= last == taken@.len(),
                names == taken.deep_view(),
                ts == utc_stamp(millis)->0,
                forall|m: nat| m < n ==> !#[trigger] is_free(self@, ts, names, m),
            decreases last - n,
        {
            match self.fresh_path(millis, n) {
                Some((plain, gz)) => {
                    if !contains(taken, &plain) && !contains(taken, &gz) {
                        proof {
                            assert(is_first_free(self@, ts, names, n as nat));
                        }
                        return Some((plain, gz));
                    }
                    proof {
                        assert(!is_free(self@, ts, names, n as nat));
                    }
                },
                None => {
                    return None;
                },
            }
            n = n + 1;
        }
        proof {
            lemma_some_free(self@, ts, names);
            let free = choose|m: nat| m <= names.len() && #[trigger] is_free(self@, ts, names, m);
            assert(free == n);
            assert(is_first_free(self@, ts, names, n as nat));
        }
        self.fresh_path(millis, n)
    }
}

/// The first attempt that is free is one attempt: names for a new archive are fixed
/// by the time and by what is taken.
pub proof fn law_first_free_is_one(
    a: ArchiveV,
    ts: Seq<char>,
    taken: Seq<Seq<char>>,
    n: nat,
    m: nat,
)
    requires
        is_first_free(a, ts, taken, n),
        is_first_free(a, ts, taken, m),
    ensures
        n == m,
        n <= taken.len(),
{
    lemma_some_free(a, ts, taken);
    let free = choose|k: nat| k <= taken.len() && #[trigger] is_free(a, ts, taken, k);
    assert(!(free < n));
    assert(is_free(a, ts, taken, n) && is_free(a, ts, taken, m));
}

/// Texts of one length keep their order when more text follows them.
proof fn lemma_order_extends(a: Seq<char>, b: Seq<char>, x: Seq<char>, y: Seq<char>)
    requires
        a.len() == b.len(),
        lex_before(a, b),
    ensures
        lex_before(a + x, b + y),
    decreases a.len(),
{
    let (p, q) = (a + x, b + y);
    assert(p.first() == a.first() && q.first() == b.first());
    if a.first() == b.first() {
        lemma_order_extends(a.drop_first(), b.drop_first(), x, y);
        assert(p.drop_first() =~= a.drop_first() + x);
        assert(q.drop_first() =~= b.drop_first() + y);
    }
}

/// An archive with an earlier timestamp comes before one with a later timestamp of
/// the same length, whichever attempts made them, so that the oldest are pruned
/// first.
pub proof fn law_earlier_archives_are_older(a: Seq<char>, b: Seq<char>, n: nat, m: nat)
    requires
        a.len() == b.len(),
        lex_before(a, b),
    ensures
        lex_before(attempt_tag(a, n), attempt_tag(b, m)),
{
    let empty = Seq::<char>::empty();
    let x = if n == 0 {
        empty
    } else {
        "-"@ + decimal(n)
    };
    let y = if m == 0 {
        empty
    } else {
        "-"@ + decimal(m)
    };
    assert(attempt_tag(a, n) =~= a + x);
    assert(attempt_tag(b, m) =~= b + y);
    lemma_order_extends(a, b, x, y);
}

/// The tags of archives are those of the file names, each once.
pub proof fn law_tags(a: ArchiveV, names: Seq<Seq<char>>, t: Seq<char>)
    ensures
        tags(a, names).no_duplicates(),
        tags(a, names).contains(t) <==> exists|i: int|
            0 <= i < names.len() && tag_in(a, #[trigger] names[i]) == Some(t),
{
    lemma_tags(a, names);
}

/// The files of an archive are those with its tag, and every file with a tag belongs to
/// an archive.
pub proof fn law_archive_files(a: ArchiveV, names: Seq<Seq<char>>, n: Seq<char>, i: int)
    ensures
        0 <= i < archives(a, names).len() ==> (archives(a, names)[i].1.contains(n)
            <==> names.contains(n) && tag_in(a, n) == Some(archives(a, names)[i].0)),
        names.contains(n) && tag_in(a, n) is Some ==> exists|k: int|
            0 <= k < archives(a, names).len() && Some((#[trigger] archives(a, names)[k]).0)
                == tag_in(a, n),
{
    let all = archives(a, names);
    let found = tags(a, names);
    let s = sorted::<String>(found);
    law_sorted_is_permutation::<String>(found);
    if 0 <= i < all.len() {
        lemma_files(a, names, all[i].0, n);
    }
    if names.contains(n) && tag_in(a, n) is Some {
        let t = tag_in(a, n)->0;
        lemma_tags(a, names);
        let j = choose|j: int| 0 <= j < names.len() && names[j] == n;
        assert(tag_in(a, names[j]) == Some(t));
        assert(found.contains(t));
        lemma_permutation_contains(s, found, t);
        let k = choose|k: int| 0 <= k < s.len() && s[k] == t;
        assert(s.reverse()[s.len() - 1 - k] == t);
        assert(all[s.len() - 1 - k].0 == t);
    }
}

/// The files with a tag.
proof fn lemma_files(a: ArchiveV, names: Seq<Seq<char>>, t: Seq<char>, n: Seq<char>)
    ensures
        (with_tag(a, names, t, false) + with_tag(a, names, t, true)).contains(n)
            <==> names.contains(n) && tag_in(a, n) == Some(t),
{
    lemma_contains_concat(with_tag(a, names, t, false), with_tag(a, names, t, true), n);
    lemma_filter(names, |m: Seq<char>| tag_in(a, m) == Some(t) && is_gz(m) == false, n);
    lemma_filter(names, |m: Seq<char>| tag_in(a, m) == Some(t) && is_gz(m) == true, n);
}

/// The files of a list of archives.
proof fn lemma_files_of(all: Seq<(Seq<char>, Seq<Seq<char>>)>, n: Seq<char>)
    ensures
        files_of(all).contains(n) <==> exists|i: int|
            0 <= i < all.len() && (#[trigger] all[i]).1.contains(n),
    decreases all.len(),
{
    if all.len() > 0 {
        let rest = all.drop_last();
        lemma_files_of(rest, n);
        lemma_contains_concat(files_of(rest), all.last().1, n);
        if files_of(rest).contains(n) {
            let i = choose|i: int| 0 <= i < rest.len() && (#[trigger] rest[i]).1.contains(n);
            assert(all[i].1.contains(n));
        }
        if all.last().1.contains(n) {
            assert(all[all.len() - 1].1.contains(n));
        }
        if exists|i: int| 0 <= i < all.len() && (#[trigger] all[i]).1.contains(n) {
            let i = choose|i: int| 0 <= i < all.len() && (#[trigger] all[i]).1.contains(n);
            if i < rest.len() {
                assert(rest[i] == all[i]);
            }
        }
    }
}

/// Pruning deletes the files of all archives but the newest, and no others.
pub proof fn law_expired(a: ArchiveV, names: Seq<Seq<char>>, keep: nat, n: Seq<char>)
    ensures
        expired(a, names, keep).contains(n) <==> names.contains(n) && exists|i: int|
            keep <= i < archives(a, names).len() && Some((#[trigger] archives(a, names)[i]).0)
                == tag_in(a, n),
{
    let all = archives(a, names);
    if keep < all.len() {
        let old = all.skip(keep as int);
        lemma_files_of(old, n);
        if files_of(old).contains(n) {
            let i = choose|i: int| 0 <= i < old.len() && (#[trigger] old[i]).1.contains(n);
            law_archive_files(a, names, n, keep + i);
            assert(all[keep + i] == old[i]);
        }
        if names.contains(n) && exists|i: int|
            keep <= i < all.len() && Some((#[trigger] all[i]).0) == tag_in(a, n) {
            let i = choose|i: int| keep <= i < all.len() && Some((#[trigger] all[i]).0) == tag_in(
                a,
                n,
            );
            law_archive_files(a, names, n, i);
            assert(old[i - keep] == all[i]);
        }
    }
}

/// Entries are read from the last line back, until there are enough; a line that is no
/// JSON is passed over.
pub proof fn law_recent(out: Seq<JsonV>, rows: Seq<Seq<char>>, row: Seq<char>, limit: nat)
    ensures
        recent(out, Seq::empty(), limit) == out,
        out.len() >= limit ==> recent(out, rows, limit) == out,
        out.len() < limit ==> match json_parsed(encode_utf8(row)) {
            Some(v) => recent(out, rows.push(row), limit) == recent(out.push(v), rows, limit),
            None => recent(out, rows.push(row), limit) == recent(out, rows, limit),
        },
{
    assert(rows.push(row).drop_last() =~= rows);
}

/// The extension of a file name follows its last dot, unless nothing stands before it.
pub proof fn law_name_parts(stem: Seq<char>, ext: Seq<char>)
    requires
        !ext.contains('.'),
    ensures
        stem.len() > 0 ==> name_parts(stem + seq!['.'] + ext) == (stem, Some(ext)),
        name_parts(seq!['.'] + ext) == (seq!['.'] + ext, None::<Seq<char>>),
        name_parts(ext) == (ext, None::<Seq<char>>),
{
    let name = stem + seq!['.'] + ext;
    law_after_last(stem, '.', ext);
    assert(name.take(name.len() - ext.len() - 1) =~= stem);
    let hidden = seq!['.'] + ext;
    law_after_last(Seq::empty(), '.', ext);
    assert(Seq::<char>::empty() + seq!['.'] + ext =~= hidden);
}

/// Archives stand next to the live file and are named after it: the tag goes between its
/// stem and its extension.
pub proof fn law_archive_names(
    dir: Option<Seq<char>>,
    stem: Seq<char>,
    ext: Seq<char>,
    tag: Seq<char>,
)
    requires
        !ext.contains('.'),
        ext.len() > 0,
        stem.len() > 0,
    ensures
        ({
            let name = stem + seq!['.'] + ext;
            let a = named_after(dir, Some(name));
            &&& a.live_name == name
            &&& dir is Some && dir->0.len() > 0 ==> a.dir == dir->0
            &&& dir is None || dir->0.len() == 0 ==> a.dir == "."@
            &&& plain_name(a, tag) == stem + seq!['.'] + tag + seq!['.'] + ext
            &&& gz_name(a, tag) == stem + seq!['.'] + tag + seq!['.'] + ext + ".gz"@
        }),
        !stem.contains('.') ==> plain_name(named_after(dir, Some(stem)), tag) == stem + seq!['.']
            + tag,
{
    reveal_strlit(".");
    law_name_parts(stem, ext);
    let a = named_after(dir, Some(stem + seq!['.'] + ext));
    assert("."@ =~= seq!['.']);
    assert(plain_name(a, tag) =~= stem + seq!['.'] + tag + seq!['.'] + ext);
    if !stem.contains('.') {
        law_name_parts(Seq::empty(), stem);
        let b = named_after(dir, Some(stem));
        assert(plain_name(b, tag) =~= stem + seq!['.'] + tag);
    }
}

/// The first attempt at a timestamp has the timestamp as its tag, later ones a number
/// behind it.
pub proof fn law_attempt_tag(ts: Seq<char>, n: nat)
    ensures
        attempt_tag(ts, 0) == ts,
        n > 0 ==> attempt_tag(ts, n) == ts + seq!['-'] + decimal(n),
{
    reveal_strlit("-");
    assert("-"@ =~= seq!['-']);
}

/// The last segment of a path and what stands before it.
pub proof fn law_path_segments(dir: Seq<char>, name: Seq<char>)
    requires
        !name.contains('/'),
    ensures
        last_segment(dir + seq!['/'] + name) == name,
        dir.len() > 0 ==> parent_path(dir + seq!['/'] + name) == dir,
        parent_path(seq!['/'] + name) == seq!['/'],
        last_segment(name) == name && parent_path(name).len() == 0,
{
    let path = dir + seq!['/'] + name;
    law_after_last(dir, '/', name);
    assert(path.take(path.len() - name.len() - 1) =~= dir);
    law_after_last(Seq::empty(), '/', name);
    assert(Seq::<char>::empty() + seq!['/'] + name =~= seq!['/'] + name);
}

/// A file is compressed exactly if `.gz` stands behind its name.
pub proof fn law_compressed_name(name: Seq<char>, ext: Seq<char>)
    requires
        name.len() > 0,
        !ext.contains('.'),
    ensures
        is_gz(name + seq!['.'] + ext) <==> ext == "gz"@,
        is_gz(name + ".gz"@),
        !is_gz(ext),
{
    law_name_parts(name, ext);
    reveal_strlit("gz");
    reveal_strlit(".gz");
    law_name_parts(name, "gz"@);
    assert(name + ".gz"@ =~= name + seq!['.'] + "gz"@);
}

/// A file that is named after something else is no archive, nor is a compressed file in
/// the making.
pub proof fn law_no_archive(a: ArchiveV, name: Seq<char>)
    ensures
        !a.stem.is_prefix_of(name) ==> tag_in(a, name) is None,
        ".gz.tmp"@.is_suffix_of(name) ==> tag_in(a, name) is None,
        tag_in(a, name) matches Some(tag) ==> tag.len() > 0 && is_digit(tag.first()),
{
}

/// A live file is rolled before it would grow past its limit, and not before; without a
/// limit, or while it is empty, it never is. So a file is larger than its limit only if a
/// single line is.
pub proof fn law_rolls(r: Rotation, size: nat, len: nat)
    ensures
        r.max_bytes == 0 ==> !rolls(r, size, len),
        !rolls(r, 0, len),
        size + len <= r.max_bytes ==> !rolls(r, size, len),
        0 < r.max_bytes < size + len && size > 0 ==> rolls(r, size, len),
        r.max_bytes > 0 && !rolls(r, size, len) ==> size + len <= r.max_bytes || size == 0,
{
}

/// Of the files of an archive, the plain one comes before the compressed one.
pub proof fn law_plain_file_first(a: ArchiveV, names: Seq<Seq<char>>, i: int, j: int, k: int)
    requires
        0 <= i < archives(a, names).len(),
        0 <= j < k < archives(a, names)[i].1.len(),
    ensures
        is_gz(archives(a, names)[i].1[j]) ==> is_gz(archives(a, names)[i].1[k]),
{
    let t = archives(a, names)[i].0;
    let (x, y) = (with_tag(a, names, t, false), with_tag(a, names, t, true));
    let all = archives(a, names)[i].1;
    law_sorted_is_permutation::<String>(tags(a, names));
    assert(all == x + y);
    if j < x.len() {
        assert(x.contains(x[j]));
        lemma_filter(names, |m: Seq<char>| tag_in(a, m) == Some(t) && is_gz(m) == false, x[j]);
    } else {
        let n = y[k - x.len()];
        assert(y.contains(n));
        lemma_filter(names, |m: Seq<char>| tag_in(a, m) == Some(t) && is_gz(m) == true, n);
    }
}

} // verus!
