//! API keys of backends.
use crate::discovery::{normalize_base_url, normalized};
use crate::text::{chars_of, starts_with};
use vstd::prelude::*;
use vstd::string::*;

verus! {

/// API keys of backends, by base URL or prefix of one.
#[derive(Debug, Clone)]
pub struct Credentials {
    entries: Vec<(String, String)>,
}

/// What [`Credentials`] stand for: prefixes and keys.
pub type CredentialsV = Seq<(Seq<char>, Seq<char>)>;

impl View for Credentials {
    type V = CredentialsV;

    closed spec fn view(&self) -> CredentialsV {
        self.entries.deep_view()
    }
}

/// The index of the entry for a base URL: of those whose prefix it starts with
/// the one with the longest, and of these the first.
pub open spec fn key_index(c: CredentialsV, url: Seq<char>) -> Option<int>
    decreases c.len(),
{
    if c.len() == 0 {
        None
    } else {
        let before = key_index(c.drop_last(), url);
        if !c.last().0.is_prefix_of(url) {
            before
        } else {
            match before {
                Some(i) if c[i].0.len() >= c.last().0.len() => before,
                _ => Some(c.len() - 1),
            }
        }
    }
}

/// The key for a base URL.
pub open spec fn key_for(c: CredentialsV, url: Seq<char>) -> Option<Seq<char>> {
    match key_index(c, url) {
        Some(i) => Some(c[i].1),
        None => None,
    }
}

/// Entries with their URLs normalized.
pub open spec fn with_urls_normalized(entries: CredentialsV) -> CredentialsV {
    entries.map_values(|e: (Seq<char>, Seq<char>)| (normalized(e.0), e.1))
}

impl Credentials {
    /// The keys of `entries`, pairs of a base URL (or a prefix of one) and a key.
    /// Trailing slashes do not count, and `http://` is the default scheme.
    pub fn new(entries: Vec<(String, String)>) -> (r: Self)
        ensures
            r@ == entries.deep_view().map_values(
                |e: (Seq<char>, Seq<char>)| (normalized(e.0), e.1),
            ),
            r@ == with_urls_normalized(entries.deep_view()),
    {
        let ghost all = entries@;
        let ghost s = entries.deep_view();
        let ghost f = |e: (Seq<char>, Seq<char>)| (normalized(e.0), e.1);
        let mut out: Vec<(String, String)> = Vec::new();
        for x in it: entries
            invariant
                it.seq() == all,
                s.len() == all.len(),
                forall|i: int| 0 <= i < all.len() ==> s[i] == all[i].deep_view(),
                out@.len() == it.index(),
                forall|i: int|
                    0 <= i < it.index() ==> out@[i].deep_view() == (normalized(s[i].0), s[i].1),
        {
            let (url, key) = x;
            out.push((normalize_base_url(url.as_str()), key));
        }
        proof {
            assert(out.deep_view() =~= s.map_values(f));
        }
        Credentials { entries: out }
    }

    /// The key for a base URL: the one of the longest matching prefix.
    pub fn for_url(&self, base_url: &str) -> (r: Option<&str>)
        ensures
            match r {
                Some(k) => key_for(self@, base_url@) == Some(k@),
                None => key_for(self@, base_url@) is None,
            },
    {
        let ghost c = self@;
        let url = chars_of(base_url);
        let mut best: Option<usize> = None;
        let mut best_len: usize = 0;
        let mut i: usize = 0;
        while i < self.entries.len()
            invariant
                i <= self.entries@.len(),
                c == self.entries.deep_view(),
                url@ == base_url@,
                match best {
                    Some(b) => b < i && key_index(c.take(i as int), url@) == Some(b as int)
                        && best_len == c[b as int].0.len(),
                    None => key_index(c.take(i as int), url@) is None,
                },
            decreases self.entries@.len() - i,
        {
            proof {
                assert(c.take(i + 1).drop_last() =~= c.take(i as int));
                assert(c.take(i + 1).last() == self.entries@[i as int].deep_view());
            }
            let prefix = chars_of(self.entries[i].0.as_str());
            if starts_with(url.as_slice(), prefix.as_slice()) {
                let longer = match best {
                    Some(_) => prefix.len() > best_len,
                    None => true,
                };
                if longer {
                    best = Some(i);
                    best_len = prefix.len();
                }
            }
            i = i + 1;
        }
        proof {
            assert(c.take(i as int) =~= c);
        }
        match best {
            Some(b) => Some(self.entries[b].1.as_str()),
            None => None,
        }
    }

    /// Whether there is no key.
    pub fn is_empty(&self) -> (r: bool)
        ensures
            r == (self@.len() == 0),
    {
        self.entries.len() == 0
    }

    /// The number of keys.
    pub fn len(&self) -> (r: usize)
        ensures
            r == self@.len(),
    {
        self.entries.len()
    }
}

impl Default for Credentials {
    fn default() -> (r: Self)
        ensures
            r@ == CredentialsV::empty(),
    {
        let r = Credentials { entries: Vec::new() };
        proof {
            assert(r@ =~= CredentialsV::empty());
        }
        r
    }
}

/// The key for a URL is one of a prefix of it, and no longer prefix has another.
pub proof fn law_longest_prefix_wins(c: CredentialsV, url: Seq<char>)
    ensures
        match key_index(c, url) {
            Some(i) => 0 <= i < c.len() && c[i].0.is_prefix_of(url) && forall|j: int|
                0 <= j < c.len() && (#[trigger] c[j]).0.is_prefix_of(url) ==> c[j].0.len()
                    <= c[i].0.len(),
            None => forall|j: int| 0 <= j < c.len() ==> !(#[trigger] c[j]).0.is_prefix_of(url),
        },
    decreases c.len(),
{
    if c.len() > 0 {
        let rest = c.drop_last();
        law_longest_prefix_wins(rest, url);
        assert forall|j: int| 0 <= j < rest.len() implies rest[j] == #[trigger] c[j] by {}
        if key_index(c, url) is None {
            assert forall|j: int| 0 <= j < c.len() implies !(#[trigger] c[j]).0.is_prefix_of(
                url,
            ) by {
                if j < rest.len() {
                    assert(!rest[j].0.is_prefix_of(url));
                }
            }
        } else {
            let i = key_index(c, url)->0;
            assert forall|j: int|
                0 <= j < c.len() && (#[trigger] c[j]).0.is_prefix_of(url) implies c[j].0.len()
                <= c[i].0.len() by {
                if j < rest.len() {
                    assert(rest[j].0.is_prefix_of(url));
                }
            }
        }
    }
}

/// Of entries for the same prefix the first one counts.
pub proof fn law_first_entry_counts(c: CredentialsV, url: Seq<char>, j: int)
    ensures
        key_index(c, url) matches Some(i) ==> (0 <= j < i && c[j].0.is_prefix_of(url)
            ==> c[j].0.len() < c[i].0.len()),
    decreases c.len(),
{
    if c.len() > 0 {
        let rest = c.drop_last();
        law_first_entry_counts(rest, url, j);
        law_longest_prefix_wins(rest, url);
        assert(0 <= j < rest.len() ==> rest[j] == c[j]);
        if let Some(i) = key_index(rest, url) {
            assert(rest[i] == c[i]);
        }
    }
}

/// The key for a URL is that of the entry that was found for it.
pub proof fn law_key_of_entry(c: CredentialsV, url: Seq<char>, i: int)
    requires
        0 <= i < c.len(),
        c[i].0.is_prefix_of(url),
        forall|j: int|
            0 <= j < c.len() && j != i ==> !(#[trigger] c[j]).0.is_prefix_of(url) || c[j].0.len()
                < c[i].0.len(),
    ensures
        key_for(c, url) == Some(c[i].1),
{
    law_longest_prefix_wins(c, url);
}

/// Each entry keeps its place and its key, and its URL is the one that the backend is
/// reached by.
pub proof fn law_entries_kept(entries: CredentialsV, i: int)
    requires
        0 <= i < entries.len(),
    ensures
        with_urls_normalized(entries).len() == entries.len(),
        with_urls_normalized(entries)[i].1 == entries[i].1,
        with_urls_normalized(entries)[i].0 == normalized(entries[i].0),
{
}

} // verus!
