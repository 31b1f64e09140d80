//! Record of last-seen tags: a list of repository/tag pairs with
//! first-match lookup, single-entry upsert, and ordered merge.

use vstd::prelude::*;
use crate::str_eq;

verus! {

/// One stored observation: a repository and its last-seen tag.
struct RecordItem {
    repo: String,
    tag: String,
}

/// In-memory record of last-seen tags. Lookups take the first pair whose
/// repository matches; a missing repository reads as the empty tag.
pub struct Record {
    records: Vec<RecordItem>,
}

impl View for Record {
    type V = Seq<(Seq<char>, Seq<char>)>;

    closed spec fn view(&self) -> Seq<(Seq<char>, Seq<char>)> {
        self.records@.map_values(|it: RecordItem| (it.repo@, it.tag@))
    }
}

/// The tag stored for a repository: the first matching pair's tag, or the
/// empty sequence when the repository has no entry.
pub open spec fn lookup(s: Seq<(Seq<char>, Seq<char>)>, repo: Seq<char>) -> Seq<char>
    decreases s.len(),
{
    if s.len() == 0 {
        Seq::empty()
    } else if s[0].0 == repo {
        s[0].1
    } else {
        lookup(s.drop_first(), repo)
    }
}

/// Whether some pair carries this repository.
pub open spec fn has_repo(s: Seq<(Seq<char>, Seq<char>)>, repo: Seq<char>) -> bool {
    exists|i: int| 0 <= i < s.len() && s[i].0 == repo
}

/// Index of the first pair carrying this repository.
pub open spec fn first_index(s: Seq<(Seq<char>, Seq<char>)>, repo: Seq<char>) -> int
    decreases s.len(),
{
    if s.len() == 0 {
        0
    } else if s[0].0 == repo {
        0
    } else {
        1 + first_index(s.drop_first(), repo)
    }
}

/// Upsert: the first pair with this repository gets the new tag; with no
/// such pair, the pair is appended.
pub open spec fn upsert(
    s: Seq<(Seq<char>, Seq<char>)>,
    repo: Seq<char>,
    tag: Seq<char>,
) -> Seq<(Seq<char>, Seq<char>)> {
    if has_repo(s, repo) {
        s.update(first_index(s, repo), (repo, tag))
    } else {
        s.push((repo, tag))
    }
}

/// Merge: each update pair upserted in order, first to last.
pub open spec fn merge(
    s: Seq<(Seq<char>, Seq<char>)>,
    updates: Seq<(Seq<char>, Seq<char>)>,
) -> Seq<(Seq<char>, Seq<char>)>
    decreases updates.len(),
{
    if updates.len() == 0 {
        s
    } else {
        upsert(merge(s, updates.drop_last()), updates.last().0, updates.last().1)
    }
}

/// View of a vector of string pairs.
pub open spec fn pairs_view(s: Seq<(String, String)>) -> Seq<(Seq<char>, Seq<char>)> {
    s.map_values(|p: (String, String)| (p.0@, p.1@))
}

/// A first match at index `i` fixes the result of `lookup`.
pub proof fn lemma_lookup_first(s: Seq<(Seq<char>, Seq<char>)>, repo: Seq<char>, i: int)
    requires
        0 <= i < s.len(),
        s[i].0 == repo,
        forall|j: int| 0 <= j < i ==> s[j].0 != repo,
    ensures
        lookup(s, repo) == s[i].1,
    decreases i,
{
    if i > 0 {
        lemma_lookup_first(s.drop_first(), repo, i - 1);
    }
}

/// With no match anywhere, `lookup` reads the empty tag.
pub proof fn lemma_lookup_absent(s: Seq<(Seq<char>, Seq<char>)>, repo: Seq<char>)
    requires
        forall|j: int| 0 <= j < s.len() ==> s[j].0 != repo,
    ensures
        lookup(s, repo) == Seq::<char>::empty(),
    decreases s.len(),
{
    if s.len() > 0 {
        lemma_lookup_absent(s.drop_first(), repo);
    }
}

/// When the repository occurs, `first_index` names its first occurrence.
pub proof fn lemma_first_index_props(s: Seq<(Seq<char>, Seq<char>)>, repo: Seq<char>)
    requires
        has_repo(s, repo),
    ensures
        0 <= first_index(s, repo) < s.len(),
        s[first_index(s, repo)].0 == repo,
        forall|j: int| 0 <= j < first_index(s, repo) ==> s[j].0 != repo,
    decreases s.len(),
{
    if s[0].0 == repo {
    } else {
        let k = choose|k: int| 0 <= k < s.len() && s[k].0 == repo;
        assert(s.drop_first()[k - 1].0 == repo);
        lemma_first_index_props(s.drop_first(), repo);
        let fi = first_index(s, repo);
        assert forall|j: int| 0 <= j < fi implies s[j].0 != repo by {
            if j > 0 {
                assert(s.drop_first()[j - 1].0 != repo);
            }
        }
    }
}

/// What an upsert does to every later lookup: the upserted repository now
/// reads the new tag, every other repository reads as before.
pub proof fn lemma_lookup_upsert(
    s: Seq<(Seq<char>, Seq<char>)>,
    repo: Seq<char>,
    tag: Seq<char>,
    other: Seq<char>,
)
    ensures
        lookup(upsert(s, repo, tag), repo) == tag,
        other != repo ==> lookup(upsert(s, repo, tag), other) == lookup(s, other),
{
    let u = upsert(s, repo, tag);
    if has_repo(s, repo) {
        lemma_first_index_props(s, repo);
        let fi = first_index(s, repo);
        lemma_lookup_first(u, repo, fi);
        if other != repo {
            if has_repo(s, other) {
                lemma_first_index_props(s, other);
                let fo = first_index(s, other);
                lemma_lookup_first(s, other, fo);
                lemma_lookup_first(u, other, fo);
            } else {
                lemma_lookup_absent(s, other);
                assert(forall|j: int| 0 <= j < u.len() ==> u[j].0 == s[j].0);
                lemma_lookup_absent(u, other);
            }
        }
    } else {
        lemma_lookup_absent(s, repo);
        lemma_lookup_first(u, repo, s.len() as int);
        if other != repo {
            if has_repo(s, other) {
                lemma_first_index_props(s, other);
                let fo = first_index(s, other);
                lemma_lookup_first(s, other, fo);
                lemma_lookup_first(u, other, fo);
            } else {
                lemma_lookup_absent(s, other);
                lemma_lookup_absent(u, other);
            }
        }
    }
}

impl Record {
    /// A record with no entries: the state of a process that has observed
    /// nothing yet (missing durable storage reads as this).
    pub fn new() -> (r: Self)
        ensures
            r@ == Seq::<(Seq<char>, Seq<char>)>::empty(),
    {
        let r = Record { records: Vec::new() };
        proof {
            assert(r@ =~= Seq::<(Seq<char>, Seq<char>)>::empty());
        }
        r
    }

    /// Appends a pair as given, without looking for an existing entry.
    pub fn set(&mut self, repo: &str, tag: &str)
        ensures
            final(self)@ == old(self)@.push((repo@, tag@)),
    {
        let item = RecordItem { repo: repo.to_owned(), tag: tag.to_owned() };
        self.records.push(item);
        proof {
            assert(self@ =~~= old(self)@.push((repo@, tag@)));
        }
    }

    /// The tag stored for a repository; the empty string when it has none.
    pub fn get(&self, repo: &str) -> (r: String)
        ensures
            r@ == lookup(self@, repo@),
    {
        let n = self.records.len();
        let mut i: usize = 0;
        while i < n
            invariant
                i <= n,
                n == self.records@.len(),
                forall|j: int| 0 <= j < i ==> (#[trigger] self@[j]).0 != repo@,
            decreases n - i,
        {
            if str_eq(self.records[i].repo.as_str(), repo) {
                proof {
                    lemma_lookup_first(self@, repo@, i as int);
                }
                return self.records[i].tag.clone();
            }
            i += 1;
        }
        proof {
            lemma_lookup_absent(self@, repo@);
        }
        String::new()
    }

    /// All stored pairs, in storage order.
    pub fn get_map(&self) -> (r: Vec<(String, String)>)
        ensures
            pairs_view(r@) == self@,
    {
        let mut out: Vec<(String, String)> = Vec::new();
        let n = self.records.len();
        let mut i: usize = 0;
        while i < n
            invariant
                i <= n,
                n == self.records@.len(),
                out@.len() == i,
                forall|j: int| 0 <= j < i ==> (#[trigger] out@[j]).0@ == self@[j].0
                    && out@[j].1@ == self@[j].1,
            decreases n - i,
        {
            let item = &self.records[i];
            out.push((item.repo.clone(), item.tag.clone()));
            i += 1;
        }
        proof {
            assert forall|j: int| 0 <= j < out@.len() implies #[trigger] pairs_view(out@)[j]
                == self@[j] by {}
            assert(pairs_view(out@) =~~= self@);
        }
        out
    }

    /// Upserts one observation: the first entry for the repository gets the
    /// new tag, or a new entry is appended.
    pub fn set_tag(&mut self, repo: &str, tag: &str)
        ensures
            final(self)@ == upsert(old(self)@, repo@, tag@),
    {
        let n = self.records.len();
        let mut i: usize = 0;
        while i < n
            invariant
                i <= n,
                n == self.records@.len(),
                self@ == old(self)@,
                forall|j: int| 0 <= j < i ==> (#[trigger] self@[j]).0 != repo@,
            decreases n - i,
        {
            if str_eq(self.records[i].repo.as_str(), repo) {
                proof {
                    assert(self@[i as int].0 == repo@);
                    assert(has_repo(self@, repo@));
                    lemma_first_index_unique(self@, repo@, i as int);
                }
                self.records[i].tag = tag.to_owned();
                proof {
                    assert(self@ =~~= upsert(old(self)@, repo@, tag@));
                }
                return;
            }
            i += 1;
        }
        let item = RecordItem { repo: repo.to_owned(), tag: tag.to_owned() };
        self.records.push(item);
        proof {
            assert(!has_repo(old(self)@, repo@));
            assert(self@ =~~= upsert(old(self)@, repo@, tag@));
        }
    }

    /// Merges a batch of observations in order, each with upsert semantics.
    pub fn set_map(&mut self, map: Vec<(String, String)>)
        ensures
            final(self)@ == merge(old(self)@, pairs_view(map@)),
    {
        let n = map.len();
        let mut k: usize = 0;
        while k < n
            invariant
                k <= n,
                n == map@.len(),
                self@ == merge(old(self)@, pairs_view(map@).take(k as int)),
            decreases n - k,
        {
            self.set_tag(map[k].0.as_str(), map[k].1.as_str());
            proof {
                assert(pairs_view(map@)[k as int] == (map@[k as int].0@, map@[k as int].1@));
                assert(pairs_view(map@).take(k as int + 1).drop_last()
                    =~~= pairs_view(map@).take(k as int));
                assert(pairs_view(map@).take(k as int + 1).last()
                    == pairs_view(map@)[k as int]);
            }
            k += 1;
        }
        proof {
            assert(pairs_view(map@).take(n as int) =~~= pairs_view(map@));
        }
    }
}

/// A first occurrence at `i` makes `first_index` equal `i`.
proof fn lemma_first_index_unique(s: Seq<(Seq<char>, Seq<char>)>, repo: Seq<char>, i: int)
    requires
        0 <= i < s.len(),
        s[i].0 == repo,
        forall|j: int| 0 <= j < i ==> s[j].0 != repo,
    ensures
        first_index(s, repo) == i,
    decreases i,
{
    if i > 0 {
        lemma_first_index_unique(s.drop_first(), repo, i - 1);
    }
}

} // verus!
