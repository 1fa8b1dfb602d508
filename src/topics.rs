//! Assembling the topic manifest: descriptions gathered from pull requests,
//! page by page, and the record kept for each topic.

use vstd::prelude::*;
use vstd::slice::{slice_subrange, slice_to_vec};
use crate::section::{affected_marker, extract_topic_description, spec_section, topic_marker, DASH};
use crate::stanza::{bytes_eq, values_view};

verus! {

/// How many pull requests a full page of the listing holds; a shorter page is
/// the last one.
pub const PAGE_SIZE: usize = 100;

/// Text decoded from bytes, each invalid UTF-8 sequence replaced by U+FFFD.
pub uninterp spec fn lossy_text(b: Seq<u8>) -> Seq<char>;

/// Relies on `String::from_utf8_lossy`: the text depends on the bytes alone.
#[verifier::external_body]
fn decode_lossy(b: &[u8]) -> (r: String)
    ensures
        r@ == lossy_text(b@),
{
    String::from_utf8_lossy(b).into_owned()
}

/// A pull request of the listing: the branch it comes from and its body.
pub struct PullRequest {
    pub branch: String,
    pub body: Vec<u8>,
}

/// The description that a pull-request body gives, if its section is found.
pub open spec fn body_description(body: Seq<u8>) -> Option<Seq<char>> {
    match spec_section(body, topic_marker(), DASH, affected_marker()) {
        Ok((_, span)) => Some(lossy_text(span)),
        Err(_) => None,
    }
}

/// Descriptions keyed by branch name. Each branch appears once.
pub struct Descriptions {
    pub entries: Vec<(String, String)>,
}

impl Descriptions {
    pub open spec fn has_key_at(&self, k: Seq<char>, i: int) -> bool {
        0 <= i < self.entries@.len() && self.entries@[i].0@ == k
    }

    /// Branch names are unique.
    pub open spec fn wf(&self) -> bool {
        forall|i: int, j: int|
            0 <= i < self.entries@.len() && 0 <= j < self.entries@.len() && i != j
                ==> self.entries@[i].0@ != self.entries@[j].0@
    }

    pub open spec fn view(&self) -> Map<Seq<char>, Seq<char>> {
        Map::new(
            |k: Seq<char>| exists|i: int| self.has_key_at(k, i),
            |k: Seq<char>| self.entries@[choose|i: int| self.has_key_at(k, i)].1@,
        )
    }

    pub proof fn lemma_view_at(&self, i: int)
        requires
            self.wf(),
            0 <= i < self.entries@.len(),
        ensures
            self@.contains_key(self.entries@[i].0@),
            self@[self.entries@[i].0@] == self.entries@[i].1@,
    {
        let k = self.entries@[i].0@;
        assert(self.has_key_at(k, i));
        let c = choose|c: int| self.has_key_at(k, c);
        assert(c == i);
    }

    pub fn new() -> (r: Descriptions)
        ensures
            r.wf(),
            r@ == Map::<Seq<char>, Seq<char>>::empty(),
    {
        let r = Descriptions { entries: Vec::new() };
        assert(r@ =~= Map::<Seq<char>, Seq<char>>::empty());
        r
    }

    /// An update that sets the entry at `i` to `k` and `v` and keeps the
    /// entries of every other key inserts `k` into the view.
    proof fn lemma_insert_view(before: &Descriptions, after: &Descriptions, k: Seq<char>, v: Seq<char>, i: int)
        requires
            before.wf(),
            after.wf(),
            after.has_key_at(k, i),
            after.entries@[i].1@ == v,
            forall|key: Seq<char>, j: int|
                key != k ==> (after.has_key_at(key, j) <==> before.has_key_at(key, j)),
            forall|j: int|
                0 <= j < after.entries@.len() && after.entries@[j].0@ != k
                    ==> after.entries@[j].1@ == before.entries@[j].1@,
        ensures
            after@ == before@.insert(k, v),
    {
        assert forall|key: Seq<char>| after@.contains_key(key) <==> before@.insert(k, v).contains_key(key) by {
            if key == k {
                assert(after.has_key_at(k, i));
            } else {
                if after@.contains_key(key) {
                    let j = choose|j: int| after.has_key_at(key, j);
                    assert(before.has_key_at(key, j));
                }
                if before@.contains_key(key) {
                    let j = choose|j: int| before.has_key_at(key, j);
                    assert(after.has_key_at(key, j));
                }
            }
        }
        assert forall|key: Seq<char>| after@.contains_key(key) implies after@[key] == before@.insert(k, v)[key] by {
            let j = choose|j: int| after.has_key_at(key, j);
            after.lemma_view_at(j);
            if key == k {
                after.lemma_view_at(i);
            } else {
                assert(before.has_key_at(key, j));
                before.lemma_view_at(j);
            }
        }
        assert(after@ =~= before@.insert(k, v));
    }

    /// Sets the description of `branch`, replacing the one it had.
    pub fn insert(&mut self, branch: String, text: String)
        requires
            old(self).wf(),
        ensures
            final(self).wf(),
            final(self)@ == old(self)@.insert(branch@, text@),
    {
        let ghost k = branch@;
        let ghost v = text@;
        let ghost before = *self;
        let mut i: usize = 0;
        while i < self.entries.len()
            invariant
                k == branch@,
                v == text@,
                self.wf(),
                self.entries@ == before.entries@,
                before.wf(),
                before@ == old(self)@,
                i <= self.entries@.len(),
                forall|j: int| 0 <= j < i ==> self.entries@[j].0@ != k,
            decreases self.entries.len() - i,
        {
            if self.entries[i].0 == branch {
                self.entries[i] = (branch, text);
                proof {
                    Self::lemma_insert_view(&before, self, k, v, i as int);
                }
                return;
            }
            i = i + 1;
        }
        self.entries.push((branch, text));
        proof {
            Self::lemma_insert_view(&before, self, k, v, before.entries@.len() as int);
        }
    }

    /// The description of `branch`, if there is one.
    pub fn get(&self, branch: &String) -> (r: Option<&String>)
        requires
            self.wf(),
        ensures
            match r {
                Some(text) => self@.contains_key(branch@) && self@[branch@] == text@,
                None => !self@.contains_key(branch@),
            },
    {
        let mut i: usize = 0;
        while i < self.entries.len()
            invariant
                self.wf(),
                i <= self.entries@.len(),
                forall|j: int| 0 <= j < i ==> self.entries@[j].0@ != branch@,
            decreases self.entries.len() - i,
        {
            if self.entries[i].0 == *branch {
                proof {
                    self.lemma_view_at(i as int);
                }
                return Some(&self.entries[i].1);
            }
            i = i + 1;
        }
        None
    }
}

/// The descriptions after the pull requests of a page were recorded in order:
/// each one whose body has a description section sets the description of
/// its branch.
pub open spec fn record_pulls(m: Map<Seq<char>, Seq<char>>, pulls: Seq<PullRequest>) -> Map<
    Seq<char>,
    Seq<char>,
>
    decreases pulls.len(),
{
    if pulls.len() == 0 {
        m
    } else {
        let before = record_pulls(m, pulls.drop_last());
        let last = pulls.last();
        match body_description(last.body@) {
            Some(text) => before.insert(last.branch@, text),
            None => before,
        }
    }
}

/// Records the descriptions of one fetched page of pull requests and says
/// which page to fetch next: none once a page comes back shorter than
/// `PAGE_SIZE`.
pub fn fetch_descriptions(descriptions: &mut Descriptions, page: usize, pulls: Vec<PullRequest>) -> (r: Option<usize>)
    requires
        old(descriptions).wf(),
        page < usize::MAX,
    ensures
        final(descriptions).wf(),
        final(descriptions)@ == record_pulls(old(descriptions)@, pulls@),
        r == if pulls@.len() < PAGE_SIZE {
            None::<usize>
        } else {
            Some((page + 1) as usize)
        },
{
    let n = pulls.len();
    let mut i: usize = 0;
    while i < n
        invariant
            n == pulls@.len(),
            i <= n,
            descriptions.wf(),
            descriptions@ == record_pulls(old(descriptions)@, pulls@.subrange(0, i as int)),
        decreases n - i,
    {
        let pull = &pulls[i];
        proof {
            assert(pulls@.subrange(0, i + 1).drop_last() =~= pulls@.subrange(0, i as int));
        }
        match extract_topic_description(pull.body.as_slice()) {
            Ok((_, span)) => {
                descriptions.insert(pull.branch.clone(), decode_lossy(span));
            },
            Err(_) => {},
        }
        i = i + 1;
    }
    assert(pulls@.subrange(0, n as int) =~= pulls@);
    if n < PAGE_SIZE {
        None
    } else {
        Some(page + 1)
    }
}

/// A topic's entry in the manifest.
pub struct TopicManifest {
    pub name: String,
    pub description: Option<String>,
    /// When the topic's directory was made, in seconds since the Unix epoch.
    pub date: u64,
    pub arch: Vec<String>,
    pub packages: Vec<String>,
}

impl TopicManifest {
    /// Takes the description of the branch that has the topic's name, where
    /// there is one; otherwise the description stays as it was.
    pub fn attach_description(&mut self, descriptions: &Descriptions)
        requires
            descriptions.wf(),
        ensures
            final(self).name == old(self).name,
            final(self).date == old(self).date,
            final(self).arch == old(self).arch,
            final(self).packages == old(self).packages,
            descriptions@.contains_key(old(self).name@) ==> (final(self).description matches Some(
                d,
            ) && d@ == descriptions@[old(self).name@]),
            !descriptions@.contains_key(old(self).name@) ==> final(self).description == old(
                self,
            ).description,
    {
        match descriptions.get(&self.name) {
            Some(text) => {
                self.description = Some(text.clone());
            },
            None => {},
        }
    }
}

/// The bytes of `stable`.
pub open spec fn stable_name() -> Seq<u8> {
    seq![115u8, 116u8, 97u8, 98u8, 108u8, 101u8]
}

/// The bytes of `binary-`.
pub open spec fn binary_prefix() -> Seq<u8> {
    seq![98u8, 105u8, 110u8, 97u8, 114u8, 121u8, 45u8]
}

/// Whether a directory under the distribution tree is a topic: every one is
/// but `stable`.
pub fn is_topic_name(name: &[u8]) -> (r: bool)
    ensures
        r == (name@ != stable_name()),
{
    let stable = "stable".as_bytes();
    proof {
        reveal_strlit("stable");
        vstd::string::is_ascii_spec_bytes("stable");
    }
    assert(stable@ =~= stable_name());
    !bytes_eq(name, stable)
}

/// The architecture that a directory of a topic holds the index of: the part
/// of its name after `binary-`, or none for a name without that prefix.
pub fn arch_of_dir(dir_name: &[u8]) -> (r: Option<&[u8]>)
    ensures
        match r {
            Some(arch) => dir_name@.len() >= binary_prefix().len() && dir_name@ == binary_prefix()
                + arch@,
            None => !(dir_name@.len() >= binary_prefix().len() && dir_name@.subrange(
                0,
                binary_prefix().len() as int,
            ) == binary_prefix()),
        },
{
    let prefix = "binary-".as_bytes();
    proof {
        reveal_strlit("binary-");
        vstd::string::is_ascii_spec_bytes("binary-");
    }
    assert(prefix@ =~= binary_prefix());
    if dir_name.len() < prefix.len() {
        return None;
    }
    let head = slice_subrange(dir_name, 0, prefix.len());
    if bytes_eq(head, prefix) {
        let arch = slice_subrange(dir_name, prefix.len(), dir_name.len());
        assert(dir_name@ =~= binary_prefix() + arch@);
        Some(arch)
    } else {
        None
    }
}

/// The byte strings of a list of names.
pub open spec fn names_view(v: Seq<Vec<u8>>) -> Seq<Seq<u8>> {
    v.map_values(|n: Vec<u8>| n@)
}

/// Adds each of `names` that `all` does not hold yet, in order, to the end
/// of `all`. A list without repeats stays without repeats.
pub fn merge_names(all: &mut Vec<Vec<u8>>, names: &Vec<&[u8]>)
    requires
        names_view(old(all)@).no_duplicates(),
    ensures
        names_view(final(all)@).no_duplicates(),
        names_view(final(all)@).subrange(0, old(all)@.len() as int) == names_view(old(all)@),
        forall|x: Seq<u8>|
            #![trigger names_view(final(all)@).contains(x)]
            names_view(final(all)@).contains(x) <==> (names_view(old(all)@).contains(x)
                || values_view(names@).contains(x)),
{
    let mut i: usize = 0;
    while i < names.len()
        invariant
            i <= names@.len(),
            names_view(all@).no_duplicates(),
            old(all)@.len() <= all@.len(),
            names_view(all@).subrange(0, old(all)@.len() as int) == names_view(old(all)@),
            forall|x: Seq<u8>|
                #![trigger names_view(all@).contains(x)]
                names_view(all@).contains(x) <==> (names_view(old(all)@).contains(x)
                    || values_view(names@).subrange(0, i as int).contains(x)),
        decreases names.len() - i,
    {
        let name = names[i];
        let mut j: usize = 0;
        let mut found = false;
        while j < all.len()
            invariant_except_break
                !found,
            invariant
                j <= all@.len(),
                forall|m: int| 0 <= m < j ==> all@[m]@ != name@,
            ensures
                found ==> j < all@.len() && all@[j as int]@ == name@,
                !found ==> j == all@.len(),
            decreases all.len() - j,
        {
            if bytes_eq(all[j].as_slice(), name) {
                found = true;
                break;
            }
            j = j + 1;
        }
        let ghost before = all@;
        let ghost done = values_view(names@).subrange(0, i as int);
        let ghost next = values_view(names@).subrange(0, i + 1);
        proof {
            assert(next =~= done.push(name@));
        }
        if !found {
            all.push(slice_to_vec(name));
            proof {
                let nv = names_view(all@);
                assert(nv =~= names_view(before).push(name@));
                assert(!names_view(before).contains(name@)) by {
                    if names_view(before).contains(name@) {
                        let m = choose|m: int| 0 <= m < names_view(before).len() && names_view(before)[m] == name@;
                        assert(before[m]@ == name@);
                    }
                }
                assert(nv.subrange(0, old(all)@.len() as int) =~= names_view(before).subrange(0, old(all)@.len() as int));
                assert forall|x: Seq<u8>| #[trigger] nv.contains(x) <==> (names_view(old(all)@).contains(x) || next.contains(x)) by {
                    if x == name@ {
                        assert(nv[before.len() as int] == x);
                        assert(next[i as int] == x);
                    } else {
                        if nv.contains(x) {
                            let m = choose|m: int| 0 <= m < nv.len() && nv[m] == x;
                            assert(names_view(before)[m] == x);
                        }
                        if names_view(before).contains(x) {
                            let m = choose|m: int| 0 <= m < names_view(before).len() && names_view(before)[m] == x;
                            assert(nv[m] == x);
                        }
                        if next.contains(x) {
                            let m = choose|m: int| 0 <= m < next.len() && next[m] == x;
                            assert(done[m] == x);
                        }
                        if done.contains(x) {
                            let m = choose|m: int| 0 <= m < done.len() && done[m] == x;
                            assert(next[m] == x);
                        }
                    }
                }
            }
        } else {
            proof {
                let nv = names_view(all@);
                assert(nv[j as int] == name@);
                assert forall|x: Seq<u8>| #[trigger] nv.contains(x) <==> (names_view(old(all)@).contains(x) || next.contains(x)) by {
                    if x == name@ {
                        assert(next[i as int] == x);
                    } else {
                        if next.contains(x) {
                            let m = choose|m: int| 0 <= m < next.len() && next[m] == x;
                            assert(done[m] == x);
                        }
                        if done.contains(x) {
                            let m = choose|m: int| 0 <= m < done.len() && done[m] == x;
                            assert(next[m] == x);
                        }
                    }
                }
            }
        }
        i = i + 1;
    }
    assert(values_view(names@).subrange(0, names@.len() as int) =~= values_view(names@));
}

} // verus!
