use std::collections::HashMap;

use vstd::prelude::*;
use vstd::string::StrSliceExecFns;

verus! {

/// The Unicode White_Space property, which `char::is_whitespace` and `str::trim`
/// go by.
pub open spec fn is_white(c: char) -> bool {
    ||| '\u{9}' <= c <= '\u{d}'
    ||| c == ' '
    ||| c == '\u{85}'
    ||| c == '\u{a0}'
    ||| c == '\u{1680}'
    ||| '\u{2000}' <= c <= '\u{200a}'
    ||| c == '\u{2028}'
    ||| c == '\u{2029}'
    ||| c == '\u{202f}'
    ||| c == '\u{205f}'
    ||| c == '\u{3000}'
}

/// What `str::to_lowercase` makes of a string.
pub uninterp spec fn lower_of(s: Seq<char>) -> Seq<char>;

/// `s` without its leading whitespace.
pub open spec fn strip_front(s: Seq<char>) -> Seq<char>
    decreases s.len(),
{
    if s.len() > 0 && is_white(s[0]) {
        strip_front(s.drop_first())
    } else {
        s
    }
}

/// `s` without its trailing whitespace.
pub open spec fn strip_back(s: Seq<char>) -> Seq<char>
    decreases s.len(),
{
    if s.len() > 0 && is_white(s.last()) {
        strip_back(s.drop_last())
    } else {
        s
    }
}

/// `s` without leading and trailing whitespace.
pub open spec fn trimmed(s: Seq<char>) -> Seq<char> {
    strip_back(strip_front(s))
}

pub open spec fn has_white(s: Seq<char>) -> bool {
    exists|i: int| 0 <= i < s.len() && is_white(#[trigger] s[i])
}

/// The word a line of a word list stands for: the line trimmed and lowercased,
/// unless that is empty or holds whitespace inside.
pub open spec fn word_of_line(l: Seq<char>) -> Option<Seq<char>> {
    let w = lower_of(trimmed(l));
    if w.len() == 0 || has_white(w) {
        None
    } else {
        Some(w)
    }
}

/// Whether `c` has the White_Space property.
fn is_whitespace(c: char) -> (r: bool)
    ensures
        r == is_white(c),
{
    ('\u{9}' <= c && c <= '\u{d}') || c == ' ' || c == '\u{85}' || c == '\u{a0}' || c
        == '\u{1680}' || ('\u{2000}' <= c && c <= '\u{200a}') || c == '\u{2028}' || c
        == '\u{2029}' || c == '\u{202f}' || c == '\u{205f}' || c == '\u{3000}'
}

/// Stripping the front of `s` removes exactly its first `a` characters, when
/// those are whitespace and the next one is not.
proof fn lemma_strip_front(s: Seq<char>, a: int)
    requires
        0 <= a <= s.len(),
        forall|k: int| 0 <= k < a ==> is_white(#[trigger] s[k]),
        a == s.len() || !is_white(s[a]),
    ensures
        strip_front(s) == s.subrange(a, s.len() as int),
    decreases a,
{
    if a == 0 {
        assert(s.subrange(0, s.len() as int) =~= s);
    } else {
        let t = s.drop_first();
        assert forall|k: int| 0 <= k < a - 1 implies is_white(#[trigger] t[k]) by {
            assert(t[k] == s[k + 1]);
        }
        if a - 1 < t.len() {
            assert(t[a - 1] == s[a]);
        }
        lemma_strip_front(t, a - 1);
        assert(t.subrange(a - 1, t.len() as int) =~= s.subrange(a, s.len() as int));
    }
}

/// Stripping the back of `s` keeps exactly its first `b` characters, when the
/// rest are whitespace and the one before them is not.
proof fn lemma_strip_back(s: Seq<char>, b: int)
    requires
        0 <= b <= s.len(),
        forall|k: int| b <= k < s.len() ==> is_white(#[trigger] s[k]),
        b == 0 || !is_white(s[b - 1]),
    ensures
        strip_back(s) == s.subrange(0, b),
    decreases s.len() - b,
{
    if b == s.len() {
        assert(s.subrange(0, b) =~= s);
        if s.len() > 0 {
            assert(s.last() == s[b - 1]);
        }
    } else {
        let t = s.drop_last();
        assert(is_white(s[s.len() - 1]));
        assert forall|k: int| b <= k < t.len() implies is_white(#[trigger] t[k]) by {
            assert(t[k] == s[k]);
        }
        if b > 0 {
            assert(t[b - 1] == s[b - 1]);
        }
        lemma_strip_back(t, b);
        assert(t.subrange(0, b) =~= s.subrange(0, b));
    }
}

/// `s` without leading and trailing whitespace.
fn trim(s: &str) -> (r: &str)
    ensures
        r@ == trimmed(s@),
{
    let n = s.unicode_len();
    let mut a: usize = 0;
    while a < n
        invariant
            n == s@.len(),
            a <= n,
            forall|k: int| 0 <= k < a ==> is_white(#[trigger] s@[k]),
        ensures
            a <= n,
            forall|k: int| 0 <= k < a ==> is_white(#[trigger] s@[k]),
            a == n || !is_white(s@[a as int]),
        decreases n - a,
    {
        if !is_whitespace(s.get_char(a)) {
            break;
        }
        a += 1;
    }
    let mut b: usize = n;
    while b > a
        invariant
            n == s@.len(),
            a <= b <= n,
            forall|k: int| b <= k < n ==> is_white(#[trigger] s@[k]),
        ensures
            a <= b <= n,
            forall|k: int| b <= k < n ==> is_white(#[trigger] s@[k]),
            b == a || !is_white(s@[b - 1]),
        decreases b - a,
    {
        if !is_whitespace(s.get_char(b - 1)) {
            break;
        }
        b -= 1;
    }
    proof {
        lemma_strip_front(s@, a as int);
        let t = s@.subrange(a as int, n as int);
        assert forall|k: int| b - a <= k < t.len() implies is_white(#[trigger] t[k]) by {
            assert(t[k] == s@[k + a]);
        }
        if b > a {
            assert(t[b - a - 1] == s@[b - 1]);
        }
        lemma_strip_back(t, (b - a) as int);
        assert(t.subrange(0, (b - a) as int) =~= s@.subrange(a as int, b as int));
    }
    s.substring_char(a, b)
}

/// Relies on `str::to_lowercase`: the result depends on the characters alone.
#[verifier::external_body]
fn to_lower(s: &str) -> (r: String)
    ensures
        r@ == lower_of(s@),
{
    s.to_lowercase()
}

/// Whether some character of `s` is whitespace.
fn contains_whitespace(s: &str) -> (r: bool)
    ensures
        r == has_white(s@),
{
    let n = s.unicode_len();
    let mut i: usize = 0;
    while i < n
        invariant
            n == s@.len(),
            i <= n,
            forall|k: int| 0 <= k < i ==> !is_white(#[trigger] s@[k]),
        decreases n - i,
    {
        if is_whitespace(s.get_char(i)) {
            return true;
        }
        i += 1;
    }
    false
}

/// Accepts an already trimmed and lowercased line as a word unless it is empty
/// or holds whitespace.
pub fn check_word(w: String) -> (r: Option<String>)
    ensures
        match r {
            Some(v) => v@ == w@ && w@.len() > 0 && !has_white(w@),
            None => w@.len() == 0 || has_white(w@),
        },
{
    if w.as_str().unicode_len() == 0 || contains_whitespace(w.as_str()) {
        None
    } else {
        Some(w)
    }
}

/// Parses one line of a word list; see `word_of_line`.
pub fn line_to_word(l: &str) -> (r: Option<String>)
    ensures
        match r {
            Some(w) => word_of_line(l@) == Some(w@),
            None => word_of_line(l@) is None,
        },
{
    check_word(to_lower(trim(l)))
}

/// Polynomial hash of a word's characters, modulo 2^64.
pub open spec fn word_hash(s: Seq<char>) -> u64
    decreases s.len(),
{
    if s.len() == 0 {
        0
    } else {
        ((word_hash(s.drop_last()) as int * 31 + s.last() as int) % 0x10000000000000000) as u64
    }
}

fn hash_word(s: &str) -> (r: u64)
    ensures
        r == word_hash(s@),
{
    let n = s.unicode_len();
    let mut h: u64 = 0;
    let mut i: usize = 0;
    assert(s@.take(0) =~= Seq::<char>::empty());
    while i < n
        invariant
            n == s@.len(),
            i <= n,
            h == word_hash(s@.take(i as int)),
        decreases n - i,
    {
        let c = s.get_char(i);
        h = (((h as u128) * 31 + (c as u128)) % 0x10000000000000000u128) as u64;
        assert(s@.take(i + 1).drop_last() =~= s@.take(i as int));
        assert(s@.take(i + 1).last() == c);
        i += 1;
    }
    assert(s@.take(n as int) =~= s@);
    h
}

/// A set of known words.
pub struct WordStorage {
    words: Vec<String>,
    buckets: HashMap<u64, Vec<usize>>,
}

impl WordStorage {
    /// The stored words, in order of insertion.
    pub closed spec fn view_words(&self) -> Seq<Seq<char>> {
        self.words@.map_values(|s: String| s@)
    }

    pub closed spec fn wf(&self) -> bool {
        &&& self.view_words().no_duplicates()
        &&& forall|i: int|
            #![trigger self.words@[i]]
            0 <= i < self.words@.len() ==> self.buckets@.contains_key(word_hash(self.words@[i]@))
                && self.buckets@[word_hash(self.words@[i]@)]@.contains(i as usize)
        &&& forall|k: u64, j: int|
            #![trigger self.buckets@[k]@[j]]
            self.buckets@.contains_key(k) && 0 <= j < self.buckets@[k]@.len()
                ==> self.buckets@[k]@[j] < self.words@.len()
    }

    pub fn new() -> (r: WordStorage)
        ensures
            r.wf(),
            r.view_words().len() == 0,
    {
        broadcast use vstd::std_specs::hash::group_hash_axioms;

        let r = WordStorage { words: Vec::new(), buckets: HashMap::new() };
        assert(r.view_words() =~= Seq::empty());
        r
    }

    /// The stored words.
    pub fn words(&self) -> (r: &Vec<String>)
        ensures
            r@.map_values(|s: String| s@) == self.view_words(),
    {
        &self.words
    }

    /// Whether `w` is stored.
    pub fn contains(&self, w: &String) -> (r: bool)
        requires
            self.wf(),
        ensures
            r == self.view_words().contains(w@),
    {
        broadcast use vstd::std_specs::hash::group_hash_axioms;

        let key = hash_word(w.as_str());
        let n = self.words.len();
        assert(self.view_words().len() == n);
        match self.buckets.get(&key) {
            None => {
                proof {
                    if self.view_words().contains(w@) {
                        let k = choose|k: int| 0 <= k < self.view_words().len() && self.view_words()[k] == w@;
                        assert(self.words@[k]@ == w@);
                    }
                }
                false
            },
            Some(bucket) => {
                let mut j: usize = 0;
                while j < bucket.len()
                    invariant
                        self.wf(),
                        self.buckets@.contains_key(key),
                        *bucket == self.buckets@[key],
                        key == word_hash(w@),
                        j <= bucket@.len(),
                        forall|m: int| 0 <= m < j ==> self.words@[bucket@[m] as int]@ != w@,
                        n == self.words@.len(),
                    decreases bucket@.len() - j,
                {
                    let pos = bucket[j];
                    assert(self.buckets@[key]@[j as int] < self.words@.len());
                    if self.words[pos] == *w {
                        assert(self.view_words()[pos as int] == w@);
                        return true;
                    }
                    j += 1;
                }
                proof {
                    if self.view_words().contains(w@) {
                        let k = choose|k: int| 0 <= k < self.view_words().len() && self.view_words()[k] == w@;
                        assert(self.words@[k]@ == w@);
                        assert(self.buckets@[key]@.contains(k as usize));
                        assert((k as usize) as int == k);
                        let m = choose|m: int| 0 <= m < bucket@.len() && bucket@[m] == k as usize;
                        assert(self.words@[bucket@[m] as int]@ == w@);
                    }
                }
                false
            },
        }
    }

    /// Adds `w` unless it is already stored; returns whether it was added.
    pub fn insert(&mut self, w: String) -> (r: bool)
        requires
            old(self).wf(),
        ensures
            final(self).wf(),
            r == !old(self).view_words().contains(w@),
            final(self).view_words() == if r {
                old(self).view_words().push(w@)
            } else {
                old(self).view_words()
            },
    {
        broadcast use vstd::std_specs::hash::group_hash_axioms;

        if self.contains(&w) {
            false
        } else {
            let ghost old_view = self.view_words();
            let ghost old_words = self.words@;
            let ghost old_buckets = self.buckets@;
            let key = hash_word(w.as_str());
            let pos = self.words.len();
            let mut bucket = match self.buckets.remove(&key) {
                Some(b) => b,
                None => Vec::new(),
            };
            let ghost old_bucket = bucket@;
            bucket.push(pos);
            self.buckets.insert(key, bucket);
            self.words.push(w);
            proof {
                assert(self.view_words() =~= old_view.push(w@));
                assert(self.buckets@ == old_buckets.insert(key, self.buckets@[key]));
                assert(self.buckets@[key]@ == old_bucket.push(pos));
                assert(old_buckets.contains_key(key) ==> old_bucket == old_buckets[key]@);
                assert forall|i: int|
                    #![trigger self.words@[i]]
                    0 <= i < self.words@.len() implies self.buckets@.contains_key(word_hash(self.words@[i]@))
                        && self.buckets@[word_hash(self.words@[i]@)]@.contains(i as usize) by {
                    if i == pos {
                        assert(self.buckets@[key]@[old_bucket.len() as int] == pos);
                    } else {
                        assert(self.words@[i] == old_words[i]);
                        let hk = word_hash(old_words[i]@);
                        if hk == key {
                            let m = choose|m: int| 0 <= m < old_bucket.len() && old_bucket[m] == i as usize;
                            assert(self.buckets@[key]@[m] == i as usize);
                        }
                    }
                }
                assert forall|k: u64, j: int|
                    #![trigger self.buckets@[k]@[j]]
                    self.buckets@.contains_key(k) && 0 <= j < self.buckets@[k]@.len()
                        implies self.buckets@[k]@[j] < self.words@.len() by {
                    if k == key {
                        if j < old_bucket.len() {
                            assert(old_bucket[j] == old_buckets[key]@[j]);
                        }
                    } else {
                        assert(self.buckets@[k] == old_buckets[k]);
                    }
                }
            }
            true
        }
    }

    /// Parses one line of a word list and stores its word; returns whether the
    /// line held a word.
    pub fn add_line(&mut self, l: &str) -> (r: bool)
        requires
            old(self).wf(),
        ensures
            final(self).wf(),
            r == word_of_line(l@) is Some,
            match word_of_line(l@) {
                Some(w) => final(self).view_words() == if old(self).view_words().contains(w) {
                    old(self).view_words()
                } else {
                    old(self).view_words().push(w)
                },
                None => final(self).view_words() == old(self).view_words(),
            },
    {
        match line_to_word(l) {
            Some(w) => {
                self.insert(w);
                true
            },
            None => false,
        }
    }

    /// Number of stored words.
    pub fn len(&self) -> (r: usize)
        ensures
            r == self.view_words().len(),
    {
        self.words.len()
    }
}

impl Default for WordStorage {
    fn default() -> (r: WordStorage)
        ensures
            r.wf(),
            r.view_words().len() == 0,
    {
        WordStorage::new()
    }
}

} // verus!
