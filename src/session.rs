use rand::Rng;
use std::collections::HashMap;

use vstd::prelude::*;
use vstd::pervasive::VecAdditionalExecFns;
use vstd::string::{StrSliceExecFns, StringExecFns};

use crate::game_manager::GameManagerError;

verus! {

/// Length of a fragment, in characters.
pub const TRIPLET_LEN: usize = 3;

/// A fragment is kept only with this many example words, and keeps no more.
pub const TRIPLET_EXAMPLES: usize = 3;

/// Some window of `w` that starts before position `n` spells `t`.
pub open spec fn has_window_before(w: Seq<char>, n: int, t: Seq<char>) -> bool {
    exists|k: int| 0 <= k < n && k + 3 <= w.len() && #[trigger] w.subrange(k, k + 3) == t
}

/// `t` occurs in `w` as a window of three characters.
pub open spec fn contains_triplet(w: Seq<char>, t: Seq<char>) -> bool {
    has_window_before(w, w.len() as int, t)
}

/// The distinct words of `ws` that contain `t`, in order of first occurrence.
pub open spec fn holders(ws: Seq<Seq<char>>, t: Seq<char>) -> Seq<Seq<char>>
    decreases ws.len(),
{
    if ws.len() == 0 {
        Seq::empty()
    } else {
        let h = holders(ws.drop_last(), t);
        if contains_triplet(ws.last(), t) && !h.contains(ws.last()) {
            h.push(ws.last())
        } else {
            h
        }
    }
}

/// The first `TRIPLET_EXAMPLES` items of `s`, or all of them if there are fewer.
pub open spec fn capped(s: Seq<Seq<char>>) -> Seq<Seq<char>> {
    if s.len() > TRIPLET_EXAMPLES {
        s.take(TRIPLET_EXAMPLES as int)
    } else {
        s
    }
}

pub open spec fn words_view(v: Seq<String>) -> Seq<Seq<char>> {
    v.map_values(|s: String| s@)
}

/// The data of one round: its fragment and the words that show it.
pub struct Round {
    pub triplet: String,
    pub examples: Vec<String>,
}

impl Round {
    pub open spec fn examples_view(&self) -> Seq<Seq<char>> {
        words_view(self.examples@)
    }
}

/// `pool` holds, once each, every fragment that at least `TRIPLET_EXAMPLES` words
/// of `ws` contain, each with its first `TRIPLET_EXAMPLES` holders as examples.
pub open spec fn is_corpus_of(ws: Seq<Seq<char>>, pool: Seq<Round>) -> bool {
    &&& forall|i: int|
        #![trigger pool[i]]
        0 <= i < pool.len() ==> holders(ws, pool[i].triplet@).len() >= TRIPLET_EXAMPLES
            && pool[i].examples_view() == capped(holders(ws, pool[i].triplet@))
    &&& forall|t: Seq<char>|
        #![trigger holders(ws, t)]
        holders(ws, t).len() >= TRIPLET_EXAMPLES ==> exists|i: int|
            0 <= i < pool.len() && pool[i].triplet@ == t
    &&& distinct_triplets(pool)
}

pub open spec fn distinct_triplets(pool: Seq<Round>) -> bool {
    forall|i: int, j: int|
        0 <= i < pool.len() && 0 <= j < pool.len() && i != j ==> pool[i].triplet@
            != pool[j].triplet@
}

/// Holders of `t` among `pre`, followed by `w` once the windows of `w` before `j`
/// have shown `t`.
pub open spec fn partial_holders(pre: Seq<Seq<char>>, w: Seq<char>, j: int, t: Seq<char>) -> Seq<
    Seq<char>,
> {
    let h = holders(pre, t);
    if has_window_before(w, j, t) && !h.contains(w) {
        h.push(w)
    } else {
        h
    }
}

/// The working table while the windows of `w` before `j` are being counted.
pub open spec fn is_partial_table(
    pre: Seq<Seq<char>>,
    w: Seq<char>,
    j: int,
    pool: Seq<Round>,
) -> bool {
    &&& forall|i: int|
        #![trigger pool[i]]
        0 <= i < pool.len() ==> partial_holders(pre, w, j, pool[i].triplet@).len() > 0
            && pool[i].examples_view() == capped(partial_holders(pre, w, j, pool[i].triplet@))
    &&& forall|t: Seq<char>|
        #![trigger partial_holders(pre, w, j, t)]
        partial_holders(pre, w, j, t).len() > 0 ==> exists|i: int|
            0 <= i < pool.len() && pool[i].triplet@ == t
    &&& distinct_triplets(pool)
}

proof fn lemma_window_step(w: Seq<char>, j: int, t: Seq<char>)
    requires
        0 <= j,
    ensures
        has_window_before(w, j + 1, t) == (has_window_before(w, j, t) || (j + 3 <= w.len()
            && w.subrange(j, j + 3) == t)),
{
    if has_window_before(w, j + 1, t) {
        let k = choose|k: int| 0 <= k < j + 1 && k + 3 <= w.len() && #[trigger] w.subrange(k, k + 3) == t;
        if k < j {
            assert(has_window_before(w, j, t));
        }
    }
    if j + 3 <= w.len() && w.subrange(j, j + 3) == t {
        assert(has_window_before(w, j + 1, t));
    }
}

proof fn lemma_window_end(w: Seq<char>, j: int, t: Seq<char>)
    requires
        0 <= j,
        j + 3 > w.len(),
    ensures
        has_window_before(w, j, t) == contains_triplet(w, t),
{
    if has_window_before(w, j, t) {
        let k = choose|k: int| 0 <= k < j && k + 3 <= w.len() && #[trigger] w.subrange(k, k + 3) == t;
        assert(has_window_before(w, w.len() as int, t));
    }
    if contains_triplet(w, t) {
        let k = choose|k: int|
            0 <= k < w.len() && k + 3 <= w.len() && #[trigger] w.subrange(k, k + 3) == t;
        assert(has_window_before(w, j, t));
    }
}

proof fn lemma_partial_start(pre: Seq<Seq<char>>, w: Seq<char>, pool: Seq<Round>)
    requires
        is_partial_table(pre, Seq::empty(), 0, pool),
    ensures
        is_partial_table(pre, w, 0, pool),
{
    assert forall|t: Seq<char>| #![all_triggers]
        partial_holders(pre, w, 0, t) == partial_holders(pre, Seq::empty(), 0, t) by {
    }
    assert forall|t: Seq<char>| #[trigger]
        partial_holders(pre, w, 0, t).len() > 0 implies exists|i: int|
            0 <= i < pool.len() && pool[i].triplet@ == t by {
        assert(partial_holders(pre, w, 0, t) == partial_holders(pre, Seq::empty(), 0, t));
    }
}

proof fn lemma_partial_finish(ws: Seq<Seq<char>>, wi: int, pool: Seq<Round>)
    requires
        0 <= wi < ws.len(),
        is_partial_table(ws.take(wi), ws[wi], ws[wi].len() as int, pool),
    ensures
        is_partial_table(ws.take(wi + 1), Seq::empty(), 0, pool),
{
    let pre = ws.take(wi);
    let next = ws.take(wi + 1);
    assert(next.drop_last() =~= pre);
    assert(next.last() == ws[wi]);
    assert forall|t: Seq<char>| #![all_triggers]
        partial_holders(next, Seq::empty(), 0, t) == partial_holders(pre, ws[wi], ws[wi].len() as int, t) by {
        assert(partial_holders(next, Seq::empty(), 0, t) == holders(next, t));
    }
    assert forall|t: Seq<char>| #[trigger]
        partial_holders(next, Seq::empty(), 0, t).len() > 0 implies exists|i: int|
            0 <= i < pool.len() && pool[i].triplet@ == t by {
        assert(partial_holders(next, Seq::empty(), 0, t) == partial_holders(pre, ws[wi], ws[wi].len() as int, t));
    }
}

/// Every word in `holders(ws, t)` contains `t`, belongs to `ws` and is listed once.
proof fn lemma_holders_valid(ws: Seq<Seq<char>>, t: Seq<char>)
    ensures
        holders(ws, t).no_duplicates(),
        forall|k: int|
            0 <= k < holders(ws, t).len() ==> contains_triplet(#[trigger] holders(ws, t)[k], t)
                && ws.contains(holders(ws, t)[k]),
    decreases ws.len(),
{
    if ws.len() > 0 {
        let pre = ws.drop_last();
        lemma_holders_valid(pre, t);
        let h = holders(pre, t);
        assert forall|k: int| 0 <= k < h.len() implies ws.contains(#[trigger] h[k]) by {
            let m = choose|m: int| 0 <= m < pre.len() && pre[m] == h[k];
            assert(ws[m] == h[k]);
        }
        assert(ws[ws.len() - 1] == ws.last());
    }
}

/// For a fragment other than the window at `j`, counting that window changes nothing.
proof fn lemma_partial_step(pre: Seq<Seq<char>>, w: Seq<char>, j: int)
    requires
        0 <= j,
        j + 3 <= w.len(),
    ensures
        has_window_before(w, j + 1, w.subrange(j, j + 3)),
        forall|u: Seq<char>|
            u != w.subrange(j, j + 3) ==> #[trigger] partial_holders(pre, w, j + 1, u)
                == partial_holders(pre, w, j, u),
{
    lemma_window_step(w, j, w.subrange(j, j + 3));
    assert forall|u: Seq<char>|
        u != w.subrange(j, j + 3) implies #[trigger] partial_holders(pre, w, j + 1, u)
            == partial_holders(pre, w, j, u) by {
        lemma_window_step(w, j, u);
    }
}

/// Once no window of `w` starts at `j` or later, the table counts all of `w`.
proof fn lemma_partial_end(pre: Seq<Seq<char>>, w: Seq<char>, j: int, pool: Seq<Round>)
    requires
        0 <= j,
        j + 3 > w.len(),
        is_partial_table(pre, w, j, pool),
    ensures
        is_partial_table(pre, w, w.len() as int, pool),
{
    assert forall|t: Seq<char>| #![all_triggers]
        partial_holders(pre, w, w.len() as int, t) == partial_holders(pre, w, j, t) by {
        lemma_window_end(w, j, t);
    }
    assert forall|t: Seq<char>| #[trigger]
        partial_holders(pre, w, w.len() as int, t).len() > 0 implies exists|i: int|
            0 <= i < pool.len() && pool[i].triplet@ == t by {
        assert(partial_holders(pre, w, w.len() as int, t) == partial_holders(pre, w, j, t));
    }
}

/// Derives the fragment corpus of `words`: every fragment of three characters
/// that at least `TRIPLET_EXAMPLES` distinct words contain, once each, with the
/// first `TRIPLET_EXAMPLES` of those words (in the order of `words`) as examples.
pub fn generate_triplets(words: &Vec<String>) -> (r: Vec<Round>)
    ensures
        is_corpus_of(words_view(words@), r@),
{
    let ghost ws = words_view(words@);
    let mut pool: Vec<Round> = Vec::new();
    let mut index: HashMap<u64, usize> = HashMap::new();
    let mut wi: usize = 0;
    while wi < words.len()
        invariant
            wi <= words@.len(),
            ws == words_view(words@),
            is_partial_table(ws.take(wi as int), Seq::empty(), 0, pool@),
            indexes(index@, pool@),
        decreases words@.len() - wi,
    {
        let w = &words[wi];
        let ghost pre = ws.take(wi as int);
        let ghost wv = w@;
        assert(wv == ws[wi as int]);
        proof {
            lemma_partial_start(pre, wv, pool@);
        }
        let n = w.as_str().unicode_len();
        let mut j: usize = 0;
        while j < n && n - j >= TRIPLET_LEN
            invariant
                wi < words@.len(),
                ws == words_view(words@),
                pre == ws.take(wi as int),
                wv == w@,
                wv == ws[wi as int],
                n == wv.len(),
                j <= n,
                is_partial_table(pre, wv, j as int, pool@),
                indexes(index@, pool@),
            decreases n - j,
        {
            let window = w.as_str().substring_char(j, j + TRIPLET_LEN);
            let key = triplet_key_of(window);
            let t = String::from_str(window);
            let ghost t0 = t@;
            let ghost old_pool = pool@;
            let ghost ji = j as int;
            proof {
                lemma_partial_step(pre, wv, ji);
            }
            let found = find_entry(&pool, &index, &t, key);
            match found {
                Some(i) => {
                    let ghost h = holders(pre, t0);
                    let ghost before = partial_holders(pre, wv, ji, t0);
                    let ghost after = partial_holders(pre, wv, ji + 1, t0);
                    if pool[i].examples.len() < TRIPLET_EXAMPLES && !contains_word(
                        &pool[i].examples,
                        w,
                    ) {
                        let mut e = Round { triplet: String::new(), examples: Vec::new() };
                        pool.set_and_swap(i, &mut e);
                        e.examples.push(w.clone());
                        pool.set_and_swap(i, &mut e);
                        proof {
                            assert(old_pool[i as int].examples_view() == capped(before));
                            assert(old_pool[i as int].examples_view().len()
                                == old_pool[i as int].examples@.len());
                            assert(t0 == wv.subrange(ji, ji + 3));
                            assert(before.len() <= TRIPLET_EXAMPLES);
                            assert(!before.contains(wv));
                            assert(!h.contains(wv));
                            if has_window_before(wv, ji, t0) {
                                assert(before == h.push(wv));
                                assert(before[h.len() as int] == wv);
                            }
                            assert(before == h);
                            assert(has_window_before(wv, ji + 1, t0));
                            assert(after == before.push(wv));
                            assert(pool@[i as int].examples_view() =~= old_pool[i as int].examples_view().push(wv));
                        }
                    } else {
                        proof {
                            assert(old_pool[i as int].examples_view() == capped(before));
                            assert(old_pool[i as int].examples_view().len()
                                == old_pool[i as int].examples@.len());
                            assert(t0 == wv.subrange(ji, ji + 3));
                            if before.len() >= TRIPLET_EXAMPLES {
                                assert(capped(after) =~= capped(before));
                            } else {
                                assert(before.contains(wv));
                                assert(after == before);
                            }
                        }
                    }
                    proof {
                        assert(pool@.len() == old_pool.len());
                        assert forall|k: int| 0 <= k < pool@.len() implies pool@[k].triplet@ == old_pool[k].triplet@ by {}
                        assert forall|u: Seq<char>| #[trigger]
                            partial_holders(pre, wv, ji + 1, u).len() > 0 implies exists|k: int|
                                0 <= k < pool@.len() && pool@[k].triplet@ == u by {
                            if u != t0 {
                                let k = choose|k: int| 0 <= k < old_pool.len() && old_pool[k].triplet@ == u;
                                assert(pool@[k].triplet@ == u);
                            } else {
                                assert(pool@[i as int].triplet@ == u);
                            }
                        }
                    }
                }
                None => {
                    let mut examples: Vec<String> = Vec::new();
                    examples.push(w.clone());
                    push_entry(&mut pool, &mut index, Round { triplet: t, examples }, key);
                    proof {
                        let h = holders(pre, t0);
                        assert(partial_holders(pre, wv, ji, t0).len() == 0);
                        assert(h.len() == 0);
                        assert(partial_holders(pre, wv, ji + 1, t0) =~= seq![wv]);
                        assert(pool@.last().examples_view() =~= seq![wv]);
                        assert forall|k: int| 0 <= k < old_pool.len() implies pool@[k] == old_pool[k] by {}
                        assert forall|u: Seq<char>| #[trigger]
                            partial_holders(pre, wv, ji + 1, u).len() > 0 implies exists|k: int|
                                0 <= k < pool@.len() && pool@[k].triplet@ == u by {
                            if u != t0 {
                                let k = choose|k: int| 0 <= k < old_pool.len() && old_pool[k].triplet@ == u;
                                assert(pool@[k].triplet@ == u);
                            } else {
                                assert(pool@[old_pool.len() as int].triplet@ == u);
                            }
                        }
                    }
                }
            }
            j += 1;
        }
        proof {
            lemma_partial_end(pre, wv, j as int, pool@);
            lemma_partial_finish(ws, wi as int, pool@);
        }
        wi += 1;
    }
    let ghost table = pool@;
    proof {
        assert(ws.take(ws.len() as int) =~= ws);
        assert forall|t: Seq<char>| #[trigger] holders(ws, t) == partial_holders(ws, Seq::empty(), 0, t) by {}
    }
    let mut result: Vec<Round> = Vec::new();
    while pool.len() > 0
        invariant
            pool@.len() <= table.len(),
            pool@ == table.take(pool@.len() as int),
            is_partial_table(ws, Seq::empty(), 0, table),
            forall|t: Seq<char>| #[trigger] holders(ws, t) == partial_holders(ws, Seq::empty(), 0, t),
            forall|i: int|
                #![trigger result@[i]]
                0 <= i < result@.len() ==> holders(ws, result@[i].triplet@).len()
                    >= TRIPLET_EXAMPLES && result@[i].examples_view() == capped(
                    holders(ws, result@[i].triplet@),
                ) && exists|k: int|
                    pool@.len() <= k < table.len() && table[k].triplet@ == result@[i].triplet@,
            forall|k: int|
                #![trigger table[k]]
                pool@.len() <= k < table.len() && table[k].examples@.len() >= TRIPLET_EXAMPLES
                    ==> exists|i: int|
                    0 <= i < result@.len() && result@[i].triplet@ == table[k].triplet@,
            distinct_triplets(result@),
        decreases pool@.len(),
    {
        let ghost old_result = result@;
        let ghost kk = pool@.len() - 1;
        let r = pool.pop().unwrap();
        assert(r == table[kk]);
        if r.examples.len() >= TRIPLET_EXAMPLES {
            result.push(r);
            proof {
                assert(table[kk].examples_view().len() == table[kk].examples@.len());
                assert forall|i: int| 0 <= i < old_result.len() implies result@[i] == old_result[i] by {}
                assert forall|i: int| 0 <= i < old_result.len() implies result@[i].triplet@ != r.triplet@ by {
                    let k = choose|k: int| kk + 1 <= k < table.len() && table[k].triplet@ == old_result[i].triplet@;
                }
                assert forall|k: int|
                    #![trigger table[k]]
                    pool@.len() <= k < table.len() && table[k].examples@.len() >= TRIPLET_EXAMPLES
                        implies exists|i: int|
                        0 <= i < result@.len() && result@[i].triplet@ == table[k].triplet@ by {
                    if k == kk {
                        assert(result@[old_result.len() as int].triplet@ == table[k].triplet@);
                    } else {
                        let i = choose|i: int|
                            0 <= i < old_result.len() && old_result[i].triplet@ == table[k].triplet@;
                        assert(result@[i] == old_result[i]);
                    }
                }
            }
        } else {
            proof {
                assert(table[kk].examples@.len() < TRIPLET_EXAMPLES);
            }
        }
    }
    proof {
        assert forall|t: Seq<char>| #[trigger]
            holders(ws, t).len() >= TRIPLET_EXAMPLES implies exists|i: int|
                0 <= i < result@.len() && result@[i].triplet@ == t by {
            assert(partial_holders(ws, Seq::empty(), 0, t).len() > 0);
            let k = choose|k: int| 0 <= k < table.len() && table[k].triplet@ == t;
            assert(table[k].examples_view().len() == table[k].examples@.len());
        }
    }
    result
}

/// Every fragment of a corpus is three characters long and comes with at least
/// `TRIPLET_EXAMPLES` distinct example words, each of which contains it and is
/// one of the words the corpus was derived from.
pub proof fn lemma_corpus_examples_valid(ws: Seq<Seq<char>>, pool: Seq<Round>)
    requires
        is_corpus_of(ws, pool),
    ensures
        forall|i: int|
            #![trigger pool[i]]
            0 <= i < pool.len() ==> {
                &&& pool[i].triplet@.len() == TRIPLET_LEN
                &&& pool[i].examples_view().len() >= TRIPLET_EXAMPLES
                &&& pool[i].examples_view().no_duplicates()
                &&& forall|k: int|
                    0 <= k < pool[i].examples_view().len() ==> contains_triplet(
                        #[trigger] pool[i].examples_view()[k],
                        pool[i].triplet@,
                    ) && ws.contains(pool[i].examples_view()[k])
            },
{
    assert forall|i: int|
        #![trigger pool[i]]
        0 <= i < pool.len() implies {
            &&& pool[i].triplet@.len() == TRIPLET_LEN
            &&& pool[i].examples_view().len() >= TRIPLET_EXAMPLES
            &&& pool[i].examples_view().no_duplicates()
            &&& forall|k: int|
                0 <= k < pool[i].examples_view().len() ==> contains_triplet(
                    #[trigger] pool[i].examples_view()[k],
                    pool[i].triplet@,
                ) && ws.contains(pool[i].examples_view()[k])
        } by {
        let t = pool[i].triplet@;
        let h = holders(ws, t);
        lemma_holders_valid(ws, t);
        let e = pool[i].examples_view();
        assert(e == capped(h));
        assert forall|k: int| 0 <= k < e.len() implies e[k] == h[k] by {}
        assert(contains_triplet(h[0], t));
        let w = h[0];
        let m = choose|m: int| 0 <= m < w.len() && m + 3 <= w.len() && #[trigger] w.subrange(m, m + 3) == t;
        assert(t.len() == 3);
        assert forall|a: int, b: int| 0 <= a < e.len() && 0 <= b < e.len() && a != b implies e[a] != e[b] by {
            assert(e[a] == h[a] && e[b] == h[b]);
        }
    }
}

/// Phase of a session.
#[derive(Debug, Clone, Copy, PartialEq, Eq, Structural)]
pub enum GameState {
    Config,
    Ongoing,
    Finished,
}

/// Why the roster refused a player.
#[derive(Debug, Clone, Copy, PartialEq, Eq, Structural)]
pub enum GameError {
    PlayerKeyExistsError,
    GameMustBeInConfigStateError,
}

/// One game session: its phase, roster, current round and the fragments still
/// to be played.
pub struct Game<P> {
    pub state: GameState,
    pub round: Option<Round>,
    triplets: Vec<Round>,
    players: Vec<(String, P)>,
    played: Ghost<Seq<Seq<char>>>,
}

pub open spec fn keys_of<P>(players: Seq<(String, P)>) -> Seq<Seq<char>> {
    players.map_values(|p: (String, P)| p.0@)
}

impl<P> Game<P> {
    /// Phase of the session.
    pub closed spec fn phase(&self) -> GameState {
        self.state
    }

    /// The current round, if one was played.
    pub closed spec fn current(&self) -> Option<Round> {
        self.round
    }

    /// The registered players, each as its key and its handle, in order of
    /// registration.
    pub closed spec fn roster(&self) -> Seq<(Seq<char>, P)> {
        self.players@.map_values(|p: (String, P)| (p.0@, p.1))
    }

    /// Keys of the registered players, in order of registration.
    pub closed spec fn player_keys(&self) -> Seq<Seq<char>> {
        keys_of(self.players@)
    }

    /// Fragments that rounds may still use.
    pub closed spec fn pool(&self) -> Seq<Round> {
        self.triplets@
    }

    /// Fragments of the rounds played so far, in order.
    pub closed spec fn played(&self) -> Seq<Seq<char>> {
        self.played@
    }

    pub closed spec fn wf(&self) -> bool {
        &&& keys_of(self.players@).no_duplicates()
        &&& distinct_triplets(self.triplets@)
        &&& self.played@.no_duplicates()
        &&& forall|i: int|
            0 <= i < self.triplets@.len() ==> !self.played@.contains(
                #[trigger] self.triplets@[i].triplet@,
            )
        &&& self.state == GameState::Config ==> self.played@.len() == 0
        &&& (self.played@.len() == 0) == self.round.is_none()
        &&& self.round.is_some() ==> self.round.unwrap().triplet@ == self.played@.last()
    }

    /// A session in `Config` with no players, no round, and the corpus of `words`
    /// as its pool.
    pub fn new(words: &Vec<String>) -> (r: Game<P>)
        ensures
            r.wf(),
            r.phase() == GameState::Config,
            r.current().is_none(),
            r.player_keys().len() == 0,
            r.played().len() == 0,
            is_corpus_of(words_view(words@), r.pool()),
    {
        let triplets = generate_triplets(words);
        let players: Vec<(String, P)> = Vec::new();
        let r = Game {
            state: GameState::Config,
            round: None,
            triplets,
            players,
            played: Ghost(Seq::empty()),
        };
        assert(keys_of(r.players@) =~= Seq::empty());
        r
    }

    /// Whether `key` is already registered.
    pub fn has_player(&self, key: &String) -> (r: bool)
        ensures
            r == self.player_keys().contains(key@),
    {
        let mut i: usize = 0;
        while i < self.players.len()
            invariant
                i <= self.players@.len(),
                forall|k: int| 0 <= k < i ==> self.players@[k].0@ != key@,
            decreases self.players@.len() - i,
        {
            if self.players[i].0 == *key {
                assert(keys_of(self.players@)[i as int] == key@);
                return true;
            }
            i += 1;
        }
        proof {
            if keys_of(self.players@).contains(key@) {
                let k = choose|k: int| 0 <= k < keys_of(self.players@).len() && keys_of(self.players@)[k] == key@;
                assert(self.players@[k].0@ == key@);
            }
        }
        false
    }

    /// The handle registered under `key`, if any.
    pub fn player(&self, key: &String) -> (r: Option<&P>)
        ensures
            match r {
                Some(p) => self.roster().contains((key@, *p)),
                None => !self.player_keys().contains(key@),
            },
    {
        let mut i: usize = 0;
        while i < self.players.len()
            invariant
                i <= self.players@.len(),
                forall|k: int| 0 <= k < i ==> self.players@[k].0@ != key@,
            decreases self.players@.len() - i,
        {
            if self.players[i].0 == *key {
                assert(self.roster()[i as int] == (key@, self.players@[i as int].1));
                return Some(&self.players[i].1);
            }
            i += 1;
        }
        proof {
            if keys_of(self.players@).contains(key@) {
                let k = choose|k: int| 0 <= k < keys_of(self.players@).len() && keys_of(self.players@)[k] == key@;
                assert(self.players@[k].0@ == key@);
            }
        }
        None
    }

    /// Number of registered players.
    pub fn players_len(&self) -> (r: usize)
        ensures
            r == self.player_keys().len(),
    {
        self.players.len()
    }

    /// Registers `player` under `key`. Only a session in `Config` accepts
    /// players, and each key at most once; a refused call changes nothing.
    pub fn add_player(&mut self, key: String, player: P) -> (r: Result<(), GameError>)
        requires
            old(self).wf(),
        ensures
            final(self).wf(),
            final(self).phase() == old(self).phase(),
            final(self).current() == old(self).current(),
            final(self).pool() == old(self).pool(),
            final(self).played() == old(self).played(),
            old(self).phase() != GameState::Config ==> r == Err::<(), GameError>(GameError::GameMustBeInConfigStateError),
            old(self).phase() == GameState::Config && old(self).player_keys().contains(key@) ==> r
                == Err::<(), GameError>(GameError::PlayerKeyExistsError),
            old(self).phase() == GameState::Config && !old(self).player_keys().contains(key@) ==> r
                is Ok,
            r is Ok ==> final(self).player_keys() == old(self).player_keys().push(key@),
            r is Ok ==> final(self).roster() == old(self).roster().push((key@, player)),
            r is Err ==> final(self).player_keys() == old(self).player_keys(),
            r is Err ==> final(self).roster() == old(self).roster(),
    {
        if self.state != GameState::Config {
            return Err(GameError::GameMustBeInConfigStateError);
        }
        if self.has_player(&key) {
            Err(GameError::PlayerKeyExistsError)
        } else {
            let ghost old_keys = keys_of(self.players@);
            let ghost old_roster = self.roster();
            let ghost k = key@;
            self.players.push((key, player));
            proof {
                assert(keys_of(self.players@) =~= old_keys.push(k));
                assert(self.roster() =~= old_roster.push((k, player)));
            }
            Ok(())
        }
    }

    /// Moves a session in `Config` to `Ongoing`; any other session is left as
    /// it is and the call fails.
    pub fn start(&mut self) -> (r: Result<(), GameManagerError>)
        requires
            old(self).wf(),
        ensures
            final(self).wf(),
            final(self).phase() == start_spec(old(self).phase()).0,
            (r is Ok) == start_spec(old(self).phase()).1,
            r is Err ==> r == Err::<(), GameManagerError>(GameManagerError::GameAlreadyStartedError),
            final(self).current() == old(self).current(),
            final(self).pool() == old(self).pool(),
            final(self).played() == old(self).played(),
            final(self).player_keys() == old(self).player_keys(),
            final(self).roster() == old(self).roster(),
    {
        if self.state != GameState::Config {
            return Err(GameManagerError::GameAlreadyStartedError);
        }
        self.state = GameState::Ongoing;
        Ok(())
    }

    /// Ends the session; the last round stays readable.
    pub fn finish(&mut self)
        requires
            old(self).wf(),
        ensures
            final(self).wf(),
            final(self).phase() == GameState::Finished,
            final(self).current() == old(self).current(),
            final(self).pool() == old(self).pool(),
            final(self).played() == old(self).played(),
            final(self).player_keys() == old(self).player_keys(),
            final(self).roster() == old(self).roster(),
    {
        self.state = GameState::Finished;
    }

    pub fn is_ongoing(&self) -> (r: bool)
        ensures
            r == (self.phase() == GameState::Ongoing),
    {
        self.state == GameState::Ongoing
    }

    /// Number of fragments left for rounds.
    pub fn remaining(&self) -> (r: usize)
        ensures
            r == self.pool().len(),
    {
        self.triplets.len()
    }

    /// Makes the fragment at `index` of the pool the current round and takes it
    /// out of the pool; the last fragment of the pool moves into its place.
    pub fn update_round_at(&mut self, index: usize)
        requires
            old(self).wf(),
            old(self).phase() == GameState::Ongoing,
            index < old(self).pool().len(),
        ensures
            final(self).wf(),
            round_advanced(*old(self), *final(self), index as int),
    {
        let ghost t = self.triplets@[index as int].triplet@;
        let ghost old_pool = self.triplets@;
        let r = self.triplets.swap_remove(index);
        self.round = Some(r);
        self.played = Ghost(self.played@.push(t));
        proof {
            assert forall|i: int| 0 <= i < self.triplets@.len() implies !self.played@.contains(
                #[trigger] self.triplets@[i].triplet@,
            ) by {
                if i == index {
                    assert(self.triplets@[i] == old_pool.last());
                    assert(self.triplets@[i].triplet@ != t);
                } else {
                    assert(self.triplets@[i] == old_pool[i]);
                }
                if self.played@.contains(self.triplets@[i].triplet@) {
                    let k = choose|k: int| 0 <= k < self.played@.len() && self.played@[k] == self.triplets@[i].triplet@;
                    if k < self.played@.len() - 1 {
                        assert(old_pool.contains(old_pool[i]));
                    }
                }
            }
        }
    }

    /// Ends a session that has not ended yet; a finished session is left as it is
    /// and the call fails.
    pub fn stop(&mut self) -> (r: Result<(), GameManagerError>)
        requires
            old(self).wf(),
        ensures
            final(self).wf(),
            final(self).phase() == GameState::Finished,
            old(self).phase() == GameState::Finished <==> r is Err,
            r is Err ==> r == Err::<(), GameManagerError>(GameManagerError::GameAlreadyFinishedError),
            final(self).current() == old(self).current(),
            final(self).pool() == old(self).pool(),
            final(self).played() == old(self).played(),
            final(self).player_keys() == old(self).player_keys(),
            final(self).roster() == old(self).roster(),
    {
        if self.state == GameState::Finished {
            return Err(GameManagerError::GameAlreadyFinishedError);
        }
        self.finish();
        Ok(())
    }

    /// Plays the next round and returns its fragment in upper case, as it is
    /// announced.
    pub fn play_round(&mut self) -> (r: String)
        requires
            old(self).wf(),
            old(self).phase() == GameState::Ongoing,
            old(self).pool().len() > 0,
        ensures
            final(self).wf(),
            exists|i: int| round_advanced(*old(self), *final(self), i),
            final(self).current() is Some,
            r@ == upper_of(final(self).current().unwrap().triplet@),
    {
        self.update_round();
        match &self.round {
            Some(round) => to_upper(round.triplet.as_str()),
            None => String::new(),
        }
    }

    /// Plays the next round if the session is ongoing and fragments are left, and
    /// returns its fragment in upper case. Otherwise the session cannot go on: it
    /// is ended, and nothing is returned.
    pub fn play_round_or_finish(&mut self) -> (r: Option<String>)
        requires
            old(self).wf(),
        ensures
            final(self).wf(),
            (r is Some) == (old(self).phase() == GameState::Ongoing && old(self).pool().len() > 0),
            r is Some ==> (exists|i: int| round_advanced(*old(self), *final(self), i))
                && final(self).current() is Some
                && r.unwrap()@ == upper_of(final(self).current().unwrap().triplet@),
            r is None ==> final(self).phase() == GameState::Finished,
            r is None ==> final(self).current() == old(self).current(),
            r is None ==> final(self).pool() == old(self).pool(),
            r is None ==> final(self).played() == old(self).played(),
            r is None ==> final(self).roster() == old(self).roster(),
            r is None ==> final(self).player_keys() == old(self).player_keys(),
    {
        if self.is_ongoing() && self.remaining() > 0 {
            Some(self.play_round())
        } else {
            self.finish();
            None
        }
    }

    /// Makes a fragment picked at random from the pool the current round and
    /// takes it out of the pool.
    pub fn update_round(&mut self)
        requires
            old(self).wf(),
            old(self).phase() == GameState::Ongoing,
            old(self).pool().len() > 0,
        ensures
            final(self).wf(),
            exists|i: int| round_advanced(*old(self), *final(self), i),
    {
        let index = random_index(self.triplets.len());
        self.update_round_at(index);
    }
}

/// No fragment is played twice in a session, nor is one that was played left in
/// its pool.
pub proof fn lemma_played_distinct<P>(g: Game<P>)
    requires
        g.wf(),
    ensures
        g.played().no_duplicates(),
        forall|i: int| 0 <= i < g.pool().len() ==> !g.played().contains(#[trigger] g.pool()[i].triplet@),
{
}

/// `g2` is `g1` after the fragment at `i` of its pool became the current round.
pub open spec fn round_advanced<P>(g1: Game<P>, g2: Game<P>, i: int) -> bool {
    &&& 0 <= i < g1.pool().len()
    &&& g2.current() == Some(g1.pool()[i])
    &&& g2.pool() == g1.pool().update(i, g1.pool().last()).drop_last()
    &&& g2.played() == g1.played().push(g1.pool()[i].triplet@)
    &&& g2.phase() == g1.phase()
    &&& g2.player_keys() == g1.player_keys()
    &&& g2.roster() == g1.roster()
}

/// The state after a start request on a session in `s`, and whether it succeeded.
pub open spec fn start_spec(s: GameState) -> (GameState, bool) {
    if s == GameState::Config {
        (GameState::Ongoing, true)
    } else {
        (s, false)
    }
}

/// What `str::to_uppercase` makes of a string.
pub uninterp spec fn upper_of(s: Seq<char>) -> Seq<char>;

/// Relies on `str::to_uppercase`: the result depends on the characters alone.
#[verifier::external_body]
fn to_upper(s: &str) -> (r: String)
    ensures
        r@ == upper_of(s@),
{
    s.to_uppercase()
}

/// Relies on rand's `Rng::gen_range` over `thread_rng`: a value of the
/// half-open range; it panics only on an empty range.
#[verifier::external_body]
fn random_index(len: usize) -> (r: usize)
    requires
        len > 0,
    ensures
        r < len,
{
    rand::thread_rng().gen_range(0..len)
}

/// Key of a fragment of three characters in the table's index: each character
/// takes 21 bits.
pub open spec fn triplet_key(t: Seq<char>) -> u64 {
    (t[0] as int * 0x40000000000 + t[1] as int * 0x200000 + t[2] as int) as u64
}

fn triplet_key_of(t: &str) -> (r: u64)
    requires
        t@.len() == 3,
    ensures
        r == triplet_key(t@),
{
    let c0 = t.get_char(0) as u64;
    let c1 = t.get_char(1) as u64;
    let c2 = t.get_char(2) as u64;
    c0 * 0x40000000000 + c1 * 0x200000 + c2
}

/// Every entry of `pool` can be found through `index`, and `index` points into
/// `pool` only.
pub open spec fn indexes(index: Map<u64, usize>, pool: Seq<Round>) -> bool {
    &&& forall|i: int|
        #![trigger pool[i]]
        0 <= i < pool.len() ==> index.contains_key(triplet_key(pool[i].triplet@))
    &&& forall|k: u64| #[trigger] index.contains_key(k) ==> index[k] < pool.len()
}

/// Position of the entry for `t` in `pool`, looked up through `index`.
fn find_entry(pool: &Vec<Round>, index: &HashMap<u64, usize>, t: &String, key: u64) -> (r: Option<usize>)
    requires
        indexes(index@, pool@),
        key == triplet_key(t@),
    ensures
        match r {
            Some(i) => i < pool@.len() && pool@[i as int].triplet@ == t@,
            None => forall|i: int| 0 <= i < pool@.len() ==> pool@[i].triplet@ != t@,
        },
{
    broadcast use vstd::std_specs::hash::group_hash_axioms;

    match index.get(&key) {
        Some(i) => {
            if pool[*i].triplet == *t {
                Some(*i)
            } else {
                find_triplet(pool, t)
            }
        },
        None => None,
    }
}

/// Appends `r` to `pool` and records it in `index`.
fn push_entry(pool: &mut Vec<Round>, index: &mut HashMap<u64, usize>, r: Round, key: u64)
    requires
        indexes(old(index)@, old(pool)@),
        key == triplet_key(r.triplet@),
    ensures
        final(pool)@ == old(pool)@.push(r),
        indexes(final(index)@, final(pool)@),
{
    broadcast use vstd::std_specs::hash::group_hash_axioms;

    index.insert(key, pool.len());
    pool.push(r);
    assert forall|i: int| #![trigger pool@[i]]
        0 <= i < pool@.len() implies index@.contains_key(triplet_key(pool@[i].triplet@)) by {
        if i < pool@.len() - 1 {
            assert(pool@[i] == old(pool)@[i]);
        }
    }
}

/// Position of the entry for `t` in `pool`, if there is one.
fn find_triplet(pool: &Vec<Round>, t: &String) -> (r: Option<usize>)
    ensures
        match r {
            Some(i) => i < pool@.len() && pool@[i as int].triplet@ == t@,
            None => forall|i: int| 0 <= i < pool@.len() ==> pool@[i].triplet@ != t@,
        },
{
    let mut i: usize = 0;
    while i < pool.len()
        invariant
            i <= pool@.len(),
            forall|k: int| 0 <= k < i ==> pool@[k].triplet@ != t@,
        decreases pool@.len() - i,
    {
        if pool[i].triplet == *t {
            return Some(i);
        }
        i += 1;
    }
    None
}

/// Whether `w` is among `v`.
fn contains_word(v: &Vec<String>, w: &String) -> (r: bool)
    ensures
        r == words_view(v@).contains(w@),
{
    let mut i: usize = 0;
    while i < v.len()
        invariant
            i <= v@.len(),
            forall|k: int| 0 <= k < i ==> v@[k]@ != w@,
        decreases v@.len() - i,
    {
        if v[i] == *w {
            assert(words_view(v@)[i as int] == w@);
            return true;
        }
        i += 1;
    }
    proof {
        if words_view(v@).contains(w@) {
            let k = choose|k: int| 0 <= k < words_view(v@).len() && words_view(v@)[k] == w@;
            assert(v@[k]@ == w@);
        }
    }
    false
}

} // verus!
