//! The two-class word-frequency classifier.

use vstd::prelude::*;
use vstd::arithmetic::power::*;
use crate::natural::Natural;
use crate::tokenizer::{lower_of, tokenize, views, word_runs};

verus! {

/// The two labels a text can be given.
#[derive(Clone, Copy, Debug, PartialEq, Eq, Structural)]
pub enum Class {
    Country,
    Pop,
}

/// Why a corpus was not taken in.
#[derive(Clone, Copy, Debug, PartialEq, Eq, Structural)]
pub enum TrainError {
    /// The classifier would hold more than `MAX_TOKENS` tokens in all.
    TooManyTokens,
}

/// The most tokens a classifier takes in over its lifetime. It keeps every
/// factor of a likelihood (a count plus one, a distinct-token count plus the
/// vocabulary size) within 64 bits.
pub const MAX_TOKENS: u64 = 0x7fff_ffff_ffff_ffff;

/// The class that is not `c`.
pub open spec fn other(c: Class) -> Class {
    match c {
        Class::Country => Class::Pop,
        Class::Pop => Class::Country,
    }
}

/// How often `t` was seen, where an absent token counts zero.
pub open spec fn count_in(m: Map<Seq<char>, nat>, t: Seq<char>) -> nat {
    if m.contains_key(t) {
        m[t]
    } else {
        0
    }
}

/// The counts `m` after one more occurrence of each of `toks`.
pub open spec fn add_tokens(m: Map<Seq<char>, nat>, toks: Seq<Seq<char>>) -> Map<
    Seq<char>,
    nat,
>
    decreases toks.len(),
{
    if toks.len() == 0 {
        m
    } else {
        let before = add_tokens(m, toks.drop_last());
        before.insert(toks.last(), count_in(before, toks.last()) + 1)
    }
}

/// The product, over the tokens of `toks`, of their count in `m` plus one:
/// the numerator of a class's add-one likelihood.
pub open spec fn count_product(m: Map<Seq<char>, nat>, toks: Seq<Seq<char>>) -> nat
    decreases toks.len(),
{
    if toks.len() == 0 {
        1
    } else {
        count_product(m, toks.drop_last()) * (count_in(m, toks.last()) + 1)
    }
}

/// The per-class token statistics, indexed like the classifier's words.
struct Tally {
    counts: Vec<u64>,
    distinct: u64,
    map: Ghost<Map<Seq<char>, nat>>,
}

impl Tally {
    /// The counts line up with the words `ws`, the ghost map holds exactly
    /// the words with a positive count, and no count exceeds `total`.
    spec fn wf(&self, ws: Seq<Seq<char>>, total: nat) -> bool {
        &&& self.counts.len() == ws.len()
        &&& self.map@.dom().finite()
        &&& self.map@.dom().len() == self.distinct
        &&& self.distinct <= total
        &&& forall|i: int|
            0 <= i < ws.len() ==> {
                &&& (self.map@.contains_key(#[trigger] ws[i]) <==> self.counts[i] > 0)
                &&& (self.counts[i] > 0 ==> self.map@[ws[i]] == self.counts[i])
                &&& self.counts[i] <= total
            }
        &&& forall|t: Seq<char>| #[trigger] self.map@.contains_key(t) ==> ws.contains(t)
    }

    /// Makes room for a word that was not seen before.
    fn extend(
        &mut self,
        Ghost(ws): Ghost<Seq<Seq<char>>>,
        Ghost(w): Ghost<Seq<char>>,
        Ghost(total): Ghost<nat>,
    )
        requires
            old(self).wf(ws, total),
            !ws.contains(w),
        ensures
            final(self).wf(ws.push(w), total),
            final(self).map@ == old(self).map@,
            final(self).distinct == old(self).distinct,
    {
        self.counts.push(0);
        proof {
            let ws2 = ws.push(w);
            assert forall|i: int| 0 <= i < ws2.len() implies {
                &&& (self.map@.contains_key(#[trigger] ws2[i]) <==> self.counts[i] > 0)
                &&& (self.counts[i] > 0 ==> self.map@[ws2[i]] == self.counts[i])
                &&& self.counts[i] <= total
            } by {
                if i == ws.len() {
                    assert(ws2[i] == w);
                } else {
                    assert(ws2[i] == ws[i]);
                }
            }
            assert forall|t: Seq<char>| #[trigger] self.map@.contains_key(t) implies ws2.contains(
                t,
            ) by {
                let j = choose|j: int| 0 <= j < ws.len() && ws[j] == t;
                assert(ws2[j] == t);
            }
        }
    }

    /// Counts one more occurrence of word `i`.
    fn bump(&mut self, i: usize, Ghost(ws): Ghost<Seq<Seq<char>>>, Ghost(total): Ghost<nat>)
        requires
            old(self).wf(ws, total),
            total < MAX_TOKENS,
            i < ws.len(),
            forall|a: int, b: int| 0 <= a < b < ws.len() ==> ws[a] != ws[b],
        ensures
            final(self).wf(ws, total + 1),
            final(self).map@ == old(self).map@.insert(
                ws[i as int],
                count_in(old(self).map@, ws[i as int]) + 1,
            ),
    {
        let c = self.counts[i];
        let ghost w = ws[i as int];
        if c == 0 {
            proof {
                assert(!self.map@.dom().contains(w));
            }
            self.distinct = self.distinct + 1;
        }
        self.counts.set(i, c + 1);
        self.map = Ghost(self.map@.insert(w, (c + 1) as nat));
        proof {
            assert forall|j: int| 0 <= j < ws.len() implies {
                &&& (self.map@.contains_key(#[trigger] ws[j]) <==> self.counts[j] > 0)
                &&& (self.counts[j] > 0 ==> self.map@[ws[j]] == self.counts[j])
                &&& self.counts[j] <= total + 1
            } by {
                if j != i {
                    assert(ws[j] != w);
                }
            }
            assert forall|t: Seq<char>| #[trigger] self.map@.contains_key(t) implies ws.contains(
                t,
            ) by {
                if t == w {
                    assert(ws[i as int] == t);
                }
            }
        }
    }
}

/// A tally that holds with one total holds with any larger one.
proof fn lemma_tally_weaken(t: &Tally, ws: Seq<Seq<char>>, total: nat)
    requires
        t.wf(ws, total),
    ensures
        t.wf(ws, total + 1),
{
}

/// A classifier over the two classes. It keeps the distinct words seen in
/// training and, for each class, how often each word occurred in it.
pub struct Classifier {
    words: Vec<String>,
    pop: Tally,
    country: Tally,
    total: u64,
    vocab: Ghost<Set<Seq<char>>>,
}

impl Classifier {
    /// The distinct tokens seen in training, in either class.
    pub closed spec fn vocabulary(&self) -> Set<Seq<char>> {
        self.vocab@
    }

    /// The tokens seen in training for `class`, each with its number of
    /// occurrences. A token that was never seen in the class is absent.
    pub closed spec fn counts(&self, class: Class) -> Map<Seq<char>, nat> {
        match class {
            Class::Pop => self.pop.map@,
            Class::Country => self.country.map@,
        }
    }

    /// The number of tokens taken in so far, in both classes together.
    pub closed spec fn tokens_seen(&self) -> nat {
        self.total as nat
    }

    closed spec fn word_views(&self) -> Seq<Seq<char>> {
        views(self.words@)
    }

    /// The classifier's internal invariant.
    pub closed spec fn wf(&self) -> bool {
        let ws = self.word_views();
        &&& self.pop.wf(ws, self.total as nat)
        &&& self.country.wf(ws, self.total as nat)
        &&& forall|a: int, b: int| 0 <= a < b < ws.len() ==> ws[a] != ws[b]
        &&& self.vocab@.finite()
        &&& self.vocab@.len() == ws.len()
        &&& forall|t: Seq<char>| #[trigger] self.vocab@.contains(t) <==> ws.contains(t)
        &&& self.vocab@ == self.pop.map@.dom().union(self.country.map@.dom())
        &&& ws.len() <= self.total
        &&& self.total <= MAX_TOKENS
    }

    /// `after` is `before` having taken in `toks` as tokens of `class`.
    pub open spec fn trained_from(
        after: Classifier,
        before: Classifier,
        toks: Seq<Seq<char>>,
        class: Class,
    ) -> bool {
        &&& after.wf()
        &&& after.vocabulary() == before.vocabulary().union(toks.to_set())
        &&& after.counts(class) == add_tokens(before.counts(class), toks)
        &&& after.counts(other(class)) == before.counts(other(class))
        &&& after.tokens_seen() == before.tokens_seen() + toks.len()
    }

    /// The score of `class` for `toks`, scaled by the product of both
    /// classes' denominators so that it is a natural number. With `U` the
    /// vocabulary size, `T_C` the number of distinct tokens of class `C` and
    /// `n` the number of tokens, the score of `C` is
    /// `count_product(counts(C), toks) / (T_C + U)^n`.
    pub open spec fn cross_score(&self, class: Class, toks: Seq<Seq<char>>) -> int {
        let u = self.vocabulary().len();
        count_product(self.counts(class), toks) * pow(
            (self.counts(other(class)).dom().len() + u) as int,
            toks.len(),
        )
    }

    /// The class predicted for `toks`: Country when its score is strictly
    /// greater than Pop's, compared exactly; Pop wins every tie.
    pub open spec fn prediction(&self, toks: Seq<Seq<char>>) -> Class {
        if self.cross_score(Class::Pop, toks) < self.cross_score(Class::Country, toks) {
            Class::Country
        } else {
            Class::Pop
        }
    }

    /// The index of `token` among the words seen, if it was seen.
    fn find(&self, token: &String) -> (r: Option<usize>)
        requires
            self.wf(),
        ensures
            match r {
                Some(i) => i < self.words.len() && self.word_views()[i as int] == token@,
                None => !self.vocabulary().contains(token@),
            },
    {
        let n = self.words.len();
        let mut i: usize = 0;
        while i < n
            invariant
                n == self.words.len(),
                i <= n,
                forall|j: int| 0 <= j < i ==> self.word_views()[j] != token@,
            decreases n - i,
        {
            if self.words[i] == *token {
                return Some(i);
            }
            i = i + 1;
        }
        proof {
            if self.vocab@.contains(token@) {
                let ws = self.word_views();
                let j = choose|j: int| 0 <= j < ws.len() && ws[j] == token@;
                assert(ws[j] != token@);
            }
        }
        None
    }

    /// Takes in one occurrence of `token` as a token of `class`.
    fn record(&mut self, token: &String, class: Class)
        requires
            old(self).wf(),
            old(self).tokens_seen() < MAX_TOKENS,
        ensures
            final(self).wf(),
            final(self).vocabulary() == old(self).vocabulary().insert(token@),
            final(self).counts(class) == old(self).counts(class).insert(
                token@,
                count_in(old(self).counts(class), token@) + 1,
            ),
            final(self).counts(other(class)) == old(self).counts(other(class)),
            final(self).tokens_seen() == old(self).tokens_seen() + 1,
    {
        let ghost w = token@;
        let ghost total = self.total as nat;
        let idx = match self.find(token) {
            Some(i) => {
                proof {
                    assert(self.vocab@.insert(w) =~= self.vocab@);
                }
                i
            },
            None => {
                let ghost ws = self.word_views();
                proof {
                    if ws.contains(w) {
                        assert(self.vocab@.contains(w));
                    }
                }
                self.pop.extend(Ghost(ws), Ghost(w), Ghost(total));
                self.country.extend(Ghost(ws), Ghost(w), Ghost(total));
                self.words.push(token.clone());
                self.vocab = Ghost(self.vocab@.insert(w));
                proof {
                    assert(self.word_views() =~= ws.push(w));
                    assert forall|a: int, b: int|
                        0 <= a < b < self.word_views().len() implies self.word_views()[a]
                        != self.word_views()[b] by {
                        if b == ws.len() {
                            assert(ws[a] == self.word_views()[a]);
                        }
                    }
                    assert forall|t: Seq<char>| #[trigger]
                        self.vocab@.contains(t) <==> self.word_views().contains(t) by {
                        if t == w {
                            assert(self.word_views()[ws.len() as int] == w);
                        } else if self.word_views().contains(t) {
                            let j = choose|j: int|
                                0 <= j < self.word_views().len() && self.word_views()[j] == t;
                            assert(ws[j] == t);
                        } else if ws.contains(t) {
                            let j = choose|j: int| 0 <= j < ws.len() && ws[j] == t;
                            assert(self.word_views()[j] == t);
                        }
                    }
                }
                self.words.len() - 1
            },
        };
        let ghost ws = self.word_views();
        let ghost vocab_before = self.vocab@;
        let ghost pop_before = self.pop.map@;
        let ghost country_before = self.country.map@;
        match class {
            Class::Pop => {
                self.pop.bump(idx, Ghost(ws), Ghost(total));
                proof {
                    lemma_tally_weaken(&self.country, ws, total);
                }
            },
            Class::Country => {
                self.country.bump(idx, Ghost(ws), Ghost(total));
                proof {
                    lemma_tally_weaken(&self.pop, ws, total);
                }
            },
        }
        self.total = self.total + 1;
        proof {
            assert(self.vocab@ =~= self.pop.map@.dom().union(self.country.map@.dom()));
        }
    }

    /// Takes in `tokens` as tokens of `class`.
    pub fn train_tokens(&mut self, tokens: &Vec<String>, class: Class)
        requires
            old(self).wf(),
            old(self).tokens_seen() + tokens@.len() <= MAX_TOKENS,
        ensures
            Classifier::trained_from(*final(self), *old(self), views(tokens@), class),
    {
        let ghost start = *self;
        let ghost toks = views(tokens@);
        let n = tokens.len();
        proof {
            assert(toks.take(0) =~= Seq::<Seq<char>>::empty());
            assert(toks.take(0).to_set() =~= Set::<Seq<char>>::empty());
            assert(start.vocabulary().union(toks.take(0).to_set()) =~= start.vocabulary());
        }
        let mut i: usize = 0;
        while i < n
            invariant
                n == tokens@.len(),
                i <= n,
                start.tokens_seen() + n <= MAX_TOKENS,
                toks == views(tokens@),
                Classifier::trained_from(*self, start, toks.take(i as int), class),
            decreases n - i,
        {
            let ghost before = *self;
            self.record(&tokens[i], class);
            proof {
                let pre = toks.take(i as int);
                let next = toks.take(i + 1);
                assert(next.drop_last() =~= pre);
                assert(next.last() == tokens@[i as int]@);
                assert(next.to_set() =~= pre.to_set().insert(tokens@[i as int]@)) by {
                    assert forall|t: Seq<char>|
                        #[trigger] next.to_set().contains(t) <==> pre.to_set().insert(
                            tokens@[i as int]@,
                        ).contains(t) by {
                        if next.contains(t) {
                            let j = choose|j: int| 0 <= j < next.len() && next[j] == t;
                            if j < i {
                                assert(pre[j] == t);
                            }
                        }
                        if pre.contains(t) {
                            let j = choose|j: int| 0 <= j < pre.len() && pre[j] == t;
                            assert(next[j] == t);
                        }
                        if t == tokens@[i as int]@ {
                            assert(next[i as int] == t);
                        }
                    }
                }
                assert(self.vocabulary() =~= start.vocabulary().union(next.to_set()));
            }
            i = i + 1;
        }
        proof {
            assert(toks.take(n as int) =~= toks);
        }
    }

    /// Tokenizes `text` and takes its tokens in as tokens of `class`. The
    /// corpus is refused, and the classifier left as it was, only when the
    /// classifier would then hold more than `MAX_TOKENS` tokens in all.
    pub fn train(&mut self, text: &str, class: Class) -> (r: Result<(), TrainError>)
        requires
            old(self).wf(),
        ensures
            r is Ok <==> old(self).tokens_seen() + word_runs(lower_of(text@)).len() <= MAX_TOKENS,
            text@.len() == 0 ==> r is Ok,
            r is Ok ==> Classifier::trained_from(
                *final(self),
                *old(self),
                word_runs(lower_of(text@)),
                class,
            ),
            r is Err ==> r == Err::<(), TrainError>(TrainError::TooManyTokens) && *final(self)
                == *old(self),
    {
        let tokens = tokenize(text);
        proof {
            if text@.len() == 0 {
                assert(views(tokens@).len() == 0);
            }
        }
        if tokens.len() as u64 > MAX_TOKENS - self.total {
            return Err(TrainError::TooManyTokens);
        }
        self.train_tokens(&tokens, class);
        Ok(())
    }

    /// How often `token` was seen in each class: (Pop, Country).
    fn counts_of(&self, token: &String) -> (r: (u64, u64))
        requires
            self.wf(),
        ensures
            r.0 == count_in(self.counts(Class::Pop), token@),
            r.1 == count_in(self.counts(Class::Country), token@),
            r.0 <= self.tokens_seen(),
            r.1 <= self.tokens_seen(),
    {
        match self.find(token) {
            Some(j) => {
                proof {
                    let ws = self.word_views();
                    assert(ws[j as int] == token@);
                }
                (self.pop.counts[j], self.country.counts[j])
            },
            None => {
                proof {
                    assert(!self.pop.map@.dom().contains(token@));
                    assert(!self.country.map@.dom().contains(token@));
                }
                (0, 0)
            },
        }
    }

    /// The class predicted for `tokens` (see `prediction`).
    pub fn predict_tokens(&self, tokens: &Vec<String>) -> (r: Class)
        requires
            self.wf(),
        ensures
            r == self.prediction(views(tokens@)),
    {
        let ghost toks = views(tokens@);
        let ghost pop_map = self.counts(Class::Pop);
        let ghost country_map = self.counts(Class::Country);
        let u = self.words.len() as u64;
        let pop_base = self.country.distinct + u;
        let country_base = self.pop.distinct + u;
        let mut pop_side = Natural::one();
        let mut country_side = Natural::one();
        let n = tokens.len();
        proof {
            reveal(pow);
            assert(toks.take(0) =~= Seq::<Seq<char>>::empty());
        }
        let mut i: usize = 0;
        while i < n
            invariant
                self.wf(),
                n == tokens@.len(),
                i <= n,
                toks == views(tokens@),
                pop_map == self.counts(Class::Pop),
                country_map == self.counts(Class::Country),
                pop_side@ == count_product(pop_map, toks.take(i as int)) * pow(
                    pop_base as int,
                    i as nat,
                ),
                country_side@ == count_product(country_map, toks.take(i as int)) * pow(
                    country_base as int,
                    i as nat,
                ),
            decreases n - i,
        {
            let (cp, cc) = self.counts_of(&tokens[i]);
            let ghost pv = pop_side@ as int;
            let ghost cv = country_side@ as int;
            pop_side.mul_small(cp + 1);
            pop_side.mul_small(pop_base);
            country_side.mul_small(cc + 1);
            country_side.mul_small(country_base);
            proof {
                let pre = toks.take(i as int);
                let next = toks.take(i + 1);
                assert(next.drop_last() =~= pre);
                assert(next.last() == tokens@[i as int]@);
                assert(pow(pop_base as int, (i + 1) as nat) == pop_base * pow(
                    pop_base as int,
                    i as nat,
                )) by {
                    reveal(pow);
                }
                assert(pow(country_base as int, (i + 1) as nat) == country_base * pow(
                    country_base as int,
                    i as nat,
                )) by {
                    reveal(pow);
                }
                let a = count_product(pop_map, pre) as int;
                let pa = pow(pop_base as int, i as nat);
                assert(pv * (cp + 1) * pop_base == (a * (cp + 1)) * (pop_base * pa))
                    by (nonlinear_arith)
                    requires
                        pv == a * pa,
                ;
                let b = count_product(country_map, pre) as int;
                let pb = pow(country_base as int, i as nat);
                assert(cv * (cc + 1) * country_base == (b * (cc + 1)) * (country_base * pb))
                    by (nonlinear_arith)
                    requires
                        cv == b * pb,
                ;
            }
            i = i + 1;
        }
        proof {
            assert(toks.take(n as int) =~= toks);
        }
        if pop_side.less_than(&country_side) {
            Class::Country
        } else {
            Class::Pop
        }
    }

    /// Tokenizes `text` and predicts its class (see `prediction`). A text
    /// without tokens is given Pop, the winner of ties.
    pub fn predict(&self, text: &str) -> (r: Class)
        requires
            self.wf(),
        ensures
            r == self.prediction(word_runs(lower_of(text@))),
            text@.len() == 0 ==> r == Class::Pop,
    {
        let tokens = tokenize(text);
        proof {
            if text@.len() == 0 {
                lemma_no_tokens_predict_pop(*self, views(tokens@));
            }
        }
        self.predict_tokens(&tokens)
    }

    /// How often `token` was seen in training for `class`.
    pub fn count(&self, token: &String, class: Class) -> (r: u64)
        requires
            self.wf(),
        ensures
            r == count_in(self.counts(class), token@),
    {
        let (p, c) = self.counts_of(token);
        match class {
            Class::Pop => p,
            Class::Country => c,
        }
    }

    /// The number of distinct tokens seen in training for `class`.
    pub fn distinct_tokens(&self, class: Class) -> (r: u64)
        requires
            self.wf(),
        ensures
            r == self.counts(class).dom().len(),
    {
        match class {
            Class::Pop => self.pop.distinct,
            Class::Country => self.country.distinct,
        }
    }

    /// The number of distinct tokens seen in training, in either class.
    pub fn vocabulary_len(&self) -> (r: usize)
        requires
            self.wf(),
        ensures
            r == self.vocabulary().len(),
    {
        self.words.len()
    }

    /// An empty classifier.
    pub fn new() -> (r: Classifier)
        ensures
            r.wf(),
            r.vocabulary() == Set::<Seq<char>>::empty(),
            r.counts(Class::Pop) == Map::<Seq<char>, nat>::empty(),
            r.counts(Class::Country) == Map::<Seq<char>, nat>::empty(),
            r.tokens_seen() == 0,
    {
        let r = Classifier {
            words: Vec::new(),
            pop: Tally { counts: Vec::new(), distinct: 0, map: Ghost(Map::empty()) },
            country: Tally { counts: Vec::new(), distinct: 0, map: Ghost(Map::empty()) },
            total: 0,
            vocab: Ghost(Set::empty()),
        };
        proof {
            assert(r.vocab@ =~= r.pop.map@.dom().union(r.country.map@.dom()));
        }
        r
    }
}

/// Text without tokens is predicted as Pop, the winner of ties.
pub proof fn lemma_no_tokens_predict_pop(c: Classifier, toks: Seq<Seq<char>>)
    requires
        toks.len() == 0,
    ensures
        c.prediction(toks) == Class::Pop,
{
    reveal(pow);
}

/// Every token of the vocabulary was seen in at least one class, and every
/// token seen in a class is in the vocabulary.
pub proof fn lemma_vocabulary_is_union(c: Classifier)
    requires
        c.wf(),
    ensures
        c.vocabulary() == c.counts(Class::Pop).dom().union(c.counts(Class::Country).dom()),
{
}

/// Counting `a` and then `b` gives the counts of `a` followed by `b`.
pub proof fn lemma_add_tokens_concat(m: Map<Seq<char>, nat>, a: Seq<Seq<char>>, b: Seq<Seq<char>>)
    ensures
        add_tokens(add_tokens(m, a), b) == add_tokens(m, a + b),
    decreases b.len(),
{
    if b.len() == 0 {
        assert(a + b =~= a);
    } else {
        lemma_add_tokens_concat(m, a, b.drop_last());
        assert((a + b).drop_last() =~= a + b.drop_last());
        assert((a + b).last() == b.last());
    }
}

/// Training is additive: taking in `a` and then `b` for one class leaves the
/// classifier as taking in the tokens of `a` followed by those of `b` would.
pub proof fn lemma_training_is_additive(
    c0: Classifier,
    c1: Classifier,
    c2: Classifier,
    a: Seq<Seq<char>>,
    b: Seq<Seq<char>>,
    class: Class,
)
    requires
        Classifier::trained_from(c1, c0, a, class),
        Classifier::trained_from(c2, c1, b, class),
    ensures
        Classifier::trained_from(c2, c0, a + b, class),
{
    lemma_add_tokens_concat(c0.counts(class), a, b);
    assert((a + b).to_set() =~= a.to_set().union(b.to_set())) by {
        assert forall|t: Seq<char>|
            #[trigger] (a + b).to_set().contains(t) <==> a.to_set().union(b.to_set()).contains(
                t,
            ) by {
            if (a + b).contains(t) {
                let j = choose|j: int| 0 <= j < (a + b).len() && (a + b)[j] == t;
                if j < a.len() {
                    assert(a[j] == t);
                } else {
                    assert(b[j - a.len()] == t);
                }
            }
            if a.contains(t) {
                let j = choose|j: int| 0 <= j < a.len() && a[j] == t;
                assert((a + b)[j] == t);
            }
            if b.contains(t) {
                let j = choose|j: int| 0 <= j < b.len() && b[j] == t;
                assert((a + b)[j + a.len()] == t);
            }
        }
    }
    assert(c2.vocabulary() =~= c0.vocabulary().union((a + b).to_set()));
}

/// Tokens that a class never saw each contribute a factor of one.
proof fn lemma_count_product_unseen(m: Map<Seq<char>, nat>, toks: Seq<Seq<char>>)
    requires
        forall|i: int| 0 <= i < toks.len() ==> !m.contains_key(#[trigger] toks[i]),
    ensures
        count_product(m, toks) == 1,
    decreases toks.len(),
{
    if toks.len() > 0 {
        lemma_count_product_unseen(m, toks.drop_last());
        assert(!m.contains_key(toks[toks.len() - 1]));
        assert(count_in(m, toks.last()) == 0);
        assert(count_product(m, toks) == count_product(m, toks.drop_last()) * 1);
    }
}

/// Tokens that a class saw each contribute a factor of at least two.
proof fn lemma_count_product_seen(m: Map<Seq<char>, nat>, toks: Seq<Seq<char>>)
    requires
        forall|i: int| 0 <= i < toks.len() ==> m.contains_key(#[trigger] toks[i]),
        forall|t: Seq<char>| #[trigger] m.contains_key(t) ==> m[t] >= 1,
    ensures
        count_product(m, toks) >= pow(2, toks.len()),
    decreases toks.len(),
{
    reveal(pow);
    if toks.len() > 0 {
        let rest = toks.drop_last();
        lemma_count_product_seen(m, rest);
        assert(m.contains_key(toks[toks.len() - 1]));
        let p = count_product(m, rest);
        let q = pow(2, rest.len());
        let f = count_in(m, toks.last()) + 1;
        lemma_pow_positive(2, rest.len());
        assert(p * f >= 2 * q) by (nonlinear_arith)
            requires
                p >= q,
                q >= 0,
                f >= 2,
        ;
        lemma_pow_positive(2, rest.len());
    }
}

/// Powers grow with their base.
proof fn lemma_pow_base_le(a: int, b: int, n: nat)
    requires
        0 <= a <= b,
    ensures
        0 <= pow(a, n) <= pow(b, n),
        a < b && n > 0 ==> pow(a, n) < pow(b, n),
    decreases n,
{
    reveal(pow);
    if n > 0 {
        lemma_pow_base_le(a, b, (n - 1) as nat);
        let x = pow(a, (n - 1) as nat);
        let y = pow(b, (n - 1) as nat);
        assert(pow(a, n) == a * x);
        assert(pow(b, n) == b * y);
        assert(0 <= a * x <= b * y) by (nonlinear_arith)
            requires
                0 <= a <= b,
                0 <= x <= y,
        ;
        if a < b {
            if n == 1 {
                assert(x == 1 && y == 1);
                assert(a * x < b * y) by (nonlinear_arith)
                    requires
                        x == 1,
                        y == 1,
                        a < b,
                ;
            } else {
                lemma_pow_positive(b, (n - 1) as nat);
                assert(a * x < b * y) by (nonlinear_arith)
                    requires
                        0 <= a < b,
                        0 <= x < y,
                        y > 0,
                ;
            }
        }
    }
}

/// The counts kept for a class are all positive, and a class never holds
/// more distinct tokens than the vocabulary.
proof fn lemma_class_counts(c: Classifier, class: Class)
    requires
        c.wf(),
    ensures
        forall|t: Seq<char>| #[trigger] c.counts(class).contains_key(t) ==> c.counts(class)[t] >= 1,
        c.counts(class).dom().len() <= c.vocabulary().len(),
{
    let ws = c.word_views();
    let tally = match class {
        Class::Pop => c.pop,
        Class::Country => c.country,
    };
    assert forall|t: Seq<char>| #[trigger] c.counts(class).contains_key(t) implies c.counts(
        class,
    )[t] >= 1 by {
        let j = choose|j: int| 0 <= j < ws.len() && ws[j] == t;
        assert(tally.map@.contains_key(ws[j]));
    }
    vstd::set_lib::lemma_len_subset(c.counts(class).dom(), c.vocabulary());
}

/// A text whose tokens were all seen in one class and never in the other is
/// given that class, provided the other class saw at least one token.
pub proof fn lemma_exclusive_tokens_predict_their_class(
    c: Classifier,
    toks: Seq<Seq<char>>,
    class: Class,
)
    requires
        c.wf(),
        toks.len() > 0,
        c.counts(other(class)).dom().len() > 0,
        forall|i: int|
            0 <= i < toks.len() ==> c.counts(class).contains_key(#[trigger] toks[i])
                && !c.counts(other(class)).contains_key(toks[i]),
    ensures
        c.prediction(toks) == class,
{
    lemma_class_counts(c, class);
    lemma_class_counts(c, other(class));
    lemma_count_product_unseen(c.counts(other(class)), toks);
    lemma_count_product_seen(c.counts(class), toks);
    let n = toks.len();
    let u = c.vocabulary().len() as int;
    let tp = c.counts(Class::Pop).dom().len() as int;
    let tc = c.counts(Class::Country).dom().len() as int;
    let seen = count_product(c.counts(class), toks) as int;
    lemma_pow_distributes(2, tp + u, n);
    lemma_pow_distributes(2, tc + u, n);
    lemma_pow_base_le(0, tp + u, n);
    lemma_pow_base_le(0, tc + u, n);
    let pc = pow(tc + u, n);
    let pp = pow(tp + u, n);
    let two = pow(2, n);
    assert(c.cross_score(Class::Pop, toks) == count_product(c.counts(Class::Pop), toks) * pc);
    assert(c.cross_score(Class::Country, toks) == count_product(c.counts(Class::Country), toks)
        * pp);
    assert(c.prediction(toks) == if count_product(c.counts(Class::Pop), toks) * pc
        < count_product(c.counts(Class::Country), toks) * pp {
        Class::Country
    } else {
        Class::Pop
    });
    match class {
        Class::Country => {
            assert(count_product(c.counts(Class::Pop), toks) == 1);
            lemma_pow_base_le(tc + u, 2 * (tp + u), n);
            assert(pc < two * pp);
            assert(two * pp <= seen * pp) by (nonlinear_arith)
                requires
                    two <= seen,
                    pp >= 0,
            ;
        },
        Class::Pop => {
            assert(count_product(c.counts(Class::Country), toks) == 1);
            lemma_pow_base_le(tp + u, 2 * (tc + u), n);
            assert(pp <= two * pc);
            assert(two * pc <= seen * pc) by (nonlinear_arith)
                requires
                    two <= seen,
                    pc >= 0,
            ;
        },
    }
}

/// Every factor of a score is at least one.
proof fn lemma_count_product_positive(m: Map<Seq<char>, nat>, toks: Seq<Seq<char>>)
    ensures
        count_product(m, toks) >= 1,
    decreases toks.len(),
{
    if toks.len() > 0 {
        let rest = toks.drop_last();
        lemma_count_product_positive(m, rest);
        let p = count_product(m, rest);
        let f = count_in(m, toks.last()) + 1;
        assert(p * f >= 1) by (nonlinear_arith)
            requires
                p >= 1,
                f >= 1,
        ;
    }
}

/// Both scores are positive once the classifier has a vocabulary (or the
/// text has no tokens), so each class's share of their sum lies in [0, 1]
/// and the two shares sum to exactly one.
pub proof fn lemma_scores_positive(c: Classifier, toks: Seq<Seq<char>>)
    requires
        c.wf(),
        c.vocabulary().len() > 0 || toks.len() == 0,
    ensures
        c.cross_score(Class::Pop, toks) > 0,
        c.cross_score(Class::Country, toks) > 0,
{
    let u = c.vocabulary().len() as int;
    let tp = c.counts(Class::Pop).dom().len() as int;
    let tc = c.counts(Class::Country).dom().len() as int;
    lemma_count_product_positive(c.counts(Class::Pop), toks);
    lemma_count_product_positive(c.counts(Class::Country), toks);
    if toks.len() == 0 {
        reveal(pow);
    } else {
        lemma_pow_positive(tc + u, toks.len());
        lemma_pow_positive(tp + u, toks.len());
    }
    let a = count_product(c.counts(Class::Pop), toks) as int;
    let b = count_product(c.counts(Class::Country), toks) as int;
    let x = pow(tc + u, toks.len());
    let y = pow(tp + u, toks.len());
    assert(a * x > 0 && b * y > 0) by (nonlinear_arith)
        requires
            a >= 1,
            b >= 1,
            x > 0,
            y > 0,
    ;
}

} // verus!
