use vstd::prelude::*;

use crate::normalize::views;

verus! {

/// The number of width-3 windows in a sequence of `n` tokens.
pub open spec fn window_count(n: int) -> int {
    if n >= 3 {
        n - 2
    } else {
        0
    }
}

/// The context of every window of `t`, in corpus order: window `k` has context `(t[k], t[k+1])`.
pub open spec fn contexts(t: Seq<Seq<char>>) -> Seq<(Seq<char>, Seq<char>)> {
    Seq::new(window_count(t.len() as int) as nat, |k: int| (t[k], t[k + 1]))
}

/// The third token of each of the first `k` windows of `t` whose context is `(a, b)`, in order.
pub open spec fn followers(t: Seq<Seq<char>>, a: Seq<char>, b: Seq<char>, k: int) -> Seq<Seq<char>>
    decreases k,
{
    if k <= 0 {
        Seq::empty()
    } else {
        let before = followers(t, a, b, k - 1);
        if t[k - 1] == a && t[k] == b {
            before.push(t[k + 1])
        } else {
            before
        }
    }
}

/// The transition model of a token sequence: each context that occurs in a window, mapped to
/// every token that follows it in the sequence, duplicates kept.
pub open spec fn transitions(t: Seq<Seq<char>>) -> Map<(Seq<char>, Seq<char>), Seq<Seq<char>>> {
    Map::new(
        |c: (Seq<char>, Seq<char>)| contexts(t).contains(c),
        |c: (Seq<char>, Seq<char>)| followers(t, c.0, c.1, window_count(t.len() as int)),
    )
}

/// One context of the model and the tokens recorded after it.
pub struct Transition {
    pub first: String,
    pub second: String,
    pub successors: Vec<String>,
}

/// A second-order transition model: a map from a pair of consecutive tokens to the tokens
/// observed after that pair.
pub struct TransitionModel {
    entries: Vec<Transition>,
}

impl TransitionModel {
    /// The context of entry `i`.
    pub closed spec fn key_at(&self, i: int) -> (Seq<char>, Seq<char>) {
        (self.entries@[i].first@, self.entries@[i].second@)
    }

    /// Every context occurs once, and each has at least one successor.
    pub closed spec fn wf(&self) -> bool {
        &&& forall|i: int, j: int|
            0 <= i < j < self.entries@.len() ==> self.key_at(i) != self.key_at(j)
        &&& forall|i: int|
            0 <= i < self.entries@.len() ==> #[trigger] self.entries@[i].successors@.len() > 0
    }

    /// The number of contexts held.
    pub closed spec fn spec_len(&self) -> nat {
        self.entries@.len()
    }
}

impl View for TransitionModel {
    type V = Map<(Seq<char>, Seq<char>), Seq<Seq<char>>>;

    closed spec fn view(&self) -> Self::V {
        Map::new(
            |c: (Seq<char>, Seq<char>)|
                exists|i: int| 0 <= i < self.entries@.len() && self.key_at(i) == c,
            |c: (Seq<char>, Seq<char>)|
                views(
                    self.entries@[choose|i: int|
                        0 <= i < self.entries@.len() && self.key_at(i) == c].successors@,
                ),
        )
    }
}

/// A context with a recorded follower among the first `k` windows is the context of one of them.
proof fn lemma_followers_window(t: Seq<Seq<char>>, a: Seq<char>, b: Seq<char>, k: int)
    requires
        followers(t, a, b, k).len() > 0,
    ensures
        exists|w: int| 0 <= w < k && #[trigger] t[w] == a && t[w + 1] == b,
    decreases k,
{
    if k > 0 && !(t[k - 1] == a && t[k] == b) {
        lemma_followers_window(t, a, b, k - 1);
    }
}

/// The follower of window `w` stays recorded once later windows are read.
proof fn lemma_followers_keep(t: Seq<Seq<char>>, w: int, k: int)
    requires
        0 <= w < k,
    ensures
        followers(t, t[w], t[w + 1], k).contains(t[w + 2]),
    decreases k,
{
    let f = followers(t, t[w], t[w + 1], k);
    if w == k - 1 {
        assert(f[f.len() - 1] == t[w + 2]);
    } else {
        lemma_followers_keep(t, w, k - 1);
        let g = followers(t, t[w], t[w + 1], k - 1);
        let j = choose|j: int| 0 <= j < g.len() && g[j] == t[w + 2];
        assert(f[j] == t[w + 2]);
    }
}

impl TransitionModel {
    /// The number of contexts held.
    pub fn len(&self) -> (r: usize)
        requires
            self.wf(),
        ensures
            r == self@.dom().len(),
    {
        proof {
            let keys = Seq::new(self.entries@.len(), |i: int| self.key_at(i));
            assert forall|c: (Seq<char>, Seq<char>)| #[trigger] self@.dom().contains(c)
                <==> keys.to_set().contains(c) by {
                if keys.contains(c) {
                    let i = choose|i: int| 0 <= i < keys.len() && keys[i] == c;
                    assert(self.key_at(i) == c);
                }
                if self@.dom().contains(c) {
                    let i = choose|i: int| 0 <= i < self.entries@.len() && self.key_at(i) == c;
                    assert(keys[i] == c);
                }
            }
            assert(self@.dom() =~= keys.to_set());
            assert(keys.no_duplicates());
            keys.unique_seq_to_set();
        }
        self.entries.len()
    }

    /// The position of the entry for context `(a, b)`, if there is one.
    fn find(&self, a: &String, b: &String) -> (r: Option<usize>)
        ensures
            match r {
                Some(i) => i < self.spec_len() && self.key_at(i as int) == (a@, b@),
                None => forall|i: int| 0 <= i < self.spec_len() ==> self.key_at(i) != (a@, b@),
            },
    {
        let mut i: usize = 0;
        while i < self.entries.len()
            invariant
                i <= self.entries@.len(),
                forall|j: int| 0 <= j < i ==> self.key_at(j) != (a@, b@),
            decreases self.entries@.len() - i,
        {
            if self.entries[i].first == *a && self.entries[i].second == *b {
                return Some(i);
            }
            i = i + 1;
        }
        None
    }

    /// The tokens recorded after context `(a, b)`, or `None` where the context is a dead end.
    pub fn successors(&self, a: &String, b: &String) -> (r: Option<&Vec<String>>)
        requires
            self.wf(),
        ensures
            r is Some <==> self@.contains_key((a@, b@)),
            r matches Some(v) ==> views(v@) == self@[(a@, b@)] && v@.len() > 0,
    {
        match self.find(a, b) {
            Some(i) => {
                proof {
                    assert(self@.contains_key((a@, b@)));
                    let j = choose|j: int| 0 <= j < self.entries@.len() && self.key_at(j) == (a@, b@);
                    assert(j == i);
                }
                Some(&self.entries[i].successors)
            },
            None => None,
        }
    }
}

/// Builds the transition model of a token sequence: for every window `(w0, w1, w2)`, in corpus
/// order, `w2` is recorded after context `(w0, w1)`. Fewer than three tokens give an empty model.
pub fn create_transition_matrix(words: Vec<String>) -> (r: TransitionModel)
    ensures
        r.wf(),
        r@ == transitions(views(words@)),
        r@.dom().finite(),
        r@.dom().len() <= window_count(words@.len() as int),
        forall|c: (Seq<char>, Seq<char>)| #[trigger] r@.contains_key(c) ==> r@[c].len() > 0,
{
    let ghost t = views(words@);
    let n = words.len();
    let count: usize = if n >= 3 { n - 2 } else { 0 };
    let mut model = TransitionModel { entries: Vec::new() };
    let ghost mut slots: Seq<int> = Seq::empty();
    for k in 0..count
        invariant
            t == views(words@),
            n == words@.len(),
            count == window_count(n as int),
            model.wf(),
            forall|i: int|
                0 <= i < model.spec_len() ==> views(#[trigger] model.entries@[i].successors@)
                    == followers(t, model.key_at(i).0, model.key_at(i).1, k as int),
            slots.len() == k,
            forall|w: int|
                0 <= w < k ==> 0 <= #[trigger] slots[w] < model.spec_len() && model.key_at(slots[w])
                    == contexts(t)[w],
    {
        let ghost before = model;
        let ghost mut slot: int = 0;
        let next = words[k + 2].clone();
        match model.find(&words[k], &words[k + 1]) {
            Some(j) => {
                model.entries[j].successors.push(next);
                proof {
                    assert(forall|i: int| 0 <= i < model.spec_len() ==> model.key_at(i) == before.key_at(i));
                    assert forall|i: int| 0 <= i < model.spec_len() implies views(
                        #[trigger] model.entries@[i].successors@,
                    ) == followers(t, model.key_at(i).0, model.key_at(i).1, k + 1) by {
                        if i == j {
                            assert(views(model.entries@[i].successors@) =~= views(
                                before.entries@[i].successors@,
                            ).push(t[k + 2]));
                        } else {
                            assert(model.entries@[i] == before.entries@[i]);
                        }
                    }
                    assert(model.key_at(j as int) == contexts(t)[k as int]);
                    slot = j as int;
                }
            },
            None => {
                let first = words[k].clone();
                let second = words[k + 1].clone();
                let mut successors: Vec<String> = Vec::new();
                successors.push(next);
                model.entries.push(Transition { first, second, successors });
                proof {
                    let last = model.spec_len() - 1;
                    assert(forall|i: int| 0 <= i < last ==> model.key_at(i) == before.key_at(i));
                    assert(views(model.entries@[last].successors@) =~= seq![t[k + 2]]);
                    assert(followers(t, t[k as int], t[k + 1], k as int).len() == 0) by {
                        if followers(t, t[k as int], t[k + 1], k as int).len() > 0 {
                            lemma_followers_window(t, t[k as int], t[k + 1], k as int);
                            let w = choose|w: int| 0 <= w < k && #[trigger] t[w] == t[k as int] && t[w + 1] == t[k + 1];
                            assert(contexts(t)[w] == (t[k as int], t[k + 1]));
                            assert(before.key_at(slots[w]) == (words@[k as int]@, words@[k + 1]@));
                        }
                    }
                    assert(followers(t, t[k as int], t[k + 1], k as int) =~= Seq::<Seq<char>>::empty());
                    assert(model.key_at(last) == contexts(t)[k as int]);
                    slot = last;
                    assert forall|i: int| 0 <= i < last implies views(
                        #[trigger] model.entries@[i].successors@,
                    ) == followers(t, model.key_at(i).0, model.key_at(i).1, k + 1) by {
                        assert(model.entries@[i] == before.entries@[i]);
                    }
                }
            },
        }
        proof {
            assert forall|w: int| 0 <= w < k implies 0 <= #[trigger] slots[w] < model.spec_len()
                && model.key_at(slots[w]) == contexts(t)[w] by {
                assert(model.key_at(slots[w]) == before.key_at(slots[w]));
            }
            slots = slots.push(slot);
        }
    }
    proof {
        lemma_model_view(model, t, slots);
        lemma_model_size(t);
        lemma_successors_nonempty(t);
    }
    model
}

proof fn lemma_model_view(model: TransitionModel, t: Seq<Seq<char>>, slots: Seq<int>)
    requires
        model.wf(),
        forall|i: int|
            0 <= i < model.spec_len() ==> views(#[trigger] model.entries@[i].successors@)
                == followers(t, model.key_at(i).0, model.key_at(i).1, window_count(t.len() as int)),
        slots.len() == window_count(t.len() as int),
        forall|w: int|
            0 <= w < slots.len() ==> 0 <= #[trigger] slots[w] < model.spec_len() && model.key_at(
                slots[w],
            ) == contexts(t)[w],
    ensures
        model@ == transitions(t),
{
    let m = transitions(t);
    let n = window_count(t.len() as int);
    assert forall|c: (Seq<char>, Seq<char>)| #[trigger] model@.contains_key(c) <==> m.contains_key(c) by {
        if model@.contains_key(c) {
            let i = choose|i: int| 0 <= i < model.spec_len() && model.key_at(i) == c;
            assert(model.entries@[i].successors@.len() > 0);
            lemma_followers_window(t, c.0, c.1, n);
            let w = choose|w: int| 0 <= w < n && #[trigger] t[w] == c.0 && t[w + 1] == c.1;
            assert(contexts(t)[w] == c);
        }
        if m.contains_key(c) {
            let w = choose|w: int| 0 <= w < contexts(t).len() && contexts(t)[w] == c;
            assert(model.key_at(slots[w]) == c);
        }
    }
    assert forall|c: (Seq<char>, Seq<char>)| #[trigger] model@.contains_key(c) implies model@[c] == m[c] by {
        let i = choose|i: int| 0 <= i < model.spec_len() && model.key_at(i) == c;
        assert(views(model.entries@[i].successors@) == followers(t, c.0, c.1, n));
    }
    assert(model@ =~= m);
}

/// Completeness: for every window `(a, b, c)` of the sequence, `(a, b)` is a context of the
/// model and `c` is among its successors.
pub proof fn lemma_model_complete(t: Seq<Seq<char>>, w: int)
    requires
        0 <= w < window_count(t.len() as int),
    ensures
        transitions(t).contains_key((t[w], t[w + 1])),
        transitions(t)[(t[w], t[w + 1])].contains(t[w + 2]),
{
    assert(contexts(t)[w] == (t[w], t[w + 1]));
    lemma_followers_keep(t, w, window_count(t.len() as int));
}

/// Size bound: the model has no more contexts than the sequence has windows.
pub proof fn lemma_model_size(t: Seq<Seq<char>>)
    ensures
        transitions(t).dom().finite(),
        transitions(t).dom().len() <= window_count(t.len() as int),
{
    assert(transitions(t).dom() =~= contexts(t).to_set());
    contexts(t).lemma_cardinality_of_set();
    broadcast use vstd::seq_lib::seq_to_set_is_finite;
}

/// A sequence of exactly three tokens gives a model with one context, which is followed by
/// the third token.
pub proof fn lemma_three_tokens(t: Seq<Seq<char>>)
    requires
        t.len() == 3,
    ensures
        transitions(t).dom() == set![(t[0], t[1])],
        transitions(t).dom().len() == 1,
        transitions(t)[(t[0], t[1])] == seq![t[2]],
{
    assert(contexts(t) =~= seq![(t[0], t[1])]);
    assert(contexts(t)[0] == (t[0], t[1]));
    assert(transitions(t).dom() =~= set![(t[0], t[1])]);
    assert(followers(t, t[0], t[1], 0) =~= Seq::<Seq<char>>::empty());
    assert(followers(t, t[0], t[1], 1) =~= seq![t[2]]);
    assert(set![(t[0], t[1])].len() == 1);
}

/// Every context of the model has at least one recorded successor.
pub proof fn lemma_successors_nonempty(t: Seq<Seq<char>>)
    ensures
        forall|c: (Seq<char>, Seq<char>)|
            #[trigger] transitions(t).contains_key(c) ==> transitions(t)[c].len() > 0,
{
    assert forall|c: (Seq<char>, Seq<char>)| #[trigger] transitions(t).contains_key(c) implies transitions(
        t,
    )[c].len() > 0 by {
        let w = choose|w: int| 0 <= w < contexts(t).len() && contexts(t)[w] == c;
        lemma_model_complete(t, w);
    }
}

} // verus!
