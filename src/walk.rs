use vstd::prelude::*;

use crate::model::{create_transition_matrix, transitions, TransitionModel};
use crate::normalize::{clean_word, normalize, views};

verus! {

/// The context reached once `out[j]` is emitted, on a walk seeded with context `(w1, out[0])`.
pub open spec fn context_after(w1: Seq<char>, out: Seq<Seq<char>>, j: int) -> (Seq<char>, Seq<char>) {
    (if j == 0 { w1 } else { out[j - 1] }, out[j])
}

/// `out` is a walk of at most `length` tokens over model `m` seeded with context `(w1, w2)`:
/// it starts with `w2`, every later token is a recorded successor of the context before it,
/// and it stops short of `length` only at a context with no recorded successor.
pub open spec fn is_walk(
    m: Map<(Seq<char>, Seq<char>), Seq<Seq<char>>>,
    length: int,
    w1: Seq<char>,
    w2: Seq<char>,
    out: Seq<Seq<char>>,
) -> bool {
    &&& 1 <= out.len() <= length
    &&& out[0] == w2
    &&& forall|j: int|
        1 <= j < out.len() ==> m.contains_key(#[trigger] context_after(w1, out, j - 1))
            && m[context_after(w1, out, j - 1)].contains(out[j])
    &&& out.len() < length ==> !m.contains_key(context_after(w1, out, out.len() - 1))
}

/// The walk over `m` seeded with context `(w1, w2)` after one step per entry of `choices`:
/// the current context and the tokens emitted. At a step whose context has successors `s`,
/// successor `s[c % |s|]` is emitted for choice `c`; at a dead end nothing happens.
pub open spec fn walk_with(
    m: Map<(Seq<char>, Seq<char>), Seq<Seq<char>>>,
    w1: Seq<char>,
    w2: Seq<char>,
    choices: Seq<usize>,
) -> (Seq<char>, Seq<char>, Seq<Seq<char>>)
    decreases choices.len(),
{
    if choices.len() == 0 {
        (w1, w2, seq![w2])
    } else {
        let (a, b, out) = walk_with(m, w1, w2, choices.drop_last());
        if m.contains_key((a, b)) {
            let s = m[(a, b)];
            let next = s[(choices.last() as int) % (s.len() as int)];
            (b, next, out.push(next))
        } else {
            (a, b, out)
        }
    }
}

/// Emits `length` tokens at most, starting with `w2`: at each of the `length - 1` steps, the
/// successor picked by the next entry of `choices` is emitted and the context shifts; at a dead
/// end the step emits nothing.
pub fn markov_chain_with_choices(
    model: &TransitionModel,
    length: usize,
    w1: String,
    w2: String,
    choices: &Vec<usize>,
) -> (r: Vec<String>)
    requires
        model.wf(),
        length >= 1,
        choices@.len() >= length - 1,
    ensures
        views(r@) == walk_with(model@, w1@, w2@, choices@.take(length - 1)).2,
        is_walk(model@, length as int, w1@, w2@, views(r@)),
{
    let ghost first = w1@;
    let ghost seed = w2@;
    let mut result: Vec<String> = Vec::new();
    result.push(w2.clone());
    let mut a = w1;
    let mut b = w2;
    proof {
        assert(choices@.take(0) =~= Seq::<usize>::empty());
        assert(views(result@) =~= seq![b@]);
    }
    for step in 0..length - 1
        invariant
            model.wf(),
            length >= 1,
            choices@.len() >= length - 1,
            first == w1@,
            seed == w2@,
            walk_with(model@, first, seed, choices@.take(step as int)) == (a@, b@, views(result@)),
            is_walk(model@, step + 1, first, seed, views(result@)),
            context_after(first, views(result@), result@.len() - 1) == (a@, b@),
    {
        let ghost before = views(result@);
        match model.successors(&a, &b) {
            Some(s) => {
                let next = s[choices[step] % s.len()].clone();
                result.push(next.clone());
                a = b;
                b = next;
            },
            None => {},
        }
        proof {
            let cs = choices@.take(step + 1);
            assert(cs.drop_last() =~= choices@.take(step as int));
            let out = views(result@);
            if model@.contains_key(context_after(first, before, before.len() - 1)) {
                assert(out =~= before.push(b@));
                assert forall|j: int| 1 <= j < out.len() implies model@.contains_key(
                    #[trigger] context_after(first, out, j - 1),
                ) && model@[context_after(first, out, j - 1)].contains(out[j]) by {
                    if j < before.len() {
                        assert(context_after(first, out, j - 1) == context_after(first, before, j - 1));
                    } else {
                        assert(context_after(first, out, j - 1) == context_after(first, before, before.len() - 1));
                        let s = model@[context_after(first, before, before.len() - 1)];
                        let k = (choices@[step as int] as int) % (s.len() as int);
                        assert(s[k] == out[j]);
                    }
                }
            } else {
                assert(out == before);
            }
        }
    }
    proof {
        assert(choices@.take(length - 1) == choices@.take((length - 1) as int));
    }
    result
}

/// A uniform draw from `0..n`.
/// Relies on `rand::thread_rng` and `rand::Rng::gen_range`: a draw from an exclusive range lies
/// in that range; `gen_range` panics on an empty range, which `n > 0` rules out. Nothing more
/// is known of the value drawn.
#[verifier::external_body]
fn random_below(n: usize) -> (r: usize)
    requires
        n > 0,
    ensures
        r < n,
{
    rand::Rng::gen_range(&mut rand::thread_rng(), 0..n)
}

/// Emits `length` tokens at most, starting with `w2`: at each of the `length - 1` steps a
/// successor of the current context is drawn uniformly from its recorded list (duplicates
/// weigh in), emitted, and the context shifts; at a dead end the step emits nothing.
/// With `length == 1` the model is not consulted and the result is `[w2]`.
pub fn markov_chain(model: &TransitionModel, length: usize, w1: String, w2: String) -> (r: Vec<String>)
    requires
        model.wf(),
        length >= 1,
    ensures
        is_walk(model@, length as int, w1@, w2@, views(r@)),
        length == 1 ==> views(r@) == seq![w2@],
{
    let ghost first = w1@;
    let ghost seed = w2@;
    let mut result: Vec<String> = Vec::new();
    result.push(w2.clone());
    let mut a = w1;
    let mut b = w2;
    proof {
        assert(views(result@) =~= seq![b@]);
    }
    for step in 0..length - 1
        invariant
            model.wf(),
            first == w1@,
            seed == w2@,
            is_walk(model@, step + 1, first, seed, views(result@)),
            context_after(first, views(result@), result@.len() - 1) == (a@, b@),
    {
        let ghost before = views(result@);
        match model.successors(&a, &b) {
            Some(s) => {
                let pick = random_below(s.len());
                let next = s[pick].clone();
                result.push(next.clone());
                a = b;
                b = next;
                proof {
                    let out = views(result@);
                    assert(out =~= before.push(b@));
                    assert forall|j: int| 1 <= j < out.len() implies model@.contains_key(
                        #[trigger] context_after(first, out, j - 1),
                    ) && model@[context_after(first, out, j - 1)].contains(out[j]) by {
                        if j < before.len() {
                            assert(context_after(first, out, j - 1) == context_after(first, before, j - 1));
                        } else {
                            assert(context_after(first, out, j - 1) == context_after(first, before, before.len() - 1));
                            assert(views(s@)[pick as int] == out[j]);
                        }
                    }
                }
            },
            None => {},
        }
    }
    result
}

/// Why no passphrase can be generated.
#[derive(Debug, Clone, Copy, PartialEq, Eq, Structural)]
pub enum PassphraseError {
    /// The requested length is zero.
    InvalidLength,
    /// The corpus has fewer than three tokens, so no start window exists.
    InsufficientCorpus,
}

/// How many start positions a corpus of `n >= 3` tokens offers: positions `0 .. n - 3`, and
/// position 0 alone where the corpus is a single window.
pub open spec fn start_count(n: int) -> int {
    if n > 3 {
        n - 3
    } else {
        1
    }
}

/// The normalized tokens of a list of words.
pub open spec fn cleaned(words: Seq<String>) -> Seq<Seq<char>> {
    views(words).map_values(|w: Seq<char>| normalize(w))
}

/// Generates a sequence from a model and the corpus it was built from: a start window is
/// drawn among `start_count(tokens.len())` positions, and a walk of `length` tokens at most is
/// made from its last two tokens.
pub fn generate(model: &TransitionModel, tokens: &Vec<String>, length: usize) -> (r: Result<
    Vec<String>,
    PassphraseError,
>)
    requires
        model.wf(),
    ensures
        length == 0 <==> r == Err::<Vec<String>, PassphraseError>(PassphraseError::InvalidLength),
        length > 0 && tokens@.len() < 3 <==> r == Err::<Vec<String>, PassphraseError>(
            PassphraseError::InsufficientCorpus,
        ),
        r is Ok ==> exists|start: int|
            0 <= start < start_count(tokens@.len() as int) && #[trigger] is_walk(
                model@,
                length as int,
                tokens@[start + 1]@,
                tokens@[start + 2]@,
                views(r->Ok_0@),
            ),
{
    if length == 0 {
        return Err(PassphraseError::InvalidLength);
    }
    if tokens.len() < 3 {
        return Err(PassphraseError::InsufficientCorpus);
    }
    let n = tokens.len();
    let count: usize = if n > 3 { n - 3 } else { 1 };
    let start = random_below(count);
    let out = markov_chain(model, length, tokens[start + 1].clone(), tokens[start + 2].clone());
    let r: Result<Vec<String>, PassphraseError> = Ok(out);
    assert(views(r->Ok_0@) == views(out@));
    r
}

/// Generates a passphrase from a list of words: every word is normalized, the transition model
/// of the tokens is built, and `generate` walks it.
pub fn generate_passphrase(words: Vec<String>, length: usize) -> (r: Result<Vec<String>, PassphraseError>)
    ensures
        length == 0 <==> r == Err::<Vec<String>, PassphraseError>(PassphraseError::InvalidLength),
        length > 0 && words@.len() < 3 <==> r == Err::<Vec<String>, PassphraseError>(
            PassphraseError::InsufficientCorpus,
        ),
        r is Ok ==> exists|start: int|
            0 <= start < start_count(words@.len() as int) && #[trigger] is_walk(
                transitions(cleaned(words@)),
                length as int,
                cleaned(words@)[start + 1],
                cleaned(words@)[start + 2],
                views(r->Ok_0@),
            ),
        r is Ok && words@.len() == 3 ==> is_walk(
            transitions(cleaned(words@)),
            length as int,
            cleaned(words@)[1],
            cleaned(words@)[2],
            views(r->Ok_0@),
        ),
{
    let ghost t = cleaned(words@);
    let mut tokens: Vec<String> = Vec::new();
    let mut corpus: Vec<String> = Vec::new();
    for i in 0..words.len()
        invariant
            t == cleaned(words@),
            tokens@.len() == i,
            corpus@.len() == i,
            views(tokens@) == t.take(i as int),
            views(corpus@) == t.take(i as int),
    {
        let token = clean_word(words[i].as_str());
        corpus.push(token.clone());
        tokens.push(token);
        proof {
            assert(corpus@[i as int]@ == t[i as int]);
            assert(views(tokens@) =~= t.take(i + 1));
            assert(views(corpus@) =~= t.take(i + 1));
        }
    }
    proof {
        assert(t.take(words@.len() as int) =~= t);
    }
    let model = create_transition_matrix(corpus);
    let r = generate(&model, &tokens, length);
    proof {
        assert(forall|k: int| 0 <= k < tokens@.len() ==> tokens@[k]@ == #[trigger] t[k]);
        if r is Ok {
            let start = choose|start: int|
                0 <= start < start_count(tokens@.len() as int) && #[trigger] is_walk(
                    model@,
                    length as int,
                    tokens@[start + 1]@,
                    tokens@[start + 2]@,
                    views(r->Ok_0@),
                );
            assert(tokens@[start + 1]@ == t[start + 1]);
            assert(tokens@[start + 2]@ == t[start + 2]);
            assert(is_walk(transitions(t), length as int, t[start + 1], t[start + 2], views(r->Ok_0@)));
        }
    }
    r
}

} // verus!
