use crate::memory::{SpikeMemory, spelling, terminal, unfolds};
use crate::models::{NeuronOrigin, NeuronState};
use crate::text::{
    concat_all, law_lex_splits, law_lex_token_count, lex, non_blank, split_tokens, token_starts,
    views, well_formed_token,
};
use vstd::prelude::*;

verus! {

/// The characters of `;`.
pub open spec fn semicolon() -> Seq<char> {
    seq![';']
}

/// The characters of `"bad_literal"` (with its quotes).
pub open spec fn bad_literal() -> Seq<char> {
    seq!['"', 'b', 'a', 'd', '_', 'l', 'i', 't', 'e', 'r', 'a', 'l', '"']
}

/// `trail` with `w` at the end, unless it is already there.
pub open spec fn push_new(trail: Seq<Seq<char>>, w: Seq<char>) -> Seq<Seq<char>> {
    if trail.contains(w) {
        trail
    } else {
        trail.push(w)
    }
}

/// `trail` after taking in the words of a chunk in order: each word not yet there is added,
/// except `"bad_literal"`.
pub open spec fn take_in_words(trail: Seq<Seq<char>>, words: Seq<Seq<char>>) -> Seq<Seq<char>>
    decreases words.len(),
{
    if words.len() == 0 {
        trail
    } else {
        let t = take_in_words(trail, words.drop_last());
        if words.last() == bad_literal() {
            t
        } else {
            push_new(t, words.last())
        }
    }
}

/// The words of the text of neuron `id`.
pub open spec fn words_of(neurons: Seq<NeuronState>, id: u64) -> Seq<Seq<char>> {
    lex(spelling(neurons, id), Seq::empty())
}

/// The trail after taking in neuron `next_id`: a token neuron adds its name (unless already
/// there); a chunk adds the words of its text (see `take_in_words`); an id without a neuron
/// adds nothing.
pub open spec fn trail_after(neurons: Seq<NeuronState>, trail: Seq<Seq<char>>, next_id: u64) -> Seq<Seq<char>> {
    if next_id >= neurons.len() {
        trail
    } else {
        match neurons[next_id as int].origin {
            NeuronOrigin::BaseToken(name) => push_new(trail, name@),
            NeuronOrigin::ChunkSequence(_, _) => take_in_words(trail, words_of(neurons, next_id)),
        }
    }
}

/// Taking in neuron `next_id` meets a `;`: its name, or a word of its text.
pub open spec fn walk_stops_at(neurons: Seq<NeuronState>, next_id: u64) -> bool {
    if next_id >= neurons.len() {
        false
    } else {
        match neurons[next_id as int].origin {
            NeuronOrigin::BaseToken(name) => name@ == semicolon(),
            NeuronOrigin::ChunkSequence(_, _) => words_of(neurons, next_id).contains(semicolon()),
        }
    }
}

/// Where the walk stands after taking in neuron `next_id`: on a token neuron itself, on the
/// last token of a chunk; it does not move for an id without a neuron.
pub open spec fn walk_moves_to(neurons: Seq<NeuronState>, next_id: u64) -> Option<u64> {
    if next_id >= neurons.len() {
        None
    } else {
        match neurons[next_id as int].origin {
            NeuronOrigin::BaseToken(_) => Some(next_id),
            NeuronOrigin::ChunkSequence(_, _) => Some(terminal(neurons, next_id)),
        }
    }
}

/// Taking words in never repeats one.
proof fn lemma_take_in_words_distinct(trail: Seq<Seq<char>>, words: Seq<Seq<char>>)
    requires
        trail.no_duplicates(),
    ensures
        take_in_words(trail, words).no_duplicates(),
    decreases words.len(),
{
    if words.len() > 0 {
        lemma_take_in_words_distinct(trail, words.drop_last());
        lemma_push_new_distinct(take_in_words(trail, words.drop_last()), words.last());
    }
}

/// Adding a word only when it is absent never repeats one.
proof fn lemma_push_new_distinct(trail: Seq<Seq<char>>, w: Seq<char>)
    requires
        trail.no_duplicates(),
    ensures
        push_new(trail, w).no_duplicates(),
{
    if !trail.contains(w) {
        let t = trail.push(w);
        assert forall|i: int, j: int| 0 <= i < t.len() && 0 <= j < t.len() && i != j implies t[i] != t[j] by {
            if i == trail.len() {
                assert(trail[j] == t[j]);
            } else if j == trail.len() {
                assert(trail[i] == t[i]);
            }
        }
    }
}

/// A trail never holds a word twice: taking in any neuron keeps the words of a trail
/// distinct.
pub proof fn law_trail_stays_distinct(neurons: Seq<NeuronState>, trail: Seq<Seq<char>>, next_id: u64)
    requires
        trail.no_duplicates(),
    ensures
        trail_after(neurons, trail, next_id).no_duplicates(),
{
    if next_id < neurons.len() {
        match neurons[next_id as int].origin {
            NeuronOrigin::BaseToken(name) => lemma_push_new_distinct(trail, name@),
            NeuronOrigin::ChunkSequence(_, _) => lemma_take_in_words_distinct(
                trail,
                words_of(neurons, next_id),
            ),
        }
    }
}

/// What taking words into a trail does, stated over the words alone.
proof fn lemma_take_in_words(trail: Seq<Seq<char>>, words: Seq<Seq<char>>)
    ensures
        ({
            let r = take_in_words(trail, words);
            &&& r.len() >= trail.len()
            &&& r.take(trail.len() as int) == trail
            &&& forall|k: int|
                0 <= k < words.len() && words[k] != bad_literal() ==> r.contains(#[trigger] words[k])
            &&& forall|j: int|
                trail.len() <= j < r.len() ==> r[j] != bad_literal() && !trail.contains(r[j])
                    && exists|k: int| 0 <= k < words.len() && words[k] == #[trigger] r[j]
            &&& forall|i: int, j: int|
                trail.len() <= i < j < r.len() ==> exists|a: int, b: int|
                    0 <= a < b < words.len() && words[a] == #[trigger] r[i] && words[b] == #[trigger] r[j]
        }),
    decreases words.len(),
{
    let r = take_in_words(trail, words);
    if words.len() == 0 {
        assert(r.take(trail.len() as int) =~= trail);
    } else {
        let front = words.drop_last();
        lemma_take_in_words(trail, front);
        let r0 = take_in_words(trail, front);
        let w = words.last();
        let n = words.len() as int;
        assert forall|k: int| 0 <= k < n - 1 implies front[k] == words[k] by {}
        // r extends r0
        assert(r.len() >= r0.len());
        assert forall|j: int| 0 <= j < r0.len() implies r[j] == r0[j] by {
            if w != bad_literal() && !r0.contains(w) {
                assert(r == r0.push(w));
            }
        }
        assert(r.take(trail.len() as int) =~= trail) by {
            assert forall|j: int| 0 <= j < trail.len() implies r[j] == trail[j] by {
                assert(r0.take(trail.len() as int)[j] == trail[j]);
            }
        }
        assert forall|k: int| 0 <= k < n && words[k] != bad_literal() implies r.contains(
            #[trigger] words[k],
        ) by {
            if k < n - 1 {
                assert(r0.contains(front[k]));
                let j = choose|j: int| 0 <= j < r0.len() && r0[j] == front[k];
                assert(r[j] == words[k]);
            } else {
                if r0.contains(w) {
                    let j = choose|j: int| 0 <= j < r0.len() && r0[j] == w;
                    assert(r[j] == w);
                } else {
                    assert(r == r0.push(w));
                    assert(r[r0.len() as int] == w);
                }
            }
        }
        assert forall|j: int| trail.len() <= j < r.len() implies r[j] != bad_literal() && !trail.contains(r[j])
            && exists|k: int| 0 <= k < words.len() && words[k] == #[trigger] r[j] by {
            if j < r0.len() {
                assert(r[j] == r0[j]);
                let k = choose|k: int| 0 <= k < front.len() && front[k] == r0[j];
                assert(words[k] == r[j]);
            } else {
                assert(r == r0.push(w));
                assert(r[j] == w);
                assert(words[n - 1] == w);
                if trail.contains(w) {
                    let q = choose|q: int| 0 <= q < trail.len() && trail[q] == w;
                    assert(r0.take(trail.len() as int)[q] == r0[q]);
                    assert(r0[q] == w);
                }
            }
        }
        assert forall|i: int, j: int| trail.len() <= i < j < r.len() implies exists|a: int, b: int|
            0 <= a < b < words.len() && words[a] == #[trigger] r[i] && words[b] == #[trigger] r[j] by {
            if j < r0.len() {
                let (a, b) = choose|a: int, b: int|
                    0 <= a < b < front.len() && front[a] == #[trigger] r0[i] && front[b] == #[trigger] r0[j];
                assert(words[a] == r[i] && words[b] == r[j]);
            } else {
                assert(r == r0.push(w));
                assert(r[i] == r0[i]);
                let a = choose|a: int| 0 <= a < front.len() && front[a] == #[trigger] r0[i];
                assert(words[a] == r[i] && words[n - 1] == r[j]);
            }
        }
    }
}

/// `w` is the quoted literal `"bad_literal"`.
pub open spec fn is_bad_literal(w: Seq<char>) -> bool {
    w == seq!['"', 'b', 'a', 'd', '_', 'l', 'i', 't', 'e', 'r', 'a', 'l', '"']
}

/// `x` occurs in `words` at some position before one where `y` occurs.
pub open spec fn comes_before(words: Seq<Seq<char>>, x: Seq<char>, y: Seq<char>) -> bool {
    exists|a: int, b: int|
        #![trigger words[a], words[b]]
        0 <= a < b < words.len() && words[a] == x && words[b] == y
}

/// The words of `added` come in `words` in the same order: of any two of them, the first is
/// found in `words` before the second.
pub open spec fn keeps_order(added: Seq<Seq<char>>, words: Seq<Seq<char>>) -> bool {
    forall|i: int, j: int|
        #![trigger added[i], added[j]]
        0 <= i < j < added.len() ==> comes_before(words, added[i], added[j])
}

/// Taking a chunk into a trail keeps the trail as it was and adds, after it, every word of
/// the chunk's text that is not already there, except `"bad_literal"`: every such word ends
/// up in the trail, each added word is a word of the text not there before, and added words
/// keep the order of the text.
pub proof fn law_chunk_fills_trail(neurons: Seq<NeuronState>, trail: Seq<Seq<char>>, id: u64)
    requires
        id < neurons.len(),
        neurons[id as int].origin is ChunkSequence,
    ensures
        trail_after(neurons, trail, id).take(trail.len() as int) == trail,
        forall|k: int|
            0 <= k < words_of(neurons, id).len() && !is_bad_literal(words_of(neurons, id)[k])
                ==> trail_after(neurons, trail, id).contains(#[trigger] words_of(neurons, id)[k]),
        forall|j: int|
            trail.len() <= j < trail_after(neurons, trail, id).len() ==> !is_bad_literal(
                trail_after(neurons, trail, id)[j],
            ) && !trail.contains(trail_after(neurons, trail, id)[j]) && exists|k: int|
                0 <= k < words_of(neurons, id).len() && words_of(neurons, id)[k]
                    == #[trigger] trail_after(neurons, trail, id)[j],
        keeps_order(trail_after(neurons, trail, id).skip(trail.len() as int), words_of(neurons, id)),
{
    let words = words_of(neurons, id);
    lemma_take_in_words(trail, words);
    let r = trail_after(neurons, trail, id);
    assert(r == take_in_words(trail, words));
    let lit = seq!['"', 'b', 'a', 'd', '_', 'l', 'i', 't', 'e', 'r', 'a', 'l', '"'];
    assert(lit =~= bad_literal());
    assert(r.take(trail.len() as int) == trail);
    assert forall|k: int| 0 <= k < words.len() && !is_bad_literal(words[k]) implies r.contains(
        #[trigger] words[k],
    ) by {
        assert(words[k] != bad_literal());
    }
    assert forall|j: int| trail.len() <= j < r.len() implies !is_bad_literal(r[j]) && !trail.contains(
        r[j],
    ) && exists|k: int| 0 <= k < words.len() && words[k] == #[trigger] r[j] by {
        assert(r[j] != bad_literal());
    }
    let n = trail.len() as int;
    let added = r.skip(n);
    assert forall|i: int, j: int| #![trigger added[i], added[j]] 0 <= i < j < added.len() implies comes_before(
        words,
        added[i],
        added[j],
    ) by {
        assert(added[i] == r[i + n] && added[j] == r[j + n]);
        let (a, b) = choose|a: int, b: int|
            0 <= a < b < words.len() && words[a] == #[trigger] r[i + n] && words[b] == #[trigger] r[j + n];
        assert(words[a] == added[i] && words[b] == added[j]);
    }
}

/// Taking a chunk in ends the walk exactly when `;` is one of the words of its text, wherever
/// it stands among them.
pub proof fn law_chunk_stop(neurons: Seq<NeuronState>, id: u64)
    requires
        id < neurons.len(),
        neurons[id as int].origin is ChunkSequence,
    ensures
        walk_stops_at(neurons, id) <==> exists|k: int|
            0 <= k < words_of(neurons, id).len() && #[trigger] words_of(neurons, id)[k] == seq![';'],
{
}

/// The words of a neuron's text are its text cut at whitespace: written one after the other
/// they give the text without its whitespace, none is empty or holds whitespace, and there is
/// one word per run of non-whitespace characters.
pub proof fn law_words_of(neurons: Seq<NeuronState>, id: u64)
    ensures
        concat_all(words_of(neurons, id)) == non_blank(spelling(neurons, id)),
        forall|k: int|
            0 <= k < words_of(neurons, id).len() ==> well_formed_token(
                #[trigger] words_of(neurons, id)[k],
                Seq::empty(),
            ),
        words_of(neurons, id).len() == token_starts(
            spelling(neurons, id),
            Seq::empty(),
            spelling(neurons, id).len() as int,
        ),
{
    law_lex_splits(spelling(neurons, id), Seq::empty());
    law_lex_token_count(spelling(neurons, id), Seq::empty());
}

/// What taking a neuron into the trail tells the walk.
pub struct TrailStep {
    /// A `;` was met: the walk is over.
    pub should_break: bool,
    /// The neuron the walk now stands on, if it moved.
    pub next_current: Option<u64>,
}

/// Whether `s` is one of `v`.
pub fn contains_string(v: &Vec<String>, s: &String) -> (r: bool)
    ensures
        r == views(v@).contains(s@),
{
    let mut i: usize = 0;
    while i < v.len()
        invariant
            0 <= i <= v@.len(),
            forall|k: int| 0 <= k < i ==> v@[k]@ != s@,
        decreases v@.len() - i,
    {
        if v[i] == *s {
            assert(views(v@)[i as int] == s@);
            return true;
        }
        i = i + 1;
    }
    assert forall|k: int| 0 <= k < views(v@).len() implies views(v@)[k] != s@ by {}
    false
}

/// Takes neuron `next_id`, chosen as the next step of a walk, into `trail`.  A token neuron
/// adds its name (unless already there), stops the walk when it is `;`, and becomes the
/// current neuron.  A chunk adds the words of its text (see `take_in_words`), stops the walk
/// when one of them is `;`, and moves the walk to its last token.  An id without a neuron
/// changes nothing.
pub fn absorb_into_trail(memory: &SpikeMemory, trail: &mut Vec<String>, next_id: u64) -> (step:
    TrailStep)
    requires
        unfolds(memory.neurons@, next_id),
    ensures
        views(final(trail)@) == trail_after(memory.neurons@, views(old(trail)@), next_id),
        step.should_break == walk_stops_at(memory.neurons@, next_id),
        step.next_current == walk_moves_to(memory.neurons@, next_id),
{
    if next_id >= memory.neurons.len() as u64 {
        return TrailStep { should_break: false, next_current: None };
    }
    let semi = ";".to_owned();
    let bad = "\"bad_literal\"".to_owned();
    proof {
        reveal_strlit(";");
        reveal_strlit("\"bad_literal\"");
        assert(semi@ =~= semicolon());
        assert(bad@ =~= bad_literal());
    }
    match &memory.neurons[next_id as usize].origin {
        NeuronOrigin::BaseToken(name) => {
            if !contains_string(trail, name) {
                trail.push(name.clone());
                assert(views(trail@) =~= views(old(trail)@).push(name@));
            }
            TrailStep { should_break: *name == semi, next_current: Some(next_id) }
        },
        NeuronOrigin::ChunkSequence(_, _) => {
            let phrase = memory.reverse_lookup_token(next_id);
            let no_specials: Vec<char> = Vec::new();
            let words = split_tokens(phrase.as_str(), no_specials.as_slice());
            assert(no_specials@ =~= Seq::<char>::empty());
            let ghost ws = views(words@);
            let mut should_break = false;
            let mut i: usize = 0;
            while i < words.len()
                invariant
                    0 <= i <= words@.len(),
                    ws == views(words@),
                    ws.len() == words@.len(),
                    semi@ == semicolon(),
                    bad@ == bad_literal(),
                    views(trail@) == take_in_words(views(old(trail)@), ws.take(i as int)),
                    should_break == ws.take(i as int).contains(semicolon()),
                decreases words@.len() - i,
            {
                let w = &words[i];
                assert(ws.take(i + 1).drop_last() =~= ws.take(i as int));
                assert(ws.take(i + 1).last() == w@);
                let ghost before = trail@;
                if !contains_string(trail, w) && *w != bad {
                    trail.push(w.clone());
                    assert(views(trail@) =~= views(before).push(w@));
                }
                if *w == semi {
                    should_break = true;
                }
                proof {
                    if should_break && !(w@ == semicolon()) {
                        let k = choose|k: int| 0 <= k < i && #[trigger] ws.take(i as int)[k] == semicolon();
                        assert(ws.take(i + 1)[k] == semicolon());
                    }
                    if ws.take(i + 1).contains(semicolon()) && !ws.take(i as int).contains(semicolon()) {
                        let k = choose|k: int| 0 <= k < i + 1 && #[trigger] ws.take(i + 1)[k] == semicolon();
                        if k < i {
                            assert(ws.take(i as int)[k] == semicolon());
                        }
                    }
                    if w@ == semicolon() {
                        assert(ws.take(i + 1)[i as int] == semicolon());
                    }
                }
                i = i + 1;
            }
            assert(ws.take(ws.len() as int) =~= ws);
            let t = memory.get_chunk_terminal_token_id(next_id);
            TrailStep { should_break, next_current: Some(t) }
        },
    }
}

/// The number of steps a walk takes at most.
pub const WALK_STEPS: usize = 10usize;

/// A walk through the graph, collecting the tokens it meets.
pub struct TrailWalk {
    /// The tokens met so far.
    pub trail: Vec<String>,
    /// The neurons stepped on, the start first.
    pub visited_path: Vec<u64>,
    /// The neuron the walk stands on.
    pub current_id: u64,
    /// Steps taken.
    pub steps: usize,
    /// The walk is over.
    pub finished: bool,
}

/// A walk from the token `start_token`: the trail holds the token; when the token is
/// unknown the walk is over at once, otherwise it stands on the token's neuron.
pub fn start_walk(memory: &SpikeMemory, start_token: &str) -> (walk: TrailWalk)
    ensures
        views(walk.trail@) == seq![start_token@],
        walk.steps == 0,
        memory.vocabulary@.contains_key(start_token@) ==> {
            let id = memory.vocabulary@[start_token@];
            &&& walk.visited_path@ == seq![id]
            &&& walk.current_id == id
            &&& !walk.finished
        },
        !memory.vocabulary@.contains_key(start_token@) ==> {
            &&& walk.visited_path@.len() == 0
            &&& walk.finished
        },
{
    let mut trail: Vec<String> = Vec::new();
    trail.push(start_token.to_owned());
    assert(views(trail@) =~= seq![start_token@]);
    match memory.lookup_token_id(start_token) {
        Some(id) => {
            let mut visited_path: Vec<u64> = Vec::new();
            visited_path.push(id);
            assert(visited_path@ =~= seq![id]);
            TrailWalk { trail, visited_path, current_id: id, steps: 0, finished: false }
        },
        None => TrailWalk { trail, visited_path: Vec::new(), current_id: 0, steps: 0, finished: true },
    }
}

/// One step of a walk.  With no neuron chosen (a dead end) the walk is over.  Otherwise the
/// chosen neuron joins the path and is taken into the trail (see `trail_after`); the walk
/// moves as `walk_moves_to` says, and is over when it met a `;` or has taken `WALK_STEPS`
/// steps.
pub fn walk_step(memory: &SpikeMemory, walk: &mut TrailWalk, chosen: Option<u64>)
    requires
        !old(walk).finished,
        old(walk).steps < WALK_STEPS,
        chosen matches Some(id) ==> unfolds(memory.neurons@, id),
    ensures
        final(walk).steps == old(walk).steps + 1,
        chosen is None ==> {
            &&& final(walk).trail@ == old(walk).trail@
            &&& final(walk).visited_path@ == old(walk).visited_path@
            &&& final(walk).current_id == old(walk).current_id
            &&& final(walk).finished
        },
        chosen matches Some(id) ==> {
            &&& final(walk).visited_path@ == old(walk).visited_path@.push(id)
            &&& views(final(walk).trail@) == trail_after(memory.neurons@, views(old(walk).trail@), id)
            &&& final(walk).current_id == (match walk_moves_to(memory.neurons@, id) {
                Some(c) => c,
                None => old(walk).current_id,
            })
            &&& final(walk).finished == (walk_stops_at(memory.neurons@, id) || final(walk).steps
                == WALK_STEPS)
        },
{
    walk.steps = walk.steps + 1;
    match chosen {
        None => {
            walk.finished = true;
        },
        Some(next_id) => {
            walk.visited_path.push(next_id);
            let step = absorb_into_trail(memory, &mut walk.trail, next_id);
            match step.next_current {
                Some(c) => {
                    walk.current_id = c;
                },
                None => {},
            }
            walk.finished = step.should_break || walk.steps == WALK_STEPS;
        },
    }
}

} // verus!
