use crate::models::{NeuronType, base_name, is_fresh};
use crate::network::SpikingNetwork;
use crate::text::{lex, split_tokens, views};
use vstd::prelude::*;

verus! {

/// The characters that stand as tokens of their own in source code.
pub open spec fn code_specials() -> Seq<char> {
    seq!['=', ';', '{', '}', '(', ')', '+', '-', '>', '<', ':', ',', '\'', '&', '!']
}

/// The characters that stand alone in source code are exactly `= ; { } ( ) + - > < : , ' & !`.
pub proof fn law_code_specials(c: char)
    ensures
        code_specials().contains(c) <==> (c == '=' || c == ';' || c == '{' || c == '}' || c == '(' || c == ')' || c == '+' || c == '-' || c == '>' || c == '<' || c == ':' || c == ',' || c == '\'' || c == '&' || c == '!'),
{
    let s = code_specials();
    if c == '=' || c == ';' || c == '{' || c == '}' || c == '(' || c == ')' || c == '+' || c == '-' || c == '>' || c == '<' || c == ':' || c == ',' || c == '\'' || c == '&' || c == '!' {
        let k = choose|k: int| 0 <= k < 15 && s[k] == c;
        assert(s[k] == c);
    }
    if s.contains(c) {
        let k = choose|k: int| 0 <= k < s.len() && s[k] == c;
    }
}

/// The characters that stand as tokens of their own in source code.
pub fn code_special_chars() -> (v: Vec<char>)
    ensures
        v@ == code_specials(),
{
    let v = vec!['=', ';', '{', '}', '(', ')', '+', '-', '>', '<', ':', ',', '\'', '&', '!'];
    assert(v@ =~= code_specials());
    v
}

/// The vocabulary and neuron count after registering `toks` in order into a vocabulary
/// `vocab` beside `n` neurons: each new token gets the next id.
pub open spec fn registered(vocab: Map<Seq<char>, u64>, n: nat, toks: Seq<Seq<char>>) -> (
    Map<Seq<char>, u64>,
    nat,
)
    decreases toks.len(),
{
    if toks.len() == 0 {
        (vocab, n)
    } else {
        let (v, m) = registered(vocab, n, toks.drop_last());
        if v.contains_key(toks.last()) {
            (v, m)
        } else {
            (v.insert(toks.last(), m as u64), m + 1)
        }
    }
}

/// Neuron `j` is the one a token that `vocab` holds and `before` did not was registered to.
pub open spec fn named_by_new_token(vocab: Map<Seq<char>, u64>, before: Map<Seq<char>, u64>, j: int) -> bool {
    exists|k: Seq<char>|
        #[trigger] vocab.contains_key(k) && !before.contains_key(k) && vocab[k] == j
}

/// Registration keeps every entry already present, and enters every token.
pub proof fn lemma_registered_grows(vocab: Map<Seq<char>, u64>, n: nat, toks: Seq<Seq<char>>)
    ensures
        forall|k: Seq<char>| #[trigger] vocab.contains_key(k) ==> registered(vocab, n, toks).0.contains_key(k)
            && registered(vocab, n, toks).0[k] == vocab[k],
        forall|i: int| 0 <= i < toks.len() ==> registered(vocab, n, toks).0.contains_key(#[trigger] toks[i]),
        registered(vocab, n, toks).1 >= n,
    decreases toks.len(),
{
    if toks.len() > 0 {
        lemma_registered_grows(vocab, n, toks.drop_last());
        let (v, m) = registered(vocab, n, toks.drop_last());
        assert forall|i: int| 0 <= i < toks.len() implies registered(vocab, n, toks).0.contains_key(#[trigger] toks[i]) by {
            if i < toks.len() - 1 {
                assert(toks.drop_last()[i] == toks[i]);
            }
        }
    }
}

/// Registering tokens that are all known changes nothing.
proof fn lemma_registered_known(vocab: Map<Seq<char>, u64>, n: nat, toks: Seq<Seq<char>>)
    requires
        forall|i: int| 0 <= i < toks.len() ==> vocab.contains_key(#[trigger] toks[i]),
    ensures
        registered(vocab, n, toks) == (vocab, n),
    decreases toks.len(),
{
    if toks.len() > 0 {
        assert forall|i: int| 0 <= i < toks.drop_last().len() implies vocab.contains_key(
            #[trigger] toks.drop_last()[i],
        ) by {
            assert(toks.drop_last()[i] == toks[i]);
        }
        lemma_registered_known(vocab, n, toks.drop_last());
        assert(vocab.contains_key(toks[toks.len() - 1]));
    }
}

/// Registering the same tokens a second time changes nothing: the vocabulary and the number
/// of neurons stay as the first registration left them.
pub proof fn law_register_twice(vocab: Map<Seq<char>, u64>, n: nat, toks: Seq<Seq<char>>)
    ensures
        ({
            let (v, m) = registered(vocab, n, toks);
            registered(v, m, toks) == (v, m)
        }),
{
    lemma_registered_grows(vocab, n, toks);
    let (v, m) = registered(vocab, n, toks);
    lemma_registered_known(v, m, toks);
}

/// A tokenizer for source code.
pub struct SpikeTokenizer;

impl SpikeTokenizer {
    /// Splits `code` into tokens (see `code_specials`), registers each in the network's
    /// vocabulary in order (growing a fresh sensor neuron for each new one), and returns their
    /// ids in order.
    pub fn tokenize_and_register(brain: &mut SpikingNetwork, code: &str) -> (ids: Vec<u64>)
        ensures
            ({
                let toks = lex(code@, code_specials());
                let (v, m) = registered(
                    old(brain).memory.vocabulary@,
                    old(brain).memory.neurons@.len(),
                    toks,
                );
                &&& ids@.len() == toks.len()
                &&& forall|i: int| 0 <= i < toks.len() ==> ids@[i] == v[#[trigger] toks[i]]
                &&& final(brain).memory.vocabulary@ == v
                &&& final(brain).memory.neurons@.len() == m
            }),
            old(brain).memory.wf() ==> final(brain).memory.wf(),
            final(brain).memory.neurons@.take(old(brain).memory.neurons@.len() as int)
                == old(brain).memory.neurons@,
            forall|j: int|
                old(brain).memory.neurons@.len() <= j < final(brain).memory.neurons@.len()
                    ==> is_fresh(#[trigger] final(brain).memory.neurons@[j], NeuronType::Sensor),
            forall|k: Seq<char>|
                #[trigger] final(brain).memory.vocabulary@.contains_key(k)
                    && !old(brain).memory.vocabulary@.contains_key(k) ==> {
                    &&& old(brain).memory.neurons@.len() <= final(brain).memory.vocabulary@[k]
                    &&& final(brain).memory.vocabulary@[k] < final(brain).memory.neurons@.len()
                    &&& base_name(
                        final(brain).memory.neurons@[final(brain).memory.vocabulary@[k] as int].origin,
                    ) == Some(k)
                },
            forall|j: int|
                old(brain).memory.neurons@.len() <= j < final(brain).memory.neurons@.len()
                    ==> #[trigger] named_by_new_token(
                    final(brain).memory.vocabulary@,
                    old(brain).memory.vocabulary@,
                    j,
                ),
            final(brain).memory.adj_list@.take(old(brain).memory.adj_list@.len() as int)
                == old(brain).memory.adj_list@,
            forall|j: int|
                old(brain).memory.adj_list@.len() <= j < final(brain).memory.adj_list@.len()
                    ==> (#[trigger] final(brain).memory.adj_list@[j])@.len() == 0,
            final(brain).current_tick == old(brain).current_tick,
            final(brain).event_queue == old(brain).event_queue,
            final(brain).previous_tick_spikes == old(brain).previous_tick_spikes,
            final(brain).coincidence_tracker == old(brain).coincidence_tracker,
            final(brain).is_learning_mode == old(brain).is_learning_mode,
    {
        let specials = code_special_chars();
        let tokens = split_tokens(code, specials.as_slice());
        let ghost toks = views(tokens@);
        let ghost v0 = brain.memory.vocabulary@;
        let ghost n0 = brain.memory.neurons@.len();
        let ghost neurons0 = brain.memory.neurons@;
        let ghost adj0 = brain.memory.adj_list@;
        let mut ids: Vec<u64> = Vec::new();
        let mut i: usize = 0;
        while i < tokens.len()
            invariant
                0 <= i <= tokens@.len(),
                toks == views(tokens@),
                toks.len() == tokens@.len(),
                old(brain).memory.wf() ==> brain.memory.wf(),
                brain.memory.vocabulary@ == registered(v0, n0, toks.take(i as int)).0,
                brain.memory.neurons@.len() == registered(v0, n0, toks.take(i as int)).1,
                ids@.len() == i,
                forall|k: int| 0 <= k < i ==> ids@[k] == brain.memory.vocabulary@[#[trigger] toks[k]]
                    && brain.memory.vocabulary@.contains_key(toks[k]),
                brain.memory.neurons@.len() >= n0,
                brain.memory.neurons@.take(n0 as int) == neurons0,
                n0 == old(brain).memory.neurons@.len(),
                v0 == old(brain).memory.vocabulary@,
                forall|k: Seq<char>|
                    #[trigger] brain.memory.vocabulary@.contains_key(k) && !v0.contains_key(k) ==> {
                        &&& n0 <= brain.memory.vocabulary@[k]
                        &&& brain.memory.vocabulary@[k] < brain.memory.neurons@.len()
                        &&& base_name(brain.memory.neurons@[brain.memory.vocabulary@[k] as int].origin)
                            == Some(k)
                    },
                forall|j: int|
                    n0 <= j < brain.memory.neurons@.len() ==> #[trigger] named_by_new_token(
                        brain.memory.vocabulary@,
                        v0,
                        j,
                    ),
                forall|j: int|
                    n0 <= j < brain.memory.neurons@.len() ==> is_fresh(
                        #[trigger] brain.memory.neurons@[j],
                        NeuronType::Sensor,
                    ),
                brain.memory.adj_list@.len() >= adj0.len(),
                brain.memory.adj_list@.take(adj0.len() as int) == adj0,
                forall|j: int|
                    adj0.len() <= j < brain.memory.adj_list@.len() ==> (
                    #[trigger] brain.memory.adj_list@[j])@.len() == 0,
                brain.current_tick == old(brain).current_tick,
                brain.event_queue == old(brain).event_queue,
                brain.previous_tick_spikes == old(brain).previous_tick_spikes,
                brain.coincidence_tracker == old(brain).coincidence_tracker,
                brain.is_learning_mode == old(brain).is_learning_mode,
            decreases tokens@.len() - i,
        {
            let ghost before = brain.memory.vocabulary@;
            let ghost neurons_before = brain.memory.neurons@;
            let ghost adj_before = brain.memory.adj_list@;
            assert(toks.take(i + 1).drop_last() =~= toks.take(i as int));
            assert(toks[i as int] == tokens@[i as int]@);
            let id = brain.memory.get_or_create_token(tokens[i].as_str());
            ids.push(id);
            proof {
                assert forall|k: int| 0 <= k < i + 1 implies ids@[k] == brain.memory.vocabulary@[#[trigger] toks[k]]
                    && brain.memory.vocabulary@.contains_key(toks[k]) by {
                    if k < i {
                        assert(before.contains_key(toks[k]));
                    }
                }
                assert(brain.memory.neurons@.take(n0 as int) =~= neurons0) by {
                    assert forall|j: int| 0 <= j < n0 implies brain.memory.neurons@[j] == neurons0[j] by {
                        assert(neurons_before.take(n0 as int)[j] == neurons0[j]);
                        if brain.memory.neurons@.len() > neurons_before.len() {
                            assert(brain.memory.neurons@.take(neurons_before.len() as int)[j]
                                == neurons_before[j]);
                        }
                    }
                }
                assert(brain.memory.adj_list@.take(adj0.len() as int) =~= adj0) by {
                    assert forall|j: int| 0 <= j < adj0.len() implies brain.memory.adj_list@[j] == adj0[j] by {
                        assert(adj_before.take(adj0.len() as int)[j] == adj0[j]);
                        if brain.memory.adj_list@.len() > adj_before.len() {
                            assert(brain.memory.adj_list@.take(adj_before.len() as int)[j]
                                == adj_before[j]);
                        }
                    }
                }
                assert forall|j: int|
                    adj0.len() <= j < brain.memory.adj_list@.len() implies (
                    #[trigger] brain.memory.adj_list@[j])@.len() == 0 by {
                    if j < adj_before.len() {
                        assert(brain.memory.adj_list@.take(adj_before.len() as int)[j] == adj_before[j]);
                    }
                }
                let tok_i = toks[i as int];
                assert forall|k: Seq<char>|
                    #[trigger] brain.memory.vocabulary@.contains_key(k) && !v0.contains_key(k) implies {
                        &&& n0 <= brain.memory.vocabulary@[k]
                        &&& brain.memory.vocabulary@[k] < brain.memory.neurons@.len()
                        &&& base_name(brain.memory.neurons@[brain.memory.vocabulary@[k] as int].origin)
                            == Some(k)
                    } by {
                    if before.contains_key(k) {
                        assert(brain.memory.vocabulary@[k] == before[k]);
                        if brain.memory.neurons@.len() > neurons_before.len() {
                            assert(brain.memory.neurons@.take(neurons_before.len() as int)[before[k] as int]
                                == neurons_before[before[k] as int]);
                        }
                    }
                }
                assert forall|j: int|
                    n0 <= j < brain.memory.neurons@.len() implies #[trigger] named_by_new_token(
                        brain.memory.vocabulary@,
                        v0,
                        j,
                    ) by {
                    if j < neurons_before.len() {
                        assert(named_by_new_token(before, v0, j));
                        let k = choose|k: Seq<char>|
                            #[trigger] before.contains_key(k) && !v0.contains_key(k) && before[k] == j;
                        assert(brain.memory.vocabulary@.contains_key(k));
                    } else {
                        assert(brain.memory.vocabulary@.contains_key(tok_i));
                        assert(!before.contains_key(tok_i));
                        assert(!v0.contains_key(tok_i)) by {
                            if v0.contains_key(tok_i) {
                                lemma_registered_grows(v0, n0, toks.take(i as int));
                            }
                        }
                    }
                }
                assert forall|j: int|
                    n0 <= j < brain.memory.neurons@.len() implies is_fresh(
                        #[trigger] brain.memory.neurons@[j],
                        NeuronType::Sensor,
                    ) by {
                    if j < neurons_before.len() {
                        assert(brain.memory.neurons@.take(neurons_before.len() as int)[j] == neurons_before[j]);
                    }
                }
            }
            i = i + 1;
        }
        assert(toks.take(toks.len() as int) =~= toks);
        ids
    }
}

} // verus!
