use spikedb::agent::{
    adapt_start, adapt_step, compiler_error_code, context_tokens, join_tokens, mock_check_result,
    AdaptAction, AdaptEvent, AdaptState,
};
use spikedb::kernel::chunking::{grow_chunk, note_coincidence, CoincidenceTracker};
use spikedb::kernel::event_queue::KernelEventQueue;
use spikedb::kernel::evolution::{freeze_silent_hidden_neurons, limit_fanout, weight_key};
use spikedb::kernel::generator::{absorb_into_trail, start_walk, walk_step, WALK_STEPS};
use spikedb::memory::SpikeMemory;
use spikedb::models::{NeuronOrigin, NeuronType, Synapse, FULL_TAG_BITS};
use spikedb::network::{sorted_unique, SpikingNetwork};
use spikedb::text::split_tokens;
use spikedb::tokenizer::SpikeTokenizer;

fn strings(v: &[&str]) -> Vec<String> {
    v.iter().map(|s| s.to_string()).collect()
}

fn link(target: u64, weight: f32) -> Synapse {
    Synapse { target_id: target, weight: weight.to_bits(), tag_trace: 0, last_used_tick: 0, cooldown_until: 0 }
}

#[test]
fn event_queue_extracts_due_spikes_in_order() {
    let mut q = KernelEventQueue::new();
    assert_eq!(q.len(), 0);
    q.push(7, 3);
    q.push(8, 1);
    q.push(9, 5);
    q.push(10, 2);
    assert_eq!(q.len(), 4);
    let due = q.extract_current_spikes(2);
    assert_eq!(due, vec![8, 10]);
    assert_eq!(q.len(), 2);
    assert_eq!(q.queue[0].neuron_id, 7);
    assert_eq!(q.queue[1].neuron_id, 9);
    // Nothing left is due at the same tick.
    assert!(q.extract_current_spikes(2).is_empty());
    assert_eq!(q.extract_current_spikes(10), vec![7, 9]);
    q.push(1, 1);
    q.clear();
    assert_eq!(q.len(), 0);
}

#[test]
fn split_tokens_separates_specials_and_whitespace() {
    let specials = ['=', ';', '(', ')'];
    let toks = split_tokens("let x=5;  f(y)\n", &specials);
    assert_eq!(toks, strings(&["let", "x", "=", "5", ";", "f", "(", "y", ")"]));
    assert!(split_tokens("   \t\n", &specials).is_empty());
    assert_eq!(split_tokens("a\u{A0}b", &[]), strings(&["a", "b"]));
}

#[test]
fn tokenizer_registers_tokens_once() {
    let mut net = SpikingNetwork::new();
    let ids = SpikeTokenizer::tokenize_and_register(&mut net, "let x = x;");
    assert_eq!(ids, vec![0, 1, 2, 1, 3]);
    assert_eq!(net.memory.neurons.len(), 4);
    assert_eq!(net.memory.adj_list.len(), 4);
    assert_eq!(net.memory.neurons[1].neuron_type, NeuronType::Sensor);
    match &net.memory.neurons[3].origin {
        NeuronOrigin::BaseToken(name) => assert_eq!(name, ";"),
        NeuronOrigin::ChunkSequence(_, _) => panic!("a token neuron was expected"),
    }
    let again = SpikeTokenizer::tokenize_and_register(&mut net, "let x = x;");
    assert_eq!(again, ids);
    assert_eq!(net.memory.neurons.len(), 4);
    assert_eq!(net.memory.lookup_token_id("="), Some(2));
    assert_eq!(net.memory.lookup_token_id("y"), None);
}

#[test]
fn memory_tokens_and_chunks_spell_back() {
    let mut m = SpikeMemory::new();
    let a = m.get_or_create_token("fn");
    let b = m.get_or_create_token("main");
    assert_eq!(m.get_or_create_token("fn"), a);
    let c = m.create_meta_chunk(a, b);
    assert_eq!(c, 2);
    assert_eq!(m.neurons[2].neuron_type, NeuronType::Hidden);
    assert_eq!(m.reverse_lookup_token(a), "fn");
    assert_eq!(m.reverse_lookup_token(c), "fn main");
    let d = m.create_meta_chunk(c, a);
    assert_eq!(m.reverse_lookup_token(d), "fn main fn");
    assert_eq!(m.reverse_lookup_token(42), "unknown_id_42");
    assert_eq!(m.get_chunk_terminal_token_id(c), b);
    assert_eq!(m.get_chunk_terminal_token_id(d), a);
    assert!(m.is_chunk_containing_forbidden_ids(d, &[b]));
    assert!(!m.is_chunk_containing_forbidden_ids(a, &[b]));
    assert_eq!(m.lookup_token_ids(&strings(&["main", "nope", "fn"])), vec![b, a]);
    assert!(m.is_sensor(a));
    assert!(!m.is_sensor(c));
    assert!(!m.is_sensor(99));
}

#[test]
fn expansion_table_detects_cycles() {
    let mut m = SpikeMemory::new();
    // A chunk made of itself and a later token: its expansion never ends.
    let looped = m.create_meta_chunk(0, 1);
    let t = m.get_or_create_token("t");
    let ok = m.create_meta_chunk(t, 7);
    assert_eq!(m.expansion_table(), vec![false, true, true]);
    assert_eq!(looped, 0);
    assert_eq!(m.reverse_lookup_token(ok), "t unknown_id_7");
}

#[test]
fn set_synapse_then_get_weight() {
    let mut m = SpikeMemory::new();
    let s = m.get_or_create_token("s");
    let t = m.get_or_create_token("t");
    assert_eq!(m.get_synapse_weight(s, t), 0.0f32.to_bits());
    m.set_synapse(s, t, 0.5f32.to_bits(), 9);
    assert_eq!(f32::from_bits(m.get_synapse_weight(s, t)), 0.5);
    assert_eq!(m.adj_list[0][0].tag_trace, FULL_TAG_BITS);
    assert_eq!(f32::from_bits(FULL_TAG_BITS), 1.0);
    assert_eq!(m.adj_list[0][0].last_used_tick, 9);
    m.set_synapse(s, t, 1.25f32.to_bits(), 11);
    assert_eq!(m.adj_list[0].len(), 1);
    assert_eq!(f32::from_bits(m.get_synapse_weight(s, t)), 1.25);
    assert_eq!(m.adj_list[0][0].last_used_tick, 9);
    assert_eq!(m.get_synapse_weight(t, s), 0);
    assert_eq!(m.get_synapse_weight(55, s), 0);
}

#[test]
fn strongest_synapse_is_first_heaviest() {
    let mut m = SpikeMemory::new();
    let s = m.get_or_create_token("s");
    m.adj_list[0] = vec![link(1, 0.5), link(2, 1.5), link(3, 1.5), link(4, -2.0)];
    let best = m.strongest_synapse(s).unwrap();
    assert_eq!(best.target_id, 2);
    assert!(m.strongest_synapse(7).is_none());
    let e = m.get_or_create_token("e");
    assert!(m.strongest_synapse(e).is_none());
}

#[test]
fn weight_key_orders_like_floats() {
    let values = [f32::NEG_INFINITY, -3.5, -1.0, -0.0, 0.0, 1e-30, 0.5, 2.0, f32::INFINITY];
    for w in values.windows(2) {
        assert!(weight_key(w[0].to_bits()) <= weight_key(w[1].to_bits()));
        assert_eq!(w[0] < w[1], weight_key(w[0].to_bits()) < weight_key(w[1].to_bits()));
    }
    assert_eq!(weight_key((-0.0f32).to_bits()), weight_key(0.0f32.to_bits()));
}

#[test]
fn limit_fanout_keeps_the_heaviest_stably() {
    let mut links: Vec<Synapse> = (0..20).map(|i| link(i, (i % 5) as f32)).collect();
    limit_fanout(&mut links, 6);
    let kept: Vec<u64> = links.iter().map(|s| s.target_id).collect();
    assert_eq!(kept, vec![4, 9, 14, 19, 3, 8]);
    let mut short = vec![link(1, 0.1), link(2, 0.9)];
    limit_fanout(&mut short, 6);
    assert_eq!(short.iter().map(|s| s.target_id).collect::<Vec<_>>(), vec![1, 2]);
    let mut neg = vec![link(1, -1.0), link(2, 0.0), link(3, -0.5)];
    limit_fanout(&mut neg, 2);
    assert_eq!(neg.iter().map(|s| s.target_id).collect::<Vec<_>>(), vec![2, 3]);
}

#[test]
fn freeze_only_silent_hidden_neurons() {
    let mut m = SpikeMemory::new();
    let a = m.get_or_create_token("a");
    let b = m.get_or_create_token("b");
    let lonely = m.create_meta_chunk(a, b);
    let linked = m.create_meta_chunk(b, a);
    let target = m.create_meta_chunk(a, a);
    m.set_synapse(linked, a, 1.0f32.to_bits(), 0);
    m.set_synapse(a, target, 1.0f32.to_bits(), 0);
    m.neurons[lonely as usize].potential = 0.7f32.to_bits();
    let frozen = freeze_silent_hidden_neurons(&mut m);
    assert_eq!(frozen, 1);
    assert_eq!(m.neurons[lonely as usize].cooldown_until, u64::MAX);
    assert_eq!(m.neurons[lonely as usize].potential, 0);
    assert_eq!(m.neurons[linked as usize].cooldown_until, 0);
    assert_eq!(m.neurons[target as usize].cooldown_until, 0);
    assert_eq!(m.neurons[b as usize].cooldown_until, 0);
}

#[test]
fn coincidence_tracker_counts_pairs() {
    let mut t = CoincidenceTracker::new();
    assert_eq!(t.count(1, 2), 0);
    assert_eq!(t.record(1, 2), 1);
    assert_eq!(t.record(1, 2), 2);
    assert_eq!(t.record(2, 1), 1);
    assert_eq!(t.count(1, 2), 2);
    assert_eq!(t.record(u64::MAX, 0), 1);
    assert_eq!(t.count(0, u64::MAX), 0);
    t.clear();
    assert_eq!(t.count(1, 2), 0);
}

#[test]
fn sorted_unique_sorts_and_dedups() {
    assert_eq!(sorted_unique(&[5, 1, 5, 3, 1]), vec![1, 3, 5]);
    assert!(sorted_unique(&[]).is_empty());
}

#[test]
fn ticks_take_due_spikes_and_schedule_next() {
    let mut net = SpikingNetwork::new();
    net.event_queue.push(4, 0);
    net.event_queue.push(2, 1);
    net.event_queue.push(4, 1);
    net.event_queue.push(9, 3);
    let spikes = net.start_tick();
    assert_eq!(net.current_tick, 1);
    assert_eq!(spikes, vec![2, 4]);
    assert_eq!(net.active_spikes_count(), 1);
    net.finish_tick(spikes, &[6, 5]);
    assert_eq!(net.previous_tick_spikes, vec![2, 4]);
    assert_eq!(net.active_spikes_count(), 3);
    let spikes = net.start_tick();
    assert_eq!(spikes, vec![5, 6]);
    assert_eq!(net.current_tick, 2);
}

#[test]
fn clearing_buffers_relaxes_everything() {
    let mut net = SpikingNetwork::new();
    let a = net.memory.get_or_create_token("a");
    let b = net.memory.get_or_create_token("b");
    net.memory.set_synapse(a, b, 0.9f32.to_bits(), 0);
    net.memory.neurons[0].potential = 0.8f32.to_bits();
    net.current_tick = 12;
    net.previous_tick_spikes.push(a);
    net.event_queue.push(b, 13);
    net.set_learning_mode(true);
    net.clear_runtime_attention_buffers();
    assert!(net.previous_tick_spikes.is_empty());
    assert_eq!(net.active_spikes_count(), 0);
    assert_eq!(net.memory.neurons[0].potential, 0);
    assert_eq!(net.memory.neurons[0].last_updated_tick, 12);
    assert_eq!(net.memory.adj_list[0][0].tag_trace, 0);
    assert_eq!(f32::from_bits(net.get_synapse_weight(a, b)), 0.9);
    assert!(net.is_learning_mode);
}

#[test]
fn trail_absorbs_tokens_and_chunks() {
    let mut m = SpikeMemory::new();
    let let_id = m.get_or_create_token("let");
    let x = m.get_or_create_token("x");
    let semi = m.get_or_create_token(";");
    let bad = m.get_or_create_token("\"bad_literal\"");
    let chunk = m.create_meta_chunk(x, semi);
    let chunk_bad = m.create_meta_chunk(bad, x);

    let mut trail = strings(&["let"]);
    let step = absorb_into_trail(&m, &mut trail, let_id);
    assert_eq!(trail, strings(&["let"]));
    assert_eq!(step.next_current, Some(let_id));
    assert!(!step.should_break);

    let step = absorb_into_trail(&m, &mut trail, chunk_bad);
    assert_eq!(trail, strings(&["let", "x"]));
    assert_eq!(step.next_current, Some(x));
    assert!(!step.should_break);

    let step = absorb_into_trail(&m, &mut trail, chunk);
    assert_eq!(trail, strings(&["let", "x", ";"]));
    assert_eq!(step.next_current, Some(semi));
    assert!(step.should_break);

    let step = absorb_into_trail(&m, &mut trail, 99);
    assert_eq!(step.next_current, None);
    assert!(!step.should_break);

    let step = absorb_into_trail(&m, &mut trail, semi);
    assert!(step.should_break);
    assert_eq!(trail.len(), 3);
    match &m.neurons[chunk as usize].origin {
        NeuronOrigin::ChunkSequence(p, q) => assert_eq!((*p, *q), (x, semi)),
        NeuronOrigin::BaseToken(_) => panic!("a chunk was expected"),
    }
}

#[test]
fn compiler_error_codes() {
    assert_eq!(compiler_error_code("warning\nerror[E0308]: mismatched types"), "E0308");
    assert_eq!(compiler_error_code("error[E0425]: a ] b error[E1]"), "E0425");
    assert_eq!(compiler_error_code("error: no code here"), "UnknownError");
    assert_eq!(compiler_error_code("error[E99 never closed"), "UnknownError");
    assert_eq!(mock_check_result(""), Ok("Success".to_string()));
    assert_eq!(mock_check_result("Success"), Ok("Success".to_string()));
    assert_eq!(mock_check_result("E0308"), Err("E0308".to_string()));
}

#[test]
fn context_and_join() {
    let ctx = context_tokens("E0308", "let alpha_0 = \"bad_literal\" ;");
    assert_eq!(ctx, strings(&["E0308", "let", "alpha_0", "=", "\"bad_literal\"", ";"]));
    assert_eq!(context_tokens("E1", "a.b(c)"), strings(&["E1", "a", ".", "b", "(", "c", ")"]));
    assert_eq!(join_tokens(&strings(&["let", "x", "=", "1", ";"])), "let x = 1 ;");
    assert_eq!(join_tokens(&Vec::new()), "");
}

fn run_repair(first: Result<String, String>, second: Result<String, String>) -> Vec<String> {
    let mut log = Vec::new();
    let (mut state, mut action) = adapt_start();
    let mut checks = vec![second, first];
    loop {
        let event = match action {
            AdaptAction::RunCheck => {
                log.push("check".to_string());
                AdaptEvent::Checked(checks.pop().unwrap())
            }
            AdaptAction::ReadTargetLine => AdaptEvent::LineRead("let a = 1".to_string()),
            AdaptAction::InjectContext(ctx) => {
                log.push(format!("inject {}", ctx.join(" ")));
                AdaptEvent::Done
            }
            AdaptAction::GenerateHypothesis { start_token, context } => {
                log.push(format!("generate {} {}", start_token, context.len()));
                AdaptEvent::Generated(strings(&["let", "a", "=", "2"]))
            }
            AdaptAction::ApplyHypothesis(line) => {
                log.push(format!("write {}", line));
                AdaptEvent::Done
            }
            AdaptAction::ApproveSuccess(ok) => {
                log.push(format!("approve {}", ok));
                AdaptEvent::Done
            }
            AdaptAction::Finish(line) => {
                log.push(format!("finish {}", line));
                return log;
            }
            AdaptAction::Ignore => panic!("out of turn"),
        };
        let next = adapt_step(state, event);
        state = next.0;
        action = next.1;
    }
}

#[test]
fn repair_state_machine_paths() {
    assert_eq!(run_repair(Ok("Success".to_string()), Ok("Success".to_string())), strings(&[
        "check",
        "inject let a = 1",
        "generate let 4",
        "write let a = 2",
        "check",
        "approve true",
        "finish let a = 2"
    ]));
    assert_eq!(run_repair(Ok("Success".to_string()), Err("E7".to_string())), strings(&[
        "check",
        "inject let a = 1",
        "generate let 4",
        "write let a = 2",
        "check",
        "approve false",
        "write let a = 1",
        "finish let a = 1"
    ]));
    assert_eq!(run_repair(Err("E1".to_string()), Ok("Success".to_string())), strings(&[
        "check",
        "inject E1 let a = 1",
        "generate let 5",
        "write let a = 2",
        "check",
        "approve true",
        "finish let a = 2"
    ]));
    assert_eq!(run_repair(Err("E1".to_string()), Err("E2".to_string())), strings(&[
        "check",
        "inject E1 let a = 1",
        "generate let 5",
        "write let a = 2",
        "check",
        "approve false",
        "write let a = 1",
        "finish let a = 1"
    ]));
    let (_, action) = adapt_step(AdaptState::Finished, AdaptEvent::Done);
    assert!(matches!(action, AdaptAction::Ignore));
}

#[test]
fn adaptation_replaces_a_line_that_compiles() {
    // The check reports success on the line with the bad literal; the network proposes a
    // line without it, the check passes again, and that line is kept.
    let mut state_action = adapt_start();
    let mut checks = vec![mock_check_result("Success"), mock_check_result("Success")];
    let result = loop {
        let (state, action) = state_action;
        let event = match action {
            AdaptAction::RunCheck => AdaptEvent::Checked(checks.pop().unwrap()),
            AdaptAction::ReadTargetLine => {
                AdaptEvent::LineRead("let alpha_0 = \"bad_literal\" ;".to_string())
            }
            AdaptAction::InjectContext(ctx) => {
                assert_eq!(ctx, strings(&["let", "alpha_0", "=", "\"bad_literal\"", ";"]));
                AdaptEvent::Done
            }
            AdaptAction::GenerateHypothesis { start_token, .. } => {
                assert_eq!(start_token, "let");
                AdaptEvent::Generated(strings(&["let", "alpha_0", "=", "0", ";"]))
            }
            AdaptAction::ApplyHypothesis(_) | AdaptAction::ApproveSuccess(_) => AdaptEvent::Done,
            AdaptAction::Finish(line) => break line,
            AdaptAction::Ignore => panic!("out of turn"),
        };
        state_action = adapt_step(state, event);
    };
    assert_eq!(result, "let alpha_0 = 0 ;");
    assert!(!result.contains("\"bad_literal\""));
}

#[test]
fn chunk_growth_links_both_parts() {
    let mut m = SpikeMemory::new();
    let a = m.get_or_create_token("a");
    let b = m.get_or_create_token("b");
    let mut t = CoincidenceTracker::new();
    assert!(note_coincidence(&m, &mut t, a, a, 2).is_none());
    assert!(!note_coincidence(&m, &mut t, a, b, 2).unwrap().grows_chunk);
    assert!(note_coincidence(&m, &mut t, a, b, 2).unwrap().grows_chunk);
    let meta = grow_chunk(&mut m, a, b, 0.6f32.to_bits(), 4);
    assert_eq!(meta, 2);
    assert!(note_coincidence(&m, &mut t, a, meta, 2).is_none());
    assert_eq!(m.adj_list.len(), 3);
    assert!(m.adj_list[2].is_empty());
    assert_eq!(f32::from_bits(m.get_synapse_weight(a, meta)), 0.6);
    assert_eq!(f32::from_bits(m.get_synapse_weight(b, meta)), 0.6);
    assert_eq!(m.adj_list[0][0].last_used_tick, 4);
    assert_eq!(m.reverse_lookup_token(meta), "a b");
}

#[test]
fn walks_collect_tokens_and_stop() {
    let mut m = SpikeMemory::new();
    let let_id = m.get_or_create_token("let");
    let x = m.get_or_create_token("x");
    let semi = m.get_or_create_token(";");
    let chunk = m.create_meta_chunk(x, semi);

    let unknown = start_walk(&m, "fn");
    assert!(unknown.finished);
    assert_eq!(unknown.trail, strings(&["fn"]));

    let mut walk = start_walk(&m, "let");
    assert!(!walk.finished);
    assert_eq!(walk.current_id, let_id);
    walk_step(&m, &mut walk, Some(x));
    assert_eq!(walk.trail, strings(&["let", "x"]));
    assert_eq!(walk.current_id, x);
    assert!(!walk.finished);
    walk_step(&m, &mut walk, Some(chunk));
    assert_eq!(walk.trail, strings(&["let", "x", ";"]));
    assert_eq!(walk.visited_path, vec![let_id, x, chunk]);
    assert_eq!(walk.current_id, semi);
    assert!(walk.finished);

    let mut dead = start_walk(&m, "x");
    walk_step(&m, &mut dead, None);
    assert!(dead.finished);
    assert_eq!(dead.steps, 1);

    let mut long = start_walk(&m, "let");
    while !long.finished {
        walk_step(&m, &mut long, Some(let_id));
    }
    assert_eq!(long.steps, WALK_STEPS);
    assert_eq!(long.trail, strings(&["let"]));
}
