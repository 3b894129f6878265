use aether::config::{
    check_nonempty, check_nonzero,
    check_creativity_counts, check_generations, check_memory_shape, check_moe_shape,
    check_population, check_prompt, check_resonant_units, check_sequence, check_span, window_start,
    NetworkShape,
};
use aether::error::AetherError;

fn invalid(r: Result<(), AetherError>) -> String {
    match r {
        Err(AetherError::InvalidConfig(m)) => m,
        other => panic!("expected InvalidConfig, got {other:?}"),
    }
}

fn tiny_shape() -> NetworkShape {
    NetworkShape {
        d_model: 16,
        n_heads: 4,
        n_layers: 1,
        d_moe_hidden: 32,
        n_experts: 4,
        top_k: 2,
        window: 8,
        vocab_size: 64,
        max_seq: 32,
        memory_sensory: 16,
        memory_working: 8,
        memory_episodic: 32,
        memory_semantic: 16,
    }
}

#[test]
fn moe_shape_rules() {
    assert!(check_moe_shape(12, 24, 4, 2).is_ok());
    assert_eq!(invalid(check_moe_shape(12, 24, 4, 5)), "top_k 5 exceeds n_experts 4");
    assert_eq!(invalid(check_moe_shape(0, 24, 4, 2)), "d_model and d_hidden must be > 0");
    assert_eq!(invalid(check_moe_shape(12, 24, 0, 2)), "n_experts and top_k must be > 0");
    assert_eq!(invalid(check_moe_shape(12, 24, 4, 0)), "n_experts and top_k must be > 0");
}

#[test]
fn network_shape_rules() {
    assert!(tiny_shape().validate().is_ok());
    let mut bad = tiny_shape();
    bad.top_k = 9;
    assert_eq!(invalid(bad.validate()), "top_k 9 incompatible with n_experts 4");
    let mut bad2 = tiny_shape();
    bad2.d_model = 15;
    assert_eq!(invalid(bad2.validate()), "d_model 15 incompatible with n_heads 4");
    let mut z = tiny_shape();
    z.d_model = 0;
    assert_eq!(invalid(z.validate()), "d_model is 0");
    let mut l = tiny_shape();
    l.n_layers = 0;
    assert_eq!(invalid(l.validate()), "n_layers is 0");
    let mut e = tiny_shape();
    e.d_moe_hidden = 0;
    assert_eq!(invalid(e.validate()), "d_moe_hidden and n_experts must be > 0");
    let mut v = tiny_shape();
    v.vocab_size = 3;
    assert_eq!(invalid(v.validate()), "need window > 0, vocab_size >= 4, max_seq > 0");
    let mut m = tiny_shape();
    m.memory_semantic = 0;
    assert_eq!(invalid(m.validate()), "memory caps must all be > 0");
}

#[test]
fn memory_resonance_creativity_rules() {
    assert!(check_memory_shape(16, 16, 8, 32, 16).is_ok());
    assert_eq!(invalid(check_memory_shape(0, 1, 1, 1, 1)), "memory d_model is 0");
    assert_eq!(invalid(check_memory_shape(4, 1, 0, 1, 1)), "memory caps must all be > 0");
    assert!(check_resonant_units(24).is_ok());
    assert_eq!(invalid(check_resonant_units(0)), "resonant n_units is 0");
    assert!(check_creativity_counts(3, 2, 5).is_ok());
    assert_eq!(
        invalid(check_creativity_counts(3, 0, 5)),
        "n_candidates, max_iters and candidate_len must be > 0"
    );
}

#[test]
fn trainer_rules() {
    assert!(check_population(4).is_ok());
    assert_eq!(invalid(check_population(3)), "pop must be even and >= 2");
    assert_eq!(invalid(check_population(0)), "pop must be even and >= 2");
    assert!(check_generations(1).is_ok());
    assert_eq!(invalid(check_generations(0)), "generations is 0");
}

#[test]
fn sequence_rules() {
    assert!(check_sequence(&[1, 2, 3], 32, 64).is_ok());
    match check_sequence(&[], 32, 64) {
        Err(AetherError::EmptyInput(m)) => assert_eq!(m, "forward got no ids"),
        other => panic!("unexpected {other:?}"),
    }
    match check_sequence(&[5, 999, 1000], 32, 64) {
        Err(AetherError::Vocab(m)) => assert_eq!(m, "token 999 out of vocab 64"),
        other => panic!("unexpected {other:?}"),
    }
    let long = vec![1usize; 33];
    assert_eq!(invalid(check_sequence(&long, 32, 64)), "sequence len 33 exceeds max_seq 32");
    match check_prompt(&[], 64) {
        Err(AetherError::EmptyInput(m)) => assert_eq!(m, "generate got empty prompt"),
        other => panic!("unexpected {other:?}"),
    }
    assert!(check_prompt(&[63], 64).is_ok());
    assert!(check_prompt(&[64], 64).is_err());
    assert_eq!(window_start(10, 32), 0);
    assert_eq!(window_start(40, 32), 8);
}

#[test]
fn embedded_spans_must_be_known_ids() {
    assert!(check_span(&[0, 5, 9], 10).is_ok());
    match check_span(&[], 10) {
        Err(AetherError::EmptyInput(m)) => assert_eq!(m, "embed_mean got no ids"),
        other => panic!("unexpected {other:?}"),
    }
    match check_span(&[3, 12, 40], 10) {
        Err(AetherError::Vocab(m)) => assert_eq!(m, "token 12 out of vocab 10"),
        other => panic!("unexpected {other:?}"),
    }
}

#[test]
fn sizes_and_inputs_must_not_be_empty() {
    assert!(check_nonzero("hypervec dim", 1024).is_ok());
    assert_eq!(invalid(check_nonzero("hypervec dim", 0)), "hypervec dim is 0");
    assert_eq!(invalid(check_nonzero("archive cap", 0)), "archive cap is 0");
    assert!(check_nonempty(3, "ngram got no items").is_ok());
    match check_nonempty(0, "dream got empty prompt") {
        Err(AetherError::EmptyInput(m)) => assert_eq!(m, "dream got empty prompt"),
        other => panic!("unexpected {other:?}"),
    }
}
