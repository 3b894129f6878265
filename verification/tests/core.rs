use aether::attention::{check_attention_input, in_local_window, EntangledAttentionConfig};
use aether::cli::{
    command_of, flag, is_small_preset, parse_ids, parse_usize, training_population, Command,
};
use aether::error::AetherError;

#[test]
fn messages_render() {
    let e = AetherError::ShapeMismatch("2x3 vs 4x5".to_string());
    assert_eq!(e.to_string(), "shape mismatch: 2x3 vs 4x5");
    let e2 = AetherError::InvalidConfig("top_k > experts".to_string());
    assert!(e2.to_string().contains("top_k"));
}

#[test]
fn every_error_kind_renders_its_prefix() {
    let d = || "x".to_string();
    assert_eq!(AetherError::EmptyInput(d()).to_string(), "empty input: x");
    assert_eq!(AetherError::InvalidConfig(d()).to_string(), "invalid configuration: x");
    assert_eq!(AetherError::Vocab(d()).to_string(), "vocabulary error: x");
    assert_eq!(AetherError::Io(d()).to_string(), "io error: x");
    assert_eq!(AetherError::Ser(d()).to_string(), "serialization error: x");
}

#[test]
fn attention_config_validation() {
    let ok = EntangledAttentionConfig { d_model: 16, n_heads: 4, window: 5 };
    assert!(ok.validate().is_ok());
    let zero = EntangledAttentionConfig { d_model: 16, n_heads: 0, window: 5 };
    match zero.validate() {
        Err(AetherError::InvalidConfig(m)) => {
            assert_eq!(m, "d_model, n_heads and window must all be > 0")
        }
        other => panic!("unexpected {other:?}"),
    }
    let no_window = EntangledAttentionConfig { d_model: 16, n_heads: 4, window: 0 };
    assert!(no_window.validate().is_err());
    let odd = EntangledAttentionConfig { d_model: 15, n_heads: 4, window: 3 };
    match odd.validate() {
        Err(AetherError::InvalidConfig(m)) => {
            assert_eq!(m, "d_model 15 not divisible by n_heads 4")
        }
        other => panic!("unexpected {other:?}"),
    }
}

#[test]
fn attention_input_must_be_a_nonempty_sequence_of_model_width() {
    assert!(check_attention_input(16, 12, 16).is_ok());
    match check_attention_input(16, 0, 16) {
        Err(AetherError::EmptyInput(m)) => assert_eq!(m, "attention got empty sequence"),
        other => panic!("unexpected {other:?}"),
    }
    match check_attention_input(16, 3, 8) {
        Err(AetherError::ShapeMismatch(m)) => assert_eq!(m, "attention needs d_model 16 cols, got 8"),
        other => panic!("unexpected {other:?}"),
    }
}

#[test]
fn local_window_is_relative() {
    // window 5: half-width 2.
    assert!(in_local_window(4, 4, 5));
    assert!(in_local_window(4, 2, 5));
    assert!(in_local_window(2, 4, 5));
    assert!(!in_local_window(4, 1, 5));
    assert!(!in_local_window(1, 4, 5));
    // window 1: only the position itself.
    assert!(in_local_window(3, 3, 1));
    assert!(!in_local_window(3, 4, 1));
    // read backwards over 9 positions, the window is the same.
    let len = 9;
    for t in 0..len {
        for s in 0..len {
            assert_eq!(in_local_window(t, s, 4), in_local_window(len - 1 - t, len - 1 - s, 4));
            assert_eq!(in_local_window(t, s, 4), in_local_window(s, t, 4));
        }
    }
}

fn args(v: &[&str]) -> Vec<String> {
    v.iter().map(|s| s.to_string()).collect()
}

#[test]
fn flags_are_read_both_ways() {
    let a = args(&["train", "--gens", "7", "--pop=12"]);
    assert_eq!(flag(&a, "gens"), Some("7".to_string()));
    assert_eq!(flag(&a, "pop"), Some("12".to_string()));
    assert_eq!(flag(&a, "iters"), None);
    // A trailing flag without value gives nothing.
    assert_eq!(flag(&args(&["dream", "--iters"]), "iters"), None);
    // The first occurrence wins; `--gens=` with empty value is still a value.
    assert_eq!(flag(&args(&["--gens=", "--gens", "3"]), "gens"), Some(String::new()));
    // A longer flag name is not a match.
    assert_eq!(flag(&args(&["--gensx", "1"]), "gens"), None);
}

#[test]
fn unsigned_numbers_parse_like_std() {
    assert_eq!(parse_usize("42"), Some(42));
    assert_eq!(parse_usize("+7"), Some(7));
    assert_eq!(parse_usize("007"), Some(7));
    assert_eq!(parse_usize(""), None);
    assert_eq!(parse_usize("+"), None);
    assert_eq!(parse_usize("-1"), None);
    assert_eq!(parse_usize(" 1"), None);
    assert_eq!(parse_usize("1a"), None);
    assert_eq!(parse_usize(&usize::MAX.to_string()), Some(usize::MAX));
    assert_eq!(parse_usize("99999999999999999999999"), None);
    for s in ["0", "18", "+3", "x", "", "1 2"] {
        assert_eq!(parse_usize(s), s.parse::<usize>().ok());
    }
}

#[test]
fn id_lists_skip_bad_entries() {
    assert_eq!(parse_ids("1,2,3"), vec![1, 2, 3]);
    assert_eq!(parse_ids(" 4 , x,, 5 "), vec![4, 5]);
    assert_eq!(parse_ids(""), Vec::<usize>::new());
    assert_eq!(parse_ids("-1,2"), vec![2]);
}

#[test]
fn population_is_even_and_at_least_two() {
    assert_eq!(training_population(0), 2);
    assert_eq!(training_population(1), 2);
    assert_eq!(training_population(2), 2);
    assert_eq!(training_population(3), 4);
    assert_eq!(training_population(8), 8);
}

#[test]
fn commands_are_read_from_the_first_argument() {
    assert_eq!(command_of(&[]), Command::Help);
    assert_eq!(command_of(&args(&["info", "--preset", "small"])), Command::Info);
    assert_eq!(command_of(&args(&["demo"])), Command::Demo);
    assert_eq!(command_of(&args(&["train", "--gens", "2"])), Command::Train);
    assert_eq!(command_of(&args(&["dream"])), Command::Dream);
    assert_eq!(command_of(&args(&["tokenize"])), Command::Tokenize);
    assert_eq!(command_of(&args(&["--help"])), Command::Help);
    assert_eq!(command_of(&args(&["-h"])), Command::Help);
    assert_eq!(command_of(&args(&["Info"])), Command::Unknown);
    assert_eq!(command_of(&args(&["--gens", "2"])), Command::Unknown);
}

#[test]
fn only_small_selects_the_small_preset() {
    assert!(is_small_preset(&Some("small".to_string())));
    assert!(!is_small_preset(&Some("tiny".to_string())));
    assert!(!is_small_preset(&Some("Small".to_string())));
    assert!(!is_small_preset(&None));
}
