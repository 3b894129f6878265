//! The integer rules that the network's configurations and inputs must
//! follow: layer shapes, memory capacities, population sizes and token
//! sequences. Each check reports the first rule broken, with the message
//! the network gives.

use vstd::prelude::*;
use crate::error::AetherError;
use crate::text::{append_chars, chars_of, decimal, decimal_chars, string_of};

verus! {

/// `prefix`, the number `a`, `middle`, the number `b`, as one string.
fn two_number_message(prefix: &str, a: usize, middle: &str, b: usize) -> (r: String)
    ensures
        r@ == prefix@ + decimal(a as nat) + middle@ + decimal(b as nat),
{
    let mut msg = chars_of(prefix);
    append_chars(&mut msg, &decimal_chars(a));
    append_chars(&mut msg, &chars_of(middle));
    append_chars(&mut msg, &decimal_chars(b));
    string_of(&msg)
}

/// An `InvalidConfig` error carrying `m`.
pub open spec fn invalid_config(e: AetherError, m: Seq<char>) -> bool {
    e matches AetherError::InvalidConfig(s) && s@ == m
}

/// A network shape is valid exactly when the width is positive and divided
/// by a positive number of heads, there is a layer, the expert sizes are
/// positive with `1 <= top_k <= n_experts`, the window and sequence limit
/// are positive, there are at least 4 tokens, and every memory capacity is
/// positive.
pub proof fn law_network_shape_rules(s: NetworkShape)
    ensures
        s.is_valid() <==> (s.d_model > 0 && s.n_heads > 0 && s.d_model % s.n_heads == 0
            && s.n_layers > 0 && s.d_moe_hidden > 0 && s.n_experts > 0 && s.top_k > 0 && s.top_k
            <= s.n_experts && s.window > 0 && s.vocab_size >= 4 && s.max_seq > 0
            && s.memory_sensory > 0 && s.memory_working > 0 && s.memory_episodic > 0
            && s.memory_semantic > 0),
{
}

/// Check that the size `n` called `what` is not 0; the message reads
/// `{what} is 0`.
pub fn check_nonzero(what: &str, n: usize) -> (r: Result<(), AetherError>)
    ensures
        match r {
            Ok(()) => n > 0,
            Err(e) => n == 0 && invalid_config(e, what@ + " is 0"@),
        },
{
    if n == 0 {
        let mut msg = chars_of(what);
        append_chars(&mut msg, &chars_of(" is 0"));
        return Err(AetherError::InvalidConfig(string_of(&msg)));
    }
    Ok(())
}

/// Check that an input of `len` items is not empty; an empty one is
/// refused with `message`.
pub fn check_nonempty(len: usize, message: &str) -> (r: Result<(), AetherError>)
    ensures
        match r {
            Ok(()) => len > 0,
            Err(e) => {
                &&& len == 0
                &&& e matches AetherError::EmptyInput(m)
                &&& m@ == message@
            },
        },
{
    if len == 0 {
        return Err(AetherError::EmptyInput(string_of(&chars_of(message))));
    }
    Ok(())
}

/// Shape rules of a sparse mixture of experts: positive widths, at least
/// one expert, and `1 <= top_k <= n_experts`.
pub fn check_moe_shape(d_model: usize, d_hidden: usize, n_experts: usize, top_k: usize) -> (r:
    Result<(), AetherError>)
    ensures
        match r {
            Ok(()) => d_model > 0 && d_hidden > 0 && n_experts > 0 && top_k > 0 && top_k
                <= n_experts,
            Err(e) => if d_model == 0 || d_hidden == 0 {
                invalid_config(e, "d_model and d_hidden must be > 0"@)
            } else if n_experts == 0 || top_k == 0 {
                invalid_config(e, "n_experts and top_k must be > 0"@)
            } else {
                top_k > n_experts && invalid_config(
                    e,
                    "top_k "@ + decimal(top_k as nat) + " exceeds n_experts "@ + decimal(
                        n_experts as nat,
                    ),
                )
            },
        },
{
    if d_model == 0 || d_hidden == 0 {
        return Err(AetherError::InvalidConfig(String::from_str("d_model and d_hidden must be > 0")));
    }
    if n_experts == 0 || top_k == 0 {
        return Err(AetherError::InvalidConfig(String::from_str("n_experts and top_k must be > 0")));
    }
    if top_k > n_experts {
        return Err(
            AetherError::InvalidConfig(
                two_number_message("top_k ", top_k, " exceeds n_experts ", n_experts),
            ),
        );
    }
    Ok(())
}

/// The integer hyperparameters of a whole mind.
#[derive(Debug, Clone, Copy)]
pub struct NetworkShape {
    /// Hidden width.
    pub d_model: usize,
    /// Attention heads.
    pub n_heads: usize,
    /// Stacked blocks.
    pub n_layers: usize,
    /// MoE expert hidden width.
    pub d_moe_hidden: usize,
    /// Experts per MoE layer.
    pub n_experts: usize,
    /// Experts active per token.
    pub top_k: usize,
    /// Local attention window diameter.
    pub window: usize,
    /// Vocabulary size.
    pub vocab_size: usize,
    /// Longest accepted sequence.
    pub max_seq: usize,
    /// Sensory ring capacity.
    pub memory_sensory: usize,
    /// Working set capacity.
    pub memory_working: usize,
    /// Episodic capacity.
    pub memory_episodic: usize,
    /// Semantic prototype capacity.
    pub memory_semantic: usize,
}

impl NetworkShape {
    /// Every rule holds.
    pub open spec fn is_valid(&self) -> bool {
        &&& self.d_model > 0
        &&& self.n_heads > 0 && self.d_model % self.n_heads == 0
        &&& self.n_layers > 0
        &&& self.d_moe_hidden > 0 && self.n_experts > 0
        &&& self.top_k > 0 && self.top_k <= self.n_experts
        &&& self.window > 0 && self.vocab_size >= 4 && self.max_seq > 0
        &&& self.memory_sensory > 0 && self.memory_working > 0 && self.memory_episodic > 0
            && self.memory_semantic > 0
    }

    /// The message for the first rule broken.
    pub open spec fn first_violation(&self) -> Seq<char> {
        if self.d_model == 0 {
            "d_model is 0"@
        } else if self.n_heads == 0 || self.d_model % self.n_heads != 0 {
            "d_model "@ + decimal(self.d_model as nat) + " incompatible with n_heads "@ + decimal(
                self.n_heads as nat,
            )
        } else if self.n_layers == 0 {
            "n_layers is 0"@
        } else if self.d_moe_hidden == 0 || self.n_experts == 0 {
            "d_moe_hidden and n_experts must be > 0"@
        } else if self.top_k == 0 || self.top_k > self.n_experts {
            "top_k "@ + decimal(self.top_k as nat) + " incompatible with n_experts "@ + decimal(
                self.n_experts as nat,
            )
        } else if self.window == 0 || self.vocab_size < 4 || self.max_seq == 0 {
            "need window > 0, vocab_size >= 4, max_seq > 0"@
        } else {
            "memory caps must all be > 0"@
        }
    }

    /// Check every rule: a positive width that the heads divide, at least
    /// one layer, positive expert sizes with `1 <= top_k <= n_experts`, a
    /// positive window, at least 4 tokens, a positive sequence limit and
    /// positive memory capacities.
    pub fn validate(&self) -> (r: Result<(), AetherError>)
        ensures
            match r {
                Ok(()) => self.is_valid(),
                Err(e) => !self.is_valid() && invalid_config(e, self.first_violation()),
            },
            r is Ok <==> (self.d_model > 0 && self.n_heads > 0 && self.d_model % self.n_heads == 0
                && self.n_layers > 0 && self.d_moe_hidden > 0 && self.n_experts > 0 && self.top_k
                > 0 && self.top_k <= self.n_experts && self.window > 0 && self.vocab_size >= 4
                && self.max_seq > 0 && self.memory_sensory > 0 && self.memory_working > 0
                && self.memory_episodic > 0 && self.memory_semantic > 0),
    {
        proof {
            law_network_shape_rules(*self);
        }
        if self.d_model == 0 {
            return Err(AetherError::InvalidConfig(String::from_str("d_model is 0")));
        }
        if self.n_heads == 0 || self.d_model % self.n_heads != 0 {
            return Err(
                AetherError::InvalidConfig(
                    two_number_message(
                        "d_model ",
                        self.d_model,
                        " incompatible with n_heads ",
                        self.n_heads,
                    ),
                ),
            );
        }
        if self.n_layers == 0 {
            return Err(AetherError::InvalidConfig(String::from_str("n_layers is 0")));
        }
        if self.d_moe_hidden == 0 || self.n_experts == 0 {
            return Err(
                AetherError::InvalidConfig(
                    String::from_str("d_moe_hidden and n_experts must be > 0"),
                ),
            );
        }
        if self.top_k == 0 || self.top_k > self.n_experts {
            return Err(
                AetherError::InvalidConfig(
                    two_number_message(
                        "top_k ",
                        self.top_k,
                        " incompatible with n_experts ",
                        self.n_experts,
                    ),
                ),
            );
        }
        if self.window == 0 || self.vocab_size < 4 || self.max_seq == 0 {
            return Err(
                AetherError::InvalidConfig(
                    String::from_str("need window > 0, vocab_size >= 4, max_seq > 0"),
                ),
            );
        }
        if self.memory_sensory == 0 || self.memory_working == 0 || self.memory_episodic == 0
            || self.memory_semantic == 0 {
            return Err(AetherError::InvalidConfig(String::from_str("memory caps must all be > 0")));
        }
        Ok(())
    }
}

/// Capacity rules of the fractal memory: a positive width and positive
/// capacities for every tier.
pub fn check_memory_shape(
    d_model: usize,
    sensory_cap: usize,
    working_cap: usize,
    episodic_cap: usize,
    semantic_cap: usize,
) -> (r: Result<(), AetherError>)
    ensures
        match r {
            Ok(()) => d_model > 0 && sensory_cap > 0 && working_cap > 0 && episodic_cap > 0
                && semantic_cap > 0,
            Err(e) => if d_model == 0 {
                invalid_config(e, "memory d_model is 0"@)
            } else {
                (sensory_cap == 0 || working_cap == 0 || episodic_cap == 0 || semantic_cap == 0)
                    && invalid_config(e, "memory caps must all be > 0"@)
            },
        },
{
    if d_model == 0 {
        return Err(AetherError::InvalidConfig(String::from_str("memory d_model is 0")));
    }
    if sensory_cap == 0 || working_cap == 0 || episodic_cap == 0 || semantic_cap == 0 {
        return Err(AetherError::InvalidConfig(String::from_str("memory caps must all be > 0")));
    }
    Ok(())
}

/// A resonant layer needs at least one unit.
pub fn check_resonant_units(n_units: usize) -> (r: Result<(), AetherError>)
    ensures
        match r {
            Ok(()) => n_units > 0,
            Err(e) => n_units == 0 && invalid_config(e, "resonant n_units is 0"@),
        },
{
    if n_units == 0 {
        return Err(AetherError::InvalidConfig(String::from_str("resonant n_units is 0")));
    }
    Ok(())
}

/// The creativity engine needs candidates, iterations and a candidate length.
pub fn check_creativity_counts(n_candidates: usize, max_iters: usize, candidate_len: usize) -> (r:
    Result<(), AetherError>)
    ensures
        match r {
            Ok(()) => n_candidates > 0 && max_iters > 0 && candidate_len > 0,
            Err(e) => (n_candidates == 0 || max_iters == 0 || candidate_len == 0) && invalid_config(
                e,
                "n_candidates, max_iters and candidate_len must be > 0"@,
            ),
        },
{
    if n_candidates == 0 || max_iters == 0 || candidate_len == 0 {
        return Err(
            AetherError::InvalidConfig(
                String::from_str("n_candidates, max_iters and candidate_len must be > 0"),
            ),
        );
    }
    Ok(())
}

/// Evolution needs an even population of at least two (antithetic pairs).
pub fn check_population(pop: usize) -> (r: Result<(), AetherError>)
    ensures
        match r {
            Ok(()) => pop >= 2 && pop % 2 == 0,
            Err(e) => (pop < 2 || pop % 2 != 0) && invalid_config(e, "pop must be even and >= 2"@),
        },
{
    if pop < 2 || pop % 2 != 0 {
        return Err(AetherError::InvalidConfig(String::from_str("pop must be even and >= 2")));
    }
    Ok(())
}

/// Evolution needs at least one generation.
pub fn check_generations(generations: usize) -> (r: Result<(), AetherError>)
    ensures
        match r {
            Ok(()) => generations > 0,
            Err(e) => generations == 0 && invalid_config(e, "generations is 0"@),
        },
{
    if generations == 0 {
        return Err(AetherError::InvalidConfig(String::from_str("generations is 0")));
    }
    Ok(())
}

/// The message for an id outside the vocabulary.
pub open spec fn token_message(id: usize, vocab_size: usize) -> Seq<char> {
    "token "@ + decimal(id as nat) + " out of vocab "@ + decimal(vocab_size as nat)
}

/// Check that every id is below `vocab_size`; on failure, report the first
/// id that is not.
fn check_ids(ids: &[usize], vocab_size: usize) -> (r: Result<(), AetherError>)
    ensures
        match r {
            Ok(()) => forall|i: int| 0 <= i < ids@.len() ==> ids@[i] < vocab_size,
            Err(e) => exists|k: int|
                #![trigger ids@[k]]
                {
                    &&& 0 <= k < ids@.len()
                    &&& ids@[k] >= vocab_size
                    &&& forall|j: int| 0 <= j < k ==> ids@[j] < vocab_size
                    &&& e matches AetherError::Vocab(m)
                    &&& m@ == token_message(ids@[k], vocab_size)
                },
        },
{
    let mut i: usize = 0;
    while i < ids.len()
        invariant
            i <= ids.len(),
            forall|j: int| 0 <= j < i ==> ids@[j] < vocab_size,
        decreases ids.len() - i,
    {
        if ids[i] >= vocab_size {
            let m = two_number_message("token ", ids[i], " out of vocab ", vocab_size);
            assert(ids@[i as int] >= vocab_size);
            return Err(AetherError::Vocab(m));
        }
        i = i + 1;
    }
    Ok(())
}

/// Check a sequence fed to the network: non-empty, no longer than
/// `max_seq`, and every id below `vocab_size` (the first offending id is
/// reported).
pub fn check_sequence(ids: &[usize], max_seq: usize, vocab_size: usize) -> (r: Result<(), AetherError>)
    ensures
        match r {
            Ok(()) => 0 < ids@.len() <= max_seq && forall|i: int|
                0 <= i < ids@.len() ==> ids@[i] < vocab_size,
            Err(e) => if ids@.len() == 0 {
                e matches AetherError::EmptyInput(m) && m@ == "forward got no ids"@
            } else if ids@.len() > max_seq {
                invalid_config(
                    e,
                    "sequence len "@ + decimal(ids@.len()) + " exceeds max_seq "@ + decimal(
                        max_seq as nat,
                    ),
                )
            } else {
                exists|k: int|
                    #![trigger ids@[k]]
                    {
                        &&& 0 <= k < ids@.len()
                        &&& ids@[k] >= vocab_size
                        &&& forall|j: int| 0 <= j < k ==> ids@[j] < vocab_size
                        &&& e matches AetherError::Vocab(m)
                        &&& m@ == token_message(ids@[k], vocab_size)
                    }
            },
        },
{
    if ids.len() == 0 {
        return Err(AetherError::EmptyInput(String::from_str("forward got no ids")));
    }
    if ids.len() > max_seq {
        return Err(
            AetherError::InvalidConfig(
                two_number_message("sequence len ", ids.len(), " exceeds max_seq ", max_seq),
            ),
        );
    }
    check_ids(ids, vocab_size)
}

/// Check a generation prompt: non-empty, and every id below `vocab_size`
/// (the first offending id is reported).
pub fn check_prompt(ids: &[usize], vocab_size: usize) -> (r: Result<(), AetherError>)
    ensures
        match r {
            Ok(()) => 0 < ids@.len() && forall|i: int|
                0 <= i < ids@.len() ==> ids@[i] < vocab_size,
            Err(e) => if ids@.len() == 0 {
                e matches AetherError::EmptyInput(m) && m@ == "generate got empty prompt"@
            } else {
                exists|k: int|
                    #![trigger ids@[k]]
                    {
                        &&& 0 <= k < ids@.len()
                        &&& ids@[k] >= vocab_size
                        &&& forall|j: int| 0 <= j < k ==> ids@[j] < vocab_size
                        &&& e matches AetherError::Vocab(m)
                        &&& m@ == token_message(ids@[k], vocab_size)
                    }
            },
        },
{
    if ids.len() == 0 {
        return Err(AetherError::EmptyInput(String::from_str("generate got empty prompt")));
    }
    check_ids(ids, vocab_size)
}

/// Check a span of ids to embed: non-empty, and every id below `vocab_size`
/// (the first offending id is reported).
pub fn check_span(ids: &[usize], vocab_size: usize) -> (r: Result<(), AetherError>)
    ensures
        match r {
            Ok(()) => 0 < ids@.len() && forall|i: int|
                0 <= i < ids@.len() ==> ids@[i] < vocab_size,
            Err(e) => if ids@.len() == 0 {
                e matches AetherError::EmptyInput(m) && m@ == "embed_mean got no ids"@
            } else {
                exists|k: int|
                    #![trigger ids@[k]]
                    {
                        &&& 0 <= k < ids@.len()
                        &&& ids@[k] >= vocab_size
                        &&& forall|j: int| 0 <= j < k ==> ids@[j] < vocab_size
                        &&& e matches AetherError::Vocab(m)
                        &&& m@ == token_message(ids@[k], vocab_size)
                    }
            },
        },
{
    if ids.len() == 0 {
        return Err(AetherError::EmptyInput(String::from_str("embed_mean got no ids")));
    }
    check_ids(ids, vocab_size)
}

/// Where the context window of at most `max_seq` ids starts within a
/// context of `len` ids: the last `max_seq` ids are kept.
pub fn window_start(len: usize, max_seq: usize) -> (r: usize)
    ensures
        r == if len > max_seq {
            len - max_seq
        } else {
            0
        },
{
    len.saturating_sub(max_seq)
}

} // verus!
