//! Configuration of entangled multi-scale attention.
//!
//! Each query position of the attention layer fuses a sharp local branch
//! (a sliding window of half-width `window / 2`) with a holographic global
//! gist branch; the model width is split evenly over the heads, so it must be
//! divisible by the number of heads.

use vstd::prelude::*;
use crate::error::AetherError;
use crate::shape::{empty_input, shape_mismatch};
use crate::text::{append_chars, chars_of, decimal, decimal_chars, string_of};

verus! {

/// Construction parameters for entangled attention.
#[derive(Debug, Clone)]
pub struct EntangledAttentionConfig {
    /// Model width; must be divisible by `n_heads`.
    pub d_model: usize,
    /// Number of heads.
    pub n_heads: usize,
    /// Sliding-window diameter for the local branch.
    pub window: usize,
}

/// The message for a width that the heads do not divide.
pub open spec fn indivisible_message(d_model: usize, n_heads: usize) -> Seq<char> {
    "d_model "@ + decimal(d_model as nat) + " not divisible by n_heads "@ + decimal(n_heads as nat)
}

impl EntangledAttentionConfig {
    /// Validate ranges and divisibility: every field positive, and the width
    /// a multiple of the number of heads.
    pub fn validate(&self) -> (r: Result<(), AetherError>)
        ensures
            match r {
                Ok(()) => self.d_model > 0 && self.n_heads > 0 && self.window > 0 && self.d_model
                    % self.n_heads == 0,
                Err(e) => e matches AetherError::InvalidConfig(m) && if self.d_model == 0
                    || self.n_heads == 0 || self.window == 0 {
                    m@ == "d_model, n_heads and window must all be > 0"@
                } else {
                    self.d_model % self.n_heads != 0 && m@ == indivisible_message(
                        self.d_model,
                        self.n_heads,
                    )
                },
            },
    {
        if self.d_model == 0 || self.n_heads == 0 || self.window == 0 {
            return Err(
                AetherError::InvalidConfig(
                    String::from_str("d_model, n_heads and window must all be > 0"),
                ),
            );
        }
        if self.d_model % self.n_heads != 0 {
            let mut msg = chars_of("d_model ");
            append_chars(&mut msg, &decimal_chars(self.d_model));
            append_chars(&mut msg, &chars_of(" not divisible by n_heads "));
            append_chars(&mut msg, &decimal_chars(self.n_heads));
            return Err(AetherError::InvalidConfig(string_of(&msg)));
        }
        Ok(())
    }
}

/// Whether key position `s` lies in the local window of query position `t`:
/// at most `window / 2` positions away, on either side.
pub open spec fn within_window(t: int, s: int, window: int) -> bool {
    let d = if t >= s {
        t - s
    } else {
        s - t
    };
    d <= window / 2
}

/// Executable form of [`within_window`].
pub fn in_local_window(t: usize, s: usize, window: usize) -> (r: bool)
    ensures
        r == within_window(t as int, s as int, window as int),
        r <==> (t - s <= window / 2 && s - t <= window / 2),
{
    proof {
        law_local_window_bound(t as int, s as int, window as int);
    }
    let d = if t >= s {
        t - s
    } else {
        s - t
    };
    d <= window / 2
}

/// Check the input of an attention layer of width `d_model`: a non-empty
/// sequence of `rows` positions with `cols` features each, `cols == d_model`.
pub fn check_attention_input(d_model: usize, rows: usize, cols: usize) -> (r: Result<
    (),
    AetherError,
>)
    ensures
        match r {
            Ok(()) => rows > 0 && cols == d_model,
            Err(e) => if rows == 0 {
                empty_input(e, "attention got empty sequence"@)
            } else {
                cols != d_model && shape_mismatch(
                    e,
                    "attention needs d_model "@ + decimal(d_model as nat) + " cols, got "@
                        + decimal(cols as nat),
                )
            },
        },
{
    if rows == 0 {
        return Err(AetherError::EmptyInput(String::from_str("attention got empty sequence")));
    }
    if cols != d_model {
        let mut msg = chars_of("attention needs d_model ");
        append_chars(&mut msg, &decimal_chars(d_model));
        append_chars(&mut msg, &chars_of(" cols, got "));
        append_chars(&mut msg, &decimal_chars(cols));
        return Err(AetherError::ShapeMismatch(string_of(&msg)));
    }
    Ok(())
}

/// Key `s` is in the local window of query `t` exactly when they are at
/// most `window / 2` positions apart, on either side.
pub proof fn law_local_window_bound(t: int, s: int, window: int)
    ensures
        within_window(t, s, window) <==> (t - s <= window / 2 && s - t <= window / 2),
{
}

/// The local window carries no absolute position: every position sees
/// itself, the relation is symmetric, it is unchanged when both positions
/// move by the same offset, and unchanged when a sequence of `len` positions
/// is read backwards.
pub proof fn law_local_window_is_relative(len: int, t: int, s: int, offset: int, window: int)
    requires
        0 <= t < len,
        0 <= s < len,
        0 <= window,
    ensures
        within_window(t, t, window),
        within_window(t, s, window) == within_window(s, t, window),
        within_window(t, s, window) == within_window(t + offset, s + offset, window),
        within_window(t, s, window) == within_window(len - 1 - t, len - 1 - s, window),
{
}

} // verus!
