//! The sizes and constants of a model.

use candle_nn::Activation;
use vstd::prelude::*;

verus! {

/// The sizes and constants of a model. `rope_theta` and `rms_norm_eps` hold the
/// bits of doubles.
#[derive(Debug, PartialEq)]
pub struct Config {
    pub vocab_size: usize,
    pub hidden_size: usize,
    pub intermediate_size: usize,
    pub num_hidden_layers: usize,
    pub num_attention_heads: usize,
    pub num_key_value_heads: usize,
    pub max_position_embeddings: usize,
    pub sliding_window: usize,
    pub max_window_layers: usize,
    pub tie_word_embeddings: bool,
    pub rope_theta: u64,
    pub rms_norm_eps: u64,
    pub use_sliding_window: bool,
    pub hidden_act: Activation,
}

impl Clone for Config {
    fn clone(&self) -> (r: Self)
        ensures
            r == *self,
    {
        Config {
            vocab_size: self.vocab_size,
            hidden_size: self.hidden_size,
            intermediate_size: self.intermediate_size,
            num_hidden_layers: self.num_hidden_layers,
            num_attention_heads: self.num_attention_heads,
            num_key_value_heads: self.num_key_value_heads,
            max_position_embeddings: self.max_position_embeddings,
            sliding_window: self.sliding_window,
            max_window_layers: self.max_window_layers,
            tie_word_embeddings: self.tie_word_embeddings,
            rope_theta: self.rope_theta,
            rms_norm_eps: self.rms_norm_eps,
            use_sliding_window: self.use_sliding_window,
            hidden_act: self.hidden_act,
        }
    }
}

impl Config {
    /// The number of features of each attention head.
    pub open spec fn head_dim(self) -> nat {
        (self.hidden_size / self.num_attention_heads) as nat
    }

    /// Whether the heads can be told apart and their features counted.
    pub open spec fn valid(self) -> bool {
        &&& self.num_attention_heads > 0
        &&& self.num_key_value_heads > 0
        &&& self.num_key_value_heads * self.head_dim() <= usize::MAX
        &&& self.hidden_size <= i64::MAX
        &&& self.num_attention_heads <= i64::MAX
    }

    /// Whether a model can be made with this configuration.
    pub fn is_valid(&self) -> (r: bool)
        ensures
            r == self.valid(),
            r == (self.num_attention_heads > 0 && self.num_key_value_heads > 0
                && self.num_key_value_heads * (self.hidden_size / self.num_attention_heads)
                <= usize::MAX && self.hidden_size <= i64::MAX && self.num_attention_heads
                <= i64::MAX),
    {
        if self.num_attention_heads == 0 || self.num_key_value_heads == 0 {
            return false;
        }
        let head_dim = self.hidden_size / self.num_attention_heads;
        match self.num_key_value_heads.checked_mul(head_dim) {
            Some(_) => self.hidden_size as u64 <= i64::MAX as u64 && self.num_attention_heads
                as u64 <= i64::MAX as u64,
            None => false,
        }
    }
}

} // verus!
