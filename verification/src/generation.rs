//! The course of a text generation: what the model is given at each step, and what
//! happens with the token that was sampled.

use vstd::prelude::*;

verus! {

/// The number of tokens after which progress is reported.
pub const REPORT_INTERVAL: usize = 100;

/// A text generation under way.
#[derive(Debug)]
pub struct Generation {
    tokens: Vec<u32>,
    prompt_len: usize,
    sample_len: usize,
    eos_token: u32,
    stopped: bool,
}

/// What is to be done with a sampled token.
#[derive(Debug, Clone, Copy, PartialEq, Eq, Structural)]
pub struct Progress {
    /// The text of the token is shown.
    pub show: bool,
    /// The speed so far is reported.
    pub report: bool,
}

/// The state of a text generation: the tokens of the prompt and those generated
/// after it, how many may be generated, and whether the closing token has come.
pub struct GenerationView {
    pub tokens: Seq<u32>,
    pub prompt_len: nat,
    pub sample_len: nat,
    pub eos_token: u32,
    pub stopped: bool,
}

impl View for Generation {
    type V = GenerationView;

    closed spec fn view(&self) -> GenerationView {
        GenerationView {
            tokens: self.tokens@,
            prompt_len: self.prompt_len as nat,
            sample_len: self.sample_len as nat,
            eos_token: self.eos_token,
            stopped: self.stopped,
        }
    }
}

impl GenerationView {
    /// The tokens start with the prompt, and no more than allowed follow.
    pub open spec fn wf(self) -> bool {
        self.prompt_len <= self.tokens.len() <= self.prompt_len + self.sample_len
    }

    /// The number of tokens generated so far.
    pub open spec fn generated(self) -> nat {
        (self.tokens.len() - self.prompt_len) as nat
    }

    /// Whether nothing more is to be generated.
    pub open spec fn done(self) -> bool {
        self.stopped || self.generated() >= self.sample_len
    }

    /// The position of the first token that the model is given next: the whole
    /// prompt at first, then the last token alone.
    pub open spec fn start(self) -> nat {
        if self.generated() > 0 && self.tokens.len() > 0 {
            (self.tokens.len() - 1) as nat
        } else {
            0
        }
    }

    /// The tokens that the model is given next.
    pub open spec fn context(self) -> Seq<u32> {
        self.tokens.skip(self.start() as int)
    }

    /// The state after a token has been sampled.
    pub open spec fn after(self, token: u32) -> GenerationView {
        GenerationView {
            tokens: self.tokens.push(token),
            stopped: self.stopped || token == self.eos_token,
            ..self
        }
    }
}

/// The tokens from position `start` on.
fn tail(tokens: &Vec<u32>, start: usize) -> (r: Vec<u32>)
    requires
        start <= tokens@.len(),
    ensures
        r@ == tokens@.skip(start as int),
{
    let mut out: Vec<u32> = Vec::new();
    let mut i: usize = start;
    while i < tokens.len()
        invariant
            start <= i <= tokens@.len(),
            out@ == tokens@.subrange(start as int, i as int),
        decreases tokens@.len() - i,
    {
        out.push(tokens[i]);
        i += 1;
    }
    assert(tokens@.subrange(start as int, i as int) =~= tokens@.skip(start as int));
    out
}

impl Generation {
    /// A generation that starts from a prompt and yields at most `sample_len`
    /// tokens.
    pub fn new(prompt: Vec<u32>, sample_len: usize, eos_token: u32) -> (r: Self)
        ensures
            r@ == (GenerationView {
                tokens: prompt@,
                prompt_len: prompt@.len(),
                sample_len: sample_len as nat,
                eos_token,
                stopped: false,
            }),
            r@.wf(),
    {
        let prompt_len = prompt.len();
        Generation { tokens: prompt, prompt_len, sample_len, eos_token, stopped: false }
    }

    /// The number of tokens generated so far.
    pub fn generated(&self) -> (r: usize)
        requires
            self@.wf(),
        ensures
            r == self@.generated(),
            r + self@.prompt_len == self@.tokens.len(),
    {
        self.tokens.len() - self.prompt_len
    }

    /// Whether nothing more is to be generated.
    pub fn is_done(&self) -> (r: bool)
        requires
            self@.wf(),
        ensures
            r == (self@.stopped || self@.tokens.len() >= self@.prompt_len + self@.sample_len),
            r == self@.done(),
    {
        self.stopped || self.generated() >= self.sample_len
    }

    /// The position of the first token that the model is given next.
    pub fn start_pos(&self) -> (r: usize)
        requires
            self@.wf(),
        ensures
            r == self@.start(),
            r <= self@.tokens.len(),
            self@.tokens.len() == self@.prompt_len ==> r == 0,
            self@.tokens.len() > self@.prompt_len ==> r + 1 == self@.tokens.len(),
    {
        let context_size = if self.generated() > 0 {
            1
        } else {
            self.tokens.len()
        };
        if context_size <= self.tokens.len() {
            self.tokens.len() - context_size
        } else {
            0
        }
    }

    /// The tokens that the model is given next.
    pub fn context(&self) -> (r: Vec<u32>)
        requires
            self@.wf(),
        ensures
            r@ == self@.context(),
            self@.tokens.len() == self@.prompt_len ==> r@ == self@.tokens,
            self@.tokens.len() > self@.prompt_len ==> r@ == seq![self@.tokens.last()],
    {
        let start = self.start_pos();
        assert(self.tokens@.skip(0) =~= self.tokens@);
        assert(self.tokens@.len() > 0 ==> self.tokens@.skip(self.tokens@.len() - 1) =~= seq![
            self.tokens@.last(),
        ]);
        tail(&self.tokens, start)
    }

    /// The last `last_n` tokens, or all where there are fewer: those whose repetition
    /// is penalised.
    pub fn penalised(&self, last_n: usize) -> (r: Vec<u32>)
        ensures
            r@ == if self@.tokens.len() <= last_n {
                self@.tokens
            } else {
                self@.tokens.skip(self@.tokens.len() - last_n)
            },
            r@.len() == if self@.tokens.len() <= last_n {
                self@.tokens.len()
            } else {
                last_n as nat
            },
            r@.is_suffix_of(self@.tokens),
    {
        let len = self.tokens.len();
        let start = if len <= last_n {
            0
        } else {
            len - last_n
        };
        assert(self.tokens@.skip(0) =~= self.tokens@);
        tail(&self.tokens, start)
    }

    /// Takes a sampled token. The closing token ends the generation and is not
    /// shown; every other one is, and progress is reported at regular intervals.
    pub fn accept(&mut self, token: u32) -> (r: Progress)
        requires
            old(self)@.wf(),
            !old(self)@.done(),
            old(self)@.tokens.len() < usize::MAX,
        ensures
            final(self)@ == old(self)@.after(token),
            final(self)@.wf(),
            final(self)@.tokens == old(self)@.tokens.push(token),
            final(self)@.prompt_len == old(self)@.prompt_len,
            final(self)@.sample_len == old(self)@.sample_len,
            final(self)@.eos_token == old(self)@.eos_token,
            final(self)@.stopped == (old(self)@.stopped || token == old(self)@.eos_token),
            r.show == (token != old(self)@.eos_token),
            r.report == (token != old(self)@.eos_token && (final(self)@.tokens.len()
                - final(self)@.prompt_len) % 100 == 0),
            r.report == (token != old(self)@.eos_token && final(self)@.generated()
                % REPORT_INTERVAL as nat == 0),
    {
        self.tokens.push(token);
        if token == self.eos_token {
            self.stopped = true;
            return Progress { show: false, report: false };
        }
        let generated = self.tokens.len() - self.prompt_len;
        Progress { show: true, report: generated % REPORT_INTERVAL == 0 }
    }
}

/// Each step starts at the position where the one before it ended, so that the
/// model is given every position once and in order.
pub proof fn a_step_starts_where_the_last_one_ended(g: GenerationView, token: u32)
    requires
        g.wf(),
        !g.done(),
    ensures
        g.after(token).start() == g.start() + g.context().len(),
        g.after(token).context() == seq![token],
{
    let n = g.after(token);
    assert(n.context() =~= seq![token]);
}

/// The closing token ends a generation, and so does the last token that is allowed.
pub proof fn a_generation_ends(g: GenerationView, token: u32)
    requires
        g.wf(),
        !g.done(),
    ensures
        token == g.eos_token ==> g.after(token).done(),
        g.generated() + 1 == g.sample_len ==> g.after(token).done(),
        g.after(token).generated() == g.generated() + 1,
{
}

/// The state of a generation that starts from a prompt.
pub open spec fn begun(prompt: Seq<u32>, sample_len: nat, eos_token: u32) -> GenerationView {
    GenerationView {
        tokens: prompt,
        prompt_len: prompt.len(),
        sample_len,
        eos_token,
        stopped: false,
    }
}

/// The state of a generation after tokens have been sampled one after the other.
pub open spec fn after_all(g: GenerationView, tokens: Seq<u32>) -> GenerationView
    decreases tokens.len(),
{
    if tokens.len() == 0 {
        g
    } else {
        after_all(g, tokens.drop_last()).after(tokens.last())
    }
}

/// What is known of a generation after tokens have been sampled.
proof fn lemma_after_all(g: GenerationView, tokens: Seq<u32>)
    ensures
        after_all(g, tokens).tokens == g.tokens + tokens,
        after_all(g, tokens).prompt_len == g.prompt_len,
        after_all(g, tokens).sample_len == g.sample_len,
        after_all(g, tokens).eos_token == g.eos_token,
        after_all(g, tokens).stopped == (g.stopped || tokens.contains(g.eos_token)),
    decreases tokens.len(),
{
    if tokens.len() == 0 {
        assert(g.tokens + tokens =~= g.tokens);
    } else {
        let (front, last) = (tokens.drop_last(), tokens.last());
        lemma_after_all(g, front);
        assert(g.tokens + tokens =~= (g.tokens + front).push(last));
        if tokens.contains(g.eos_token) && last != g.eos_token {
            let i = choose|i: int| 0 <= i < tokens.len() && tokens[i] == g.eos_token;
            assert(front[i] == g.eos_token);
        }
        if front.contains(g.eos_token) {
            let i = choose|i: int| 0 <= i < front.len() && front[i] == g.eos_token;
            assert(tokens[i] == g.eos_token);
        }
        if last == g.eos_token {
            assert(tokens[tokens.len() - 1] == g.eos_token);
        }
    }
}

/// A generation ends with the closing token, or after as many tokens as were asked for, and
/// not before: the prompt, however long, does not count. All tokens stay in the order in
/// which they came.
pub proof fn a_generation_ends_in_time(
    prompt: Seq<u32>,
    sample_len: nat,
    eos_token: u32,
    sampled: Seq<u32>,
)
    ensures
        after_all(begun(prompt, sample_len, eos_token), sampled).done() == (sampled.contains(
            eos_token,
        ) || sampled.len() >= sample_len),
        after_all(begun(prompt, sample_len, eos_token), sampled).tokens == prompt + sampled,
        after_all(begun(prompt, sample_len, eos_token), sampled).generated() == sampled.len(),
        sample_len > 0 ==> !begun(prompt, sample_len, eos_token).done(),
{
    lemma_after_all(begun(prompt, sample_len, eos_token), sampled);
}

/// The model is given the whole prompt at position zero, and after that each sampled token
/// alone, at the position that it has behind the prompt and the tokens sampled before it.
pub proof fn the_model_is_given_each_token_once(
    prompt: Seq<u32>,
    sample_len: nat,
    eos_token: u32,
    sampled: Seq<u32>,
)
    ensures
        sampled.len() == 0 ==> {
            let g = begun(prompt, sample_len, eos_token);
            g.start() == 0 && g.context() == prompt
        },
        sampled.len() > 0 ==> {
            let g = after_all(begun(prompt, sample_len, eos_token), sampled);
            g.start() == prompt.len() + sampled.len() - 1 && g.context() == seq![sampled.last()]
        },
{
    let g = begun(prompt, sample_len, eos_token);
    lemma_after_all(g, sampled);
    if sampled.len() == 0 {
        assert(g.context() =~= prompt);
    } else {
        let n = after_all(g, sampled);
        assert(n.context() =~= seq![sampled.last()]);
    }
}

} // verus!
