# h2o_qwen2

A Qwen2 decoder in Verus. Its attention layers do not keep every key and value:
each holds a bounded cache made of a sliding window of recent entries and a small
set of heavy hitters, the older entries that have drawn the most attention.

- `src/` is the verified library.
  - `array`, `tensor`: what a tensor is, and the operations on it. The operations
    are candle's; each is reached through one small function whose contract is
    believed.
  - `number`: double-precision numbers, held as bit patterns.
  - `cache`, `retention`: the cache, and what it keeps and lets go.
  - `weights`, `nn`: named weights, and the layers made from them.
  - `rotary`, `masks`, `attention`, `mlp`, `decoder`, `model`, `language`: the
    model, from the parts to the whole.
  - `laws`, `rows`: facts that relate the parts to one another, and what the
    attention of one query depends on.
  - `success`: when the parts, and the whole, are bound to succeed.
  - `generation`: the course of a text generation.
  - `layout`: where a cache lies in memory.
- `tests/` runs the library on small models and caches.
- `app/` is a program that generates text.

Where an operation computes with fractions, the last bits of its result depend on
the machine. Contracts therefore say which operation was applied to which
arguments, not which number came out: a spec function whose name ends in `_result`
relates arguments to outcome, and one that ends in `_outcome` stands for what the
arithmetic may yield.
