# Garuda

A runtime that serves mixture-of-experts language models, synthetic ones or GGUF
checkpoints, from machines with less memory than the model has weights.

* `src/` is the library. Everything that is decided on the way from a request to a
  stream of tokens stands there, in Verus, with its contract and the proof of it.
* `tests/` runs the library on concrete values, whole decode loops and tiny checkpoints
  among them.
* `app/` is the program: floating-point kernels, HTTP handlers, files, the scheduler's
  task. It asks the library what to do and does it.

## How contracts are written

Types have a view: a key-value cache is a sequence of pages, a session a context and what
the model knows of it, a scheduler a list of jobs and their stages. Contracts speak of
views. Where a type has an invariant, it is called `wf`.

Numbers with a fraction appear as the bit patterns of `f32`. Comparing them is proved
(`sampling`); arithmetic on them is not part of the library. Sizes, and the running averages that
decisions rest on, are another matter: `double` keeps them as a double does, rounded to
53 bits after every operation, in integers.

A tier of storage takes part through the trait `types::StorageBackend`. It changes behind
the reference that it is reached by, so its methods say which answers it may give, and
contracts speak of those: what was written, what came back, what was asked to be removed.
`cache::kv_laws` states what follows where a tier gives back what was written.

A model takes part through the trait `backend::InferenceBackend`, whose methods say what an
implementation owes: it consumes what is new, advances every layer, and answers the same
context with the same logits. `decode` runs prefill, single steps, rounds of guesses and
batches on any such model, `batch` keeps the sequences that run together, and
`decode_laws` states what follows: guessing ahead, from the context or by a draft model,
never changes what greedy decoding says, and neither do a hit in the prompt cache or a
pass that is shared with other sequences. This is said of calls that do not fail. A model
may refuse a pass, and its answers may depend on how far back attention reaches.

What the library takes on trust are two functions of the standard library and two of
other crates. Each stands behind an item that says what is believed of it: `text`
(appending a character), `gguf` (decoding UTF-8 with replacements), `cache::prompt` (the
BLAKE3 digest), `auth` (comparison in constant time).
