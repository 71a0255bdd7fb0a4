# featherkey

The FeatherKey keyboard engine as a Verus library: the on-device learned
models (bigram context, correction signals, the bounded vocabulary and its
byte codec), the per-language lexicon backed by an `fst` set, accent folding,
cursor movement over graphemes and words, the swipe candidate index, the
no-clobber correction rule, and the lookups that blend several active
languages into one suggestion strip. Each public function states what it
returns in `requires` / `ensures` over `Seq`, `Map` and `Set` models, and
Verus proves it.

Layout:

- `src/`: the verified library, one module per concern (see each module's
  doc comment). Calls into `fst`, `unicode-normalization` and
  `unicode-segmentation` go through small trusted wrappers whose contracts
  name or state what those crates compute.
- `tests/`: ordinary Rust tests against the compiled library.
- `app/`: the parts Verus does not take: floating-point touch geometry and
  swipe scoring, panic containment, and the error types with `Display`.

The ordered word maps (`BTreeMap<String, _>` in a plain Rust design) are held
as sorted `Vec`s of `(String, value)` pairs (`WordCounts`, `NestedCounts`,
the vocabulary's tables), and the swipe index's per-key buckets as a `Vec`
keyed by `char`. vstd's specifications of `BTreeMap` and `HashMap` prove
lookups only for keys whose equality it knows, which a `String` key is not,
so each of these types states its own invariant instead: keys strictly
ascending (or distinct, for the buckets), and the `Map` the list stands for.
