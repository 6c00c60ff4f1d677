# voiceflow_core

The text side of VoiceFlow, a dictation assistant, as a Verus-verified
library: spoken corrections ("delete last word", "replace X with Y", "never
mind", "no wait ..."), rule-based formatting of transcripts (spoken
punctuation, lists, numbers, e-mail addresses and URLs, developer casing,
vocabulary), the rule planner and registry that run formatting rules in
passes, streaming windows and change sets, the processing of one transcript
end to end, and the decisions of the listening loop.

Layout:

- `src/` — the library. Its functions are verified against contracts stated
  over spec functions on `Seq<char>` and plain values, except the small
  trusted wrappers (marked `external_body`) that call `regex` and the parts
  of `std` that Verus does not specify; their contracts are assumed.
  - `text.rs`, `matching.rs`, `clock.rs` — text machinery and the trusted
    wrappers around `regex` and the parts of `std` that Verus does not specify.
  - `editing/` — spoken corrections and the rewrite history.
  - `formatting/` — formatting rules, the planner (`planner.rs`, with its
    laws: dependencies first, highest priority among the ready rules, each rule
    of the passes exactly once, success exactly when no planned category has a
    dependency cycle), the registry, streaming windows and merges.
  - `pipeline/` — requests, results, intent detection, the transcript
    processor, observers and vocabulary aliases.
  - `llm/`, `profile/` — prompts and the rewrite layer.
  - `runtime.rs` — the listening engine's state, the events it sends its
    subscriber, and the decision of each round of the listening loop.
- `tests/` — behaviour tests of the library.
- `app/` — what talks to the outside world: microphone capture, the model
  download, the listening thread that runs the library's decisions, and
  serializable copies of library types.
