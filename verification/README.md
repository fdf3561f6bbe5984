# miden_tools

A verified library of tools for working on and with Miden, written in Verus.

| Module | What it decides |
| --- | --- |
| `comment_reflow` | which line comments of a Rust source are plain prose, and how they are rewrapped |
| `source_files` | which files under given paths are Rust sources, and in what order they come |
| `width` | how wide reflowed comments may be |
| `fmt_comments` | what a run over many files writes and reports |
| `codecs` | how account ids and assets are encoded for, and rendered from, typed procedure calls |
| `call` | which procedure a call means, what it passes, where it runs and what it shows |
| `fee_funding` | which wallet of a pool a test process claims, and how it pays out of it |
| `protocol`, `account`, `felt` | the protocol's account ids, assets, words and field elements as plain numbers |
| `text`, `number`, `hex` | text, and numbers as text |

Each function states in its contract what it returns. What holds across functions is stated by
public proof functions, which stand beside the functions they speak of; those on comments are
gathered in `comment_reflow::laws`, and `comment_reflow::twice` states that a second reflow changes
nothing.

The library calls `tree_sitter`, `tree_sitter_rust`, `toml` and `miden_protocol` through small
functions whose contracts are taken on trust. The doc comment of each names what it calls.

`app/` holds the program around the library: the command line, the file system, and the calls to
the node through `miden_client`.
