# lsp4a

Semantic `rename`, `references` and `diagnostics` for callers that know a symbol's
name and not its coordinates, over any language server that speaks LSP on its
standard streams. The answers are JSON: a summary of a rename with each changed
line before and after (null where the line is gone), references and diagnostics by line and source text, and
errors with the candidates behind them.

The library under `src/` is verified with [Verus](https://github.com/verus-lang/verus).
It does no input or output. `session` runs a command as a state machine: each step
takes an event and gives the next action, and `app/` performs the actions.

| module | what it holds |
| --- | --- |
| `text`, `order`, `path`, `uri` | characters, lines, numbers, orders, paths, URIs |
| `json` | JSON values as plain data; parsing and writing through serde_json |
| `transport` | `Content-Length` framing |
| `client` | the client's requests and what it makes of what the server says |
| `apply`, `decode`, `workspace` | positions, text edits, workspace edits |
| `regions`, `blocks` | where edits change a text, and the lines that they join |
| `resolve` | from a symbol's name to its position |
| `summary`, `render` | what a caller is shown |
| `error` | failures and mistakes on the command line |
| `session` | one run of the tool |
| `lifecycle`, `positions`, `preview` | what holds of all of it together |

What is trusted stands in `text`, `uri` and `json`: contracts for
functions of the standard library and of serde_json, each with a comment that says
what it claims.
