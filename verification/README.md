# hashline

A line-anchored patch language for text files, and the daemon that serves it.

A patch names each file with a content tag, `[path#TAG]`, and edits it by line numbers:

```
[path/to/file#1A2B]
SWAP 4.=6:
+new line 1
+new line 2
DEL 8
INS.POST 10:
+inserted after line 10
INS.TAIL:
+appended at end
```

The tag is a 4-hex fingerprint of the whole file. An edit whose tag no longer names the
file's content is recovered by a three-way merge or by moving its anchors along unchanged
lines, or it is refused.

## Layout

- `src/` is the library. Every function states its behaviour in `requires`/`ensures`
  clauses that Verus proves. The exceptions are the calls into other crates and std in
  `src/engines.rs`, and `String::push` in `src/text.rs`: their contracts are trusted.
- `app/` is the daemon, an MCP server on stdin and stdout. It reads and writes files and
  runs commands; what a request means and what is answered is decided by the library.
- `tests/` runs the library.
