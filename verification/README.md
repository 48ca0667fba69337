# himark

Verified pieces of a text editor's host and UI, written in Verus.

`src/` is the library, every function in it verified:

- `lines`: a text's lines, each with its newline.
- `lcs`: the line edit script by longest common subsequence, with the
  proof that it keeps as many lines as any edit script.
- `diff`: the line diff as byte hunks over the old text (`hunks`,
  `spans`), with the proof that applying them to the old text gives the
  new one.
- `merge`: the three-way merge of two descendants of one base text
  (`merged`), with the proofs that a change made on both sides lands
  once and that an unchanged side yields the other.
- `ui_ctx`, `layout`, `clipboard`, `button`: the UI context's env slots,
  the layout shim, the clipboard protocol and the button roles.
- `bytes`: byte helpers and the one conversion from bytes to `String`.

`tests/` runs the library on concrete texts. `app/` holds the program and
the UI code that sits on the drawing, windowing, rope and editor crates.
