# docx_edit

Editing Word (`.docx`) documents as plain text, for a Vim plugin: the main
document part is read into a flat list of paragraphs, drawn as an editable
text buffer (lists, headings and tables included), and edits are written
back by splicing the original XML, so that every paragraph that did not
change keeps its bytes.

The library is written in Verus. Every function in `src/` is verified
against its contract, except the few wrappers (marked
`#[verifier::external_body]`) that call `quick_xml` or std: their
contracts are trusted. The events that `quick_xml` reads from a part are
named (`xml_events`), not stated, and every parse is stated over them.

- `src/`: the verified library
  - `model`, `text`: the document model and string helpers
  - `xml_events`: the `quick_xml` tokenizer seen as plain events
  - `parser`, `numbering`: reading `document.xml` and `numbering.xml`
  - `render`, `cells`, `diff`, `edit`, `save`, `xml_emit`: drawing the
    buffer and writing an edited buffer back
  - `style`, `structure`, `attach`: formatting, adding and deleting
    paragraphs, inserting images, files and embedded objects
  - `rels`, `package`, `upload`, `png`: relationships, content types,
    names of package entries, batches of added files, and small PNG files
  - `commands`, `limits`: the command line, and checks of machine limits
- `app/`: the command-line program (zip input and output, printing, and
  the floating-point size computations)
- `tests/`: tests of the library
