# doxsearch

Searches the text of documents: WordprocessingML (`.docx` and its kin), OpenDocument (`.odt`
and its kin, flat files too), PDF and plain text files.

`src/` is the library, written in Verus. What each function returns or changes is stated in
its contract and proved.

| modules | what they hold |
| --- | --- |
| `text`, `bytes`, `numbers`, `order`, `folding`, `boundary`, `shared`, `time` | the vocabulary of the others |
| `path`, `locations`, `desktop`, `language`, `ui_text` | paths, directories and texts of the user interface |
| `options`, `filters`, `scan`, `process` | which files are searched, and what is done with each |
| `archive`, `xml_reader`, `xml_text`, `office`, `pdf`, `pdf_stream`, `plain_text`, `extract`, `extract_error` | the text of a document |
| `matching`, `prefix` | where a query stands in a text |
| `cache_shard`, `cache`, `semaphore` | texts that are kept, and permits for heavy files |
| `results`, `csv`, `screen`, `session` | what was found, how it is shown and saved |

Paths are sequences of bytes with `/` between their components. Functions that are marked
`external_body`, and the declarations that start with `assume_specification`, are the places
where the proofs rest on other crates or on the standard library; the comment above each says
what is taken for granted.

`app/` is the program around the library: it walks directories with `jwalk`, reads files in
parallel with `rayon`, and shows a window with `slint`. The window needs one of the backends of
`slint`, which its features choose. Times are shown in the time zone of the machine.

`tests/` runs the library on examples.
