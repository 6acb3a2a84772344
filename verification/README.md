# llm_utils

Utilities for preparing text for large language models, written in Verus
with their behaviour stated in contracts and proved.

- `text`: the single-pass `TextCleaner` (white-space collapsing, line-break
  normalisation, citation removal, control-character filtering). Its model
  is in `text_spec`; its properties are proved in `text_laws`: the output
  is trimmed and its white space normalised for every setting, runs of line
  feeds and of spaces are bounded under the settings stated there, and
  cleaning a cleaned text changes nothing when spaces collapse.
- `html`: the readable article of an HTML page, rendered as text
  (`dom_smoothie`, `html2text`) and cleaned; what the two crates compute is
  named in the contracts, and the rest of the pipeline is proved over it;
  HTML that may hold a zero `colspan` is refused before rendering
  (`colspan`).
- `links`: the URLs of a text (`linkify`, `url`), each URL once, in the
  order their links are found.
- `opml`: OPML documents and the extraction of their RSS feeds, grouped by
  folder.
- `app/`: serde and builder support for the OPML types and the XML reading
  and writing of documents (`quick-xml`), which the verified library does
  not hold.
