# ocr_backend

Layout of OCR output, verified with Verus. Recognized text regions become
numbered lines (`Format::to_lines`); noise lines are dropped
(`Filter::front_filter`); the remaining lines are grouped into paragraphs by
column, vertical distance and overlap, each with its text in reading order and
an estimated font size (`Format::to_paragraphs`); trailing formula lines can be
cut (`Filter::back_filter`).

- `src/rect.rs`: boxes, overlap, union, and their laws.
- `src/text.rs`: character classes and the text measures the filters use.
- `src/filter.rs`: `Filter` and its specification.
- `src/font.rs`: median heights and the font-size estimate.
- `src/order.rs`: stable ordering of lines by their top edge.
- `src/layout.rs`: the specification of paragraph grouping and its laws.
- `src/format.rs`: lines, paragraphs, `Format`, and `can_form_paragraphs`,
  which tells whether `to_paragraphs` can run on given lines.
- `app/`: the recognition engine (`ocr_rs`) around the library.
