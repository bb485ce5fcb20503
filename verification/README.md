# wordcore

The core of a word-processor engine, written in Rust and proved with Verus:
document addresses, caret motion, hit-testing and selection geometry, styled
spans, table layout, the flow of blocks onto pages, the accessibility mirror and
its patches, and the decisions behind the editing commands.

## Layout

- `src/` is the verified library. Every public function states exactly what it
  returns or changes. Properties that span several functions are proof functions
  whose names start with `law_`.
- `tests/` runs the library on concrete values.
- `app/` is the browser surface: the messages on the wire, the conversion of
  pixels and points to layout units, and the engine that asks the library what
  to do and a backend to do it.

## Units

Lengths are integers in layout units, 64 to the pixel. Numbers that the library
only carries along, such as font sizes and page margins, stay in the bit pattern
of the float that they came as.

## What is taken on trust

- `segment.rs`: where grapheme clusters and words begin, from
  `unicode-segmentation`.
- `spans.rs`: whether a character is lowercase, from `std`.
- `text.rs`: `String::push`.
- `cache.rs`: the least-recently-used cache of `lru`.
- `pdf_text.rs`: the zlib decoder of `flate2`.

Each of these items says in its doc comment what is claimed of the function
behind it.
