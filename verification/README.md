# tbon

TBON is a compact binary notation for structured data that can be written and read as a stream.
This crate reads and writes it, and proves with Verus that it does so faithfully.

## The format

| value | bytes |
|-------|-------|
| unit | type bit |
| boolean, integer, floating-point number | type bit, then the number, most significant byte first |
| string | `"`, UTF-8 text, `"` |
| array of fixed-size elements | `=`, type bit, elements, `=` |
| list | `[`, values, `]` |
| map | `{`, keys, each followed by its value, `}` |

Inside strings and arrays a `\` makes the byte behind it data.

## Layout

- `src/` is the verified library.
  - `constants`, `element`, `escape`, `text`, `utf8`, `buf` and `error` hold the pieces of the
    format.
  - `de`, `access` and `skip` hold the decoder. It never waits: where bytes are missing it answers
    `Step::Read`, and is called again once it has been handed more of them.
  - `read` drives the decoder over the chunks of a stream and reads whole values; `en` writes them.
  - `model`, `parse` and `grammar` say what values are, what bytes stand for, where values end, and
    where reading stops that does not get so far. Contracts are stated over them.
  - `laws` proves what holds of all of this together: what is written is read back, however the
    stream is cut into chunks; streams that are cut short or go on are refused; what can be read
    can be skipped; the limit on nesting is kept.
- `app/` drives the same decoder from asynchronous streams and readers, into any type that
  `destream` can decode.
- `tests/` runs the library.

The contracts of calls into the `bytes` crate and into the standard library are taken on trust.
They stand in `buf`, `utf8` and `text`, each with what it claims.
