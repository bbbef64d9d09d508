# ktts

The verified core of a Korean text-to-speech system, written in Verus. Every
function in `src/` carries a `requires`/`ensures` contract that Verus proves.

## Layout

- `src/`: the library.
  - Dictionary file formats, each parsed with a contract tying the result to the
    bytes: `blob` (the packed data map), `pronsec`, `kmorph`, `posngram`,
    `wordgram`, `birule`, `tosplit`, `english`, `hanja`, `wdic`, `synthdb`,
    `userdic`, `pronrule`.
  - Loading the analyser's dictionaries from a data map: `kmadict`.
  - Text analysis: character classes and runs (`charstr`), sentence modes
    (`sentence`), morpheme combination and linking rules (`morph`, `link`,
    `yongon`), syllable codes (`code`, `codec`, `text`), digit reading
    (`digits`), and the word-list passes that run before and after analysis
    (`preproc`, `wordlist`, `post`).
  - Output: `wav` (WAV headers and files).
  - Laws that span functions are public proof functions named `law_*`, for
    example decoding what was encoded (`blob`), UTF-16 and syllable round trips
    (`codec`, `code`), WAV header round trip (`wav`), the sizes of parsed files
    (`birule`, `kmorph`) and the shape of character runs (`charstr`).
- `tests/`: tests run against the compiled library.
- `app/`: the command-line program built on the library: argument handling, file
  I/O, loading the dictionaries from a directory, the voice parameters and the
  signal level (floating point).
