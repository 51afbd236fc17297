# Glyphfall

A game that teaches non-Latin scripts (hangeul, kana, kanji): signs fall, the
player types their reading before they reach the line.

The rules of the game are a library verified with Verus; the window, the
sound and the files are an ordinary program around it.

## Layout

- `src/`: the library, every function with its contract.
  - `model`, `mode`, `catalog`, `paths`, `cycles`, `order`: the content of a
    script and the rules of coherence it must follow.
  - `session`, `draw`, `review`: a round, what falls and in which proportion,
    and the signs a level reviews.
  - `progress`, `daily`, `settings`: what is saved from one run to the next.
  - `navigation`, `screens`, `ui`, `music`, `voices`, `wav`: the decisions of
    the screens, the stack they form, the music's playlist, the voices of the
    signs and the WAV files the sound engine reads.
  - `keyed`, `text`, `random`: ordered maps keyed by text, text helpers, and
    the draw of random numbers.
- `app/`: the program: main loop, drawing, sound decoding and synthesis,
  reading the content and the saves.
- `tests/`: the tests of the library.

## Units

The library holds no floating-point number: positions are in thousandths of
a virtual pixel, times in milliseconds, ratios and volumes in thousandths.
