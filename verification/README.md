# 2kHz

A music client that treats an analysed catalogue as a space to walk through:
neighbours of a track, radio, paths between two tracks, a drift towards a
described sound, and a library, a queue and a map to do it from.

The logic is a Verus library: its functions state what they return or change, and
the proofs come with them. What touches files, sockets, processes, floats and
the screen is ordinary Rust around it.

## Layout

`src/` is the verified library.

- `space`, `db`, `engine`: the space as it lies on disk, the catalogue that names
  its rows, and both together.
- `ordering`, `paths`, `tour`, `route`, `frontier`: ranking, walks under
  constraints, the order of a queue, and the cheapest route through a graph.
- `map`: the points of the map and the bytes they cross in.
- `qobuz`, `json`, `api`, `backend`: what a server says and what is asked of it.
- `logbuffer`, `stages`, `wiring`, `cli`, `text`, `tokenizer`: the log, a stage's life,
  where files are kept, command lines, what the text tower reads, and which
  tokenizers are trusted to make it.
- `ui`: what each part of the window shows and what a click comes to, as plain
  state and decisions.
- `strings`, `script`: text, and the scripts handed to the page.

`app/` is the program: the HTTP client, the database, the subprocesses, the
vectors, the components. A function that needs the similarity of two rows takes a
closure for it, so the arithmetic on floats stays in `app/` and the walk that
uses it in `src/`.

`tests/` runs both halves of the library's promises on values: the proofs say
what holds of all of them.

## What is taken on trust

Calls into other crates are believed rather than proved, each behind a contract of
a few lines: the growth of a string and lower-casing (`strings`), bytes taken as
words (`db`), the MD5 of a file (`api`), bytes read as text where they may not be
any (`backend::remote`), a text as a JSON string (`script`), the way std quotes a
text (`text`), and what it says of a text that is no whole number (`cli`).

`tokenizer` asks a tokenizer how it is built and then has it read a phrase. Nothing
is claimed of what it answers. What is proved is which of its answers are used, and
for what: one built so that it could give out in the middle of a phrase, by its
normalizer, its pre-tokenizer, its added tokens, its cut, its template or its
padding, is refused before it is asked, whatever the phrase. So are some that would
have read the phrase at hand: every pattern and every precompiled table, and every
cut that could leave no room.

Scores are integers that order as the similarities they stand for; distances and
tempos are whole numbers of a small unit; weights and coordinates are carried as
the bits they are made of.
