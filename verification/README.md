# xummary

One LLM briefing of the day's X timeline, in a terminal pane.

The crate is a Verus project. `src/` is the verified library:

- `text`: the string operations the rest is written with, over `Seq<char>`.
- `json`: a JSON value with the lookups the timeline reader makes.
- `cookies`: decrypting Chromium cookie values, picking the X session out of a
  profile's cookie rows, and the search over browsers and profiles.
- `x`: reading posts and the bottom cursor out of a home-timeline answer.
- `digest`: paging one feed, and choosing the posts a briefing is written from.
- `llm`: the prompt, and the meaning of each line of the model's stream.
- `store`: what the cache and the briefing history keep.
- `ui`: wrapping and laying out the briefing, and the pane's state.

`app/` is the program around it: arguments, the cookie database on disk, HTTP,
the model's process, the terminal, and the cache files.
