# elten-scraper

Archives the Elten (EltenLink) forum network - groups, forums, threads, posts,
transcriptions, audio and attachments - into a single SQLite database.

The decisions of the program are a library whose behaviour is stated in
`requires` and `ensures` and proved by Verus. The program around it sends the
requests, runs the SQL, asks the user and reads the clock.

## Library

| Module | What it holds |
| --- | --- |
| `text` | Trimming, splitting, matching, reading and writing numbers. |
| `json` | JSON values; reading and writing JSON text through `serde_json`. |
| `digest` | SHA-256 through `sha2`, and hexadecimal text. |
| `order` | Stable ordering by a numeric key. |
| `model` | Groups, forums, threads and posts, read leniently from JSON; expanding an incremental catalog. |
| `api` | URLs, redaction, scrubbing of messages, the response envelope, retries and backoff, pacing, size-limited downloads. |
| `auth` | The device id, the cached session, logging in with a second factor. |
| `config` | Settings, their defaults and what makes them valid. |
| `select` | Typed selections, listings, and which forums a selection covers. |
| `store` | What is written to the database and what is read back from it. |
| `scrape` | Fetching the catalog, planning a run, names of media files, what a run came to. |
| `progress` | Progress as lines of text, for screen readers. |
| `bench` | What a benchmark fetches and how its results are read. |

Beside the contracts of the functions, public proof functions state what holds
of several of them together: that an incremental catalog never has holes, that
a catalog refresh keeps the watermarks, that an interrupted run continues where
it stopped, that requests never exceed the configured rate, that redacted URLs
and scrubbed messages say nothing of the credentials, and so on.

Calls into other crates stand behind small functions marked
`#[verifier::external_body]`, each with a comment that says what is claimed of
the call. Floating-point arithmetic is left to the program: a rate or a timing
that the library compares is held as the bits of a double.

## Program

`app/` is the command line: `init`, `select`, `login`, `logout`, `scrape`,
`bench`, `status` and `export`.
