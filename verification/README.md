# criew

A verified library for Linux kernel patch mail workflows. It reads mail headers
and review trailers, recognises patch series and their revisions, decides what
still needs review, searches threads, and plans mailbox synchronisation.

- `src/` is the library. Every function in it is proved against its contract by
  Verus. What the library promises as a whole stands in the proof functions whose
  names begin with `law_`.
- `app/` is the program around it: command line, SQLite tables, mail files, and
  the loops that carry out what `sync` decides.
- `tests/` runs the library on concrete mails, queries and synchronisations.

Modules of the library:

| Module | What it decides |
| --- | --- |
| `text` | What trimming, splitting, searching and case folding mean |
| `mail_parser` | Headers, mailboxes, message identifiers, trailers, subjects |
| `series_store` | Patch subjects, series, revisions, the catalog |
| `catalog` | What a refresh writes to the tables, and what they show after it |
| `patch` | What a subject says of its series |
| `review` | Review queues and their report |
| `dates`, `query` | Thread queries |
| `reply_store`, `following` | What is stored of drafts, sends and activity |
| `imap`, `selection`, `completion`, `sync` | Synchronisation, step by step |
| `cli`, `config`, `error`, `mail_store` | Plain records |

What is trusted: `String::push`, `char::is_alphanumeric` and
`String::from_utf8_lossy` of the standard library (in `text`), and the four date
parsers of `chrono` (in `dates`).
