# podcast

From an Apple Podcasts link to a transcript of the episode.

1. The link's identifiers lead to a request to the iTunes Lookup API, which
   tells the episode's audio and the show's feed.
2. The feed may publish a transcript of the episode (WebVTT, SRT or plain text).
   It is preferred.
3. Otherwise the audio is downloaded, split by ffmpeg into ten-minute segments,
   and transcribed segment by segment, up to a limit in minutes.

The library under `src/` is verified with Verus. It parses, chooses and decides;
`resolve` and `speech` are state machines that say what is to be done next.
`app/` makes the requests, runs ffmpeg and keeps the files.

| Module | What it holds |
|---|---|
| `apple` | links, their identifiers, the lookup request |
| `lookup`, `json` | the lookup answer |
| `feed`, `xml_reader` | feeds and their items |
| `transcript` | published transcripts as readable prose |
| `audio`, `chunks` | file extensions, media types, segments and their order |
| `speech` | transcription by segments |
| `resolve` | the whole resolution |
| `patterns`, `text` | regular expressions and text |

`xml_reader`, `patterns` and `json` hold the contracts under which `quick_xml`,
`regex` and `serde_json` are used.
