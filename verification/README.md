# beebotos_launcher

The logic of the BeeBotOS launcher, verified with Verus: reading and writing the model keys in
the `.env` file, parsing the launcher's command line, and building the reports it shows.

- `src/text.rs`: Unicode whitespace, trimming, splitting into lines, byte lengths.
- `src/env.rs`: parsing `.env` lines, loading the model keys, writing them back over an
  existing file (keeping foreign lines and a long enough secret).
- `src/secret.rs`: fresh secrets from random UUIDs (through the `uuid` crate).
- `src/command.rs`: the command line, what each command does, the service script's outcome.
- `src/report.rs`: report sections and the blotting out of keys.
- `src/roundtrip.rs`: proofs that what is written reads back, that each managed key is
  written once, that the secret is kept, and that saving again leaves the file as it is.
- `app/`: the program around the library: files, processes, the browser and, on Windows, the
  window.
