# hkdf-tree

Deterministic hierarchical passphrase derivation from a single master seed
via HKDF-SHA256, with the derivation, encoding and inventory logic verified
with Verus.

## Layout

- `src/` — the verified library (`hkdf_tree`):
  - `lib.rs`: `derive_bytes`, HKDF-SHA256 with an output-length ceiling;
  - `encoding.rs`: the MSB-first bit reader, rejection sampling and the
    Diceware, numeric, alphanumeric and base64 encoders, each specified
    exactly, with the laws the determinism contract relies on;
  - `inventory.rs`: the inventory tree, its validation, the flattening into
    entries in tree order, and the distinctness of info-strings;
  - `wordlist.rs`: wordlist name resolution and parsing;
  - `commands.rs`: what the command-line subcommands decide — filters,
    listing lines, derivation of an entry's passphrase, report selection
    and the cards of a report;
  - `report.rs`: word wrapping, the text of the report's cover and cards,
    and the QR code of each derived card (through the `qrcode` crate);
  - `text.rs`, `secret.rs`: string helpers and buffer wiping.
- `app/` — the command-line tool: argument parsing, reading the seed and
  the YAML inventory, drawing the PDF pages, output.
- `tests/` — tests of the library.

## Inventory maps

Each mapping level of the inventory (domains, realms, purposes, versions) is
a vector of `(key, value)` pairs rather than an ordered map. The laws on
entries speak of the order in which every level is walked. vstd describes
the walk of an ordered map only through its iterator's prophetic sequence,
which no spec function here may name, and with string keys its
specification says nothing usable at all. `Inventory::validate` refuses
repeated or unordered keys at every level, so a validated inventory holds
its keys exactly as an ordered map would; the YAML loader in `app/` builds
the vectors from ordered maps.

## Built-in wordlist

The tool embeds the EFF Large Wordlist from `wordlists/eff_large.txt`
(published by the Electronic Frontier Foundation, one `<dice>\t<word>`
line per word). Place that file there before building `app/`.
