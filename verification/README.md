# wireguard_import

Import of WireGuard `.conf` files as a managed Clash profile, with the
parsing and the import's decisions verified by Verus.

- `src/text.rs` — the model of the `str` operations the format needs
  (Unicode white-space trimming, ASCII case folding, splitting, `lines`,
  decimal numbers) and their proved implementations on character vectors.
- `src/sections.rs` — `[Section]` / `Key = Value` reading into tables without
  duplicate keys (`Table`, `Sections`), header counting, required and
  optional values.
- `src/values.rs` — ports, `host:port` / `[host]:port` endpoints, and the
  IPv4 entry of an `Address` list.
- `src/config.rs` — `parse_wireguard_config`, specified by `config_of`.
- `src/clash.rs` — every value of the generated Clash profile.
- `src/profile.rs` — the managed profile entry, the profile-list update, the
  import report, and the decisions of switching TUN mode on and off.
- `src/error.rs` — refusals and their messages.
- `src/laws.rs` — properties of the whole: refusals never echo values, key
  text changes nothing but the keys, Windows line endings read the same for
  every text, numbers (padded or not) and endpoints read back as written,
  every counted header yields its section, the profile list keeps exactly
  one managed entry, and more.
- `app/` — the host side: YAML through `serde_yaml_ng`, profile files through
  `tokio::fs`, and the application's settings store behind a trait.
