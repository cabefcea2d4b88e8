# cc_switch

Verified core of the CC Switch desktop companion.

- `src/` — the library, verified with Verus: session-level model routing
  (`route_prefix`, `route_apply`), the usage caches and refresher decisions,
  the WebDAV auto-sync decisions, the DSH patch files of the web and desktop
  profiles (`dsh_patch`, over the
  `yaml` and `json` value models), MCP live configs and imports
  (`mcp_live`), API log capture and compaction (`api_log`), the Responses to
  Chat stream conversion (`responses_chat`, `sse`), ZCode sessions, the
  floating-ball panel data, and the configuration paths. Each module states
  its contracts over spec functions and views; the `law_*` proof functions
  state properties across calls (read after write, round trips, what a
  removal leaves).
- `tests/` — tests of the library on concrete values.
- `app/` — the desktop glue: files, SQLite, environment, async streams and
  workers, and the floating-ball window geometry (floating point).
