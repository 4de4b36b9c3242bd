# rmqtt_plugins

Verified core logic of the RMQTT broker's plugins, written in Verus. Each
public function states in its contract what it returns or changes, and Verus
proves it; laws that relate several operations are public proof functions.

Layout:

- `src/` — the library (one module per concern):
  `topic` (MQTT topic and filter matching), `message`, `ram_store`
  (in-memory offline message store), `storage_msg` (persistent message store
  decisions), `shared_sub` (shared-subscription strategies), `session_store`
  and `session_flags` (stored session infos, session state), `retainer`
  (retained messages), `value_cache` (stale-while-revalidate cache),
  `rewrite` (topic-rewrite rules), `p2p`, `sys_topic`, `time_injector`,
  `http_api` (client search, publish requests, request routing), `history`
  and `history_cache` (stats history keys, warm-up and LRU cache), `storage`
  (key framing and bounded lists), `helloworld`, `text`.
- `tests/` — tests run against the compiled library.
- `app/` — serde-facing configuration and request types, and JSON output.
