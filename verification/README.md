# pg_ros2

A PostgreSQL extension that brings ROS 2 into SQL: snapshots of the ROS graph
and of remote parameters in ordinary tables, topics delivered with
`LISTEN`/`NOTIFY`, publication of one message from a query, and durable action
goals. What the extension decides is verified with Verus.

## Layout

- `src/` is the library. It holds every decision over plain values, and states
  and proves what each function does. It talks to nobody.
  - `message`, `json`, `text`: messages, JSON values and texts.
  - `subscriptions`: the bounded JSON encoder, and the session of a subscriber.
  - `publish`: the decoder, and the turns of a publication.
  - `graph`, `parameters`, `observer`: snapshots, the poll of parameter
    services, and the worker that saves both.
  - `actions`: goals, the protocol with an action server, and the bridge that
    reconciles the two.
  - `naming`, `order`, `table`, `sql`, `time`: what the others share.
- `app/` performs what the library decides: it talks to PostgreSQL through
  `pgrx` and to ROS through `rclrs`, and converts their values to plain ones.
- `tests/` runs the library on concrete values.

Each part of the library that alternates with ROS or the database is a state
that is advanced by turns: a turn takes what came of the last action and names
the next one. Laws that hold of every state and of every turn stand in the
`laws` modules, those that follow a whole subscription or poll in the `run`
modules. `subscriptions::fate` says what becomes of every message,
`actions::dispatch` that a goal is sent at most once, and `actions::telemetry`
what a poll of a goal tells. `publish::round_trip` proves that decoding undoes
encoding, the `reading` modules that what is written as JSON can be read back,
and `publish::reencoding` puts the two together.

Floating-point numbers are carried through the library as decimal texts: a
number that was read from ROS as the shortest text that denotes it in its
precision, and a JSON number as the text of the double. What a field of 32 bits
holds of a JSON number is the nearest number of that precision, to which `app/`
rounds it. Building `app/` takes a ROS 2 Humble environment and the
server headers of PostgreSQL 18.
