# rmqtty

A terminal MQTT explorer. Messages from the broker are filed in a tree of topic levels
(`a/b/c` under `a`, then `b`, then `c`); the tree is listed with foldable levels, and the
newest message of the selected topic is shown, JSON payloads pretty-printed with colours.

- `src/` is the library, verified with Verus: the topic tree (`topic`), the explorer state and
  its reactions to keys and broker events (`app`), connection settings (`args`, `config`,
  `mqtt`), JSON highlighting (`json`) and the texts of the screen (`ui`), with the string
  helpers they share (`text`).
- `app/` is the program around it: command line, configuration file, broker connection and
  terminal.

Sessions are read from `~/.config/rmqtty/config.toml`:

```toml
[sessions.home]
host = "192.168.1.10"
port = 1883
topics = ["home/#"]
user = "user"
password = "SECRET-REDACTED"
```
