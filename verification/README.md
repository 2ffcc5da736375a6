# zetta_com

The logic of Zetta Com, a LAN intercom — hold a key and the people you choose
hear you — as a library whose behaviour is stated in contracts and proved with
Verus.

## Layout

- `src/wire.rs` — the eight-byte datagram header: writing, parsing, and that
  each undoes the other.
- `src/jitter.rs` — the per-stream reorder window: packets released in order,
  late ones dropped, a missing one given up on only once enough are banked.
- `src/link.rs` — the sending and receiving halves: sequence numbers,
  timestamps and the heartbeat going out; coming in, a stream per sender with
  its own loss counting across the wrap and its own reorder window.
- `src/audio.rs` — choosing a device and a configuration, the Opus rates,
  watching streams for signs of life, playback priming and the half-duplex
  mute, the encoder's gate on the talk key, downmixing and the talker mix.
- `src/discovery.rs` — the roster of machines found on the LAN.
- `src/session.rs` — what a running session knows: presence, the message log,
  the peers typed in by hand, names given to machines, the roster order, and
  who is sent to.
- `src/keys.rs` — the global shortcuts: which keys there are, how they read,
  and what a press or release does.
- `src/config.rs`, `src/commands.rs` — the saved settings and the edits the
  window's commands make to them.
- `src/text.rs` — trimming, replacing and ordering strings, over their
  characters.
- `app/` — the desktop shell: window and tray, the socket and its threads, the
  audio devices and codec, mDNS, the settings file. It calls the library for
  every decision.
- `tests/` — the library's behaviour on concrete values.
