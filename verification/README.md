# Drumentor core

Drumentor is a drum-practice desktop application: it plays a MIDI song through a
SoundFont synthesizer, listens to an electronic drum kit, and scores the player's hits
against the song's drum part.

This crate holds the application's logic as a Verus-verified library:

- `domain` — pads, the General MIDI percussion map, device pad maps, judgements.
- `hit_matcher` — matching incoming hits to expected hits, misses, session summaries.
- `smf`, `tempo`, `song`, `playback` — Standard MIDI File analysis: tempo and meter
  maps, tick-to-millisecond conversion, bar lines, track overview, the expected-hit
  timeline, metronome beats and the playback schedule.
- `transport` — the session state machine behind play, pause, stop, seek, speed, the
  playback ticker and incoming hits; the caller passes in wall-clock time.
- `audio_engine` — sample-accurate event queue for the synthesizer, channel programs,
  drum muting, player-hit feedback, device identifiers and their listing order.
- `midi_input` — recognising pad hits in raw MIDI messages.
- `sorting`, `text` — small helpers.

`app/` is the desktop shell around it: Tauri commands, SQLite storage, the cpal output
stream and oxisynth synthesizer, midir input, and the serialisable copies of the
library's types.
