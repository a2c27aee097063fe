# Cascade

The decisions of a many-to-many live audio daemon, with proofs: what is sent to whom and when,
how received channels are kept in step, how devices are found, opened and lost, and what the
web interface's messages change.

The executable functions in `src/` carry contracts that Verus proves, with two exceptions: the
wrappers around outside calls, whose contracts are trusted (see below), and `FramePool::give`,
which promises nothing, since other threads decide whether its buffer is kept. Samples travel through
the library as bit patterns and are never computed with; arithmetic on them, sockets, devices,
threads and HTTP are the business of `app/`.

## Layout

| Module | What it holds |
| --- | --- |
| `audio::geometry` | Receive-buffer setpoints, ring sizes and averaging windows |
| `audio::drift` | The depth average and its relay, and the buffer display |
| `audio::sync` | Ratios, group mean, skew relay and output masks |
| `audio::peer_group`, `audio::resample` | One render cycle over a peer's channels, and their resample jobs |
| `audio::splice` | Lengthening and shortening a frame at zero crossings |
| `audio::capture`, `audio::frame_pool` | The capture callback: frame grid, drain rounds, wire stamps, buffers |
| `audio::routing`, `audio::encode` | Send tables, streams and their encoders, packets |
| `audio::device_manager`, `audio::device_watcher`, `audio::live_input` | Device loss and return |
| `audio::ebu_tone` | The line-up tone's pattern |
| `audio::backend` | What each host's device layer decides: ALSA, WASAPI, CoreAudio |
| `api` | Settings, messages, requests, meters, inventory and the listener's address |
| `names`, `text` | Tables keyed by name, numbers as text |

Public proof functions named `law_…` state what holds across functions. `tests/` runs the
library; `app/` is ordinary Rust around it.

## What is taken on trust

`crossbeam_channel` carries the pooled frame buffers (`audio::frame_pool`) and `serde_json` parses
messages (`api::json`). Each call stands behind a small wrapper whose contract says what is
relied on.
