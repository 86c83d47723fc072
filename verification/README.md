# scream

A screen streaming server for Wayland. It captures an output or every window, and serves the picture
over rtsp, as webm, matroska, mpeg-ts, hls and mjpeg over http, and to dlna players.

## Layout

`src/` is the library: everything that needs neither a compositor nor an encoder nor a socket, with
contracts that Verus proves.

| module | what it holds |
| --- | --- |
| `http` | one request, read line by line |
| `server` | routing, responses, chunked framing, when a stream is given up |
| `hls`, `hls_state` | cutting a transport stream into segments, the playlist, the ring that serves them |
| `dlna` | the server's identity, its descriptions, and the SOAP actions it answers |
| `ssdp`, `relay` | announcements and searches, and the tunnel that carries them past a NAT |
| `capture`, `windows`, `watch_run` | a capture session step by step, the watch on the windows and what it reports over a run |
| `streams`, `layout` | which windows are composed, and the grid they are tiled into |
| `audio`, `time` | the audio timeline and its fan-out, the pacing of feed loops |
| `pipeline` | pipeline descriptions and canvas sizes |
| `metrics` | client counts and their exposition |
| `text`, `numbers` | strings and numbers as the others need them |

`app/` is the program around it: command line, sockets, Wayland connections and GStreamer pipelines.

`tests/` runs the library on concrete values.

What is taken on trust is marked where it stands: a handful of `std` functions, each with a comment
that says what is claimed of it.
