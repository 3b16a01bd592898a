# speech_audio

The audio side of a speech server, as a library verified by Verus.

- `src/` is the verified library. `audio` holds its three services: encoding of
  a response's samples (WAV, raw PCM, and the formats of a media library),
  change of speed, and conversion of a request's audio to a mono WAV file.
- Samples are IEEE 754 singles. `rounding` and `number` are their arithmetic,
  exact up to one rounding to nearest for each operation; `laws`, `sample`,
  `speed`, `rate`, `reads`, `range`, `frame` and `downmix` state what follows
  from that for audio.
- `encoder` and `convert` are the courses of an encoding and of a conversion:
  each says which call to the media library is due and takes what came of it.
  `calls` states the order of the calls of an encoding and what they write,
  `outcome` what leaves a trace in the result of a whole conversion.
- `wav` writes through `hound`; its trusted declarations stand there and nowhere
  else.
- `app/` makes the calls to ffmpeg and to the file system.
- `tests/` compares the arithmetic with that of the machine and runs every
  service.
