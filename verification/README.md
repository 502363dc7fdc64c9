# kvs_streamer

Streams pictures from a camera to Kinesis Video Streams: JPEG in, H.264 in a Matroska container out, sent in
chunks over a connection that a signed request opens.

- `src/` is the library, verified with Verus. It holds everything that is decided and computed: the order in
  which a video device is asked things, the layout of the container and of the codec's private data, the
  signed request, the chunks, and what comes after each event on either side of the stream.
- `app/` is the program: the command line, the video device, the connection, the threads.
- `tests/` runs the library, with the real codecs and the real signer.

## What is proved

The laws are public proof functions whose names begin with `law_`. Among them:

- all that is ever handed out is one container, with every frame in it once and in turn (`mkv::law_stream`,
  `streaming::network::law_video`), and each cluster is handed out by itself when its last frame has come
  (`mkv::history::law_rounds`, `streaming::network::history::law_pictures`);
- cutting the buffer after each cluster loses nothing (`mkv::history::law_nothing_lost`);
- what is sent in chunks is what a receiver reads (`streaming::wire::law_chunks_carry_the_data`);
- every unit of an encoded frame is in its block once (`annexb::law_every_unit_once`);
- no call and no frame is lost between reports (`monitoring::law_calls_are_kept`,
  `streaming::camera::law_frames_are_kept`).

## What is trusted

Functions marked `external_body`, and `assume_specification` items, are believed. Each stands next to the code
that calls it, and its comment says which function of which crate it stands for and what is claimed of it.

## Running

Credentials come from the environment, or from a file `.env` in the working directory:

```
AWS_STREAM_ACCESS_KEY=...
AWS_STREAM_SECRET_KEY=...
AWS_STREAM_NAME=...
AWS_STREAM_ARN=...
AWS_STREAM_REGION=...
```

`stream --device /dev/video0` streams; `capture --device /dev/video0 --file picture.jpg` takes one picture.
