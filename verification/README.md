# launch

An app launch toolkit: icon bundles for every platform, device-frame
mockups, store screenshots, Simulator and Android captures, screen
recordings cut into clips, titled videos and text to speech.

- `src/` is the library, verified with Verus: the icon sets and the plan of
  an icon bundle (`config`), the curated devices and how a screenshot is
  placed in a frame (`device`), clip and freeze arithmetic on recordings
  (`timeline`), the ffmpeg filters and arguments (`ffmpeg`), video titles
  (`title`), capture and file naming rules (`capture`), ZIP entries (`bundle`), the
  PNG marker read back from a file's bytes (`mockup`), and the TTS settings, curl configs and reply
  decoding (`tts`). Times are whole microseconds.
- `app/` is the command-line program around it: argument parsing, files,
  processes, images, fonts and JSON.
- `tests/` runs the library on concrete values.
