# th420_display

A daemon and two configuration windows for the round LCD of the Thermaltake
TH420 V2 cooler. The daemon reads the sensors of the machine, draws a picture
and streams it to the display; the windows edit the configuration, upload
standby pictures and boot animations, and manage profiles and the service.

`src/` is the library. Every function in it is verified with Verus, except for
the few short functions that only call another crate or the standard library:
Verus believes their contracts, and the comment above each says what is claimed
of the call. The modules:

- `device`, `boot`, `hidraw`: the reports of the USB protocol, the container of
  boot animations, the search for the two interfaces
- `media`, `media_page`: pictures, GIF animations and the jobs made of them
- `sensors`: which files hold the sensor values, and what they say
- `config`, `layout`, `color`: the configuration and its migration, the places
  of the readings, color maps
- `renderer`, `backdrop`: what is drawn, and the background picture
- `single`, `arith`, `fixed`: single-precision numbers in their IEEE 754
  encoding, arithmetic on them, and their decimal form
- `editor`, `input`, `schedule`, `device_page`, `profiles_page`: the state of
  the windows
- `profile`, `storage`, `paths`: profiles and their files
- `service_manager`, `jobs`, `cli`, `desktop`, `diagnostics`: the service, the
  child processes, the command line and the reports
- `text`, `bytes`, `order`, `table`, `error`: what the others are built from

Proof functions whose names begin with `law_` state what holds across several
functions.

`app/` holds what touches the outside: USB and file access, threads and child
processes, the windows, and the drawing of text. It reads the font and the icon
from `assets/` beside the program.

`tests/` runs the library on concrete values.
