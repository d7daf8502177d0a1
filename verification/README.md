# led_remote

Transmitter for the Rayrun RM12 LED remote control: it takes the place of the
physical remote and puts the same on/off keyed packets on the air, at 433.92 MHz,
through any radio that SoapySDR supports.

## Layout

- `src/` is the library, verified with Verus: packets, signal, decoder, the press
  counter, recordings, and what the command line, the web interface and the
  HomeKit accessory decide.
- `tests/` runs the library on concrete values.
- `app/` is the program around it: arguments, files, the radio, HTTP and HomeKit.

## What is proved

- A packet carries the device id, the command, its redundancy byte and the press
  counter, and no two presses share one unless command and counter agree
  (`packet`, `button`).
- The signal of a press, with silence before and after it, decodes to the packet as
  many times as it was repeated (`round_trip`), at every sample rate from 1025 Hz on
  but for a band from 1500 to 1582 Hz, and at no other (`timing`, `resolution`).
- Several presses, with silence between them, decode to their packets in the order in
  which they were sent (`recording`).
- Both hold after the signal has been smoothed and sliced, as long as the smoothing
  window is short enough: from 20 kHz on, 400 µs will do (`smoothing`, `recording`).
  This is proved of every slicing that meets the relation `slices` in `envelope`, which
  leaves the threshold open. The slicer in `app/` works in floating point and is not
  proved to meet it; the tests run such a slicer.
- Runs of other lengths decode too, as long as they lie on the right side of the
  decoder's bounds (`round_trip`).
- Durations become sample counts as an integer model of single-precision arithmetic
  has it, with each product rounded to a 24-bit significand (`timing`). That the model
  agrees with `f32` is not proved; the tests compare the two.
- The press counter is advanced by one, modulo 16, for each press; setting it
  decides the next press; two presses in a row never share a packet (`counter`).
- Samples that are written to a file are read back (`capture`).
- A burst is handed to the radio in order, each sample once, with the end marked
  (`transmit`).
- A setup pin is read back from the way it is shown, generated pins can serve, and
  generated addresses are locally administered and unicast (`homekit`).
- After the lightbulb service has been moved, no instance id occurs twice, provided
  that none did within either service and that the ids of its characteristics were
  above its own (`iids`).

What is taken on trust of other crates stands next to the call, in `json`,
`homekit` and `command`: a contract for each function that is called.

## Usage

```sh
led_remote info                              # protocol summary
led_remote encode turn_on -o turn_on.cf32    # baseband samples to a file
led_remote transmit turn_on -g 50            # on the air
led_remote transmit --cmd 0x0C               # probe a command byte
led_remote reset-counter 0                   # next press takes counter 0
led_remote serve --homekit                   # web interface and HomeKit
led_remote devices                           # radios that SoapySDR sees
```

The web interface answers `POST /press/<button>` and `POST /raw/<hex|dec>`.
