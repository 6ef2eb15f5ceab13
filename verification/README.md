# PMS5003

An interface to the [Plantower PMS5003](https://www.plantower.com/en/products_33/74.html)
particulate air quality sensor, with a core that is verified with Verus.

* `src/` is the verified core.
  * `frame` is the layout of a data frame and its checksum.
  * `pms5003` reads one frame from the serial byte stream, step by step; `scan` and `run` state what
    it finds there and when it gives up; `stream` says when a stream of frames ends.
  * `aqi` sums frames up over intervals of equal length in a rotating set of slots; `history` states
    how a report relates to the frames that were received; `report` turns a sample into text.
  * `monitor` is the state of a background task that takes in frames and answers queries.
  * `duration` and `clock` are lengths of time and the system clock.
* `app/` is the program around it: the serial port, threads, tasks, the local time zone, and the air
  quality index, which is computed in floating point.
* `tests/` runs the core.

Some things are taken on trust, each marked where it stands: that bincode decodes big-endian words,
that std reads the system clock, and the error types of bincode, serialport and std, of which nothing
is claimed.

The data is for informational purposes only and should not be used for critical decision-making,
especially in medical settings.
