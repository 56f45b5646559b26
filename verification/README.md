# VocalSieve

VocalSieve listens to a live audio stream, recognises voices that were recorded
beforehand, and suppresses or enhances them.

`src/` is the library, written in Verus: every function carries a contract that
Verus proves, but for three wrappers in `text` around the standard library's
Unicode tables, whose contracts are trusted. `app/` is the command line program
around it: devices, streams, files and the machine's floating-point arithmetic.

| module            | what it holds                                                       |
|-------------------|---------------------------------------------------------------------|
| `arithmetic`      | the operations on samples, which the program supplies               |
| `rounding`        | rounding to 24 significant bits, on integers                        |
| `mode`            | the processing modes and their parameters                           |
| `framing`         | frame and hop sizes                                                 |
| `features`        | loudness, sub-band energies, mel spectra                            |
| `target`          | the voices looked for, and similarity to them                       |
| `reference`       | the features of a recorded voice                                    |
| `processor`       | the signal path: frames, gain, overlap and addition                 |
| `feature_laws`    | what holds of the features                                          |
| `similarity_laws` | what holds of the similarities                                      |
| `gain_laws`       | what holds of the gain                                              |
| `stream_laws`     | what holds of the stream as a whole                                 |
| `channels`        | interleaved channels and the one that is processed                  |
| `resample`        | captured batches: interpolation to the output rate, the signal path |
| `output`          | what waits in front of the output device                            |
| `devices`         | listing and finding audio devices                                   |
| `cable`           | recognising virtual audio cables                                    |
| `setup`           | the dialogue in which targets are recorded                          |
| `text`            | comparison and search of text                                       |

The signal path is written over an abstract sample type. The contracts say which
operations are applied to which samples in which order; they ask of the
arithmetic only that each operation is a function of its operands. Laws that need
more of it, such as an order or a product that commutes, say so.
