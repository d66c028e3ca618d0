# raytracer core

A single-threaded Whitted-style raytracer whose integer core is verified with
Verus.

- `src/rng.rs`: the xorshift64 generator; each call yields 53 random bits.
- `src/decimal.rs`: decimal text of integers and the integer reader used for
  command-line values, with the proof that reading back written text gives
  the number.
- `src/ppm.rs`: the plain PPM (P3) encoder: header, scanline text, whole file.
- `src/cli.rs`: the `--width`, `--height`, `--samples`, `--depth`, `--out`
  option reader.
- `app/`: the program: floating-point geometry, materials, camera and shading,
  the scene, file output and timing.
