# Redline

Race around a procedurally generated planet. The crate is split in two:

* `src/` — the `redline` library, verified with Verus: the race rules (gates,
  laps, lap times, placing), start lights and banners, the results board,
  craft kits and circuit parameters, drive scripts, key handling, the
  command line, stuck/inverted recovery decisions, bump recoil and pairing,
  opponent respawn / aim / speed-regime decisions, scenery picks and prop
  seeds, the sky map, the icosphere and crystal-spike index topology, the GLB
  container layout, and the avalanche hash.
* `app/` — the game around it: window, renderer, Blade physics, float
  geometry (terrain noise, track queries, steering, cameras), and I/O.

## Units in the library

The library holds no floating-point values. Real quantities are fixed point:

| quantity            | unit                       |
|---------------------|----------------------------|
| time                | milliseconds               |
| length, distance    | millimetres                |
| speed               | millimetres per second     |
| angles              | milliradians               |
| scales, tints       | thousandths (1000 = 1.0)   |
| throttle / steer    | thousandths in [-1000, 1000] |
| race score, lap fraction | millionths            |

The game converts at the boundary (`app/config.rs`, `app/race.rs`,
`app/trace.rs`, `app/vehicle.rs`).

## Layout

```
src/ai.rs          opponent respawn watch, aim point, speed regime
src/config.rs      planet and race parameters
src/control.rs     held keys, key events, throttle/steer targets
src/countdown.rs   3-2-1-GO start lights
src/game.rs        command line, smoke budget, opponent grid, bump pairs
src/glb.rs         GLB binary chunk layout and file framing
src/helpers.rs     hash, sky map, u32 parsing, time text, model paths
src/lap_callout.rs lap / final lap / finish / best sector banners
src/menu.rs        garage crafts and circuits
src/planet.rs      scenery picks, prop seeds, icosphere and spike topology
src/race.rs        the race state machine and placing
src/results.rs     post-race results board
src/trace.rs       canned drive scripts
src/vehicle.rs     craft kits, bump recoil and the recovery monitor
```
