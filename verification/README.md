# leek_game

The rules of leek fights, with proofs.

Leeks are programs that fight on a grid. This crate holds everything that
decides such a fight and nothing that runs a program: a function of the fight
takes plain values and answers plain values, and every one of them has a
contract that Verus proves.

There are two kinds of fights.

* Fights on a drawn board (`world`, `fighter`, `turns`, `flow`, `cast`,
  `strike`, `impact`, `harm`, `reduce`, `summon`, `walk`, `queries`, `calls`,
  `runner`, `outcome`, `actions`). The board is a diamond of cells (`map`,
  `mapgen`, `components`, `sight`, `path`, `quest`, `flee`, `slide`, `mask`),
  drawn from the stream of random numbers in `rng`; `order` decides who begins.
* Fights on a plain grid (`fight`, `entity`, `effects`, `might`, `grid`,
  `route`, `assault`, `game`, `opening`, `rounds`), with the items of `weapons`
  and `chips`.

`items` and `catalog` hold and read tables of items. `number` is the arithmetic
of doubles, rounding and all, in integers, so that the formulas of `power` and
`might` are exact. `json` is the boundary to `serde_json`.

`app/` runs programs: it turns their values into those of the library, keeps
the fight in a shared handle, and takes the roots and powers that need
floating-point numbers.
