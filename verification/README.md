# atlas

A float-free, integer-only engine over the bf16 weights of a language model read as cells, with its
arithmetic, file formats and number-theoretic maps stated as Verus contracts and proved.

## Layout

`src/` is the verified library:

| module | what |
|---|---|
| `cells` | a bf16 pattern as a cell ⟨m\|n⟩ on its sheet; decompose and recompose |
| `surfaces` | the dictionary's atoms, the Morton tile schedule, grids, the config and tensor-list readers |
| `matmul`, `fold`, `fiberkernel`, `forward` | exact dot products: the bucket, the radix fold, the 2-adic fiber walk; argmax and top-k |
| `cub`, `cubfile`, `cubread` | the fold cube: its bytes, its header reader, and the cube kernel |
| `cubtrip`, `cubopen` | the cube read back: the header's text piece by piece, and what opening a written cube gives |
| `cache`, `clock` | the sealed acquisition of a transcript and the three-ring clock that stamps it |
| `gate` | the source gates: no IEEE type name, no path to the weights |
| `lanes` | facts about 128-bit words and the 256-bit lane built from two |
| `fiber`, `maelstrom`, `brocot`, `big` | the 2-adic fibers, the two rays and the ladder, the Stern–Brocot tree and Minkowski's ?, big integers |
| `quat`, `render`, `ball` | integer rotations by Lipschitz quaternions, the ball projection and its mesh |
| `pf` | the Pedro Fibonacci set of a cycler run |
| `oscillator` | cycle 1 and update 1 of the construction, with their gates |
| `tp` | cycle 2's found set, its fibers, their neighbours and hop distances |
| `guess` | the transcript's n-gram guess at what follows |
| `rns`, `readback` | the residue rings (Shoup products, Fermat inverses, Garner's reconstruction) and the card's host side: atom packing, the dispatch schedule, the nine-limb readback collapse |

Every kernel cell is the exact sum rounded once: a cell whose exact sum would leave the 256-bit
lane is outside the kernels' contracts, as the card refuses it.

Laws that relate several functions stand as public proof functions, for instance
`fold::lemma_fold_is_the_bucket`, `cubread::lemma_cube_is_the_fold`, `quat::lemma_orthogonal`,
`quat::lemma_sandwich_is_matrix`, `brocot::lemma_frame_unimodular`, `brocot::lemma_frame_mediant`,
`brocot::lemma_cf_of_convergent`, `brocot::lemma_qmark_round_trip`, `brocot::lemma_cell_round_trip`,
`cubopen::lemma_cube_header_reads`, `cubopen::lemma_cube_tiles`, `fiber::lemma_cells_are_distinct_points`,
`ball::lemma_observe_once`, `rns::lemma_crt_residues`, `rns::lemma_modinv_times`
and `ball::lemma_tight`.

`app/` is the command-line tool around it (files in, receipts out): `atlas cub write|info`,
`atlas ball`, `atlas maelstrom`, `atlas pf_set`, `atlas gates`, `atlas oscillator`,
`atlas tp_plot` (the SVG's pixel layout is drawing and stays there).

`tests/` runs the library on concrete values.

Not here: the forward pass, the chat turn, attention, the MLP and the card kernels. They run on
the GPU through wgpu and WGSL, or in floating point inside the V5 crate, which is not part of
this tree; the retired radix and fiber benchmarks are likewise left out, their production form
being `fold::row_kernel` and `fiberkernel::matmul_positions`.
