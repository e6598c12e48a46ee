# erasure

Erasure coding for blobs, the fixed-size packets of a ledger, verified with Verus.

Sixteen data blobs and four coding blobs form an erasure set. As long as no more than four
blobs of a set are missing, all of them can be recovered.

| module      | contents                                                             |
|-------------|----------------------------------------------------------------------|
| `galois`    | the field with 2^32 elements, and that it is one                     |
| `cauchy`    | Cauchy systems of linear equations: they have one solution           |
| `blocks`    | coding blocks as linear combinations of data blocks                  |
| `decode`    | restoring lost blocks, and that what was encoded comes back          |
| `packet`    | blobs and their header                                               |
| `layout`    | which blobs form an erasure set                                      |
| `window`    | generating the coding blobs of a window                              |
| `recovery`  | recovering missing blobs from what a ledger holds                    |
| `laws`      | what coding and recovery promise together                            |
| `endian`    | little-endian numbers                                                |
| `positions` | positions of flags in a list                                         |

`app/` holds the storage access and the logging around the library.

The coding follows the layout of the jerasure library for 32-bit words: the field polynomial
is x^32 + x^22 + x^2 + x + 1, and the coefficient of data block `j` in coding block `i` of `m`
is the reciprocal of `i xor (m + j)`. Words are little-endian.
