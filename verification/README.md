# xirr

Internal rate of return for dated payments, written in Verus.

The rate is the one a spreadsheet shows, including which root it picks where
several exist. Where a spreadsheet gives up, a bracketed search over every rate
a double can express takes over. Every non-answer is named.

## Numbers

Numbers are IEEE 754 doubles held as bit patterns (`double`). Addition,
subtraction, multiplication and division are computed in integers and proved to
be the exact result rounded once (`rounding`, `arithmetic`). The elementary
functions, whose last digit each platform decides, are handed in by the caller
as one function from a `Call` to a number (`host`). Contracts then say what is
returned for every function `m` that the caller's function follows.

## Layout

| Module                                            | Holds                                                        |
| ------------------------------------------------- | ------------------------------------------------------------ |
| `double`, `rounding`, `arithmetic`, `integers`    | the number format                                            |
| `rounding_laws`, `growth`                         | what rounding guarantees                                     |
| `host`                                            | what the solver asks of its surroundings                     |
| `optimize`                                        | Newton's method, Brent's method, crossings, and their laws   |
| `payments`, `date_laws`                           | dates, validation, year fractions                            |
| `sorting`, `netted`, `netted_laws`                | netting by date, and what it depends on                      |
| `sign_laws`, `descartes`, `root_bound`            | what sign changes prove about roots                          |
| `size_laws`                                       | no overflow, no underflow, and the root test as a ratio      |
| `scaling_laws`, `denomination_laws`               | multiplying every amount by a power of two                   |
| `log_rate`, `grid_laws`                           | log-rates, and the grid that spans them                      |
| `search`, `flow`, `cash_flow`                     | the objective, its roots, the rate each policy selects       |
| `xirr`, `xirr_laws`, `enumeration_laws`           | the public functions and what they promise                   |
| `binding`, `binding_laws`                         | the surface a scripting host calls                           |

`app/` is the Node.js module around `binding`.

## Trust

One function is taken on trust: `binding::julian_day_of`, which calls
`time::OffsetDateTime::from_unix_timestamp`.

What the caller's function answers is not proved either: the elementary
functions, and the year fractions of the conventions whose years vary with the
calendar. The contracts hold for whatever it answers. Laws that need more of it
say what, such as that powers of `e` with exponents up to zero lie between zero
and one.
